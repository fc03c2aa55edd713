//! Bounded top-k selection: queues of fixed capacity that keep the largest
//! values offered to them, on an array-backed binary min-heap, with the laws
//! that tie what they keep to a full sort.
//!
//! Beside them stand two small utilities: FizzBuzz classification and the
//! spelling of bytes as binary digits.
pub mod bits;
pub mod fb;
pub mod min_heap;
pub mod order;
pub mod page1;
pub mod page2;
pub mod selection;
pub mod topqueue_basic;
pub mod topqueue_final;
pub mod util;
