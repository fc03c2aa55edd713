use topqueue::page1::make_rands;
use topqueue::topqueue_basic::TopQueue;

#[test]
fn topqueue_basic_topq_basics() {
    let mut q = TopQueue::new(10);
    assert_eq!(0, q.len());
    assert_eq!(10, q.capacity());

    // Throw in a handful of values
    for n in &[1, 3, 5, 7, 21, 23] {
        q.push(*n);
    }
    assert_eq!(6, q.len());
    assert_eq!(10, q.capacity());

    // Push more than the queue will hold
    for n in &[4, 6, 12, 14, 18, 20] {
        q.push(*n);
    }
    assert_eq!(10, q.len());
    assert_eq!(10, q.capacity());

    let mut output = q.into_vec();
    output.sort_by(|a, b| b.cmp(a));
    assert_eq!(output, vec![23, 21, 20, 18, 14, 12, 7, 6, 5, 4]);
}

/// This test mostly just tests the distribution of the rng,
/// with a fairly forgiving margin.
#[test]
fn topqueue_basic_topq_can_handle_lots_of_values() {
    let mut q = TopQueue::new(100);
    for n in make_rands(10_000_000) {
        q.push(n);
    }
    assert_eq!(100, q.len());
    assert_eq!(100, q.capacity());

    let tops = q.into_vec();
    println!("{tops:?}");
    assert!({
        let min_top = tops.iter().min().unwrap();
        let top_000001 = i32::MAX / 10_000;
        (i32::MAX - min_top) < top_000001
    });
}

#[test]
fn basic_is_empty_until_first_push() {
    let mut q = TopQueue::new(3);
    assert!(q.is_empty());
    q.push(-7);
    assert!(!q.is_empty());
    assert_eq!(1, q.len());
}

#[test]
fn basic_into_vec_is_ascending() {
    let mut q = TopQueue::new(4);
    for n in [9, -2, 40, 7, 7, 13, i32::MIN, i32::MAX] {
        q.push(n);
    }
    assert_eq!(q.into_vec(), vec![9, 13, 40, i32::MAX]);
}

#[test]
fn basic_equal_to_smallest_at_capacity_keeps_values() {
    let mut q = TopQueue::new(3);
    for n in [5, 8, 9, 5, 5] {
        q.push(n);
    }
    assert_eq!(3, q.len());
    assert_eq!(q.into_vec(), vec![5, 8, 9]);
}

#[test]
fn basic_zero_capacity_keeps_nothing() {
    let mut q = TopQueue::new(0);
    for n in [1, 2, 3] {
        q.push(n);
    }
    assert_eq!(0, q.len());
    assert!(q.is_empty());
    assert_eq!(q.into_vec(), Vec::<i32>::new());
}
