use topqueue::topqueue_final::TopQueue;
use topqueue::util::get_top;

const TEXT: &str = "In a castle of Westphalia,
        belonging to the Baron of Thunder-ten-Tronckh, lived a youth, whom
        nature had endowed with the most gentle manners.";

fn filled(capacity: usize, items: &[i32]) -> TopQueue<i32> {
    let mut q = TopQueue::new(capacity);
    for n in items {
        q.push(*n);
    }
    q
}

#[test]
fn topqueue_final_topq_basics() {
    let mut q = TopQueue::new(10);
    assert_eq!(0, q.len());
    assert_eq!(10, q.capacity());

    // Throw in a handful of values
    for n in &[1, 3, 5, 7, 21, 23] {
        q.push(*n);
    }
    assert_eq!(6, q.len());
    assert_eq!(10, q.capacity());

    // Push more than the queue will hold
    for n in &[4, 6, 12, 14, 18, 20] {
        q.push(*n);
    }
    assert_eq!(10, q.len());
    assert_eq!(10, q.capacity());

    let mut output = q.into_vec();
    output.sort_by(|a, b| b.cmp(a));
    assert_eq!(output, vec![23, 21, 20, 18, 14, 12, 7, 6, 5, 4]);
}

/// This test relies too much on the distribution of the rng,
/// with a fairly forgiving margin.
#[test]
fn topqueue_final_topq_can_handle_lots_of_values() {
    let q = TopQueue::from_iter(100, topqueue::page1::make_rands(1_000_000));
    assert_eq!(100, q.len());
    assert_eq!(100, q.capacity());

    let tops = q.into_vec();
    println!("{tops:?}");
    assert!({
        let min_top = tops.iter().min().unwrap();
        let top_000001 = i32::MAX / 10_00;
        (i32::MAX - min_top) < top_000001
    });
}

/// Ensures the queue works with other orderable items, like chars.
#[test]
fn topq_handles_generic_ordered_items() {
    let count = 5;
    let q = TopQueue::from_iter(count, TEXT.chars().collect());

    let mut all_chars: Vec<_> = TEXT.chars().collect();
    all_chars.sort_unstable();
    assert!(all_chars.ends_with(&q.into_vec()));
}

#[test]
fn export_five_of_five() {
    let q = filled(5, &[1, 5, 3, 4, 2]);
    assert_eq!(q.export_sorted(), vec![5, 4, 3, 2, 1]);
}

#[test]
fn export_evicts_smallest() {
    let q = filled(5, &[1, 5, 3, 4, 2, 7, 6]);
    assert_eq!(q.export_sorted(), vec![7, 6, 5, 4, 3]);
}

#[test]
fn export_ten_of_twelve() {
    let q = filled(10, &[1, 3, 5, 7, 21, 23, 4, 6, 12, 14, 18, 20]);
    assert_eq!(q.export_sorted(), vec![23, 21, 20, 18, 14, 12, 7, 6, 5, 4]);
}

#[test]
fn export_chars_matches_sort_and_truncate() {
    let q = TopQueue::from_iter(5, TEXT.chars().collect());
    let mut all: Vec<char> = TEXT.chars().collect();
    all.sort_by(|a, b| b.cmp(a));
    all.truncate(5);
    assert_eq!(q.export_sorted(), all);
    assert_eq!(all, vec!['y', 'w', 'w', 'w', 'v']);
}

#[test]
fn export_is_sorted_descending_and_resort_is_identity() {
    let q = filled(6, &[3, -8, 14, 14, 0, 99, -50, 27, 5, 6]);
    let out = q.export_sorted();
    let mut again = out.clone();
    again.sort_by(|a, b| b.cmp(a));
    assert_eq!(again, out);
    assert_eq!(out, vec![99, 27, 14, 14, 6, 5]);
}

#[test]
fn export_matches_full_sort_prefix() {
    let items = vec![17, -3, 42, 8, 8, 0, 99, -120, 5, 63, 21, 8];
    for k in 0..=items.len() {
        let mut sorted = items.clone();
        sorted.sort_by(|a, b| b.cmp(a));
        sorted.truncate(k);
        let q = TopQueue::from_iter(k, items.clone());
        assert_eq!(q.export_sorted(), sorted);
    }
}

#[test]
fn retained_values_do_not_depend_on_order() {
    let a = vec![4, 9, 1, 9, 7, 3, 8];
    let b = vec![9, 8, 7, 4, 3, 1, 9];
    let c = vec![1, 3, 4, 7, 8, 9, 9];
    let ra = TopQueue::from_iter(4, a).export_sorted();
    let rb = TopQueue::from_iter(4, b).export_sorted();
    let rc = TopQueue::from_iter(4, c).export_sorted();
    assert_eq!(ra, vec![9, 9, 8, 7]);
    assert_eq!(ra, rb);
    assert_eq!(ra, rc);
}

#[test]
fn zero_capacity_keeps_nothing() {
    let mut q = TopQueue::new(0);
    for n in 0..100 {
        q.push(n);
        assert_eq!(0, q.len());
    }
    assert!(q.is_empty());
    assert_eq!(q.export_sorted(), Vec::<i32>::new());
}

#[test]
fn under_fill_keeps_everything() {
    let q = filled(10, &[2, 9, -4, 9]);
    assert_eq!(4, q.len());
    assert_eq!(q.export_sorted(), vec![9, 9, 2, -4]);
}

#[test]
fn length_is_capacity_or_number_pushed() {
    let mut q = TopQueue::new(3);
    let mut pushed = 0usize;
    for n in [10, 10, 10, 10, 1, 50] {
        q.push(n);
        pushed += 1;
        assert_eq!(q.len(), pushed.min(3));
    }
}

#[test]
fn equal_to_smallest_at_capacity_keeps_values() {
    let q = filled(3, &[5, 8, 9, 5, 5]);
    assert_eq!(q.export_sorted(), vec![9, 8, 5]);
}

#[test]
fn into_vec_is_ascending() {
    let q = filled(4, &[9, -2, 40, 7, 7, 13, i32::MIN, i32::MAX]);
    assert_eq!(q.into_vec(), vec![9, 13, 40, i32::MAX]);
}

#[test]
fn strings_are_ordered_too() {
    let words = vec!["pear".to_string(), "apple".to_string(), "zebra".to_string(), "mango".to_string()];
    let q = TopQueue::from_iter(2, words);
    assert_eq!(q.export_sorted(), vec!["zebra".to_string(), "pear".to_string()]);
}

#[test]
fn get_top_agrees_with_queue() {
    let items = [12, 7, -1, 30, 7, 2];
    let q = TopQueue::from_iter(3, items.to_vec());
    assert_eq!(q.export_sorted(), get_top(&items, 3));
}
