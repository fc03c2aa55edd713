use topqueue::page1::make_rands;
use topqueue::util::get_top;

#[test]
fn test_get_top() {
    assert_eq!(&[9, 5, 4], &get_top(&[1, 2, 3, 5, 9, 4], 3)[..]);
}

#[test]
fn get_top_more_than_available() {
    assert_eq!(get_top(&[3, -1, 8], 10), vec![8, 3, -1]);
}

#[test]
fn get_top_zero_and_empty() {
    assert_eq!(get_top(&[3, -1, 8], 0), Vec::<i32>::new());
    assert_eq!(get_top(&[], 4), Vec::<i32>::new());
}

#[test]
fn get_top_keeps_duplicates() {
    assert_eq!(get_top(&[4, 4, 1, 4, i32::MIN, i32::MAX], 4), vec![i32::MAX, 4, 4, 4]);
}

#[test]
fn page1_get_top_matches_sort() {
    let v = vec![10, 50, 20, 40, 30];
    assert_eq!(topqueue::page1::get_top(&v, 2), vec![50, 40]);
}

#[test]
fn make_rands_has_requested_length() {
    assert_eq!(make_rands(0).len(), 0);
    let v = make_rands(1000);
    assert_eq!(v.len(), 1000);
    // a thousand draws that are all equal would be a broken generator
    assert!(v.iter().any(|x| *x != v[0]));
}
