use topqueue::fb::{FBSet, FBStats, FB};

#[test]
fn classifies_by_three_and_five() {
    assert!(matches!(FB::from(1), FB::Num(1)));
    assert!(matches!(FB::from(3), FB::Fizz));
    assert!(matches!(FB::from(10), FB::Buzz));
    assert!(matches!(FB::from(15), FB::FizzBuzz));
    assert!(matches!(FB::from(0), FB::FizzBuzz));
    assert!(matches!(FB::from(98), FB::Num(98)));
}

#[test]
fn stats_start_at_zero() {
    let s = FBStats::new();
    assert_eq!(format!("{:?}", s), "FBStats { nums: 0, fizz: 0, buzz: 0, fizzbuzz: 0 }");
}

#[test]
fn set_up_to_fifteen() {
    let set = FBSet::new(15);
    assert_eq!(set.last, 15);
    assert_eq!(set.nums, vec![1, 2, 4, 7, 8, 11, 13, 14]);
    assert_eq!(format!("{:?}", set.stats), "FBStats { nums: 8, fizz: 4, buzz: 2, fizzbuzz: 1 }");
}

#[test]
fn set_update_extends_and_never_shrinks() {
    let mut set = FBSet::new(15);
    set.update(30);
    assert_eq!(set.last, 30);
    assert_eq!(set.nums, vec![1, 2, 4, 7, 8, 11, 13, 14, 16, 17, 19, 22, 23, 26, 28, 29]);
    assert_eq!(format!("{:?}", set.stats), "FBStats { nums: 16, fizz: 8, buzz: 4, fizzbuzz: 2 }");
    set.update(20);
    assert_eq!(set.last, 30);
    assert_eq!(set.nums.len(), 16);
}

#[test]
fn set_empty() {
    let set = FBSet::new(0);
    assert_eq!(set.last, 0);
    assert!(set.nums.is_empty());
}
