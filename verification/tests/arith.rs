//! Products that are compared and shared out without being taken.
use ed_compass::arith::{at_most, capped_share};

#[test]
fn products_are_compared_beyond_what_they_fit() {
    let top = u128::MAX;
    assert!(at_most(top, 7, top, 7));
    assert!(!at_most(top, 7, top, 6));
    assert!(at_most(top - 1, top, top, top - 1), "the same product, turned round");
    assert!(at_most(top - 1, top - 1, top, top - 2) == false, "one more than the other");
    assert!(at_most(top, top - 2, top - 1, top - 1));
    assert!(at_most(6, 7, 5, 9));
    assert!(!at_most(6, 8, 5, 9));
    assert!(at_most(0, 3, 5, 0));
}

#[test]
fn shares_are_taken_in_millionths_and_are_one_at_most() {
    assert_eq!(capped_share(1, 1, 3, 1), 333_333);
    assert_eq!(capped_share(2, 5, 3, 4), 833_333);
    assert_eq!(capped_share(9, 2, 3, 4), 1_000_000);
    assert_eq!(capped_share(0, 2, 3, 4), 0);
    assert_eq!(capped_share(u128::MAX / 2, u64::MAX, u128::MAX, u64::MAX), 499_999);
    assert_eq!(capped_share(u128::MAX - 1, u64::MAX, u128::MAX, u64::MAX), 999_999);
}
