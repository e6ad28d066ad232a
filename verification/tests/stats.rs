//! Medians.

use globstar::stats::median;

#[test]
fn median_of_samples() {
    assert_eq!(median(&vec![7]), 7);
    assert_eq!(median(&vec![3, 1, 2]), 2);
    assert_eq!(median(&vec![4, 1, 3, 2]), 3);
    assert_eq!(median(&vec![5, 5, 1, 5, 9]), 5);
    assert_eq!(median(&vec![9, 8, 7, 6, 5, 4, 3, 2, 1]), 5);
}
