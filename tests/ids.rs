use eltrafico::ids::{contains_usize, find_free_ids};

#[test]
fn smallest_unused_identifier() {
    assert_eq!(find_free_ids(&vec![1, 2, 4]), 3);
    assert_eq!(find_free_ids(&vec![]), 1);
    assert_eq!(find_free_ids(&vec![0, 2, 3]), 1);
    assert_eq!(find_free_ids(&vec![3, 1, 2, 2]), 4);
    assert_eq!(find_free_ids(&vec![usize::MAX]), 1);
}

#[test]
fn membership() {
    assert!(contains_usize(&vec![4, 5], 5));
    assert!(!contains_usize(&vec![4, 5], 6));
}
