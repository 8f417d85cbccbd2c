use puzzles::lists::{count, middle, similarity, sorted_copy, total_distance};

#[test]
fn distance_of_the_sample_lists() {
    assert_eq!(total_distance(&vec![3, 4, 2, 1, 3, 3], &vec![4, 3, 5, 3, 9, 3]), 11);
    assert_eq!(total_distance(&vec![], &vec![]), 0);
    assert_eq!(total_distance(&vec![i32::MIN, i32::MAX], &vec![i32::MAX, i32::MIN]), 0);
    assert_eq!(total_distance(&vec![i32::MIN], &vec![i32::MAX]), u32::MAX as u128);
}

#[test]
fn similarity_of_the_sample_lists() {
    assert_eq!(similarity(&vec![3, 4, 2, 1, 3, 3], &vec![4, 3, 5, 3, 9, 3]), Some(31));
    assert_eq!(similarity(&vec![-2, 5], &vec![-2, -2, 7]), Some(-4));
    assert_eq!(similarity(&vec![], &vec![1]), Some(0));
    assert_eq!(similarity(&vec![i32::MIN, i32::MIN], &vec![i32::MIN; 3]), Some(6 * (i32::MIN as i128)));
    assert_eq!(count(&vec![4, 3, 5, 3, 9, 3], 3), 3);
    assert_eq!(count(&vec![4, 3, 5, 3, 9, 3], 8), 0);
}

#[test]
fn sorting_keeps_every_number() {
    assert_eq!(sorted_copy(&vec![3, -1, 3, 2, 0]), vec![-1, 0, 2, 3, 3]);
    assert_eq!(sorted_copy(&vec![]), Vec::<i32>::new());
    assert_eq!(middle(&vec![75, 47, 61, 53, 29]), 61);
    assert_eq!(middle(&vec![1, 2]), 2);
}
