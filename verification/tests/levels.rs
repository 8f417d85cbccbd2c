use puzzles::levels::{count_safe, is_path_safe, is_path_safe_with_damper, pick};

const REPORTS: [[i32; 5]; 6] =
    [[7, 6, 4, 2, 1], [1, 2, 7, 8, 9], [9, 7, 6, 2, 1], [1, 3, 2, 4, 5], [8, 6, 4, 4, 1], [1, 3, 6, 7, 9]];

#[test]
fn two_reports_are_safe() {
    let safe: Vec<bool> = REPORTS.iter().map(|r| is_path_safe(r)).collect();
    assert_eq!(safe, vec![true, false, false, false, false, true]);
}

#[test]
fn four_reports_are_safe_with_one_level_left_out() {
    let safe: Vec<bool> = REPORTS.iter().map(|r| is_path_safe_with_damper(&r.to_vec())).collect();
    assert_eq!(safe, vec![true, false, false, true, true, true]);
}

#[test]
fn short_reports() {
    assert!(is_path_safe(&[]));
    assert!(is_path_safe(&[5]));
    assert!(!is_path_safe(&[5, 5]));
    assert!(is_path_safe(&[5, 8]));
    assert!(!is_path_safe(&[5, 9]));
    assert!(is_path_safe(&[i32::MIN, i32::MIN + 3]));
    assert!(!is_path_safe(&[i32::MIN, i32::MAX]));
    assert!(is_path_safe_with_damper(&vec![5]));
    assert!(is_path_safe_with_damper(&vec![5, 5]));
    assert!(is_path_safe_with_damper(&vec![1, 9, 2]));
    assert!(!is_path_safe_with_damper(&vec![1, 9, 20, 30]));
}

#[test]
fn picking_levels_by_position() {
    assert_eq!(pick(&vec![10, 20, 30, 40], &vec![0, 2, 3]), vec![10, 30, 40]);
    assert_eq!(pick(&vec![10, 20], &vec![]), Vec::<i32>::new());
}

#[test]
fn counting_safe_reports() {
    let reports: Vec<Vec<i32>> = REPORTS.iter().map(|r| r.to_vec()).collect();
    assert_eq!(count_safe(&reports, false), 2);
    assert_eq!(count_safe(&reports, true), 4);
    assert_eq!(count_safe(&vec![vec![]], false), 1);
    assert_eq!(count_safe(&vec![vec![]], true), 0);
}
