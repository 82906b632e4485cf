use puzzle_solvers::reports::{count_safe, is_safe, is_safe_without_one, part_one, part_two};

const FIXTURE: &str = "7 6 4 2 1
1 2 7 8 9
9 7 6 2 1
1 3 2 4 5
8 6 4 4 1
1 3 6 7 9
";

#[test]
fn day02_test_part_one() {
    let result = part_one(FIXTURE);
    assert_eq!(result, Some(2));
}

#[test]
fn day02_test_part_two() {
    let result = part_two(FIXTURE);
    assert_eq!(result, Some(4));
}

#[test]
fn reports_safe_levels() {
    assert!(is_safe(&vec![1, 2, 4, 7]));
    assert!(is_safe(&vec![9, 8, 5]));
    assert!(!is_safe(&vec![1, 2, 2]));
    assert!(!is_safe(&vec![1, 5]));
    assert!(!is_safe(&vec![1, 3, 2]));
    assert!(is_safe(&vec![5]));
    assert!(is_safe(&vec![]));
}

#[test]
fn reports_tolerate_one_level() {
    assert!(is_safe_without_one(&vec![1, 3, 2, 4, 5]));
    assert!(!is_safe_without_one(&vec![1, 2, 7, 8, 9]));
    assert!(!is_safe_without_one(&vec![]));
}

#[test]
fn reports_short_lines_do_not_count() {
    assert_eq!(part_one("5\n\n1 2\n"), Some(1));
    assert_eq!(count_safe(&vec![vec![1], vec![1, 9], vec![3, 2]], true), 2);
    assert_eq!(count_safe(&vec![vec![1], vec![1, 9], vec![3, 2]], false), 1);
}
