use puzzle_solvers::lists::{part_one, part_two, sum_distances, sum_similarity};

const FIXTURE: &str = "3   4
4   3
2   5
1   3
3   9
3   3
";

#[test]
fn day01_test_part_one() {
    let result = part_one(FIXTURE);
    assert_eq!(result, Some(11));
}

#[test]
fn day01_test_part_two() {
    let result = part_two(FIXTURE);
    assert_eq!(result, Some(31));
}

#[test]
fn lists_pass_over_lines_without_two_numbers() {
    assert_eq!(part_one("1 2\n\n7\n3 x 4 5\n5 1\n"), Some(3));
    assert_eq!(part_one(""), Some(0));
    assert_eq!(part_two("1 1\nseven 1\n1 -1\n"), Some(1));
}

#[test]
fn lists_sort_before_measuring() {
    // Unsorted the distances would be 9 + 9; sorted they are 0 + 0.
    assert_eq!(part_one("1 10\n10 1\n"), Some(0));
}

#[test]
fn lists_distance_that_does_not_fit() {
    assert_eq!(part_one("0 4294967295\n0 1\n"), None);
    assert_eq!(part_one("0 4294967295\n0 0\n"), Some(4294967295));
    assert_eq!(sum_distances(&vec![0, 5], &vec![7, 1]), Some(11));
    // As far as both lists go.
    assert_eq!(sum_distances(&vec![0, 5, 9], &vec![7]), Some(7));
    assert_eq!(sum_distances(&vec![], &vec![7]), Some(0));
}

#[test]
fn lists_similarity_counts_occurrences() {
    assert_eq!(sum_similarity(&vec![3, 3, 4], &vec![3, 3, 3, 9]), Some(18));
    assert_eq!(sum_similarity(&vec![4294967295], &vec![4294967295, 4294967295]), None);
}
