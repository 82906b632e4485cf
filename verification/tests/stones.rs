use puzzle_solvers::stones::{compute_stone, count_digits, count_stones, new_memo, part_one, part_two};

#[test]
fn day11_test_part_one() {
    let result = part_one("125 17\n");
    assert_eq!(result, Some(55312));
}

#[test]
fn stones_after_seventy_five_blinks() {
    assert_eq!(part_two("125 17\n"), Some(65601038650482));
}

#[test]
fn stones_few_blinks() {
    // 125 17 -> 253000 1 7 -> 253 0 2024 14168 -> 512072 1 20 24 28676032
    assert_eq!(count_stones(&vec![125, 17], 0, u64::MAX), Some(2));
    assert_eq!(count_stones(&vec![125, 17], 1, u64::MAX), Some(3));
    assert_eq!(count_stones(&vec![125, 17], 2, u64::MAX), Some(4));
    assert_eq!(count_stones(&vec![125, 17], 3, u64::MAX), Some(5));
    assert_eq!(count_stones(&vec![125, 17], 6, u64::MAX), Some(22));
    assert_eq!(count_stones(&vec![], 25, u64::MAX), Some(0));
}

#[test]
fn stones_digits() {
    assert_eq!(count_digits(0), 1);
    assert_eq!(count_digits(9), 1);
    assert_eq!(count_digits(10), 2);
    assert_eq!(count_digits(999_999_999_999_999_999), 18);
    assert_eq!(count_digits(u64::MAX), 20);
}

#[test]
fn stones_beyond_the_limit() {
    // 999 has three digits: its mark becomes 999 * 2024 = 2021976.
    let mut memo = new_memo(1);
    assert_eq!(compute_stone(999, 1, 2021975, &mut memo), None);
    let mut memo = new_memo(1);
    assert_eq!(compute_stone(999, 1, 2021976, &mut memo), Some(1));
    // Two stones cannot be counted with numbers up to one.
    let mut memo = new_memo(1);
    assert_eq!(compute_stone(10, 1, 1, &mut memo), None);
}

#[test]
fn stones_ignore_what_is_no_number() {
    assert_eq!(part_one("x 0 -3\n"), Some(19778));
}
