use puzzle_solvers::square::{find_side, Square};
use puzzle_solvers::word_search::{count_in, has_cross, has_word, letters_of, part_one, part_two};

const FIXTURE: &str = "MMMSXXMASM
MSAMXMSMSA
AMXSXMAAMM
MSAMASMSMX
XMASAMXAMM
XXAMMXXAMA
SMSMSASXSS
SAXAMASAAA
MAMMMXMMMM
MXMXAXMASX
";

#[test]
fn day04_test_part_one() {
    let result = part_one(FIXTURE);
    assert_eq!(result, Some(18));
}

#[test]
fn day04_test_part_two() {
    let result = part_two(FIXTURE);
    assert_eq!(result, Some(9));
}

fn square(text: &str) -> Square {
    Square::from_items(letters_of(text)).unwrap()
}

#[test]
fn word_search_directions() {
    let grid = square("XMAS\nMMOO\nAOAO\nSOOS\n");
    assert!(has_word(&grid, 0, 0, 0));
    assert!(has_word(&grid, 0, 0, 2));
    assert!(has_word(&grid, 0, 0, 4));
    assert!(!has_word(&grid, 0, 0, 1));
    assert!(!has_word(&grid, 0, 3, 0));
    assert_eq!(count_in(&grid, false), Some(3));
    let grid = square("SAMX\nOOOO\nOOOO\nOOOO\n");
    assert!(has_word(&grid, 0, 3, 1));
    assert_eq!(count_in(&grid, false), Some(1));
}

#[test]
fn word_search_crosses() {
    let grid = square("MOS\nOAO\nMOS\n");
    assert!(has_cross(&grid, 1, 1));
    assert!(!has_cross(&grid, 0, 0));
    assert_eq!(count_in(&grid, true), Some(1));
    let grid = square("MOS\nOAO\nSOM\n");
    assert!(!has_cross(&grid, 1, 1));
    assert_eq!(part_two("A"), Some(0));
}

#[test]
fn word_search_letters_that_make_no_square() {
    assert_eq!(part_one("XMASX\n"), None);
    assert_eq!(part_one("XMAS\n"), Some(0));
    assert_eq!(part_one(""), Some(0));
    assert_eq!(part_one("12 .\n"), Some(0));
    assert_eq!(part_two(""), None);
    assert_eq!(part_two("XMA"), None);
}

#[test]
fn word_search_keeps_letters_only() {
    assert_eq!(letters_of("a1 b\n.c"), vec!['a', 'b', 'c']);
}

#[test]
fn square_sides() {
    assert_eq!(find_side(0), Some(0));
    assert_eq!(find_side(1), Some(1));
    assert_eq!(find_side(2), None);
    assert_eq!(find_side(16900), Some(130));
    assert_eq!(find_side(16901), None);
    let grid = square("ab\ncd\n");
    assert_eq!(grid.size(), 2);
    assert_eq!(grid.get(1, 0), Some('c'));
    assert_eq!(grid.get(0, 1), Some('b'));
    assert_eq!(grid.get(2, 0), None);
    assert_eq!(grid.get(0, 2), None);
}
