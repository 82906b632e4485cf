use puzzle_solvers::field::{next_cells, reach_from, ways_from, Field, Rule};
use puzzle_solvers::trails::{cell_value, heights_of, part_one, part_two, score, sum_over};

const FIXTURE: &str = "89010123
78121874
87430965
96549874
45678903
32019012
01329801
10456732
";

#[test]
fn day10_test_part_one() {
    let result = part_one(FIXTURE);
    assert_eq!(result, Some(36));
}

#[test]
fn day10_test_part_two() {
    let result = part_two(FIXTURE);
    assert_eq!(result, Some(81));
}

#[test]
fn trails_heights_are_the_digits() {
    assert_eq!(heights_of("01a\n 9."), vec![0, 1, 9]);
    assert_eq!(part_one("012\n"), None);
    assert_eq!(part_one(""), Some(0));
    assert_eq!(part_two("no digits"), Some(0));
}

fn field(rows: &[&str]) -> Field {
    Field::from_values(heights_of(&rows.join("\n"))).unwrap()
}

#[test]
fn field_cells_and_neighbours() {
    let f = field(&["012", "345", "678"]);
    assert_eq!(f.size(), 3);
    assert_eq!(f.get((1, 2)), Some(5));
    assert_eq!(f.get((3, 0)), None);
    assert_eq!(f.neighbours((1, 1)), vec![(0, 1), (1, 0), (1, 2), (2, 1)]);
    assert_eq!(f.neighbours((0, 0)), vec![(0, 1), (1, 0)]);
    assert_eq!(f.neighbours((2, 2)), vec![(1, 2), (2, 1)]);
    assert_eq!(f.neighbours((3, 3)), Vec::<(usize, usize)>::new());
    assert_eq!(next_cells(&f, &(0, 0), Rule::Climbing), vec![(0, 1)]);
    assert_eq!(next_cells(&f, &(0, 0), Rule::Level), Vec::<(usize, usize)>::new());
    assert_eq!(next_cells(&f, &(5, 5), Rule::Level), Vec::<(usize, usize)>::new());
    assert!(Field::from_values(vec![1, 2, 3]).is_none());
    assert!(Field::from_values(vec![]).is_none());
}

#[test]
fn trails_two_ways_to_one_summit() {
    // From the 0 two ways lead up to the one 9.
    let f = field(&["0123", "1234", "8765", "9876"]);
    assert_eq!(score(&f, (0, 0)), 1);
    assert_eq!(ways_from(&f, (0, 0)), 16);
    assert_eq!(cell_value(&f, (0, 0), false), 1);
    assert_eq!(cell_value(&f, (0, 0), true), 16);
    assert_eq!(cell_value(&f, (0, 1), true), 0);
    assert_eq!(sum_over(&f, false), Some(1));
    assert_eq!(sum_over(&f, true), Some(16));
}

#[test]
fn field_reaches_each_cell_once() {
    let f = field(&["11", "21"]);
    let mut cells = reach_from(&f, (0, 0), Rule::Level);
    assert_eq!(cells[0], (0, 0));
    cells.sort();
    assert_eq!(cells, vec![(0, 0), (0, 1), (1, 1)]);
    assert_eq!(reach_from(&f, (1, 0), Rule::Level), vec![(1, 0)]);
    assert_eq!(reach_from(&f, (0, 0), Rule::Climbing), vec![(0, 0), (1, 0)]);
}
