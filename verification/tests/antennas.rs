use puzzle_solvers::antennas::{
    count_antinodes, gcd_of, get_diagonal_antinodes, get_distance_antinode, part_one, part_two,
    read_antennas, resonance_points, Antenna,
};
use puzzle_solvers::square::{CellSet, Square};

const FIXTURE: &str = "............
........0...
.....0......
.......0....
....0.......
......A.....
............
............
........A...
.........A..
............
............
";

const TWO: &str = "..........
..........
..........
....a.....
..........
.....a....
..........
..........
..........
..........
";

const THREE: &str = "..........
..........
..........
....a.....
........a.
.....a....
..........
..........
..........
..........
";

#[test]
fn day08_test_part_one() {
    let result = part_one(TWO);
    assert_eq!(result, Some(2));
    let result = part_one(THREE);
    assert_eq!(result, Some(4));
    let result = part_one(FIXTURE);
    assert_eq!(result, Some(14));
}

#[test]
fn day08_test_part_two() {
    let result = part_two(FIXTURE);
    assert_eq!(result, Some(34));
}

#[test]
fn antennas_mirror_places() {
    assert_eq!(
        get_distance_antinode(&(3, 4), &(5, 5)),
        vec![(1, 3), (7, 6)]
    );
    assert_eq!(
        get_distance_antinode(&(0, 0), &(1, 2)),
        vec![(-1, -2), (2, 4)]
    );
}

#[test]
fn antennas_in_line() {
    let mut points = get_diagonal_antinodes(&(1, 1), &(3, 3), 5);
    points.sort();
    // The shortest step is one cell down and one to the right.
    assert_eq!(points, vec![(0, 0), (1, 1), (3, 3), (4, 4)]);
    let mut points = get_diagonal_antinodes(&(0, 0), &(1, 2), 5);
    points.sort();
    assert_eq!(points, vec![(0, 0), (1, 2), (2, 4)]);
    let mut points = get_diagonal_antinodes(&(2, 3), &(2, 1), 4);
    points.sort();
    assert_eq!(points, vec![(2, 0), (2, 1), (2, 3)]);
    assert_eq!(gcd_of(12, 18), 6);
    assert_eq!(gcd_of(0, 5), 5);
    assert_eq!(gcd_of(7, 0), 7);
}

#[test]
fn antennas_of_a_map() {
    let grid = Square::from_items("a.\n.b".chars().filter(|c| *c != '\n').collect()).unwrap();
    assert_eq!(
        read_antennas(&grid),
        vec![
            Antenna { frequency: 'a', row: 0, col: 0 },
            Antenna { frequency: 'b', row: 1, col: 1 }
        ]
    );
}

#[test]
fn antennas_of_different_frequencies_do_not_resonate() {
    assert_eq!(part_one("a..\n.b.\n...\n"), Some(0));
    assert_eq!(part_one("a..\n.a.\n...\n"), Some(1));
    assert_eq!(part_two("a..\n.b.\n...\n"), Some(0));
    assert_eq!(part_two("a..\n.a.\n...\n"), Some(3));
    // Every pair of three antennas is taken: the second and the third too.
    let antennas = vec![
        Antenna { frequency: 'a', row: 0, col: 0 },
        Antenna { frequency: 'b', row: 1, col: 1 },
        Antenna { frequency: 'b', row: 2, col: 2 },
    ];
    assert_eq!(count_antinodes(&antennas, 4, false), 2);
    let a = Antenna { frequency: 'b', row: 1, col: 1 };
    let b = Antenna { frequency: 'b', row: 2, col: 2 };
    assert_eq!(resonance_points(&a, &b, 4, false), vec![(0, 0), (3, 3)]);
}

#[test]
fn antennas_on_no_square() {
    assert_eq!(part_one(""), Some(0));
    assert_eq!(part_one("...\n"), None);
    assert_eq!(part_two("ab\n"), None);
}

#[test]
fn cell_sets_count_each_cell_once() {
    let set = CellSet::new(3);
    assert_eq!(set.len(), 0);
    let set = set.with(1, 2).with(1, 2).with(2, 1);
    assert_eq!(set.len(), 2);
}
