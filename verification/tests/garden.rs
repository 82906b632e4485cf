use puzzle_solvers::field::Field;
use puzzle_solvers::garden::{garden_price, part_one, part_two, plots_of, region_cells, region_price};

const SMALL: &str = "AAAA
BBCD
BBCC
EEEC
";

const LARGE: &str = "RRRRIICCFF
RRRRIICCCF
VVRRRCCFFF
VVRCCCJFFF
VVVVCJJCFE
VVIVCCJJEE
VVIIICJJEE
MIIIIIJJEE
MIIISIJEEE
MMMISSJEEE
";

const E_SHAPE: &str = "EEEEE
EXXXX
EEEEE
EXXXX
EEEEE
";

const DIAGONAL: &str = "AAAAAA
AAABBA
AAABBA
ABBAAA
ABBAAA
AAAAAA
";

#[test]
fn day12_test_part_one() {
    let result = part_one(SMALL);
    assert_eq!(result, Some(140));
    let result = part_one(LARGE);
    assert_eq!(result, Some(1930));
}

#[test]
fn day12_test_part_two() {
    let result = part_two(SMALL);
    assert_eq!(result, Some(80));
    let result = part_two(LARGE);
    assert_eq!(result, Some(1206));
    let result = part_two(E_SHAPE);
    assert_eq!(result, Some(236));
    let result = part_two(DIAGONAL);
    assert_eq!(result, Some(368));
}

fn field(text: &str) -> Field {
    Field::from_values(plots_of(text)).unwrap()
}

#[test]
fn garden_regions() {
    let f = field(SMALL);
    // The region of C: four cells, a fence of ten, eight sides.
    assert_eq!(region_price(&f, (1, 2), false), Some(40));
    assert_eq!(region_price(&f, (1, 2), true), Some(32));
    // The same region from another of its cells.
    assert_eq!(region_price(&f, (3, 3), false), Some(40));
    // The single cell of D.
    assert_eq!(region_price(&f, (1, 3), false), Some(4));
    assert_eq!(region_price(&f, (1, 3), true), Some(4));
    let region = region_cells(&f, (1, 2));
    assert_eq!(region.len(), 4);
    assert!(region.contains(2, 3));
    assert!(!region.contains(1, 3));
}

#[test]
fn garden_pays_each_region_once() {
    let f = field("AA\nAA\n");
    assert_eq!(garden_price(&f, false), Some(32));
    assert_eq!(garden_price(&f, true), Some(16));
    let f = field("AB\nBA\n");
    assert_eq!(garden_price(&f, false), Some(16));
    assert_eq!(garden_price(&f, true), Some(16));
}

#[test]
fn garden_that_is_no_square() {
    assert_eq!(part_one("AAB\n"), None);
    assert_eq!(part_one(""), Some(0));
    assert_eq!(part_two(" \n"), Some(0));
    assert_eq!(plots_of("a b\n"), vec![97, 98]);
}
