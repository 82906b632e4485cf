use puzzle_solvers::patrol::detector::{LoopDetector, WalkReport};
use puzzle_solvers::patrol::grid::{Grid, ParseError};
use puzzle_solvers::patrol::model::{Cell, Facing, Outcome, Position, State, StepResult, FACINGS};
use puzzle_solvers::patrol::search::{induces_loop, ObstructionSearch};
use puzzle_solvers::patrol::stepper::step;
use puzzle_solvers::patrol::tracer::{InvariantViolation, Tracer};
use puzzle_solvers::patrol::{part_one, part_two};
use std::collections::HashSet;

const FIXTURE: &str = "....#.....
.........#
..........
..#.......
.......#..
..........
.#..^.....
........#.
#.........
......#...
";

/// A grid on which the guard walks round four obstacles for ever.
const RING: &str = ".#..
.^.#
#...
..#.
";

fn at(row: usize, col: usize) -> Position {
    Position::new(row, col)
}

fn grid(text: &str) -> Grid {
    Grid::parse(text).unwrap()
}

/// The positions of a walk, found with nothing but `step`.
fn walk_by_hand(grid: &Grid) -> HashSet<(usize, usize)> {
    let mut seen = HashSet::new();
    let mut state = grid.start();
    loop {
        seen.insert((state.position.row, state.position.col));
        match step(state, grid, None) {
            StepResult::Exited => return seen,
            StepResult::Advanced(next) => state = next,
            StepResult::Rotated(next) => state = next,
        }
    }
}

#[test]
fn day06_test_part_one() {
    let result = part_one(FIXTURE);
    assert_eq!(result, Some(41));
}

#[test]
fn day06_test_part_two() {
    let result = part_two(FIXTURE);
    assert_eq!(result, Some(6));
}

#[test]
fn facings_turn_right_in_a_circle() {
    assert_eq!(Facing::North.rotate_right(), Facing::East);
    assert_eq!(Facing::East.rotate_right(), Facing::South);
    assert_eq!(Facing::South.rotate_right(), Facing::West);
    assert_eq!(Facing::West.rotate_right(), Facing::North);
    assert_eq!(FACINGS, 4);
    for facing in [Facing::North, Facing::East, Facing::South, Facing::West] {
        assert_eq!(facing.rotate_right().ordinal(), (facing.ordinal() + 1) % 4);
    }
}

#[test]
fn grid_parse_reads_cells_and_start() {
    let g = grid("..#\n.^.\n...\n");
    assert_eq!(g.size(), 3);
    assert_eq!(g.start(), State::new(at(1, 1), Facing::North));
    assert_eq!(g.cell_at(at(0, 2)), Some(Cell::Obstacle));
    assert_eq!(g.cell_at(at(0, 0)), Some(Cell::Open));
    assert_eq!(g.cell_at(at(1, 1)), Some(Cell::Open));
    assert_eq!(g.cell_at(at(3, 0)), None);
    assert_eq!(g.cell_at(at(0, 3)), None);
    assert_eq!(g.cell_at(at(usize::MAX, usize::MAX)), None);
    assert_eq!(g.state_bound(), 36);
}

#[test]
fn grid_parse_skips_blanks_and_empty_lines() {
    let g = grid("\n. #\r\n\n ^.\n");
    assert_eq!(g.size(), 2);
    assert_eq!(g.start().position, at(1, 0));
    assert_eq!(g.cell_at(at(0, 1)), Some(Cell::Obstacle));
    // Any other character stands for an open cell.
    let g = grid("x^\nyz");
    assert_eq!(g.cell_at(at(0, 0)), Some(Cell::Open));
    assert_eq!(g.cell_at(at(1, 1)), Some(Cell::Open));
}

#[test]
fn grid_parse_refuses_what_is_no_grid() {
    assert_eq!(Grid::parse("").err(), Some(ParseError::Empty));
    assert_eq!(Grid::parse(" \n\r\n").err(), Some(ParseError::Empty));
    assert_eq!(Grid::parse("..\n.^.\n").err(), Some(ParseError::NotRectangular));
    assert_eq!(Grid::parse("^..\n...\n").err(), Some(ParseError::NotSquare));
    assert_eq!(Grid::parse("^\n.\n").err(), Some(ParseError::NotSquare));
    assert_eq!(Grid::parse("..\n.#\n").err(), Some(ParseError::NoStart));
    // The rows come before the start: a ragged text without a start is ragged.
    assert_eq!(Grid::parse("..\n.\n").err(), Some(ParseError::NotRectangular));
    assert_eq!(part_one(""), None);
    assert_eq!(part_one("..\n..\n"), None);
    assert_eq!(part_two("...\n^\n"), None);
}

#[test]
fn grid_with_several_start_markers_takes_the_first() {
    let g = grid("...\n.^^\n^..\n");
    assert_eq!(g.start(), State::new(at(1, 1), Facing::North));
    // The other markers are open cells.
    assert_eq!(g.cell_at(at(1, 2)), Some(Cell::Open));
    assert_eq!(g.cell_at(at(2, 0)), Some(Cell::Open));
    assert_eq!(part_one("...\n.^^\n^..\n"), Some(2));
}

#[test]
fn grid_parsed_strictly_refuses_several_start_markers() {
    assert_eq!(
        Grid::parse_strict("...\n.^^\n^..\n").err(),
        Some(ParseError::AmbiguousStart)
    );
    assert_eq!(Grid::parse_strict("^^").err(), Some(ParseError::NotSquare));
    assert_eq!(Grid::parse_strict("..\n..\n").err(), Some(ParseError::NoStart));
    let g = Grid::parse_strict("..\n.^\n").unwrap();
    assert_eq!(g.start().position, at(1, 1));
}

#[test]
fn grid_from_cells() {
    let open = Cell::Open;
    let wall = Cell::Obstacle;
    let start = State::new(at(1, 0), Facing::East);
    let g = Grid::from_cells(2, vec![open, wall, open, open], start).unwrap();
    assert_eq!(g.size(), 2);
    assert_eq!(g.start(), start);
    assert_eq!(g.cell_at(at(0, 1)), Some(wall));
    assert_eq!(g.cell_at(at(1, 1)), Some(open));
    assert_eq!(
        Grid::from_cells(0, vec![], start).err(),
        Some(ParseError::Empty)
    );
    assert_eq!(
        Grid::from_cells(2, vec![open, open, open], start).err(),
        Some(ParseError::NotSquare)
    );
    assert_eq!(
        Grid::from_cells(usize::MAX, vec![open], start).err(),
        Some(ParseError::NotSquare)
    );
    assert_eq!(
        Grid::from_cells(2, vec![open; 4], State::new(at(2, 0), Facing::North)).err(),
        Some(ParseError::NoStart)
    );
    assert_eq!(
        Grid::from_cells(2, vec![open; 4], State::new(at(0, 2), Facing::North)).err(),
        Some(ParseError::NoStart)
    );
    assert_eq!(
        Grid::from_cells(2, vec![open, wall, open, open], State::new(at(0, 1), Facing::North))
            .err(),
        Some(ParseError::NoStart)
    );
}

#[test]
fn step_leaves_turns_or_moves() {
    let g = grid("...\n#^.\n...\n");
    let north = State::new(at(1, 1), Facing::North);
    assert_eq!(
        step(north, &g, None),
        StepResult::Advanced(State::new(at(0, 1), Facing::North))
    );
    let west = State::new(at(1, 1), Facing::West);
    assert_eq!(
        step(west, &g, None),
        StepResult::Rotated(State::new(at(1, 1), Facing::North))
    );
    // One more obstruction blocks like an obstacle, and only where it is.
    assert_eq!(
        step(north, &g, Some(at(0, 1))),
        StepResult::Rotated(State::new(at(1, 1), Facing::East))
    );
    assert_eq!(
        step(north, &g, Some(at(0, 0))),
        StepResult::Advanced(State::new(at(0, 1), Facing::North))
    );
    // The grid is not changed by it.
    assert_eq!(g.cell_at(at(0, 1)), Some(Cell::Open));
    // The same arguments give the same result.
    assert_eq!(step(north, &g, Some(at(0, 1))), step(north, &g, Some(at(0, 1))));
}

#[test]
fn step_off_each_edge() {
    let g = grid("...\n.^.\n...\n");
    assert_eq!(step(State::new(at(0, 1), Facing::North), &g, None), StepResult::Exited);
    assert_eq!(step(State::new(at(1, 2), Facing::East), &g, None), StepResult::Exited);
    assert_eq!(step(State::new(at(2, 1), Facing::South), &g, None), StepResult::Exited);
    assert_eq!(step(State::new(at(1, 0), Facing::West), &g, None), StepResult::Exited);
    // A state off the grid leaves at once, wherever it looks.
    let far = at(usize::MAX, usize::MAX);
    for facing in [Facing::North, Facing::East, Facing::South, Facing::West] {
        assert_eq!(step(State::new(far, facing), &g, None), StepResult::Exited);
    }
    // An obstruction off the grid changes nothing.
    assert_eq!(
        step(State::new(at(0, 1), Facing::North), &g, Some(at(7, 7))),
        StepResult::Exited
    );
}

#[test]
fn trace_collects_each_position_once() {
    let g = grid(FIXTURE);
    let visited = Tracer::trace(&g).ok().unwrap();
    let by_hand = walk_by_hand(&g);
    assert_eq!(visited.len(), 41);
    assert_eq!(by_hand.len(), 41);
    for row in 0..10 {
        for col in 0..10 {
            assert_eq!(visited.contains(at(row, col)), by_hand.contains(&(row, col)));
        }
    }
    // The guard crosses its own way at (4, 4): the cell is one position.
    assert!(visited.contains(at(4, 4)));
    assert!(visited.contains(at(6, 4)));
    assert!(!visited.contains(at(0, 0)));
    assert!(!visited.contains(at(10, 4)));
}

#[test]
fn trace_is_the_same_each_time() {
    let g = grid(FIXTURE);
    let first = Tracer::trace(&g).ok().unwrap();
    let second = Tracer::trace(&g).ok().unwrap();
    assert_eq!(first.len(), second.len());
    for row in 0..10 {
        for col in 0..10 {
            assert_eq!(first.contains(at(row, col)), second.contains(at(row, col)));
        }
    }
}

#[test]
fn trace_from_the_edge_facing_outward() {
    assert_eq!(part_one(".^.\n...\n...\n"), Some(1));
    assert_eq!(part_two(".^.\n...\n...\n"), Some(0));
    assert_eq!(part_one("^"), Some(1));
    let open = Cell::Open;
    for (position, facing) in [
        (at(0, 1), Facing::North),
        (at(1, 2), Facing::East),
        (at(2, 1), Facing::South),
        (at(1, 0), Facing::West),
    ] {
        let start = State::new(position, facing);
        let g = Grid::from_cells(3, vec![open; 9], start).unwrap();
        assert_eq!(step(start, &g, None), StepResult::Exited);
        let visited = Tracer::trace(&g).ok().unwrap();
        assert_eq!(visited.len(), 1);
        assert!(visited.contains(position));
        let report = LoopDetector::run(&g, start, None);
        assert_eq!(report, WalkReport { outcome: Outcome::Exited, steps: 1 });
    }
}

#[test]
fn trace_gives_up_on_a_grid_that_loops() {
    let g = grid(RING);
    assert_eq!(Tracer::trace(&g).err(), Some(InvariantViolation));
    assert_eq!(
        ObstructionSearch::count_loop_inducing_obstructions(&g),
        Err(InvariantViolation)
    );
    assert_eq!(
        ObstructionSearch::count_loop_inducing_obstructions_parallel(&g),
        Err(InvariantViolation)
    );
    assert_eq!(part_one(RING), None);
    assert_eq!(part_two(RING), None);
    assert_eq!(LoopDetector::detect_loop(&g, g.start(), None), Outcome::Looped);
}

#[test]
fn detect_loop_tells_loops_from_exits() {
    let g = grid(FIXTURE);
    let start = g.start();
    assert_eq!(LoopDetector::detect_loop(&g, start, None), Outcome::Exited);
    for (row, col) in [(6, 3), (7, 6), (7, 7), (8, 1), (8, 3), (9, 7)] {
        assert_eq!(
            LoopDetector::detect_loop(&g, start, Some(at(row, col))),
            Outcome::Looped
        );
        assert!(induces_loop(&g, &at(row, col)));
    }
    assert_eq!(LoopDetector::detect_loop(&g, start, Some(at(5, 4))), Outcome::Exited);
    assert_eq!(LoopDetector::detect_loop(&g, start, Some(at(0, 0))), Outcome::Exited);
    assert!(!induces_loop(&g, &at(0, 0)));
}

#[test]
fn detect_loop_counts_its_steps() {
    let g = grid(RING);
    // Eight states round the ring; the ninth state is the first again.
    let report = LoopDetector::run(&g, g.start(), None);
    assert_eq!(report, WalkReport { outcome: Outcome::Looped, steps: 8 });
    let g = grid("^.\n..\n");
    let report = LoopDetector::run(&g, State::new(at(1, 0), Facing::North), None);
    assert_eq!(report, WalkReport { outcome: Outcome::Exited, steps: 2 });
}

#[test]
fn detect_loop_stays_within_the_state_bound() {
    for text in [FIXTURE, RING, "^", ".#.\n#^#\n.#.\n"] {
        let g = grid(text);
        let bound = g.state_bound();
        assert_eq!(bound, g.size() * g.size() * 4);
        let n = g.size();
        for row in 0..n {
            for col in 0..n {
                let report = LoopDetector::run(&g, g.start(), Some(at(row, col)));
                assert!(report.steps <= bound);
                assert!(report.steps <= bound + 1);
            }
        }
    }
    // Walled in, the guard turns on the spot: four states and no more.
    let g = grid(".#.\n#^#\n.#.\n");
    let report = LoopDetector::run(&g, g.start(), None);
    assert_eq!(report, WalkReport { outcome: Outcome::Looped, steps: 4 });
}

#[test]
fn candidates_leave_out_the_start_and_the_obstacles() {
    let g = grid(FIXTURE);
    let visited = Tracer::trace(&g).ok().unwrap();
    let candidates = ObstructionSearch::candidates(&g, &visited);
    assert_eq!(candidates.len(), 40);
    let start = g.start().position;
    let mut seen = HashSet::new();
    for c in &candidates {
        assert_ne!(*c, start);
        assert_eq!(g.cell_at(*c), Some(Cell::Open));
        assert!(visited.contains(*c));
        assert!(seen.insert((c.row, c.col)));
    }
    // In reading order.
    assert_eq!(candidates[0], at(1, 4));
    assert_eq!(candidates[39], at(9, 7));
    let open = ObstructionSearch::open_cells(&g);
    // A hundred cells, eight obstacles, one start.
    assert_eq!(open.len(), 91);
    assert!(!open.contains(&start));
    assert!(!open.contains(&at(0, 4)));
}

#[test]
fn candidates_suffice() {
    for text in [
        FIXTURE,
        "^",
        ".^.\n...\n...\n",
        "..#.\n...#\n.^..\n..#.\n",
        ".#...\n....#\n.....\n.^.#.\n#....\n",
        ".#..\n...#\n#^..\n....\n",
    ] {
        let g = grid(text);
        let restricted = ObstructionSearch::count_loop_inducing_obstructions(&g).unwrap();
        assert_eq!(restricted, ObstructionSearch::count_exhaustive(&g));
    }
    assert_eq!(ObstructionSearch::count_exhaustive(&grid(FIXTURE)), 6);
}

#[test]
fn count_is_the_same_with_one_worker_or_many() {
    let g = grid(FIXTURE);
    let one = ObstructionSearch::count_loop_inducing_obstructions(&g);
    let many = ObstructionSearch::count_loop_inducing_obstructions_parallel(&g);
    assert_eq!(one, Ok(6));
    assert_eq!(many, Ok(6));
    let visited = Tracer::trace(&g).ok().unwrap();
    let candidates = ObstructionSearch::candidates(&g, &visited);
    assert_eq!(ObstructionSearch::count_trapping(&g, &candidates), 6);
    assert_eq!(ObstructionSearch::count_trapping_parallel(&g, &candidates), 6);
    // In another order.
    let mut reversed = candidates.clone();
    reversed.reverse();
    assert_eq!(ObstructionSearch::count_trapping(&g, &reversed), 6);
    assert_eq!(ObstructionSearch::count_trapping_parallel(&g, &reversed), 6);
    // In parts, as workers would take them.
    for parts in 1..=7 {
        let size = (candidates.len() + parts - 1) / parts;
        let mut sum = 0;
        for chunk in candidates.chunks(size) {
            sum += ObstructionSearch::count_trapping(&g, &chunk.to_vec());
        }
        assert_eq!(sum, 6);
    }
    // A position counts as often as it is listed.
    let twice = vec![at(6, 3), at(6, 3), at(0, 0)];
    assert_eq!(ObstructionSearch::count_trapping(&g, &twice), 2);
    assert_eq!(ObstructionSearch::count_trapping_parallel(&g, &twice), 2);
    assert_eq!(ObstructionSearch::count_trapping_parallel(&g, &vec![]), 0);
}
