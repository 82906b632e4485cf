use puzzle_solvers::calibration::{
    operator_add, operator_concatenate, operator_multiply, part_one, part_two, read_equation,
    read_equations, sum_values, values_of, Equation, ReadLine,
};

const FIXTURE: &str = "190: 10 19
3267: 81 40 27
83: 17 5
156: 15 6
7290: 6 8 6 15
161011: 16 10 13
192: 17 8 14
21037: 9 7 18 13
292: 11 6 16 20
";

#[test]
fn day07_test_part_one() {
    let result = part_one(FIXTURE);
    assert_eq!(result, Some(3749));
}

#[test]
fn day07_test_part_two() {
    let result = part_two(FIXTURE);
    assert_eq!(result, Some(11387));
}

#[test]
fn calibration_operators() {
    assert_eq!(operator_add(2, 3), Some(5));
    assert_eq!(operator_add(usize::MAX, 1), None);
    assert_eq!(operator_multiply(6, 7), Some(42));
    assert_eq!(operator_multiply(usize::MAX, 2), None);
    assert_eq!(operator_concatenate(12, 345), Some(12345));
    assert_eq!(operator_concatenate(12, 0), Some(120));
    assert_eq!(operator_concatenate(0, 7), Some(7));
    assert_eq!(operator_concatenate(7, 10), Some(710));
    assert_eq!(operator_concatenate(1, usize::MAX), None);
    assert_eq!(operator_concatenate(usize::MAX, 1), None);
}

fn equation(test_value: usize, ops: &[usize]) -> Equation {
    Equation { test_value, ops: ops.to_vec() }
}

#[test]
fn calibration_equations() {
    assert_eq!(equation(190, &[10, 19]).is_valid(false), 190);
    assert_eq!(equation(83, &[17, 5]).is_valid(false), 0);
    assert_eq!(equation(156, &[15, 6]).is_valid(false), 0);
    assert_eq!(equation(156, &[15, 6]).is_valid(true), 156);
    assert_eq!(equation(5, &[5]).is_valid(false), 5);
    assert_eq!(equation(5, &[]).is_valid(false), 0);
    assert!(equation(292, &[11, 6, 16, 20]).solve(false, 11, 1));
    assert!(!equation(292, &[11, 6, 16, 20]).solve(false, 293, 1));
}

#[test]
fn calibration_gives_up_above_the_value() {
    // 5 * 3 exceeds 0 before the product with 0 could bring it back.
    assert_eq!(equation(0, &[5, 3, 0]).is_valid(false), 0);
    assert_eq!(equation(0, &[0, 0]).is_valid(false), 0);
}

#[test]
fn calibration_values_keep_their_order() {
    let list = vec![equation(190, &[10, 19]), equation(83, &[17, 5]), equation(6, &[2, 3])];
    assert_eq!(values_of(&list, false), vec![190, 0, 6]);
    assert_eq!(sum_values(&vec![190, 0, 6]), Some(196));
    assert_eq!(sum_values(&vec![usize::MAX, 1]), None);
    assert_eq!(sum_values(&vec![]), Some(0));
}

#[test]
fn calibration_reads_lines() {
    let chars: Vec<char> = "12: 3 4".chars().collect();
    match read_equation(&chars, 0, chars.len()) {
        ReadLine::Given(e) => {
            assert_eq!(e.test_value, 12);
            assert_eq!(e.ops, vec![3, 4]);
        }
        _ => panic!("an equation was expected"),
    }
    assert!(matches!(read_equation(&chars, 0, 2), ReadLine::Broken));
    let chars: Vec<char> = "x: 3 4".chars().collect();
    assert!(matches!(read_equation(&chars, 0, chars.len()), ReadLine::Skipped));
    let chars: Vec<char> = "12: 3  4".chars().collect();
    assert!(matches!(read_equation(&chars, 0, chars.len()), ReadLine::Broken));
}

#[test]
fn calibration_refuses_broken_text() {
    assert_eq!(part_one("12: 3 4\n\n7: 7\n"), None);
    assert_eq!(part_one("12: 3 x\n"), None);
    assert_eq!(part_one("12: 3 4\nx: 1 2\n7: 7"), Some(19));
    assert_eq!(part_one(""), Some(0));
    assert!(read_equations("1 2").is_none());
    assert_eq!(read_equations("3: 1 2\n").unwrap().len(), 1);
}
