use puzzle_solvers::memory::{
    decode, execute, group_value, multiply, part_one, part_two, sum_of_products, Instruction,
};

const FIXTURE: &str = "xmul(2,4)&mul[3,7]!^don't()_mul(5,5)+mul(32,64](mul(11,8)undo()?mul(8,5))\n";

#[test]
fn day03_test_part_one() {
    let result = part_one(FIXTURE);
    assert_eq!(result, Some(161));
}

#[test]
fn day03_test_part_two() {
    let result = part_two(FIXTURE);
    assert_eq!(result, Some(48));
}

#[test]
fn memory_first_example() {
    assert_eq!(
        part_one("xmul(2,4)%&mul[3,7]!@^do_not_mul(5,5)+mul(32,64]then(mul(11,8)mul(8,5))"),
        Some(161)
    );
}

#[test]
fn memory_numbers_of_one_to_three_digits() {
    assert_eq!(part_one("mul(1234,5)mul(999,999)mul(1,)mul( 2,3)"), Some(998001));
    assert_eq!(part_one(""), Some(0));
    assert_eq!(part_one("mul(0,7)mul(007,2)"), Some(14));
}

#[test]
fn memory_switches_in_the_order_of_the_text() {
    // The switches are found first and the multiplications second; only in
    // the order of their places does the first multiplication count.
    assert_eq!(part_two("mul(1,1)don't()mul(2,2)"), Some(1));
    assert_eq!(part_two("don't()mul(1,1)do()mul(2,2)"), Some(4));
    assert_eq!(part_two("don't()do()don't()mul(3,3)"), Some(0));
    assert_eq!(part_two("undo()mul(3,3)"), Some(9));
}

fn text(s: &str) -> Option<String> {
    Some(s.to_string())
}

#[test]
fn memory_products() {
    assert_eq!(group_value(&text("12")), 12);
    assert_eq!(group_value(&text("x")), 0);
    assert_eq!(group_value(&text("4294967296")), 0);
    assert_eq!(group_value(&None), 0);
    assert_eq!(multiply(&(text("6"), text("7"))), Some(42));
    assert_eq!(multiply(&(text("65536"), text("65536"))), None);
    assert_eq!(multiply(&(text("65535"), text("65537"))), Some(4294967295));
    assert_eq!(
        sum_of_products(&vec![(text("2"), text("4")), (text("5"), text("5"))]),
        Some(33)
    );
    assert_eq!(
        sum_of_products(&vec![(text("65535"), text("65537")), (text("1"), text("1"))]),
        None
    );
}

#[test]
fn memory_instructions() {
    let groups = Some(vec![(text("3"), text("4"))]);
    assert_eq!(decode("do()", &groups), Instruction::Enable);
    assert_eq!(decode("don't()", &groups), Instruction::Disable);
    assert_eq!(decode("mul(3,4)", &groups), Instruction::Multiply(Some(12)));
    assert_eq!(decode("mul(3,4)", &Some(vec![])), Instruction::Skip);
    assert_eq!(decode("mul(3,4)", &None), Instruction::Skip);
    let program = vec![
        Instruction::Multiply(Some(8)),
        Instruction::Disable,
        Instruction::Multiply(Some(25)),
        Instruction::Skip,
        Instruction::Enable,
        Instruction::Multiply(Some(40)),
    ];
    assert_eq!(execute(&program, true), Some(48));
    assert_eq!(execute(&program, false), Some(40));
    assert_eq!(execute(&vec![Instruction::Multiply(None)], true), None);
    assert_eq!(execute(&vec![Instruction::Multiply(None)], false), Some(0));
    assert_eq!(
        execute(
            &vec![Instruction::Multiply(Some(u32::MAX)), Instruction::Multiply(Some(1))],
            true
        ),
        None
    );
}
