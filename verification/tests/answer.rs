use puzzle_solvers::answer::to_u32;

#[test]
fn answers_that_fit() {
    assert_eq!(to_u32(0), Some(0));
    assert_eq!(to_u32(4294967295), Some(u32::MAX));
    assert_eq!(to_u32(4294967296), None);
}
