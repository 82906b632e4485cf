use puzzle_solvers::print_queue::{
    arrange_pages, is_strictly_ordered, is_valid_update, middle_page, part_one, part_two,
    read_rule, PageOrder, Rule, RuleLine, RuleSet,
};

const FIXTURE: &str = "47|53
97|13
97|61
97|47
75|29
61|13
75|53
29|13
97|29
53|29
61|53
97|53
61|29
47|13
75|47
97|75
47|61
75|61
47|29
75|13
53|13

75,47,61,53,29
97,61,53,29,13
75,29,13
75,97,47,61,53
61,13,29
97,13,75,29,47
";

#[test]
fn day05_test_part_one() {
    let result = part_one(FIXTURE);
    assert_eq!(result, Some(143));
}

#[test]
fn day05_test_part_two() {
    let result = part_two(FIXTURE);
    assert_eq!(result, Some(123));
}

fn rules(pairs: &[(u64, u64)]) -> Vec<Rule> {
    pairs
        .iter()
        .map(|&(page, before)| Rule { page, before })
        .collect()
}

#[test]
fn print_queue_valid_updates() {
    let rules = rules(&[(1, 2), (2, 3), (7, 1)]);
    assert!(is_valid_update(&vec![1, 2, 3], &rules));
    assert!(is_valid_update(&vec![3], &rules));
    assert!(is_valid_update(&vec![], &rules));
    assert!(!is_valid_update(&vec![2, 1], &rules));
    // The last place of a page counts.
    assert!(!is_valid_update(&vec![1, 2, 1], &rules));
}

#[test]
fn print_queue_compares_by_rules() {
    let book = RuleSet::new(&rules(&[(1, 2), (2, 1), (3, 4)]));
    assert_eq!(book.compare(1, 2), PageOrder::Before);
    assert_eq!(book.compare(2, 1), PageOrder::Before);
    assert_eq!(book.compare(4, 3), PageOrder::After);
    assert_eq!(book.compare(1, 3), PageOrder::Unordered);
    assert!(book.precedes(3, 4));
    assert!(!book.precedes(4, 3));
}

#[test]
fn print_queue_arranges_pages() {
    let list = rules(&[(1, 2), (1, 3), (2, 3)]);
    let book = RuleSet::new(&list);
    let sorted = arrange_pages(&vec![3, 1, 2], &book);
    assert_eq!(sorted, vec![1, 2, 3]);
    assert!(is_strictly_ordered(&sorted, &book));
    assert_eq!(middle_page(&vec![3, 1, 2], &list, &book, true), Some(2));
    assert_eq!(middle_page(&vec![3, 1, 2], &list, &book, false), Some(0));
    assert_eq!(middle_page(&vec![1, 2, 3], &list, &book, true), Some(0));
    assert_eq!(middle_page(&vec![1, 2, 3], &list, &book, false), Some(2));
    assert_eq!(middle_page(&vec![], &list, &book, false), None);
}

#[test]
fn print_queue_rules_that_do_not_order() {
    // 3 stands before 1 against the rule, and no rule speaks of 2.
    let list = rules(&[(1, 3)]);
    let book = RuleSet::new(&list);
    assert!(!is_strictly_ordered(&arrange_pages(&vec![3, 2, 1], &book), &book));
    assert_eq!(middle_page(&vec![3, 2, 1], &list, &book, true), None);
    assert_eq!(part_two("1|3\n\n3,2,1\n"), None);
}

#[test]
fn print_queue_reads_rules() {
    let chars: Vec<char> = "12|5".chars().collect();
    assert_eq!(
        read_rule(&chars, 0, 4),
        RuleLine::Given(Rule { page: 12, before: 5 })
    );
    assert_eq!(read_rule(&chars, 0, 2), RuleLine::Skipped);
    assert_eq!(read_rule(&chars, 0, 3), RuleLine::Broken);
    let chars: Vec<char> = "1|2|3".chars().collect();
    assert_eq!(read_rule(&chars, 0, 5), RuleLine::Broken);
}

#[test]
fn print_queue_refuses_broken_text() {
    assert_eq!(part_one("1|2\n1,2\n"), None);
    assert_eq!(part_one("1|x\n\n1,2,3\n"), None);
    assert_eq!(part_one("1|2\n\n1,2,3\n\n"), None);
    assert_eq!(part_one("1|2\n\n4294967295\n1\n"), None);
    assert_eq!(part_one("1|2\n\n4294967295\n"), Some(4294967295));
    assert_eq!(part_two("1|2\n\n1,2,3\n\n"), Some(0));
}
