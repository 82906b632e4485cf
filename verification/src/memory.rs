//! Corrupted memory: the multiplications that are left in it, and the
//! switches that turn them on and off.

use crate::text::{chars_of, number, parse_number};
use itertools::Itertools;
use regex::Regex;
use vstd::prelude::*;

verus! {

/// The pattern of a multiplication: `mul(`, a number of one to three
/// digits, a comma, another such number, `)`. The numbers are the groups X
/// and Y.
pub const MUL_PATTERN: &'static str = "mul\\((?P<X>\\d{1,3}),(?P<Y>\\d{1,3})\\)";

/// The pattern of a switch: `do()` or `don't()`.
pub const SWITCH_PATTERN: &'static str = "do\\(\\)|don't\\(\\)";

/// The name of the group of the first number.
pub const FIRST: &'static str = "X";

/// The name of the group of the second number.
pub const SECOND: &'static str = "Y";

/// A match: where it begins in the text, counted in bytes, and what it
/// holds.
pub type Found = (usize, Seq<char>);

/// The texts of two groups of a match; `None` for a group that took no part
/// in it.
pub type Groups = (Option<Seq<char>>, Option<Seq<char>>);

/// The matches of a pattern in a text that do not overlap, from left to
/// right; `None` where the pattern is no regular expression.
pub uninterp spec fn pattern_matches(pattern: Seq<char>, text: Seq<char>) -> Option<Seq<Found>>;

/// For each of the matches of a pattern in a text that do not overlap, from
/// left to right, the texts of the two groups with the given names; `None`
/// where the pattern is no regular expression.
pub uninterp spec fn pattern_groups(
    pattern: Seq<char>,
    text: Seq<char>,
    first: Seq<char>,
    second: Seq<char>,
) -> Option<Seq<Groups>>;

/// What a list of matches holds.
pub open spec fn found_views(matches: Seq<(usize, String)>) -> Seq<Found> {
    matches.map_values(|m: (usize, String)| (m.0, m.1@))
}

/// What a group holds.
pub open spec fn group_view(group: Option<String>) -> Option<Seq<char>> {
    match group {
        Some(text) => Some(text@),
        None => None,
    }
}

/// What a list of groups holds.
pub open spec fn group_views(groups: Seq<(Option<String>, Option<String>)>) -> Seq<Groups> {
    groups.map_values(|g: (Option<String>, Option<String>)| (group_view(g.0), group_view(g.1)))
}

/// A list of matches in the order of their beginnings with one more match:
/// it goes behind the matches that begin where it begins or before.
pub open spec fn placed(sorted: Seq<Found>, item: Found) -> Seq<Found>
    decreases sorted.len(),
{
    if sorted.len() == 0 {
        seq![item]
    } else if sorted.last().0 > item.0 {
        placed(sorted.drop_last(), item).push(sorted.last())
    } else {
        sorted.push(item)
    }
}

/// A list of matches in the order of their beginnings; matches with one
/// beginning keep their order.
pub open spec fn by_start(matches: Seq<Found>) -> Seq<Found>
    decreases matches.len(),
{
    if matches.len() == 0 {
        Seq::empty()
    } else {
        placed(by_start(matches.drop_last()), matches.last())
    }
}

/// `Regex::new` and `Regex::find_iter` of `regex`: the matches of the
/// pattern in the text, each with its beginning and its text; `None` where
/// the pattern is refused.
#[verifier::external_body]
fn find_all(pattern: &str, text: &str) -> (r: Option<Vec<(usize, String)>>)
    ensures
        (match r {
            Some(matches) => pattern_matches(pattern@, text@) == Some(found_views(matches@)),
            None => pattern_matches(pattern@, text@).is_none(),
        }),
{
    match Regex::new(pattern) {
        Ok(re) => Some(re.find_iter(text).map(|m| (m.start(), m.as_str().to_string())).collect()),
        Err(_) => None,
    }
}

/// `Regex::new`, `Regex::captures_iter` and `Captures::name` of `regex`:
/// for each match of the pattern in the text, the texts of the groups with
/// the two names; `None` where the pattern is refused.
#[verifier::external_body]
fn capture_all(pattern: &str, text: &str, first: &str, second: &str) -> (r: Option<
    Vec<(Option<String>, Option<String>)>,
>)
    ensures
        (match r {
            Some(groups) => pattern_groups(pattern@, text@, first@, second@) == Some(
                group_views(groups@),
            ),
            None => pattern_groups(pattern@, text@, first@, second@).is_none(),
        }),
{
    match Regex::new(pattern) {
        Ok(re) => Some(
            re.captures_iter(text).map(
                |c|
                    (
                        c.name(first).map(|m| m.as_str().to_string()),
                        c.name(second).map(|m| m.as_str().to_string()),
                    ),
            ).collect(),
        ),
        Err(_) => None,
    }
}

/// `sorted_by_key` of `itertools` with the beginning of a match as its
/// key: the matches in the order of their beginnings, those with one
/// beginning in the order they had.
#[verifier::external_body]
fn sort_by_start(matches: Vec<(usize, String)>) -> (r: Vec<(usize, String)>)
    ensures
        found_views(r@) == by_start(found_views(matches@)),
{
    matches.into_iter().sorted_by_key(|m| m.0).collect()
}

/// The number that a group holds; zero where it holds none.
pub open spec fn value_of(group: Option<Seq<char>>) -> u64 {
    match group {
        Some(text) => match number(text, u32::MAX as u64) {
            Some(v) => v,
            None => 0,
        },
        None => 0,
    }
}

/// The product of the numbers of two groups; `None` where it exceeds
/// `u32::MAX`.
pub open spec fn product_of(groups: Groups) -> Option<u32> {
    if value_of(groups.0) * value_of(groups.1) <= u32::MAX {
        Some((value_of(groups.0) * value_of(groups.1)) as u32)
    } else {
        None
    }
}

/// The sum of the products; `None` where a product or the sum exceeds
/// `u32::MAX`.
pub open spec fn sum_products(groups: Seq<Groups>) -> Option<u32>
    decreases groups.len(),
{
    if groups.len() == 0 {
        Some(0)
    } else {
        match (sum_products(groups.drop_last()), product_of(groups.last())) {
            (Some(sum), Some(product)) => if sum + product <= u32::MAX {
                Some((sum + product) as u32)
            } else {
                None
            },
            _ => None,
        }
    }
}

/// What a match tells the machine to do.
#[derive(Clone, Copy, Debug, PartialEq, Eq, Structural)]
pub enum Instruction {
    /// Multiplications count from here on.
    Enable,
    /// Multiplications do not count from here on.
    Disable,
    /// A multiplication with its product; `None` for a product above
    /// `u32::MAX`.
    Multiply(Option<u32>),
    /// Nothing.
    Skip,
}

/// The text of the switch that turns multiplications on.
pub open spec fn enable_text() -> Seq<char> {
    seq!['d', 'o', '(', ')']
}

/// The text of the switch that turns multiplications off.
pub open spec fn disable_text() -> Seq<char> {
    seq!['d', 'o', 'n', '\'', 't', '(', ')']
}

/// What a match tells the machine to do, given the groups that the pattern
/// of a multiplication finds in its text.
pub open spec fn instruction_of(text: Seq<char>, groups: Option<Seq<Groups>>) -> Instruction {
    if text == enable_text() {
        Instruction::Enable
    } else if text == disable_text() {
        Instruction::Disable
    } else {
        match groups {
            Some(list) => if list.len() > 0 {
                Instruction::Multiply(product_of(list[0]))
            } else {
                Instruction::Skip
            },
            None => Instruction::Skip,
        }
    }
}

/// The sum of the products of the multiplications that count, with the
/// switch on or off at the beginning; `None` where a product that counts or
/// the sum exceeds `u32::MAX`.
pub open spec fn run(program: Seq<Instruction>, enabled: bool) -> Option<u32>
    decreases program.len(),
{
    if program.len() == 0 {
        Some(0)
    } else {
        match program.last() {
            Instruction::Multiply(product) => if switch_after(program.drop_last(), enabled) {
                match (run(program.drop_last(), enabled), product) {
                    (Some(sum), Some(p)) => if sum + p <= u32::MAX {
                        Some((sum + p) as u32)
                    } else {
                        None
                    },
                    _ => None,
                }
            } else {
                run(program.drop_last(), enabled)
            },
            _ => run(program.drop_last(), enabled),
        }
    }
}

/// Whether multiplications count behind a program.
pub open spec fn switch_after(program: Seq<Instruction>, enabled: bool) -> bool
    decreases program.len(),
{
    if program.len() == 0 {
        enabled
    } else {
        match program.last() {
            Instruction::Enable => true,
            Instruction::Disable => false,
            _ => switch_after(program.drop_last(), enabled),
        }
    }
}

/// The instructions of some matches.
pub open spec fn program_of(matches: Seq<Found>) -> Seq<Instruction> {
    matches.map_values(
        |m: Found|
            instruction_of(m.1, pattern_groups(MUL_PATTERN@, m.1, FIRST@, SECOND@)),
    )
}

/// The sum of the products of all multiplications in a text.
pub open spec fn part_one_spec(text: Seq<char>) -> Option<u32> {
    match pattern_groups(MUL_PATTERN@, text, FIRST@, SECOND@) {
        Some(groups) => sum_products(groups),
        None => None,
    }
}

/// The sum of the products of the multiplications in a text that count:
/// those behind no switch, or with `do()` as the last switch before them.
pub open spec fn part_two_spec(text: Seq<char>) -> Option<u32> {
    match (pattern_matches(SWITCH_PATTERN@, text), pattern_matches(MUL_PATTERN@, text)) {
        (Some(switches), Some(products)) => run(program_of(by_start(switches + products)), true),
        _ => None,
    }
}

/// The number that a group holds; zero where it holds none.
pub fn group_value(group: &Option<String>) -> (v: u64)
    ensures
        v == value_of(group_view(*group)),
        v <= u32::MAX,
{
    match group {
        Some(text) => {
            let chars = chars_of(text.as_str());
            proof {
                assert(chars@.subrange(0, chars.len() as int) == chars@);
            }
            match parse_number(&chars, 0, chars.len(), u32::MAX as u64) {
                Some(v) => v,
                None => 0,
            }
        },
        None => 0,
    }
}

/// The product of the numbers of two groups; `None` where it exceeds
/// `u32::MAX`.
pub fn multiply(groups: &(Option<String>, Option<String>)) -> (r: Option<u32>)
    ensures
        r == product_of((group_view(groups.0), group_view(groups.1))),
{
    let x: u64 = group_value(&groups.0);
    let y: u64 = group_value(&groups.1);
    assert(x * y <= 0xffff_ffff * 0xffff_ffff) by (nonlinear_arith)
        requires
            x <= 0xffff_ffff,
            y <= 0xffff_ffff,
    ;
    let product: u64 = x * y;
    if product <= u32::MAX as u64 {
        Some(product as u32)
    } else {
        None
    }
}

/// The sum of the products of the groups of some matches; `None` where a
/// product or the sum exceeds `u32::MAX`.
pub fn sum_of_products(groups: &Vec<(Option<String>, Option<String>)>) -> (r: Option<u32>)
    ensures
        r == sum_products(group_views(groups@)),
{
    let ghost all = group_views(groups@);
    let mut sum: Option<u32> = Some(0);
    let mut i: usize = 0;
    proof {
        assert(all.take(0) =~= Seq::<Groups>::empty());
    }
    while i < groups.len()
        invariant
            i <= groups.len(),
            all == group_views(groups@),
            sum == sum_products(all.take(i as int)),
        decreases groups.len() - i,
    {
        proof {
            assert(all.take(i + 1).drop_last() == all.take(i as int));
            assert(all.take(i + 1).last() == (group_view(groups@[i as int].0), group_view(
                groups@[i as int].1,
            )));
        }
        let product: Option<u32> = multiply(&groups[i]);
        sum = match (sum, product) {
            (Some(s), Some(p)) => s.checked_add(p),
            _ => None,
        };
        i = i + 1;
    }
    proof {
        assert(all.take(all.len() as int) == all);
    }
    sum
}

/// What a match tells the machine to do, given the groups that the pattern
/// of a multiplication finds in its text.
pub fn decode(text: &str, groups: &Option<Vec<(Option<String>, Option<String>)>>) -> (r:
    Instruction)
    ensures
        r == instruction_of(
            text@,
            match groups {
                Some(list) => Some(group_views(list@)),
                None => None,
            },
        ),
{
    let chars = chars_of(text);
    if chars.len() == 4 && chars[0] == 'd' && chars[1] == 'o' && chars[2] == '(' && chars[3]
        == ')' {
        proof {
            assert(chars@ =~= enable_text());
        }
        return Instruction::Enable;
    }
    if chars.len() == 7 && chars[0] == 'd' && chars[1] == 'o' && chars[2] == 'n' && chars[3]
        == '\'' && chars[4] == 't' && chars[5] == '(' && chars[6] == ')' {
        proof {
            assert(chars@ =~= disable_text());
        }
        return Instruction::Disable;
    }
    match groups {
        Some(list) => if list.len() > 0 {
            Instruction::Multiply(multiply(&list[0]))
        } else {
            Instruction::Skip
        },
        None => Instruction::Skip,
    }
}

/// Runs a program with the switch on or off at the beginning: sums the
/// products of the multiplications that count; `None` where such a product
/// or the sum exceeds `u32::MAX`.
pub fn execute(program: &Vec<Instruction>, enabled: bool) -> (r: Option<u32>)
    ensures
        r == run(program@, enabled),
{
    let mut do_mul: bool = enabled;
    let mut total: Option<u32> = Some(0);
    let mut i: usize = 0;
    proof {
        assert(program@.take(0) =~= Seq::<Instruction>::empty());
    }
    while i < program.len()
        invariant
            i <= program.len(),
            do_mul == switch_after(program@.take(i as int), enabled),
            total == run(program@.take(i as int), enabled),
        decreases program.len() - i,
    {
        proof {
            assert(program@.take(i + 1).drop_last() == program@.take(i as int));
        }
        match program[i] {
            Instruction::Enable => {
                do_mul = true;
            },
            Instruction::Disable => {
                do_mul = false;
            },
            Instruction::Multiply(product) => {
                if do_mul {
                    total = match (total, product) {
                        (Some(sum), Some(p)) => sum.checked_add(p),
                        _ => None,
                    };
                }
            },
            Instruction::Skip => {},
        }
        i = i + 1;
    }
    proof {
        assert(program@.take(program.len() as int) == program@);
    }
    total
}

/// Sums the products of the multiplications `mul(X,Y)` in `input`, with
/// X and Y of one to three digits.
pub fn part_one(input: &str) -> (r: Option<u32>)
    ensures
        r == part_one_spec(input@),
{
    match capture_all(MUL_PATTERN, input, FIRST, SECOND) {
        Some(groups) => sum_of_products(&groups),
        None => None,
    }
}

/// Sums the products of the multiplications in `input` that count: a
/// `don't()` turns the multiplications behind it off, and a `do()` turns
/// them on again.
pub fn part_two(input: &str) -> (r: Option<u32>)
    ensures
        r == part_two_spec(input@),
{
    let mut switches: Vec<(usize, String)> = match find_all(SWITCH_PATTERN, input) {
        Some(matches) => matches,
        None => {
            return None;
        },
    };
    let mut products: Vec<(usize, String)> = match find_all(MUL_PATTERN, input) {
        Some(matches) => matches,
        None => {
            return None;
        },
    };
    let ghost chained = found_views(switches@) + found_views(products@);
    switches.append(&mut products);
    proof {
        assert(found_views(switches@) =~= chained);
    }
    let combined_matches = sort_by_start(switches);
    let ghost sorted = found_views(combined_matches@);
    let mut program: Vec<Instruction> = Vec::new();
    let mut i: usize = 0;
    while i < combined_matches.len()
        invariant
            i <= combined_matches.len(),
            sorted == found_views(combined_matches@),
            program@ == program_of(sorted.take(i as int)),
        decreases combined_matches.len() - i,
    {
        let text: &str = combined_matches[i].1.as_str();
        let groups = capture_all(MUL_PATTERN, text, FIRST, SECOND);
        let instruction: Instruction = decode(text, &groups);
        program.push(instruction);
        proof {
            assert(program@ =~= program_of(sorted.take(i + 1)));
        }
        i = i + 1;
    }
    proof {
        assert(sorted.take(sorted.len() as int) == sorted);
    }
    execute(&program, true)
}

} // verus!
