//! Equations without their operators: which of them can be made true.

use crate::stones::{count_digits, digits, lemma_pow10_digits, lemma_pow10_grows, pow10, power_of_ten};
use crate::text::{chars_of, number, numbers, parse_number, pieces, read_numbers, split, Separator};
use rayon::iter::{IntoParallelRefIterator, ParallelIterator};
use vstd::prelude::*;

verus! {

/// A number written behind another: `a` followed by the digits of `b`.
pub open spec fn concatenated(a: nat, b: nat) -> nat {
    a * pow10(digits(b)) + b
}

/// Whether operators can be put before the numbers from the `index`-th on
/// so that, applied from left to right to `current`, they give `test`. The
/// operators are plus and times, and with `part2` the operator that writes
/// one number behind the other. A value above `test` is given up at once.
pub open spec fn solvable(test: nat, ops: Seq<usize>, current: nat, index: nat, part2: bool) -> bool
    decreases ops.len() - index,
{
    if current > test {
        false
    } else if index >= ops.len() {
        current == test
    } else {
        let next = ops[index as int] as nat;
        solvable(test, ops, current + next, index + 1, part2) || solvable(
            test,
            ops,
            current * next,
            index + 1,
            part2,
        ) || (part2 && solvable(test, ops, concatenated(current, next), index + 1, part2))
    }
}

/// Whether operators can be put before the numbers from the `index`-th on
/// so that, applied from left to right to `current`, they give `test`, with
/// no value given up on the way.
pub open spec fn reaches(test: nat, ops: Seq<usize>, current: nat, index: nat, part2: bool) -> bool
    decreases ops.len() - index,
{
    if index >= ops.len() {
        current == test
    } else {
        let next = ops[index as int] as nat;
        reaches(test, ops, current + next, index + 1, part2) || reaches(
            test,
            ops,
            current * next,
            index + 1,
            part2,
        ) || (part2 && reaches(test, ops, concatenated(current, next), index + 1, part2))
    }
}

/// With numbers that are not zero no operator makes a value smaller: what
/// leads to `test` is no greater than `test`.
pub proof fn lemma_values_grow(test: nat, ops: Seq<usize>, current: nat, index: nat, part2: bool)
    requires
        forall|i: int| 0 <= i < ops.len() ==> #[trigger] ops[i] >= 1,
        reaches(test, ops, current, index, part2),
    ensures
        current <= test,
    decreases ops.len() - index,
{
    if index < ops.len() {
        let next = ops[index as int] as nat;
        assert(next >= 1);
        assert(current * next >= current) by (nonlinear_arith)
            requires
                next >= 1,
        ;
        crate::stones::lemma_pow10_grows(0, digits(next));
        assert(current * pow10(digits(next)) >= current) by (nonlinear_arith)
            requires
                pow10(digits(next)) >= 1,
        ;
        if reaches(test, ops, current + next, index + 1, part2) {
            lemma_values_grow(test, ops, current + next, index + 1, part2);
        } else if reaches(test, ops, current * next, index + 1, part2) {
            lemma_values_grow(test, ops, current * next, index + 1, part2);
        } else {
            lemma_values_grow(test, ops, concatenated(current, next), index + 1, part2);
        }
    }
}

/// With numbers that are not zero nothing is lost by giving up the values
/// above `test`: the equation can be made true with that rule exactly when it
/// can without.
pub proof fn lemma_giving_up_is_sound(
    test: nat,
    ops: Seq<usize>,
    current: nat,
    index: nat,
    part2: bool,
)
    requires
        forall|i: int| 0 <= i < ops.len() ==> #[trigger] ops[i] >= 1,
    ensures
        solvable(test, ops, current, index, part2) == reaches(test, ops, current, index, part2),
    decreases ops.len() - index,
{
    if reaches(test, ops, current, index, part2) {
        lemma_values_grow(test, ops, current, index, part2);
    }
    if index < ops.len() {
        let next = ops[index as int] as nat;
        lemma_giving_up_is_sound(test, ops, current + next, index + 1, part2);
        lemma_giving_up_is_sound(test, ops, current * next, index + 1, part2);
        lemma_giving_up_is_sound(test, ops, concatenated(current, next), index + 1, part2);
    }
}

/// An equation: the value it is to have and the numbers it is made of.
pub struct Formula {
    pub test_value: usize,
    pub ops: Seq<usize>,
}

impl Formula {
    /// What the equation adds to the sum: its value where operators can
    /// make it true, and nothing else.
    pub open spec fn value(self, part2: bool) -> usize {
        if self.ops.len() > 0 && solvable(
            self.test_value as nat,
            self.ops,
            self.ops[0] as nat,
            1,
            part2,
        ) {
            self.test_value
        } else {
            0
        }
    }
}

/// What a line says.
pub enum Line {
    /// The line holds no colon with a space behind it, or behind that space
    /// something between two spaces that is no number.
    Broken,
    /// No number stands before the colon: the line is passed over.
    Skipped,
    /// The line holds an equation.
    Given(Formula),
}

/// Where the first colon with a space behind it stands, from `from` on.
pub open spec fn find_colon(line: Seq<char>, from: int) -> Option<int>
    decreases line.len() - from,
{
    if from + 1 >= line.len() {
        None
    } else if line[from] == ':' && line[from + 1] == ' ' {
        Some(from)
    } else {
        find_colon(line, from + 1)
    }
}

/// Numbers of the machine's word size.
pub open spec fn as_words(values: Seq<u64>) -> Seq<usize> {
    values.map_values(|v: u64| v as usize)
}

/// What a line says: before the first colon with a space behind it stands
/// the equation's value, behind that space its numbers, with one space
/// between two of them.
pub open spec fn read_line(line: Seq<char>) -> Line {
    match find_colon(line, 0) {
        None => Line::Broken,
        Some(colon) => match number(line.subrange(0, colon), usize::MAX as u64) {
            None => Line::Skipped,
            Some(test_value) => {
                let parts = pieces(
                    line.subrange(colon + 2, line.len() as int),
                    Separator::Char(' '),
                );
                let values = numbers(parts, usize::MAX as u64);
                if values.len() == parts.len() {
                    Line::Given(
                        Formula { test_value: test_value as usize, ops: as_words(values) },
                    )
                } else {
                    Line::Broken
                }
            },
        },
    }
}

/// The lines of a text; an empty last line does not count.
pub open spec fn lines_of(text: Seq<char>) -> Seq<Seq<char>> {
    let all = pieces(text, Separator::Newline);
    if all.last().len() == 0 {
        all.drop_last()
    } else {
        all
    }
}

/// The equations of some lines; `None` where a line is broken.
pub open spec fn formulas(lines: Seq<Seq<char>>) -> Option<Seq<Formula>>
    decreases lines.len(),
{
    if lines.len() == 0 {
        Some(Seq::empty())
    } else {
        match (formulas(lines.drop_last()), read_line(lines.last())) {
            (Some(list), Line::Given(formula)) => Some(list.push(formula)),
            (Some(list), Line::Skipped) => Some(list),
            _ => None,
        }
    }
}

/// The sum of some numbers; `None` where it does not fit the machine.
pub open spec fn checked_sum(values: Seq<usize>) -> Option<usize>
    decreases values.len(),
{
    if values.len() == 0 {
        Some(0)
    } else {
        match checked_sum(values.drop_last()) {
            Some(sum) => if sum + values.last() <= usize::MAX {
                Some((sum + values.last()) as usize)
            } else {
                None
            },
            None => None,
        }
    }
}

/// The sum of the values of the equations of a text that can be made true;
/// `None` where a line is broken or the sum does not fit the machine.
pub open spec fn solve_spec(text: Seq<char>, part2: bool) -> Option<usize> {
    match formulas(lines_of(text)) {
        Some(list) => checked_sum(list.map_values(|f: Formula| f.value(part2))),
        None => None,
    }
}

/// The sum with the operators plus and times.
pub open spec fn part_one_spec(text: Seq<char>) -> Option<usize> {
    solve_spec(text, false)
}

/// The sum with the operators plus, times and the one that writes one
/// number behind the other.
pub open spec fn part_two_spec(text: Seq<char>) -> Option<usize> {
    solve_spec(text, true)
}

/// The sum of two numbers; `None` where it does not fit the machine.
pub fn operator_add(a: usize, b: usize) -> (r: Option<usize>)
    ensures
        r == (if a + b <= usize::MAX {
            Some((a + b) as usize)
        } else {
            None
        }),
{
    a.checked_add(b)
}

/// The product of two numbers; `None` where it does not fit the machine.
pub fn operator_multiply(a: usize, b: usize) -> (r: Option<usize>)
    ensures
        r == (if a * b <= usize::MAX {
            Some((a * b) as usize)
        } else {
            None
        }),
{
    a.checked_mul(b)
}

/// The number `a` with the digits of `b` written behind it; `None` where
/// it does not fit the machine.
pub fn operator_concatenate(a: usize, b: usize) -> (r: Option<usize>)
    ensures
        r == (if concatenated(a as nat, b as nat) <= usize::MAX {
            Some(concatenated(a as nat, b as nat) as usize)
        } else {
            None
        }),
{
    if a == 0 {
        assert(0 * pow10(digits(b as nat)) == 0) by (nonlinear_arith);
        return Some(b);
    }
    let num_digits: u64 = count_digits(b as u64);
    proof {
        if b >= 1 {
            lemma_pow10_digits(b as nat);
        }
        lemma_pow10_grows((num_digits - 1) as nat, (num_digits - 1) as nat);
    }
    let below: u64 = power_of_ten(num_digits - 1);
    let ghost shift = pow10(num_digits as nat);
    proof {
        assert(shift == 10 * below);
        assert(a * shift >= shift) by (nonlinear_arith)
            requires
                a >= 1,
                shift >= 0,
        ;
    }
    let shift_by: usize = match below.checked_mul(10) {
        Some(p) => if p <= usize::MAX as u64 {
            p as usize
        } else {
            return None;
        },
        None => {
            return None;
        },
    };
    match a.checked_mul(shift_by) {
        Some(shifted) => shifted.checked_add(b),
        None => None,
    }
}

/// An equation: the value it is to have and the numbers it is made of.
#[derive(Debug)]
pub struct Equation {
    pub test_value: usize,
    pub ops: Vec<usize>,
}

impl View for Equation {
    type V = Formula;

    open spec fn view(&self) -> Formula {
        Formula { test_value: self.test_value, ops: self.ops@ }
    }
}

impl Equation {
    /// Whether operators before the numbers from the `index`-th on lead
    /// from `current_result` to the equation's value.
    pub fn solve(&self, part2: bool, current_result: usize, index: usize) -> (b: bool)
        requires
            index <= self.ops.len(),
        ensures
            b == solvable(
                self.test_value as nat,
                self.ops@,
                current_result as nat,
                index as nat,
                part2,
            ),
        decreases self.ops.len() - index,
    {
        if current_result > self.test_value {
            return false;
        }
        if index == self.ops.len() {
            return current_result == self.test_value;
        }
        let next: usize = self.ops[index];
        proof {
            let test = self.test_value as nat;
            let more = (index + 1) as nat;
            let sum = (current_result + next) as nat;
            let product = (current_result * next) as nat;
            let joined = concatenated(current_result as nat, next as nat);
            assert(sum > usize::MAX ==> !solvable(test, self.ops@, sum, more, part2));
            assert(product > usize::MAX ==> !solvable(test, self.ops@, product, more, part2));
            assert(joined > usize::MAX ==> !solvable(test, self.ops@, joined, more, part2));
        }
        let by_sum: bool = match operator_add(current_result, next) {
            Some(value) => self.solve(part2, value, index + 1),
            None => false,
        };
        if by_sum {
            return true;
        }
        let by_product: bool = match operator_multiply(current_result, next) {
            Some(value) => self.solve(part2, value, index + 1),
            None => false,
        };
        if by_product {
            return true;
        }
        if part2 {
            match operator_concatenate(current_result, next) {
                Some(value) => self.solve(part2, value, index + 1),
                None => false,
            }
        } else {
            false
        }
    }

    /// The equation's value where operators can make it true, and zero
    /// where they cannot.
    pub fn is_valid(&self, part2: bool) -> (r: usize)
        ensures
            r == self@.value(part2),
    {
        if self.ops.len() > 0 && self.solve(part2, self.ops[0], 1) {
            self.test_value
        } else {
            0
        }
    }
}

/// `par_iter`, `map` and `collect` of `rayon` on a list of equations: the
/// value of each equation, found by `is_valid`, in the order of the
/// equations. The equations are handed out to the workers of `rayon`.
#[verifier::external_body]
fn par_values(equations: &Vec<Equation>, part2: bool) -> (values: Vec<usize>)
    ensures
        values@ == equations@.map_values(|e: Equation| e@.value(part2)),
{
    equations.par_iter().map(|e| e.is_valid(part2)).collect()
}

/// The values of the equations that can be made true, in the order of the
/// equations, and zero for each of the others.
pub fn values_of(equations: &Vec<Equation>, part2: bool) -> (values: Vec<usize>)
    ensures
        values@ == equations@.map_values(|e: Equation| e@.value(part2)),
{
    par_values(equations, part2)
}

/// The sum of some numbers; `None` where it does not fit the machine.
pub fn sum_values(values: &Vec<usize>) -> (r: Option<usize>)
    ensures
        r == checked_sum(values@),
{
    let mut sum: Option<usize> = Some(0);
    let mut i: usize = 0;
    proof {
        assert(values@.take(0) =~= Seq::<usize>::empty());
    }
    while i < values.len()
        invariant
            i <= values.len(),
            sum == checked_sum(values@.take(i as int)),
        decreases values.len() - i,
    {
        proof {
            assert(values@.take(i + 1).drop_last() == values@.take(i as int));
        }
        sum = match sum {
            Some(s) => s.checked_add(values[i]),
            None => None,
        };
        i = i + 1;
    }
    proof {
        assert(values@.take(values.len() as int) == values@);
    }
    sum
}

/// What a line says, as far as the machine holds it.
pub enum ReadLine {
    Broken,
    Skipped,
    Given(Equation),
}

impl ReadLine {
    /// What the line says.
    pub open spec fn says(self) -> Line {
        match self {
            ReadLine::Broken => Line::Broken,
            ReadLine::Skipped => Line::Skipped,
            ReadLine::Given(equation) => Line::Given(equation@),
        }
    }
}

/// Reads one line.
pub fn read_equation(chars: &Vec<char>, from: usize, to: usize) -> (r: ReadLine)
    requires
        from <= to <= chars.len(),
    ensures
        r.says() == read_line(chars@.subrange(from as int, to as int)),
{
    let ghost line = chars@.subrange(from as int, to as int);
    let mut at: usize = from;
    let mut colon: Option<usize> = None;
    while colon.is_none() && to - at > 1
        invariant
            from <= at <= to <= chars.len(),
            line == chars@.subrange(from as int, to as int),
            match colon {
                Some(c) => c == at && at + 1 < to,
                None => true,
            },
            find_colon(line, 0) == match colon {
                Some(_) => Some(at - from),
                None => find_colon(line, at - from),
            },
        decreases to - at + if colon is None { 1int } else { 0int },
    {
        if chars[at] == ':' && chars[at + 1] == ' ' {
            colon = Some(at);
        } else {
            at = at + 1;
        }
    }
    let colon: usize = match colon {
        Some(c) => c,
        None => {
            return ReadLine::Broken;
        },
    };
    proof {
        assert(chars@.subrange(from as int, colon as int) =~= line.subrange(0, colon - from));
        assert(chars@.subrange(colon + 2, to as int) =~= line.subrange(
            colon - from + 2,
            line.len() as int,
        ));
    }
    let test_value: u64 = match parse_number(chars, from, colon, usize::MAX as u64) {
        Some(v) => v,
        None => {
            return ReadLine::Skipped;
        },
    };
    let parts = split(chars, colon + 2, to, Separator::Char(' '));
    let values = read_numbers(chars, colon + 2, to, Separator::Char(' '), usize::MAX as u64);
    if values.len() != parts.len() {
        return ReadLine::Broken;
    }
    proof {
        lemma_numbers_bounded(
            pieces(chars@.subrange(colon + 2, to as int), Separator::Char(' ')),
            usize::MAX as u64,
        );
    }
    let mut ops: Vec<usize> = Vec::new();
    let mut i: usize = 0;
    while i < values.len()
        invariant
            i <= values.len(),
            forall|k: int| 0 <= k < values@.len() ==> values@[k] <= usize::MAX,
            ops@ == as_words(values@.take(i as int)),
        decreases values.len() - i,
    {
        ops.push(values[i] as usize);
        proof {
            assert(ops@ =~= as_words(values@.take(i + 1)));
        }
        i = i + 1;
    }
    proof {
        assert(values@.take(values.len() as int) == values@);
    }
    ReadLine::Given(Equation { test_value: test_value as usize, ops })
}

/// The numbers among some tokens are no greater than the limit.
proof fn lemma_numbers_bounded(tokens: Seq<Seq<char>>, max: u64)
    ensures
        forall|k: int| 0 <= k < numbers(tokens, max).len() ==> numbers(tokens, max)[k] <= max,
    decreases tokens.len(),
{
    if tokens.len() > 0 {
        let before = numbers(tokens.drop_last(), max);
        let all = numbers(tokens, max);
        lemma_numbers_bounded(tokens.drop_last(), max);
        assert forall|k: int| 0 <= k < all.len() implies all[k] <= max by {
            if k < before.len() {
                assert(all[k] == before[k]);
            }
        }
    }
}

/// A broken line breaks the whole text.
proof fn lemma_broken_lines(lines: Seq<Seq<char>>, k: int)
    requires
        0 <= k <= lines.len(),
        formulas(lines.take(k)) is None,
    ensures
        formulas(lines) is None,
    decreases lines.len() - k,
{
    if k < lines.len() {
        assert(lines.take(k + 1).drop_last() == lines.take(k));
        lemma_broken_lines(lines, k + 1);
    } else {
        assert(lines.take(k) == lines);
    }
}

/// Reads the equations of a text; `None` where a line is broken.
pub fn read_equations(input: &str) -> (r: Option<Vec<Equation>>)
    ensures
        match r {
            Some(equations) => formulas(lines_of(input@)) == Some(
                equations@.map_values(|e: Equation| e@),
            ),
            None => formulas(lines_of(input@)) is None,
        },
{
    let chars = chars_of(input);
    proof {
        assert(chars@.subrange(0, chars.len() as int) == chars@);
    }
    let lines = split(&chars, 0, chars.len(), Separator::Newline);
    let ghost all = pieces(chars@, Separator::Newline);
    let last: (usize, usize) = lines[lines.len() - 1];
    let end: usize = if last.0 == last.1 {
        lines.len() - 1
    } else {
        lines.len()
    };
    let ghost kept = lines_of(input@);
    proof {
        assert(chars@.subrange(last.0 as int, last.1 as int).len() == last.1 - last.0);
        assert(kept == all.take(end as int));
        assert(kept.take(0) =~= Seq::<Seq<char>>::empty());
    }
    let mut equations: Vec<Equation> = Vec::new();
    let mut k: usize = 0;
    proof {
        assert(equations@.map_values(|e: Equation| e@) =~= Seq::<Formula>::empty());
    }
    while k < end
        invariant
            k <= end <= lines.len(),
            lines@.len() == all.len(),
            kept == all.take(end as int),
            kept == lines_of(input@),
            forall|j: int|
                0 <= j < lines@.len() ==> (#[trigger] lines@[j]).0 <= lines@[j].1 <= chars.len()
                    && chars@.subrange(lines@[j].0 as int, lines@[j].1 as int) == all[j],
            formulas(kept.take(k as int)) == Some(equations@.map_values(|e: Equation| e@)),
        decreases end - k,
    {
        proof {
            assert(kept.take(k + 1).drop_last() == kept.take(k as int));
            assert(kept.take(k + 1).last() == all[k as int]);
        }
        let line: (usize, usize) = lines[k];
        let ghost before = equations@;
        match read_equation(&chars, line.0, line.1) {
            ReadLine::Given(equation) => {
                equations.push(equation);
                proof {
                    assert(equations@.map_values(|e: Equation| e@) =~= before.map_values(
                        |e: Equation| e@,
                    ).push(equation@));
                }
            },
            ReadLine::Skipped => {},
            ReadLine::Broken => {
                proof {
                    assert(formulas(kept.take(k + 1)) is None);
                    lemma_broken_lines(kept, k + 1);
                }
                return None;
            },
        }
        k = k + 1;
    }
    proof {
        assert(kept.take(end as int) == kept);
    }
    Some(equations)
}

fn solve_text(input: &str, part2: bool) -> (r: Option<usize>)
    ensures
        r == solve_spec(input@, part2),
{
    match read_equations(input) {
        Some(equations) => {
            let values = values_of(&equations, part2);
            proof {
                assert(values@ =~= equations@.map_values(|e: Equation| e@).map_values(
                    |f: Formula| f.value(part2),
                ));
            }
            sum_values(&values)
        },
        None => None,
    }
}

/// Sums the values of the equations of `input` that can be made true with
/// plus and times between their numbers, applied from left to right.
pub fn part_one(input: &str) -> (r: Option<usize>)
    ensures
        r == part_one_spec(input@),
{
    solve_text(input, false)
}

/// Sums the values of the equations of `input` that can be made true with
/// plus, times, and writing one number behind the other, applied from left
/// to right.
pub fn part_two(input: &str) -> (r: Option<usize>)
    ensures
        r == part_two_spec(input@),
{
    solve_text(input, true)
}

} // verus!
