//! Reports of levels: which of them rise or fall steadily.

use crate::answer::{fits_u32, to_u32};
use crate::text::{chars_of, line_numbers, read_line_numbers};
use vstd::prelude::*;

verus! {

/// The distance between two levels.
pub open spec fn gap(a: u64, b: u64) -> nat {
    if a <= b {
        (b - a) as nat
    } else {
        (a - b) as nat
    }
}

/// Whether the level after the `i`-th is higher than the `i`-th.
pub open spec fn rises_at(s: Seq<u64>, i: int) -> bool {
    s[i] < s[i + 1]
}

/// Whether the level after the `i`-th is lower than the `i`-th.
pub open spec fn falls_at(s: Seq<u64>, i: int) -> bool {
    s[i] > s[i + 1]
}

/// Whether the level after the `i`-th differs from it by three at most.
pub open spec fn gentle_at(s: Seq<u64>, i: int) -> bool {
    gap(s[i], s[i + 1]) <= 3
}

/// Whether each level is higher than the one before.
pub open spec fn rising(s: Seq<u64>) -> bool {
    forall|i: int| 0 <= i < s.len() - 1 ==> rises_at(s, i)
}

/// Whether each level is lower than the one before.
pub open spec fn falling(s: Seq<u64>) -> bool {
    forall|i: int| 0 <= i < s.len() - 1 ==> falls_at(s, i)
}

/// Whether no level differs from the one before by more than three.
pub open spec fn gentle(s: Seq<u64>) -> bool {
    forall|i: int| 0 <= i < s.len() - 1 ==> gentle_at(s, i)
}

/// Whether a report is safe: its levels all rise or all fall, each by one,
/// two or three.
pub open spec fn safe(s: Seq<u64>) -> bool {
    gentle(s) && (rising(s) || falling(s))
}

/// Whether a report is safe once one of its levels is taken out.
pub open spec fn safe_without_one(s: Seq<u64>) -> bool {
    exists|k: int| 0 <= k < s.len() && safe(#[trigger] s.remove(k))
}

/// Whether a report counts: it holds two levels or more and is safe, or,
/// where one bad level is tolerated, safe without one of its levels.
pub open spec fn counts(s: Seq<u64>, tolerant: bool) -> bool {
    s.len() >= 2 && (safe(s) || (tolerant && safe_without_one(s)))
}

/// How many reports count.
pub open spec fn safe_reports(rows: Seq<Seq<u64>>, tolerant: bool) -> nat
    decreases rows.len(),
{
    if rows.len() == 0 {
        0
    } else {
        safe_reports(rows.drop_last(), tolerant) + if counts(rows.last(), tolerant) {
            1nat
        } else {
            0nat
        }
    }
}

/// The number of safe reports among the lines of a text.
pub open spec fn part_one_spec(text: Seq<char>) -> Option<u32> {
    fits_u32(safe_reports(line_numbers(text, u32::MAX as u64), false))
}

/// The number of reports among the lines of a text that are safe, or safe
/// without one of their levels.
pub open spec fn part_two_spec(text: Seq<char>) -> Option<u32> {
    fits_u32(safe_reports(line_numbers(text, u32::MAX as u64), true))
}

/// Whether the levels all rise or all fall, each by one, two or three.
pub fn is_safe(sequence: &Vec<u64>) -> (b: bool)
    ensures
        b == safe(sequence@),
{
    let mut increasing: bool = true;
    let mut decreasing: bool = true;
    let mut i: usize = 1;
    while i < sequence.len()
        invariant
            1 <= i,
            i <= sequence.len() || i == 1,
            increasing <==> forall|k: int| 0 <= k < i - 1 ==> rises_at(sequence@, k),
            decreasing <==> forall|k: int| 0 <= k < i - 1 ==> falls_at(sequence@, k),
            forall|k: int| 0 <= k < i - 1 ==> gentle_at(sequence@, k),
        decreases sequence.len() - i,
    {
        let a: u64 = sequence[i - 1];
        let b: u64 = sequence[i];
        let diff: u64 = if a <= b {
            b - a
        } else {
            a - b
        };
        if diff > 3 {
            proof {
                assert(!gentle_at(sequence@, i - 1));
            }
            return false;
        }
        if a >= b {
            proof {
                assert(!rises_at(sequence@, i - 1));
            }
            increasing = false;
        }
        if a <= b {
            proof {
                assert(!falls_at(sequence@, i - 1));
            }
            decreasing = false;
        }
        i = i + 1;
    }
    increasing || decreasing
}

/// Whether the levels are safe once one of them is taken out.
pub fn is_safe_without_one(sequence: &Vec<u64>) -> (b: bool)
    ensures
        b == safe_without_one(sequence@),
{
    let mut i: usize = 0;
    while i < sequence.len()
        invariant
            i <= sequence.len(),
            forall|k: int| 0 <= k < i ==> !safe(#[trigger] sequence@.remove(k)),
        decreases sequence.len() - i,
    {
        let mut modified: Vec<u64> = sequence.clone();
        modified.remove(i);
        if is_safe(&modified) {
            return true;
        }
        i = i + 1;
    }
    false
}

/// Counts the reports of two levels or more that are safe, or, where
/// `tolerant`, safe without one of their levels.
pub fn count_safe(rows: &Vec<Vec<u64>>, tolerant: bool) -> (n: usize)
    ensures
        n == safe_reports(rows@.map_values(|row: Vec<u64>| row@), tolerant),
{
    let ghost all = rows@.map_values(|row: Vec<u64>| row@);
    let mut total: usize = 0;
    let mut i: usize = 0;
    proof {
        assert(all.take(0) =~= Seq::<Seq<u64>>::empty());
    }
    while i < rows.len()
        invariant
            i <= rows.len(),
            all == rows@.map_values(|row: Vec<u64>| row@),
            total <= i,
            total == safe_reports(all.take(i as int), tolerant),
        decreases rows.len() - i,
    {
        proof {
            assert(all.take(i + 1).drop_last() == all.take(i as int));
            assert(all.take(i + 1).last() == rows@[i as int]@);
        }
        let row: &Vec<u64> = &rows[i];
        if row.len() >= 2 {
            if is_safe(row) {
                total = total + 1;
            } else if tolerant && is_safe_without_one(row) {
                total = total + 1;
            }
        }
        i = i + 1;
    }
    proof {
        assert(all.take(all.len() as int) == all);
    }
    total
}

/// Counts the lines of `input` that hold a safe report. Lines with fewer
/// than two numbers are passed over.
pub fn part_one(input: &str) -> (r: Option<u32>)
    ensures
        r == part_one_spec(input@),
{
    let chars = chars_of(input);
    let rows = read_line_numbers(&chars, u32::MAX as u64);
    proof {
        assert(rows@.map_values(|row: Vec<u64>| row@) =~= line_numbers(input@, u32::MAX as u64));
    }
    to_u32(count_safe(&rows, false))
}

/// Counts the lines of `input` that hold a report that is safe, or safe
/// once one of its levels is taken out. Lines with fewer than two numbers
/// are passed over.
pub fn part_two(input: &str) -> (r: Option<u32>)
    ensures
        r == part_two_spec(input@),
{
    let chars = chars_of(input);
    let rows = read_line_numbers(&chars, u32::MAX as u64);
    proof {
        assert(rows@.map_values(|row: Vec<u64>| row@) =~= line_numbers(input@, u32::MAX as u64));
    }
    to_u32(count_safe(&rows, true))
}

} // verus!
