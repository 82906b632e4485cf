//! Stones that change with each blink: how many there are after some blinks.

use crate::text::{chars_of, numbers, pieces, read_numbers, Separator};
use std::collections::HashMap;
use vstd::prelude::*;

verus! {

/// The number of decimal digits of a number; zero has one.
pub open spec fn digits(n: nat) -> nat
    decreases n,
{
    if n < 10 {
        1
    } else {
        1 + digits(n / 10)
    }
}

/// Ten to the power of `k`.
pub open spec fn pow10(k: nat) -> nat
    decreases k,
{
    if k == 0 {
        1
    } else {
        10 * pow10((k - 1) as nat)
    }
}

/// The number that the left half of a number's digits spell.
pub open spec fn left_half(stone: nat) -> nat {
    stone / pow10(digits(stone) / 2)
}

/// The number that the right half of a number's digits spell.
pub open spec fn right_half(stone: nat) -> nat {
    stone % pow10(digits(stone) / 2)
}

/// The number of stones that one stone becomes with `depth` blinks. At a
/// blink a stone marked 0 becomes a stone marked 1; a stone with an even
/// number of digits becomes two stones, marked with the left and the right
/// half of the digits; any other stone is marked with 2024 times its number.
pub open spec fn stones(stone: nat, depth: nat) -> nat
    decreases depth,
{
    if depth == 0 {
        1
    } else if stone == 0 {
        stones(1, (depth - 1) as nat)
    } else if digits(stone) % 2 == 0 {
        stones(left_half(stone), (depth - 1) as nat) + stones(
            right_half(stone),
            (depth - 1) as nat,
        )
    } else {
        stones(stone * 2024, (depth - 1) as nat)
    }
}

/// The number of stones that one stone becomes with `depth` blinks, counted
/// with numbers of at most `max`: `None` where a stone's mark or a count on
/// the way exceeds `max`.
pub open spec fn blink_count(stone: nat, depth: nat, max: nat) -> Option<nat>
    decreases depth,
{
    if depth == 0 {
        Some(1)
    } else if stone == 0 {
        blink_count(1, (depth - 1) as nat, max)
    } else if digits(stone) % 2 == 0 {
        match (
            blink_count(left_half(stone), (depth - 1) as nat, max),
            blink_count(right_half(stone), (depth - 1) as nat, max),
        ) {
            (Some(a), Some(b)) => if a + b <= max {
                Some(a + b)
            } else {
                None
            },
            _ => None,
        }
    } else if stone * 2024 > max {
        None
    } else {
        blink_count(stone * 2024, (depth - 1) as nat, max)
    }
}

/// The number of stones that a row of stones becomes with `depth` blinks,
/// counted with numbers of at most `max`.
pub open spec fn total_count(row: Seq<u64>, depth: nat, max: nat) -> Option<nat>
    decreases row.len(),
{
    if row.len() == 0 {
        Some(0)
    } else {
        match (total_count(row.drop_last(), depth, max), blink_count(row.last() as nat, depth, max)) {
            (Some(a), Some(b)) => if a + b <= max {
                Some(a + b)
            } else {
                None
            },
            _ => None,
        }
    }
}

/// A count as an answer.
pub open spec fn answer(n: Option<nat>) -> Option<usize> {
    match n {
        Some(v) => Some(v as usize),
        None => None,
    }
}

/// The number of stones after 25 blinks at the stones of a text.
pub open spec fn part_one_spec(text: Seq<char>) -> Option<usize> {
    answer(
        total_count(
            numbers(pieces(text, Separator::Space), usize::MAX as u64),
            25,
            usize::MAX as nat,
        ),
    )
}

/// The number of stones after 75 blinks at the stones of a text.
pub open spec fn part_two_spec(text: Seq<char>) -> Option<usize> {
    answer(
        total_count(
            numbers(pieces(text, Separator::Space), usize::MAX as u64),
            75,
            usize::MAX as nat,
        ),
    )
}

/// A count that was made within the limit is the number of stones.
pub proof fn lemma_blink_count_is_stones(stone: nat, depth: nat, max: nat)
    ensures
        match blink_count(stone, depth, max) {
            Some(n) => n == stones(stone, depth),
            None => true,
        },
    decreases depth,
{
    if depth > 0 {
        let less = (depth - 1) as nat;
        if stone == 0 {
            lemma_blink_count_is_stones(1, less, max);
        } else if digits(stone) % 2 == 0 {
            lemma_blink_count_is_stones(left_half(stone), less, max);
            lemma_blink_count_is_stones(right_half(stone), less, max);
        } else {
            lemma_blink_count_is_stones(stone * 2024, less, max);
        }
    }
}

/// A number is at least ten to the power of its digits less one.
pub proof fn lemma_pow10_digits(n: nat)
    requires
        n >= 1,
    ensures
        pow10((digits(n) - 1) as nat) <= n,
    decreases n,
{
    if n >= 10 {
        lemma_pow10_digits(n / 10);
    }
}

/// Powers of ten grow with the exponent, and none is zero.
pub proof fn lemma_pow10_grows(a: nat, b: nat)
    requires
        a <= b,
    ensures
        1 <= pow10(a) <= pow10(b),
    decreases b,
{
    if a < b {
        lemma_pow10_grows(a, (b - 1) as nat);
    } else if a > 0 {
        lemma_pow10_grows((a - 1) as nat, (a - 1) as nat);
    }
}

/// The number of decimal digits of a number.
pub fn count_digits(n: u64) -> (k: u64)
    ensures
        k == digits(n as nat),
        k >= 1,
{
    let mut rest: u64 = n;
    let mut k: u64 = 1;
    while rest >= 10
        invariant
            digits(n as nat) == (k - 1) + digits(rest as nat),
            k >= 1,
            k + rest <= n + 1,
        decreases rest,
    {
        rest = rest / 10;
        k = k + 1;
    }
    k
}

/// Ten to the power of `k`.
pub fn power_of_ten(k: u64) -> (p: u64)
    requires
        pow10(k as nat) <= u64::MAX,
    ensures
        p == pow10(k as nat),
{
    let mut p: u64 = 1;
    let mut i: u64 = 0;
    while i < k
        invariant
            i <= k,
            p == pow10(i as nat),
            pow10(k as nat) <= u64::MAX,
        decreases k - i,
    {
        proof {
            lemma_pow10_grows((i + 1) as nat, k as nat);
        }
        p = p * 10;
        i = i + 1;
    }
    p
}

/// What the memo holds is right: each count that is stored for a stone and a
/// depth is the count of that stone at that depth.
pub open spec fn memo_holds(memo: Seq<HashMap<u64, Option<u64>>>, max: u64) -> bool {
    forall|d: int, s: u64|
        0 <= d < memo.len() && #[trigger] memo[d]@.contains_key(s) ==> match memo[d]@[s] {
            Some(n) => blink_count(s as nat, d as nat, max as nat) == Some(n as nat),
            None => blink_count(s as nat, d as nat, max as nat) is None,
        }
}

/// Counts the stones that `stone` becomes with `depth` blinks; `None` where
/// a stone's mark or a count on the way exceeds `max`. Counts that were made
/// are kept in `memo` and taken from there when they are asked for again.
pub fn compute_stone(
    stone: u64,
    depth: usize,
    max: u64,
    memo: &mut Vec<HashMap<u64, Option<u64>>>,
) -> (r: Option<u64>)
    requires
        depth < old(memo).len(),
        memo_holds(old(memo)@, max),
        1 <= max,
    ensures
        final(memo).len() == old(memo).len(),
        memo_holds(final(memo)@, max),
        match r {
            Some(n) => blink_count(stone as nat, depth as nat, max as nat) == Some(n as nat),
            None => blink_count(stone as nat, depth as nat, max as nat) is None,
        },
    decreases depth,
{
    if depth == 0 {
        return Some(1);
    }
    match memo[depth].get(&stone) {
        Some(known) => {
            return *known;
        },
        None => {},
    }
    let result: Option<u64> = if stone == 0 {
        compute_stone(1, depth - 1, max, memo)
    } else {
        let num_digits: u64 = count_digits(stone);
        if num_digits % 2 == 0 {
            proof {
                lemma_pow10_digits(stone as nat);
                lemma_pow10_grows((num_digits / 2) as nat, (num_digits - 1) as nat);
            }
            let divisor: u64 = power_of_ten(num_digits / 2);
            let left: Option<u64> = compute_stone(stone / divisor, depth - 1, max, memo);
            let right: Option<u64> = compute_stone(stone % divisor, depth - 1, max, memo);
            match (left, right) {
                (Some(a), Some(b)) => if a <= max && b <= max - a {
                    Some(a + b)
                } else {
                    None
                },
                _ => None,
            }
        } else if stone > max / 2024 {
            proof {
                assert(stone * 2024 > max) by (nonlinear_arith)
                    requires
                        stone > max / 2024,
                ;
            }
            None
        } else {
            proof {
                assert(stone * 2024 <= max) by (nonlinear_arith)
                    requires
                        stone <= max / 2024,
                ;
            }
            compute_stone(stone * 2024, depth - 1, max, memo)
        }
    };
    memo[depth].insert(stone, result);
    result
}

/// An empty memo for depths up to `depth`.
pub fn new_memo(depth: usize) -> (memo: Vec<HashMap<u64, Option<u64>>>)
    requires
        depth < usize::MAX,
    ensures
        memo.len() == depth + 1,
        memo_holds(memo@, u64::MAX),
        forall|max: u64| memo_holds(memo@, max),
{
    let mut memo: Vec<HashMap<u64, Option<u64>>> = Vec::new();
    let mut i: usize = 0;
    while i <= depth
        invariant
            i <= depth + 1,
            depth < usize::MAX,
            memo.len() == i,
            forall|d: int, s: u64| 0 <= d < memo.len() ==> !(#[trigger] memo@[d]@.contains_key(s)),
        decreases depth + 1 - i,
    {
        memo.push(HashMap::new());
        i = i + 1;
    }
    memo
}

/// Counts the stones that a row of stones becomes with `depth` blinks;
/// `None` where a stone's mark or a count on the way exceeds `max`.
pub fn count_stones(row: &Vec<u64>, depth: usize, max: u64) -> (r: Option<u64>)
    requires
        depth < usize::MAX,
        1 <= max,
    ensures
        match r {
            Some(n) => total_count(row@, depth as nat, max as nat) == Some(n as nat),
            None => total_count(row@, depth as nat, max as nat) is None,
        },
{
    let mut memo = new_memo(depth);
    let mut sum: Option<u64> = Some(0);
    let mut i: usize = 0;
    proof {
        assert(row@.take(0) =~= Seq::<u64>::empty());
    }
    while i < row.len()
        invariant
            i <= row.len(),
            memo.len() == depth + 1,
            memo_holds(memo@, max),
            1 <= max,
            match sum {
                Some(n) => total_count(row@.take(i as int), depth as nat, max as nat) == Some(
                    n as nat,
                ),
                None => total_count(row@.take(i as int), depth as nat, max as nat) is None,
            },
        decreases row.len() - i,
    {
        proof {
            assert(row@.take(i + 1).drop_last() == row@.take(i as int));
        }
        let count: Option<u64> = compute_stone(row[i], depth, max, &mut memo);
        sum = match (sum, count) {
            (Some(a), Some(b)) => if a <= max && b <= max - a {
                Some(a + b)
            } else {
                None
            },
            _ => None,
        };
        i = i + 1;
    }
    proof {
        assert(row@.take(row.len() as int) == row@);
    }
    sum
}

fn solve(input: &str, depth: usize) -> (r: Option<usize>)
    requires
        depth < usize::MAX,
    ensures
        r == answer(
            total_count(
                numbers(pieces(input@, Separator::Space), usize::MAX as u64),
                depth as nat,
                usize::MAX as nat,
            ),
        ),
{
    let chars = chars_of(input);
    proof {
        assert(chars@.subrange(0, chars.len() as int) == chars@);
    }
    let row = read_numbers(&chars, 0, chars.len(), Separator::Space, usize::MAX as u64);
    match count_stones(&row, depth, usize::MAX as u64) {
        Some(n) => Some(n as usize),
        None => None,
    }
}

/// Counts the stones after 25 blinks at the stones whose marks `input`
/// holds, parted by blanks. `None` where a number on the way does not fit the
/// machine.
pub fn part_one(input: &str) -> (r: Option<usize>)
    ensures
        r == part_one_spec(input@),
{
    solve(input, 25)
}

/// Counts the stones after 75 blinks at the stones whose marks `input`
/// holds, parted by blanks. `None` where a number on the way does not fit the
/// machine.
pub fn part_two(input: &str) -> (r: Option<usize>)
    ensures
        r == part_two_spec(input@),
{
    solve(input, 75)
}

} // verus!
