//! Two lists of numbers side by side: how far apart they are, and how alike.

use crate::answer::fits_u32;
use crate::text::{chars_of, line_numbers, read_line_numbers};
use std::collections::HashMap;
use vstd::prelude::*;
use vstd::relations::sorted_by;
use vstd::seq_lib::lemma_sorted_unique;

verus! {

/// The left numbers of the lines that hold two numbers, in their order.
pub open spec fn left_column(rows: Seq<Seq<u64>>) -> Seq<u64>
    decreases rows.len(),
{
    if rows.len() == 0 {
        Seq::empty()
    } else if rows.last().len() == 2 {
        left_column(rows.drop_last()).push(rows.last()[0])
    } else {
        left_column(rows.drop_last())
    }
}

/// The right numbers of the lines that hold two numbers, in their order.
pub open spec fn right_column(rows: Seq<Seq<u64>>) -> Seq<u64>
    decreases rows.len(),
{
    if rows.len() == 0 {
        Seq::empty()
    } else if rows.last().len() == 2 {
        right_column(rows.drop_last()).push(rows.last()[1])
    } else {
        right_column(rows.drop_last())
    }
}

/// The order of numbers.
pub open spec fn at_most(a: u64, b: u64) -> bool {
    a <= b
}

/// Whether a list of numbers ascends.
pub open spec fn ascending(s: Seq<u64>) -> bool {
    sorted_by(s, |a: u64, b: u64| at_most(a, b))
}

/// A list of numbers in ascending order.
pub open spec fn sorted(s: Seq<u64>) -> Seq<u64> {
    s.sort_by(|a: u64, b: u64| at_most(a, b))
}

/// The distance between two numbers.
pub open spec fn gap(a: u64, b: u64) -> nat {
    if a <= b {
        (b - a) as nat
    } else {
        (a - b) as nat
    }
}

/// The sum of the distances between the first `k` items of two lists, place
/// by place.
pub open spec fn distance_upto(left: Seq<u64>, right: Seq<u64>, k: nat) -> nat
    decreases k,
{
    if k == 0 {
        0
    } else {
        distance_upto(left, right, (k - 1) as nat) + gap(left[k - 1], right[k - 1])
    }
}

/// The sum of the distances between the items of two lists, place by place,
/// as far as both lists go.
pub open spec fn total_distance(left: Seq<u64>, right: Seq<u64>) -> nat {
    if left.len() <= right.len() {
        distance_upto(left, right, left.len())
    } else {
        distance_upto(left, right, right.len())
    }
}

/// How often a number occurs in a list.
pub open spec fn occurrences(s: Seq<u64>, v: u64) -> nat
    decreases s.len(),
{
    if s.len() == 0 {
        0
    } else {
        occurrences(s.drop_last(), v) + if s.last() == v {
            1nat
        } else {
            0nat
        }
    }
}

/// The sum, over the items of the left list, of the item times the number of
/// its occurrences in the right list.
pub open spec fn similarity(left: Seq<u64>, right: Seq<u64>) -> nat
    decreases left.len(),
{
    if left.len() == 0 {
        0
    } else {
        similarity(left.drop_last(), right) + left.last() as nat * occurrences(right, left.last())
    }
}

/// The sum of the distances between the two columns of a text, each in
/// ascending order.
pub open spec fn part_one_spec(text: Seq<char>) -> Option<u32> {
    let rows = line_numbers(text, u32::MAX as u64);
    fits_u32(total_distance(sorted(left_column(rows)), sorted(right_column(rows))))
}

/// The similarity of the two columns of a text.
pub open spec fn part_two_spec(text: Seq<char>) -> Option<u32> {
    let rows = line_numbers(text, u32::MAX as u64);
    fits_u32(similarity(left_column(rows), right_column(rows)))
}

/// `sort` of std's slices on a list of numbers: the list is put in ascending
/// order, and it holds the items it held, each as often as before.
#[verifier::external_body]
fn sort_numbers(v: &mut Vec<u64>)
    ensures
        ascending(final(v)@),
        final(v)@.to_multiset() == old(v)@.to_multiset(),
{
    v.sort();
}

/// A list in ascending order with the items of another is that other list
/// sorted.
proof fn lemma_sorted_is_sort(s: Seq<u64>, t: Seq<u64>)
    requires
        ascending(t),
        t.to_multiset() == s.to_multiset(),
    ensures
        t == sorted(s),
{
    let leq = |a: u64, b: u64| at_most(a, b);
    assert(vstd::relations::total_ordering(leq));
    s.lemma_sort_by_ensures(leq);
    lemma_sorted_unique(t, s.sort_by(leq), leq);
}

/// The two columns of the rows that hold two numbers.
fn columns(rows: &Vec<Vec<u64>>) -> (r: (Vec<u64>, Vec<u64>))
    ensures
        r.0@ == left_column(rows@.map_values(|row: Vec<u64>| row@)),
        r.1@ == right_column(rows@.map_values(|row: Vec<u64>| row@)),
{
    let ghost all = rows@.map_values(|row: Vec<u64>| row@);
    let mut left: Vec<u64> = Vec::new();
    let mut right: Vec<u64> = Vec::new();
    let mut i: usize = 0;
    proof {
        assert(all.take(0) =~= Seq::<Seq<u64>>::empty());
    }
    while i < rows.len()
        invariant
            i <= rows.len(),
            all == rows@.map_values(|row: Vec<u64>| row@),
            left@ == left_column(all.take(i as int)),
            right@ == right_column(all.take(i as int)),
        decreases rows.len() - i,
    {
        proof {
            assert(all.take(i + 1).drop_last() == all.take(i as int));
            assert(all.take(i + 1).last() == rows@[i as int]@);
        }
        if rows[i].len() == 2 {
            left.push(rows[i][0]);
            right.push(rows[i][1]);
        }
        i = i + 1;
    }
    proof {
        assert(all.take(all.len() as int) == all);
    }
    (left, right)
}

/// The sum of the distances of two lists of numbers, place by place as far
/// as both lists go; `None` where it exceeds `u32::MAX`.
pub fn sum_distances(left: &Vec<u64>, right: &Vec<u64>) -> (r: Option<u32>)
    ensures
        r == fits_u32(total_distance(left@, right@)),
{
    let n: usize = if left.len() <= right.len() {
        left.len()
    } else {
        right.len()
    };
    let mut sum: u64 = 0;
    let mut i: usize = 0;
    while i < n
        invariant
            i <= n,
            n <= left.len(),
            n <= right.len(),
            total_distance(left@, right@) == distance_upto(left@, right@, n as nat),
            sum == distance_upto(left@, right@, i as nat),
            sum <= u32::MAX,
        decreases n - i,
    {
        proof {
            lemma_distance_grows(left@, right@, (i + 1) as nat, n as nat);
        }
        let a: u64 = left[i];
        let b: u64 = right[i];
        let d: u64 = if a <= b {
            b - a
        } else {
            a - b
        };
        proof {
            assert(distance_upto(left@, right@, (i + 1) as nat) == sum + d);
        }
        if d > u32::MAX as u64 - sum {
            return None;
        }
        sum = sum + d;
        i = i + 1;
    }
    Some(sum as u32)
}

/// The distance over fewer places is no more than over more.
proof fn lemma_distance_grows(left: Seq<u64>, right: Seq<u64>, k: nat, n: nat)
    requires
        k <= n,
    ensures
        distance_upto(left, right, k) <= distance_upto(left, right, n),
    decreases n,
{
    if k < n {
        lemma_distance_grows(left, right, k, (n - 1) as nat);
    }
}

/// The similarity over the beginning of the left list is no more than over
/// the whole list.
proof fn lemma_similarity_grows(left: Seq<u64>, right: Seq<u64>, k: int)
    requires
        0 <= k <= left.len(),
    ensures
        similarity(left.take(k), right) <= similarity(left, right),
    decreases left.len() - k,
{
    if k < left.len() {
        lemma_similarity_grows(left, right, k + 1);
        assert(left.take(k + 1).drop_last() == left.take(k));
    } else {
        assert(left.take(k) == left);
    }
}

/// How often each number occurs in a list.
fn tally(list: &Vec<u64>) -> (counts: HashMap<u64, u64>)
    ensures
        forall|v: u64|
            counts@.contains_key(v) ==> counts@[v] == occurrences(list@, v) && counts@[v] > 0,
        forall|v: u64| !counts@.contains_key(v) ==> occurrences(list@, v) == 0,
{
    let mut counts: HashMap<u64, u64> = HashMap::new();
    let mut i: usize = 0;
    proof {
        assert(list@.take(0) =~= Seq::<u64>::empty());
    }
    while i < list.len()
        invariant
            i <= list.len(),
            forall|v: u64|
                counts@.contains_key(v) ==> counts@[v] == occurrences(list@.take(i as int), v)
                    && 0 < counts@[v] <= i,
            forall|v: u64| !counts@.contains_key(v) ==> occurrences(list@.take(i as int), v) == 0,
        decreases list.len() - i,
    {
        proof {
            assert(list@.take(i + 1).drop_last() == list@.take(i as int));
        }
        let v: u64 = list[i];
        let seen: u64 = match counts.get(&v) {
            Some(n) => *n,
            None => 0,
        };
        counts.insert(v, seen + 1);
        i = i + 1;
    }
    proof {
        assert(list@.take(list.len() as int) == list@);
    }
    counts
}

/// The similarity of two lists of numbers; `None` where it exceeds
/// `u32::MAX`.
pub fn sum_similarity(left: &Vec<u64>, right: &Vec<u64>) -> (r: Option<u32>)
    ensures
        r == fits_u32(similarity(left@, right@)),
{
    let counts = tally(right);
    let mut sum: u64 = 0;
    let mut i: usize = 0;
    proof {
        assert(left@.take(0) =~= Seq::<u64>::empty());
    }
    while i < left.len()
        invariant
            i <= left.len(),
            forall|v: u64|
                counts@.contains_key(v) ==> counts@[v] == occurrences(right@, v) && counts@[v] > 0,
            forall|v: u64| !counts@.contains_key(v) ==> occurrences(right@, v) == 0,
            sum == similarity(left@.take(i as int), right@),
            sum <= u32::MAX,
        decreases left.len() - i,
    {
        proof {
            assert(left@.take(i + 1).drop_last() == left@.take(i as int));
            lemma_similarity_grows(left@, right@, i + 1);
        }
        let v: u64 = left[i];
        let n: u64 = match counts.get(&v) {
            Some(n) => *n,
            None => 0,
        };
        assert(v * n <= 0xffff_ffff_ffff_ffff * 0xffff_ffff_ffff_ffff) by (nonlinear_arith)
            requires
                v <= 0xffff_ffff_ffff_ffff,
                n <= 0xffff_ffff_ffff_ffff,
        ;
        let term: u128 = v as u128 * n as u128;
        if term > (u32::MAX as u64 - sum) as u128 {
            return None;
        }
        sum = sum + term as u64;
        i = i + 1;
    }
    proof {
        assert(left@.take(left.len() as int) == left@);
    }
    Some(sum as u32)
}

/// Puts the left numbers of the lines of `input` in ascending order, and the
/// right numbers too, and sums the distances between them place by place.
/// Lines that do not hold two numbers are passed over.
pub fn part_one(input: &str) -> (r: Option<u32>)
    ensures
        r == part_one_spec(input@),
{
    let chars = chars_of(input);
    let rows = read_line_numbers(&chars, u32::MAX as u64);
    proof {
        assert(rows@.map_values(|row: Vec<u64>| row@) =~= line_numbers(input@, u32::MAX as u64));
    }
    let (mut left, mut right) = columns(&rows);
    let ghost unsorted_left = left@;
    let ghost unsorted_right = right@;
    sort_numbers(&mut left);
    sort_numbers(&mut right);
    proof {
        lemma_sorted_is_sort(unsorted_left, left@);
        lemma_sorted_is_sort(unsorted_right, right@);
    }
    sum_distances(&left, &right)
}

/// Sums, over the left numbers of the lines of `input`, each number times
/// the number of its occurrences among the right numbers. Lines that do not
/// hold two numbers are passed over.
pub fn part_two(input: &str) -> (r: Option<u32>)
    ensures
        r == part_two_spec(input@),
{
    let chars = chars_of(input);
    let rows = read_line_numbers(&chars, u32::MAX as u64);
    proof {
        assert(rows@.map_values(|row: Vec<u64>| row@) =~= line_numbers(input@, u32::MAX as u64));
    }
    let (left, right) = columns(&rows);
    sum_similarity(&left, &right)
}

} // verus!
