//! The disk map: the lengths of files and free spaces in turn.

use crate::text::{all_digits, chars_of, digit, digit_of};
use vstd::prelude::*;

verus! {

/// The values of a text of decimal digits, digit by digit.
pub open spec fn digit_values(s: Seq<char>) -> Seq<u8> {
    Seq::new(
        s.len(),
        |i: int|
            match digit(s[i]) {
                Some(d) => d as u8,
                None => 0u8,
            },
    )
}

/// The lengths that a text gives: the values of its digits up to the first
/// character that is no digit.
pub open spec fn disk_map(text: Seq<char>) -> Seq<u8>
    decreases text.len(),
{
    if all_digits(text) {
        digit_values(text)
    } else {
        disk_map(text.drop_last())
    }
}

/// Where the digits end, the disk map ends.
proof fn lemma_disk_map_prefix(text: Seq<char>, k: int)
    requires
        0 <= k <= text.len(),
        all_digits(text.take(k)),
        k < text.len() ==> digit(text[k]) is None,
    ensures
        disk_map(text) == digit_values(text.take(k)),
    decreases text.len() - k,
{
    if k == text.len() {
        assert(text.take(k) == text);
    } else {
        assert(!all_digits(text));
        assert(text.drop_last().take(k) == text.take(k));
        lemma_disk_map_prefix(text.drop_last(), k);
    }
}

/// Reads the disk map of a text: one length for each leading digit, each
/// below ten.
pub fn read_disk_map(input: &str) -> (map: Vec<u8>)
    ensures
        map@ == disk_map(input@),
        forall|i: int| 0 <= i < map@.len() ==> map@[i] <= 9,
{
    let chars = chars_of(input);
    let mut map: Vec<u8> = Vec::new();
    let mut i: usize = 0;
    let mut open: bool = true;
    proof {
        assert(chars@.take(0) =~= Seq::<char>::empty());
    }
    while open && i < chars.len()
        invariant
            i <= chars.len(),
            chars@ == input@,
            all_digits(chars@.take(i as int)),
            map@ == digit_values(chars@.take(i as int)),
            forall|k: int| 0 <= k < map@.len() ==> map@[k] <= 9,
            !open ==> i < chars.len() && digit(chars@[i as int]) is None,
        decreases chars.len() - i + if open { 1int } else { 0int },
    {
        match digit_of(chars[i]) {
            Some(d) => {
                map.push(d as u8);
                proof {
                    assert(chars@.take(i + 1) == chars@.take(i as int).push(chars@[i as int]));
                    assert(map@ =~= digit_values(chars@.take(i + 1)));
                }
                i = i + 1;
            },
            None => {
                open = false;
            },
        }
    }
    proof {
        lemma_disk_map_prefix(chars@, i as int);
    }
    map
}

} // verus!
