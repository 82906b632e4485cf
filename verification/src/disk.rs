//! A disk of files and free space: packing it and summing up where the
//! files end.

pub mod blocks;
pub mod layout;
pub mod spans;

use crate::disk::blocks::{blocks_answer, compact_blocks, expand_blocks, sum_blocks};
use crate::disk::layout::{disk_map, read_disk_map};
use crate::disk::spans::{compact_spans, expand_spans, spans_answer, sum_spans};
use vstd::prelude::*;

verus! {

/// The checksum of the disk of a text once its blocks are packed to the
/// left one by one; `None` where it does not fit the machine.
pub open spec fn part_one_spec(text: Seq<char>) -> Option<usize> {
    blocks_answer(disk_map(text))
}

/// The checksum of the disk of a text once its files are moved to the left
/// whole; `None` where it does not fit the machine.
pub open spec fn part_two_spec(text: Seq<char>) -> Option<usize> {
    spans_answer(disk_map(text))
}

/// Lays out the disk that the leading digits of `input` describe, moves
/// the file blocks from the end of the disk into the free space at its
/// beginning, one by one, and sums each block's place times its file's
/// number.
pub fn part_one(input: &str) -> (r: Option<usize>)
    ensures
        r == part_one_spec(input@),
{
    let map = read_disk_map(input);
    let mut blocks = expand_blocks(&map);
    compact_blocks(&mut blocks);
    sum_blocks(&blocks)
}

/// Lays out the disk that the leading digits of `input` describe, moves
/// each file once, from the last to the first, into the leftmost free space
/// before it that holds it whole, and sums each block's place times its
/// file's number.
pub fn part_two(input: &str) -> (r: Option<usize>)
    ensures
        r == part_two_spec(input@),
{
    let map = read_disk_map(input);
    let (mut spans, files) = expand_spans(&map);
    compact_spans(&mut spans, files);
    sum_spans(&spans)
}

} // verus!
