//! The disk block by block.

use crate::answer::fits_usize;
use vstd::prelude::*;

verus! {

/// The number of a file.
#[derive(Clone, Copy, Debug, PartialEq, Eq, Structural)]
pub struct FileBlock {
    pub id: usize,
}

/// One block of the disk.
#[derive(Clone, Copy, Debug, PartialEq, Eq, Structural)]
pub enum Block {
    File(FileBlock),
    Free,
}

/// `count` times `item`.
pub open spec fn repeat(item: Block, count: nat) -> Seq<Block> {
    Seq::new(count, |i: int| item)
}

/// The blocks of a disk map: the lengths stand for files and free spaces in
/// turn, beginning with a file, and the files are numbered from zero.
pub open spec fn layout(map: Seq<u8>) -> Seq<Block>
    decreases map.len(),
{
    if map.len() == 0 {
        Seq::empty()
    } else {
        let at = map.len() - 1;
        let item = if at % 2 == 0 {
            Block::File(FileBlock { id: (at / 2) as usize })
        } else {
            Block::Free
        };
        layout(map.drop_last()) + repeat(item, map.last() as nat)
    }
}

/// The disk with its file blocks packed to the left: free blocks at the end
/// stay, file blocks at the beginning stay, and between a free block at the
/// beginning and a file block at the end the file block changes places with
/// the free block.
pub open spec fn packed(disk: Seq<Block>) -> Seq<Block>
    decreases disk.len(),
{
    if disk.len() == 0 {
        disk
    } else if disk.last() == Block::Free {
        packed(disk.drop_last()).push(Block::Free)
    } else if disk.first() != Block::Free {
        seq![disk.first()] + packed(disk.drop_first())
    } else {
        seq![disk.last()] + packed(disk.subrange(1, disk.len() - 1)).push(Block::Free)
    }
}

/// What a block adds to the checksum at a place.
pub open spec fn block_value(block: Block, place: int) -> nat {
    match block {
        Block::File(file) => (place * file.id) as nat,
        Block::Free => 0,
    }
}

/// The checksum of a disk: the sum, over its file blocks, of the block's
/// place times the file's number.
pub open spec fn checksum(disk: Seq<Block>) -> nat
    decreases disk.len(),
{
    if disk.len() == 0 {
        0
    } else {
        checksum(disk.drop_last()) + block_value(disk.last(), disk.len() - 1)
    }
}

/// The checksum of the packed disk of a disk map.
pub open spec fn blocks_answer(map: Seq<u8>) -> Option<usize> {
    fits_usize(checksum(packed(layout(map))))
}

/// Lays out the blocks of a disk map.
pub fn expand_blocks(map: &Vec<u8>) -> (blocks: Vec<Block>)
    ensures
        blocks@ == layout(map@),
{
    let mut blocks: Vec<Block> = Vec::new();
    let mut at: usize = 0;
    proof {
        assert(map@.take(0) =~= Seq::<u8>::empty());
    }
    while at < map.len()
        invariant
            at <= map.len(),
            blocks@ == layout(map@.take(at as int)),
        decreases map.len() - at,
    {
        let item: Block = if at % 2 == 0 {
            Block::File(FileBlock { id: at / 2 })
        } else {
            Block::Free
        };
        let length: u8 = map[at];
        let ghost before = blocks@;
        let mut done: u8 = 0;
        while done < length
            invariant
                done <= length,
                blocks@ == before + repeat(item, done as nat),
            decreases length - done,
        {
            blocks.push(item);
            done = done + 1;
            proof {
                assert(blocks@ =~= before + repeat(item, done as nat));
            }
        }
        proof {
            assert(map@.take(at + 1).drop_last() == map@.take(at as int));
            assert(map@.take(at + 1).last() == length);
        }
        at = at + 1;
    }
    proof {
        assert(map@.take(map.len() as int) == map@);
    }
    blocks
}

/// Packs the file blocks to the left: the last file block goes to the first
/// free block before it, until no free block lies before a file block.
pub fn compact_blocks(blocks: &mut Vec<Block>)
    ensures
        final(blocks)@ == packed(old(blocks)@),
{
    let ghost start = blocks@;
    let mut write: usize = 0;
    let mut read: usize = blocks.len();
    proof {
        assert(blocks@.subrange(0, blocks.len() as int) == blocks@);
        assert(blocks@.subrange(0, 0) + packed(blocks@) + blocks@.subrange(
            blocks.len() as int,
            blocks.len() as int,
        ) =~= packed(blocks@));
    }
    while write < read
        invariant
            write <= read <= blocks.len(),
            packed(start) == blocks@.subrange(0, write as int) + packed(
                blocks@.subrange(write as int, read as int),
            ) + blocks@.subrange(read as int, blocks.len() as int),
        decreases read - write,
    {
        let ghost middle = blocks@.subrange(write as int, read as int);
        let ghost len = blocks.len() as int;
        if blocks[read - 1] == Block::Free {
            proof {
                assert(middle.drop_last() == blocks@.subrange(write as int, read - 1));
                assert(packed(middle) == packed(middle.drop_last()).push(Block::Free));
                assert(seq![Block::Free] + blocks@.subrange(read as int, len)
                    =~= blocks@.subrange(read - 1, len));
                assert(blocks@.subrange(0, write as int) + packed(middle) + blocks@.subrange(
                    read as int,
                    len,
                ) =~= blocks@.subrange(0, write as int) + packed(middle.drop_last())
                    + blocks@.subrange(read - 1, len));
            }
            read = read - 1;
        } else if blocks[write] != Block::Free {
            proof {
                assert(middle.drop_first() == blocks@.subrange(write + 1, read as int));
                assert(blocks@.subrange(0, write as int) + seq![middle.first()]
                    =~= blocks@.subrange(0, write + 1));
                assert(blocks@.subrange(0, write as int) + packed(middle) + blocks@.subrange(
                    read as int,
                    len,
                ) =~= blocks@.subrange(0, write + 1) + packed(middle.drop_first())
                    + blocks@.subrange(read as int, len));
            }
            write = write + 1;
        } else {
            let moved: Block = blocks[read - 1];
            let ghost before = blocks@;
            blocks.set(write, moved);
            blocks.set(read - 1, Block::Free);
            proof {
                let inner = middle.subrange(1, middle.len() - 1);
                assert(inner == blocks@.subrange(write + 1, read - 1));
                assert(before.subrange(0, write as int) + seq![moved] =~= blocks@.subrange(
                    0,
                    write + 1,
                ));
                assert(seq![Block::Free] + before.subrange(read as int, len)
                    =~= blocks@.subrange(read - 1, len));
                assert(before.subrange(0, write as int) + packed(middle) + before.subrange(
                    read as int,
                    len,
                ) =~= blocks@.subrange(0, write + 1) + packed(inner) + blocks@.subrange(
                    read - 1,
                    len,
                ));
            }
            write = write + 1;
            read = read - 1;
        }
    }
    proof {
        assert(blocks@.subrange(write as int, read as int) =~= Seq::<Block>::empty());
        assert(blocks@.subrange(0, write as int) + Seq::<Block>::empty() + blocks@.subrange(
            read as int,
            blocks.len() as int,
        ) =~= blocks@);
    }
}

/// The checksum over the beginning of a disk is no more than over the whole.
proof fn lemma_checksum_grows(disk: Seq<Block>, k: int)
    requires
        0 <= k <= disk.len(),
    ensures
        checksum(disk.take(k)) <= checksum(disk),
    decreases disk.len() - k,
{
    if k < disk.len() {
        lemma_checksum_grows(disk, k + 1);
        assert(disk.take(k + 1).drop_last() == disk.take(k));
    } else {
        assert(disk.take(k) == disk);
    }
}

/// Sums, over the file blocks of a disk, the block's place times the
/// file's number; `None` where the sum does not fit the machine.
pub fn sum_blocks(blocks: &Vec<Block>) -> (r: Option<usize>)
    ensures
        r == fits_usize(checksum(blocks@)),
{
    let mut sum: usize = 0;
    let mut i: usize = 0;
    proof {
        assert(blocks@.take(0) =~= Seq::<Block>::empty());
    }
    while i < blocks.len()
        invariant
            i <= blocks.len(),
            sum == checksum(blocks@.take(i as int)),
        decreases blocks.len() - i,
    {
        proof {
            assert(blocks@.take(i + 1).drop_last() == blocks@.take(i as int));
            lemma_checksum_grows(blocks@, i + 1);
        }
        match blocks[i] {
            Block::File(file) => {
                assert(i * file.id <= usize::MAX * usize::MAX) by (nonlinear_arith)
                    requires
                        i <= usize::MAX,
                        file.id <= usize::MAX,
                ;
                assert(usize::MAX * usize::MAX <= u128::MAX) by (nonlinear_arith)
                    requires
                        usize::MAX <= 0xffff_ffff_ffff_ffff,
                ;
                let value: u128 = i as u128 * file.id as u128;
                if value > (usize::MAX - sum) as u128 {
                    return None;
                }
                sum = sum + value as usize;
            },
            Block::Free => {},
        }
        i = i + 1;
    }
    proof {
        assert(blocks@.take(blocks.len() as int) == blocks@);
    }
    Some(sum)
}

} // verus!
