//! The disk span by span: whole files and whole free spaces.

use crate::answer::fits_usize;
use vstd::prelude::*;

verus! {

/// A file: its number and the number of its blocks.
#[derive(Clone, Copy, Debug, PartialEq, Eq, Structural)]
pub struct SizedFileBlock {
    pub id: usize,
    pub size: usize,
}

/// A free space: the number of its blocks.
#[derive(Clone, Copy, Debug, PartialEq, Eq, Structural)]
pub struct SizedFreeBlock {
    pub size: usize,
}

/// One span of the disk.
#[derive(Clone, Copy, Debug, PartialEq, Eq, Structural)]
pub enum SizedBlock {
    File(SizedFileBlock),
    Free(SizedFreeBlock),
}

/// The longest span that a disk map can give.
pub const MAX_SPAN: usize = 9;

impl SizedBlock {
    /// The number of blocks of the span.
    pub open spec fn size(self) -> nat {
        match self {
            SizedBlock::File(file) => file.size as nat,
            SizedBlock::Free(free) => free.size as nat,
        }
    }

    /// Whether the span is a free space of `size` blocks or more.
    pub open spec fn holds(self, size: usize) -> bool {
        match self {
            SizedBlock::File(_) => false,
            SizedBlock::Free(free) => free.size >= size,
        }
    }

    /// Whether the span is the file with the number `id`.
    pub open spec fn is_file(self, id: usize) -> bool {
        match self {
            SizedBlock::File(file) => file.id == id,
            SizedBlock::Free(_) => false,
        }
    }
}

/// Whether no span is longer than a disk map can make it.
pub open spec fn short_spans(spans: Seq<SizedBlock>) -> bool {
    forall|i: int| 0 <= i < spans.len() ==> (#[trigger] spans[i]).size() <= MAX_SPAN
}

/// The spans of a disk map: the lengths stand for files and free spaces in
/// turn, beginning with a file, and the files are numbered from zero.
pub open spec fn span_layout(map: Seq<u8>) -> Seq<SizedBlock>
    decreases map.len(),
{
    if map.len() == 0 {
        Seq::empty()
    } else {
        let at = map.len() - 1;
        let size = map.last() as usize;
        let item = if at % 2 == 0 {
            SizedBlock::File(SizedFileBlock { id: (at / 2) as usize, size })
        } else {
            SizedBlock::Free(SizedFreeBlock { size })
        };
        span_layout(map.drop_last()).push(item)
    }
}

/// The number of files of a disk map.
pub open spec fn file_count(map: Seq<u8>) -> nat {
    ((map.len() + 1) / 2) as nat
}

/// Where the file with the number `id` lies: the last span that is this
/// file, if there is one.
pub open spec fn find_file(spans: Seq<SizedBlock>, id: usize) -> Option<int>
    decreases spans.len(),
{
    if spans.len() == 0 {
        None
    } else if spans.last().is_file(id) {
        Some(spans.len() - 1)
    } else {
        find_file(spans.drop_last(), id)
    }
}

/// The first span from `from` on and before `limit` that is a free space of
/// `size` blocks or more, if there is one.
pub open spec fn find_gap(spans: Seq<SizedBlock>, from: int, limit: int, size: usize) -> Option<int>
    decreases limit - from,
{
    if from >= limit {
        None
    } else if spans[from].holds(size) {
        Some(from)
    } else {
        find_gap(spans, from + 1, limit, size)
    }
}

/// The disk after the file with the number `id` was moved, if it can be: it
/// goes into the leftmost free space before it that holds it whole. What is
/// left of that free space stays free behind the file, and the file's old
/// place becomes free.
pub open spec fn relocate(spans: Seq<SizedBlock>, id: usize) -> Seq<SizedBlock> {
    match find_file(spans, id) {
        None => spans,
        Some(k) => {
            let size = spans[k].size() as usize;
            match find_gap(spans, 0, k, size) {
                None => spans,
                Some(j) => {
                    let room = spans[j].size() as usize;
                    let moved = spans.update(j, spans[k]).update(
                        k,
                        SizedBlock::Free(SizedFreeBlock { size }),
                    );
                    if room > size {
                        moved.insert(
                            j + 1,
                            SizedBlock::Free(SizedFreeBlock { size: (room - size) as usize }),
                        )
                    } else {
                        moved
                    }
                },
            }
        },
    }
}

/// The disk after the files with numbers below `files` were moved, each
/// once, from the highest number down.
pub open spec fn settle(spans: Seq<SizedBlock>, files: nat) -> Seq<SizedBlock>
    decreases files,
{
    if files == 0 {
        spans
    } else {
        settle(relocate(spans, (files - 1) as usize), (files - 1) as nat)
    }
}

/// The number of blocks of some spans.
pub open spec fn total_size(spans: Seq<SizedBlock>) -> nat
    decreases spans.len(),
{
    if spans.len() == 0 {
        0
    } else {
        total_size(spans.drop_last()) + spans.last().size()
    }
}

/// The sum of the places of `size` blocks from `start` on, each times `id`.
pub open spec fn span_sum(start: nat, size: nat, id: nat) -> nat
    decreases size,
{
    if size == 0 {
        0
    } else {
        span_sum(start, (size - 1) as nat, id) + (start + (size - 1) as nat) * id
    }
}

/// What a span adds to the checksum when it begins at `start`.
pub open spec fn span_value(span: SizedBlock, start: nat) -> nat {
    match span {
        SizedBlock::File(file) => span_sum(start, file.size as nat, file.id as nat),
        SizedBlock::Free(_) => 0,
    }
}

/// The checksum of a disk: the sum, over the blocks of its files, of the
/// block's place times the file's number.
pub open spec fn span_checksum(spans: Seq<SizedBlock>) -> nat
    decreases spans.len(),
{
    if spans.len() == 0 {
        0
    } else {
        span_checksum(spans.drop_last()) + span_value(
            spans.last(),
            total_size(spans.drop_last()),
        )
    }
}

/// The checksum of the settled disk of a disk map.
pub open spec fn spans_answer(map: Seq<u8>) -> Option<usize> {
    fits_usize(span_checksum(settle(span_layout(map), file_count(map))))
}

/// Lays out the spans of a disk map and counts its files.
pub fn expand_spans(map: &Vec<u8>) -> (r: (Vec<SizedBlock>, usize))
    requires
        forall|i: int| 0 <= i < map@.len() ==> map@[i] <= 9,
    ensures
        r.0@ == span_layout(map@),
        r.1 == file_count(map@),
        short_spans(r.0@),
{
    let mut spans: Vec<SizedBlock> = Vec::new();
    let mut at: usize = 0;
    proof {
        assert(map@.take(0) =~= Seq::<u8>::empty());
    }
    while at < map.len()
        invariant
            at <= map.len(),
            forall|i: int| 0 <= i < map@.len() ==> map@[i] <= 9,
            spans@ == span_layout(map@.take(at as int)),
            short_spans(spans@),
        decreases map.len() - at,
    {
        let size: usize = map[at] as usize;
        let item: SizedBlock = if at % 2 == 0 {
            SizedBlock::File(SizedFileBlock { id: at / 2, size })
        } else {
            SizedBlock::Free(SizedFreeBlock { size })
        };
        proof {
            assert(map@.take(at + 1).drop_last() == map@.take(at as int));
            assert(map@.take(at + 1).last() == map@[at as int]);
        }
        spans.push(item);
        at = at + 1;
    }
    proof {
        assert(map@.take(map.len() as int) == map@);
    }
    let files: usize = map.len() / 2 + map.len() % 2;
    (spans, files)
}

/// Moves the file with the number `id`, if it can be moved: into the leftmost
/// free space before it that holds it whole.
pub fn relocate_file(spans: &mut Vec<SizedBlock>, id: usize)
    requires
        short_spans(old(spans)@),
    ensures
        final(spans)@ == relocate(old(spans)@, id),
        short_spans(final(spans)@),
{
    let mut k: usize = spans.len();
    let mut found: Option<SizedFileBlock> = None;
    proof {
        assert(spans@.take(k as int) == spans@);
    }
    while found.is_none() && k > 0
        invariant
            k <= spans.len(),
            find_file(spans@, id) == match found {
                Some(_) => Some(k as int),
                None => find_file(spans@.take(k as int), id),
            },
            match found {
                Some(file) => k < spans.len() && spans@[k as int] == SizedBlock::File(file),
                None => true,
            },
        decreases k + if found is None { 1int } else { 0int },
    {
        proof {
            assert(spans@.take(k as int).drop_last() == spans@.take(k - 1));
        }
        k = k - 1;
        match spans[k] {
            SizedBlock::File(file) => {
                if file.id == id {
                    found = Some(file);
                }
            },
            SizedBlock::Free(_) => {},
        }
    }
    let file: SizedFileBlock = match found {
        Some(file) => file,
        None => {
            return ;
        },
    };
    let mut j: usize = 0;
    let mut room: Option<usize> = None;
    while room.is_none() && j < k
        invariant
            j <= k < spans.len(),
            find_gap(spans@, 0, k as int, file.size) == match room {
                Some(_) => Some(j as int),
                None => find_gap(spans@, j as int, k as int, file.size),
            },
            match room {
                Some(size) => j < k && spans@[j as int] == SizedBlock::Free(
                    SizedFreeBlock { size },
                ) && size >= file.size,
                None => true,
            },
        decreases k - j + if room is None { 1int } else { 0int },
    {
        match spans[j] {
            SizedBlock::Free(free) => {
                if free.size >= file.size {
                    room = Some(free.size);
                } else {
                    j = j + 1;
                }
            },
            SizedBlock::File(_) => {
                j = j + 1;
            },
        }
    }
    let room: usize = match room {
        Some(size) => size,
        None => {
            return ;
        },
    };
    spans.set(j, SizedBlock::File(file));
    spans.set(k, SizedBlock::Free(SizedFreeBlock { size: file.size }));
    if room > file.size {
        spans.insert(j + 1, SizedBlock::Free(SizedFreeBlock { size: room - file.size }));
    }
}

/// Moves the files with numbers below `files`, each once, from the highest
/// number down.
pub fn compact_spans(spans: &mut Vec<SizedBlock>, files: usize)
    requires
        short_spans(old(spans)@),
    ensures
        final(spans)@ == settle(old(spans)@, files as nat),
        short_spans(final(spans)@),
{
    let ghost start = spans@;
    let mut id: usize = files;
    while id > 0
        invariant
            short_spans(spans@),
            settle(start, files as nat) == settle(spans@, id as nat),
        decreases id,
    {
        id = id - 1;
        relocate_file(spans, id);
    }
}

/// The sum over the first blocks of a span is no more than over all of them.
proof fn lemma_span_sum_grows(start: nat, part: nat, size: nat, id: nat)
    requires
        part <= size,
    ensures
        span_sum(start, part, id) <= span_sum(start, size, id),
    decreases size,
{
    if part < size {
        lemma_span_sum_grows(start, part, (size - 1) as nat, id);
    }
}

/// The checksum over the first spans of a disk is no more than over all of
/// them.
proof fn lemma_span_checksum_grows(spans: Seq<SizedBlock>, k: int)
    requires
        0 <= k <= spans.len(),
    ensures
        span_checksum(spans.take(k)) <= span_checksum(spans),
    decreases spans.len() - k,
{
    if k < spans.len() {
        lemma_span_checksum_grows(spans, k + 1);
        assert(spans.take(k + 1).drop_last() == spans.take(k));
    } else {
        assert(spans.take(k) == spans);
    }
}

/// Sums, over the blocks of the files of a disk, the block's place times
/// the file's number; `None` where the sum does not fit the machine.
pub fn sum_spans(spans: &Vec<SizedBlock>) -> (r: Option<usize>)
    requires
        short_spans(spans@),
    ensures
        r == fits_usize(span_checksum(spans@)),
{
    let mut sum: usize = 0;
    let mut position: u128 = 0;
    let mut i: usize = 0;
    proof {
        assert(spans@.take(0) =~= Seq::<SizedBlock>::empty());
    }
    while i < spans.len()
        invariant
            i <= spans.len(),
            short_spans(spans@),
            position == total_size(spans@.take(i as int)),
            position <= MAX_SPAN * i,
            sum == span_checksum(spans@.take(i as int)),
        decreases spans.len() - i,
    {
        proof {
            assert(spans@.take(i + 1).drop_last() == spans@.take(i as int));
            lemma_span_checksum_grows(spans@, i + 1);
            assert(spans@[i as int].size() <= MAX_SPAN);
        }
        match spans[i] {
            SizedBlock::File(file) => {
                let ghost base = sum;
                let mut offset: usize = 0;
                while offset < file.size
                    invariant
                        offset <= file.size <= MAX_SPAN,
                        position <= MAX_SPAN * i,
                        i < spans.len(),
                        sum == base + span_sum(position as nat, offset as nat, file.id as nat),
                        base + span_sum(position as nat, file.size as nat, file.id as nat)
                            <= span_checksum(spans@),
                    decreases file.size - offset,
                {
                    proof {
                        lemma_span_sum_grows(
                            position as nat,
                            (offset + 1) as nat,
                            file.size as nat,
                            file.id as nat,
                        );
                    }
                    let place: u128 = position + offset as u128;
                    if file.id != 0 {
                        if place > usize::MAX as u128 {
                            proof {
                                assert(place * file.id > usize::MAX) by (nonlinear_arith)
                                    requires
                                        place > usize::MAX,
                                        file.id >= 1,
                                ;
                            }
                            return None;
                        }
                        assert(place * file.id <= usize::MAX * usize::MAX) by (nonlinear_arith)
                            requires
                                place <= usize::MAX,
                                file.id <= usize::MAX,
                        ;
                        assert(usize::MAX * usize::MAX <= u128::MAX) by (nonlinear_arith)
                            requires
                                usize::MAX <= 0xffff_ffff_ffff_ffff,
                        ;
                        let value: u128 = place * file.id as u128;
                        if value > (usize::MAX - sum) as u128 {
                            return None;
                        }
                        sum = sum + value as usize;
                    } else {
                        assert(place * 0 == 0) by (nonlinear_arith);
                    }
                    offset = offset + 1;
                }
                position = position + file.size as u128;
            },
            SizedBlock::Free(free) => {
                position = position + free.size as u128;
            },
        }
        i = i + 1;
    }
    proof {
        assert(spans@.take(spans.len() as int) == spans@);
    }
    Some(sum)
}

} // verus!
