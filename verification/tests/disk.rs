use puzzle_solvers::disk::blocks::{compact_blocks, expand_blocks, sum_blocks, Block, FileBlock};
use puzzle_solvers::disk::layout::read_disk_map;
use puzzle_solvers::disk::spans::{
    compact_spans, expand_spans, relocate_file, sum_spans, SizedBlock, SizedFileBlock,
    SizedFreeBlock,
};
use puzzle_solvers::disk::{part_one, part_two};

#[test]
fn day09_test_part_one() {
    let result = part_one("12345\n");
    assert_eq!(result, Some(60));

    let result = part_one("2333133121414131402\n");
    assert_eq!(result, Some(1928));
}

#[test]
fn day09_test_part_two() {
    let result = part_two("12345\n");
    assert_eq!(result, Some(132));
    let result = part_two("2333133121414131402\n");
    assert_eq!(result, Some(2858));
}

#[test]
fn disk_map_stops_at_first_other_character() {
    assert_eq!(read_disk_map("123x45"), vec![1, 2, 3]);
    assert_eq!(read_disk_map(""), Vec::<u8>::new());
    assert_eq!(part_one(""), Some(0));
    assert_eq!(part_two("x1"), Some(0));
}

#[test]
fn disk_blocks_are_packed_from_the_end() {
    let mut blocks = expand_blocks(&vec![1, 2, 3]);
    let file = |id: usize| Block::File(FileBlock { id });
    assert_eq!(
        blocks,
        vec![file(0), Block::Free, Block::Free, file(1), file(1), file(1)]
    );
    compact_blocks(&mut blocks);
    assert_eq!(
        blocks,
        vec![file(0), file(1), file(1), file(1), Block::Free, Block::Free]
    );
    // 1 * 1 + 2 * 1 + 3 * 1
    assert_eq!(sum_blocks(&blocks), Some(6));
}

#[test]
fn disk_files_move_whole() {
    let (mut spans, files) = expand_spans(&vec![1, 3, 2]);
    assert_eq!(files, 2);
    relocate_file(&mut spans, 1);
    assert_eq!(
        spans,
        vec![
            SizedBlock::File(SizedFileBlock { id: 0, size: 1 }),
            SizedBlock::File(SizedFileBlock { id: 1, size: 2 }),
            SizedBlock::Free(SizedFreeBlock { size: 1 }),
            SizedBlock::Free(SizedFreeBlock { size: 2 }),
        ]
    );
    // 1 * 1 + 2 * 1
    assert_eq!(sum_spans(&spans), Some(3));
    let (mut spans, files) = expand_spans(&vec![1, 1, 2]);
    let before = spans.clone();
    compact_spans(&mut spans, files);
    assert_eq!(spans, before);
}
