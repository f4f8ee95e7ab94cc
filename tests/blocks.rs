use cowblock::blocks::{iter_blocks, Block, IterBlocks};

fn collect(mut iterator: IterBlocks) -> Vec<Block> {
    let mut result = Vec::new();
    while let Some(block) = iterator.next() {
        result.push(block);
    }
    assert!(iterator.next().is_none());
    result
}

#[test]
fn test_blocks() {
    assert_eq!(
        collect(iter_blocks(10, 4, 4)),
        vec![
            Block { start: 4, end: 8, offset: 0, block_size: 10 },
        ],
    );
    assert_eq!(
        collect(iter_blocks(10, 24, 26)),
        vec![
            Block { start: 24, end: 30, offset: 0, block_size: 10 },
            Block { start: 30, end: 40, offset: 6, block_size: 10 },
            Block { start: 40, end: 50, offset: 16, block_size: 10 },
        ],
    );
    assert_eq!(
        collect(iter_blocks(10, 20, 26)),
        vec![
            Block { start: 20, end: 30, offset: 0, block_size: 10 },
            Block { start: 30, end: 40, offset: 10, block_size: 10 },
            Block { start: 40, end: 46, offset: 20, block_size: 10 },
        ],
    );
}

#[test]
fn empty_range_has_no_blocks() {
    assert!(collect(iter_blocks(10, 7, 0)).is_empty());
}

#[test]
fn blocks_tile_the_range() {
    let blocks = collect(iter_blocks(4, 3, 13));
    assert_eq!(blocks.first().unwrap().start, 3);
    assert_eq!(blocks.last().unwrap().end, 16);
    let mut total = 0;
    for (i, b) in blocks.iter().enumerate() {
        assert_eq!(b.offset, total);
        assert!(b.end <= (b.num() + 1) * 4);
        if i + 1 < blocks.len() {
            assert_eq!(b.end, blocks[i + 1].start);
        }
        total += b.size();
    }
    assert_eq!(total, 13);
}

#[test]
fn block_size_and_num() {
    let b = Block { start: 24, end: 30, offset: 0, block_size: 10 };
    assert_eq!(b.size(), 6);
    assert_eq!(b.num(), 2);
}
