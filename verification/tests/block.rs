use embedded_storage::block::{BlockCount, BlockIdx, BlockIter};

#[test]
fn block_idx_addition() {
    let a = BlockIdx(100);
    let len = BlockCount(50);
    let b = a.add(len);
    assert_eq!(b, BlockIdx(150));
}

#[test]
fn block_idx_subtraction() {
    let a = BlockIdx(100);
    let len = BlockCount(50);
    let b = a.sub(len);
    assert_eq!(b, BlockIdx(50));
}

#[test]
fn block_iter() {
    let mut block_iter = BlockIter::new(BlockIdx(10), BlockIdx(12));
    let expected = [
        Some(BlockIdx(10)),
        Some(BlockIdx(11)),
        Some(BlockIdx(12)),
        None,
    ];
    let actual = [
        block_iter.next(),
        block_iter.next(),
        block_iter.next(),
        block_iter.next(),
    ];
    assert_eq!(actual, expected);
}

#[test]
fn block_idx_range() {
    let mut it = BlockIdx(5).range(BlockCount(2));
    assert_eq!(it.next(), Some(BlockIdx(5)));
    assert_eq!(it.next(), Some(BlockIdx(6)));
    assert_eq!(it.next(), Some(BlockIdx(7)));
    assert_eq!(it.next(), None);
}

#[test]
fn block_idx_into_u64() {
    assert_eq!(u64::from(BlockIdx(9)), 9);
}

#[test]
fn block_count_arithmetic() {
    assert_eq!(BlockCount(7).add(BlockCount(3)), BlockCount(10));
    assert_eq!(BlockCount(7).sub(BlockCount(3)), BlockCount(4));
}
