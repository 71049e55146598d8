use tg_kernel::block_cache::{BlockCache, BLOCK_CACHE_SIZE};
use tg_kernel::fs::BLOCK_SIZE;

fn block(fill: u8) -> Vec<u8> {
    vec![fill; BLOCK_SIZE]
}

#[test]
fn hit_moves_block_to_most_recent() {
    let mut c = BlockCache::new();
    c.insert(1, block(1));
    c.insert(2, block(2));
    c.insert(3, block(3));
    assert!(c.touch(1));
    assert!(!c.touch(9));
    assert_eq!(c.evict(), None);
    assert_eq!(c.read(2), None);
    assert_eq!(c.read(1), Some(block(1)));
    assert_eq!(c.len(), 2);
}

#[test]
fn dirty_blocks_are_written_back_on_eviction() {
    let mut c = BlockCache::new();
    c.insert(5, block(0));
    c.insert(6, block(0));
    assert!(c.write(5, 10, &vec![7, 8, 9]));
    assert!(!c.write(42, 0, &vec![1]));
    let mut expected = block(0);
    expected[10..13].copy_from_slice(&[7, 8, 9]);
    assert_eq!(c.read(5), Some(expected.clone()));
    assert_eq!(c.evict(), Some((5, expected)));
    assert_eq!(c.evict(), None);
    assert_eq!(c.len(), 0);
}

#[test]
fn sync_hands_back_dirty_blocks_once() {
    let mut c = BlockCache::new();
    for id in 0..BLOCK_CACHE_SIZE {
        c.insert(id, block(id as u8));
    }
    assert_eq!(c.len(), BLOCK_CACHE_SIZE);
    c.write(3, 0, &vec![0xAA]);
    c.write(7, 511, &vec![0xBB]);
    let out = c.sync();
    assert_eq!(out.iter().map(|(id, _)| *id).collect::<Vec<_>>(), vec![3, 7]);
    assert_eq!(out[0].1[0], 0xAA);
    assert_eq!(out[1].1[511], 0xBB);
    assert!(c.sync().is_empty());
    assert_eq!(c.evict(), None);
}
