use blockstore::block_cache::BlockCache;

fn store_read(store: &Vec<u8>, at: u64, count: u64) -> Vec<u8> {
    store[at as usize..(at + count) as usize].to_vec()
}

fn store_write(store: &mut Vec<u8>, at: u64, bytes: &[u8]) {
    let end = at as usize + bytes.len();
    if store.len() < end {
        store.resize(end, 0);
    }
    store[at as usize..end].copy_from_slice(bytes);
}

fn read(cache: &mut BlockCache, store: &Vec<u8>, offset: u64, length: usize) -> Vec<u8> {
    match cache.wanted(offset, length) {
        Some((first, last)) => {
            let (start, count) = BlockCache::clip(first, last, store.len() as u64);
            let data = store_read(store, start, count);
            cache.read(offset, length, start, &data)
        }
        None => cache.read(offset, length, 0, &[]),
    }
}

fn commit(cache: &mut BlockCache, store: &mut Vec<u8>) -> Vec<(u64, Vec<u8>)> {
    let writes = cache.commit();
    for (at, bytes) in writes.iter() {
        store_write(store, *at, bytes);
    }
    writes
}

#[test]
fn write_then_read_before_commit() {
    let mut cache = BlockCache::new(4, 8);
    let store: Vec<u8> = vec![];
    cache.write(3, &[1, 2, 3, 4, 5, 6, 7]);
    assert_eq!(cache.wanted(3, 7), None);
    assert_eq!(read(&mut cache, &store, 3, 7), vec![1, 2, 3, 4, 5, 6, 7]);
    assert_eq!(read(&mut cache, &store, 5, 2), vec![3, 4]);
}

#[test]
fn commit_then_read_with_a_new_cache() {
    let mut cache = BlockCache::new(4, 8);
    let mut store: Vec<u8> = vec![];
    cache.write(3, &[1, 2, 3, 4, 5, 6, 7]);
    let writes = commit(&mut cache, &mut store);
    assert_eq!(writes, vec![(3, vec![1, 2, 3, 4, 5, 6, 7])]);
    assert_eq!(store, vec![0, 0, 0, 1, 2, 3, 4, 5, 6, 7]);
    let mut fresh = BlockCache::new(4, 8);
    assert_eq!(read(&mut fresh, &store, 3, 7), vec![1, 2, 3, 4, 5, 6, 7]);
}

#[test]
fn commit_joins_bytes_that_follow_one_another() {
    let mut cache = BlockCache::new(4, 8);
    cache.write(8, &[9, 9]);
    cache.write(0, &[1, 2, 3, 4, 5, 6]);
    cache.write(12, &[7]);
    cache.write(10, &[8, 8]);
    let writes = cache.commit();
    assert_eq!(
        writes,
        vec![(0, vec![1, 2, 3, 4, 5, 6]), (8, vec![9, 9, 8, 8, 7])]
    );
    assert!(cache.commit().is_empty());
}

#[test]
fn read_assembles_cached_pending_and_stored_blocks() {
    let store: Vec<u8> = (0u8..20).collect();
    let mut cache = BlockCache::new(4, 8);
    // block 0 becomes a block that was read
    assert_eq!(read(&mut cache, &store, 1, 2), vec![1, 2]);
    // block 4 becomes a pending block with a gap
    cache.write(5, &[50, 60]);
    assert_eq!(cache.wanted(0, 12), Some((4, 12)));
    assert_eq!(
        read(&mut cache, &store, 0, 12),
        vec![0, 1, 2, 3, 4, 50, 60, 7, 8, 9, 10, 11]
    );
    // past the end of the store zeros come back
    assert_eq!(read(&mut cache, &store, 18, 6), vec![18, 19, 0, 0, 0, 0]);
}

#[test]
fn read_has_the_length_asked_for() {
    let store: Vec<u8> = vec![1, 2, 3];
    let mut cache = BlockCache::new(5, 1);
    assert_eq!(read(&mut cache, &store, 0, 0), Vec::<u8>::new());
    assert_eq!(read(&mut cache, &store, 2, 11).len(), 11);
    assert_eq!(
        read(&mut cache, &store, 2, 11),
        vec![3, 0, 0, 0, 0, 0, 0, 0, 0, 0, 0]
    );
}

#[test]
fn a_write_of_no_bytes_touches_no_block() {
    let mut cache = BlockCache::new(4, 2);
    cache.write(2, &[]);
    assert!(cache.commit().is_empty());
}

#[test]
fn a_block_that_was_read_is_served_again_without_the_store() {
    let store: Vec<u8> = (0u8..8).collect();
    let mut cache = BlockCache::new(4, 1);
    assert_eq!(cache.wanted(0, 4), Some((0, 4)));
    assert_eq!(read(&mut cache, &store, 0, 4), vec![0, 1, 2, 3]);
    assert_eq!(cache.wanted(0, 4), None);
    // the cache keeps one block: reading block 4 lets block 0 go
    assert_eq!(read(&mut cache, &store, 4, 4), vec![4, 5, 6, 7]);
    assert_eq!(cache.wanted(0, 4), Some((0, 4)));
    assert_eq!(cache.wanted(4, 4), None);
}

#[test]
fn a_cache_without_room_keeps_no_block() {
    let store: Vec<u8> = (0u8..8).collect();
    let mut cache = BlockCache::new(4, 0);
    assert_eq!(read(&mut cache, &store, 0, 8), vec![0, 1, 2, 3, 4, 5, 6, 7]);
    assert_eq!(cache.wanted(0, 8), Some((0, 8)));
}

#[test]
fn writing_into_a_block_that_was_read_makes_it_pending() {
    let mut store: Vec<u8> = (0u8..8).collect();
    let mut cache = BlockCache::new(4, 4);
    assert_eq!(read(&mut cache, &store, 0, 8), vec![0, 1, 2, 3, 4, 5, 6, 7]);
    cache.write(1, &[9]);
    assert_eq!(read(&mut cache, &store, 0, 4), vec![0, 9, 2, 3]);
    // a block read as a whole is written back as a whole
    assert_eq!(commit(&mut cache, &mut store), vec![(0, vec![0, 9, 2, 3])]);
    assert_eq!(store, vec![0, 9, 2, 3, 4, 5, 6, 7]);
}

#[test]
fn clip_keeps_to_the_store() {
    assert_eq!(BlockCache::clip(4, 12, 20), (4, 8));
    assert_eq!(BlockCache::clip(4, 12, 10), (4, 6));
    assert_eq!(BlockCache::clip(4, 12, 4), (4, 0));
    assert_eq!(BlockCache::clip(4, 12, 2), (2, 0));
}

#[test]
fn block_size_is_kept() {
    assert_eq!(BlockCache::new(16, 2).block_size(), 16);
}
