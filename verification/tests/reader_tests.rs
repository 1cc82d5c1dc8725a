use blockstore::data::DataStore;
use blockstore::format::{encode_block, DataError};
use blockstore::reader::BlockRead;

type Store = DataStore<(u32, u32), u8, u8>;

fn read_all(mut reader: BlockRead, store: &[u8]) -> (Vec<(u64, u64)>, Result<Vec<u8>, DataError>) {
    let mut pieces = vec![];
    loop {
        match reader.next() {
            Ok(Some((at, n))) => {
                pieces.push((at, n));
                let bytes = &store[at as usize..(at + n) as usize];
                reader.feed(bytes).unwrap();
            }
            Ok(None) => return (pieces, reader.finish()),
            Err(e) => return (pieces, Err(e)),
        }
    }
}

#[test]
fn short_block_is_read_in_one_piece() {
    let block = encode_block(&vec![vec![1, 2], vec![3]]).unwrap();
    let mut store = vec![9u8; 5];
    store.extend(block.iter());
    let (pieces, got) = read_all(Store::read(5, store.len() as u64), &store);
    assert_eq!(pieces, vec![(5, 10)]);
    assert_eq!(got, Ok(block[4..].to_vec()));
}

#[test]
fn first_piece_may_reach_into_the_next_block() {
    let first = encode_block(&vec![vec![1, 2]]).unwrap();
    let second = encode_block(&vec![vec![7; 20]]).unwrap();
    let mut store = first.clone();
    store.extend(second.iter());
    let (pieces, got) = read_all(Store::read(0, store.len() as u64), &store);
    assert_eq!(pieces, vec![(0, store.len() as u64)]);
    assert_eq!(got, Ok(first[4..].to_vec()));
}

#[test]
fn long_block_is_read_piece_by_piece() {
    let block = encode_block(&vec![vec![5; 2500]]).unwrap();
    assert_eq!(block.len(), 2507);
    let mut store = block.clone();
    store.extend([1u8, 2, 3].iter());
    let (pieces, got) = read_all(Store::read(0, store.len() as u64), &store);
    assert_eq!(pieces, vec![(0, 1024), (1024, 1024), (2048, 459)]);
    assert_eq!(got, Ok(block[4..].to_vec()));
}

#[test]
fn pieces_are_as_long_as_asked() {
    let block = encode_block(&vec![vec![5; 30]]).unwrap();
    let (pieces, got) = read_all(BlockRead::new(0, block.len() as u64, 16), &block);
    assert_eq!(pieces, vec![(0, 16), (16, 16), (32, 5)]);
    assert_eq!(got, Ok(block[4..].to_vec()));
}

#[test]
fn block_past_the_end_of_the_store_is_refused() {
    assert_eq!(Store::read(8, 10).next(), Err(DataError::Corrupt { at: 0 }));
    assert_eq!(Store::read(20, 10).next(), Err(DataError::Corrupt { at: 0 }));
}

#[test]
fn block_that_is_cut_short_is_refused() {
    let block = encode_block(&vec![vec![5; 30]]).unwrap();
    let store = &block[0..20];
    let (pieces, got) = read_all(Store::read(0, 20), store);
    assert_eq!(pieces, vec![(0, 20)]);
    assert_eq!(got, Err(DataError::Corrupt { at: 20 }));
}

#[test]
fn block_with_a_length_below_four_is_refused() {
    let store = [0u8, 0, 0, 3, 1, 2, 3, 4];
    let (_, got) = read_all(Store::read(0, 8), &store);
    assert_eq!(got, Err(DataError::Corrupt { at: 8 }));
}

#[test]
fn feed_takes_only_the_piece_asked_for() {
    let block = encode_block(&vec![vec![5; 30]]).unwrap();
    let mut reader = BlockRead::new(0, block.len() as u64, 16);
    assert_eq!(reader.feed(&block[0..15]), Err(DataError::Corrupt { at: 0 }));
    assert!(reader.buf.is_empty());
    assert_eq!(reader.feed(&block[0..16]), Ok(()));
    assert_eq!(reader.buf, block[0..16].to_vec());
}

#[test]
fn finish_needs_the_whole_block() {
    let block = encode_block(&vec![vec![5; 30]]).unwrap();
    let mut reader = BlockRead::new(0, block.len() as u64, 16);
    reader.feed(&block[0..16]).unwrap();
    assert_eq!(reader.finish(), Err(DataError::Corrupt { at: 16 }));
}
