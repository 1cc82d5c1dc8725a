use blockstore::format::{clear_bits, encode_block, DataError, RowScan, RowSpan};

fn sample_rows() -> Vec<Vec<u8>> {
    vec![vec![1, 2], vec![3], vec![4, 5, 6]]
}

// walks a block with rows whose point has one byte
fn live_rows(block: &[u8], lens: &[usize]) -> Vec<(usize, Vec<u8>)> {
    let buf = &block[4..];
    let mut scan = RowScan::parse(buf).unwrap();
    let mut out = vec![];
    let mut i = 0;
    while !scan.is_done(buf) {
        if let Some(span) = scan.step(buf, 1, lens[i] - 1).unwrap() {
            out.push((span.index, buf[span.start..span.end].to_vec()));
        }
        i += 1;
    }
    out
}

#[test]
fn block_has_lengths_bitfield_and_rows() {
    let block = encode_block(&sample_rows()).unwrap();
    assert_eq!(block, vec![0, 0, 0, 13, 0, 1, 0b0000_0111, 1, 2, 3, 4, 5, 6]);
}

#[test]
fn bitfield_has_a_bit_per_row() {
    let rows: Vec<Vec<u8>> = (0u8..9).map(|i| vec![i]).collect();
    let block = encode_block(&rows).unwrap();
    assert_eq!(&block[0..8], &[0, 0, 0, 17, 0, 2, 0xff, 0x01]);
    assert_eq!(&block[8..], &[0, 1, 2, 3, 4, 5, 6, 7, 8]);
}

#[test]
fn block_without_rows() {
    assert_eq!(encode_block(&vec![]).unwrap(), vec![0, 0, 0, 6, 0, 0]);
}

#[test]
fn long_block_states_its_length_in_four_bytes() {
    let rows = vec![vec![7u8; 70000]];
    let block = encode_block(&rows).unwrap();
    assert_eq!(block.len(), 70007);
    assert_eq!(&block[0..7], &[0, 1, 0x11, 0x77, 0, 1, 1]);
}

#[test]
fn walk_finds_every_row_of_a_new_block() {
    let block = encode_block(&sample_rows()).unwrap();
    assert_eq!(
        live_rows(&block, &[2, 1, 3]),
        vec![(0, vec![1, 2]), (1, vec![3]), (2, vec![4, 5, 6])]
    );
}

#[test]
fn walk_reports_where_point_and_value_lie() {
    let block = encode_block(&sample_rows()).unwrap();
    let buf = &block[4..];
    let mut scan = RowScan::parse(buf).unwrap();
    assert_eq!(scan, RowScan { offset: 3, index: 0, bitfield_len: 1 });
    assert_eq!(
        scan.step(buf, 1, 1),
        Ok(Some(RowSpan { index: 0, start: 3, split: 4, end: 5 }))
    );
    assert_eq!(scan, RowScan { offset: 5, index: 1, bitfield_len: 1 });
    assert!(!scan.is_done(buf));
}

#[test]
fn walk_refuses_bytes_that_are_cut_short() {
    assert_eq!(RowScan::parse(&[0]), Err(DataError::Corrupt { at: 0 }));
    assert_eq!(RowScan::parse(&[0, 2, 0xff]), Err(DataError::Corrupt { at: 0 }));
    let block = encode_block(&sample_rows()).unwrap();
    let buf = &block[4..];
    let mut scan = RowScan::parse(buf).unwrap();
    assert_eq!(scan.step(buf, 4, 4), Err(DataError::Corrupt { at: 3 }));
    assert_eq!(scan.step(buf, 0, 0), Err(DataError::Corrupt { at: 3 }));
    // a failed step leaves the walk where it was
    assert_eq!(scan, RowScan { offset: 3, index: 0, bitfield_len: 1 });
}

#[test]
fn walk_refuses_more_rows_than_bits() {
    // bitfield of no bytes, followed by one byte of rows
    let buf = [0u8, 0, 9];
    let mut scan = RowScan::parse(&buf).unwrap();
    assert_eq!(scan.step(&buf, 1, 0), Err(DataError::Corrupt { at: 2 }));
}

#[test]
fn cleared_bit_hides_the_row_and_no_other() {
    let mut block = encode_block(&sample_rows()).unwrap();
    let mut header = block[0..7].to_vec();
    assert_eq!(clear_bits(&mut header, &vec![1], 0), Ok(()));
    assert_eq!(header, vec![0, 0, 0, 13, 0, 1, 0b0000_0101]);
    block[6..7].copy_from_slice(&header[6..]);
    assert_eq!(
        live_rows(&block, &[2, 1, 3]),
        vec![(0, vec![1, 2]), (2, vec![4, 5, 6])]
    );
}

#[test]
fn clearing_twice_changes_nothing_more() {
    let block = encode_block(&sample_rows()).unwrap();
    let mut header = block[0..7].to_vec();
    assert_eq!(clear_bits(&mut header, &vec![2, 0], 0), Ok(()));
    let once = header.clone();
    assert_eq!(clear_bits(&mut header, &vec![2, 0], 0), Ok(()));
    assert_eq!(header, once);
    assert_eq!(header[6], 0b0000_0010);
}

#[test]
fn clearing_past_the_bitfield_fails() {
    // the block says that its bitfield has one byte; eight bytes were read
    let mut header = vec![0, 0, 0, 13, 0, 1, 0b111, 1];
    let before = header.clone();
    assert_eq!(
        clear_bits(&mut header, &vec![8], 40),
        Err(DataError::OutOfRange { block: 40, len: 8, limit: 7 })
    );
    assert_eq!(header, before);
}

#[test]
fn clearing_past_the_block_fails() {
    // the block says that it has six bytes
    let mut header = vec![0, 0, 0, 6, 0, 1, 0b111];
    assert_eq!(
        clear_bits(&mut header, &vec![0], 3),
        Err(DataError::OutOfRange { block: 3, len: 7, limit: 6 })
    );
}

#[test]
fn clearing_needs_the_bytes_of_every_row() {
    let mut short = vec![0, 0, 0, 13, 0, 1];
    assert_eq!(clear_bits(&mut short, &vec![0], 0), Err(DataError::Corrupt { at: 6 }));
    let mut header = vec![0, 0, 0, 13, 0, 2, 0xff];
    assert_eq!(clear_bits(&mut header, &vec![8], 0), Err(DataError::Corrupt { at: 7 }));
}

#[test]
fn more_rows_than_the_bitfield_length_can_state_are_refused() {
    let rows: Vec<Vec<u8>> = vec![vec![]; 8 * 65535 + 1];
    assert_eq!(encode_block(&rows), Err(DataError::TooLarge));
    let rows: Vec<Vec<u8>> = vec![vec![]; 8 * 65535];
    assert_eq!(encode_block(&rows).unwrap().len(), 6 + 65535);
}
