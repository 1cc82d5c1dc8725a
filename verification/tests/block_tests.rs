use blockstore::block::Block;

fn spans(b: &Block) -> Vec<(usize, Vec<u8>)> {
    b.writes().into_iter().map(|(o, s)| (o, s.to_vec())).collect()
}

#[test]
fn new_block_is_empty() {
    let b = Block::new(10);
    assert_eq!(b.data, vec![0u8; 10]);
    assert_eq!(b.mask, vec![0u8; 2]);
    assert_eq!(b.missing, 10);
    assert!(!b.have_all(0, 10));
    assert!(b.have_all(3, 3));
    assert!(spans(&b).is_empty());
}

#[test]
fn from_data_counts_as_known() {
    let b = Block::from_data(vec![1, 2, 3]);
    assert_eq!(b.missing, 0);
    assert_eq!(b.mask, vec![0u8]);
    assert!(b.have_all(0, 3));
    assert_eq!(spans(&b), vec![(0, vec![1, 2, 3])]);
}

#[test]
fn write_marks_bytes_and_counts_each_once() {
    let mut b = Block::new(10);
    b.write(2, &[7, 8, 9]);
    assert_eq!(b.missing, 7);
    assert_eq!(b.mask, vec![0b0001_1100, 0]);
    b.write(3, &[1, 2, 3]);
    assert_eq!(b.missing, 6);
    assert_eq!(b.data, vec![0, 0, 7, 1, 2, 3, 0, 0, 0, 0]);
    assert!(b.have_all(2, 6));
    assert!(!b.have_all(2, 7));
}

#[test]
fn writes_in_any_order_converge() {
    let mut b = Block::new(9);
    b.write(6, &[7, 8, 9]);
    b.write(0, &[1, 2, 3, 4]);
    b.write(3, &[4, 5, 6, 7]);
    assert_eq!(b.missing, 0);
    assert!(b.have_all(0, 9));
    assert_eq!(spans(&b), vec![(0, vec![1, 2, 3, 4, 5, 6, 7, 8, 9])]);
}

#[test]
fn writes_reports_maximal_runs() {
    let mut b = Block::new(12);
    b.write(1, &[1, 2]);
    b.write(3, &[3]);
    b.write(6, &[6]);
    b.write(10, &[10, 11]);
    assert_eq!(
        spans(&b),
        vec![(1, vec![1, 2, 3]), (6, vec![6]), (10, vec![10, 11])]
    );
}

#[test]
fn merge_fills_only_gaps() {
    let mut b = Block::new(6);
    b.write(1, &[9, 9]);
    b.merge(&[1, 2, 3, 4]);
    assert_eq!(b.data, vec![1, 9, 9, 4, 0, 0]);
    assert_eq!(b.missing, 2);
    assert_eq!(b.mask, vec![0b0000_0110]);
}

#[test]
fn merge_stops_counting_at_zero() {
    let mut b = Block::from_data(vec![5, 5, 5]);
    b.merge(&[1, 2, 3]);
    assert_eq!(b.missing, 0);
    assert_eq!(b.data, vec![1, 2, 3]);
}
