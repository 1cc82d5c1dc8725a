use blockstore::data::{DataMerge, DataRange, DataStore, Deletion, Location};
use blockstore::format::{encode_block, DataError, RowSpan};

type Point = (u32, u32);
type Bounds = (Point, Point);
type Store = DataStore<Point, u8, Bounds>;

fn open(max: usize, boxes: usize, lists: usize) -> Store {
    Store::open(max, boxes, lists).ok().unwrap()
}

fn rows_at(offset: u64, points: &[Point]) -> Vec<(Point, u8, Location)> {
    points
        .iter()
        .enumerate()
        .map(|(i, p)| (*p, i as u8, (offset + 1, i)))
        .collect()
}

#[test]
fn batch_makes_the_block() {
    let store = open(3, 1, 1);
    let rows = vec![vec![1, 2], vec![3], vec![4, 5, 6]];
    assert_eq!(store.batch(&rows), encode_block(&rows));
    assert_eq!(store.batch(&rows).unwrap().len(), 13);
}

#[test]
fn batch_refuses_more_rows_than_a_block_holds() {
    let store = open(2, 1, 1);
    let rows = vec![vec![1], vec![2], vec![3]];
    assert_eq!(store.batch(&rows), Err(DataError::Capacity { rows: 3, max: 2 }));
}

#[test]
fn entry_needs_bounds() {
    assert_eq!(Store::entry(40, Some(7u8), 3), Ok((40, 7u8, 3)));
    assert_eq!(Store::entry::<u8>(40, None, 3), Err(DataError::Invalid { offset: 40 }));
}

#[test]
fn list_gives_what_was_kept() {
    let mut store = open(10, 1, 2);
    assert!(store.list(0).is_none());
    let rows = rows_at(0, &[(1, 1), (2, 2)]);
    store.keep(0, rows.clone());
    assert_eq!(store.list(0), Some(&rows));
    assert!(store.list(13).is_none());
}

#[test]
fn list_cache_lets_the_least_recently_used_block_go() {
    let mut store = open(10, 1, 2);
    store.keep(0, rows_at(0, &[(1, 1)]));
    store.keep(20, rows_at(20, &[(2, 2)]));
    assert!(store.list(0).is_some());
    store.keep(40, rows_at(40, &[(3, 3)]));
    assert!(store.list(20).is_none());
    assert!(store.list(0).is_some());
    assert!(store.list(40).is_some());
}

#[test]
fn locate_marks_the_block_with_its_offset_plus_one() {
    let span = RowSpan { index: 4, start: 10, split: 12, end: 15 };
    assert_eq!(Store::locate(0, &span), (1, 4));
    assert_eq!(Store::locate(77, &span), (78, 4));
}

#[test]
fn query_keeps_the_rows_that_overlap() {
    let rows = rows_at(0, &[(1, 1), (5, 5), (2, 9), (3, 3)]);
    let inside = |p: &Point| p.0 <= 3 && p.1 <= 3;
    let hits = Store::query(&rows, inside);
    assert_eq!(hits, vec![&rows[0], &rows[3]]);
    assert!(Store::query(&rows, |_p: &Point| false).is_empty());
}

fn plain(groups: &Vec<Deletion>) -> Vec<(u64, Vec<usize>, u64)> {
    groups.iter().map(|d| (d.block, d.indexes.clone(), d.len)).collect()
}

#[test]
fn delete_groups_by_block_and_skips_staging_rows() {
    let locations: Vec<Location> = vec![(5, 1), (0, 3), (9, 2), (5, 7), (5, 0)];
    assert_eq!(
        plain(&Store::delete(&locations)),
        vec![(4, vec![1, 7, 0], 7), (8, vec![2], 7)]
    );
    assert!(Store::delete(&vec![(0, 1), (0, 2)]).is_empty());
}

#[test]
fn delete_reads_as_much_header_as_the_highest_row_needs() {
    assert_eq!(plain(&Store::delete(&vec![(1, 7)])), vec![(0, vec![7], 7)]);
    assert_eq!(plain(&Store::delete(&vec![(1, 8)])), vec![(0, vec![8], 8)]);
    assert_eq!(
        plain(&Store::delete(&vec![(1, 3), (1, 100), (1, 9)])),
        vec![(0, vec![3, 100, 9], 19)]
    );
}

#[test]
fn deletion_must_lie_in_the_store() {
    let d = Deletion { block: 10, indexes: vec![0], len: 7 };
    assert_eq!(d.check(17), Ok(()));
    assert_eq!(
        d.check(16),
        Err(DataError::OutOfRange { block: 10, len: 7, limit: 6 })
    );
    assert_eq!(
        d.check(3),
        Err(DataError::OutOfRange { block: 10, len: 7, limit: 0 })
    );
}

#[test]
fn forget_takes_deleted_rows_out_of_the_cached_list() {
    let mut store = open(10, 1, 2);
    let rows = rows_at(20, &[(1, 1), (2, 2), (3, 3), (4, 4)]);
    store.keep(20, rows.clone());
    let groups = Store::delete(&vec![(21, 2), (21, 0)]);
    store.forget(&groups[0]);
    assert_eq!(store.list(20), Some(&vec![rows[1], rows[3]]));
    // once more: nothing changes
    store.forget(&groups[0]);
    assert_eq!(store.list(20), Some(&vec![rows[1], rows[3]]));
    // a block that is not cached stays uncached
    store.forget(&Deletion { block: 99, indexes: vec![0], len: 7 });
    assert!(store.list(99).is_none());
}

#[test]
fn bbox_gives_what_was_summarized() {
    let mut store = open(10, 2, 1);
    assert!(store.bbox(0).is_none());
    assert_eq!(store.summarize(0, 3, Some(((1, 1), (4, 4)))), Ok(true));
    assert_eq!(store.bbox(0), Some(&(((1, 1), (4, 4)), 3)));
}

#[test]
fn block_without_live_rows_has_no_bounds() {
    let mut store = open(10, 2, 1);
    assert_eq!(store.summarize(0, 0, None), Ok(false));
    assert_eq!(store.summarize(0, 0, Some(((1, 1), (4, 4)))), Ok(false));
    assert!(store.bbox(0).is_none());
}

#[test]
fn rows_without_bounds_are_invalid() {
    let mut store = open(10, 2, 1);
    assert_eq!(store.summarize(64, 2, None), Err(DataError::Invalid { offset: 64 }));
    assert!(store.bbox(64).is_none());
}

#[test]
fn range_log_round_trip() {
    let mut log: Vec<u8> = vec![];
    log.extend(DataRange::<Bounds>::write(&[1, 2, 3]).unwrap());
    log.extend(DataRange::<Bounds>::write(&[]).unwrap());
    log.extend(DataRange::<Bounds>::write(&[9]).unwrap());
    assert_eq!(log, vec![0, 0, 0, 3, 1, 2, 3, 0, 0, 0, 0, 0, 0, 0, 1, 9]);
    let entries = DataRange::<Bounds>::list(&log).unwrap();
    assert_eq!(entries, vec![(4, 7), (11, 11), (15, 16)]);
    assert_eq!(DataRange::<Bounds>::list(&[]), Ok(vec![]));
}

#[test]
fn range_log_that_is_cut_short_is_refused() {
    assert_eq!(
        DataRange::<Bounds>::list(&[0, 0, 0, 3, 1, 2]),
        Err(DataError::Corrupt { at: 0 })
    );
    assert_eq!(
        DataRange::<Bounds>::list(&[0, 0, 0, 1, 7, 0, 0]),
        Err(DataError::Corrupt { at: 5 })
    );
}

#[test]
fn merging_one_address_keeps_it() {
    assert_eq!(DataMerge::single(&vec![42]), Some(42));
    assert_eq!(DataMerge::single(&vec![]), None);
    assert_eq!(DataMerge::single(&vec![1, 2]), None);
}

#[test]
fn merging_puts_the_rows_one_list_after_the_other() {
    let merge = DataMerge::new(4);
    let a = vec![vec![1u8], vec![2, 2]];
    let b = vec![vec![3u8, 3, 3]];
    assert_eq!(
        merge.combine(&vec![a, b, vec![]]),
        Ok(vec![vec![1], vec![2, 2], vec![3, 3, 3]])
    );
}

#[test]
fn merging_refuses_more_rows_than_a_block_holds() {
    let merge = DataMerge::new(2);
    let a = vec![vec![1u8], vec![2]];
    let b = vec![vec![3u8]];
    assert_eq!(
        merge.combine(&vec![a, b]),
        Err(DataError::Capacity { rows: 3, max: 2 })
    );
}

#[test]
fn a_block_holds_as_many_rows_as_it_may_and_no_more() {
    let store = open(2, 1, 1);
    assert_eq!(store.room_for(0), Ok(()));
    assert_eq!(store.room_for(2), Ok(()));
    assert_eq!(store.room_for(3), Err(DataError::Capacity { rows: 3, max: 2 }));
}
