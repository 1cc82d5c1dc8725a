use crate::cache::lemma_cache_steps;
use crate::cache::Cache;
use crate::cache::CacheView;
use crate::format::encode_block;
use crate::format::fits_format;
use crate::format::from_be32;
use crate::format::get_be32;
use crate::format::is_block;
use crate::format::all_live;
use crate::format::put_be32;
use crate::format::row_views;
use crate::format::DataError;
use crate::format::RowScan;
use crate::format::RowSpan;
use vstd::prelude::*;

verus! {

/// Where a row is: the offset of its block plus one, or zero for a row that
/// is in no block yet, and the row's number in the block.
pub type Location = (u64, usize);

/// The bounds and row counts of blocks that were asked for last.
pub struct DataRange<B> {
    pub cache: Cache<(B, u64)>,
}

/// One record of the range log: the length of `entry` in four bytes, the
/// highest first, and `entry`.
pub open spec fn record(entry: Seq<u8>) -> Seq<u8> {
    crate::format::be32(entry.len()) + entry
}

/// Where in a range log the entries lie, from `at` on: each as its start and
/// its end. Nothing where a record is cut short.
pub open spec fn log_from(buf: Seq<u8>, at: int) -> Option<Seq<(usize, usize)>>
    decreases buf.len() - at,
{
    if at < 0 || at >= buf.len() {
        Some(Seq::empty())
    } else if at + 4 > buf.len() || at + 4 + from_be32(buf.subrange(at, at + 4)) > buf.len()
        || buf.len() > usize::MAX {
        None
    } else {
        let end = at + 4 + from_be32(buf.subrange(at, at + 4));
        match log_from(buf, end) {
            Some(rest) => Some(seq![((at + 4) as usize, end as usize)] + rest),
            None => None,
        }
    }
}

/// Where, from `at` on, the first record of a range log lies that is cut
/// short.
pub open spec fn log_break(buf: Seq<u8>, at: int) -> int
    decreases buf.len() - at,
{
    if at < 0 || at >= buf.len() || at + 4 > buf.len() || at + 4 + from_be32(
        buf.subrange(at, at + 4),
    ) > buf.len() {
        at
    } else {
        log_break(buf, at + 4 + from_be32(buf.subrange(at, at + 4)))
    }
}

impl<B> DataRange<B> {
    /// An empty cache of bounds for at most `cache_size` blocks.
    pub fn new(cache_size: usize) -> (r: Self)
        ensures
            r.cache@ == CacheView::<(B, u64)>::empty(cache_size as nat),
            r.cache@.wf(),
    {
        DataRange { cache: Cache::new(cache_size) }
    }

    /// The record to add to the end of the range log for the entry `entry`,
    /// given as its bytes. Fails where the entry is too long for its length
    /// to be stated.
    pub fn write(entry: &[u8]) -> (r: Result<Vec<u8>, DataError>)
        ensures
            match r {
                Ok(bytes) => entry@.len() <= 4294967295 && bytes@ == record(entry@),
                Err(e) => entry@.len() > 4294967295 && e == DataError::TooLarge,
            },
    {
        let n: usize = entry.len();
        if n > 4294967295 {
            return Err(DataError::TooLarge);
        }
        let mut out: Vec<u8> = crate::block::zeros(4);
        put_be32(&mut out, 0, n as u32);
        let ghost head = out@;
        let mut k: usize = 0;
        while k < n
            invariant
                k <= n,
                n == entry@.len(),
                out@ == head + entry@.subrange(0, k as int),
            decreases n - k,
        {
            out.push(entry[k]);
            proof {
                assert(out@ =~= head + entry@.subrange(0, k + 1));
            }
            k = k + 1;
        }
        proof {
            assert(entry@.subrange(0, n as int) =~= entry@);
            assert(head =~= head.subrange(0, 4));
        }
        Ok(out)
    }

    /// Where the entries lie in the bytes of a range log, in the order in
    /// which they were added. Fails where a record is cut short.
    pub fn list(buf: &[u8]) -> (r: Result<Vec<(usize, usize)>, DataError>)
        ensures
            match r {
                Ok(entries) => log_from(buf@, 0) == Some(entries@),
                Err(e) => log_from(buf@, 0).is_none() && e == (DataError::Corrupt {
                    at: log_break(buf@, 0) as usize,
                }),
            },
    {
        let len: usize = buf.len();
        let mut out: Vec<(usize, usize)> = Vec::new();
        let mut at: usize = 0;
        while at < len
            invariant
                at <= len,
                len == buf@.len(),
                match log_from(buf@, at as int) {
                    Some(rest) => log_from(buf@, 0) == Some(out@ + rest),
                    None => log_from(buf@, 0).is_none(),
                },
                log_break(buf@, at as int) == log_break(buf@, 0),
            decreases len - at,
        {
            if len - at < 4 {
                return Err(DataError::Corrupt { at });
            }
            let n: usize = get_be32(buf, at) as usize;
            if n > len - at - 4 {
                return Err(DataError::Corrupt { at });
            }
            let end: usize = at + 4 + n;
            proof {
                match log_from(buf@, end as int) {
                    Some(rest) => {
                        let entry = ((at + 4) as usize, end);
                        assert(out@.push(entry) + rest =~= out@ + (seq![entry] + rest));
                    },
                    None => {},
                }
            }
            out.push((at + 4, end));
            at = end;
        }
        proof {
            assert(out@ + Seq::<(usize, usize)>::empty() =~= out@);
        }
        Ok(out)
    }
}

/// Brings blocks together into one.
pub struct DataMerge {
    pub max_data_size: usize,
}

/// The rows of the lists, list after list.
pub open spec fn flat_rows(lists: Seq<Seq<Seq<u8>>>) -> Seq<Seq<u8>>
    decreases lists.len(),
{
    if lists.len() == 0 {
        Seq::empty()
    } else {
        flat_rows(lists.drop_last()) + lists.last()
    }
}

/// The lists of rows as sequences of byte sequences.
pub open spec fn list_views(lists: Seq<Vec<Vec<u8>>>) -> Seq<Seq<Seq<u8>>> {
    Seq::new(lists.len(), |i: int| row_views(lists[i]@))
}

impl DataMerge {
    /// A merger that makes blocks of at most `max_data_size` rows.
    pub fn new(max_data_size: usize) -> (r: Self)
        ensures
            r.max_data_size == max_data_size,
    {
        DataMerge { max_data_size }
    }

    /// The address that stands for the blocks at `addresses` without any
    /// rewriting: the one address where there is exactly one.
    pub fn single(addresses: &Vec<u64>) -> (r: Option<u64>)
        ensures
            r == if addresses@.len() == 1 {
                Some(addresses@[0])
            } else {
                None
            },
    {
        if addresses.len() == 1 {
            Some(addresses[0])
        } else {
            None
        }
    }

    /// The rows of a new block that takes the place of several: the live
    /// rows of each, given as their bytes, in the order of the blocks. Fails
    /// where they are more than a block may hold.
    pub fn combine(&self, lists: &Vec<Vec<Vec<u8>>>) -> (r: Result<Vec<Vec<u8>>, DataError>)
        ensures
            match r {
                Ok(rows) => row_views(rows@) == flat_rows(list_views(lists@)) && rows@.len()
                    <= self.max_data_size,
                Err(e) => flat_rows(list_views(lists@)).len() > self.max_data_size && e == (
                DataError::Capacity {
                    rows: if flat_rows(list_views(lists@)).len() > usize::MAX {
                        usize::MAX
                    } else {
                        flat_rows(list_views(lists@)).len() as usize
                    },
                    max: self.max_data_size,
                }),
            },
    {
        let ghost lv = list_views(lists@);
        let n: usize = lists.len();
        let mut count: usize = 0;
        let mut i: usize = 0;
        proof {
            assert(lv.subrange(0, 0) =~= Seq::<Seq<Seq<u8>>>::empty());
        }
        while i < n
            invariant
                i <= n,
                n == lists@.len(),
                lv == list_views(lists@),
                count == flat_rows(lv.subrange(0, i as int)).len(),
            decreases n - i,
        {
            proof {
                assert(lv.subrange(0, i + 1).drop_last() =~= lv.subrange(0, i as int));
                assert(lv.subrange(0, i + 1).last() == row_views(lists@[i as int]@));
            }
            let m: usize = lists[i].len();
            if m > usize::MAX - count {
                proof {
                    lemma_flat_grows(lv, i + 1, n as int);
                    assert(lv.subrange(0, n as int) =~= lv);
                }
                return Err(
                    DataError::Capacity { rows: usize::MAX, max: self.max_data_size },
                );
            }
            count = count + m;
            i = i + 1;
        }
        proof {
            assert(lv.subrange(0, n as int) =~= lv);
        }
        if count > self.max_data_size {
            return Err(DataError::Capacity { rows: count, max: self.max_data_size });
        }
        let mut out: Vec<Vec<u8>> = Vec::new();
        let mut i: usize = 0;
        proof {
            assert(row_views(out@) =~= flat_rows(lv.subrange(0, 0)));
        }
        while i < n
            invariant
                i <= n,
                n == lists@.len(),
                lv == list_views(lists@),
                row_views(out@) == flat_rows(lv.subrange(0, i as int)),
            decreases n - i,
        {
            let list: &Vec<Vec<u8>> = &lists[i];
            let ghost before = row_views(out@);
            let mut k: usize = 0;
            while k < list.len()
                invariant
                    k <= list@.len(),
                    row_views(out@) == before + row_views(list@).subrange(0, k as int),
                decreases list@.len() - k,
            {
                let row: Vec<u8> = list[k].clone();
                proof {
                    assert(row@ =~= list@[k as int]@);
                }
                let ghost prev = row_views(out@);
                out.push(row);
                proof {
                    assert(row_views(out@) =~= prev.push(list@[k as int]@));
                    assert(row_views(out@) =~= before + row_views(list@).subrange(0, k + 1));
                }
                k = k + 1;
            }
            proof {
                assert(row_views(list@).subrange(0, list@.len() as int) =~= row_views(list@));
                assert(lv.subrange(0, i + 1).drop_last() =~= lv.subrange(0, i as int));
                assert(lv.subrange(0, i + 1).last() == row_views(list@));
            }
            i = i + 1;
        }
        proof {
            assert(lv.subrange(0, n as int) =~= lv);
        }
        Ok(out)
    }
}

/// More lists have at least as many rows.
pub proof fn lemma_flat_grows(lists: Seq<Seq<Seq<u8>>>, i: int, j: int)
    requires
        0 <= i <= j <= lists.len(),
    ensures
        flat_rows(lists.subrange(0, i)).len() <= flat_rows(lists.subrange(0, j)).len(),
    decreases j - i,
{
    if i < j {
        lemma_flat_grows(lists, i, j - 1);
        assert(lists.subrange(0, j).drop_last() =~= lists.subrange(0, j - 1));
    }
}


/// The store of rows in blocks, without the bytes themselves: the rows of
/// the blocks that were listed last, the bounds of those that were asked
/// for last, and the number of rows that a block may hold.
pub struct DataStore<P, V, B> {
    range: DataRange<B>,
    list_cache: Cache<Vec<(P, V, Location)>>,
    pub max_data_size: usize,
}

/// What a [`DataStore`] holds.
pub struct DataStoreView<P, V, B> {
    pub lists: CacheView<Seq<(P, V, Location)>>,
    pub boxes: CacheView<(B, u64)>,
    pub max_data_size: nat,
}

/// The deletions that fall into one block: the offset of the block, the
/// numbers of the rows, in the order given, and the number of bytes at the
/// start of the block that hold the bits of all of them.
#[derive(Debug)]
pub struct Deletion {
    pub block: u64,
    pub indexes: Vec<usize>,
    pub len: u64,
}

/// The rows whose number in their block is none of `gone`, in order.
pub open spec fn kept<P, V>(rows: Seq<(P, V, Location)>, gone: Seq<usize>) -> Seq<
    (P, V, Location),
>
    decreases rows.len(),
{
    if rows.len() == 0 {
        rows
    } else if crate::format::hits(gone, rows.last().2.1 as int) {
        kept(rows.drop_last(), gone)
    } else {
        kept(rows.drop_last(), gone).push(rows.last())
    }
}

/// What comes of `acc` when the items of `tmp` are moved onto it, the last
/// first.
pub open spec fn unwind<T>(tmp: Seq<T>, acc: Seq<T>) -> Seq<T>
    decreases tmp.len(),
{
    if tmp.len() == 0 {
        acc
    } else {
        unwind(tmp.drop_last(), acc.push(tmp.last()))
    }
}

/// The rows flagged in `flags`, in order.
pub open spec fn picked<T>(rows: Seq<T>, flags: Seq<bool>) -> Seq<T>
    decreases rows.len(),
{
    if rows.len() == 0 || flags.len() != rows.len() {
        Seq::empty()
    } else if flags.last() {
        picked(rows.drop_last(), flags.drop_last()).push(rows.last())
    } else {
        picked(rows.drop_last(), flags.drop_last())
    }
}

/// `flags` are the answers of `overlaps` for the points of `rows`.
pub open spec fn answers<P, V, F: Fn(&P) -> bool>(
    overlaps: F,
    rows: Seq<(P, V, Location)>,
    flags: Seq<bool>,
) -> bool {
    flags.len() == rows.len() && forall|i: int|
        0 <= i < rows.len() ==> call_ensures(overlaps, (&rows[i].0,), #[trigger] flags[i])
}

/// What the references point to.
pub open spec fn targets<T>(refs: Seq<&T>) -> Seq<T> {
    Seq::new(refs.len(), |i: int| *refs[i])
}

/// The offsets of the blocks that `locs` name, each once, in the order in
/// which they first occur. A location with marker zero names no block.
pub open spec fn blocks_of(locs: Seq<Location>) -> Seq<u64>
    decreases locs.len(),
{
    if locs.len() == 0 {
        Seq::empty()
    } else if locs.last().0 == 0 || blocks_of(locs.drop_last()).contains(
        (locs.last().0 - 1) as u64,
    ) {
        blocks_of(locs.drop_last())
    } else {
        blocks_of(locs.drop_last()).push((locs.last().0 - 1) as u64)
    }
}

/// The row numbers that `locs` name in the block at `block`, in order.
pub open spec fn picks(locs: Seq<Location>, block: u64) -> Seq<usize>
    decreases locs.len(),
{
    if locs.len() == 0 {
        Seq::empty()
    } else if locs.last().0 == block + 1 {
        picks(locs.drop_last(), block).push(locs.last().1)
    } else {
        picks(locs.drop_last(), block)
    }
}

/// The highest of the numbers, or zero where there is none.
pub open spec fn top(indexes: Seq<usize>) -> nat
    decreases indexes.len(),
{
    if indexes.len() == 0 {
        0
    } else if indexes.last() > top(indexes.drop_last()) {
        indexes.last() as nat
    } else {
        top(indexes.drop_last())
    }
}

/// The number of bytes at the start of a block that hold its two lengths
/// and the bits of the rows up to the highest of `indexes`.
pub open spec fn header_len(indexes: Seq<usize>) -> nat {
    7 + top(indexes) / 8
}

/// The deletion for the block at `block` that `locs` ask for.
pub open spec fn deletion_for(d: Deletion, locs: Seq<Location>, block: u64) -> bool {
    d.block == block && d.indexes@ == picks(locs, block) && d.len == header_len(d.indexes@)
}

/// `groups` are the deletions that `locs` ask for, block by block.
pub open spec fn grouped(groups: Seq<Deletion>, locs: Seq<Location>) -> bool {
    groups.len() == blocks_of(locs).len() && forall|k: int|
        0 <= k < groups.len() ==> deletion_for(#[trigger] groups[k], locs, blocks_of(locs)[k])
}

/// Whether `i` is one of `indexes`.
fn index_hit(indexes: &Vec<usize>, i: usize) -> (r: bool)
    ensures
        r == crate::format::hits(indexes@, i as int),
{
    let mut k: usize = 0;
    while k < indexes.len()
        invariant
            k <= indexes@.len(),
            forall|x: int| 0 <= x < k ==> indexes@[x] != i,
        decreases indexes@.len() - k,
    {
        if indexes[k] == i {
            return true;
        }
        k = k + 1;
    }
    false
}

/// The rows without those whose number is one of `indexes`.
fn retain_rows<P, V>(rows: Vec<(P, V, Location)>, indexes: &Vec<usize>) -> (out: Vec<
    (P, V, Location),
>)
    ensures
        out@ == kept(rows@, indexes@),
{
    let ghost target = kept(rows@, indexes@);
    let mut rest: Vec<(P, V, Location)> = rows;
    let mut tmp: Vec<(P, V, Location)> = Vec::new();
    while rest.len() > 0
        invariant
            unwind(tmp@, kept(rest@, indexes@)) == target,
        decreases rest@.len(),
    {
        let ghost before = rest@;
        let ghost tmp0 = tmp@;
        let last: Option<(P, V, Location)> = rest.pop();
        match last {
            Some(row) => {
                proof {
                    assert(rest@ =~= before.drop_last());
                    assert(row == before.last());
                }
                if !index_hit(indexes, row.2.1) {
                    tmp.push(row);
                    proof {
                        assert(tmp@.drop_last() =~= tmp0);
                        assert(tmp@.last() == before.last());
                    }
                }
            },
            None => {},
        }
    }
    let mut out: Vec<(P, V, Location)> = Vec::new();
    proof {
        assert(kept(rest@, indexes@) =~= out@);
    }
    while tmp.len() > 0
        invariant
            unwind(tmp@, out@) == target,
        decreases tmp@.len(),
    {
        let ghost tmp0 = tmp@;
        let last: Option<(P, V, Location)> = tmp.pop();
        match last {
            Some(row) => {
                proof {
                    assert(tmp@ =~= tmp0.drop_last());
                }
                out.push(row);
            },
            None => {},
        }
    }
    out
}

/// The lists of rows as sequences.
pub open spec fn row_lists<P, V>(m: Map<u64, Vec<(P, V, Location)>>) -> Map<
    u64,
    Seq<(P, V, Location)>,
> {
    Map::new(|k: u64| m.contains_key(k), |k: u64| m[k]@)
}

impl<P, V, B> View for DataStore<P, V, B> {
    type V = DataStoreView<P, V, B>;

    closed spec fn view(&self) -> DataStoreView<P, V, B> {
        DataStoreView {
            lists: CacheView {
                keys: self.list_cache@.keys,
                map: row_lists(self.list_cache@.map),
                limit: self.list_cache@.limit,
            },
            boxes: self.range.cache@,
            max_data_size: self.max_data_size as nat,
        }
    }
}

impl Deletion {
    /// Whether a store of `store_len` bytes holds the bytes of the block
    /// that the deletion needs.
    pub fn check(&self, store_len: u64) -> (r: Result<(), DataError>)
        ensures
            r == if self.block <= store_len && self.len <= store_len - self.block {
                Ok::<(), DataError>(())
            } else {
                Err::<(), DataError>(
                    DataError::OutOfRange {
                        block: self.block,
                        len: self.len,
                        limit: if self.block <= store_len {
                            (store_len - self.block) as u64
                        } else {
                            0u64
                        },
                    },
                )
            },
    {
        if self.block > store_len {
            return Err(DataError::OutOfRange { block: self.block, len: self.len, limit: 0 });
        }
        let limit: u64 = store_len - self.block;
        if self.len > limit {
            return Err(DataError::OutOfRange { block: self.block, len: self.len, limit });
        }
        Ok(())
    }
}

impl<P, V, B> DataStore<P, V, B> {
    /// Both caches are well formed.
    pub closed spec fn inv(&self) -> bool {
        self.list_cache@.wf() && self.range.cache@.wf()
    }

    /// A store with empty caches, for blocks of at most `max_data_size`
    /// rows.
    pub fn open(max_data_size: usize, bbox_cache_size: usize, list_cache_size: usize) -> (r:
        Result<Self, DataError>)
        ensures
            r matches Ok(store) && store.inv() && store@ == (DataStoreView::<P, V, B> {
                lists: CacheView::empty(list_cache_size as nat),
                boxes: CacheView::empty(bbox_cache_size as nat),
                max_data_size: max_data_size as nat,
            }),
    {
        let store = DataStore {
            range: DataRange::new(bbox_cache_size),
            list_cache: Cache::new(list_cache_size),
            max_data_size,
        };
        proof {
            assert(store@.lists.map =~= Map::<u64, Seq<(P, V, Location)>>::empty());
        }
        Ok(store)
    }

    /// Whether a block may hold `rows` rows.
    pub fn room_for(&self, rows: usize) -> (r: Result<(), DataError>)
        ensures
            r == if rows <= self@.max_data_size {
                Ok::<(), DataError>(())
            } else {
                Err::<(), DataError>(
                    DataError::Capacity { rows, max: self@.max_data_size as usize },
                )
            },
    {
        if rows > self.max_data_size {
            Err(DataError::Capacity { rows, max: self.max_data_size })
        } else {
            Ok(())
        }
    }

    /// The block to add to the end of the store for `rows`, each given as
    /// the bytes of a point followed by the bytes of its value. Fails where
    /// the rows are more than a block may hold, and where they do not fit
    /// the lengths that the format can state.
    pub fn batch(&self, rows: &Vec<Vec<u8>>) -> (r: Result<Vec<u8>, DataError>)
        ensures
            match r {
                Ok(b) => rows@.len() <= self@.max_data_size && fits_format(row_views(rows@))
                    && is_block(b@, row_views(rows@), all_live(rows@.len())),
                Err(e) => if rows@.len() > self@.max_data_size {
                    e == (DataError::Capacity {
                        rows: rows@.len() as usize,
                        max: self@.max_data_size as usize,
                    })
                } else {
                    !fits_format(row_views(rows@)) && e == DataError::TooLarge
                },
            },
    {
        match self.room_for(rows.len()) {
            Ok(_) => encode_block(rows),
            Err(e) => Err(e),
        }
    }

    /// The entry of the range index for a block of `count` rows that was
    /// added at `offset`, where `range` is what the bounds of its points
    /// came to. Fails where they came to nothing.
    pub fn entry<R>(offset: u64, range: Option<R>, count: usize) -> (r: Result<
        (u64, R, u64),
        DataError,
    >)
        ensures
            r == match range {
                Some(x) => Ok::<(u64, R, u64), DataError>((offset, x, count as u64)),
                None => Err::<(u64, R, u64), DataError>(DataError::Invalid { offset }),
            },
    {
        match range {
            Some(x) => Ok((offset, x, count as u64)),
            None => Err(DataError::Invalid { offset }),
        }
    }

    /// The rows of the block at `offset`, where they are cached. The block
    /// counts as used.
    pub fn list(&mut self, offset: u64) -> (r: Option<&Vec<(P, V, Location)>>)
        requires
            old(self).inv(),
        ensures
            final(self).inv(),
            final(self)@.boxes == old(self)@.boxes,
            final(self)@.max_data_size == old(self)@.max_data_size,
            final(self)@.lists == old(self)@.lists.touch(offset),
            match r {
                Some(rows) => old(self)@.lists.map.contains_key(offset) && rows@
                    == old(self)@.lists.map[offset],
                None => !old(self)@.lists.map.contains_key(offset),
            },
    {
        self.list_cache.get(offset)
    }

    /// Caches `rows` as the live rows of the block at `offset`.
    pub fn keep(&mut self, offset: u64, rows: Vec<(P, V, Location)>)
        requires
            old(self).inv(),
        ensures
            final(self).inv(),
            final(self)@.boxes == old(self)@.boxes,
            final(self)@.max_data_size == old(self)@.max_data_size,
            final(self)@.lists == old(self)@.lists.put(offset, rows@),
    {
        let ghost before = self@;
        let ghost seq = rows@;
        self.list_cache.put(offset, rows);
        proof {
            assert(self@.lists.map =~= before.lists.put(offset, seq).map);
        }
    }

    /// Starts to read the block at `offset` from a store of `store_len`
    /// bytes, at most 1024 bytes at a time.
    pub fn read(offset: u64, store_len: u64) -> (r: crate::reader::BlockRead)
        ensures
            r@ == (crate::reader::BlockReadView {
                offset: offset as nat,
                store_len: store_len as nat,
                chunk: 1024,
                buf: Seq::empty(),
            }),
    {
        crate::reader::BlockRead::new(offset, store_len, 1024)
    }

    /// Starts a walk over the rows of a block, given as the bytes that
    /// follow the block's length.
    pub fn parse(buf: &[u8]) -> (r: Result<RowScan, DataError>)
        ensures
            match r {
                Ok(scan) => RowScan::scan_start(buf@) == Some(scan),
                Err(e) => RowScan::scan_start(buf@).is_none() && e == (DataError::Corrupt {
                    at: 0,
                }),
            },
    {
        RowScan::parse(buf)
    }

    /// Where a row that a walk has found lies, for a block at `offset`.
    pub fn locate(offset: u64, span: &RowSpan) -> (r: Location)
        requires
            offset < u64::MAX,
        ensures
            r == ((offset + 1) as u64, span.index),
    {
        (offset + 1, span.index)
    }

    /// The rows of `rows` for whose point `overlaps` says yes, in order.
    pub fn query<'a, F: Fn(&P) -> bool>(rows: &'a Vec<(P, V, Location)>, overlaps: F) -> (r: Vec<
        &'a (P, V, Location),
    >)
        requires
            forall|p: &P| call_requires(overlaps, (p,)),
        ensures
            exists|flags: Seq<bool>|
                answers(overlaps, rows@, flags) && targets(r@) == picked(rows@, flags),
    {
        let mut out: Vec<&(P, V, Location)> = Vec::new();
        let ghost mut flags: Seq<bool> = Seq::empty();
        let n: usize = rows.len();
        let mut i: usize = 0;
        proof {
            assert(targets(out@) =~= picked(rows@.subrange(0, 0), flags));
        }
        while i < n
            invariant
                i <= n,
                n == rows@.len(),
                flags.len() == i,
                forall|p: &P| call_requires(overlaps, (p,)),
                forall|k: int|
                    0 <= k < i ==> call_ensures(overlaps, (&rows@[k].0,), #[trigger] flags[k]),
                targets(out@) == picked(rows@.subrange(0, i as int), flags),
            decreases n - i,
        {
            let row: &(P, V, Location) = &rows[i];
            let hit: bool = overlaps(&row.0);
            let ghost before = targets(out@);
            let ghost flags0 = flags;
            proof {
                flags = flags.push(hit);
                assert(flags.drop_last() =~= flags0);
                assert(rows@.subrange(0, i + 1).drop_last() =~= rows@.subrange(0, i as int));
                assert(rows@.subrange(0, i + 1).last() == rows@[i as int]);
            }
            if hit {
                out.push(row);
                proof {
                    assert(targets(out@) =~= before.push(rows@[i as int]));
                }
            }
            i = i + 1;
        }
        proof {
            assert(rows@.subrange(0, n as int) =~= rows@);
            assert(answers(overlaps, rows@, flags));
        }
        out
    }

    /// The deletions that `locations` ask for, block by block, in the order
    /// in which the blocks first occur. A location with marker zero is a
    /// row in no block, and asks for nothing.
    #[verifier::rlimit(40)]
    pub fn delete(locations: &Vec<Location>) -> (r: Vec<Deletion>)
        ensures
            grouped(r@, locations@),
    {
        let mut groups: Vec<Deletion> = Vec::new();
        let n: usize = locations.len();
        let mut i: usize = 0;
        while i < n
            invariant
                i <= n,
                n == locations@.len(),
                grouped(groups@, locations@.subrange(0, i as int)),
            decreases n - i,
        {
            let loc: Location = locations[i];
            let ghost done = locations@.subrange(0, i as int);
            let ghost more = locations@.subrange(0, i + 1);
            let ghost blocks = blocks_of(done);
            proof {
                assert(more.drop_last() =~= done);
                assert(more.last() == loc);
            }
            if loc.0 != 0 {
                let b: u64 = loc.0 - 1;
                let reach: u64 = 7 + (loc.1 / 8) as u64;
                let m: usize = groups.len();
                let mut k: usize = 0;
                while k < m && groups[k].block != b
                    invariant
                        k <= m,
                        m == groups@.len(),
                        m == blocks.len(),
                        grouped(groups@, done),
                        blocks == blocks_of(done),
                        forall|x: int| 0 <= x < k ==> blocks[x] != b,
                    decreases m - k,
                {
                    k = k + 1;
                }
                let ghost before = groups@;
                if k < m {
                    let mut d: Deletion = groups.remove(k);
                    proof {
                        assert(deletion_for(before[k as int], done, blocks[k as int]));
                        assert(blocks.contains(b)) by {
                            assert(blocks[k as int] == b);
                        }
                    }
                    let ghost idx0 = d.indexes@;
                    d.indexes.push(loc.1);
                    if reach > d.len {
                        d.len = reach;
                    }
                    proof {
                        assert(d.indexes@.drop_last() =~= idx0);
                    }
                    let ghost d_idx = d.indexes@;
                    let ghost d_len = d.len;
                    let ghost d_block = d.block;
                    proof {
                        assert(d_block == b);
                        assert(d_idx == picks(done, b).push(loc.1));
                        assert(picks(more, b) == picks(done, b).push(loc.1));
                        assert(top(d_idx) == if loc.1 > top(idx0) {
                            loc.1 as nat
                        } else {
                            top(idx0)
                        });
                        assert(d_len == header_len(d_idx));
                        assert(blocks_of(more) == blocks);
                    }
                    groups.insert(k, d);
                    proof {
                        assert(groups@.len() == before.len());
                        assert(groups@[k as int].block == d_block);
                        assert(groups@[k as int].indexes@ == d_idx);
                        assert(groups@[k as int].len == d_len);
                        assert forall|x: int| 0 <= x < groups@.len() implies deletion_for(
                            #[trigger] groups@[x],
                            more,
                            blocks_of(more)[x],
                        ) by {
                            if x != k {
                                assert(groups@[x] == before[x]);
                                assert(deletion_for(before[x], done, blocks[x]));
                                lemma_blocks_distinct(done, x, k as int);
                                assert(blocks[x] != b);
                                assert(picks(more, blocks[x]) == picks(done, blocks[x]));
                            }
                        }
                    }
                } else {
                    proof {
                        assert(!blocks.contains(b));
                    }
                    let mut indexes: Vec<usize> = Vec::new();
                    indexes.push(loc.1);
                    proof {
                        lemma_picks_absent(done, b);
                        assert(indexes@ =~= picks(done, b).push(loc.1));
                        assert(indexes@.drop_last() =~= Seq::<usize>::empty());
                    }
                    let ghost n_idx = indexes@;
                    proof {
                        assert(picks(more, b) == picks(done, b).push(loc.1));
                        assert(n_idx == picks(more, b));
                        assert(top(n_idx.drop_last()) == 0);
                        assert(top(n_idx) == loc.1);
                        assert(reach == header_len(n_idx));
                        assert(blocks_of(more) == blocks.push(b));
                    }
                    groups.push(Deletion { block: b, indexes, len: reach });
                    proof {
                        assert(groups@.len() == m + 1);
                        assert(groups@[m as int].indexes@ == n_idx);
                        assert(deletion_for(groups@[m as int], more, b));
                        assert forall|x: int| 0 <= x < groups@.len() implies deletion_for(
                            #[trigger] groups@[x],
                            more,
                            blocks_of(more)[x],
                        ) by {
                            if x < m {
                                assert(groups@[x] == before[x]);
                                assert(deletion_for(before[x], done, blocks[x]));
                                assert(blocks.contains(blocks[x]));
                                assert(blocks[x] != b);
                                assert(picks(more, blocks[x]) == picks(done, blocks[x]));
                                assert(blocks_of(more)[x] == blocks[x]);
                            }
                        }
                    }
                }
            } else {
                proof {
                    assert forall|x: int| 0 <= x < groups@.len() implies deletion_for(
                        #[trigger] groups@[x],
                        more,
                        blocks_of(more)[x],
                    ) by {
                        assert(deletion_for(groups@[x], done, blocks[x]));
                    }
                }
            }
            i = i + 1;
        }
        proof {
            assert(locations@.subrange(0, n as int) =~= locations@);
        }
        groups
    }

    /// Takes the rows that a deletion names out of the cached rows of its
    /// block, where they are cached. The block counts as used.
    pub fn forget(&mut self, deletion: &Deletion)
        requires
            old(self).inv(),
        ensures
            final(self).inv(),
            final(self)@.boxes == old(self)@.boxes,
            final(self)@.max_data_size == old(self)@.max_data_size,
            final(self)@.lists == if old(self)@.lists.map.contains_key(deletion.block) {
                CacheView {
                    keys: crate::cache::to_front(old(self)@.lists.keys, deletion.block),
                    map: old(self)@.lists.map.insert(
                        deletion.block,
                        kept(old(self)@.lists.map[deletion.block], deletion.indexes@),
                    ),
                    limit: old(self)@.lists.limit,
                }
            } else {
                old(self)@.lists
            },
    {
        let ghost before = self@;
        let ghost c0 = self.list_cache@;
        let held: Option<Vec<(P, V, Location)>> = self.list_cache.pop(deletion.block);
        match held {
            Some(rows) => {
                let ghost c1 = self.list_cache@;
                let rest: Vec<(P, V, Location)> = retain_rows(rows, &deletion.indexes);
                proof {
                    crate::cache::lemma_without(c0.keys, deletion.block);
                    assert(c0.keys.contains(deletion.block));
                    assert(c1.keys.len() < c1.limit);
                    lemma_cache_steps(c1, deletion.block, rest);
                }
                self.list_cache.put(deletion.block, rest);
                proof {
                    assert(self@.lists.map =~= before.lists.map.insert(
                        deletion.block,
                        kept(before.lists.map[deletion.block], deletion.indexes@),
                    ));
                }
            },
            None => {
                proof {
                    crate::cache::lemma_without(c0.keys, deletion.block);
                    assert(self.list_cache@.map =~= c0.map);
                    assert(self@.lists.map =~= before.lists.map);
                }
            },
        }
    }

    /// The bounds and the number of rows of the block at `offset`, where
    /// they are cached. The block counts as used.
    pub fn bbox(&mut self, offset: u64) -> (r: Option<&(B, u64)>)
        requires
            old(self).inv(),
        ensures
            final(self).inv(),
            final(self)@.lists == old(self)@.lists,
            final(self)@.max_data_size == old(self)@.max_data_size,
            final(self)@.boxes == old(self)@.boxes.touch(offset),
            match r {
                Some(entry) => old(self)@.boxes.map.contains_key(offset) && *entry
                    == old(self)@.boxes.map[offset],
                None => !old(self)@.boxes.map.contains_key(offset),
            },
    {
        self.range.cache.get(offset)
    }

    /// Takes note of the bounds of the block at `offset`, which has `count`
    /// live rows: a block without live rows has no bounds, and nothing is
    /// noted; otherwise `bounds`, what the points of the rows came to, and
    /// the count are cached. Fails where the rows came to no bounds.
    pub fn summarize(&mut self, offset: u64, count: usize, bounds: Option<B>) -> (r: Result<
        bool,
        DataError,
    >)
        requires
            old(self).inv(),
        ensures
            final(self).inv(),
            final(self)@.lists == old(self)@.lists,
            final(self)@.max_data_size == old(self)@.max_data_size,
            r == if count == 0 {
                Ok::<bool, DataError>(false)
            } else if bounds.is_some() {
                Ok::<bool, DataError>(true)
            } else {
                Err::<bool, DataError>(DataError::Invalid { offset })
            },
            final(self)@.boxes == if count > 0 && bounds.is_some() {
                old(self)@.boxes.put(offset, (bounds.unwrap(), count as u64))
            } else {
                old(self)@.boxes
            },
    {
        if count == 0 {
            return Ok(false);
        }
        match bounds {
            Some(b) => {
                self.range.cache.put(offset, (b, count as u64));
                Ok(true)
            },
            None => Err(DataError::Invalid { offset }),
        }
    }
}

/// How many of the rows have a number that is one of `gone`.
pub open spec fn hit_count<P, V>(rows: Seq<(P, V, Location)>, gone: Seq<usize>) -> nat
    decreases rows.len(),
{
    if rows.len() == 0 {
        0
    } else if crate::format::hits(gone, rows.last().2.1 as int) {
        hit_count(rows.drop_last(), gone) + 1
    } else {
        hit_count(rows.drop_last(), gone)
    }
}

/// Taking deleted rows out of a list takes out those rows and no other:
/// every row left is a row of the list that was not deleted, every row of
/// the list that was not deleted is left, the list is shorter by the number
/// of rows deleted, and taking them out once more changes nothing.
pub proof fn lemma_kept<P, V>(rows: Seq<(P, V, Location)>, gone: Seq<usize>)
    ensures
        kept(rows, gone).len() + hit_count(rows, gone) == rows.len(),
        forall|i: int|
            0 <= i < kept(rows, gone).len() ==> !crate::format::hits(
                gone,
                (#[trigger] kept(rows, gone)[i]).2.1 as int,
            ) && rows.contains(kept(rows, gone)[i]),
        forall|i: int|
            0 <= i < rows.len() && !crate::format::hits(gone, (#[trigger] rows[i]).2.1 as int)
                ==> kept(rows, gone).contains(rows[i]),
        kept(kept(rows, gone), gone) == kept(rows, gone),
    decreases rows.len(),
{
    if rows.len() > 0 {
        let head = rows.drop_last();
        let last = rows.last();
        let k = kept(rows, gone);
        let kh = kept(head, gone);
        lemma_kept(head, gone);
        assert forall|i: int| 0 <= i < k.len() implies !crate::format::hits(
            gone,
            (#[trigger] k[i]).2.1 as int,
        ) && rows.contains(k[i]) by {
            if i < kh.len() {
                assert(k[i] == kh[i]);
                assert(head.contains(kh[i]));
                let x = choose|x: int| 0 <= x < head.len() && head[x] == kh[i];
                assert(rows[x] == kh[i]);
            } else {
                assert(rows[rows.len() - 1] == last);
            }
        }
        assert forall|i: int|
            0 <= i < rows.len() && !crate::format::hits(
                gone,
                (#[trigger] rows[i]).2.1 as int,
            ) implies k.contains(rows[i]) by {
            if i < head.len() {
                assert(head[i] == rows[i]);
                assert(kh.contains(head[i]));
                let x = choose|x: int| 0 <= x < kh.len() && kh[x] == head[i];
                assert(k[x] == rows[i]);
            } else {
                assert(k[k.len() - 1] == last);
            }
        }
        if !crate::format::hits(gone, last.2.1 as int) {
            assert(k.drop_last() =~= kh);
            assert(k.last() == last);
        }
    }
}

/// The blocks that locations name are listed once each.
pub proof fn lemma_blocks_distinct(locs: Seq<Location>, x: int, y: int)
    requires
        0 <= x < blocks_of(locs).len(),
        0 <= y < blocks_of(locs).len(),
        x != y,
    ensures
        blocks_of(locs)[x] != blocks_of(locs)[y],
    decreases locs.len(),
{
    if locs.len() > 0 {
        let head = blocks_of(locs.drop_last());
        if x < head.len() && y < head.len() {
            lemma_blocks_distinct(locs.drop_last(), x, y);
        } else if x < head.len() {
            assert(head.contains(head[x]));
        } else if y < head.len() {
            assert(head.contains(head[y]));
        }
    }
}

/// Locations that do not name a block name no row in it.
pub proof fn lemma_picks_absent(locs: Seq<Location>, block: u64)
    requires
        !blocks_of(locs).contains(block),
    ensures
        picks(locs, block) == Seq::<usize>::empty(),
    decreases locs.len(),
{
    if locs.len() > 0 {
        let head = blocks_of(locs.drop_last());
        let all = blocks_of(locs);
        if head.contains(block) {
            let x = choose|x: int| 0 <= x < head.len() && head[x] == block;
            assert(all[x] == block);
        }
        lemma_picks_absent(locs.drop_last(), block);
        if locs.last().0 == block + 1 {
            if !head.contains(block) {
                assert(all == head.push(block));
                assert(all[all.len() - 1] == block);
            }
        }
    }
}

} // verus!
