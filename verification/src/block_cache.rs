use crate::block::Block;
use crate::block::BlockView;
use crate::cache::lemma_cache_steps;
use crate::cache::without;
use crate::cache::Cache;
use crate::cache::CacheView;
use std::collections::HashMap;
use vstd::prelude::*;
use vstd::slice::slice_subrange;

verus! {

/// A cache of fixed-size blocks in front of a byte store: blocks that were
/// read, of which only so many are kept, and blocks with writes that have
/// not been committed to the store yet. Blocks are keyed by the offset of
/// their first byte.
pub struct BlockCache {
    size: usize,
    reads: Cache<Block>,
    writes: HashMap<u64, Block>,
    pending: Vec<u64>,
}

/// What a [`BlockCache`] holds.
pub struct BlockCacheView {
    pub size: nat,
    pub reads: CacheView<BlockView>,
    pub writes: Map<u64, BlockView>,
}

/// The views of the blocks of a map.
pub open spec fn views(m: Map<u64, Block>) -> Map<u64, BlockView> {
    Map::new(|k: u64| m.contains_key(k), |k: u64| m[k]@)
}

/// How a read deals with one block: it serves it from the cache, fills the
/// gaps of a pending block from the store, or fetches it from the store.
#[derive(Clone, Copy, Debug, PartialEq, Eq)]
pub enum Step {
    Served,
    Merge,
    Fetch,
}

/// The bytes of the block at `b` that `data` holds, where `data` holds the
/// bytes of a store from `start` on: at most `size` of them, and none where
/// the block lies before `start` or after the end of `data`.
pub open spec fn store_part(size: int, b: int, start: int, data: Seq<u8>) -> Seq<u8> {
    if b < start {
        Seq::empty()
    } else {
        let from = if b - start < data.len() {
            b - start
        } else {
            data.len() as int
        };
        let to = if from + size < data.len() {
            from + size
        } else {
            data.len() as int
        };
        data.subrange(from, to)
    }
}

/// Writes for the store, as starts and byte sequences.
pub open spec fn write_views(s: Seq<(u64, Vec<u8>)>) -> Seq<(u64, Seq<u8>)> {
    Seq::new(s.len(), |k: int| (s[k].0, s[k].1@))
}

/// Whether the write `w` holds the byte at `pos`.
pub open spec fn in_write(w: (u64, Seq<u8>), pos: int) -> bool {
    w.0 <= pos < w.0 + w.1.len()
}

/// Whether one of the writes `ws` holds the byte at `pos`.
pub open spec fn written_out(ws: Seq<(u64, Seq<u8>)>, pos: int) -> bool {
    exists|k: int| 0 <= k < ws.len() && in_write(#[trigger] ws[k], pos)
}

/// The writes `ws` with `bytes` at `at` added: joined to the last write
/// where that one ends at `at`, as a write of its own otherwise.
pub open spec fn joined(ws: Seq<(u64, Seq<u8>)>, at: u64, bytes: Seq<u8>) -> Seq<(u64, Seq<u8>)> {
    if ws.len() > 0 && ws.last().0 + ws.last().1.len() == at {
        ws.drop_last().push((ws.last().0, ws.last().1 + bytes))
    } else {
        ws.push((at, bytes))
    }
}

/// Where to start reading a store of `store_len` bytes for the blocks from
/// `first` up to `last`, and how many bytes: the part of them that the
/// store holds.
pub open spec fn clipped(first: u64, last: u64, store_len: u64) -> (u64, u64) {
    let i = if first < store_len {
        first
    } else {
        store_len
    };
    let j = if last < store_len {
        last
    } else {
        store_len
    };
    if j > i {
        (i, (j - i) as u64)
    } else {
        (i, 0u64)
    }
}

/// Each key is smaller than the next.
pub open spec fn ascending(s: Seq<u64>) -> bool {
    forall|i: int, j: int| 0 <= i < j < s.len() ==> s[i] < s[j]
}

impl BlockCacheView {
    /// A block of this cache: well formed and of the cache's block size.
    pub open spec fn fits(self, b: BlockView) -> bool {
        b.wf() && b.data.len() == self.size
    }

    /// The block size is positive, every block has that size and starts at
    /// a multiple of it, and no block is both read and pending.
    pub open spec fn wf(self) -> bool {
        &&& self.size > 0
        &&& self.reads.wf()
        &&& forall|k: u64| #[trigger]
            self.reads.map.contains_key(k) ==> self.fits(self.reads.map[k]) && (k as int) % (
            self.size as int) == 0 && k + self.size <= u64::MAX && !self.writes.contains_key(k)
        &&& forall|k: u64| #[trigger]
            self.writes.contains_key(k) ==> self.fits(self.writes[k]) && (k as int) % (
            self.size as int) == 0 && k + self.size <= u64::MAX
    }

    /// The empty cache.
    pub open spec fn empty(size: nat, limit: nat) -> Self {
        BlockCacheView { size, reads: CacheView::empty(limit), writes: Map::empty() }
    }

    /// Whether the block at `b` holds a byte of the `len` bytes at `offset`.
    pub open spec fn touches(self, b: int, offset: int, len: int) -> bool {
        len > 0 && b % (self.size as int) == 0 && b < offset + len && offset < b + self.size
    }

    /// The first byte of block `b` that lies in the range at `offset`.
    pub open spec fn lo(self, b: int, offset: int) -> int {
        if offset > b {
            offset
        } else {
            b
        }
    }

    /// The end, in block `b`, of the `len` bytes at `offset`.
    pub open spec fn hi(self, b: int, offset: int, len: int) -> int {
        if offset + len < b + self.size {
            offset + len
        } else {
            b + self.size
        }
    }

    /// The block that a write to block `b` starts from: the pending one,
    /// else the one that was read, else an empty one.
    pub open spec fn base(self, b: u64) -> BlockView {
        if self.writes.contains_key(b) {
            self.writes[b]
        } else if self.reads.map.contains_key(b) {
            self.reads.map[b]
        } else {
            BlockView::fresh(self.size)
        }
    }

    /// Block `b` after its part of `data`, written at `offset`, went into it.
    pub open spec fn written(self, b: u64, offset: int, data: Seq<u8>) -> BlockView {
        self.base(b).write(
            self.lo(b as int, offset) - b,
            data.subrange(
                self.lo(b as int, offset) - offset,
                self.hi(b as int, offset, data.len() as int) - offset,
            ),
        )
    }

    /// The pending blocks after the blocks below `bound` took their part of
    /// a write of `data` at `offset`.
    pub open spec fn writes_below(self, offset: int, data: Seq<u8>, bound: int) -> Map<
        u64,
        BlockView,
    > {
        Map::new(
            |b: u64|
                self.writes.contains_key(b) || (self.touches(b as int, offset, data.len() as int)
                    && b < bound),
            |b: u64|
                if self.touches(b as int, offset, data.len() as int) && b < bound {
                    self.written(b, offset, data)
                } else {
                    self.writes[b]
                },
        )
    }

    /// The blocks read that are left after those below `bound` that a write
    /// of `len` bytes at `offset` touches became pending.
    pub open spec fn reads_below(self, offset: int, len: int, bound: int) -> Map<u64, BlockView> {
        Map::new(
            |b: u64|
                self.reads.map.contains_key(b) && !(self.touches(b as int, offset, len) && b
                    < bound),
            |b: u64| self.reads.map[b],
        )
    }

    /// Where the block that holds byte `pos` starts.
    pub open spec fn block_start(self, pos: int) -> int {
        pos - pos % (self.size as int)
    }

    /// Where the blocks that hold the `len` bytes at `offset` start: at the
    /// start of the block of `offset`, or, for no bytes, nowhere.
    pub open spec fn first_block(self, offset: int, len: int) -> int {
        if len > 0 {
            self.block_start(offset)
        } else {
            offset + len
        }
    }

    /// The keys of the blocks read, in order of use, after the blocks from
    /// `b` on that start before `end` were taken out, one after the other.
    pub open spec fn drop_from(self, keys: Seq<u64>, b: int, end: int) -> Seq<u64>
        decreases
                if end > b {
                    end - b
                } else {
                    0
                },
    {
        if b >= end || self.size == 0 {
            keys
        } else {
            self.drop_from(without(keys, b as u64), b + self.size, end)
        }
    }

    /// The cache after `bytes` went into block `b` at `start`: the block is
    /// pending, and is not among the blocks read.
    pub open spec fn with_block(self, b: u64, start: int, bytes: Seq<u8>) -> BlockCacheView {
        BlockCacheView {
            size: self.size,
            reads: self.reads.pop(b),
            writes: self.writes.insert(b, self.base(b).write(start, bytes)),
        }
    }

    /// Whether the part of block `b` in the `len` bytes at `offset` can be
    /// read without the store: from a pending block that has all of it, or
    /// from a block that was read.
    pub open spec fn serves(self, b: u64, offset: int, len: int) -> bool {
        if self.writes.contains_key(b) {
            self.writes[b].have_all(
                self.lo(b as int, offset) - b,
                self.hi(b as int, offset, len) - b,
            )
        } else {
            self.reads.map.contains_key(b)
        }
    }

    /// How a read deals with block `b`.
    pub open spec fn step(self, b: u64, offset: int, len: int) -> Step {
        if self.serves(b, offset, len) {
            Step::Served
        } else if self.writes.contains_key(b) {
            Step::Merge
        } else {
            Step::Fetch
        }
    }

    /// The bytes of `part` followed by zeros, to the size of a block.
    pub open spec fn padded(self, part: Seq<u8>) -> Seq<u8> {
        Seq::new(
            self.size,
            |i: int|
                if i < part.len() {
                    part[i]
                } else {
                    0u8
                },
        )
    }

    /// The block from which a read takes the bytes of block `b`, where
    /// `data` holds the bytes of the store from `start` on: a pending block,
    /// with its gaps filled from the store unless it has what is asked for;
    /// else the block that was read; else the store's bytes, with zeros
    /// after them.
    pub open spec fn read_block(
        self,
        b: u64,
        offset: int,
        len: int,
        start: int,
        data: Seq<u8>,
    ) -> BlockView {
        let part = store_part(self.size as int, b as int, start, data);
        if self.writes.contains_key(b) {
            if self.serves(b, offset, len) {
                self.writes[b]
            } else {
                self.writes[b].merge(part)
            }
        } else if self.reads.map.contains_key(b) {
            self.reads.map[b]
        } else {
            BlockView::loaded(self.padded(part))
        }
    }

    /// The bytes that a read of `len` bytes at `offset` returns.
    pub open spec fn read_bytes(self, offset: int, len: int, start: int, data: Seq<u8>) -> Seq<
        u8,
    > {
        Seq::new(
            len as nat,
            |i: int|
                self.read_block(
                    self.block_start(offset + i) as u64,
                    offset,
                    len,
                    start,
                    data,
                ).data[offset + i - self.block_start(offset + i)],
        )
    }

    /// The blocks read after each block from `b` on that starts before `end`
    /// was looked up, one after the other.
    pub open spec fn touch_from(self, c: CacheView<BlockView>, b: int, end: int) -> CacheView<
        BlockView,
    >
        decreases
                if end > b {
                    end - b
                } else {
                    0
                },
    {
        if b >= end || self.size == 0 {
            c
        } else {
            self.touch_from(c.touch(b as u64), b + self.size, end)
        }
    }

    /// The blocks read after each block from `b` on that starts before `end`
    /// and was neither pending nor read came in from the store, one after
    /// the other.
    pub open spec fn fill_from(
        self,
        c: CacheView<BlockView>,
        b: int,
        end: int,
        start: int,
        data: Seq<u8>,
    ) -> CacheView<BlockView>
        decreases
                if end > b {
                    end - b
                } else {
                    0
                },
    {
        if b >= end || self.size == 0 {
            c
        } else if self.writes.contains_key(b as u64) || self.reads.map.contains_key(b as u64) {
            self.fill_from(c, b + self.size, end, start, data)
        } else {
            self.fill_from(
                c.put(
                    b as u64,
                    BlockView::loaded(self.padded(store_part(self.size as int, b, start, data))),
                ),
                b + self.size,
                end,
                start,
                data,
            )
        }
    }

    /// The pending blocks after a read: those that did not have what was
    /// asked of them have their gaps filled from the store.
    pub open spec fn merged(self, offset: int, len: int, start: int, data: Seq<u8>) -> Map<
        u64,
        BlockView,
    > {
        Map::new(
            |b: u64| self.writes.contains_key(b),
            |b: u64|
                if self.touches(b as int, offset, len) && !self.serves(b, offset, len) {
                    self.writes[b].merge(store_part(self.size as int, b as int, start, data))
                } else {
                    self.writes[b]
                },
        )
    }

    /// The cache after a read of `len` bytes at `offset`, where `data` holds
    /// the bytes of the store from `start` on.
    pub open spec fn read(self, offset: int, len: int, start: int, data: Seq<u8>) -> BlockCacheView {
        BlockCacheView {
            size: self.size,
            reads: self.fill_from(
                self.touch_from(self.reads, self.first_block(offset, len), offset + len),
                self.first_block(offset, len),
                offset + len,
                start,
                data,
            ),
            writes: self.merged(offset, len, start, data),
        }
    }

    /// The block of the cache at `b`: the pending one, else the one read.
    pub open spec fn cached(self, b: u64) -> BlockView {
        if self.writes.contains_key(b) {
            self.writes[b]
        } else {
            self.reads.map[b]
        }
    }

    /// `plan` lists the blocks that hold the `len` bytes at `offset`, in
    /// ascending order, each with the way a read deals with it.
    pub open spec fn is_plan(self, plan: Seq<(u64, Step)>, offset: int, len: int) -> bool {
        &&& len == 0 ==> plan.len() == 0
        &&& len > 0 ==> plan.len() > 0 && plan[0].0 == self.block_start(offset) && offset + len
            <= plan.last().0 + self.size
        &&& forall|i: int|
            0 <= i < plan.len() ==> (#[trigger] plan[i]).0 < offset + len && plan[i].1
                == self.step(plan[i].0, offset, len)
        &&& forall|i: int|
            0 < i < plan.len() ==> (#[trigger] plan[i]).0 == plan[i - 1].0 + self.size
    }

    /// The pending blocks during a read, when the blocks below `bound` are
    /// done.
    pub open spec fn merged_below(
        self,
        offset: int,
        len: int,
        start: int,
        data: Seq<u8>,
        bound: int,
    ) -> Map<u64, BlockView> {
        Map::new(
            |b: u64| self.writes.contains_key(b),
            |b: u64|
                if self.touches(b as int, offset, len) && !self.serves(b, offset, len) && b
                    < bound {
                    self.writes[b].merge(store_part(self.size as int, b as int, start, data))
                } else {
                    self.writes[b]
                },
        )
    }

    /// Whether the byte at `pos` has to go to the store: it lies in a
    /// pending block that is marked there, or that misses nothing.
    pub open spec fn dirty(self, pos: int) -> bool {
        let b = self.block_start(pos) as u64;
        &&& 0 <= pos <= u64::MAX
        &&& self.writes.contains_key(b)
        &&& (self.writes[b].missing == 0 || self.writes[b].known[pos - b])
    }

    /// The value that the pending blocks hold for the byte at `pos`.
    pub open spec fn dirty_byte(self, pos: int) -> u8 {
        self.writes[self.block_start(pos) as u64].data[pos - self.block_start(pos)]
    }

    /// Byte `j` of the write `w` has to go to the store, with that value.
    pub open spec fn byte_ok(self, w: (u64, Seq<u8>), j: int) -> bool {
        self.dirty(w.0 + j) && w.1[j] == self.dirty_byte(w.0 + j)
    }

    /// `ws` are the writes for the bytes below `limit`: none is empty, each
    /// holds only bytes that have to go to the store, with their values,
    /// they ascend with a gap between one and the next, and every byte below
    /// `limit` that has to go is in one of them.
    pub open spec fn flushed_to(self, ws: Seq<(u64, Seq<u8>)>, limit: int) -> bool {
        &&& forall|k: int|
            0 <= k < ws.len() ==> (#[trigger] ws[k]).1.len() > 0 && ws[k].0 + ws[k].1.len()
                <= limit
        &&& forall|k: int, j: int|
            0 <= k < ws.len() && 0 <= j < ws[k].1.len() ==> #[trigger] self.byte_ok(ws[k], j)
        &&& forall|k: int, l: int|
            0 <= k < l < ws.len() ==> (#[trigger] ws[k]).0 + ws[k].1.len() < (#[trigger] ws[l]).0
        &&& forall|pos: int| 0 <= pos < limit && #[trigger] self.dirty(pos) ==> written_out(ws, pos)
    }

    /// `ws` are the writes that bring the store up to date: the maximal
    /// runs of bytes that have to go to the store, in ascending order, each
    /// with the values that the pending blocks hold.
    pub open spec fn is_flush(self, ws: Seq<(u64, Seq<u8>)>) -> bool {
        &&& forall|k: int| 0 <= k < ws.len() ==> (#[trigger] ws[k]).1.len() > 0
        &&& forall|k: int, j: int|
            0 <= k < ws.len() && 0 <= j < ws[k].1.len() ==> #[trigger] self.byte_ok(ws[k], j)
        &&& forall|k: int, l: int|
            0 <= k < l < ws.len() ==> (#[trigger] ws[k]).0 + ws[k].1.len() < (#[trigger] ws[l]).0
        &&& forall|pos: int| #[trigger] self.dirty(pos) ==> written_out(ws, pos)
    }

    /// The blocks read after the pending blocks with the keys `keys[i..]`
    /// were put among them, one after the other.
    pub open spec fn put_all(self, c: CacheView<BlockView>, keys: Seq<u64>, i: int) -> CacheView<
        BlockView,
    >
        decreases keys.len() - i,
    {
        if i < 0 || i >= keys.len() {
            c
        } else {
            self.put_all(c.put(keys[i], self.writes[keys[i]]), keys, i + 1)
        }
    }

    /// `keys` are the keys of the pending blocks in ascending order.
    pub open spec fn pending_keys(self, keys: Seq<u64>) -> bool {
        ascending(keys) && forall|k: u64| #[trigger] keys.contains(k) <==> self.writes.contains_key(k)
    }

    /// `r` is what a read of `len` bytes at `offset` needs from the store:
    /// nothing where the cache serves every block of the range, else the
    /// start of the first block that it cannot serve and the end of the last.
    pub open spec fn is_wanted(self, offset: int, len: int, r: Option<(u64, u64)>) -> bool {
        match r {
            None => forall|b: u64| #[trigger]
                self.touches(b as int, offset, len) ==> self.serves(b, offset, len),
            Some((first, last)) => {
                &&& first + self.size <= last
                &&& self.touches(first as int, offset, len)
                &&& !self.serves(first, offset, len)
                &&& self.touches(last - self.size, offset, len)
                &&& !self.serves((last - self.size) as u64, offset, len)
                &&& forall|b: u64| #[trigger]
                    self.touches(b as int, offset, len) && !self.serves(b, offset, len) ==> first
                        <= b && b + self.size <= last
            },
        }
    }

    /// The cache after `data` was written at `offset`: each block that the
    /// range touches is pending and holds its part of `data`, and none of
    /// them is among the blocks read any more.
    pub open spec fn write(self, offset: int, data: Seq<u8>) -> BlockCacheView {
        BlockCacheView {
            size: self.size,
            reads: CacheView {
                keys: self.drop_from(
                    self.reads.keys,
                    self.first_block(offset, data.len() as int),
                    offset + data.len(),
                ),
                map: self.reads_below(offset, data.len() as int, offset + data.len()),
                limit: self.reads.limit,
            },
            writes: self.writes_below(offset, data, offset + data.len()),
        }
    }
}

/// The block that holds byte `pos` starts at a multiple of the block size,
/// at most `pos`, and less than a block before it.
pub proof fn lemma_block_start(pos: int, size: int)
    requires
        0 <= pos,
        0 < size,
    ensures
        (pos - pos % size) % size == 0,
        0 <= pos % size < size,
        0 <= pos - pos % size <= pos,
{
    vstd::arithmetic::div_mod::lemma_fundamental_div_mod(pos, size);
    vstd::arithmetic::div_mod::lemma_mod_multiples_basic(pos / size, size);
    vstd::arithmetic::div_mod::lemma_mod_bound(pos, size);
    assert(pos - pos % size == (pos / size) * size) by (nonlinear_arith)
        requires
            pos == size * (pos / size) + pos % size,
    ;
}

/// A byte of a block lies in the block that starts where that block starts.
pub proof fn lemma_block_of(pos: int, b: int, size: int)
    requires
        0 < size,
        b % size == 0,
        0 <= b <= pos < b + size,
    ensures
        pos - pos % size == b,
{
    lemma_block_start(pos, size);
    lemma_block_unique(b, pos - pos % size, size);
}

/// Going on from the block of `pos` to the next: the blocks of the range
/// that lie below the next block are those below the block of `pos`, and
/// that block.
pub proof fn lemma_bound_step(v: BlockCacheView, offset: int, len: int, pos: int)
    requires
        v.size > 0,
        0 <= offset <= pos < offset + len,
        pos == offset || pos % (v.size as int) == 0,
    ensures
        ({
            let b = v.block_start(pos);
            let next = v.hi(b, offset, len);
            let bound2 = v.first_block(next, offset + len - next);
            &&& v.touches(b, offset, len)
            &&& v.lo(b, offset) == pos
            &&& pos < next <= offset + len
            &&& bound2 == if next < offset + len {
                next
            } else {
                offset + len
            }
            &&& next < offset + len ==> next == b + v.size && next % (v.size as int) == 0
            &&& forall|k: u64|
                (#[trigger] v.touches(k as int, offset, len) && k < bound2) <==> ((v.touches(
                    k as int,
                    offset,
                    len,
                ) && k < b) || k == b)
        }),
{
    let size = v.size as int;
    let b = v.block_start(pos);
    let next = v.hi(b, offset, len);
    lemma_block_start(pos, size);
    if next < offset + len {
        vstd::arithmetic::div_mod::lemma_mod_adds(b, size, size);
        lemma_block_start(next, size);
    }
    let bound2 = v.first_block(next, offset + len - next);
    assert forall|k: u64|
        (#[trigger] v.touches(k as int, offset, len) && k < bound2) <==> ((v.touches(
            k as int,
            offset,
            len,
        ) && k < b) || k == b) by {
        if v.touches(k as int, offset, len) && k < bound2 && !(k < b) {
            lemma_block_unique(b, k as int, size);
        }
    }
}

/// No block of a range lies below its first block.
pub proof fn lemma_bound_first(v: BlockCacheView, offset: int, len: int)
    requires
        v.size > 0,
        0 <= offset,
    ensures
        forall|k: u64|
            !(#[trigger] v.touches(k as int, offset, len) && k < v.first_block(offset, len)),
{
    lemma_block_start(offset, v.size as int);
    assert forall|k: u64|
        !(#[trigger] v.touches(k as int, offset, len) && k < v.first_block(offset, len)) by {
        if v.touches(k as int, offset, len) && k < v.first_block(offset, len) {
            lemma_block_unique(v.first_block(offset, len), k as int, v.size as int);
        }
    }
}

/// Adding a run of bytes that have to go to the store, where none has to go
/// between the limit and the run, gives the writes for the bytes up to the
/// end of the run.
proof fn lemma_join(v: BlockCacheView, ws: Seq<(u64, Seq<u8>)>, limit: int, at: u64, bytes: Seq<u8>)
    requires
        v.flushed_to(ws, limit),
        limit <= at,
        bytes.len() > 0,
        forall|j: int| 0 <= j < bytes.len() ==> #[trigger] v.byte_ok((at, bytes), j),
        forall|pos: int| limit <= pos < at ==> !v.dirty(pos),
    ensures
        v.flushed_to(joined(ws, at, bytes), at + bytes.len()),
{
    let r = joined(ws, at, bytes);
    let n = ws.len() as int;
    let end = at + bytes.len();
    if n > 0 && ws.last().0 + ws.last().1.len() == at {
        let old_last = ws[n - 1];
        let new_last = (old_last.0, old_last.1 + bytes);
        assert(r.len() == n);
        assert(r[n - 1] == new_last);
        assert forall|k: int| 0 <= k < r.len() implies (#[trigger] r[k]).1.len() > 0 && r[k].0
            + r[k].1.len() <= end by {
            if k < n - 1 {
                assert(r[k] == ws[k]);
            }
        }
        assert forall|k: int, j: int|
            0 <= k < r.len() && 0 <= j < r[k].1.len() implies #[trigger] v.byte_ok(r[k], j) by {
            if k < n - 1 {
                assert(r[k] == ws[k]);
                assert(v.byte_ok(ws[k], j));
            } else if j < old_last.1.len() {
                assert(v.byte_ok(ws[n - 1], j));
                assert(new_last.1[j] == old_last.1[j]);
            } else {
                let jj = j - old_last.1.len();
                assert(v.byte_ok((at, bytes), jj));
                assert(new_last.1[j] == bytes[jj]);
            }
        }
        assert forall|k: int, l: int| 0 <= k < l < r.len() implies (#[trigger] r[k]).0
            + r[k].1.len() < (#[trigger] r[l]).0 by {
            assert(r[k] == ws[k]);
            assert(ws[k].0 + ws[k].1.len() < ws[l].0);
            assert(r[l].0 == ws[l].0);
        }
        assert forall|pos: int| 0 <= pos < end && #[trigger] v.dirty(pos) implies written_out(
            r,
            pos,
        ) by {
            if pos < limit {
                let k = choose|k: int| 0 <= k < ws.len() && in_write(#[trigger] ws[k], pos);
                if k < n - 1 {
                    assert(r[k] == ws[k]);
                }
                assert(in_write(r[k], pos));
            } else {
                assert(in_write(r[n - 1], pos));
            }
        }
    } else {
        assert(r.len() == n + 1);
        assert(r[n] == (at, bytes));
        assert forall|k: int| 0 <= k < r.len() implies (#[trigger] r[k]).1.len() > 0 && r[k].0
            + r[k].1.len() <= end by {
            if k < n {
                assert(r[k] == ws[k]);
            }
        }
        assert forall|k: int, j: int|
            0 <= k < r.len() && 0 <= j < r[k].1.len() implies #[trigger] v.byte_ok(r[k], j) by {
            if k < n {
                assert(r[k] == ws[k]);
                assert(v.byte_ok(ws[k], j));
            } else {
                assert(v.byte_ok((at, bytes), j));
            }
        }
        assert forall|k: int, l: int| 0 <= k < l < r.len() implies (#[trigger] r[k]).0
            + r[k].1.len() < (#[trigger] r[l]).0 by {
            assert(r[k] == ws[k]);
            if l < n {
                assert(r[l] == ws[l]);
            } else {
                assert(ws[n - 1].1.len() > 0);
                assert(ws[n - 1].0 + ws[n - 1].1.len() <= limit);
                assert(ws.last() == ws[n - 1]);
                if k < n - 1 {
                    assert(ws[k].0 + ws[k].1.len() < ws[n - 1].0);
                }
            }
        }
        assert forall|pos: int| 0 <= pos < end && #[trigger] v.dirty(pos) implies written_out(
            r,
            pos,
        ) by {
            if pos < limit {
                let k = choose|k: int| 0 <= k < ws.len() && in_write(#[trigger] ws[k], pos);
                assert(r[k] == ws[k]);
                assert(in_write(r[k], pos));
            } else {
                assert(in_write(r[n], pos));
            }
        }
    }
}

/// Between two spans of a block with bytes missing, before the first and
/// after the last, no byte is marked.
proof fn lemma_gap_clean(bv: BlockView, sv: Seq<(int, Seq<u8>)>, j: int, p: int)
    requires
        bv.missing != 0,
        bv.is_spans(sv),
        0 <= j <= sv.len(),
        0 <= p < bv.data.len(),
        j > 0 ==> sv[j - 1].0 + sv[j - 1].1.len() <= p,
        j < sv.len() ==> p < sv[j].0,
    ensures
        !bv.known[p],
{
    if bv.known[p] {
        assert(crate::block::covered(sv, p));
        let l = choose|l: int| 0 <= l < sv.len() && crate::block::in_span(#[trigger] sv[l], p);
        if l < j {
            if l < j - 1 {
                assert(sv[l].0 + sv[l].1.len() < sv[j - 1].0);
                assert(bv.is_run(sv[j - 1].0, sv[j - 1].0 + sv[j - 1].1.len()));
            }
        } else if l > j {
            assert(sv[j].0 + sv[j].1.len() < sv[l].0);
            assert(bv.is_run(sv[j].0, sv[j].0 + sv[j].1.len()));
        }
    }
}

/// Between the end of one pending block and the start of the next, no
/// byte has to go to the store.
proof fn lemma_between(v: BlockCacheView, keys: Seq<u64>, i: int, pos: int)
    requires
        v.wf(),
        v.pending_keys(keys),
        0 <= i <= keys.len(),
        0 <= pos,
        i > 0 ==> keys[i - 1] + v.size <= pos,
        i < keys.len() ==> pos < keys[i],
    ensures
        !v.dirty(pos),
{
    let size = v.size as int;
    lemma_block_start(pos, size);
    let k = v.block_start(pos);
    if v.dirty(pos) {
        let key = k as u64;
        assert(keys.contains(key));
        let idx = choose|idx: int| 0 <= idx < keys.len() && keys[idx] == key;
        if idx < i {
            if idx < i - 1 {
                assert(keys[idx] < keys[i - 1]);
            }
        } else if idx > i {
            assert(keys[i] < keys[idx]);
        }
    }
}

/// Two block starts less than a block apart are the same.
pub proof fn lemma_block_unique(a: int, b: int, size: int)
    requires
        0 < size,
        a % size == 0,
        b % size == 0,
        a - size < b < a + size,
    ensures
        a == b,
{
    vstd::arithmetic::div_mod::lemma_fundamental_div_mod(a, size);
    vstd::arithmetic::div_mod::lemma_fundamental_div_mod(b, size);
    let x = a / size;
    let y = b / size;
    assert(a == size * x);
    assert(b == size * y);
    assert(x == y) by (nonlinear_arith)
        requires
            0 < size,
            size * x - size < size * y,
            size * y < size * x + size,
    ;
}

/// One block of a write: where the blocks below `b` hold their part of the
/// write, putting the part of block `b` into it gives the state in which the
/// blocks below the next block hold theirs.
proof fn lemma_write_step(
    v0: BlockCacheView,
    s0: BlockCacheView,
    offset: int,
    data: Seq<u8>,
    pos: int,
    next: int,
)
    requires
        v0.wf(),
        0 <= offset <= pos < offset + data.len(),
        s0.size == v0.size,
        s0.writes == v0.writes_below(offset, data, v0.block_start(pos)),
        s0.reads.map == v0.reads_below(offset, data.len() as int, v0.block_start(pos)),
        pos == offset || pos % (v0.size as int) == 0,
        next == v0.hi(v0.block_start(pos), offset, data.len() as int),
        v0.block_start(pos) + v0.size <= u64::MAX,
    ensures
        ({
            let b = v0.block_start(pos) as u64;
            let s1 = s0.with_block(b, pos - b, data.subrange(pos - offset, next - offset));
            let bound2 = if next < offset + data.len() {
                next
            } else {
                offset + data.len()
            };
            &&& s1.writes == v0.writes_below(offset, data, bound2)
            &&& s1.reads.map == v0.reads_below(offset, data.len() as int, bound2)
            &&& bound2 == v0.first_block(bound2, offset + data.len() - bound2)
        }),
{
    let size = v0.size as int;
    let len = data.len() as int;
    let bound = v0.block_start(pos);
    lemma_block_start(pos, size);
    let b = bound as u64;
    let bytes = data.subrange(pos - offset, next - offset);
    let s1 = s0.with_block(b, pos - b, bytes);
    let bound2 = if next < offset + len {
        next
    } else {
        offset + len
    };
    assert(v0.touches(b as int, offset, len));
    assert(v0.lo(b as int, offset) == pos);
    assert(s0.base(b) == v0.base(b));
    assert(s1.writes[b] == v0.written(b, offset, data));
    assert forall|k: u64|
        (v0.touches(k as int, offset, len) && k < bound2) <==> ((v0.touches(k as int, offset, len)
            && k < bound) || k == b) by {
        if v0.touches(k as int, offset, len) && k < bound2 && !(k < bound) {
            lemma_block_unique(b as int, k as int, size);
        }
    }
    let target = v0.writes_below(offset, data, bound2);
    assert forall|k: u64| s1.writes.contains_key(k) <==> target.contains_key(k) by {
        assert(s0.writes.contains_key(k) <==> (v0.writes.contains_key(k) || (v0.touches(
            k as int,
            offset,
            len,
        ) && k < bound)));
    }
    assert forall|k: u64| s1.writes.contains_key(k) implies s1.writes[k] == target[k] by {
        if k != b {
            assert(s1.writes[k] == s0.writes[k]);
        }
    }
    assert(s1.writes =~= target);
    let rtarget = v0.reads_below(offset, len, bound2);
    assert forall|k: u64| s1.reads.map.contains_key(k) <==> rtarget.contains_key(k) by {
        assert(s0.reads.map.contains_key(k) <==> (v0.reads.map.contains_key(k) && !(v0.touches(
            k as int,
            offset,
            len,
        ) && k < bound)));
    }
    assert(s1.reads.map =~= rtarget);
    if next < offset + len {
        assert(next == b + size);
        vstd::arithmetic::div_mod::lemma_mod_adds(b as int, size, size);
        lemma_block_start(next, size);
        assert(next % size == 0);
        vstd::arithmetic::div_mod::lemma_small_mod(0, size as nat);
    }
}

/// The block that holds byte `pos`, where in it `pos` lies, and how many
/// bytes from `pos` on lie both in that block and before `end`.
fn segment(size: usize, end: u64, pos: u64) -> (r: (u64, usize, usize))
    requires
        size > 0,
        pos < end,
        end + size <= u64::MAX,
    ensures
        r.0 == pos - (pos as int) % (size as int),
        (r.0 as int) % (size as int) == 0,
        r.1 == pos - r.0,
        r.1 < size,
        r.2 > 0,
        r.1 + r.2 <= size,
        pos + r.2 == if end < r.0 + size {
            end as int
        } else {
            r.0 + size
        },
{
    proof {
        lemma_block_start(pos as int, size as int);
    }
    let r: u64 = pos % (size as u64);
    let b: u64 = pos - r;
    let b_start: usize = r as usize;
    let room: usize = size - b_start;
    let left: u64 = end - pos;
    let b_len: usize = if left < room as u64 {
        left as usize
    } else {
        room
    };
    (b, b_start, b_len)
}

/// Copies the bytes `from..to` of `src` into `result` at `at`.
fn copy_into(result: &mut Vec<u8>, at: usize, src: &Vec<u8>, from: usize, to: usize)
    requires
        from <= to <= src@.len(),
        at + (to - from) <= old(result)@.len(),
    ensures
        final(result)@.len() == old(result)@.len(),
        forall|i: int|
            0 <= i < old(result)@.len() ==> #[trigger] final(result)@[i] == if at <= i < at + (to
                - from) {
                src@[from + i - at]
            } else {
                old(result)@[i]
            },
{
    let n: usize = to - from;
    let total: usize = result.len();
    let mut k: usize = 0;
    while k < n
        invariant
            k <= n,
            n == to - from,
            to <= src@.len(),
            total == result@.len(),
            at + n <= result@.len(),
            result@.len() == old(result)@.len(),
            forall|i: int|
                0 <= i < result@.len() ==> #[trigger] result@[i] == if at <= i < at + k {
                    src@[from + i - at]
                } else {
                    old(result)@[i]
                },
        decreases n - k,
    {
        result.set(at + k, src[from + k]);
        k = k + 1;
    }
}

/// The bytes of the block at `b` that `data` holds.
fn store_slice<'a>(data: &'a [u8], start: u64, b: u64, size: usize) -> (r: &'a [u8])
    ensures
        r@ == store_part(size as int, b as int, start as int, data@),
        r@.len() <= size,
{
    let n: usize = data.len();
    if b < start {
        let r = slice_subrange(data, 0, 0);
        proof {
            assert(r@ =~= Seq::<u8>::empty());
        }
        return r;
    }
    let off: u64 = b - start;
    let from: usize = if off < n as u64 {
        off as usize
    } else {
        n
    };
    let to: usize = if size < n - from {
        from + size
    } else {
        n
    };
    slice_subrange(data, from, to)
}

/// The bytes of `part`, followed by zeros to the length `size`.
fn padded_vec(part: &[u8], size: usize) -> (v: Vec<u8>)
    requires
        part@.len() <= size,
    ensures
        v@.len() == size,
        forall|i: int|
            0 <= i < size ==> #[trigger] v@[i] == if i < part@.len() {
                part@[i]
            } else {
                0u8
            },
{
    let mut v: Vec<u8> = Vec::new();
    let n: usize = part.len();
    let mut k: usize = 0;
    while k < size
        invariant
            k <= size,
            n == part@.len(),
            n <= size,
            v@.len() == k,
            forall|i: int|
                0 <= i < k ==> #[trigger] v@[i] == if i < n {
                    part@[i]
                } else {
                    0u8
                },
        decreases size - k,
    {
        if k < n {
            v.push(part[k]);
        } else {
            v.push(0u8);
        }
        k = k + 1;
    }
    v
}

/// Puts a key into an ascending list at its place.
fn insert_key(v: &mut Vec<u64>, k: u64)
    requires
        ascending(old(v)@),
        !old(v)@.contains(k),
    ensures
        ascending(final(v)@),
        forall|x: u64| #[trigger] final(v)@.contains(x) <==> old(v)@.contains(x) || x == k,
{
    let ghost before = v@;
    let n: usize = v.len();
    let mut i: usize = 0;
    while i < n && v[i] < k
        invariant
            i <= n,
            n == v@.len(),
            v@ == before,
            forall|j: int| 0 <= j < i ==> before[j] < k,
        decreases n - i,
    {
        i = i + 1;
    }
    v.insert(i, k);
    proof {
        let after = v@;
        assert(after == before.insert(i as int, k));
        assert forall|a: int, b: int| 0 <= a < b < after.len() implies after[a] < after[b] by {
            if i < n {
                assert(before[i as int] != k) by {
                    assert(before.contains(before[i as int]));
                }
            }
            if a < i && b > i {
                assert(after[a] == before[a] && after[b] == before[b - 1]);
            } else if a > i {
                assert(after[a] == before[a - 1] && after[b] == before[b - 1]);
            }
        }
        assert forall|x: u64| #[trigger] after.contains(x) <==> before.contains(x) || x == k by {
            if after.contains(x) {
                let j = choose|j: int| 0 <= j < after.len() && after[j] == x;
                if j < i {
                    assert(before[j] == x);
                } else if j > i {
                    assert(before[j - 1] == x);
                }
            }
            if before.contains(x) {
                let j = choose|j: int| 0 <= j < before.len() && before[j] == x;
                if j < i {
                    assert(after[j] == x);
                } else {
                    assert(after[j + 1] == x);
                }
            }
            if x == k {
                assert(after[i as int] == x);
            }
        }
    }
}

impl View for BlockCache {
    type V = BlockCacheView;

    closed spec fn view(&self) -> BlockCacheView {
        BlockCacheView {
            size: self.size as nat,
            reads: CacheView {
                keys: self.reads@.keys,
                map: views(self.reads@.map),
                limit: self.reads@.limit,
            },
            writes: views(self.writes@),
        }
    }

}

impl BlockCache {
    /// The cache is well formed, and the list of pending keys is in order
    /// and holds the keys of the pending blocks.
    pub closed spec fn inv(&self) -> bool {
        &&& self@.wf()
        &&& self.reads@.wf()
        &&& ascending(self.pending@)
        &&& forall|k: u64| #[trigger] self.pending@.contains(k) <==> self.writes@.contains_key(k)
    }

    /// A cache that holds the invariant is well formed.
    pub proof fn lemma_inv(&self)
        requires
            self.inv(),
        ensures
            self@.wf(),
    {
    }

    /// An empty cache for blocks of `size` bytes that keeps at most `count`
    /// blocks that were read.
    pub fn new(size: usize, count: usize) -> (c: Self)
        requires
            size > 0,
        ensures
            c.inv(),
            c@ == BlockCacheView::empty(size as nat, count as nat),
    {
        let c = BlockCache {
            size,
            reads: Cache::new(count),
            writes: HashMap::new(),
            pending: Vec::new(),
        };
        proof {
            assert(c@.reads.map =~= Map::<u64, BlockView>::empty());
            assert(c@.writes =~= Map::<u64, BlockView>::empty());
        }
        c
    }

    /// The size of a block in bytes.
    pub fn block_size(&self) -> (n: usize)
        ensures
            n == self@.size,
    {
        self.size
    }

    /// Puts `bytes` into block `b` at `start`, as a pending block.
    fn write_block(&mut self, b: u64, start: usize, bytes: &[u8])
        requires
            old(self).inv(),
            (b as int) % (old(self)@.size as int) == 0,
            b + old(self)@.size <= u64::MAX,
            start + bytes@.len() <= old(self)@.size,
        ensures
            final(self).inv(),
            final(self)@ == old(self)@.with_block(b, start as int, bytes@),
    {
        let ghost s0 = self@;
        let ghost target = s0.with_block(b, start as int, bytes@);
        let held: Option<Block> = self.writes.remove(&b);
        match held {
            Some(mut block) => {
                block.write(start, bytes);
                proof {
                    assert(block@ == target.writes[b]);
                    assert(!s0.reads.keys.contains(b));
                    assert(s0.reads.map.remove(b) =~= s0.reads.map);
                }
                self.writes.insert(b, block);
            },
            None => {
                let was_read: Option<Block> = self.reads.pop(b);
                let mut block: Block = match was_read {
                    Some(blk) => blk,
                    None => Block::new(self.size),
                };
                block.write(start, bytes);
                proof {
                    assert(block@ == target.writes[b]);
                    assert(!self.pending@.contains(b));
                }
                self.writes.insert(b, block);
                insert_key(&mut self.pending, b);
            },
        }
        proof {
            assert(self@.writes =~= target.writes);
            assert(self@.reads.map =~= target.reads.map);
            assert(self@.reads.keys == target.reads.keys);
        }
    }

    /// Buffers `data` for the bytes from `offset` on. Each block that the
    /// range touches becomes a pending block, starting from the pending
    /// block there, else from the block that was read, which then leaves the
    /// blocks read, else from an empty block. Nothing goes to the store.
    #[verifier::rlimit(40)]
    pub fn write(&mut self, offset: u64, data: &[u8])
        requires
            old(self).inv(),
            offset + data@.len() + old(self)@.size <= u64::MAX,
        ensures
            final(self).inv(),
            final(self)@ == old(self)@.write(offset as int, data@),
    {
        let ghost v0 = self@;
        let ghost len = data@.len() as int;
        let size: usize = self.size;
        let end: u64 = offset + data.len() as u64;
        let mut pos: u64 = offset;
        let ghost mut bound: int = v0.first_block(offset as int, len);
        proof {
            lemma_block_start(offset as int, size as int);
            assert forall|k: u64| !(v0.touches(k as int, offset as int, len) && k < bound) by {
                if v0.touches(k as int, offset as int, len) && k < bound {
                    lemma_block_unique(bound, k as int, size as int);
                }
            }
            assert(self@.writes =~= v0.writes_below(offset as int, data@, bound));
            assert(self@.reads.map =~= v0.reads_below(offset as int, len, bound));
        }
        while pos < end
            invariant
                self.inv(),
                v0.wf(),
                self.size == size,
                v0.size == size,
                len == data@.len(),
                len <= usize::MAX,
                end == offset + len,
                end + size <= u64::MAX,
                offset <= pos <= end,
                bound == v0.first_block(pos as int, end - pos),
                pos < end ==> pos == offset || (pos as int) % (size as int) == 0,
                self@.size == v0.size,
                self@.reads.limit == v0.reads.limit,
                self@.writes == v0.writes_below(offset as int, data@, bound),
                self@.reads.map == v0.reads_below(offset as int, len, bound),
                v0.drop_from(self@.reads.keys, bound, end as int) == v0.drop_from(
                    v0.reads.keys,
                    v0.first_block(offset as int, len),
                    end as int,
                ),
            decreases end - pos,
        {
            let seg = segment(size, end, pos);
            let b: u64 = seg.0;
            let b_start: usize = seg.1;
            let b_len: usize = seg.2;
            let d_start: usize = (pos - offset) as usize;
            let slice: &[u8] = slice_subrange(data, d_start, d_start + b_len);
            let next: u64 = pos + b_len as u64;
            let ghost s0 = self@;
            proof {
                assert(bound == b);
                lemma_write_step(v0, s0, offset as int, data@, pos as int, next as int);
            }
            self.write_block(b, b_start, slice);
            proof {
                let bound2: int = if next < end {
                    next as int
                } else {
                    end as int
                };
                assert(self@.reads.keys == without(s0.reads.keys, b));
                assert(v0.drop_from(s0.reads.keys, bound, end as int) == v0.drop_from(
                    without(s0.reads.keys, b),
                    b + size,
                    end as int,
                ));
                assert(v0.drop_from(self@.reads.keys, bound2, end as int) == v0.drop_from(
                    without(s0.reads.keys, b),
                    b + size,
                    end as int,
                ));
                bound = bound2;
            }
            pos = next;
        }
    }

    /// The first step of a read: copies what the cache can serve into
    /// `result`, looks up each block read that it uses, and lists the blocks
    /// with what is to be done for each.
    #[verifier::rlimit(40)]
    fn plan_read(&mut self, offset: u64, length: usize, result: &mut Vec<u8>) -> (plan: Vec<
        (u64, Step),
    >)
        requires
            old(self).inv(),
            old(result)@.len() == length,
            offset + length + old(self)@.size <= u64::MAX,
        ensures
            final(self).inv(),
            final(self)@.size == old(self)@.size,
            final(self)@.writes == old(self)@.writes,
            final(self)@.reads == old(self)@.touch_from(
                old(self)@.reads,
                old(self)@.first_block(offset as int, length as int),
                offset + length,
            ),
            final(self)@.reads.map == old(self)@.reads.map,
            final(result)@.len() == length,
            old(self)@.is_plan(plan@, offset as int, length as int),
            forall|i: int|
                0 <= i < length && old(self)@.serves(
                    old(self)@.block_start(offset + i) as u64,
                    offset as int,
                    length as int,
                ) ==> #[trigger] final(result)@[i] == old(self)@.cached(
                    old(self)@.block_start(offset + i) as u64,
                ).data[offset + i - old(self)@.block_start(offset + i)],
    {
        let ghost v0 = self@;
        let ghost len = length as int;
        let size: usize = self.size;
        let end: u64 = offset + length as u64;
        let mut plan: Vec<(u64, Step)> = Vec::new();
        let mut pos: u64 = offset;
        let ghost mut bound: int = v0.first_block(offset as int, len);
        while pos < end
            invariant
                self.inv(),
                v0.wf(),
                self.size == size,
                v0.size == size,
                len == length,
                end == offset + len,
                end + size <= u64::MAX,
                offset <= pos <= end,
                bound == v0.first_block(pos as int, end - pos),
                pos < end ==> pos == offset || (pos as int) % (size as int) == 0,
                self@.size == v0.size,
                self@.writes == v0.writes,
                self@.reads.map == v0.reads.map,
                self@.reads.limit == v0.reads.limit,
                v0.touch_from(self@.reads, bound, end as int) == v0.touch_from(
                    v0.reads,
                    v0.first_block(offset as int, len),
                    end as int,
                ),
                result@.len() == length,
                pos == offset ==> plan@.len() == 0,
                pos > offset ==> plan@.len() > 0 && plan@[0].0 == v0.block_start(offset as int)
                    && pos <= plan@.last().0 + size && (pos < end ==> pos == plan@.last().0
                    + size),
                forall|i: int|
                    0 <= i < plan@.len() ==> (#[trigger] plan@[i]).0 < end && plan@[i].1
                        == v0.step(plan@[i].0, offset as int, len),
                forall|i: int|
                    0 < i < plan@.len() ==> (#[trigger] plan@[i]).0 == plan@[i - 1].0 + size,
                forall|i: int|
                    0 <= i < pos - offset && v0.serves(
                        v0.block_start(offset + i) as u64,
                        offset as int,
                        len,
                    ) ==> #[trigger] result@[i] == v0.cached(
                        v0.block_start(offset + i) as u64,
                    ).data[offset + i - v0.block_start(offset + i)],
            decreases end - pos,
        {
            let seg = segment(size, end, pos);
            let b: u64 = seg.0;
            let b_start: usize = seg.1;
            let b_len: usize = seg.2;
            let at: usize = (pos - offset) as usize;
            let next: u64 = pos + b_len as u64;
            let ghost s0 = self@;
            let ghost r0 = result@;
            proof {
                assert(bound == b);
                assert(v0.lo(b as int, offset as int) == pos);
                assert(v0.hi(b as int, offset as int, len) == next);
            }
            let pending: Option<&Block> = self.writes.get(&b);
            let step: Step = match pending {
                Some(block) => {
                    assert(v0.fits(block@));
                    if block.have_all(b_start, b_start + b_len) {
                        copy_into(result, at, &block.data, b_start, b_start + b_len);
                        Step::Served
                    } else {
                        Step::Merge
                    }
                },
                None => {
                    let hit: Option<&Block> = self.reads.get(b);
                    match hit {
                        Some(block) => {
                            assert(v0.fits(block@));
                            copy_into(result, at, &block.data, b_start, b_start + b_len);
                            Step::Served
                        },
                        None => Step::Fetch,
                    }
                },
            };
            plan.push((b, step));
            proof {
                let bound2: int = if next < end {
                    next as int
                } else {
                    end as int
                };
                assert(step == v0.step(b, offset as int, len));
                assert(self@.reads == s0.reads.touch(b)) by {
                    assert(self@.reads.keys == s0.reads.touch(b).keys);
                }
                assert(v0.touch_from(s0.reads, bound, end as int) == v0.touch_from(
                    s0.reads.touch(b),
                    b + size,
                    end as int,
                ));
                assert(v0.touch_from(self@.reads, bound2, end as int) == v0.touch_from(
                    s0.reads.touch(b),
                    b + size,
                    end as int,
                ));
                if next < end {
                    vstd::arithmetic::div_mod::lemma_mod_adds(b as int, size as int, size as int);
                    lemma_block_start(next as int, size as int);
                }
                assert forall|i: int|
                    0 <= i < next - offset && v0.serves(
                        v0.block_start(offset + i) as u64,
                        offset as int,
                        len,
                    ) implies #[trigger] result@[i] == v0.cached(
                    v0.block_start(offset + i) as u64,
                ).data[offset + i - v0.block_start(offset + i)] by {
                    if i >= at {
                        lemma_block_of(offset + i, b as int, size as int);
                    } else {
                        assert(result@[i] == r0[i]);
                    }
                }
                bound = bound2;
            }
            pos = next;
        }
        plan
    }

    /// One block of the second step of a read.
    fn fill_block(
        &mut self,
        Ghost(v0): Ghost<BlockCacheView>,
        offset: u64,
        length: usize,
        start: u64,
        data: &[u8],
        entry: (u64, Step),
        b_start: usize,
        b_len: usize,
        at: usize,
        result: &mut Vec<u8>,
    )
        requires
            old(self).inv(),
            v0.wf(),
            old(self)@.size == v0.size,
            (entry.0 as int) % (v0.size as int) == 0,
            entry.0 + v0.size <= u64::MAX,
            entry.1 == v0.step(entry.0, offset as int, length as int),
            old(self)@.writes.dom() == v0.writes.dom(),
            v0.writes.contains_key(entry.0) ==> old(self)@.writes[entry.0] == v0.writes[entry.0],
            b_start + b_len <= v0.size,
            at + b_len <= old(result)@.len(),
        ensures
            final(self).inv(),
            final(self)@.size == v0.size,
            final(self)@.writes == if entry.1 == Step::Merge {
                old(self)@.writes.insert(
                    entry.0,
                    v0.read_block(entry.0, offset as int, length as int, start as int, data@),
                )
            } else {
                old(self)@.writes
            },
            final(self)@.reads == if entry.1 == Step::Fetch {
                old(self)@.reads.put(
                    entry.0,
                    v0.read_block(entry.0, offset as int, length as int, start as int, data@),
                )
            } else {
                old(self)@.reads
            },
            final(result)@.len() == old(result)@.len(),
            forall|i: int|
                0 <= i < old(result)@.len() ==> #[trigger] final(result)@[i] == if entry.1
                    != Step::Served && at <= i < at + b_len {
                    v0.read_block(
                        entry.0,
                        offset as int,
                        length as int,
                        start as int,
                        data@,
                    ).data[b_start + i - at]
                } else {
                    old(result)@[i]
                },
    {
        let b: u64 = entry.0;
        let size: usize = self.size;
        let ghost s0 = self@;
        let ghost len = length as int;
        let ghost part = store_part(size as int, b as int, start as int, data@);
        proof {
            assert(s0.writes.contains_key(b) == v0.writes.contains_key(b));
        }
        match entry.1 {
            Step::Served => {},
            Step::Merge => {
                let held: Option<Block> = self.writes.remove(&b);
                match held {
                    Some(mut block) => {
                        let slice: &[u8] = store_slice(data, start, b, size);
                        assert(v0.fits(block@));
                        block.merge(slice);
                        copy_into(result, at, &block.data, b_start, b_start + b_len);
                        proof {
                            assert(block@ == v0.read_block(
                                b,
                                offset as int,
                                len,
                                start as int,
                                data@,
                            ));
                        }
                        self.writes.insert(b, block);
                        proof {
                            assert(self@.writes =~= s0.writes.insert(
                                b,
                                v0.read_block(b, offset as int, len, start as int, data@),
                            ));
                            assert(self@.reads.map =~= s0.reads.map);
                        }
                    },
                    None => {
                        proof {
                            assert(false);
                        }
                    },
                }
            },
            Step::Fetch => {
                let slice: &[u8] = store_slice(data, start, b, size);
                let bytes: Vec<u8> = padded_vec(slice, size);
                proof {
                    assert(bytes@ =~= v0.padded(part));
                }
                let block: Block = Block::from_data(bytes);
                copy_into(result, at, &block.data, b_start, b_start + b_len);
                proof {
                    assert(block@ == v0.read_block(b, offset as int, len, start as int, data@));
                    lemma_cache_steps(s0.reads, b, block@);
                }
                self.reads.put(b, block);
                proof {
                    assert(self@.reads.map =~= s0.reads.put(b, block@).map);
                    assert(self@.reads == s0.reads.put(b, block@));
                    assert(self@.writes =~= s0.writes);
                }
            },
        }
    }

    /// The second step of a read: fills the gaps of the pending blocks that
    /// need it, takes the blocks that are not cached from the store's bytes
    /// into the blocks read, and copies their part into `result`.
    #[verifier::rlimit(60)]
    fn fill_read(
        &mut self,
        Ghost(v0): Ghost<BlockCacheView>,
        offset: u64,
        length: usize,
        start: u64,
        data: &[u8],
        plan: &Vec<(u64, Step)>,
        result: &mut Vec<u8>,
    )
        requires
            old(self).inv(),
            v0.wf(),
            old(self)@.size == v0.size,
            old(self)@.writes == v0.writes,
            old(self)@.reads.map == v0.reads.map,
            offset + length + v0.size <= u64::MAX,
            old(result)@.len() == length,
            v0.is_plan(plan@, offset as int, length as int),
            forall|i: int|
                0 <= i < length && v0.serves(
                    v0.block_start(offset + i) as u64,
                    offset as int,
                    length as int,
                ) ==> #[trigger] old(result)@[i] == v0.cached(
                    v0.block_start(offset + i) as u64,
                ).data[offset + i - v0.block_start(offset + i)],
        ensures
            final(self).inv(),
            final(self)@.size == v0.size,
            final(self)@.writes == v0.merged(offset as int, length as int, start as int, data@),
            final(self)@.reads == v0.fill_from(
                old(self)@.reads,
                v0.first_block(offset as int, length as int),
                offset + length,
                start as int,
                data@,
            ),
            final(result)@ == v0.read_bytes(offset as int, length as int, start as int, data@),
    {
        let ghost len = length as int;
        let ghost r1 = self@.reads;
        let ghost target = v0.read_bytes(offset as int, len, start as int, data@);
        let size: usize = self.size;
        let end: u64 = offset + length as u64;
        let n: usize = plan.len();
        let mut idx: usize = 0;
        let mut pos: u64 = offset;
        let ghost mut bound: int = v0.first_block(offset as int, len);
        proof {
            lemma_bound_first(v0, offset as int, len);
            assert(self@.writes =~= v0.merged_below(
                offset as int,
                len,
                start as int,
                data@,
                bound,
            ));
        }
        while idx < n
            invariant
                self.inv(),
                v0.wf(),
                self.size == size,
                v0.size == size,
                len == length,
                end == offset + len,
                end + size <= u64::MAX,
                n == plan@.len(),
                idx <= n,
                offset <= pos <= end,
                v0.is_plan(plan@, offset as int, len),
                target == v0.read_bytes(offset as int, len, start as int, data@),
                idx < n ==> pos < end && plan@[idx as int].0 == v0.block_start(pos as int) && (pos
                    == offset || (pos as int) % (size as int) == 0),
                idx == n ==> pos == end,
                bound == v0.first_block(pos as int, end - pos),
                self@.size == v0.size,
                self@.writes == v0.merged_below(offset as int, len, start as int, data@, bound),
                v0.fill_from(self@.reads, bound, end as int, start as int, data@) == v0.fill_from(
                    r1,
                    v0.first_block(offset as int, len),
                    end as int,
                    start as int,
                    data@,
                ),
                result@.len() == length,
                forall|i: int|
                    0 <= i < length && (i < pos - offset || v0.serves(
                        v0.block_start(offset + i) as u64,
                        offset as int,
                        len,
                    )) ==> #[trigger] result@[i] == target[i],
            decreases n - idx,
        {
            let entry: (u64, Step) = plan[idx];
            let seg = segment(size, end, pos);
            let b: u64 = seg.0;
            let b_start: usize = seg.1;
            let b_len: usize = seg.2;
            let at: usize = (pos - offset) as usize;
            let next: u64 = pos + b_len as u64;
            let ghost s0 = self@;
            let ghost res0 = result@;
            let ghost part = store_part(size as int, b as int, start as int, data@);
            proof {
                lemma_bound_step(v0, offset as int, len, pos as int);
                assert(entry.0 == b);
                assert(entry.1 == v0.step(b, offset as int, len));
                assert(s0.writes.contains_key(b) == v0.writes.contains_key(b));
                assert(s0.writes.contains_key(b) ==> s0.writes[b] == v0.writes[b]);
                assert(s0.writes.dom() =~= v0.writes.dom());
            }
            self.fill_block(Ghost(v0), offset, length, start, data, entry, b_start, b_len, at, result);
            proof {
                let bound2: int = if next < end {
                    next as int
                } else {
                    end as int
                };
                assert forall|k: u64| self@.writes.contains_key(k) implies self@.writes[k]
                    == v0.merged_below(offset as int, len, start as int, data@, bound2)[k] by {
                    if k != b {
                        assert(self@.writes[k] == s0.writes[k]);
                    }
                }
                assert(self@.writes =~= v0.merged_below(
                    offset as int,
                    len,
                    start as int,
                    data@,
                    bound2,
                ));
                assert(v0.fill_from(s0.reads, bound, end as int, start as int, data@)
                    == v0.fill_from(self@.reads, b + size, end as int, start as int, data@));
                assert(v0.fill_from(self@.reads, bound2, end as int, start as int, data@)
                    == v0.fill_from(self@.reads, b + size, end as int, start as int, data@));
                assert forall|i: int|
                    0 <= i < length && (i < next - offset || v0.serves(
                        v0.block_start(offset + i) as u64,
                        offset as int,
                        len,
                    )) implies #[trigger] result@[i] == target[i] by {
                    if at <= i < next - offset {
                        lemma_block_of(offset + i, b as int, size as int);
                    } else {
                        assert(result@[i] == res0[i]);
                    }
                }
                if idx + 1 < n {
                    assert(plan@[idx + 1].0 == plan@[idx as int].0 + size);
                    assert(plan@[idx + 1].0 < end);
                } else {
                    assert(plan@.last() == plan@[idx as int]);
                }
                bound = bound2;
            }
            pos = next;
            idx = idx + 1;
        }
        proof {
            if n == 0 {
                assert(len == 0);
            }
            assert(self@.writes =~= v0.merged(offset as int, len, start as int, data@));
            assert(result@ =~= target);
        }
    }

    /// Reads `length` bytes at `offset`, where `data` holds the bytes of the
    /// store from `start` on. A pending block that has the bytes asked of it
    /// serves them; another pending block first has its gaps filled from the
    /// store. A block that was read serves its bytes and counts as used. Any
    /// other block is taken from the store's bytes, with zeros where the
    /// store ends, and joins the blocks read. The blocks read are looked up
    /// first, all of them, and the new blocks put in after that.
    pub fn read(&mut self, offset: u64, length: usize, start: u64, data: &[u8]) -> (r: Vec<u8>)
        requires
            old(self).inv(),
            offset + length + old(self)@.size <= u64::MAX,
        ensures
            final(self).inv(),
            r@ == old(self)@.read_bytes(offset as int, length as int, start as int, data@),
            final(self)@ == old(self)@.read(offset as int, length as int, start as int, data@),
    {
        let ghost v0 = self@;
        let mut result: Vec<u8> = crate::block::zeros(length);
        let plan: Vec<(u64, Step)> = self.plan_read(offset, length, &mut result);
        self.fill_read(Ghost(v0), offset, length, start, data, &plan, &mut result);
        result
    }

    /// The blocks that a read of `length` bytes at `offset` needs from the
    /// store: the start of the first and the end of the last block that the
    /// cache cannot serve, or nothing where it can serve them all.
    pub fn wanted(&self, offset: u64, length: usize) -> (r: Option<(u64, u64)>)
        requires
            self.inv(),
            offset + length + self@.size <= u64::MAX,
        ensures
            self@.is_wanted(offset as int, length as int, r),
    {
        let ghost v0 = self@;
        let ghost len = length as int;
        let size: usize = self.size;
        let end: u64 = offset + length as u64;
        let mut first: Option<u64> = None;
        let mut last: u64 = 0;
        let mut pos: u64 = offset;
        let ghost mut bound: int = v0.first_block(offset as int, len);
        proof {
            lemma_bound_first(v0, offset as int, len);
        }
        while pos < end
            invariant
                self.inv(),
                v0 == self@,
                v0.wf(),
                self.size == size,
                v0.size == size,
                len == length,
                end == offset + len,
                end + size <= u64::MAX,
                offset <= pos <= end,
                bound == v0.first_block(pos as int, end - pos),
                pos < end ==> pos == offset || (pos as int) % (size as int) == 0,
                match first {
                    None => forall|k: u64| #[trigger]
                        v0.touches(k as int, offset as int, len) && k < bound ==> v0.serves(
                            k,
                            offset as int,
                            len,
                        ),
                    Some(f) => {
                        &&& f <= last < bound
                        &&& v0.touches(f as int, offset as int, len)
                        &&& !v0.serves(f, offset as int, len)
                        &&& v0.touches(last as int, offset as int, len)
                        &&& !v0.serves(last, offset as int, len)
                        &&& forall|k: u64| #[trigger]
                            v0.touches(k as int, offset as int, len) && k < bound && !v0.serves(
                                k,
                                offset as int,
                                len,
                            ) ==> f <= k <= last
                    },
                },
            decreases end - pos,
        {
            let seg = segment(size, end, pos);
            let b: u64 = seg.0;
            let b_start: usize = seg.1;
            let b_len: usize = seg.2;
            let next: u64 = pos + b_len as u64;
            proof {
                lemma_bound_step(v0, offset as int, len, pos as int);
            }
            let pending: Option<&Block> = self.writes.get(&b);
            let served: bool = match pending {
                Some(block) => {
                    assert(v0.writes.contains_key(b));
                    assert(v0.fits(block@));
                    block.have_all(b_start, b_start + b_len)
                },
                None => self.reads.contains(b),
            };
            proof {
                assert(served == v0.serves(b, offset as int, len));
            }
            if !served {
                if first.is_none() {
                    first = Some(b);
                }
                last = b;
            }
            proof {
                bound = if next < end {
                    next as int
                } else {
                    end as int
                };
            }
            pos = next;
        }
        match first {
            Some(f) => Some((f, last + size as u64)),
            None => None,
        }
    }

    /// The bytes to read from a store of `store_len` bytes for the blocks
    /// from `first` up to `last`: where to start, and how many, which is
    /// zero where the store ends before them.
    pub fn clip(first: u64, last: u64, store_len: u64) -> (r: (u64, u64))
        ensures
            r == clipped(first, last, store_len),
    {
        let i: u64 = if first < store_len {
            first
        } else {
            store_len
        };
        let j: u64 = if last < store_len {
            last
        } else {
            store_len
        };
        if j > i {
            (i, j - i)
        } else {
            (i, 0)
        }
    }
}


/// Adds `bytes` to the end of `v`.
fn append_bytes(v: &mut Vec<u8>, bytes: &[u8])
    ensures
        final(v)@ == old(v)@ + bytes@,
{
    let n: usize = bytes.len();
    let mut k: usize = 0;
    while k < n
        invariant
            k <= n,
            n == bytes@.len(),
            v@ == old(v)@ + bytes@.subrange(0, k as int),
        decreases n - k,
    {
        v.push(bytes[k]);
        proof {
            assert(v@ =~= old(v)@ + bytes@.subrange(0, k + 1));
        }
        k = k + 1;
    }
    proof {
        assert(bytes@.subrange(0, n as int) =~= bytes@);
    }
}

/// Adds the bytes at `at` to the writes: to the last one where that one
/// ends at `at`, as a new one otherwise.
fn append_span(out: &mut Vec<(u64, Vec<u8>)>, at: u64, bytes: &[u8])
    requires
        old(out)@.len() > 0 ==> old(out)@.last().0 + old(out)@.last().1@.len() <= at,
    ensures
        write_views(final(out)@) == joined(write_views(old(out)@), at, bytes@),
{
    let n: usize = out.len();
    let ghost before = write_views(out@);
    if n > 0 {
        let last_end: u64 = out[n - 1].0 + out[n - 1].1.len() as u64;
        if last_end == at {
            let last: Option<(u64, Vec<u8>)> = out.pop();
            match last {
                Some(w) => {
                    let (start, mut grown) = w;
                    append_bytes(&mut grown, bytes);
                    out.push((start, grown));
                    proof {
                        assert(write_views(out@) =~= joined(before, at, bytes@));
                    }
                    return ;
                },
                None => {},
            }
        }
    }
    out.push((at, vstd::slice::slice_to_vec(bytes)));
    proof {
        assert(write_views(out@) =~= joined(before, at, bytes@));
    }
}

/// Adds what one pending block has to write out to the writes.
#[verifier::rlimit(40)]
fn flush_block(out: &mut Vec<(u64, Vec<u8>)>, b: u64, block: &Block, Ghost(v): Ghost<BlockCacheView>)
    requires
        v.wf(),
        v.writes.contains_key(b),
        v.writes[b] == block@,
        v.flushed_to(write_views(old(out)@), b as int),
    ensures
        v.flushed_to(write_views(final(out)@), b + v.size),
{
    let ghost size = v.size as int;
    let ghost bv = block@;
    let spans: Vec<(usize, &[u8])> = block.writes();
    let ghost sv = crate::block::span_views(spans@);
    let n: usize = spans.len();
    let mut j: usize = 0;
    let ghost mut limit: int = b as int;
    proof {
        if bv.missing == 0 {
            assert(sv.len() == 1 && sv[0] == (0int, bv.data));
        }
    }
    while j < n
        invariant
            v.wf(),
            v.writes.contains_key(b),
            v.writes[b] == bv,
            size == v.size,
            bv.is_spans(sv),
            sv == crate::block::span_views(spans@),
            n == spans@.len(),
            j <= n,
            bv.missing == 0 ==> sv.len() == 1 && sv[0] == (0int, bv.data),
            limit == if j == 0 {
                b as int
            } else {
                b + sv[j - 1].0 + sv[j - 1].1.len()
            },
            b <= limit <= b + size,
            v.flushed_to(write_views(out@), limit),
        decreases n - j,
    {
        let span: (usize, &[u8]) = spans[j];
        let ghost sp = sv[j as int];
        proof {
            assert(sp == (span.0 as int, span.1@));
            if bv.missing != 0 {
                assert(bv.is_run(sp.0, sp.0 + sp.1.len()));
                assert(sp.1 == bv.data.subrange(sp.0, sp.0 + sp.1.len()));
                if j > 0 {
                    assert(sv[j - 1].0 + sv[j - 1].1.len() < sv[j as int].0);
                }
            }
        }
        let at: u64 = b + span.0 as u64;
        proof {
            let ws = write_views(out@);
            if ws.len() > 0 {
                assert(ws.last() == ws[ws.len() - 1]);
                assert(ws.last().0 == out@.last().0 && ws.last().1 == out@.last().1@);
            }
            assert forall|jj: int| 0 <= jj < sp.1.len() implies #[trigger] v.byte_ok(
                (at, sp.1),
                jj,
            ) by {
                lemma_block_of(at + jj, b as int, size);
                if bv.missing != 0 {
                    assert(bv.known[sp.0 + jj]);
                }
            }
            assert forall|pos: int| limit <= pos < at implies !v.dirty(pos) by {
                lemma_block_of(pos, b as int, size);
                lemma_gap_clean(bv, sv, j as int, pos - b);
            }
            lemma_join(v, ws, limit, at, sp.1);
        }
        append_span(out, at, span.1);
        proof {
            limit = at + sp.1.len();
        }
        j = j + 1;
    }
    proof {
        let ws = write_views(out@);
        assert forall|pos: int| limit <= pos < b + size implies !v.dirty(pos) by {
            lemma_block_of(pos, b as int, size);
            if bv.missing != 0 {
                lemma_gap_clean(bv, sv, n as int, pos - b);
            }
        }
    }

}

impl BlockCache {
    /// The writes that bring the store up to date with the pending blocks.
    fn flush(&self) -> (out: Vec<(u64, Vec<u8>)>)
        requires
            self.inv(),
        ensures
            self@.is_flush(write_views(out@)),
    {
        let ghost v = self@;
        let ghost keys = self.pending@;
        let mut out: Vec<(u64, Vec<u8>)> = Vec::new();
        let n: usize = self.pending.len();
        let mut i: usize = 0;
        let ghost mut limit: int = 0;
        while i < n
            invariant
                self.inv(),
                v == self@,
                keys == self.pending@,
                v.pending_keys(keys),
                n == keys.len(),
                i <= n,
                limit == if i == 0 {
                    0
                } else {
                    keys[i - 1] + v.size
                },
                v.flushed_to(write_views(out@), limit),
            decreases n - i,
        {
            let b: u64 = self.pending[i];
            proof {
                assert(keys.contains(b));
                assert(v.writes.contains_key(b));
                if i > 0 {
                    assert(keys[i - 1] < keys[i as int]);
                    assert(keys.contains(keys[i - 1]));
                    assert(v.writes.contains_key(keys[i - 1]));
                    if b < keys[i - 1] + v.size {
                        lemma_block_unique(keys[i - 1] as int, b as int, v.size as int);
                    }
                }
                assert forall|pos: int| limit <= pos < b implies !v.dirty(pos) by {
                    lemma_between(v, keys, i as int, pos);
                }
            }
            let held: Option<&Block> = self.writes.get(&b);
            match held {
                Some(block) => {
                    flush_block(&mut out, b, block, Ghost(v));
                },
                None => {
                    proof {
                        assert(false);
                    }
                },
            }
            proof {
                limit = b + v.size;
            }
            i = i + 1;
        }
        proof {
            let ws = write_views(out@);
            assert forall|pos: int| #[trigger] v.dirty(pos) implies written_out(ws, pos) by {
                if pos >= limit {
                    lemma_between(v, keys, n as int, pos);
                }
            }
        }
        out
    }

    /// Moves the pending blocks, in ascending order, to the blocks read.
    #[verifier::rlimit(40)]
    fn promote(&mut self)
        requires
            old(self).inv(),
        ensures
            final(self).inv(),
            final(self)@.size == old(self)@.size,
            final(self)@.writes == Map::<u64, BlockView>::empty(),
            exists|keys: Seq<u64>|
                old(self)@.pending_keys(keys) && final(self)@.reads == old(self)@.put_all(
                    old(self)@.reads,
                    keys,
                    0,
                ),
    {
        let ghost v0 = self@;
        let ghost keys = self.pending@;
        let n: usize = self.pending.len();
        let mut i: usize = 0;
        while i < n
            invariant
                v0.wf(),
                v0.pending_keys(keys),
                keys == self.pending@,
                n == keys.len(),
                i <= n,
                self@.size == v0.size,
                self.reads@.wf(),
                self@.reads.wf(),
                forall|k: u64| #[trigger]
                    self@.writes.contains_key(k) <==> (v0.writes.contains_key(k)
                        && !keys.subrange(0, i as int).contains(k)),
                forall|k: u64| #[trigger]
                    self@.writes.contains_key(k) ==> self@.writes[k] == v0.writes[k],
                forall|k: u64| #[trigger]
                    self@.reads.map.contains_key(k) ==> v0.fits(self@.reads.map[k]) && (k as int)
                        % (v0.size as int) == 0 && k + v0.size <= u64::MAX
                        && !self@.writes.contains_key(k),
                v0.put_all(self@.reads, keys, i as int) == v0.put_all(v0.reads, keys, 0),
            decreases n - i,
        {
            let b: u64 = self.pending[i];
            let ghost s0 = self@;
            proof {
                assert(keys.contains(b));
                assert(!keys.subrange(0, i as int).contains(b)) by {
                    if keys.subrange(0, i as int).contains(b) {
                        let x = choose|x: int|
                            0 <= x < i && keys.subrange(0, i as int)[x] == b;
                        assert(keys[x] < keys[i as int]);
                    }
                }
                assert(s0.writes.contains_key(b));
            }
            let held: Option<Block> = self.writes.remove(&b);
            match held {
                Some(block) => {
                    proof {
                        assert(block@ == v0.writes[b]);
                        lemma_cache_steps(s0.reads, b, block@);
                    }
                    self.reads.put(b, block);
                    proof {
                        assert(self@.reads.map =~= s0.reads.put(b, v0.writes[b]).map);
                        assert(self@.reads == s0.reads.put(b, v0.writes[b]));
                    }
                },
                None => {
                    proof {
                        assert(false);
                    }
                },
            }
            proof {
                assert forall|k: u64| #[trigger]
                    self@.writes.contains_key(k) <==> (s0.writes.contains_key(k) && k != b) by {}
                assert forall|k: u64| #[trigger]
                    self@.writes.contains_key(k) implies self@.writes[k] == v0.writes[k] by {
                    assert(self@.writes[k] == s0.writes[k]);
                }
                assert forall|k: u64| #[trigger]
                    self@.writes.contains_key(k) <==> (v0.writes.contains_key(k)
                        && !keys.subrange(0, i + 1).contains(k)) by {
                    let a = keys.subrange(0, i as int);
                    let c = keys.subrange(0, i + 1);
                    if a.contains(k) {
                        let x = choose|x: int| 0 <= x < a.len() && a[x] == k;
                        assert(c[x] == k);
                    }
                    if c.contains(k) {
                        let x = choose|x: int| 0 <= x < c.len() && c[x] == k;
                        if x < i {
                            assert(a[x] == k);
                        }
                    }
                    if k == b {
                        assert(c[i as int] == b);
                    }
                }
            }
            i = i + 1;
        }
        self.pending = Vec::new();
        proof {
            assert forall|k: u64| !self@.writes.contains_key(k) by {
                if v0.writes.contains_key(k) {
                    assert(keys.contains(k));
                    assert(keys.subrange(0, n as int) =~= keys);
                }
            }
            assert(self@.writes =~= Map::<u64, BlockView>::empty());
            assert(self.writes@ =~= Map::<u64, Block>::empty()) by {
                assert forall|k: u64| !self.writes@.contains_key(k) by {
                    assert(!self@.writes.contains_key(k));
                }
            }
        }
    }

    /// Hands out the writes that bring the store up to date, to be made in
    /// the order given, and forgets the pending blocks: each becomes one of
    /// the blocks read, in ascending order. Bytes that follow one another
    /// go out as one write, across blocks too.
    pub fn commit(&mut self) -> (ws: Vec<(u64, Vec<u8>)>)
        requires
            old(self).inv(),
        ensures
            final(self).inv(),
            old(self)@.is_flush(write_views(ws@)),
            final(self)@.size == old(self)@.size,
            final(self)@.writes == Map::<u64, BlockView>::empty(),
            exists|keys: Seq<u64>|
                old(self)@.pending_keys(keys) && final(self)@.reads == old(self)@.put_all(
                    old(self)@.reads,
                    keys,
                    0,
                ),
    {
        let ws: Vec<(u64, Vec<u8>)> = self.flush();
        self.promote();
        ws
    }
}

} // verus!
