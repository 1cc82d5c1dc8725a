use crate::block::lemma_fresh_exact;
use crate::block::lemma_unknown_bounds;
use crate::block::lemma_write_exact;
use crate::block::BlockView;
use crate::cache::CacheView;
use crate::block_cache::clipped;
use crate::block_cache::in_write;
use crate::block_cache::lemma_block_of;
use crate::block_cache::lemma_block_start;
use crate::block_cache::store_part;
use crate::block_cache::written_out;
use crate::block_cache::BlockCacheView;
use vstd::prelude::*;

verus! {

/// The byte of a store at `pos`: zero after its end.
pub open spec fn flat(s: Seq<u8>, pos: int) -> u8 {
    if 0 <= pos < s.len() {
        s[pos]
    } else {
        0u8
    }
}

/// The store after `bytes` were written at `at`. A store that ends before
/// the write grows, with zeros in between.
pub open spec fn store_write(s: Seq<u8>, at: int, bytes: Seq<u8>) -> Seq<u8> {
    Seq::new(
        if s.len() > at + bytes.len() {
            s.len()
        } else {
            (at + bytes.len()) as nat
        },
        |i: int|
            if at <= i < at + bytes.len() {
                bytes[i - at]
            } else {
                flat(s, i)
            },
    )
}

/// The store after the writes `ws` were made in order.
pub open spec fn store_apply(s: Seq<u8>, ws: Seq<(u64, Seq<u8>)>) -> Seq<u8>
    decreases ws.len(),
{
    if ws.len() == 0 {
        s
    } else {
        store_write(store_apply(s, ws.drop_last()), ws.last().0 as int, ws.last().1)
    }
}

/// The cache agrees with the store `s`: a block that was read holds the
/// store's bytes, and a pending block holds them wherever it is not marked
/// and either misses nothing or lies past the end of the store.
pub open spec fn coherent(c: BlockCacheView, s: Seq<u8>) -> bool {
    &&& forall|k: u64, r: int|
        c.reads.map.contains_key(k) && 0 <= r < c.size ==> #[trigger] c.reads.map[k].data[r]
            == flat(s, k + r)
    &&& forall|k: u64, r: int|
        c.writes.contains_key(k) && 0 <= r < c.size && !c.writes[k].known[r] && (
        c.writes[k].missing == 0 || k + r >= s.len()) ==> #[trigger] c.writes[k].data[r] == flat(
            s,
            k + r,
        )
}

/// The byte at `pos` as a single flat store with the pending writes in it
/// would give it: the pending value where the byte is marked, the store's
/// otherwise.
pub open spec fn logical(c: BlockCacheView, s: Seq<u8>, pos: int) -> u8 {
    let b = c.block_start(pos) as u64;
    if c.writes.contains_key(b) && c.writes[b].known[pos - b] {
        c.writes[b].data[pos - b]
    } else {
        flat(s, pos)
    }
}

/// A read, right after a write of the same range, returns what was written,
/// whatever the store holds.
pub proof fn lemma_read_after_write(
    c: BlockCacheView,
    offset: int,
    data: Seq<u8>,
    start: int,
    store: Seq<u8>,
)
    requires
        c.wf(),
        0 <= offset,
        offset + data.len() + c.size <= u64::MAX,
    ensures
        c.write(offset, data).read_bytes(offset, data.len() as int, start, store) == data,
{
    let w = c.write(offset, data);
    let len = data.len() as int;
    let size = c.size as int;
    let got = w.read_bytes(offset, len, start, store);
    assert forall|i: int| 0 <= i < len implies got[i] == data[i] by {
        let pos = offset + i;
        lemma_block_start(pos, size);
        let bi = c.block_start(pos);
        let b = bi as u64;
        assert(c.touches(bi, offset, len));
        assert(w.writes.contains_key(b));
        assert(w.writes[b] == c.written(b, offset, data));
        assert(c.fits(c.base(b)));
        let lo = c.lo(bi, offset);
        let hi = c.hi(bi, offset, len);
        assert(w.lo(bi, offset) == lo && w.hi(bi, offset, len) == hi);
        assert(w.serves(b, offset, len));
    }
    assert(got =~= data);
}

/// After a write, every byte of its range has to go to the store, with the
/// value written.
pub proof fn lemma_written_is_dirty(c: BlockCacheView, offset: int, data: Seq<u8>, i: int)
    requires
        c.wf(),
        0 <= offset,
        offset + data.len() + c.size <= u64::MAX,
        0 <= i < data.len(),
    ensures
        c.write(offset, data).dirty(offset + i),
        c.write(offset, data).dirty_byte(offset + i) == data[i],
{
    let w = c.write(offset, data);
    let len = data.len() as int;
    let size = c.size as int;
    let pos = offset + i;
    lemma_block_start(pos, size);
    let bi = c.block_start(pos);
    let b = bi as u64;
    assert(c.touches(bi, offset, len));
    assert(w.writes[b] == c.written(b, offset, data));
    assert(c.fits(c.base(b)));
}

/// Writes that ascend with gaps between them do not disturb one another:
/// the store holds each byte of each, and its old bytes elsewhere.
pub proof fn lemma_store_apply(s: Seq<u8>, ws: Seq<(u64, Seq<u8>)>)
    requires
        forall|k: int, l: int|
            0 <= k < l < ws.len() ==> (#[trigger] ws[k]).0 + ws[k].1.len() < (#[trigger] ws[l]).0,
    ensures
        store_apply(s, ws).len() >= s.len(),
        forall|k: int, j: int|
            0 <= k < ws.len() && 0 <= j < ws[k].1.len() ==> ws[k].0 + j < store_apply(s, ws).len()
                && store_apply(s, ws)[ws[k].0 + j] == #[trigger] ws[k].1[j],
        forall|pos: int|
            0 <= pos && !written_out(ws, pos) ==> #[trigger] flat(store_apply(s, ws), pos) == flat(
                s,
                pos,
            ),
    decreases ws.len(),
{
    if ws.len() > 0 {
        let head = ws.drop_last();
        let last = ws.last();
        let n = ws.len() as int;
        lemma_store_apply(s, head);
        let r0 = store_apply(s, head);
        let r = store_apply(s, ws);
        assert forall|k: int, j: int| 0 <= k < ws.len() && 0 <= j < ws[k].1.len() implies ws[k].0
            + j < r.len() && r[ws[k].0 + j] == #[trigger] ws[k].1[j] by {
            if k < n - 1 {
                assert(head[k] == ws[k]);
                assert(ws[k].0 + ws[k].1.len() < ws[n - 1].0);
                assert(r0[ws[k].0 + j] == head[k].1[j]);
            }
        }
        assert forall|pos: int| 0 <= pos && !written_out(ws, pos) implies #[trigger] flat(r, pos)
            == flat(s, pos) by {
            assert(!in_write(ws[n - 1], pos));
            if written_out(head, pos) {
                let k = choose|k: int| 0 <= k < head.len() && in_write(#[trigger] head[k], pos);
                assert(in_write(ws[k], pos));
            }
            assert(flat(r0, pos) == flat(s, pos));
        }
    }
}

/// The writes that a commit hands out bring every byte that has to go to
/// the store into it, and leave the other bytes of the store as they are.
pub proof fn lemma_commit_stores(c: BlockCacheView, ws: Seq<(u64, Seq<u8>)>, s: Seq<u8>)
    requires
        c.wf(),
        c.is_flush(ws),
    ensures
        forall|pos: int| #[trigger]
            c.dirty(pos) ==> pos < store_apply(s, ws).len() && store_apply(s, ws)[pos]
                == c.dirty_byte(pos),
        forall|pos: int|
            0 <= pos && !c.dirty(pos) ==> #[trigger] flat(store_apply(s, ws), pos) == flat(s, pos),
{
    lemma_store_apply(s, ws);
    let r = store_apply(s, ws);
    assert forall|pos: int| #[trigger] c.dirty(pos) implies pos < r.len() && r[pos]
        == c.dirty_byte(pos) by {
        assert(written_out(ws, pos));
        let k = choose|k: int| 0 <= k < ws.len() && in_write(#[trigger] ws[k], pos);
        let j = pos - ws[k].0;
        assert(c.byte_ok(ws[k], j));
        assert(r[ws[k].0 + j] == ws[k].1[j]);
    }
    assert forall|pos: int| 0 <= pos && !c.dirty(pos) implies #[trigger] flat(r, pos) == flat(
        s,
        pos,
    ) by {
        if written_out(ws, pos) {
            let k = choose|k: int| 0 <= k < ws.len() && in_write(#[trigger] ws[k], pos);
            assert(c.byte_ok(ws[k], pos - ws[k].0));
        }
    }
}

/// What a write has put into the cache is in the store after the commit:
/// the bytes of its range read back from the store as they were written.
pub proof fn lemma_write_reaches_store(
    c: BlockCacheView,
    offset: int,
    data: Seq<u8>,
    ws: Seq<(u64, Seq<u8>)>,
    s: Seq<u8>,
)
    requires
        c.wf(),
        0 <= offset,
        offset + data.len() + c.size <= u64::MAX,
        c.write(offset, data).wf(),
        c.write(offset, data).is_flush(ws),
    ensures
        offset + data.len() <= store_apply(s, ws).len() || data.len() == 0,
        store_apply(s, ws).subrange(offset, offset + data.len()) == data || data.len() == 0,
{
    let w = c.write(offset, data);
    lemma_commit_stores(w, ws, s);
    let r = store_apply(s, ws);
    if data.len() > 0 {
        assert forall|i: int| 0 <= i < data.len() implies offset + i < r.len() && r[offset + i]
            == data[i] by {
            lemma_written_is_dirty(c, offset, data, i);
            assert(w.dirty(offset + i));
        }
        let top = data.len() - 1;
        lemma_written_is_dirty(c, offset, data, top);
        assert(w.dirty(offset + top));
        assert(offset + top < r.len());
        assert(r.subrange(offset, offset + data.len()) =~= data);
    }
}

/// The bytes handed to a read, where the read takes what it wants from the
/// store `s`: where they start, and the bytes.
pub open spec fn fetched(s: Seq<u8>, want: Option<(u64, u64)>) -> (int, Seq<u8>) {
    match want {
        None => (0, Seq::empty()),
        Some((first, last)) => {
            let span = clipped(first, last, s.len() as u64);
            (span.0 as int, s.subrange(span.0 as int, span.0 + span.1))
        },
    }
}

/// A read from a cache that agrees with the store returns, for every range,
/// exactly as many bytes as were asked for, and each is the byte that one
/// flat store with the pending writes in it would give.
pub proof fn lemma_read_exact(
    c: BlockCacheView,
    s: Seq<u8>,
    offset: int,
    len: int,
    want: Option<(u64, u64)>,
)
    requires
        c.wf(),
        coherent(c, s),
        0 <= offset,
        0 <= len,
        offset + len + c.size <= u64::MAX,
        s.len() <= u64::MAX,
        c.is_wanted(offset, len, want),
    ensures
        c.read_bytes(offset, len, fetched(s, want).0, fetched(s, want).1).len() == len,
        forall|i: int|
            0 <= i < len ==> #[trigger] c.read_bytes(
                offset,
                len,
                fetched(s, want).0,
                fetched(s, want).1,
            )[i] == logical(c, s, offset + i),
{
    let size = c.size as int;
    let start = fetched(s, want).0;
    let data = fetched(s, want).1;
    let got = c.read_bytes(offset, len, start, data);
    assert forall|i: int| 0 <= i < len implies #[trigger] got[i] == logical(c, s, offset + i) by {
        let pos = offset + i;
        lemma_block_start(pos, size);
        let bi = c.block_start(pos);
        let b = bi as u64;
        let r = pos - bi;
        assert(c.touches(bi, offset, len));
        let part = store_part(size, bi, start, data);
        if !c.serves(b, offset, len) {
            lemma_part(c, s, offset, len, want, b);
        }
        if c.writes.contains_key(b) {
            assert(c.fits(c.writes[b]));
            if c.serves(b, offset, len) {
                if c.writes[b].missing != 0 {
                    assert(c.lo(bi, offset) <= pos < c.hi(bi, offset, len));
                    assert(c.writes[b].known[r]);
                }
            }
        } else if c.reads.map.contains_key(b) {
            assert(c.reads.map[b].data[r] == flat(s, b + r));
        } else {
            assert(BlockView::loaded(c.padded(part)).data[r] == c.padded(part)[r]);
        }
    }
}


/// For a block that a read needs from the store, the bytes handed to the
/// read are the store's bytes of that block, as far as the store goes.
pub proof fn lemma_part(
    c: BlockCacheView,
    s: Seq<u8>,
    offset: int,
    len: int,
    want: Option<(u64, u64)>,
    b: u64,
)
    requires
        c.size > 0,
        s.len() <= u64::MAX,
        c.is_wanted(offset, len, want),
        c.touches(b as int, offset, len),
        !c.serves(b, offset, len),
    ensures
        ({
            let part = store_part(c.size as int, b as int, fetched(s, want).0, fetched(s, want).1);
            &&& part.len() <= c.size
            &&& forall|x: int|
                0 <= x < c.size ==> (if x < part.len() {
                    part[x]
                } else {
                    0u8
                }) == #[trigger] flat(s, b + x)
        }),
{
    let size = c.size as int;
    let first = want->Some_0.0;
    let last = want->Some_0.1;
    assert(first <= b && b + size <= last);
    let part = store_part(size, b as int, fetched(s, want).0, fetched(s, want).1);
    assert forall|x: int| 0 <= x < size implies (if x < part.len() {
        part[x]
    } else {
        0u8
    }) == #[trigger] flat(s, b + x) by {}
}

/// A pending block is settled with the store `s`: it counts its missing
/// bytes exactly and holds zeros where it is not marked, or it holds the
/// store's bytes where it is not marked.
pub open spec fn settled(c: BlockCacheView, s: Seq<u8>, k: u64) -> bool {
    ||| (c.writes[k].exact() && forall|r: int|
        0 <= r < c.size && !c.writes[k].known[r] ==> #[trigger] c.writes[k].data[r] == 0u8)
    ||| (forall|r: int|
        0 <= r < c.size && !c.writes[k].known[r] ==> #[trigger] c.writes[k].data[r] == flat(
            s,
            k + r,
        ))
}

/// The cache is in step with the store `s`: every block that was read holds
/// the store's bytes, and every pending block is settled.
pub open spec fn in_step(c: BlockCacheView, s: Seq<u8>) -> bool {
    &&& forall|k: u64, r: int|
        c.reads.map.contains_key(k) && 0 <= r < c.size ==> #[trigger] c.reads.map[k].data[r]
            == flat(s, k + r)
    &&& forall|k: u64| #[trigger] c.writes.contains_key(k) ==> settled(c, s, k)
}

/// A cache in step with the store agrees with it.
pub proof fn lemma_in_step_coherent(c: BlockCacheView, s: Seq<u8>)
    requires
        c.wf(),
        in_step(c, s),
    ensures
        coherent(c, s),
{
    assert forall|k: u64, r: int|
        c.writes.contains_key(k) && 0 <= r < c.size && !c.writes[k].known[r] && (
        c.writes[k].missing == 0 || k + r >= s.len()) implies #[trigger] c.writes[k].data[r]
        == flat(s, k + r) by {
        assert(settled(c, s, k));
        assert(c.fits(c.writes[k]));
        if c.writes[k].exact() {
            lemma_unknown_bounds(c.writes[k], 0, c.size as int);
        }
    }
}

/// The empty cache is in step with every store.
pub proof fn lemma_empty_in_step(size: nat, limit: nat, s: Seq<u8>)
    ensures
        in_step(BlockCacheView::empty(size, limit), s),
{
}

/// A write keeps the cache in step with the store.
pub proof fn lemma_write_in_step(c: BlockCacheView, s: Seq<u8>, offset: int, data: Seq<u8>)
    requires
        c.wf(),
        in_step(c, s),
        0 <= offset,
        offset + data.len() + c.size <= u64::MAX,
    ensures
        in_step(c.write(offset, data), s),
{
    let w = c.write(offset, data);
    let len = data.len() as int;
    let size = c.size as int;
    assert forall|k: u64| #[trigger] w.writes.contains_key(k) implies settled(w, s, k) by {
        if c.touches(k as int, offset, len) {
            let base = c.base(k);
            let lo = c.lo(k as int, offset);
            let hi = c.hi(k as int, offset, len);
            let sub = data.subrange(lo - offset, hi - offset);
            assert(w.writes[k] == base.write(lo - k, sub));
            lemma_fresh_exact(c.size);
            assert(c.fits(base));
            if c.writes.contains_key(k) {
                assert(settled(c, s, k));
                if c.writes[k].exact() {
                    lemma_write_exact(base, lo - k, sub);
                }
            } else if c.reads.map.contains_key(k) {
                assert forall|r: int| 0 <= r < size && !w.writes[k].known[r] implies #[trigger] w.writes[k].data[r]
                    == flat(s, k + r) by {
                    assert(c.reads.map[k].data[r] == flat(s, k + r));
                }
            } else {
                lemma_write_exact(base, lo - k, sub);
            }
        } else {
            assert(w.writes[k] == c.writes[k]);
            assert(settled(c, s, k));
        }
    }
    assert forall|k: u64, r: int|
        w.reads.map.contains_key(k) && 0 <= r < w.size implies #[trigger] w.reads.map[k].data[r]
        == flat(s, k + r) by {
        assert(c.reads.map[k].data[r] == flat(s, k + r));
    }
}

/// Looking blocks up changes no block.
pub proof fn lemma_touch_map(c: BlockCacheView, r: CacheView<BlockView>, b: int, end: int)
    ensures
        c.touch_from(r, b, end).map == r.map,
        c.touch_from(r, b, end).limit == r.limit,
    decreases
            if end > b {
                end - b
            } else {
                0
            },
{
    if !(b >= end || c.size == 0) {
        lemma_touch_map(c, r.touch(b as u64), b + c.size, end);
    }
}

/// Each block read after the blocks that a read fetched came in is one that
/// was there before, or one of the blocks fetched: the store's bytes of a
/// block of the range that was neither pending nor read.
pub open spec fn read_or_fetched(
    c: BlockCacheView,
    m: Map<u64, BlockView>,
    offset: int,
    len: int,
    start: int,
    data: Seq<u8>,
) -> bool {
    forall|k: u64| #[trigger]
        m.contains_key(k) ==> (c.reads.map.contains_key(k) && m[k] == c.reads.map[k]) || (
        c.touches(k as int, offset, len) && !c.writes.contains_key(k)
            && !c.reads.map.contains_key(k) && m[k] == BlockView::loaded(
            c.padded(store_part(c.size as int, k as int, start, data)),
        ))
}

/// Fetching blocks brings in blocks of the range only.
pub proof fn lemma_fill_map(
    c: BlockCacheView,
    r: CacheView<BlockView>,
    b: int,
    offset: int,
    len: int,
    start: int,
    data: Seq<u8>,
)
    requires
        c.size > 0,
        0 <= offset,
        offset + len + c.size <= u64::MAX,
        b % (c.size as int) == 0,
        c.block_start(offset) <= b,
        len > 0 || b >= offset + len,
        read_or_fetched(c, r.map, offset, len, start, data),
    ensures
        read_or_fetched(
            c,
            c.fill_from(r, b, offset + len, start, data).map,
            offset,
            len,
            start,
            data,
        ),
    decreases
            if offset + len > b {
                offset + len - b
            } else {
                0
            },
{
    let end = offset + len;
    let size = c.size as int;
    if !(b >= end) {
        lemma_block_start(offset, size);
        vstd::arithmetic::div_mod::lemma_mod_adds(b, size, size);
        if c.writes.contains_key(b as u64) || c.reads.map.contains_key(b as u64) {
            lemma_fill_map(c, r, b + size, offset, len, start, data);
        } else {
            let v = BlockView::loaded(c.padded(store_part(size, b, start, data)));
            let r2 = r.put(b as u64, v);
            assert(c.touches(b, offset, len));
            assert forall|k: u64| #[trigger] r2.map.contains_key(k) implies (
            c.reads.map.contains_key(k) && r2.map[k] == c.reads.map[k]) || (c.touches(
                k as int,
                offset,
                len,
            ) && !c.writes.contains_key(k) && !c.reads.map.contains_key(k) && r2.map[k]
                == BlockView::loaded(c.padded(store_part(size, k as int, start, data)))) by {
                if k != b as u64 {
                    assert(r.map.contains_key(k));
                    assert(r2.map[k] == r.map[k]);
                }
            }
            lemma_fill_map(c, r2, b + size, offset, len, start, data);
        }
    }
}

/// A read that takes what it wants from the store keeps the cache in step
/// with the store.
pub proof fn lemma_read_in_step(
    c: BlockCacheView,
    s: Seq<u8>,
    offset: int,
    len: int,
    want: Option<(u64, u64)>,
)
    requires
        c.wf(),
        in_step(c, s),
        0 <= offset,
        0 <= len,
        offset + len + c.size <= u64::MAX,
        s.len() <= u64::MAX,
        c.is_wanted(offset, len, want),
    ensures
        in_step(c.read(offset, len, fetched(s, want).0, fetched(s, want).1), s),
{
    let start = fetched(s, want).0;
    let data = fetched(s, want).1;
    let rd = c.read(offset, len, start, data);
    let size = c.size as int;
    let first = c.first_block(offset, len);
    let end = offset + len;
    let touched = c.touch_from(c.reads, first, end);
    lemma_touch_map(c, c.reads, first, end);
    lemma_block_start(offset, size);
    if len == 0 {
        vstd::arithmetic::div_mod::lemma_fundamental_div_mod(first, size);
    }
    assert(read_or_fetched(c, touched.map, offset, len, start, data));
    if len > 0 {
        lemma_fill_map(c, touched, first, offset, len, start, data);
    }
    assert forall|k: u64, r: int|
        rd.reads.map.contains_key(k) && 0 <= r < rd.size implies #[trigger] rd.reads.map[k].data[r]
        == flat(s, k + r) by {
        if c.reads.map.contains_key(k) && rd.reads.map[k] == c.reads.map[k] {
            assert(c.reads.map[k].data[r] == flat(s, k + r));
        } else {
            lemma_part(c, s, offset, len, want, k);
            assert(flat(s, k + r) == flat(s, k + r));
        }
    }
    assert forall|k: u64| #[trigger] rd.writes.contains_key(k) implies settled(rd, s, k) by {
        assert(settled(c, s, k));
        assert(c.fits(c.writes[k]));
        if c.touches(k as int, offset, len) && !c.serves(k, offset, len) {
            lemma_part(c, s, offset, len, want, k);
            let part = store_part(size, k as int, start, data);
            let m = c.writes[k].merge(part);
            assert(rd.writes[k] == m);
            assert forall|r: int| 0 <= r < size && !m.known[r] implies #[trigger] m.data[r]
                == flat(s, k + r) by {
                assert(flat(s, k + r) == flat(s, k + r));
                if r >= part.len() && c.writes[k].exact() {
                    assert(c.writes[k].data[r] == 0u8 || c.writes[k].data[r] == flat(s, k + r));
                }
            }
        } else {
            assert(rd.writes[k] == c.writes[k]);
        }
    }
}


/// Each block read after pending blocks were put among the blocks read is
/// one that was read before, or one of the pending blocks.
pub open spec fn read_or_pending(c: BlockCacheView, m: Map<u64, BlockView>) -> bool {
    forall|k: u64| #[trigger]
        m.contains_key(k) ==> (c.reads.map.contains_key(k) && m[k] == c.reads.map[k]) || (
        c.writes.contains_key(k) && m[k] == c.writes[k])
}

/// Putting pending blocks among the blocks read brings in pending blocks
/// only.
pub proof fn lemma_put_all_map(c: BlockCacheView, r: CacheView<BlockView>, keys: Seq<u64>, i: int)
    requires
        0 <= i,
        read_or_pending(c, r.map),
        forall|x: int| 0 <= x < keys.len() ==> c.writes.contains_key(#[trigger] keys[x]),
    ensures
        read_or_pending(c, c.put_all(r, keys, i).map),
    decreases keys.len() - i,
{
    if i < keys.len() {
        let r2 = r.put(keys[i], c.writes[keys[i]]);
        assert forall|k: u64| #[trigger] r2.map.contains_key(k) implies (
        c.reads.map.contains_key(k) && r2.map[k] == c.reads.map[k]) || (c.writes.contains_key(k)
            && r2.map[k] == c.writes[k]) by {
            if k != keys[i] {
                assert(r.map.contains_key(k));
                assert(r2.map[k] == r.map[k]);
            }
        }
        lemma_put_all_map(c, r2, keys, i + 1);
    }
}

/// A commit keeps the cache in step with the store, where every pending
/// block holds the store's bytes wherever it is not marked: `after` is the
/// cache after the commit, and the store has taken the writes.
pub proof fn lemma_commit_in_step(
    c: BlockCacheView,
    s: Seq<u8>,
    ws: Seq<(u64, Seq<u8>)>,
    keys: Seq<u64>,
    after: BlockCacheView,
)
    requires
        c.wf(),
        in_step(c, s),
        forall|k: u64, r: int|
            c.writes.contains_key(k) && 0 <= r < c.size && !c.writes[k].known[r]
                ==> #[trigger] c.writes[k].data[r] == flat(s, k + r),
        c.is_flush(ws),
        c.pending_keys(keys),
        after.size == c.size,
        after.writes == Map::<u64, BlockView>::empty(),
        after.reads == c.put_all(c.reads, keys, 0),
    ensures
        in_step(after, store_apply(s, ws)),
{
    let size = c.size as int;
    let s2 = store_apply(s, ws);
    lemma_commit_stores(c, ws, s);
    assert forall|x: int| 0 <= x < keys.len() implies c.writes.contains_key(
        #[trigger] keys[x],
    ) by {
        assert(keys.contains(keys[x]));
    }
    lemma_put_all_map(c, c.reads, keys, 0);
    assert forall|k: u64, r: int|
        after.reads.map.contains_key(k) && 0 <= r < after.size implies #[trigger] after.reads.map[k].data[r]
        == flat(s2, k + r) by {
        let pos = k + r;
        if c.reads.map.contains_key(k) && after.reads.map[k] == c.reads.map[k] {
            lemma_block_of(pos, k as int, size);
            assert(!c.dirty(pos));
            assert(flat(s2, pos) == flat(s, pos));
            assert(c.reads.map[k].data[r] == flat(s, k + r));
        } else {
            lemma_block_of(pos, k as int, size);
            assert(c.fits(c.writes[k]));
            if c.dirty(pos) {
                assert(s2[pos] == c.dirty_byte(pos));
            } else {
                assert(flat(s2, pos) == flat(s, pos));
                assert(c.writes[k].data[r] == flat(s, k + r));
            }
        }
    }
}

} // verus!
