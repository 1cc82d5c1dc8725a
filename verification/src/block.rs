use vstd::prelude::*;
use vstd::slice::slice_subrange;

verus! {

/// A fixed-size byte buffer together with one bit per byte that records which
/// bytes hold a known value, and a count of the bytes still unknown.
#[derive(Debug)]
pub struct Block {
    pub data: Vec<u8>,
    pub mask: Vec<u8>,
    pub missing: usize,
}

/// The mathematical content of a [`Block`]: its bytes, one flag per mask bit
/// (bit `i` of the mask is flag `i`), and the count of missing bytes.
pub struct BlockView {
    pub data: Seq<u8>,
    pub known: Seq<bool>,
    pub missing: nat,
}

/// Bit `s` of the byte `b`, counted from the least significant bit.
pub open spec fn bit_of(b: u8, s: u8) -> bool {
    (b >> s) & 1u8 == 1u8
}

/// Bit `i` of a mask, eight bits to a byte, least significant bit first.
pub open spec fn mask_bit(mask: Seq<u8>, i: int) -> bool {
    bit_of(mask[i / 8], (i % 8) as u8)
}

/// `a - b`, or zero where `b` is the larger.
pub open spec fn sat_sub(a: nat, b: nat) -> nat {
    if a >= b {
        (a - b) as nat
    } else {
        0
    }
}

/// Whether byte index `i` lies inside the span `sp`, given as its start and
/// its bytes.
pub open spec fn in_span(sp: (int, Seq<u8>), i: int) -> bool {
    sp.0 <= i < sp.0 + sp.1.len()
}

/// Whether some span of `s` holds byte index `i`.
pub open spec fn covered(s: Seq<(int, Seq<u8>)>, i: int) -> bool {
    exists|k: int| 0 <= k < s.len() && in_span(#[trigger] s[k], i)
}

/// The spans that [`Block::writes`] returns, as starts and byte sequences.
pub open spec fn span_views(s: Seq<(usize, &[u8])>) -> Seq<(int, Seq<u8>)> {
    Seq::new(s.len(), |k: int| (s[k].0 as int, s[k].1@))
}

impl View for Block {
    type V = BlockView;

    open spec fn view(&self) -> BlockView {
        BlockView {
            data: self.data@,
            known: Seq::new((8 * self.mask@.len()) as nat, |i: int| mask_bit(self.mask@, i)),
            missing: self.missing as nat,
        }
    }
}

impl BlockView {
    /// The mask has exactly the bytes that the data needs.
    pub open spec fn wf(self) -> bool {
        self.known.len() == 8 * ((self.data.len() + 7) / 8)
    }

    /// An empty block of `size` bytes: nothing known, everything missing.
    pub open spec fn fresh(size: nat) -> BlockView {
        BlockView {
            data: Seq::new(size, |i: int| 0u8),
            known: Seq::new((8 * ((size + 7) / 8)) as nat, |i: int| false),
            missing: size,
        }
    }

    /// A block that wraps bytes already read: no bit set, nothing missing.
    pub open spec fn loaded(data: Seq<u8>) -> BlockView {
        BlockView {
            data,
            known: Seq::new((8 * ((data.len() + 7) / 8)) as nat, |i: int| false),
            missing: 0,
        }
    }

    /// How many bytes of `[lo, hi)` are not marked as known.
    pub open spec fn unknown_in(self, lo: int, hi: int) -> nat
        decreases hi - lo,
    {
        if hi <= lo {
            0
        } else {
            self.unknown_in(lo, hi - 1) + if self.known[hi - 1] {
                0nat
            } else {
                1nat
            }
        }
    }

    /// The missing count is exactly the number of unmarked bytes.
    pub open spec fn exact(self) -> bool {
        self.missing == self.unknown_in(0, self.data.len() as int)
    }

    /// The block after `bytes` were written at `offset`.
    pub open spec fn write(self, offset: int, bytes: Seq<u8>) -> BlockView {
        BlockView {
            data: Seq::new(
                self.data.len(),
                |i: int|
                    if offset <= i < offset + bytes.len() {
                        bytes[i - offset]
                    } else {
                        self.data[i]
                    },
            ),
            known: Seq::new(
                self.known.len(),
                |i: int| self.known[i] || offset <= i < offset + bytes.len(),
            ),
            missing: sat_sub(self.missing, self.unknown_in(offset, offset + bytes.len())),
        }
    }

    /// The block after its unmarked bytes below `bytes.len()` were filled
    /// from `bytes`. The marks stay as they were.
    pub open spec fn merge(self, bytes: Seq<u8>) -> BlockView {
        BlockView {
            data: Seq::new(
                self.data.len(),
                |i: int|
                    if i < bytes.len() && !self.known[i] {
                        bytes[i]
                    } else {
                        self.data[i]
                    },
            ),
            known: self.known,
            missing: sat_sub(self.missing, self.unknown_in(0, bytes.len() as int)),
        }
    }

    /// Whether the bytes of `[i, j)` can be read from the block.
    pub open spec fn have_all(self, i: int, j: int) -> bool {
        self.missing == 0 || forall|k: int| i <= k < j ==> self.known[k]
    }

    /// `[lo, hi)` is a non-empty range of marked bytes that cannot be
    /// extended on either side.
    pub open spec fn is_run(self, lo: int, hi: int) -> bool {
        &&& 0 <= lo < hi <= self.data.len()
        &&& forall|i: int| lo <= i < hi ==> self.known[i]
        &&& (lo == 0 || !self.known[lo - 1])
        &&& (hi == self.data.len() || !self.known[hi])
    }

    /// `s` is what must be written out for this block: the whole buffer
    /// where nothing is missing, else the maximal runs of marked bytes, in
    /// ascending order, each with the block's bytes, and every marked byte
    /// in one of them.
    pub open spec fn is_spans(self, s: Seq<(int, Seq<u8>)>) -> bool {
        if self.missing == 0 {
            s == seq![(0int, self.data)]
        } else {
            &&& forall|k: int|
                0 <= k < s.len() ==> {
                    &&& self.is_run((#[trigger] s[k]).0, s[k].0 + s[k].1.len())
                    &&& s[k].1 == self.data.subrange(s[k].0, s[k].0 + s[k].1.len())
                }
            &&& forall|k: int, l: int|
                0 <= k < l < s.len() ==> (#[trigger] s[k]).0 + s[k].1.len() < (#[trigger] s[l]).0
            &&& forall|i: int|
                0 <= i < self.data.len() && #[trigger] self.known[i] ==> covered(s, i)
        }
    }
}

proof fn lemma_or_bit(b: u8, s: u8, t: u8)
    requires
        s < 8,
        t < 8,
    ensures
        bit_of(b | (1u8 << s), t) == (bit_of(b, t) || s == t),
{
    assert(((b | (1u8 << s)) >> t) & 1u8 == 1u8 <==> ((b >> t) & 1u8 == 1u8 || s == t))
        by (bit_vector)
        requires
            s < 8,
            t < 8,
    ;
}

pub(crate) proof fn lemma_zero_bit(t: u8)
    requires
        t < 8,
    ensures
        !bit_of(0u8, t),
{
    assert((0u8 >> t) & 1u8 != 1u8) by (bit_vector)
        requires
            t < 8,
    ;
}

/// Counting the unmarked bytes of a range in two parts.
pub proof fn lemma_unknown_split(v: BlockView, lo: int, mid: int, hi: int)
    requires
        lo <= mid <= hi,
    ensures
        v.unknown_in(lo, hi) == v.unknown_in(lo, mid) + v.unknown_in(mid, hi),
    decreases hi - mid,
{
    if mid < hi {
        lemma_unknown_split(v, lo, mid, hi - 1);
    }
}

/// A range holds at most as many unmarked bytes as it has bytes, and none
/// where all its bytes are marked.
pub proof fn lemma_unknown_bounds(v: BlockView, lo: int, hi: int)
    requires
        lo <= hi,
    ensures
        v.unknown_in(lo, hi) <= hi - lo,
        (forall|i: int| lo <= i < hi ==> v.known[i]) ==> v.unknown_in(lo, hi) == 0,
        v.unknown_in(lo, hi) == 0 ==> (forall|i: int| lo <= i < hi ==> v.known[i]),
    decreases hi - lo,
{
    if lo < hi {
        lemma_unknown_bounds(v, lo, hi - 1);
    }
}

/// Two blocks whose marks agree on a range have the same count there.
pub proof fn lemma_unknown_same(v: BlockView, w: BlockView, lo: int, hi: int)
    requires
        forall|i: int| lo <= i < hi ==> v.known[i] == w.known[i],
    ensures
        v.unknown_in(lo, hi) == w.unknown_in(lo, hi),
    decreases hi - lo,
{
    if lo < hi {
        lemma_unknown_same(v, w, lo, hi - 1);
    }
}

/// The block that results from a sequence of writes, each given as its
/// offset and its bytes, applied in order.
pub open spec fn write_all(v: BlockView, ws: Seq<(int, Seq<u8>)>) -> BlockView
    decreases ws.len(),
{
    if ws.len() == 0 {
        v
    } else {
        write_all(v, ws.drop_last()).write(ws.last().0, ws.last().1)
    }
}

/// A write into a block whose missing count is exact leaves it exact.
pub proof fn lemma_write_exact(v: BlockView, offset: int, bytes: Seq<u8>)
    requires
        v.wf(),
        v.exact(),
        0 <= offset,
        offset + bytes.len() <= v.data.len(),
    ensures
        v.write(offset, bytes).exact(),
        v.write(offset, bytes).wf(),
{
    let w = v.write(offset, bytes);
    let size = v.data.len() as int;
    let end = offset + bytes.len();
    lemma_unknown_split(v, 0, offset, size);
    lemma_unknown_split(v, offset, end, size);
    lemma_unknown_split(w, 0, offset, size);
    lemma_unknown_split(w, offset, end, size);
    lemma_unknown_same(v, w, 0, offset);
    lemma_unknown_same(v, w, end, size);
    lemma_unknown_bounds(w, offset, end);
}

proof fn lemma_write_all(size: nat, ws: Seq<(int, Seq<u8>)>)
    requires
        forall|k: int|
            0 <= k < ws.len() ==> 0 <= (#[trigger] ws[k]).0 && ws[k].0 + ws[k].1.len() <= size,
    ensures
        write_all(BlockView::fresh(size), ws).wf(),
        write_all(BlockView::fresh(size), ws).exact(),
        write_all(BlockView::fresh(size), ws).data.len() == size,
        forall|i: int|
            0 <= i < size ==> (#[trigger] write_all(BlockView::fresh(size), ws).known[i] <==> covered(
                ws,
                i,
            )),
    decreases ws.len(),
{
    let f = BlockView::fresh(size);
    if ws.len() == 0 {
        lemma_unknown_bounds(f, 0, size as int);
        assert(f.unknown_in(0, size as int) == size) by {
            lemma_fresh_unknown(size, size as int);
        }
    } else {
        let head = ws.drop_last();
        let r = write_all(f, head);
        lemma_write_all(size, head);
        lemma_write_exact(r, ws.last().0, ws.last().1);
        let w = r.write(ws.last().0, ws.last().1);
        assert forall|i: int| 0 <= i < size implies (#[trigger] w.known[i] <==> covered(ws, i)) by {
            if covered(head, i) {
                let k = choose|k: int| 0 <= k < head.len() && in_span(head[k], i);
                assert(in_span(ws[k], i));
            }
            if in_span(ws.last(), i) {
                assert(in_span(ws[ws.len() - 1], i));
            }
            if covered(ws, i) {
                let k = choose|k: int| 0 <= k < ws.len() && in_span(ws[k], i);
                if k < head.len() {
                    assert(in_span(head[k], i));
                }
            }
        }
    }
}

/// An empty block counts its missing bytes exactly.
pub proof fn lemma_fresh_exact(size: nat)
    ensures
        BlockView::fresh(size).exact(),
        BlockView::fresh(size).wf(),
{
    lemma_fresh_unknown(size, size as int);
}

proof fn lemma_fresh_unknown(size: nat, hi: int)
    requires
        0 <= hi <= size,
    ensures
        BlockView::fresh(size).unknown_in(0, hi) == hi,
    decreases hi,
{
    if hi > 0 {
        lemma_fresh_unknown(size, hi - 1);
    }
}

/// Writes into an empty block converge: once they have covered every
/// byte, in whatever order and with whatever overlap, nothing is missing,
/// every byte is marked, and every range can be read.
pub proof fn lemma_writes_converge(size: nat, ws: Seq<(int, Seq<u8>)>)
    requires
        forall|k: int|
            0 <= k < ws.len() ==> 0 <= (#[trigger] ws[k]).0 && ws[k].0 + ws[k].1.len() <= size,
        forall|i: int| 0 <= i < size ==> covered(ws, i),
    ensures
        write_all(BlockView::fresh(size), ws).missing == 0,
        write_all(BlockView::fresh(size), ws).have_all(0, size as int),
        forall|i: int| 0 <= i < size ==> write_all(BlockView::fresh(size), ws).known[i],
{
    lemma_write_all(size, ws);
    let r = write_all(BlockView::fresh(size), ws);
    assert forall|i: int| 0 <= i < size implies r.known[i] by {
        assert(r.known[i] <==> covered(ws, i));
    }
    lemma_unknown_bounds(r, 0, size as int);
}

/// The spans of a block with bytes missing report each marked byte once,
/// with the value the block holds there, and no other byte.
pub proof fn lemma_spans_partition(v: BlockView, s: Seq<(int, Seq<u8>)>)
    requires
        v.missing != 0,
        v.is_spans(s),
    ensures
        forall|i: int| 0 <= i < v.data.len() ==> (#[trigger] v.known[i] <==> covered(s, i)),
        forall|k: int, l: int, i: int|
            0 <= k < s.len() && 0 <= l < s.len() && #[trigger] in_span(s[k], i)
                && #[trigger] in_span(s[l], i) ==> k == l,
        forall|k: int, j: int|
            0 <= k < s.len() && 0 <= j < (#[trigger] s[k]).1.len() ==> 0 <= s[k].0 + j
                < v.data.len() && #[trigger] s[k].1[j] == v.data[s[k].0 + j],
{
    assert forall|i: int| 0 <= i < v.data.len() && covered(s, i) implies #[trigger] v.known[i] by {
        let k = choose|k: int| 0 <= k < s.len() && in_span(s[k], i);
        assert(v.is_run(s[k].0, s[k].0 + s[k].1.len()));
    }
    assert forall|k: int, l: int, i: int|
        0 <= k < s.len() && 0 <= l < s.len() && #[trigger] in_span(s[k], i)
            && #[trigger] in_span(s[l], i) implies k == l by {
        if k < l {
            assert(s[k].0 + s[k].1.len() < s[l].0);
        }
        if l < k {
            assert(s[l].0 + s[l].1.len() < s[k].0);
        }
    }
    assert forall|k: int, j: int| 0 <= k < s.len() && 0 <= j < (#[trigger] s[k]).1.len() implies 0
        <= s[k].0 + j < v.data.len() && #[trigger] s[k].1[j] == v.data[s[k].0 + j] by {
        assert(v.is_run(s[k].0, s[k].0 + s[k].1.len()));
        assert(s[k].1 == v.data.subrange(s[k].0, s[k].0 + s[k].1.len()));
    }
}

/// A span of one list of spans of a block is a span of every other.
proof fn lemma_span_found(v: BlockView, s: Seq<(int, Seq<u8>)>, t: Seq<(int, Seq<u8>)>, k: int) -> (l:
    int)
    requires
        v.missing != 0,
        v.is_spans(s),
        v.is_spans(t),
        0 <= k < s.len(),
    ensures
        0 <= l < t.len(),
        t[l] == s[k],
{
    let lo = s[k].0;
    let hi = s[k].0 + s[k].1.len();
    assert(v.is_run(lo, hi));
    assert(v.known[lo]);
    assert(covered(t, lo));
    let l = choose|l: int| 0 <= l < t.len() && in_span(#[trigger] t[l], lo);
    let lo2 = t[l].0;
    let hi2 = t[l].0 + t[l].1.len();
    assert(v.is_run(lo2, hi2));
    if lo2 < lo {
        assert(v.known[lo - 1]);
    }
    if hi2 < hi {
        assert(v.known[hi2]);
    }
    if hi < hi2 {
        assert(v.known[hi]);
    }
    assert(t[l].1 == v.data.subrange(lo2, hi2));
    assert(s[k].1 == v.data.subrange(lo, hi));
    l
}

/// Two lists of spans of a block agree span by span.
proof fn lemma_span_same(v: BlockView, s: Seq<(int, Seq<u8>)>, t: Seq<(int, Seq<u8>)>, k: int)
    requires
        v.missing != 0,
        v.is_spans(s),
        v.is_spans(t),
        0 <= k < s.len(),
    ensures
        k < t.len(),
        s[k] == t[k],
    decreases k,
{
    let l = lemma_span_found(v, s, t, k);
    assert(v.is_run(s[k].0, s[k].0 + s[k].1.len()));
    if l < k {
        lemma_span_same(v, s, t, l);
        assert(s[l].0 + s[l].1.len() < s[k].0);
        assert(v.is_run(s[l].0, s[l].0 + s[l].1.len()));
    } else if l > k {
        let m = lemma_span_found(v, t, s, k);
        assert(v.is_run(t[k].0, t[k].0 + t[k].1.len()));
        assert(t[k].0 + t[k].1.len() < t[l].0);
        if m < k {
            lemma_span_same(v, s, t, m);
        } else if m > k {
            assert(s[k].0 + s[k].1.len() < s[m].0);
        }
    }
}

/// What has to be written out for a block is one list of spans and no
/// other: the maximal runs of marked bytes are what they are.
pub proof fn lemma_spans_unique(v: BlockView, s: Seq<(int, Seq<u8>)>, t: Seq<(int, Seq<u8>)>)
    requires
        v.is_spans(s),
        v.is_spans(t),
    ensures
        s == t,
{
    if v.missing != 0 {
        assert forall|k: int| 0 <= k < s.len() implies k < t.len() && s[k] == t[k] by {
            lemma_span_same(v, s, t, k);
        }
        if s.len() > 0 {
            lemma_span_same(v, s, t, s.len() - 1);
        }
        if t.len() > 0 {
            lemma_span_same(v, t, s, t.len() - 1);
        }
        assert(s =~= t);
    }
}

/// Whether bit `i` of the mask is set.
pub(crate) fn mask_get(mask: &Vec<u8>, i: usize) -> (r: bool)
    requires
        i < 8 * mask@.len(),
    ensures
        r == mask_bit(mask@, i as int),
{
    let s: u8 = (i % 8) as u8;
    let b: u8 = mask[i / 8];
    (b >> s) & 1u8 == 1u8
}

/// Sets bit `i` of the mask.
pub(crate) fn mask_set(mask: &mut Vec<u8>, i: usize)
    requires
        i < 8 * old(mask)@.len(),
    ensures
        final(mask)@.len() == old(mask)@.len(),
        forall|j: int|
            0 <= j < 8 * old(mask)@.len() ==> #[trigger] mask_bit(final(mask)@, j) == (mask_bit(
                old(mask)@,
                j,
            ) || j == i),
{
    let s: u8 = (i % 8) as u8;
    let idx: usize = i / 8;
    let b: u8 = mask[idx];
    let nb: u8 = b | (1u8 << s);
    let ghost before = mask@;
    mask.set(idx, nb);
    proof {
        assert forall|j: int| 0 <= j < 8 * before.len() implies #[trigger] mask_bit(mask@, j) == (
        mask_bit(before, j) || j == i) by {
            let t = (j % 8) as u8;
            if j / 8 == idx as int {
                lemma_or_bit(b, s, t);
            }
        }
    }
}

proof fn lemma_clear_bit(b: u8, s: u8, t: u8)
    requires
        s < 8,
        t < 8,
    ensures
        bit_of(b & !(1u8 << s), t) == (bit_of(b, t) && s != t),
{
    assert(((b & !(1u8 << s)) >> t) & 1u8 == 1u8 <==> ((b >> t) & 1u8 == 1u8 && s != t))
        by (bit_vector)
        requires
            s < 8,
            t < 8,
    ;
}

/// Clears bit `i` of the mask.
pub(crate) fn mask_clear(mask: &mut Vec<u8>, i: usize)
    requires
        i < 8 * old(mask)@.len(),
    ensures
        final(mask)@.len() == old(mask)@.len(),
        forall|j: int|
            0 <= j < 8 * old(mask)@.len() ==> #[trigger] mask_bit(final(mask)@, j) == (mask_bit(
                old(mask)@,
                j,
            ) && j != i),
{
    let s: u8 = (i % 8) as u8;
    let idx: usize = i / 8;
    let b: u8 = mask[idx];
    let nb: u8 = b & !(1u8 << s);
    let ghost before = mask@;
    mask.set(idx, nb);
    proof {
        assert forall|j: int| 0 <= j < 8 * before.len() implies #[trigger] mask_bit(mask@, j) == (
        mask_bit(before, j) && j != i) by {
            let t = (j % 8) as u8;
            if j / 8 == idx as int {
                lemma_clear_bit(b, s, t);
            }
        }
    }
}

/// `n` zero bytes.
pub(crate) fn zeros(n: usize) -> (v: Vec<u8>)
    ensures
        v@.len() == n,
        forall|i: int| 0 <= i < n ==> v@[i] == 0u8,
{
    let mut v: Vec<u8> = Vec::new();
    let mut k: usize = 0;
    while k < n
        invariant
            k <= n,
            v@.len() == k,
            forall|i: int| 0 <= i < k ==> v@[i] == 0u8,
        decreases n - k,
    {
        v.push(0u8);
        k = k + 1;
    }
    v
}

impl Clone for Block {
    fn clone(&self) -> (b: Self)
        ensures
            b@ == self@,
            b.data@ == self.data@,
            b.mask@ == self.mask@,
    {
        let data = self.data.clone();
        let mask = self.mask.clone();
        proof {
            assert(data@ =~= self.data@);
            assert(mask@ =~= self.mask@);
        }
        Block { data, mask, missing: self.missing }
    }
}

impl Block {
    /// An empty block of `size` bytes, all of them missing.
    pub fn new(size: usize) -> (b: Block)
        ensures
            b@ == BlockView::fresh(size as nat),
            b@.wf(),
    {
        let extra: usize = if size % 8 == 0 {
            0
        } else {
            1
        };
        let n: usize = size / 8 + extra;
        let b = Block { data: zeros(size), mask: zeros(n), missing: size };
        proof {
            assert(n == (size + 7) / 8);
            assert forall|i: int| 0 <= i < 8 * n implies !mask_bit(b.mask@, i) by {
                lemma_zero_bit((i % 8) as u8);
            }
            assert(b@.data =~= BlockView::fresh(size as nat).data);
            assert(b@.known =~= BlockView::fresh(size as nat).known);
        }
        b
    }

    /// Wraps bytes that were read as a whole: no bit is set and nothing is
    /// missing, so the block counts as fully known.
    pub fn from_data(data: Vec<u8>) -> (b: Block)
        ensures
            b@ == BlockView::loaded(data@),
            b@.wf(),
    {
        let size: usize = data.len();
        let extra: usize = if size % 8 == 0 {
            0
        } else {
            1
        };
        let n: usize = size / 8 + extra;
        let ghost bytes = data@;
        let b = Block { data, mask: zeros(n), missing: 0 };
        proof {
            assert(n == (size + 7) / 8);
            assert forall|i: int| 0 <= i < 8 * n implies !mask_bit(b.mask@, i) by {
                lemma_zero_bit((i % 8) as u8);
            }
            assert(b@.known =~= BlockView::loaded(bytes).known);
        }
        b
    }

    /// Copies `data` into the block at `offset` and marks those bytes. Each
    /// byte that was not marked before lowers the missing count by one, as
    /// long as the count is above zero.
    pub fn write(&mut self, offset: usize, data: &[u8])
        requires
            old(self)@.wf(),
            offset + data@.len() <= old(self).data@.len(),
        ensures
            final(self)@ == old(self)@.write(offset as int, data@),
            final(self)@.wf(),
    {
        let ghost v0 = self@;
        let n: usize = data.len();
        let size: usize = self.data.len();
        let mut k: usize = 0;
        while k < n
            invariant
                k <= n,
                n == data@.len(),
                offset + n <= v0.data.len(),
                v0.data.len() == size,
                v0.wf(),
                v0.known.len() == 8 * self.mask@.len(),
                self.data@.len() == v0.data.len(),
                forall|i: int|
                    0 <= i < v0.data.len() ==> #[trigger] self.data@[i] == if offset <= i < offset
                        + k {
                        data@[i - offset]
                    } else {
                        v0.data[i]
                    },
                forall|i: int|
                    0 <= i < v0.known.len() ==> #[trigger] mask_bit(self.mask@, i) == (v0.known[i]
                        || offset <= i < offset + k),
                self.missing as nat == sat_sub(v0.missing, v0.unknown_in(offset as int, offset + k)),
            decreases n - k,
        {
            let i: usize = offset + k;
            let m: bool = mask_get(&self.mask, i);
            if !m && self.missing > 0 {
                self.missing = self.missing - 1;
            }
            mask_set(&mut self.mask, i);
            self.data.set(i, data[k]);
            k = k + 1;
        }
        proof {
            let w = v0.write(offset as int, data@);
            assert(self@.data =~= w.data);
            assert(self@.known =~= w.known);
        }
    }

    /// Fills the unmarked bytes below `data.len()` from `data`. Each byte
    /// filled lowers the missing count by one, as long as the count is above
    /// zero. Marked bytes keep their value, and no mark changes.
    pub fn merge(&mut self, data: &[u8])
        requires
            old(self)@.wf(),
            data@.len() <= old(self).data@.len(),
        ensures
            final(self)@ == old(self)@.merge(data@),
            final(self).mask@ == old(self).mask@,
            final(self)@.wf(),
    {
        let ghost v0 = self@;
        let n: usize = data.len();
        let mut k: usize = 0;
        while k < n
            invariant
                k <= n,
                n == data@.len(),
                n <= v0.data.len(),
                v0.wf(),
                v0 == old(self)@,
                self.mask@ == old(self).mask@,
                self.data@.len() == v0.data.len(),
                forall|i: int|
                    0 <= i < v0.data.len() ==> #[trigger] self.data@[i] == if i < k
                        && !v0.known[i] {
                        data@[i]
                    } else {
                        v0.data[i]
                    },
                self.missing as nat == sat_sub(v0.missing, v0.unknown_in(0, k as int)),
            decreases n - k,
        {
            let m: bool = mask_get(&self.mask, k);
            if !m {
                self.data.set(k, data[k]);
                if self.missing > 0 {
                    self.missing = self.missing - 1;
                }
            }
            k = k + 1;
        }
        proof {
            assert(self@.data =~= v0.merge(data@).data);
        }
    }

    /// Whether every byte of `[i, j)` can be read from the block: nothing is
    /// missing, or each of them is marked.
    pub fn have_all(&self, i: usize, j: usize) -> (r: bool)
        requires
            self.missing != 0 && i < j ==> j <= self@.known.len(),
        ensures
            r == self@.have_all(i as int, j as int),
    {
        if self.missing == 0 {
            return true;
        }
        let mut k: usize = i;
        while k < j
            invariant
                self.missing != 0,
                i <= k,
                i < j ==> k <= j && j <= 8 * self.mask@.len(),
                forall|t: int| i <= t < k ==> self@.known[t],
            decreases j - k,
        {
            if !mask_get(&self.mask, k) {
                assert(!self@.known[k as int]);
                return false;
            }
            k = k + 1;
        }
        true
    }

    /// What has to be written out for this block: the whole buffer at 0
    /// where nothing is missing, else each maximal run of marked bytes with
    /// its start, in ascending order.
    pub fn writes(&self) -> (r: Vec<(usize, &[u8])>)
        requires
            self@.wf(),
        ensures
            self@.is_spans(span_views(r@)),
    {
        let mut result: Vec<(usize, &[u8])> = Vec::new();
        if self.missing == 0 {
            result.push((0usize, self.data.as_slice()));
            proof {
                assert(span_views(result@) =~= seq![(0int, self.data@)]);
            }
            return result;
        }
        let ghost v = self@;
        let n: usize = self.data.len();
        let mut offset: usize = 0;
        let mut prev: bool = false;
        let mut i: usize = 0;
        while i < n
            invariant
                i <= n,
                n == self.data@.len(),
                v == self@,
                v.wf(),
                forall|k: int|
                    0 <= k < result@.len() ==> {
                        let sp = #[trigger] span_views(result@)[k];
                        &&& v.is_run(sp.0, sp.0 + sp.1.len())
                        &&& sp.1 == v.data.subrange(sp.0, sp.0 + sp.1.len())
                        &&& sp.0 + sp.1.len() < i
                        &&& (prev ==> sp.0 + sp.1.len() < offset)
                    },
                forall|k: int, l: int|
                    0 <= k < l < result@.len() ==> (#[trigger] span_views(result@)[k]).0
                        + span_views(result@)[k].1.len() < (#[trigger] span_views(result@)[l]).0,
                prev ==> offset < i && (offset == 0 || !v.known[offset - 1]) && forall|t: int|
                    offset <= t < i ==> v.known[t],
                !prev ==> i == 0 || !v.known[i - 1],
                forall|t: int|
                    0 <= t < i && #[trigger] v.known[t] ==> covered(span_views(result@), t) || (
                    prev && offset <= t),
            decreases n - i,
        {
            let m: bool = mask_get(&self.mask, i);
            let ghost before = span_views(result@);
            if m && !prev {
                offset = i;
            } else if !m && prev {
                let sl: &[u8] = slice_subrange(self.data.as_slice(), offset, i);
                result.push((offset, sl));
                proof {
                    let after = span_views(result@);
                    assert(after =~= before.push((offset as int, sl@)));
                    assert forall|t: int| 0 <= t < i + 1 && #[trigger] v.known[t] implies covered(
                        after,
                        t,
                    ) by {
                        if covered(before, t) {
                            let k = choose|k: int| 0 <= k < before.len() && in_span(before[k], t);
                            assert(in_span(after[k], t));
                        } else {
                            assert(in_span(after[before.len() as int], t));
                        }
                    }
                }
            }
            prev = m;
            i = i + 1;
        }
        if prev {
            let ghost before = span_views(result@);
            let sl: &[u8] = slice_subrange(self.data.as_slice(), offset, n);
            result.push((offset, sl));
            proof {
                let after = span_views(result@);
                assert(after =~= before.push((offset as int, sl@)));
                assert forall|t: int| 0 <= t < n && #[trigger] v.known[t] implies covered(
                    after,
                    t,
                ) by {
                    if covered(before, t) {
                        let k = choose|k: int| 0 <= k < before.len() && in_span(before[k], t);
                        assert(in_span(after[k], t));
                    } else {
                        assert(in_span(after[before.len() as int], t));
                    }
                }
            }
        }
        result
    }
}

} // verus!
