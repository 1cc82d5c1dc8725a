use crate::block::lemma_zero_bit;
use crate::block::mask_bit;
use crate::block::mask_get;
use crate::block::mask_set;
use crate::block::zeros;
use vstd::prelude::*;

verus! {

/// Why an operation on the data store failed.
#[derive(Debug, Clone, Copy, PartialEq, Eq, Structural)]
pub enum DataError {
    /// More rows than a block may hold.
    Capacity { rows: usize, max: usize },
    /// No bounds could be computed for the rows of the block at `offset`.
    Invalid { offset: u64 },
    /// A deletion reaches past the block, its bitfield or the store: `len`
    /// bytes of header were needed, `limit` were there.
    OutOfRange { block: u64, len: u64, limit: u64 },
    /// The rows do not fit the lengths that the block format can state.
    TooLarge,
    /// The bytes at `at` are not what the format asks for.
    Corrupt { at: usize },
}

/// The two bytes of `x`, the high byte first.
pub open spec fn be16(x: nat) -> Seq<u8> {
    seq![(x / 256 % 256) as u8, (x % 256) as u8]
}

/// The four bytes of `x`, the highest byte first.
pub open spec fn be32(x: nat) -> Seq<u8> {
    seq![
        (x / 16777216 % 256) as u8,
        (x / 65536 % 256) as u8,
        (x / 256 % 256) as u8,
        (x % 256) as u8,
    ]
}

/// The number that two bytes stand for, the high byte first.
pub open spec fn from_be16(b: Seq<u8>) -> nat {
    (b[0] * 256 + b[1]) as nat
}

/// The number that four bytes stand for, the highest byte first.
pub open spec fn from_be32(b: Seq<u8>) -> nat {
    (b[0] * 16777216 + b[1] * 65536 + b[2] * 256 + b[3]) as nat
}

/// Reading back what was written gives the number again.
pub proof fn lemma_be_round_trip(x: nat)
    ensures
        x < 65536 ==> from_be16(be16(x)) == x,
        x < 4294967296 ==> from_be32(be32(x)) == x,
{
}

/// The number of bitfield bytes for `n` rows.
pub open spec fn bitfield_len(n: nat) -> nat {
    (n + 7) / 8
}

/// The bytes of the rows, one row after the other.
pub open spec fn concat(rows: Seq<Seq<u8>>) -> Seq<u8>
    decreases rows.len(),
{
    if rows.len() == 0 {
        Seq::empty()
    } else {
        concat(rows.drop_last()) + rows.last()
    }
}

/// The rows as byte sequences.
pub open spec fn row_views(rows: Seq<Vec<u8>>) -> Seq<Seq<u8>> {
    Seq::new(rows.len(), |i: int| rows[i]@)
}

/// Whether the rows fit the lengths that the block format can state: the
/// length of the bitfield in two bytes, that of the block in four.
pub open spec fn fits_format(rows: Seq<Seq<u8>>) -> bool {
    bitfield_len(rows.len()) <= 65535 && 6 + bitfield_len(rows.len()) + concat(rows).len()
        <= 4294967295
}

/// `block` is the data block of `rows`, of which those flagged in `live`
/// are alive: the length of the block, the length of the bitfield, the
/// bitfield with bit `i` set where row `i` is alive, and the rows.
pub open spec fn is_block(block: Seq<u8>, rows: Seq<Seq<u8>>, live: Seq<bool>) -> bool {
    let bf = bitfield_len(rows.len()) as int;
    &&& live.len() == rows.len()
    &&& block.len() == 6 + bf + concat(rows).len()
    &&& block.subrange(0, 4) == be32(block.len())
    &&& block.subrange(4, 6) == be16(bf as nat)
    &&& forall|i: int|
        0 <= i < 8 * bf ==> #[trigger] mask_bit(block.subrange(6, 6 + bf), i) == (i < rows.len()
            && live[i])
    &&& block.subrange(6 + bf, block.len() as int) == concat(rows)
}

/// `n` flags, all set.
pub open spec fn all_live(n: nat) -> Seq<bool> {
    Seq::new(n, |i: int| true)
}

/// Writes `x` into `data[at]` and `data[at + 1]`, the high byte first.
pub(crate) fn put_be16(data: &mut Vec<u8>, at: usize, x: u16)
    requires
        at + 2 <= old(data)@.len(),
    ensures
        final(data)@.len() == old(data)@.len(),
        final(data)@.subrange(at as int, at + 2) == be16(x as nat),
        forall|i: int|
            0 <= i < old(data)@.len() && !(at <= i < at + 2) ==> #[trigger] final(data)@[i] == old(
                data,
            )@[i],
{
    let n: usize = data.len();
    data.set(at, (x / 256) as u8);
    data.set(at + 1, (x % 256) as u8);
    proof {
        assert(data@.subrange(at as int, at + 2) =~= be16(x as nat));
    }
}

/// Writes `x` into the four bytes from `data[at]` on, the highest first.
pub(crate) fn put_be32(data: &mut Vec<u8>, at: usize, x: u32)
    requires
        at + 4 <= old(data)@.len(),
    ensures
        final(data)@.len() == old(data)@.len(),
        final(data)@.subrange(at as int, at + 4) == be32(x as nat),
        forall|i: int|
            0 <= i < old(data)@.len() && !(at <= i < at + 4) ==> #[trigger] final(data)@[i] == old(
                data,
            )@[i],
{
    let n: usize = data.len();
    data.set(at, (x / 16777216) as u8);
    data.set(at + 1, (x / 65536 % 256) as u8);
    data.set(at + 2, (x / 256 % 256) as u8);
    data.set(at + 3, (x % 256) as u8);
    proof {
        assert(data@.subrange(at as int, at + 4) =~= be32(x as nat));
    }
}

/// The number in `data[at]` and `data[at + 1]`, the high byte first.
pub(crate) fn get_be16(data: &[u8], at: usize) -> (x: u16)
    requires
        at + 2 <= data@.len(),
    ensures
        x == from_be16(data@.subrange(at as int, at + 2)),
{
    (data[at] as u16) * 256 + data[at + 1] as u16
}

/// The number in the four bytes from `data[at]` on, the highest first.
pub(crate) fn get_be32(data: &[u8], at: usize) -> (x: u32)
    requires
        at + 4 <= data@.len(),
    ensures
        x == from_be32(data@.subrange(at as int, at + 4)),
{
    (data[at] as u32) * 16777216 + (data[at + 1] as u32) * 65536 + (data[at + 2] as u32) * 256
        + data[at + 3] as u32
}

/// The length of the rows together, or nothing where it is above `limit`.
fn total_len(rows: &Vec<Vec<u8>>, limit: usize) -> (r: Option<usize>)
    ensures
        match r {
            Some(n) => n == concat(row_views(rows@)).len() && n <= limit,
            None => concat(row_views(rows@)).len() > limit,
        },
{
    let ghost rv = row_views(rows@);
    let mut total: usize = 0;
    let mut i: usize = 0;
    proof {
        assert(rv.subrange(0, 0) =~= Seq::<Seq<u8>>::empty());
    }
    while i < rows.len()
        invariant
            i <= rows@.len(),
            rv == row_views(rows@),
            total == concat(rv.subrange(0, i as int)).len(),
            total <= limit,
        decreases rows@.len() - i,
    {
        let n: usize = rows[i].len();
        proof {
            assert(rv.subrange(0, i + 1).drop_last() =~= rv.subrange(0, i as int));
            assert(rv.subrange(0, i + 1).last() == rows@[i as int]@);
            lemma_concat_grows(rv, i + 1, rv.len() as int);
        }
        if n > limit - total {
            proof {
                assert(rv.subrange(0, rv.len() as int) =~= rv);
            }
            return None;
        }
        total = total + n;
        i = i + 1;
    }
    proof {
        assert(rv.subrange(0, i as int) =~= rv);
    }
    Some(total)
}

/// A longer list of rows has at least as many bytes.
pub proof fn lemma_concat_grows(rows: Seq<Seq<u8>>, i: int, j: int)
    requires
        0 <= i <= j <= rows.len(),
    ensures
        concat(rows.subrange(0, i)).len() <= concat(rows.subrange(0, j)).len(),
    decreases j - i,
{
    if i < j {
        lemma_concat_grows(rows, i, j - 1);
        assert(rows.subrange(0, j).drop_last() =~= rows.subrange(0, j - 1));
    }
}

/// The data block for `rows`, each given as the bytes of a point followed by
/// the bytes of its value: every row alive. Fails where the rows do not fit
/// the lengths that the format can state.
pub fn encode_block(rows: &Vec<Vec<u8>>) -> (r: Result<Vec<u8>, DataError>)
    ensures
        match r {
            Ok(b) => fits_format(row_views(rows@)) && is_block(
                b@,
                row_views(rows@),
                all_live(rows@.len()),
            ),
            Err(e) => !fits_format(row_views(rows@)) && e == DataError::TooLarge,
        },
{
    let ghost rv = row_views(rows@);
    let n: usize = rows.len();
    let extra: usize = if n % 8 == 0 {
        0
    } else {
        1
    };
    let bf: usize = n / 8 + extra;
    assert(bf == bitfield_len(n as nat));
    if bf > 65535 {
        return Err(DataError::TooLarge);
    }
    let head: usize = 6 + bf;
    let total: usize = match total_len(rows, 4294967295 - head) {
        Some(t) => t,
        None => {
            return Err(DataError::TooLarge);
        },
    };
    let mut data: Vec<u8> = zeros(head);
    put_be32(&mut data, 0, (head + total) as u32);
    let ghost first = data@;
    put_be16(&mut data, 4, bf as u16);
    let ghost fixed = data@;
    proof {
        assert(fixed.subrange(0, 4) =~= first.subrange(0, 4));
        lemma_concat_grows(rv, 0, rv.len() as int);
        assert(rv.subrange(0, rv.len() as int) =~= rv);
    }
    let mut bits: Vec<u8> = zeros(bf);
    proof {
        assert forall|j: int| 0 <= j < 8 * bf implies !mask_bit(bits@, j) by {
            lemma_zero_bit((j % 8) as u8);
        }
    }
    let mut i: usize = 0;
    while i < n
        invariant
            i <= n,
            bf == bitfield_len(n as nat),
            bits@.len() == bf,
            forall|j: int| 0 <= j < 8 * bf ==> #[trigger] mask_bit(bits@, j) == (j < i),
        decreases n - i,
    {
        mask_set(&mut bits, i);
        i = i + 1;
    }
    let mut k: usize = 0;
    while k < bf
        invariant
            k <= bf,
            bits@.len() == bf,
            data@.len() == head,
            fixed.len() == head,
            head == 6 + bf,
            forall|j: int| 0 <= j < 6 ==> data@[j] == fixed[j],
            forall|j: int| 0 <= j < k ==> data@[6 + j] == bits@[j],
        decreases bf - k,
    {
        data.set(6 + k, bits[k]);
        k = k + 1;
    }
    let ghost header = data@;
    let mut r: usize = 0;
    proof {
        assert(rv.subrange(0, 0) =~= Seq::<Seq<u8>>::empty());
        assert(data@ =~= header + concat(rv.subrange(0, 0)));
    }
    while r < n
        invariant
            r <= n,
            n == rows@.len(),
            rv == row_views(rows@),
            data@ == header + concat(rv.subrange(0, r as int)),
        decreases n - r,
    {
        let row: &Vec<u8> = &rows[r];
        let mut j: usize = 0;
        let ghost before = data@;
        while j < row.len()
            invariant
                j <= row@.len(),
                data@ == before + row@.subrange(0, j as int),
            decreases row@.len() - j,
        {
            data.push(row[j]);
            proof {
                assert(data@ =~= before + row@.subrange(0, j + 1));
            }
            j = j + 1;
        }
        proof {
            assert(row@.subrange(0, row@.len() as int) =~= row@);
            assert(rv.subrange(0, r + 1).drop_last() =~= rv.subrange(0, r as int));
            assert(rv.subrange(0, r + 1).last() == row@);
            assert(data@ =~= header + concat(rv.subrange(0, r + 1)));
        }
        r = r + 1;
    }
    proof {
        assert(rv.subrange(0, n as int) =~= rv);
        let b = data@;
        assert(header.len() == head);
        assert(b.len() == head + total);
        assert(i == n && k == bf);
        assert(b.subrange(0, 4) =~= fixed.subrange(0, 4));
        assert(b.subrange(4, 6) =~= fixed.subrange(4, 6));
        assert(b.subrange(6, 6 + bf) =~= bits@);
        assert(b.subrange(6 + bf, b.len() as int) =~= concat(rv));
    }
    Ok(data)
}


/// Where a live row lies in the bytes of a block: its number among the rows
/// of the block, where its point starts, where its value starts, and where
/// the row ends.
#[derive(Debug, Clone, Copy, PartialEq, Eq, Structural)]
pub struct RowSpan {
    pub index: usize,
    pub start: usize,
    pub split: usize,
    pub end: usize,
}

/// A walk over the rows of a block, given as the bytes that follow the
/// block's length: where the next row starts, its number, and the length of
/// the bitfield.
#[derive(Debug, Clone, Copy, PartialEq, Eq, Structural)]
pub struct RowScan {
    pub offset: usize,
    pub index: usize,
    pub bitfield_len: usize,
}

impl RowScan {
    /// The walk at the first row, or nothing where the bytes are too few
    /// for the bitfield that they announce.
    pub open spec fn scan_start(buf: Seq<u8>) -> Option<RowScan> {
        if buf.len() >= 2 && 2 + from_be16(buf.subrange(0, 2)) <= buf.len() && buf.len()
            <= usize::MAX {
            Some(
                RowScan {
                    offset: (2 + from_be16(buf.subrange(0, 2))) as usize,
                    index: 0,
                    bitfield_len: from_be16(buf.subrange(0, 2)) as usize,
                },
            )
        } else {
            None
        }
    }

    /// Whether the next row can be taken: it is not empty, it ends within
    /// the bytes, and the bitfield has a bit for it.
    pub open spec fn can_step(self, buf: Seq<u8>, psize: nat, vsize: nat) -> bool {
        &&& psize + vsize > 0
        &&& self.offset + psize + vsize <= buf.len()
        &&& 2 + self.bitfield_len <= buf.len()
        &&& self.index < 8 * self.bitfield_len
        &&& self.index < usize::MAX
    }

    /// The walk after a row of `psize` bytes of point and `vsize` bytes of
    /// value.
    pub open spec fn next(self, psize: nat, vsize: nat) -> RowScan {
        RowScan {
            offset: (self.offset + psize + vsize) as usize,
            index: (self.index + 1) as usize,
            bitfield_len: self.bitfield_len,
        }
    }

    /// Where the row at hand lies, where the bitfield says that it is alive.
    pub open spec fn found(self, buf: Seq<u8>, psize: nat, vsize: nat) -> Option<RowSpan> {
        if mask_bit(buf.subrange(2, 2 + self.bitfield_len), self.index as int) {
            Some(
                RowSpan {
                    index: self.index,
                    start: self.offset,
                    split: (self.offset + psize) as usize,
                    end: (self.offset + psize + vsize) as usize,
                },
            )
        } else {
            None
        }
    }

    /// Starts a walk over the rows of a block.
    pub fn parse(buf: &[u8]) -> (r: Result<RowScan, DataError>)
        ensures
            match r {
                Ok(scan) => RowScan::scan_start(buf@) == Some(scan),
                Err(e) => RowScan::scan_start(buf@).is_none() && e == (DataError::Corrupt {
                    at: 0,
                }),
            },
    {
        if buf.len() < 2 {
            return Err(DataError::Corrupt { at: 0 });
        }
        let bf: usize = get_be16(buf, 0) as usize;
        if bf > buf.len() - 2 {
            return Err(DataError::Corrupt { at: 0 });
        }
        Ok(RowScan { offset: 2 + bf, index: 0, bitfield_len: bf })
    }

    /// Whether the walk has passed the last row.
    pub fn is_done(&self, buf: &[u8]) -> (r: bool)
        ensures
            r == (self.offset >= buf@.len()),
    {
        self.offset >= buf.len()
    }

    /// Takes the next row, of which the point has `psize` bytes and the
    /// value `vsize`, and says where it lies if it is alive. Fails, and
    /// stays where it is, where the row cannot be taken.
    pub fn step(&mut self, buf: &[u8], psize: usize, vsize: usize) -> (r: Result<
        Option<RowSpan>,
        DataError,
    >)
        ensures
            match r {
                Ok(span) => old(self).can_step(buf@, psize as nat, vsize as nat) && *final(self)
                    == old(self).next(psize as nat, vsize as nat) && span == old(self).found(
                    buf@,
                    psize as nat,
                    vsize as nat,
                ),
                Err(e) => !old(self).can_step(buf@, psize as nat, vsize as nat) && *final(self)
                    == *old(self) && e == (DataError::Corrupt { at: old(self).offset }),
            },
    {
        let len: usize = buf.len();
        let bad = Err(DataError::Corrupt { at: self.offset });
        if psize == 0 && vsize == 0 {
            return bad;
        }
        if self.offset > len || psize > len - self.offset || vsize > len - self.offset - psize {
            return bad;
        }
        if len < 2 || self.bitfield_len > len - 2 {
            return bad;
        }
        if self.index / 8 >= self.bitfield_len || self.index == usize::MAX {
            return bad;
        }
        let live: bool = bit_at(buf, 2, self.bitfield_len, self.index);
        let span: Option<RowSpan> = if live {
            Some(
                RowSpan {
                    index: self.index,
                    start: self.offset,
                    split: self.offset + psize,
                    end: self.offset + psize + vsize,
                },
            )
        } else {
            None
        };
        self.offset = self.offset + psize + vsize;
        self.index = self.index + 1;
        Ok(span)
    }
}

/// Bit `i` of the `len` bytes of `buf` from `base` on.
fn bit_at(buf: &[u8], base: usize, len: usize, i: usize) -> (r: bool)
    requires
        base + len <= buf@.len(),
        i < 8 * len,
    ensures
        r == mask_bit(buf@.subrange(base as int, base + len), i as int),
{
    let n: usize = buf.len();
    let s: u8 = (i % 8) as u8;
    let b: u8 = buf[base + i / 8];
    (b >> s) & 1u8 == 1u8
}

/// The walk over the block of `rows` when it has come to row `i`.
pub open spec fn row_state(rows: Seq<Seq<u8>>, i: int) -> RowScan {
    RowScan {
        offset: (2 + bitfield_len(rows.len()) + concat(rows.subrange(0, i)).len()) as usize,
        index: i as usize,
        bitfield_len: bitfield_len(rows.len()) as usize,
    }
}

/// Where row `i` of `rows` lies in its block, for a point of `psize` bytes.
pub open spec fn row_span(rows: Seq<Seq<u8>>, i: int, psize: nat) -> RowSpan {
    RowSpan {
        index: i as usize,
        start: row_state(rows, i).offset,
        split: (row_state(rows, i).offset + psize) as usize,
        end: row_state(rows, i + 1).offset,
    }
}

/// The rows up to row `i` end where row `i` starts.
pub proof fn lemma_concat_step(rows: Seq<Seq<u8>>, i: int)
    requires
        0 <= i < rows.len(),
    ensures
        concat(rows.subrange(0, i + 1)) == concat(rows.subrange(0, i)) + rows[i],
        concat(rows.subrange(0, i + 1)).len() <= concat(rows).len(),
        concat(rows).subrange(
            concat(rows.subrange(0, i)).len() as int,
            concat(rows.subrange(0, i + 1)).len() as int,
        ) == rows[i],
{
    assert(rows.subrange(0, i + 1).drop_last() =~= rows.subrange(0, i));
    assert(rows.subrange(0, i + 1).last() == rows[i]);
    let a = concat(rows.subrange(0, i));
    let b = concat(rows.subrange(0, i + 1));
    assert(b == a + rows[i]);
    lemma_concat_prefix(rows, i + 1);
    let whole = concat(rows);
    let got = whole.subrange(a.len() as int, b.len() as int);
    assert forall|x: int| 0 <= x < rows[i].len() implies #[trigger] got[x] == rows[i][x] by {
        assert(whole.subrange(0, b.len() as int)[a.len() + x] == whole[a.len() + x]);
        assert(b[a.len() + x] == rows[i][x]);
    }
    assert(got =~= rows[i]);
}

/// The bytes of the rows up to row `i` are the first bytes of all the rows.
pub proof fn lemma_concat_prefix(rows: Seq<Seq<u8>>, i: int)
    requires
        0 <= i <= rows.len(),
    ensures
        concat(rows.subrange(0, i)).len() <= concat(rows).len(),
        concat(rows).subrange(0, concat(rows.subrange(0, i)).len() as int) == concat(
            rows.subrange(0, i),
        ),
    decreases rows.len() - i,
{
    if i < rows.len() {
        lemma_concat_prefix(rows, i + 1);
        assert(rows.subrange(0, i + 1).drop_last() =~= rows.subrange(0, i));
        let a = concat(rows.subrange(0, i));
        let b = concat(rows.subrange(0, i + 1));
        assert(b == a + rows.subrange(0, i + 1).last());
        assert(concat(rows).subrange(0, a.len() as int) =~= b.subrange(0, a.len() as int));
        assert(b.subrange(0, a.len() as int) =~= a);
    } else {
        assert(rows.subrange(0, i) =~= rows);
        assert(concat(rows).subrange(0, concat(rows).len() as int) =~= concat(rows));
    }
}

/// A walk over the block of `rows` comes to each row in turn: it starts at
/// row 0, goes from row `i` to row `i + 1`, reports row `i` with its number
/// and its bytes if and only if the row is alive, and is done after the last
/// row.
pub proof fn lemma_scan_rows(
    block: Seq<u8>,
    rows: Seq<Seq<u8>>,
    live: Seq<bool>,
    i: int,
    psize: nat,
    vsize: nat,
)
    requires
        is_block(block, rows, live),
        fits_format(rows),
        0 <= i < rows.len(),
        psize + vsize == rows[i].len(),
        rows[i].len() > 0,
    ensures
        ({
            let buf = block.subrange(4, block.len() as int);
            let at = row_state(rows, i);
            &&& RowScan::scan_start(buf) == Some(row_state(rows, 0))
            &&& at.can_step(buf, psize, vsize)
            &&& at.next(psize, vsize) == row_state(rows, i + 1)
            &&& at.found(buf, psize, vsize) == if live[i] {
                Some(row_span(rows, i, psize))
            } else {
                None
            }
            &&& buf.subrange(at.offset as int, at.next(psize, vsize).offset as int) == rows[i]
            &&& row_state(rows, rows.len() as int).offset == buf.len()
        }),
{
    let buf = block.subrange(4, block.len() as int);
    let bf = bitfield_len(rows.len()) as int;
    let at = row_state(rows, i);
    lemma_be_round_trip(bf as nat);
    assert(buf.subrange(0, 2) =~= block.subrange(4, 6));
    assert(rows.subrange(0, 0) =~= Seq::<Seq<u8>>::empty());
    assert(rows.subrange(0, rows.len() as int) =~= rows);
    lemma_concat_step(rows, i);
    lemma_concat_prefix(rows, i);
    assert(buf.subrange(2, 2 + bf) =~= block.subrange(6, 6 + bf));
    assert(mask_bit(block.subrange(6, 6 + bf), i) == (i < rows.len() && live[i]));
    let a = concat(rows.subrange(0, i)).len() as int;
    let b = concat(rows.subrange(0, i + 1)).len() as int;
    assert(buf.subrange(2 + bf + a, 2 + bf + b) =~= concat(rows).subrange(a, b)) by {
        assert(block.subrange(6 + bf, block.len() as int) == concat(rows));
        let left = buf.subrange(2 + bf + a, 2 + bf + b);
        assert forall|x: int| 0 <= x < b - a implies #[trigger] left[x] == concat(rows)[a + x] by {
            assert(block.subrange(6 + bf, block.len() as int)[a + x] == block[6 + bf + a + x]);
        }
    }
}

/// Whether `j` is one of `indexes`.
pub open spec fn hits(indexes: Seq<usize>, j: int) -> bool {
    exists|x: int| 0 <= x < indexes.len() && #[trigger] indexes[x] == j
}

/// Clears, in the first bytes of a block, the bits of the rows `indexes`.
/// `header` holds the length of the block, the length of the bitfield and as
/// much of the bitfield as the highest of the rows needs. Fails, and leaves
/// the bytes as they are, where they hold no bit for one of the rows, or are
/// more than the bitfield or the block is said to have.
pub fn clear_bits(header: &mut Vec<u8>, indexes: &Vec<usize>, block: u64) -> (r: Result<
    (),
    DataError,
>)
    ensures
        final(header)@.len() == old(header)@.len(),
        r == clear_check(old(header)@, indexes@, block),
        r.is_err() ==> final(header)@ == old(header)@,
        r.is_ok() ==> final(header)@.subrange(0, 6) == old(header)@.subrange(0, 6) && forall|
            j: int,
        |
            0 <= j < 8 * (old(header)@.len() - 6) ==> #[trigger] mask_bit(
                final(header)@.subrange(6, old(header)@.len() as int),
                j,
            ) == (mask_bit(old(header)@.subrange(6, old(header)@.len() as int), j) && !hits(
                indexes@,
                j,
            )),
{
    let len: usize = header.len();
    if len < 7 {
        return Err(DataError::Corrupt { at: len });
    }
    let n: usize = indexes.len();
    let mut k: usize = 0;
    while k < n
        invariant
            k <= n,
            n == indexes@.len(),
            len == header@.len(),
            len >= 7,
            forall|x: int| 0 <= x < k ==> indexes@[x] < 8 * (len - 6),
        decreases n - k,
    {
        if indexes[k] / 8 >= len - 6 {
            return Err(DataError::Corrupt { at: len });
        }
        k = k + 1;
    }
    let size: u64 = get_be32(header.as_slice(), 0) as u64;
    let bf: u64 = get_be16(header.as_slice(), 4) as u64;
    if len as u64 > bf + 6 {
        return Err(DataError::OutOfRange { block, len: len as u64, limit: bf + 6 });
    }
    if len as u64 > size {
        return Err(DataError::OutOfRange { block, len: len as u64, limit: size });
    }
    let ghost before = header@;
    let mut bits: Vec<u8> = Vec::new();
    let mut c: usize = 6;
    while c < len
        invariant
            6 <= c <= len,
            len == header@.len(),
            bits@ == header@.subrange(6, c as int),
        decreases len - c,
    {
        bits.push(header[c]);
        proof {
            assert(bits@ =~= header@.subrange(6, c + 1));
        }
        c = c + 1;
    }
    let ghost bits0 = bits@;
    let mut k: usize = 0;
    while k < n
        invariant
            k <= n,
            n == indexes@.len(),
            bits@.len() == len - 6,
            len >= 7,
            forall|x: int| 0 <= x < n ==> indexes@[x] < 8 * (len - 6),
            forall|j: int|
                0 <= j < 8 * (len - 6) ==> #[trigger] mask_bit(bits@, j) == (mask_bit(bits0, j)
                    && !hits(indexes@.subrange(0, k as int), j)),
        decreases n - k,
    {
        let ghost prev = bits@;
        crate::block::mask_clear(&mut bits, indexes[k]);
        proof {
            let a = indexes@.subrange(0, k as int);
            let b = indexes@.subrange(0, k + 1);
            assert forall|j: int| 0 <= j < 8 * (len - 6) implies #[trigger] mask_bit(bits@, j) == (
            mask_bit(bits0, j) && !hits(b, j)) by {
                assert(mask_bit(bits@, j) == (mask_bit(prev, j) && j != indexes@[k as int]));
                if hits(a, j) {
                    let x = choose|x: int| 0 <= x < a.len() && a[x] == j;
                    assert(b[x] == j);
                }
                if hits(b, j) {
                    let x = choose|x: int| 0 <= x < b.len() && b[x] == j;
                    if x < k {
                        assert(a[x] == j);
                    }
                }
                if j == indexes@[k as int] {
                    assert(b[k as int] == j);
                }
            }
        }
        k = k + 1;
    }
    let mut c: usize = 6;
    while c < len
        invariant
            6 <= c <= len,
            len == header@.len(),
            bits@.len() == len - 6,
            before.len() == len,
            forall|x: int| 0 <= x < 6 ==> header@[x] == before[x],
            forall|x: int| 6 <= x < c ==> header@[x] == bits@[x - 6],
        decreases len - c,
    {
        header.set(c, bits[c - 6]);
        c = c + 1;
    }
    proof {
        assert(indexes@.subrange(0, n as int) =~= indexes@);
        assert(header@.subrange(6, len as int) =~= bits@);
        assert(header@.subrange(0, 6) =~= before.subrange(0, 6));
    }
    Ok(())
}

/// Whether the bits of the rows `indexes` can be cleared in the first bytes
/// of the block at `block`, and the error where they cannot.
pub open spec fn clear_check(header: Seq<u8>, indexes: Seq<usize>, block: u64) -> Result<
    (),
    DataError,
> {
    let len = header.len();
    if len < 7 || exists|x: int| 0 <= x < indexes.len() && #[trigger] indexes[x] / 8 >= len - 6 {
        Err(DataError::Corrupt { at: len as usize })
    } else if len > from_be16(header.subrange(4, 6)) + 6 {
        Err(
            DataError::OutOfRange {
                block,
                len: len as u64,
                limit: (from_be16(header.subrange(4, 6)) + 6) as u64,
            },
        )
    } else if len > from_be32(header.subrange(0, 4)) {
        Err(
            DataError::OutOfRange {
                block,
                len: len as u64,
                limit: from_be32(header.subrange(0, 4)) as u64,
            },
        )
    } else {
        Ok(())
    }
}


/// The rows that are alive after the rows `indexes` were deleted.
pub open spec fn live_after(live: Seq<bool>, indexes: Seq<usize>) -> Seq<bool> {
    Seq::new(live.len(), |i: int| live[i] && !hits(indexes, i))
}

/// Deleting rows shows in the block at once: with their bits cleared in its
/// first `len` bytes, the block is that of the same rows, of which those
/// deleted are dead and no other row has changed. Deleting them once more
/// changes nothing.
pub proof fn lemma_delete_in_block(
    block: Seq<u8>,
    rows: Seq<Seq<u8>>,
    live: Seq<bool>,
    cleared: Seq<u8>,
    indexes: Seq<usize>,
)
    requires
        is_block(block, rows, live),
        7 <= cleared.len() <= 6 + bitfield_len(rows.len()),
        forall|x: int| 0 <= x < indexes.len() ==> #[trigger] indexes[x] / 8 < cleared.len() - 6,
        cleared.subrange(0, 6) == block.subrange(0, 6),
        forall|j: int|
            0 <= j < 8 * (cleared.len() - 6) ==> #[trigger] mask_bit(
                cleared.subrange(6, cleared.len() as int),
                j,
            ) == (mask_bit(block.subrange(0, cleared.len() as int).subrange(6, cleared.len() as int), j)
                && !hits(indexes, j)),
    ensures
        is_block(
            cleared + block.subrange(cleared.len() as int, block.len() as int),
            rows,
            live_after(live, indexes),
        ),
        live_after(live_after(live, indexes), indexes) == live_after(live, indexes),
{
    let len = cleared.len() as int;
    let bf = bitfield_len(rows.len()) as int;
    let after = cleared + block.subrange(len, block.len() as int);
    let live2 = live_after(live, indexes);
    assert(after.len() == block.len());
    assert forall|x: int| 0 <= x < 6 implies after[x] == block[x] by {
        assert(after[x] == cleared[x]);
        assert(cleared.subrange(0, 6)[x] == cleared[x]);
        assert(block.subrange(0, 6)[x] == block[x]);
    }
    assert(after.subrange(0, 4) =~= block.subrange(0, 4));
    assert(after.subrange(4, 6) =~= block.subrange(4, 6));
    assert(after.subrange(6 + bf, after.len() as int) =~= block.subrange(
        6 + bf,
        block.len() as int,
    ));
    let new_bits = after.subrange(6, 6 + bf);
    let old_bits = block.subrange(6, 6 + bf);
    assert forall|i: int| 0 <= i < 8 * bf implies #[trigger] mask_bit(new_bits, i) == (i
        < rows.len() && live2[i]) by {
        assert(mask_bit(old_bits, i) == (i < rows.len() && live[i]));
        if i < 8 * (len - 6) {
            let c = cleared.subrange(6, len);
            let o = block.subrange(0, len).subrange(6, len);
            assert(mask_bit(c, i) == (mask_bit(o, i) && !hits(indexes, i)));
            assert(c[i / 8] == new_bits[i / 8]);
            assert(o[i / 8] == old_bits[i / 8]);
        } else {
            assert(new_bits[i / 8] == old_bits[i / 8]);
            if hits(indexes, i) {
                let x = choose|x: int| 0 <= x < indexes.len() && #[trigger] indexes[x] == i;
                assert(indexes[x] / 8 < len - 6);
            }
        }
    }
    assert(live_after(live2, indexes) =~= live2);
}

} // verus!
