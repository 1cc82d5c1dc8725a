use crate::format::from_be32;
use crate::format::get_be32;
use crate::format::DataError;
use vstd::prelude::*;

verus! {

/// The reading of one block from a store, piece by piece: where the block
/// starts, how long the store is, how many bytes are read at a time at
/// most, and the bytes of the block that were read so far.
#[derive(Debug)]
pub struct BlockRead {
    pub offset: u64,
    pub store_len: u64,
    pub chunk: u64,
    pub buf: Vec<u8>,
}

/// What a [`BlockRead`] holds.
pub struct BlockReadView {
    pub offset: nat,
    pub store_len: nat,
    pub chunk: nat,
    pub buf: Seq<u8>,
}

impl View for BlockRead {
    type V = BlockReadView;

    open spec fn view(&self) -> BlockReadView {
        BlockReadView {
            offset: self.offset as nat,
            store_len: self.store_len as nat,
            chunk: self.chunk as nat,
            buf: self.buf@,
        }
    }
}

/// The smallest of three numbers.
pub open spec fn least(a: int, b: int, c: int) -> int {
    if a <= b && a <= c {
        a
    } else if b <= c {
        b
    } else {
        c
    }
}

impl BlockReadView {
    /// Where the next piece starts in the store.
    pub open spec fn pos(self) -> int {
        (self.offset + self.buf.len()) as int
    }

    /// The length of the block, once its first four bytes were read.
    pub open spec fn total(self) -> nat {
        from_be32(self.buf.subrange(0, 4))
    }

    /// Whether the whole block was read.
    pub open spec fn complete(self) -> bool {
        self.buf.len() >= 4 && self.total() >= 4 && self.buf.len() >= self.total()
    }

    /// Whether the reading cannot go on: the block starts where the store
    /// has less than four bytes left, says that it has less than the four
    /// bytes of its length, or goes on where the store has ended.
    pub open spec fn stuck(self) -> bool {
        if self.buf.len() < 4 {
            self.buf.len() > 0 || self.chunk < 4 || self.offset + 4 > self.store_len
        } else {
            self.total() < 4 || (self.buf.len() < self.total() && (self.pos() >= self.store_len
                || self.chunk == 0))
        }
    }

    /// How many bytes the next piece has: as many as are read at a time,
    /// but no more than the store has left, nor, once the length is known,
    /// than the block has left.
    pub open spec fn piece(self) -> int {
        if self.buf.len() < 4 {
            least(self.chunk as int, self.store_len - self.pos(), self.store_len - self.pos())
        } else {
            least(self.chunk as int, self.store_len - self.pos(), self.total() - self.buf.len())
        }
    }

    /// The bytes of the block after its length, once the whole of it was
    /// read.
    pub open spec fn content(self) -> Seq<u8> {
        self.buf.subrange(4, self.total() as int)
    }
}

impl BlockRead {
    /// Starts to read the block at `offset` from a store of `store_len`
    /// bytes, at most `chunk` bytes at a time.
    pub fn new(offset: u64, store_len: u64, chunk: u64) -> (r: BlockRead)
        ensures
            r@ == (BlockReadView {
                offset: offset as nat,
                store_len: store_len as nat,
                chunk: chunk as nat,
                buf: Seq::empty(),
            }),
    {
        BlockRead { offset, store_len, chunk, buf: Vec::new() }
    }

    /// The piece of the store to read next, as its start and its length, or
    /// nothing where the whole block was read. Fails where the reading
    /// cannot go on.
    pub fn next(&self) -> (r: Result<Option<(u64, u64)>, DataError>)
        ensures
            match r {
                Ok(None) => self@.complete(),
                Ok(Some((at, n))) => !self@.complete() && !self@.stuck() && at == self@.pos() && n
                    == self@.piece() && n > 0 && at + n <= self@.store_len,
                Err(e) => !self@.complete() && self@.stuck() && e == (DataError::Corrupt {
                    at: self.buf@.len() as usize,
                }),
            },
    {
        let have: usize = self.buf.len();
        let bad = Err(DataError::Corrupt { at: have });
        if have < 4 {
            if have > 0 || self.chunk < 4 || self.offset > self.store_len || self.store_len
                - self.offset < 4 {
                return bad;
            }
            let left: u64 = self.store_len - self.offset;
            let n: u64 = if self.chunk < left {
                self.chunk
            } else {
                left
            };
            return Ok(Some((self.offset, n)));
        }
        let total: u64 = get_be32(self.buf.as_slice(), 0) as u64;
        if total < 4 {
            return bad;
        }
        if have as u64 >= total {
            return Ok(None);
        }
        if self.chunk == 0 || self.store_len < self.offset || self.store_len - self.offset
            <= have as u64 {
            return bad;
        }
        let at: u64 = self.offset + have as u64;
        let left: u64 = self.store_len - at;
        let rest: u64 = total - have as u64;
        let n: u64 = if self.chunk <= left && self.chunk <= rest {
            self.chunk
        } else if left <= rest {
            left
        } else {
            rest
        };
        Ok(Some((at, n)))
    }

    /// Takes the bytes that were read for the piece asked for. Fails, and
    /// takes nothing, where no piece was asked for or the bytes are not as
    /// many as the piece has.
    pub fn feed(&mut self, bytes: &[u8]) -> (r: Result<(), DataError>)
        ensures
            final(self).offset == old(self).offset,
            final(self).store_len == old(self).store_len,
            final(self).chunk == old(self).chunk,
            match r {
                Ok(_) => !old(self)@.complete() && !old(self)@.stuck() && bytes@.len() == old(
                    self,
                )@.piece() && final(self).buf@ == old(self).buf@ + bytes@,
                Err(e) => (old(self)@.complete() || old(self)@.stuck() || bytes@.len() != old(
                    self,
                )@.piece()) && final(self).buf@ == old(self).buf@ && e == (DataError::Corrupt {
                    at: old(self).buf@.len() as usize,
                }),
            },
    {
        let have: usize = self.buf.len();
        let asked: Result<Option<(u64, u64)>, DataError> = self.next();
        let n: u64 = match asked {
            Ok(Some((_at, n))) => n,
            _ => {
                return Err(DataError::Corrupt { at: have });
            },
        };
        if bytes.len() as u64 != n {
            return Err(DataError::Corrupt { at: have });
        }
        let ghost before = self.buf@;
        let m: usize = bytes.len();
        let mut k: usize = 0;
        while k < m
            invariant
                k <= m,
                m == bytes@.len(),
                self.offset == old(self).offset,
                self.store_len == old(self).store_len,
                self.chunk == old(self).chunk,
                self.buf@ == before + bytes@.subrange(0, k as int),
            decreases m - k,
        {
            self.buf.push(bytes[k]);
            proof {
                assert(self.buf@ =~= before + bytes@.subrange(0, k + 1));
            }
            k = k + 1;
        }
        proof {
            assert(bytes@.subrange(0, m as int) =~= bytes@);
        }
        Ok(())
    }

    /// The bytes of the block that follow its length. Fails where the block
    /// was not read to its end.
    pub fn finish(self) -> (r: Result<Vec<u8>, DataError>)
        ensures
            match r {
                Ok(bytes) => self@.complete() && bytes@ == self@.content(),
                Err(e) => !self@.complete() && e == (DataError::Corrupt {
                    at: self.buf@.len() as usize,
                }),
            },
    {
        let have: usize = self.buf.len();
        if have < 4 {
            return Err(DataError::Corrupt { at: have });
        }
        let total: u64 = get_be32(self.buf.as_slice(), 0) as u64;
        if total < 4 || (have as u64) < total {
            return Err(DataError::Corrupt { at: have });
        }
        let end: usize = total as usize;
        let mut out: Vec<u8> = Vec::new();
        let mut k: usize = 4;
        while k < end
            invariant
                4 <= k <= end,
                end <= self.buf@.len(),
                out@ == self.buf@.subrange(4, k as int),
            decreases end - k,
        {
            out.push(self.buf[k]);
            proof {
                assert(out@ =~= self.buf@.subrange(4, k + 1));
            }
            k = k + 1;
        }
        Ok(out)
    }
}

/// Reading a block that lies whole in the store goes on to its end: as long
/// as what was read are the store's bytes from the start of the block on,
/// and the block is not read to its end, the next piece is not empty and lies
/// in the store, and with the store's bytes for it more of the store was
/// read; once the block was read to its end, what comes out is the block
/// after its length.
pub proof fn lemma_read_goes_on(store: Seq<u8>, block: Seq<u8>, r: BlockReadView)
    requires
        block.len() >= 4,
        from_be32(block.subrange(0, 4)) == block.len(),
        r.chunk >= 4,
        r.store_len == store.len(),
        r.offset + block.len() <= store.len(),
        store.subrange(r.offset as int, (r.offset + block.len()) as int) == block,
        r.pos() <= store.len(),
        r.buf == store.subrange(r.offset as int, r.pos()),
        r.buf.len() == 0 || r.buf.len() >= 4,
    ensures
        !r.stuck(),
        r.complete() <==> r.buf.len() >= block.len(),
        r.complete() ==> r.content() == block.subrange(4, block.len() as int),
        !r.complete() ==> {
            &&& 0 < r.piece()
            &&& r.pos() + r.piece() <= store.len()
            &&& r.buf.len() + r.piece() >= 4
            &&& r.buf + store.subrange(r.pos(), r.pos() + r.piece()) == store.subrange(
                r.offset as int,
                r.pos() + r.piece(),
            )
        },
{
    let whole = store.subrange(r.offset as int, (r.offset + block.len()) as int);
    if r.buf.len() >= 4 {
        assert forall|x: int| 0 <= x < 4 implies r.buf[x] == block[x] by {
            assert(whole[x] == store[r.offset + x]);
        }
        assert(r.buf.subrange(0, 4) =~= block.subrange(0, 4));
    }
    if r.complete() {
        assert forall|x: int| 4 <= x < block.len() implies r.buf[x] == block[x] by {
            assert(whole[x] == store[r.offset + x]);
        }
        assert(r.content() =~= block.subrange(4, block.len() as int));
    } else {
        let n = r.piece();
        assert(r.buf + store.subrange(r.pos(), r.pos() + n) =~= store.subrange(
            r.offset as int,
            r.pos() + n,
        ));
    }
}

} // verus!
