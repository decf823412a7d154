//! The chunk store: a random-access array of fixed-width unsigned digits
//! ("chunks") over a flat byte image. Chunk `i` occupies the bytes
//! `[i * W, i * W + W)` of the image, least significant byte first. The image
//! need not be extended in advance: what lies behind its end reads as zero.

use crate::big::{big_from_bytes_le, big_lt, big_to_bytes_le, big_value};
use crate::error::ConfigError;
use crate::le_bytes::{
    le_value, lemma_le_value_bound, lemma_le_value_zero_extended, lemma_minimal_len,
};
use crate::radix::{
    lemma_radix_value_trailing_zeros, lemma_radix_value_update, npow, radix_value,
};
use crate::number::chunk_base;
use num_bigint::BigUint;
use vstd::prelude::*;
use vstd::slice::slice_subrange;

verus! {

/// A byte image that is read and written chunk by chunk.
pub struct ChunkStore {
    width: usize,
    data: Vec<u8>,
}

/// Chunks `i` and `j` of width `w` share no byte.
pub proof fn lemma_chunks_disjoint(i: int, j: int, w: int, k: int)
    requires
        i != j,
        0 <= k < w,
    ensures
        !(i * w <= j * w + k < i * w + w),
{
    if j < i {
        assert(j * w + w <= i * w) by (nonlinear_arith)
            requires
                j + 1 <= i,
                w > 0,
        ;
    } else {
        assert(i * w + w <= j * w) by (nonlinear_arith)
            requires
                i + 1 <= j,
                w > 0,
        ;
    }
}

/// The length of an image of `len` bytes after a write that ends with chunk
/// `chunks - 1`: the image is extended to the end of that chunk where it was
/// shorter.
pub open spec fn extended_len(len: nat, chunks: int, width: nat) -> int {
    if len < chunks * width {
        chunks * width
    } else {
        len as int
    }
}

/// A chunk width that the library works with: at least one byte, and with a
/// bit count that fits a machine word.
pub open spec fn valid_width(width: nat) -> bool {
    1 <= width && 8 * width <= usize::MAX
}

/// What `check_width` answers.
pub open spec fn check_width_spec(width: usize) -> Result<(), ConfigError> {
    if width == 0 {
        Err(ConfigError::ZeroChunkWidth)
    } else if 8 * width > usize::MAX {
        Err(ConfigError::TooLarge)
    } else {
        Ok(())
    }
}

/// Whether `width` is a chunk width that the library works with, and the
/// error that says why where it is not.
pub fn check_width(width: usize) -> (r: Result<(), ConfigError>)
    ensures
        r == check_width_spec(width),
        r is Ok <==> valid_width(width as nat),
{
    if width == 0 {
        Err(ConfigError::ZeroChunkWidth)
    } else if width > usize::MAX / 8 {
        Err(ConfigError::TooLarge)
    } else {
        Ok(())
    }
}

impl ChunkStore {
    /// The chunk width `W` in bytes.
    pub closed spec fn width(&self) -> nat {
        self.width as nat
    }

    /// The byte image.
    pub closed spec fn bytes(&self) -> Seq<u8> {
        self.data@
    }

    /// The store is usable: its chunks are at least one byte wide, and the
    /// number of bits in a chunk fits a machine word.
    pub open spec fn wf(&self) -> bool {
        valid_width(self.width())
    }

    /// The base `B = 256^W` of the chunked representation.
    pub open spec fn base(&self) -> nat {
        npow(256, self.width())
    }

    /// The byte at offset `k`; zero behind the end of the image.
    pub open spec fn byte_at(&self, k: int) -> u8 {
        if 0 <= k < self.bytes().len() {
            self.bytes()[k]
        } else {
            0
        }
    }

    /// The `W` bytes of chunk `i`.
    pub open spec fn chunk_bytes(&self, i: int) -> Seq<u8> {
        Seq::new(self.width(), |k: int| self.byte_at(i * self.width() + k))
    }

    /// The value of chunk `i`.
    pub open spec fn chunk(&self, i: int) -> nat {
        le_value(self.chunk_bytes(i))
    }

    /// The chunks `start, start + 1, .., start + size - 1`.
    pub open spec fn digits(&self, start: int, size: nat) -> Seq<nat> {
        Seq::new(size, |k: int| self.chunk(start + k))
    }

    /// The chunked integer of `size` chunks that begins at chunk `start`:
    /// the sum of `chunk(start + k) * B^k`.
    pub open spec fn number(&self, start: int, size: nat) -> nat {
        radix_value(self.digits(start, size), self.base())
    }

    /// `other` is this store after chunk `index` was set to `value` and
    /// nothing else changed: the image was extended to the end of the chunk
    /// where it was shorter.
    pub open spec fn written(&self, other: &ChunkStore, index: int, value: nat) -> bool {
        &&& other.width() == self.width()
        &&& forall|j: int|
            #[trigger] other.chunk(j) == if j == index {
                value
            } else {
                self.chunk(j)
            }
        &&& other.bytes().len() == extended_len(self.bytes().len(), index + 1, self.width())
    }

    /// Every chunk is a digit of base `B`.
    pub proof fn lemma_chunk_bound(&self, i: int)
        ensures
            self.chunk(i) < self.base(),
    {
        lemma_le_value_bound(self.chunk_bytes(i));
    }

    /// A number of `size` chunks is below `B^size`.
    pub proof fn lemma_number_bound(&self, start: int, size: nat)
        ensures
            self.number(start, size) < npow(self.base(), size),
    {
        let d = self.digits(start, size);
        assert forall|q: int| 0 <= q < d.len() implies d[q] < self.base() by {
            self.lemma_chunk_bound(start + q);
        }
        crate::radix::lemma_radix_value_bound(d, self.base());
    }

    /// Writing one chunk replaces one digit of every number that holds it.
    pub proof fn lemma_written_number(
        &self,
        other: &ChunkStore,
        index: int,
        value: nat,
        start: int,
        size: nat,
    )
        requires
            self.written(other, index, value),
        ensures
            start <= index < start + size ==> other.digits(start, size) == self.digits(
                start,
                size,
            ).update(index - start, value) && other.number(start, size) + self.chunk(index) * npow(
                self.base(),
                (index - start) as nat,
            ) == self.number(start, size) + value * npow(self.base(), (index - start) as nat),
            !(start <= index < start + size) ==> other.digits(start, size) == self.digits(
                start,
                size,
            ) && other.number(start, size) == self.number(start, size),
    {
        assert(other.base() == self.base());
        if start <= index < start + size {
            assert(other.digits(start, size) =~= self.digits(start, size).update(
                index - start,
                value,
            ));
            lemma_radix_value_update(self.digits(start, size), index - start, value, self.base());
        } else {
            assert(other.digits(start, size) =~= self.digits(start, size));
        }
    }

    /// Zero chunks at the upper end of a number do not count.
    pub proof fn lemma_number_trim(&self, start: int, size: nat, shorter: nat)
        requires
            shorter <= size,
            forall|j: int| start + shorter <= j < start + size ==> #[trigger] self.chunk(j) == 0,
        ensures
            self.number(start, size) == self.number(start, shorter),
    {
        let d = self.digits(start, size);
        lemma_radix_value_trailing_zeros(d, shorter as int, self.base());
        assert(d.take(shorter as int) =~= self.digits(start, shorter));
    }

    /// An empty store of chunks `width` bytes wide. A width that
    /// `check_width` refuses is refused with the same error.
    pub fn new(width: usize) -> (r: Result<ChunkStore, ConfigError>)
        ensures
            r is Ok <==> valid_width(width as nat),
            r is Ok ==> r->Ok_0.wf() && r->Ok_0.width() == width && r->Ok_0.bytes().len() == 0,
            r is Err ==> Err::<(), ConfigError>(r->Err_0) == check_width_spec(width),
    {
        match check_width(width) {
            Err(e) => Err(e),
            Ok(()) => Ok(ChunkStore { width, data: Vec::new() }),
        }
    }

    /// A store over an existing byte image. A width that `check_width`
    /// refuses is refused with the same error.
    pub fn from_bytes(width: usize, data: Vec<u8>) -> (r: Result<ChunkStore, ConfigError>)
        ensures
            r is Ok <==> valid_width(width as nat),
            r is Ok ==> r->Ok_0.wf() && r->Ok_0.width() == width && r->Ok_0.bytes() == data@,
            r is Err ==> Err::<(), ConfigError>(r->Err_0) == check_width_spec(width),
    {
        match check_width(width) {
            Err(e) => Err(e),
            Ok(()) => Ok(ChunkStore { width, data }),
        }
    }

    /// The chunk width in bytes.
    pub fn chunk_width(&self) -> (w: usize)
        ensures
            w == self.width(),
    {
        self.width
    }

    /// The length of the byte image.
    pub fn byte_len(&self) -> (n: usize)
        ensures
            n == self.bytes().len(),
    {
        self.data.len()
    }

    /// The byte image.
    pub fn as_bytes(&self) -> (b: &Vec<u8>)
        ensures
            b@ == self.bytes(),
    {
        &self.data
    }

    /// Gives up the store for its byte image.
    pub fn into_bytes(self) -> (b: Vec<u8>)
        ensures
            b@ == self.bytes(),
    {
        self.data
    }

    /// Truncates the image to zero length: every chunk then reads as zero.
    pub fn clear(&mut self)
        ensures
            final(self).width() == old(self).width(),
            final(self).bytes().len() == 0,
            forall|i: int| #[trigger] final(self).chunk(i) == 0,
    {
        self.data.clear();
        proof {
            assert forall|i: int| #[trigger] self.chunk(i) == 0 by {
                let cb = self.chunk_bytes(i);
                lemma_le_value_zero_extended(cb, 0);
                assert(cb.take(0) =~= Seq::<u8>::empty());
                crate::le_bytes::lemma_le_value_empty();
            }
        }
    }

    /// Reads chunk `index`: the little-endian value of the up to `W` bytes at
    /// offset `index * W`. Bytes that the image does not have count as zero.
    pub fn read_chunk(&self, index: usize) -> (r: BigUint)
        requires
            self.wf(),
        ensures
            big_value(r) == self.chunk(index as int),
            big_value(r) < self.base(),
    {
        let len = self.data.len();
        let full = len / self.width;
        let ghost w = self.width as int;
        proof {
            vstd::arithmetic::div_mod::lemma_fundamental_div_mod(len as int, w);
            vstd::arithmetic::div_mod::lemma_mod_bound(len as int, w);
            assert(w * (len as int / w) == (len as int / w) * w) by (nonlinear_arith);
        }
        let lo = if index > full {
            proof {
                assert(index * w >= (full + 1) * w) by (nonlinear_arith)
                    requires
                        index >= full + 1,
                        w > 0,
                ;
                assert((full + 1) * w == full * w + w) by (nonlinear_arith);
            }
            len
        } else {
            proof {
                assert(index * w <= full * w) by (nonlinear_arith)
                    requires
                        index <= full,
                        w > 0,
                ;
            }
            index * self.width
        };
        let hi = if len - lo > self.width {
            lo + self.width
        } else {
            len
        };
        let part = slice_subrange(self.data.as_slice(), lo, hi);
        let r = big_from_bytes_le(part);
        proof {
            let cb = self.chunk_bytes(index as int);
            let n = (hi - lo) as int;
            assert(cb.take(n) =~= part@);
            lemma_le_value_zero_extended(cb, n);
            self.lemma_chunk_bound(index as int);
        }
        r
    }

    /// Writes chunk `index`: exactly `W` bytes at offset `index * W`, the
    /// little-endian bytes of `chunk` with zero bytes behind them. An image
    /// that ends before the offset is first extended with zero bytes.
    pub fn write_chunk(&mut self, index: usize, chunk: &BigUint)
        requires
            old(self).wf(),
            big_value(*chunk) < old(self).base(),
            (index + 1) * old(self).width() <= usize::MAX,
        ensures
            final(self).wf(),
            old(self).written(final(self), index as int, big_value(*chunk)),
    {
        let bytes = big_to_bytes_le(chunk);
        let ghost before = *self;
        let ghost w = self.width as int;
        proof {
            lemma_minimal_len(bytes@, self.width as nat);
            assert((index + 1) * w == index * w + w) by (nonlinear_arith);
            assert(index * w >= 0) by (nonlinear_arith)
                requires
                    index >= 0,
                    w >= 0,
            ;
        }
        let off = index * self.width;
        let end = off + self.width;
        while self.data.len() < end
            invariant
                self.width == before.width,
                self.data@.len() >= before.data@.len(),
                self.data@.take(before.data@.len() as int) == before.data@,
                forall|i: int| before.data@.len() <= i < self.data@.len() ==> self.data@[i] == 0,
                self.data@.len() <= end || self.data@.len() == before.data@.len(),
            decreases end - self.data.len(),
        {
            let ghost prev = self.data@;
            self.data.push(0u8);
            proof {
                assert(self.data@.take(before.data@.len() as int) =~= prev.take(
                    before.data@.len() as int,
                ));
            }
        }
        let ghost padded = self.data@;
        proof {
            assert forall|p: int| self.byte_at(p) == before.byte_at(p) by {
                if 0 <= p < before.data@.len() {
                    assert(padded.take(before.data@.len() as int)[p] == before.data@[p]);
                }
            }
        }
        let mut k: usize = 0;
        while k < self.width
            invariant
                self.width == before.width,
                w == self.width,
                off == index * w,
                end == off + w,
                0 <= k <= self.width,
                bytes@.len() <= self.width,
                self.data@.len() == padded.len(),
                padded.len() >= end,
                forall|p: int|
                    0 <= p < padded.len() && !(off <= p < off + k) ==> self.data@[p] == padded[p],
                forall|p: int|
                    off <= p < off + k ==> self.data@[p] == if p - off < bytes@.len() {
                        bytes@[p - off]
                    } else {
                        0u8
                    },
            decreases self.width - k,
        {
            let b: u8 = if k < bytes.len() {
                bytes[k]
            } else {
                0u8
            };
            self.data[off + k] = b;
            k += 1;
        }
        proof {
            let value = big_value(*chunk);
            assert forall|j: int|
                #[trigger] self.chunk(j) == if j == index as int {
                    value
                } else {
                    before.chunk(j)
                } by {
                if j == index as int {
                    let cb = self.chunk_bytes(j);
                    assert(cb.take(bytes@.len() as int) =~= bytes@);
                    lemma_le_value_zero_extended(cb, bytes@.len() as int);
                } else {
                    assert(self.chunk_bytes(j) =~= before.chunk_bytes(j)) by {
                        assert forall|q: int| 0 <= q < w implies #[trigger] self.chunk_bytes(j)[q]
                            == before.chunk_bytes(j)[q] by {
                            lemma_chunks_disjoint(index as int, j, w, q);
                            let p = j * w + q;
                            if 0 <= p < padded.len() {
                                assert(self.data@[p] == padded[p]);
                            }
                            if 0 <= p < before.data@.len() {
                                assert(padded.take(before.data@.len() as int)[p]
                                    == before.data@[p]);
                            }
                        }
                    }
                }
            }
        }
    }

    /// Writes chunk `index` where that can be done: where `chunk` is a digit
    /// of base `B` and the chunk's end offset fits a machine word. Says
    /// whether it was written; a store that was not written is unchanged.
    pub fn try_write_chunk(&mut self, index: usize, chunk: &BigUint) -> (done: bool)
        requires
            old(self).wf(),
        ensures
            final(self).wf(),
            done <==> big_value(*chunk) < old(self).base() && (index + 1) * old(self).width()
                <= usize::MAX,
            done ==> old(self).written(final(self), index as int, big_value(*chunk)),
            !done ==> *final(self) == *old(self),
    {
        let base = chunk_base(self.width);
        let fits = big_lt(chunk, &base);
        let room = match index.checked_add(1) {
            Some(next) => next.checked_mul(self.width).is_some(),
            None => {
                proof {
                    let w = self.width as int;
                    assert((index + 1) * w > usize::MAX) by (nonlinear_arith)
                        requires
                            index + 1 > usize::MAX,
                            w >= 1,
                    ;
                }
                false
            },
        };
        if fits && room {
            self.write_chunk(index, chunk);
            true
        } else {
            false
        }
    }
}

} // verus!
