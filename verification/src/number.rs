//! Whole numbers and their chunks: splitting a number at the base, cutting
//! it into chunks, and writing and reading it through a chunk store.

use crate::big::{
    big_bytes, big_div, big_from_bytes_le, big_one, big_rem, big_shl, big_sub, big_to_bytes_le,
    big_value, big_zero,
};
use crate::le_bytes::{
    is_minimal, le_value, lemma_le_value_bound, lemma_le_value_concat, lemma_le_value_empty,
};
use crate::radix::{
    digit_of, digits_of, lemma_digits_of_small, lemma_npow_adds, lemma_npow_increases,
    lemma_npow_multiplies, lemma_npow_positive, lemma_npow_unfold, lemma_radix_value_concat,
    npow, radix_value,
};
use crate::store::{extended_len, valid_width, ChunkStore};
use num_bigint::BigUint;
use vstd::arithmetic::div_mod::{
    lemma_fundamental_div_mod_converse, lemma_mod_bound, lemma_small_mod,
};
use vstd::prelude::*;
use vstd::slice::slice_subrange;

verus! {

/// The base of the chunked representation for chunks `width` bytes wide:
/// `B = 256^width`.
pub open spec fn chunk_radix(width: nat) -> nat {
    npow(256, width)
}

/// The number of chunks `width` bytes wide that `len` bytes take.
pub open spec fn chunks_for(len: nat, width: nat) -> nat {
    ((len + width - 1) / (width as int)) as nat
}

pub proof fn lemma_two_pow_eight()
    ensures
        npow(2, 8) == 256,
{
    reveal_with_fuel(npow, 9);
}

/// `2^(8 * width) == 256^width`.
pub proof fn lemma_bits_radix(width: nat)
    ensures
        npow(2, 8 * width) == chunk_radix(width),
        chunk_radix(width) >= 1,
        width >= 1 ==> chunk_radix(width) >= 256,
{
    lemma_two_pow_eight();
    lemma_npow_multiplies(2, 8, width);
    lemma_npow_positive(256, width);
    if width >= 1 {
        lemma_npow_increases(256, 1, width);
        lemma_npow_unfold(256, 0);
    }
}

/// The base `B = 256^width`, computed as `1 << (8 * width)`.
pub fn chunk_base(width: usize) -> (r: BigUint)
    requires
        8 * width <= usize::MAX,
    ensures
        big_value(r) == chunk_radix(width as nat),
{
    proof {
        lemma_bits_radix(width as nat);
        let p = npow(2, 8 * (width as nat));
        assert(1 * p == p) by (nonlinear_arith);
    }
    big_shl(big_one(), width * 8)
}

/// The largest chunk, `B - 1`: every byte at its highest value. It fills a
/// chunk that a subtraction borrows through.
pub fn minus_one(width: usize) -> (r: BigUint)
    requires
        8 * width <= usize::MAX,
    ensures
        big_value(r) == chunk_radix(width as nat) - 1,
{
    proof {
        lemma_bits_radix(width as nat);
    }
    let base = chunk_base(width);
    let one = big_one();
    big_sub(&base, &one)
}

/// Splits a number at the base: the low part `num mod B`, which is one
/// chunk, and the high part `num div B`, which is carried on.
pub fn split_biguint(num: &BigUint, width: usize) -> (r: (BigUint, BigUint))
    requires
        8 * width <= usize::MAX,
    ensures
        big_value(r.0) == big_value(*num) % chunk_radix(width as nat),
        big_value(r.1) == big_value(*num) / chunk_radix(width as nat),
        big_value(r.0) < chunk_radix(width as nat),
        big_value(*num) == big_value(r.1) * chunk_radix(width as nat) + big_value(r.0),
{
    let base = chunk_base(width);
    proof {
        lemma_bits_radix(width as nat);
        let b = chunk_radix(width as nat) as int;
        let v = big_value(*num) as int;
        lemma_mod_bound(v, b);
        vstd::arithmetic::div_mod::lemma_fundamental_div_mod(v, b);
        assert(b * (v / b) == (v / b) * b) by (nonlinear_arith);
    }
    let lower = big_rem(num, &base);
    let upper = big_div(num, &base);
    (lower, upper)
}

/// The number of chunks that a number takes: the length of its byte string
/// divided by the chunk width, rounded up. Zero takes one chunk.
pub fn number_size(num: &BigUint, width: usize) -> (size: usize)
    requires
        valid_width(width as nat),
    ensures
        size == chunks_for(big_bytes(*num).len(), width as nat),
        size >= 1,
        size <= big_bytes(*num).len(),
        is_minimal(big_bytes(*num)),
        big_value(*num) < npow(chunk_radix(width as nat), size as nat),
        size == 1 || npow(chunk_radix(width as nat), (size - 1) as nat) <= big_value(*num),
{
    let bytes = big_to_bytes_le(num);
    let len = bytes.len();
    let q = len / width;
    proof {
        let l = len as int;
        let w = width as int;
        vstd::arithmetic::div_mod::lemma_fundamental_div_mod(l, w);
        lemma_mod_bound(l, w);
        assert(w * (l / w) == (l / w) * w) by (nonlinear_arith);
        assert((l / w) * w >= l / w) by (nonlinear_arith)
            requires
                l / w >= 0,
                w >= 1,
        ;
    }
    let size = if len % width == 0 {
        q
    } else {
        q + 1
    };
    proof {
        let l = len as int;
        let w = width as int;
        let r = l % w;
        if r == 0 {
            lemma_fundamental_div_mod_converse(l + w - 1, w, l / w, w - 1);
        } else {
            assert((l / w + 1) * w == (l / w) * w + w) by (nonlinear_arith);
            lemma_fundamental_div_mod_converse(l + w - 1, w, l / w + 1, r - 1);
        }
        assert(size * w >= l) by (nonlinear_arith)
            requires
                l == (l / w) * w + r,
                0 <= r < w,
                size == if r == 0 {
                    l / w
                } else {
                    l / w + 1
                },
        ;
        assert(size <= l) by (nonlinear_arith)
            requires
                l == (l / w) * w + r,
                0 <= r < w,
                l / w >= 0,
                l >= 1,
                size == if r == 0 {
                    l / w
                } else {
                    l / w + 1
                },
        ;
        if size >= 2 {
            assert((size - 1) * w <= l - 1) by (nonlinear_arith)
                requires
                    l == (l / w) * w + r,
                    0 <= r < w,
                    size == if r == 0 {
                        l / w
                    } else {
                        l / w + 1
                    },
            ;
            assert((size - 1) * w >= 0) by (nonlinear_arith)
                requires
                    size >= 1,
                    w >= 0,
            ;
            crate::le_bytes::lemma_minimal_lower_bound(bytes@);
            lemma_npow_increases(256, ((size - 1) * w) as nat, (l - 1) as nat);
            lemma_npow_multiplies(256, width as nat, (size - 1) as nat);
            assert(w * (size - 1) == (size - 1) * w) by (nonlinear_arith);
        }
        lemma_le_value_bound(bytes@);
        lemma_npow_increases(256, len as nat, (size * w) as nat);
        lemma_npow_multiplies(256, width as nat, size as nat);
        assert(w * size == size * w) by (nonlinear_arith);
    }
    size
}

/// The value of the `W` bytes at offset `i * W` of a byte string is digit
/// `i` of the string's value in base `256^W`.
pub proof fn lemma_byte_window_digit(s: Seq<u8>, i: nat, width: nat)
    requires
        width >= 1,
    ensures
        ({
            let lo = if i * width <= s.len() {
                (i * width) as int
            } else {
                s.len() as int
            };
            let hi = if lo + width <= s.len() {
                lo + width
            } else {
                s.len() as int
            };
            le_value(s.subrange(lo, hi)) == digit_of(le_value(s), chunk_radix(width), i)
        }),
{
    let base = chunk_radix(width);
    let v = le_value(s);
    let off = i * width;
    let p = npow(base, i);
    lemma_npow_multiplies(256, width, i);
    assert(width * i == i * width) by (nonlinear_arith);
    assert(p == npow(256, off));
    lemma_npow_positive(256, off);
    lemma_npow_positive(256, width);
    lemma_le_value_bound(s);
    if off > s.len() {
        lemma_npow_increases(256, s.len(), off);
        vstd::arithmetic::div_mod::lemma_basic_div(v as int, p as int);
        lemma_small_mod(0, base);
        assert(s.subrange(s.len() as int, s.len() as int) =~= Seq::<u8>::empty());
        lemma_le_value_empty();
    } else {
        let lo = off as int;
        let a = s.subrange(0, lo);
        let rest = s.subrange(lo, s.len() as int);
        assert(s =~= a + rest);
        lemma_le_value_concat(a, rest);
        lemma_le_value_bound(a);
        let va = le_value(a);
        let vr = le_value(rest);
        assert(p * vr == vr * p) by (nonlinear_arith);
        lemma_fundamental_div_mod_converse(v as int, p as int, vr as int, va as int);
        assert(v / p == vr);
        if lo + width <= s.len() {
            let hi = lo + width;
            let b = s.subrange(lo, hi);
            let c = s.subrange(hi, s.len() as int);
            assert(rest =~= b + c);
            lemma_le_value_concat(b, c);
            lemma_le_value_bound(b);
            let vb = le_value(b);
            let vc = le_value(c);
            assert(base * vc == vc * base) by (nonlinear_arith);
            lemma_fundamental_div_mod_converse(vr as int, base as int, vc as int, vb as int);
        } else {
            lemma_le_value_bound(rest);
            lemma_npow_increases(256, rest.len(), width);
            lemma_small_mod(vr, base);
        }
    }
}

/// Chunk `block_index` of a number: digit `block_index` of its
/// representation in base `B`. A chunk that lies above the number is zero.
pub fn chunkify_number(num: &BigUint, block_index: usize, width: usize) -> (r: BigUint)
    requires
        valid_width(width as nat),
    ensures
        big_value(r) == digit_of(
            big_value(*num),
            chunk_radix(width as nat),
            block_index as nat,
        ),
        big_value(r) < chunk_radix(width as nat),
{
    let bytes = big_to_bytes_le(num);
    let len = bytes.len();
    let full = len / width;
    let ghost w = width as int;
    proof {
        vstd::arithmetic::div_mod::lemma_fundamental_div_mod(len as int, w);
        lemma_mod_bound(len as int, w);
        assert(w * (len as int / w) == (len as int / w) * w) by (nonlinear_arith);
        lemma_byte_window_digit(bytes@, block_index as nat, width as nat);
        lemma_bits_radix(width as nat);
        lemma_mod_bound(
            (big_value(*num) / npow(chunk_radix(width as nat), block_index as nat)) as int,
            chunk_radix(width as nat) as int,
        );
    }
    if block_index > full {
        proof {
            assert(block_index * w >= (full + 1) * w) by (nonlinear_arith)
                requires
                    block_index >= full + 1,
                    w > 0,
            ;
            assert((full + 1) * w == full * w + w) by (nonlinear_arith);
            assert(bytes@.subrange(len as int, len as int) =~= Seq::<u8>::empty());
            lemma_le_value_empty();
        }
        return big_zero();
    }
    proof {
        assert(block_index * w <= full * w) by (nonlinear_arith)
            requires
                block_index <= full,
                w > 0,
        ;
    }
    let lo = block_index * width;
    let hi = if len - lo > width {
        lo + width
    } else {
        len
    };
    let part = slice_subrange(bytes.as_slice(), lo, hi);
    big_from_bytes_le(part)
}

/// `after` is `before` with the number `num` written as chunks from chunk
/// `start` on: the chunks that the number takes hold it, and no other chunk
/// has changed.
pub open spec fn number_written(
    before: &ChunkStore,
    after: &ChunkStore,
    start: int,
    num: BigUint,
) -> bool {
    let size = chunks_for(big_bytes(num).len(), before.width());
    &&& after.width() == before.width()
    &&& after.number(start, size) == big_value(num)
    &&& forall|j: int|
        !(start <= j < start + size) ==> #[trigger] after.chunk(j) == before.chunk(j)
    &&& after.bytes().len() == extended_len(before.bytes().len(), start + size, before.width())
}

/// Round trip: a number that was written as chunks is read back unchanged
/// with any chunk count that covers it, where the chunks above it were zero
/// before. `read_number_in_chunks` returns `after.number(start, k)`.
pub proof fn lemma_write_read_round_trip(
    before: &ChunkStore,
    after: &ChunkStore,
    start: int,
    num: BigUint,
    k: nat,
)
    requires
        number_written(before, after, start, num),
        k >= chunks_for(big_bytes(num).len(), before.width()),
        forall|j: int|
            start + chunks_for(big_bytes(num).len(), before.width()) <= j < start + k
                ==> #[trigger] before.chunk(j) == 0,
    ensures
        after.number(start, k) == big_value(num),
{
    let size = chunks_for(big_bytes(num).len(), before.width());
    assert forall|j: int| start + size <= j < start + k implies #[trigger] after.chunk(j)
        == 0 by {
        assert(before.chunk(j) == 0);
    }
    after.lemma_number_trim(start, k, size);
}

/// Writes a number into the store as `number_size(num)` chunks, the lowest
/// at chunk `start_index`.
pub fn write_number_in_chunks(num: &BigUint, start_index: usize, store: &mut ChunkStore)
    requires
        old(store).wf(),
        (start_index + chunks_for(big_bytes(*num).len(), old(store).width())) * old(
            store,
        ).width() <= usize::MAX,
    ensures
        final(store).wf(),
        number_written(old(store), final(store), start_index as int, *num),
{
    let width = store.chunk_width();
    let size = number_size(num, width);
    let ghost before = *store;
    let ghost v = big_value(*num);
    let ghost base = chunk_radix(width as nat);
    let mut i: usize = 0;
    while i < size
        invariant
            0 <= i <= size,
            store.wf(),
            store.width() == width,
            before.width() == width,
            base == chunk_radix(width as nat),
            v == big_value(*num),
            (start_index + size) * width <= usize::MAX,
            forall|j: int|
                !(start_index <= j < start_index + i) ==> #[trigger] store.chunk(j)
                    == before.chunk(j),
            store.digits(start_index as int, i as nat) == digits_of(v, base, i as nat),
            store.bytes().len() == if i == 0 || before.bytes().len() >= (start_index + i)
                * width {
                before.bytes().len() as int
            } else {
                (start_index + i) * width
            },
        decreases size - i,
    {
        let chunk = chunkify_number(num, i, width);
        proof {
            assert((start_index + i + 1) * width <= (start_index + size) * width)
                by (nonlinear_arith)
                requires
                    i + 1 <= size,
                    width >= 0,
            ;
            assert(start_index + size <= (start_index + size) * width) by (nonlinear_arith)
                requires
                    width >= 1,
            ;
            assert((start_index + i) * width <= (start_index + i + 1) * width)
                by (nonlinear_arith)
                requires
                    width >= 0,
            ;
        }
        let ghost prev = *store;
        store.write_chunk(start_index + i, &chunk);
        proof {
            assert(store.digits(start_index as int, (i + 1) as nat) =~= digits_of(
                v,
                base,
                (i + 1) as nat,
            )) by {
                assert forall|k: int| 0 <= k < i + 1 implies #[trigger] store.digits(
                    start_index as int,
                    (i + 1) as nat,
                )[k] == digits_of(v, base, (i + 1) as nat)[k] by {
                    if k < i {
                        assert(store.chunk(start_index + k) == prev.chunk(start_index + k));
                        assert(prev.digits(start_index as int, i as nat)[k] == digits_of(
                            v,
                            base,
                            i as nat,
                        )[k]);
                    }
                }
            }
        }
        i += 1;
    }
    proof {
        lemma_bits_radix(width as nat);
        lemma_digits_of_small(v, base, size as nat);
    }
}

/// The value of a byte string that is made of chunks is the number that the
/// chunks denote in base `256^W`.
pub proof fn lemma_chunked_bytes_value(store: &ChunkStore, start: int, size: nat, s: Seq<u8>)
    requires
        store.wf(),
        s.len() == size * store.width(),
        forall|k: int, q: int|
            0 <= k < size && 0 <= q < store.width() ==> s[k * store.width() + q]
                == #[trigger] store.chunk_bytes(start + k)[q],
    ensures
        le_value(s) == store.number(start, size),
    decreases size,
{
    let w = store.width() as int;
    if size == 0 {
        assert(s =~= Seq::<u8>::empty());
        lemma_le_value_empty();
        assert(store.digits(start, 0) =~= Seq::<nat>::empty());
    } else {
        assert(size * w == w + (size - 1) * w) by (nonlinear_arith);
        assert((size - 1) * w >= 0) by (nonlinear_arith)
            requires
                size >= 1,
                w >= 0,
        ;
        let head = s.subrange(0, w);
        let tail = s.subrange(w, s.len() as int);
        assert(s =~= head + tail);
        lemma_le_value_concat(head, tail);
        assert(head =~= store.chunk_bytes(start)) by {
            assert forall|q: int| 0 <= q < w implies head[q] == store.chunk_bytes(start)[q] by {
                assert(s[0 * w + q] == store.chunk_bytes(start + 0)[q]);
            }
        }
        assert forall|k: int, q: int| 0 <= k < size - 1 && 0 <= q < w implies tail[k * w + q]
            == #[trigger] store.chunk_bytes(start + 1 + k)[q] by {
            assert((k + 1) * w + q == w + (k * w + q)) by (nonlinear_arith);
            assert(k * w + q >= 0) by (nonlinear_arith)
                requires
                    k >= 0,
                    w >= 0,
                    q >= 0,
            ;
            assert(k * w + q < (size - 1) * w) by (nonlinear_arith)
                requires
                    k + 1 <= size - 1,
                    0 <= q < w,
            ;
            assert(s[(k + 1) * w + q] == store.chunk_bytes(start + (k + 1))[q]);
        }
        lemma_chunked_bytes_value(store, start + 1, (size - 1) as nat, tail);
        let d = store.digits(start, size);
        assert(d.drop_first() =~= store.digits(start + 1, (size - 1) as nat));
        assert(d[0] == store.chunk(start));
    }
}

/// Reads the chunked integer of `size` chunks that begins at chunk
/// `start_index`.
pub fn read_number_in_chunks(start_index: usize, size: usize, store: &ChunkStore) -> (r: BigUint)
    requires
        store.wf(),
        (start_index + size) * store.width() <= usize::MAX,
    ensures
        big_value(r) == store.number(start_index as int, size as nat),
{
    let width = store.chunk_width();
    let mut block: Vec<u8> = Vec::new();
    let ghost w = width as int;
    let mut i: usize = 0;
    while i < size
        invariant
            0 <= i <= size,
            store.wf(),
            w == width,
            store.width() == width,
            (start_index + size) * width <= usize::MAX,
            block@.len() == i * w,
            forall|k: int, q: int|
                0 <= k < i && 0 <= q < w ==> block@[k * w + q] == #[trigger] store.chunk_bytes(
                    start_index + k,
                )[q],
        decreases size - i,
    {
        proof {
            assert(start_index + size <= (start_index + size) * width) by (nonlinear_arith)
                requires
                    width >= 1,
            ;
        }
        let chunk = store.read_chunk(start_index + i);
        let bytes = big_to_bytes_le(&chunk);
        proof {
            crate::le_bytes::lemma_minimal_len(bytes@, width as nat);
        }
        let ghost prev = block@;
        let mut q: usize = 0;
        while q < width
            invariant
                0 <= q <= width,
                w == width,
                bytes@.len() <= width,
                block@.len() == prev.len() + q,
                prev.len() == i * w,
                forall|p: int| 0 <= p < prev.len() ==> block@[p] == prev[p],
                forall|p: int|
                    prev.len() <= p < prev.len() + q ==> block@[p] == if p - prev.len()
                        < bytes@.len() {
                        bytes@[p - prev.len()]
                    } else {
                        0u8
                    },
            decreases width - q,
        {
            let b: u8 = if q < bytes.len() {
                bytes[q]
            } else {
                0u8
            };
            block.push(b);
            q += 1;
        }
        proof {
            assert((i + 1) * w == i * w + w) by (nonlinear_arith);
            // the bytes just appended are the bytes of the chunk
            let cb = store.chunk_bytes(start_index + i);
            let padded = Seq::new(width as nat, |p: int| block@[prev.len() + p]);
            crate::le_bytes::lemma_le_value_zero_extended(padded, bytes@.len() as int);
            assert(padded.take(bytes@.len() as int) =~= bytes@);
            crate::le_bytes::lemma_le_value_bound(cb);
            lemma_same_value_same_bytes(padded, cb);
            assert forall|k: int, p: int| 0 <= k < i + 1 && 0 <= p < w implies block@[k * w + p]
                == #[trigger] store.chunk_bytes(start_index + k)[p] by {
                if k < i {
                    assert(k * w + p < i * w) by (nonlinear_arith)
                        requires
                            k + 1 <= i,
                            0 <= p < w,
                    ;
                    assert(k * w + p >= 0) by (nonlinear_arith)
                        requires
                            k >= 0,
                            w >= 0,
                            p >= 0,
                    ;
                    assert(prev[k * w + p] == store.chunk_bytes(start_index + k)[p]);
                } else {
                    assert(padded[p] == cb[p]);
                }
            }
        }
        i += 1;
    }
    proof {
        assert(size * w == (size as nat) * store.width());
        lemma_chunked_bytes_value(store, start_index as int, size as nat, block@);
    }
    big_from_bytes_le(block.as_slice())
}

/// Two byte strings of one length that denote the same number are equal.
pub proof fn lemma_same_value_same_bytes(a: Seq<u8>, b: Seq<u8>)
    requires
        a.len() == b.len(),
        le_value(a) == le_value(b),
    ensures
        a == b,
    decreases a.len(),
{
    if a.len() == 0 {
        assert(a =~= b);
    } else {
        let a0 = seq![a[0]];
        let b0 = seq![b[0]];
        let at = a.subrange(1, a.len() as int);
        let bt = b.subrange(1, b.len() as int);
        assert(a =~= a0 + at);
        assert(b =~= b0 + bt);
        lemma_le_value_concat(a0, at);
        lemma_le_value_concat(b0, bt);
        crate::le_bytes::lemma_le_value_single(a[0]);
        crate::le_bytes::lemma_le_value_single(b[0]);
        lemma_npow_unfold(256, 0);
        let x = le_value(at);
        let y = le_value(bt);
        let p = a[0] as int;
        let q = b[0] as int;
        assert(x == y && p == q) by (nonlinear_arith)
            requires
                p + 256 * x == q + 256 * y,
                0 <= p < 256,
                0 <= q < 256,
                x >= 0,
                y >= 0,
        ;
        lemma_same_value_same_bytes(at, bt);
    }
}

} // verus!
