//! The squarer: the square of a chunked integer by cross-multiplication of
//! its chunk pairs, accumulated into a second store with explicit carries.

use crate::big::{big_add, big_clone, big_eq, big_mul, big_mul_u32, big_value, big_zero};
use crate::number::{lemma_bits_radix, split_biguint};
use crate::radix::{
    lemma_npow_adds, lemma_npow_positive, lemma_npow_unfold, lemma_radix_value_bound,
    lemma_radix_value_digit_le, lemma_radix_value_push, npow, radix_value,
};
use crate::store::ChunkStore;
use vstd::prelude::*;

verus! {

/// What the chunk pair `(i, j)` with `i <= j` adds to the square: the product
/// of the two chunks, once for a pair on the diagonal and twice for any other.
pub open spec fn cross_term(x: Seq<nat>, i: int, j: int) -> nat {
    if i == j {
        x[i] * x[i]
    } else {
        2 * x[i] * x[j]
    }
}

/// The sum of what the pairs `(i, i), (i, i + 1), .., (i, j - 1)` add, each
/// at its position `i + j'`.
pub open spec fn row_partial(x: Seq<nat>, base: nat, i: int, j: int) -> nat
    decreases j - i,
{
    if j <= i {
        0
    } else {
        row_partial(x, base, i, j - 1) + cross_term(x, i, j - 1) * npow(base, (i + j - 1) as nat)
    }
}

/// The sum of what all pairs of the rows `0, .., i - 1` add.
pub open spec fn rows_partial(x: Seq<nat>, base: nat, i: int) -> nat
    decreases i,
{
    if i <= 0 {
        0
    } else {
        rows_partial(x, base, i - 1) + row_partial(x, base, i - 1, x.len() as int)
    }
}

/// Row `i` up to column `j`, in closed form.
pub proof fn lemma_row_closed(x: Seq<nat>, base: nat, i: int, j: int)
    requires
        0 <= i < j <= x.len(),
    ensures
        row_partial(x, base, i, j) == npow(base, (2 * i) as nat) * (x[i] * x[i] + 2 * x[i] * base
            * radix_value(x.subrange(i + 1, j), base)),
    decreases j - i,
{
    let a = x[i];
    let p = npow(base, (2 * i) as nat);
    if j == i + 1 {
        assert(row_partial(x, base, i, i) == 0);
        assert(x.subrange(i + 1, j) =~= Seq::<nat>::empty());
        assert(p * (a * a + 2 * a * base * 0) == (a * a) * p) by (nonlinear_arith);
    } else {
        lemma_row_closed(x, base, i, j - 1);
        let lo = x.subrange(i + 1, j - 1);
        let c = x[j - 1];
        assert(x.subrange(i + 1, j) =~= lo.push(c));
        lemma_radix_value_push(lo, c, base);
        let h = radix_value(lo, base);
        let q = npow(base, (j - i - 2) as nat);
        let r = npow(base, (i + j - 1) as nat);
        lemma_npow_adds(base, (2 * i) as nat, (j - i - 1) as nat);
        lemma_npow_unfold(base, (j - i - 2) as nat);
        let bq = base * q;
        assert(r == p * bq);
        assert(cross_term(x, i, j - 1) == 2 * a * c);
        assert(p * (a * a + 2 * a * base * h) + (2 * a * c) * (p * bq) == p * (a * a + 2 * a
            * base * (h + c * q))) by (nonlinear_arith)
            requires
                bq == base * q,
        ;
    }
}

/// The rows `0, .., i - 1` make up the square, but for the square of what
/// the chunks from `i` on denote.
pub proof fn lemma_rows_closed(x: Seq<nat>, base: nat, i: int)
    requires
        0 <= i <= x.len(),
    ensures
        rows_partial(x, base, i) + npow(base, (2 * i) as nat) * (radix_value(x.skip(i), base)
            * radix_value(x.skip(i), base)) == radix_value(x, base) * radix_value(x, base),
    decreases i,
{
    let v = radix_value(x, base);
    if i == 0 {
        assert(x.skip(0) =~= x);
        assert(1 * (v * v) == v * v) by (nonlinear_arith);
    } else {
        lemma_rows_closed(x, base, i - 1);
        lemma_row_closed(x, base, i - 1, x.len() as int);
        let a = x[i - 1];
        let t = radix_value(x.skip(i - 1), base);
        let u = radix_value(x.skip(i), base);
        assert(x.skip(i - 1).drop_first() =~= x.skip(i));
        assert(x.subrange(i, x.len() as int) =~= x.skip(i));
        assert(t == a + base * u);
        let p = npow(base, (2 * (i - 1)) as nat);
        let psq = npow(base, (2 * i) as nat);
        lemma_npow_unfold(base, (2 * (i - 1)) as nat);
        lemma_npow_unfold(base, (2 * (i - 1) + 1) as nat);
        assert(psq == base * (base * p));
        assert(p * (a * a + 2 * a * base * u) + (base * (base * p)) * (u * u) == p * ((a + base
            * u) * (a + base * u))) by (nonlinear_arith);
    }
}

/// All rows together make up the square.
pub proof fn lemma_rows_complete(x: Seq<nat>, base: nat)
    ensures
        rows_partial(x, base, x.len() as int) == radix_value(x, base) * radix_value(x, base),
{
    lemma_rows_closed(x, base, x.len() as int);
    assert(x.skip(x.len() as int) =~= Seq::<nat>::empty());
    let p = npow(base, (2 * x.len()) as nat);
    assert(p * (0 * 0) == 0) by (nonlinear_arith);
}

/// The number of chunks that the square of a number `v` of `size` chunks is
/// left in: twice the count, less one where the top chunk would be zero.
pub open spec fn squared_size(v: nat, size: nat, base: nat) -> nat {
    if size == 0 {
        1
    } else if v * v >= npow(base, (2 * size - 1) as nat) {
        2 * size
    } else {
        (2 * size - 1) as nat
    }
}

/// Squares the chunked integer of `size` chunks that begins at chunk
/// `start_index` of `src`. The square is left in `dst`, which is cleared
/// first, beginning at the same chunk; the number of chunks it takes is
/// returned.
#[verifier::rlimit(40)]
pub fn square_number(src: &ChunkStore, start_index: usize, size: usize, dst: &mut ChunkStore) -> (r:
    usize)
    requires
        src.wf(),
        old(dst).width() == src.width(),
        (start_index + 2 * size) * src.width() <= usize::MAX,
    ensures
        final(dst).width() == src.width(),
        final(dst).number(start_index as int, r as nat) == src.number(
            start_index as int,
            size as nat,
        ) * src.number(start_index as int, size as nat),
        forall|j: int|
            !(start_index <= j < start_index + r) ==> #[trigger] final(dst).chunk(j) == 0,
        r == squared_size(src.number(start_index as int, size as nat), size as nat, src.base()),
        final(dst).bytes().len() == if size == 0 {
            0
        } else {
            (start_index + r) * src.width()
        },
{
    let width = src.chunk_width();
    let ghost w = width as int;
    let ghost base = src.base();
    let ghost n = size as int;
    let ghost s = start_index as int;
    let ghost x = src.digits(s, size as nat);
    let ghost v = radix_value(x, base);
    proof {
        assert(s + 2 * n <= (s + 2 * n) * w) by (nonlinear_arith)
            requires
                w >= 1,
                s + 2 * n >= 0,
        ;
        lemma_bits_radix(width as nat);
        assert forall|q: int| 0 <= q < x.len() implies x[q] < base by {
            src.lemma_chunk_bound(s + q);
        }
    }
    let end_index: usize = start_index + size;
    let mut used: usize = 0;
    let mut carry = big_zero();
    dst.clear();
    proof {
        assert forall|q: int| 0 <= q < 2 * n implies #[trigger] dst.digits(s, (2 * n) as nat)[q]
            == 0 by {
            assert(dst.chunk(s + q) == 0);
        }
        crate::radix::lemma_radix_value_zeros(dst.digits(s, (2 * n) as nat), base);
    }
    let mut i: usize = start_index;
    while i < end_index
        invariant
            src.wf(),
            dst.wf(),
            dst.width() == src.width(),
            width == src.width(),
            w == width,
            base == src.base(),
            base >= 256,
            n == size,
            s == start_index,
            x == src.digits(s, size as nat),
            forall|q: int| 0 <= q < x.len() ==> x[q] < base,
            v == radix_value(x, base),
            end_index == start_index + size,
            (s + 2 * n) * w <= usize::MAX,
            s + 2 * n <= usize::MAX,
            start_index <= i <= end_index,
            big_value(carry) == 0,
            i == start_index ==> used == 0,
            i > start_index ==> (i - s) + n - 1 <= used <= (i - s) + n + 1,
            used <= 2 * n,
            used == 2 * n && n > 0 ==> dst.chunk(s + 2 * n - 1) != 0,
            forall|j: int| !(s <= j < s + used) ==> #[trigger] dst.chunk(j) == 0,
            dst.bytes().len() == if used == 0 {
                0
            } else {
                (s + used) * w
            },
            dst.number(s, (2 * n) as nat) == rows_partial(x, base, i - s),
        decreases end_index - i,
    {
        let ghost ri = i - s;
        let chunk_i = src.read_chunk(i);
        let mut j: usize = i;
        while j < end_index
            invariant
                src.wf(),
                dst.wf(),
                dst.width() == src.width(),
                width == src.width(),
                w == width,
                base == src.base(),
                base >= 256,
                n == size,
                s == start_index,
                ri == i - s,
                x == src.digits(s, size as nat),
                forall|q: int| 0 <= q < x.len() ==> x[q] < base,
                end_index == start_index + size,
                (s + 2 * n) * w <= usize::MAX,
                s + 2 * n <= usize::MAX,
                start_index <= i < end_index,
                i <= j <= end_index,
                big_value(chunk_i) == x[ri],
                big_value(carry) < 2 * base,
                j == i ==> big_value(carry) == 0,
                j == i && i == start_index ==> used == 0,
                j > i ==> ri + (j - s) <= used,
                used <= ri + n + 1,
                used <= 2 * n,
                used == 2 * n ==> dst.chunk(s + 2 * n - 1) != 0,
                forall|q: int| !(s <= q < s + used) ==> #[trigger] dst.chunk(q) == 0,
                dst.bytes().len() == if used == 0 {
                    0
                } else {
                    (s + used) * w
                },
                dst.number(s, (2 * n) as nat) + big_value(carry) * npow(
                    base,
                    (ri + (j - s)) as nat,
                ) == rows_partial(x, base, ri) + row_partial(x, base, ri, j - s),
            decreases end_index - j,
        {
            let ghost rj = j - s;
            let ghost k = ri + rj;
            let chunk_j = if i == j {
                big_clone(&chunk_i)
            } else {
                src.read_chunk(j)
            };
            let write_index = i + (j - start_index);
            let mut product = big_mul(&chunk_i, &chunk_j);
            if i != j {
                product = big_mul_u32(product, 2u32);
            }
            let previous = if write_index - start_index >= used {
                big_zero()
            } else {
                dst.read_chunk(write_index)
            };
            let sum = big_add(&big_add(&product, &previous), &carry);
            let (lower, upper) = split_biguint(&sum, width);
            let ghost before = *dst;
            let ghost car = big_value(carry);
            let ghost prev = big_value(previous);
            let ghost cross = cross_term(x, ri, rj);
            let ghost lo = big_value(lower);
            let ghost up = big_value(upper);
            let ghost p = npow(base, k as nat);
            proof {
                let a = x[ri];
                let c = x[rj];
                assert(big_value(chunk_j) == c);
                assert(big_value(product) == cross) by {
                    if i != j {
                        assert((a * c) * 2 == 2 * a * c) by (nonlinear_arith);
                    }
                }
                assert(prev == before.chunk(s + k));
                before.lemma_chunk_bound(s + k);
                assert((s + k + 1) * w <= (s + 2 * n) * w) by (nonlinear_arith)
                    requires
                        k + 1 <= 2 * n,
                        w >= 0,
                ;
                assert(cross <= 2 * (base - 1) * (base - 1)) by (nonlinear_arith)
                    requires
                        cross == a * c || cross == 2 * a * c,
                        0 <= a <= base - 1,
                        0 <= c <= base - 1,
                ;
                let total = big_value(sum);
                assert(total < base * (2 * base)) by (nonlinear_arith)
                    requires
                        total == cross + prev + car,
                        cross <= 2 * (base - 1) * (base - 1),
                        prev < base,
                        car < 2 * base,
                        base >= 2,
                ;
                vstd::arithmetic::div_mod::lemma_multiply_divide_lt(
                    total as int,
                    base as int,
                    (2 * base) as int,
                );
            }
            proof {
                if k < used {
                    assert((s + k + 1) * w <= (s + used) * w) by (nonlinear_arith)
                        requires
                            k + 1 <= used,
                            w >= 0,
                    ;
                } else {
                    assert((s + used) * w <= (s + k + 1) * w) by (nonlinear_arith)
                        requires
                            used <= k + 1,
                            w >= 0,
                    ;
                }
            }
            dst.write_chunk(write_index, &lower);
            carry = upper;
            if write_index - start_index >= used {
                used = write_index - start_index + 1;
            }
            proof {
                before.lemma_written_number(dst, s + k, lo, s, (2 * n) as nat);
                lemma_npow_unfold(base, k as nat);
                let d0 = before.number(s, (2 * n) as nat);
                let d1 = dst.number(s, (2 * n) as nat);
                let pnext = npow(base, (k + 1) as nat);
                assert(d1 + up * pnext == d0 + car * p + cross * p) by (nonlinear_arith)
                    requires
                        d1 + prev * p == d0 + lo * p,
                        cross + prev + car == up * base + lo,
                        pnext == base * p,
                ;
                assert(row_partial(x, base, ri, rj + 1) == row_partial(x, base, ri, rj) + cross
                    * p);
                assert(dst.chunk(s + 2 * n - 1) == before.chunk(s + 2 * n - 1));
            }
            j += 1;
        }
        let zero = big_zero();
        if !big_eq(&carry, &zero) {
            let write_index = i + size;
            let ghost k = ri + n;
            let previous = if write_index - start_index >= used {
                big_zero()
            } else {
                dst.read_chunk(write_index)
            };
            let sum = big_add(&previous, &carry);
            let (lower, upper) = split_biguint(&sum, width);
            let ghost before = *dst;
            let ghost car = big_value(carry);
            let ghost prev = big_value(previous);
            let ghost lo = big_value(lower);
            let ghost up = big_value(upper);
            let ghost p = npow(base, k as nat);
            let ghost d0 = before.number(s, (2 * n) as nat);
            proof {
                assert(prev == before.chunk(s + k));
                before.lemma_chunk_bound(s + k);
                assert((s + k + 1) * w <= (s + 2 * n) * w) by (nonlinear_arith)
                    requires
                        k + 1 <= 2 * n,
                        w >= 0,
                ;
                lemma_npow_unfold(base, k as nat);
                lemma_npow_positive(base, k as nat);
                assert(prev + car < base * 3) by (nonlinear_arith)
                    requires
                        prev < base,
                        car < 2 * base,
                ;
                vstd::arithmetic::div_mod::lemma_multiply_divide_lt(
                    (prev + car) as int,
                    base as int,
                    3,
                );
                assert(up < base);
                if ri == n - 1 {
                    // the last row: the square leaves nothing to carry on
                    lemma_rows_complete(x, base);
                    lemma_radix_value_bound(x, base);
                    lemma_npow_adds(base, n as nat, n as nat);
                    let pn = npow(base, n as nat);
                    assert(v * v < pn * pn) by (nonlinear_arith)
                        requires
                            0 <= v < pn,
                    ;
                    lemma_radix_value_digit_le(before.digits(s, (2 * n) as nat), k, base);
                    assert(npow(base, (2 * n) as nat) == base * p);
                    assert(prev + car < base) by (nonlinear_arith)
                        requires
                            prev * p <= d0,
                            d0 + car * p < base * p,
                            p > 0,
                    ;
                    vstd::arithmetic::div_mod::lemma_basic_div(
                        (prev + car) as int,
                        base as int,
                    );
                    assert(up == 0);
                }
            }
            proof {
                if k < used {
                    assert((s + k + 1) * w <= (s + used) * w) by (nonlinear_arith)
                        requires
                            k + 1 <= used,
                            w >= 0,
                    ;
                } else {
                    assert((s + used) * w <= (s + k + 1) * w) by (nonlinear_arith)
                        requires
                            used <= k + 1,
                            w >= 0,
                    ;
                }
            }
            dst.write_chunk(write_index, &lower);
            if write_index - start_index >= used {
                used = write_index - start_index + 1;
            }
            let ghost middle = *dst;
            proof {
                before.lemma_written_number(dst, s + k, lo, s, (2 * n) as nat);
                if ri == n - 1 {
                    assert(up * base == 0) by (nonlinear_arith)
                        requires
                            up == 0,
                    ;
                    assert(lo == prev + car);
                    assert(dst.chunk(s + 2 * n - 1) == lo);
                } else {
                    assert(dst.chunk(s + 2 * n - 1) == before.chunk(s + 2 * n - 1));
                }
            }
            if !big_eq(&upper, &zero) {
                proof {
                    assert((s + k + 2) * w <= (s + 2 * n) * w) by (nonlinear_arith)
                        requires
                            k + 2 <= 2 * n,
                            w >= 0,
                    ;
                    assert((s + used) * w <= (s + k + 2) * w) by (nonlinear_arith)
                        requires
                            used <= k + 2,
                            w >= 0,
                    ;
                }
                dst.write_chunk(write_index + 1, &upper);
                used = write_index - start_index + 2;
                proof {
                    assert(middle.chunk(s + k + 1) == 0);
                    middle.lemma_written_number(dst, s + k + 1, up, s, (2 * n) as nat);
                    lemma_npow_positive(base, (k + 1) as nat);
                    let pnext = npow(base, (k + 1) as nat);
                    assert(0 * pnext == 0) by (nonlinear_arith);
                    if ri != n - 2 {
                        assert(dst.chunk(s + 2 * n - 1) == middle.chunk(s + 2 * n - 1));
                    }
                }
            }
            carry = big_zero();
            proof {
                let d2 = dst.number(s, (2 * n) as nat);
                let d1 = middle.number(s, (2 * n) as nat);
                let pnext = npow(base, (k + 1) as nat);
                assert(d2 == d0 + car * p) by (nonlinear_arith)
                    requires
                        d1 + prev * p == d0 + lo * p,
                        d2 == d1 + up * pnext,
                        pnext == base * p,
                        prev + car == up * base + lo,
                ;
            }
        } else {
            proof {
                let p = npow(base, (ri + n) as nat);
                assert(0 * p == 0) by (nonlinear_arith);
            }
        }
        proof {
            assert(rows_partial(x, base, ri + 1) == rows_partial(x, base, ri) + row_partial(
                x,
                base,
                ri,
                n,
            ));
        }
        i += 1;
    }
    proof {
        lemma_rows_complete(x, base);
        if n > 0 {
            let d = dst.digits(s, (2 * n) as nat);
            assert forall|q: int| 0 <= q < d.len() implies d[q] < base by {
                dst.lemma_chunk_bound(s + q);
            }
            crate::radix::lemma_radix_value_top_digit(d, base);
            assert(d[2 * n - 1] == dst.chunk(s + 2 * n - 1));
        }
        if used == 0 {
            dst.lemma_number_trim(s, 1, 0);
            assert(dst.digits(s, 0) =~= Seq::<nat>::empty());
            assert(x =~= Seq::<nat>::empty());
        } else {
            dst.lemma_number_trim(s, (2 * n) as nat, used as nat);
        }
    }
    if used == 0 {
        1
    } else {
        used
    }
}

} // verus!
