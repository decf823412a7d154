//! The Fermat reducer: reduction of a chunked integer modulo
//! `M = B^max_size + 1` in place. Since `B^max_size` is congruent to `-1`
//! modulo `M`, the most significant chunk is folded back by a subtraction
//! `max_size` positions further down, until the number fits.

use crate::big::{big_add, big_eq, big_lt, big_one, big_sub, big_value, big_zero};
use crate::number::{chunk_base, lemma_bits_radix};
use crate::radix::{
    lemma_npow_adds, lemma_npow_increases, lemma_npow_positive, lemma_npow_unfold,
    lemma_radix_value_bound, lemma_radix_value_update, lemma_radix_value_zero_digits,
    lemma_radix_value_zeros, npow, radix_value,
};
use crate::store::{extended_len, ChunkStore};
use num_bigint::BigUint;
use vstd::arithmetic::div_mod::{lemma_mod_multiples_vanish, lemma_small_mod};
use vstd::prelude::*;

verus! {

/// What the reducer does with the most significant chunk.
#[derive(Clone, Copy, Debug, PartialEq, Eq, Structural)]
pub enum ReduceCase {
    /// The chunk is zero: it is dropped.
    MscZero,
    /// The chunk is one and is the only chunk above `max_size`.
    MscOneBoundary,
    /// The chunk is one and more chunks above `max_size` lie below it.
    MscOneGeneral,
    /// The chunk is larger than one.
    MscLarge,
}

/// The modulus `M = B^max_size + 1`.
pub open spec fn fermat_modulus(base: nat, max_size: nat) -> nat {
    npow(base, max_size) + 1
}

/// What reduction leaves of a number `v` of `size` chunks: a number of at
/// most `max_size` chunks stays as it is, and any other becomes its residue
/// modulo `M`.
pub open spec fn reduced_value(v: nat, size: nat, base: nat, max_size: nat) -> nat {
    if size <= max_size {
        v
    } else {
        v % fermat_modulus(base, max_size)
    }
}

/// The number of chunks that the residue of a number `v` of `size` chunks is
/// left in: a number of at most `max_size` chunks keeps its count, the
/// residue `M - 1` takes `max_size + 1` chunks, and any other `max_size`.
pub open spec fn reduced_size(v: nat, size: nat, base: nat, max_size: nat) -> nat {
    if size <= max_size {
        size
    } else if v % fermat_modulus(base, max_size) == npow(base, max_size) {
        max_size + 1
    } else {
        max_size
    }
}

/// Reduction is idempotent: reducing what a reduction left changes neither
/// the value nor the chunk count.
pub proof fn lemma_reduction_idempotent(v: nat, size: nat, base: nat, max_size: nat)
    ensures
        reduced_value(
            reduced_value(v, size, base, max_size),
            reduced_size(v, size, base, max_size),
            base,
            max_size,
        ) == reduced_value(v, size, base, max_size),
        reduced_size(
            reduced_value(v, size, base, max_size),
            reduced_size(v, size, base, max_size),
            base,
            max_size,
        ) == reduced_size(v, size, base, max_size),
        reduced_size(v, size, base, max_size) <= size || size == 0,
{
    let m = fermat_modulus(base, max_size);
    vstd::arithmetic::div_mod::lemma_mod_twice(v as int, m as int);
}

/// The case that a most significant chunk of value `msc` falls under, in a
/// number of `size` chunks.
pub open spec fn reduce_case(msc: nat, size: nat, max_size: nat) -> ReduceCase {
    if msc == 0 {
        ReduceCase::MscZero
    } else if msc == 1 {
        if size == max_size + 1 {
            ReduceCase::MscOneBoundary
        } else {
            ReduceCase::MscOneGeneral
        }
    } else {
        ReduceCase::MscLarge
    }
}

/// `b` is `a` after one was borrowed at chunk `from`: the chunks from `from`
/// up to `last` were zero and are now `B - 1`, and chunk `last` is one less.
pub open spec fn borrowed(a: &ChunkStore, b: &ChunkStore, from: int, last: int) -> bool {
    &&& b.width() == a.width()
    &&& from <= last
    &&& a.chunk(last) >= 1
    &&& forall|j: int| from <= j < last ==> #[trigger] a.chunk(j) == 0
    &&& forall|j: int|
        #[trigger] b.chunk(j) == if from <= j < last {
            (a.base() - 1) as nat
        } else if j == last {
            (a.chunk(j) - 1) as nat
        } else {
            a.chunk(j)
        }
    &&& b.bytes().len() == extended_len(a.bytes().len(), last + 1, a.width())
}

/// Borrowing one at digit `from` takes `base^from` off the number.
pub proof fn lemma_borrow_value(d: Seq<nat>, e: Seq<nat>, base: nat, from: int, last: int)
    requires
        base >= 1,
        e.len() == d.len(),
        0 <= from <= last < d.len(),
        d[last] >= 1,
        forall|p: int| from <= p < last ==> d[p] == 0,
        forall|p: int|
            0 <= p < d.len() ==> e[p] == if from <= p < last {
                (base - 1) as nat
            } else if p == last {
                (d[p] - 1) as nat
            } else {
                d[p]
            },
    ensures
        radix_value(e, base) + npow(base, from as nat) == radix_value(d, base),
    decreases last - from,
{
    let p = npow(base, from as nat);
    if from == last {
        assert(e =~= d.update(last, (d[last] - 1) as nat));
        lemma_radix_value_update(d, last, (d[last] - 1) as nat, base);
        let x = d[last];
        assert((x - 1) * p + p == x * p) by (nonlinear_arith);
    } else {
        let m = e.update(from, 0);
        lemma_borrow_value(d, m, base, from + 1, last);
        assert(e =~= m.update(from, (base - 1) as nat));
        lemma_radix_value_update(m, from, (base - 1) as nat, base);
        lemma_npow_unfold(base, from as nat);
        assert(0 * p == 0) by (nonlinear_arith);
        assert((base - 1) * p + p == base * p) by (nonlinear_arith);
    }
}

/// Borrowing one at chunk `from` takes `B^from` off every number that holds
/// the chunks from `from` to `last`.
pub proof fn lemma_borrowed_number(a: &ChunkStore, b: &ChunkStore, from: int, last: int, size: nat)
    requires
        a.wf(),
        borrowed(a, b, from, last),
        0 <= from,
        last < size,
    ensures
        b.number(0, size) + npow(a.base(), from as nat) == a.number(0, size),
{
    lemma_bits_radix(a.width());
    lemma_borrow_value(a.digits(0, size), b.digits(0, size), a.base(), from, last);
}

/// Tells the four cases apart.
pub fn classify(msc: &BigUint, size: usize, max_size: usize) -> (c: ReduceCase)
    requires
        size > max_size,
    ensures
        c == reduce_case(big_value(*msc), size as nat, max_size as nat),
{
    let zero = big_zero();
    let one = big_one();
    if big_eq(msc, &zero) {
        ReduceCase::MscZero
    } else if big_eq(msc, &one) {
        if size - max_size == 1 {
            ReduceCase::MscOneBoundary
        } else {
            ReduceCase::MscOneGeneral
        }
    } else {
        ReduceCase::MscLarge
    }
}

/// Subtracts `amount` from chunk `index`. Where the chunk is the smaller
/// one, the base is added first and the borrow is handed back: it is owed by
/// the chunk above.
pub fn sub_at(store: &mut ChunkStore, index: usize, amount: &BigUint) -> (borrow: bool)
    requires
        old(store).wf(),
        big_value(*amount) <= old(store).base(),
        (index + 1) * old(store).width() <= usize::MAX,
    ensures
        final(store).wf(),
        borrow == (old(store).chunk(index as int) < big_value(*amount)),
        old(store).written(
            final(store),
            index as int,
            if borrow {
                (old(store).chunk(index as int) + old(store).base() - big_value(*amount)) as nat
            } else {
                (old(store).chunk(index as int) - big_value(*amount)) as nat
            },
        ),
{
    let x = store.read_chunk(index);
    let borrow = big_lt(&x, amount);
    let y = if borrow {
        let base = chunk_base(store.chunk_width());
        big_sub(&big_add(&x, &base), amount)
    } else {
        big_sub(&x, amount)
    };
    store.write_chunk(index, &y);
    borrow
}

/// Borrows one from chunk `index`: a zero chunk becomes `B - 1` and the
/// borrow goes on to the chunk above; any other chunk is decremented and the
/// borrow ends.
pub fn borrow_at(store: &mut ChunkStore, index: usize, minus_one: &BigUint) -> (borrow: bool)
    requires
        old(store).wf(),
        big_value(*minus_one) == old(store).base() - 1,
        (index + 1) * old(store).width() <= usize::MAX,
    ensures
        final(store).wf(),
        borrow == (old(store).chunk(index as int) == 0),
        old(store).written(
            final(store),
            index as int,
            if borrow {
                (old(store).base() - 1) as nat
            } else {
                (old(store).chunk(index as int) - 1) as nat
            },
        ),
{
    let x = store.read_chunk(index);
    let zero = big_zero();
    if big_eq(&x, &zero) {
        store.write_chunk(index, minus_one);
        true
    } else {
        let one = big_one();
        let y = big_sub(&x, &one);
        store.write_chunk(index, &y);
        false
    }
}

/// Borrows one at chunk `from` and carries the borrow upwards until a chunk
/// that is not zero pays it, which chunk `stop` does at the latest. Returns
/// the chunk that paid.
pub fn propagate_borrow(
    store: &mut ChunkStore,
    from: usize,
    stop: usize,
    minus_one: &BigUint,
) -> (last: usize)
    requires
        old(store).wf(),
        big_value(*minus_one) == old(store).base() - 1,
        from <= stop,
        old(store).chunk(stop as int) != 0,
        (stop + 1) * old(store).width() <= usize::MAX,
    ensures
        final(store).wf(),
        from <= last <= stop,
        borrowed(old(store), final(store), from as int, last as int),
{
    let ghost before = *store;
    let ghost w = store.width() as int;
    let mut idx: usize = from;
    let mut borrow = true;
    while borrow
        invariant
            store.wf(),
            store.width() == before.width(),
            w == before.width(),
            big_value(*minus_one) == before.base() - 1,
            (stop + 1) * w <= usize::MAX,
            from <= idx <= stop,
            before.chunk(stop as int) != 0,
            borrow ==> forall|j: int| from <= j < idx ==> #[trigger] before.chunk(j) == 0,
            borrow ==> forall|j: int|
                #[trigger] store.chunk(j) == if from <= j < idx {
                    (before.base() - 1) as nat
                } else {
                    before.chunk(j)
                },
            borrow ==> store.bytes().len() == if idx == from {
                before.bytes().len() as int
            } else {
                extended_len(before.bytes().len(), idx as int, before.width())
            },
            !borrow ==> borrowed(&before, store, from as int, idx as int),
        decreases stop - idx + if borrow { 1int } else { 0int },
    {
        proof {
            assert((idx + 1) * w <= (stop + 1) * w) by (nonlinear_arith)
                requires
                    idx <= stop,
                    w >= 0,
            ;
            assert(idx * w <= (idx + 1) * w) by (nonlinear_arith)
                requires
                    w >= 0,
            ;
        }
        borrow = borrow_at(store, idx, minus_one);
        if borrow {
            idx += 1;
        }
    }
    idx
}

/// The fold for a most significant chunk `msc > 1`: the chunk is set to one,
/// and `msc - 1` is subtracted `max_size` chunks further down. A borrow is
/// carried upwards; where it reaches the most significant chunk, that chunk
/// becomes zero and is dropped. Returns the new chunk count.
#[verifier::rlimit(40)]
pub fn fold_large(
    store: &mut ChunkStore,
    max_size: usize,
    size: usize,
    msc: &BigUint,
    minus_one: &BigUint,
) -> (r: usize)
    requires
        old(store).wf(),
        max_size >= 1,
        size > max_size,
        size * old(store).width() <= usize::MAX,
        big_value(*minus_one) == old(store).base() - 1,
        big_value(*msc) == old(store).chunk(size - 1),
        big_value(*msc) >= 2,
    ensures
        final(store).wf(),
        final(store).width() == old(store).width(),
        final(store).number(0, size as nat) + (big_value(*msc) - 1) * npow(
            old(store).base(),
            (size - 1 - max_size) as nat,
        ) * fermat_modulus(old(store).base(), max_size as nat) == old(store).number(
            0,
            size as nat,
        ),
        forall|j: int| j >= size ==> #[trigger] final(store).chunk(j) == old(store).chunk(j),
        final(store).chunk(size - 1) <= 1,
        r == if final(store).chunk(size - 1) == 0 {
            size - 1
        } else {
            size as int
        },
        final(store).number(0, r as nat) == final(store).number(0, size as nat),
        final(store).bytes().len() == extended_len(
            old(store).bytes().len(),
            size as int,
            old(store).width(),
        ),
{
    let ghost a0 = *store;
    let ghost base = store.base();
    let ghost w = store.width() as int;
    let ghost m = max_size as nat;
    let ghost p = (size - 1) as int;
    let ghost t = (size - 1 - max_size) as int;
    let ghost sz = size as nat;
    let ghost mv = big_value(*msc);
    proof {
        lemma_bits_radix(store.width());
        a0.lemma_chunk_bound(p);
        assert((t + 1) * w <= size * w) by (nonlinear_arith)
            requires
                t + 1 <= size,
                w >= 0,
        ;
    }
    let one = big_one();
    let s = big_sub(msc, &one);
    store.write_chunk(size - 1, &one);
    let ghost a1 = *store;
    let sub_from = size - 1 - max_size;
    let borrow = sub_at(store, sub_from, &s);
    let ghost a2 = *store;
    let mut last: usize = sub_from;
    if borrow {
        last = propagate_borrow(store, sub_from + 1, size - 1, minus_one);
    }
    proof {
        let whole = size * w;
        assert((p + 1) * w == whole);
        assert((last + 1) * w <= whole) by (nonlinear_arith)
            requires
                last + 1 <= size,
                w >= 0,
                whole == size * w,
        ;
        assert(a1.bytes().len() == extended_len(a0.bytes().len(), size as int, a0.width()));
        assert(a2.bytes().len() == a1.bytes().len());
        assert(store.bytes().len() == a2.bytes().len());
    }
    proof {
        let pp = npow(base, p as nat);
        let pt = npow(base, t as nat);
        let pm = npow(base, m);
        lemma_npow_adds(base, t as nat, m);
        lemma_npow_unfold(base, t as nat);
        let v0 = a0.number(0, sz);
        let v1 = a1.number(0, sz);
        let v2 = a2.number(0, sz);
        let vf = store.number(0, sz);
        let sv = (mv - 1) as nat;
        let x = a1.chunk(t);
        a0.lemma_written_number(&a1, p, 1, 0, sz);
        assert(v1 + sv * pp == v0) by (nonlinear_arith)
            requires
                v1 + mv * pp == v0 + 1 * pp,
                sv == mv - 1,
        ;
        if borrow {
            let y = (x + base - sv) as nat;
            a1.lemma_written_number(&a2, t, y, 0, sz);
            lemma_borrowed_number(&a2, store, t + 1, last as int, sz);
            let ptnext = npow(base, (t + 1) as nat);
            assert(vf + sv * pt == v1) by (nonlinear_arith)
                requires
                    v2 + x * pt == v1 + y * pt,
                    y == x + base - sv,
                    vf + ptnext == v2,
                    ptnext == base * pt,
            ;
        } else {
            let y = (x - sv) as nat;
            a1.lemma_written_number(&a2, t, y, 0, sz);
            assert(vf + sv * pt == v1) by (nonlinear_arith)
                requires
                    vf + x * pt == v1 + y * pt,
                    y == x - sv,
            ;
        }
        assert(vf + sv * pt * (pm + 1) == v0) by (nonlinear_arith)
            requires
                vf + sv * pt == v1,
                v1 + sv * pp == v0,
                pp == pt * pm,
        ;
        if store.chunk(p) == 0 {
            store.lemma_number_trim(0, sz, (sz - 1) as nat);
        }
    }
    if borrow && last == size - 1 {
        size - 1
    } else {
        size
    }
}

/// The fold for a most significant chunk of one with further chunks above
/// `max_size` below it. The chunk is cleared. The chunk below it, of value
/// `c`, is set to `B - 1`, and `c + 1` is subtracted `max_size` chunks
/// further down, with the borrow carried upwards. Returns the new chunk
/// count, one less than before.
#[verifier::rlimit(40)]
pub fn fold_one(store: &mut ChunkStore, max_size: usize, size: usize, minus_one: &BigUint) -> (r:
    usize)
    requires
        old(store).wf(),
        max_size >= 1,
        size > max_size + 1,
        size * old(store).width() <= usize::MAX,
        big_value(*minus_one) == old(store).base() - 1,
        old(store).chunk(size - 1) == 1,
    ensures
        final(store).wf(),
        final(store).width() == old(store).width(),
        final(store).number(0, size as nat) + (old(store).chunk(size - 2) + 1) * npow(
            old(store).base(),
            (size - 2 - max_size) as nat,
        ) * fermat_modulus(old(store).base(), max_size as nat) == old(store).number(
            0,
            size as nat,
        ),
        forall|j: int| j >= size ==> #[trigger] final(store).chunk(j) == old(store).chunk(j),
        final(store).chunk(size - 1) == 0,
        r == size - 1,
        final(store).number(0, r as nat) == final(store).number(0, size as nat),
        final(store).bytes().len() == extended_len(
            old(store).bytes().len(),
            size as int,
            old(store).width(),
        ),
{
    let ghost a0 = *store;
    let ghost base = store.base();
    let ghost w = store.width() as int;
    let ghost m = max_size as nat;
    let ghost p = (size - 1) as int;
    let ghost t = (size - 2 - max_size) as int;
    let ghost sz = size as nat;
    proof {
        lemma_bits_radix(store.width());
        a0.lemma_chunk_bound(p - 1);
        assert((t + 1) * w <= size * w) by (nonlinear_arith)
            requires
                t + 1 <= size,
                w >= 0,
        ;
        assert((p - 1 + 1) * w <= size * w) by (nonlinear_arith)
            requires
                p <= size,
                w >= 0,
        ;
    }
    let zero = big_zero();
    let one = big_one();
    store.write_chunk(size - 1, &zero);
    let ghost a1 = *store;
    let below = store.read_chunk(size - 2);
    let val = big_add(&below, &one);
    store.write_chunk(size - 2, minus_one);
    let ghost a2 = *store;
    let sub_from = size - 2 - max_size;
    let borrow = sub_at(store, sub_from, &val);
    let ghost a3 = *store;
    let mut last: usize = sub_from;
    if borrow {
        last = propagate_borrow(store, sub_from + 1, size - 2, minus_one);
    }
    proof {
        let whole = size * w;
        assert((p + 1) * w == whole);
        assert((last + 1) * w <= whole) by (nonlinear_arith)
            requires
                last + 1 <= size,
                w >= 0,
                whole == size * w,
        ;
        assert(a1.bytes().len() == extended_len(a0.bytes().len(), size as int, a0.width()));
        assert(a2.bytes().len() == a1.bytes().len());
        assert(a3.bytes().len() == a2.bytes().len());
        assert(store.bytes().len() == a3.bytes().len());
    }
    proof {
        let pp = npow(base, p as nat);
        let pq = npow(base, (p - 1) as nat);
        let pt = npow(base, t as nat);
        let pm = npow(base, m);
        lemma_npow_adds(base, t as nat, m);
        lemma_npow_unfold(base, t as nat);
        lemma_npow_unfold(base, (p - 1) as nat);
        let v0 = a0.number(0, sz);
        let v1 = a1.number(0, sz);
        let v2 = a2.number(0, sz);
        let v3 = a3.number(0, sz);
        let vf = store.number(0, sz);
        let c = a0.chunk(p - 1);
        let cv = c + 1;
        let x = a2.chunk(t);
        a0.lemma_written_number(&a1, p, 0, 0, sz);
        a1.lemma_written_number(&a2, p - 1, (base - 1) as nat, 0, sz);
        assert(v2 + cv * pq == v0) by (nonlinear_arith)
            requires
                v1 + 1 * pp == v0 + 0 * pp,
                v2 + c * pq == v1 + (base - 1) * pq,
                pp == base * pq,
                cv == c + 1,
        ;
        if borrow {
            let y = (x + base - cv) as nat;
            a2.lemma_written_number(&a3, t, y, 0, sz);
            lemma_borrowed_number(&a3, store, t + 1, last as int, sz);
            let ptnext = npow(base, (t + 1) as nat);
            assert(vf + cv * pt == v2) by (nonlinear_arith)
                requires
                    v3 + x * pt == v2 + y * pt,
                    y == x + base - cv,
                    vf + ptnext == v3,
                    ptnext == base * pt,
            ;
        } else {
            let y = (x - cv) as nat;
            a2.lemma_written_number(&a3, t, y, 0, sz);
            assert(vf + cv * pt == v2) by (nonlinear_arith)
                requires
                    vf + x * pt == v2 + y * pt,
                    y == x - cv,
            ;
        }
        assert(vf + cv * pt * (pm + 1) == v0) by (nonlinear_arith)
            requires
                vf + cv * pt == v2,
                v2 + cv * pq == v0,
                pq == pt * pm,
        ;
        store.lemma_number_trim(0, sz, (sz - 1) as nat);
    }
    size - 1
}

/// The fold for a most significant chunk of one that is the only chunk
/// above `max_size`. Where all chunks below it are zero, the number is
/// `B^max_size`, the residue `M - 1`, and stays as it is. Otherwise one is
/// subtracted from the chunks below, and the most significant chunk is
/// cleared and dropped. Returns the new chunk count.
#[verifier::rlimit(40)]
pub fn fold_one_boundary(
    store: &mut ChunkStore,
    max_size: usize,
    size: usize,
    minus_one: &BigUint,
) -> (r: usize)
    requires
        old(store).wf(),
        max_size >= 1,
        size == max_size + 1,
        size * old(store).width() <= usize::MAX,
        big_value(*minus_one) == old(store).base() - 1,
        old(store).chunk(size - 1) == 1,
    ensures
        final(store).wf(),
        final(store).width() == old(store).width(),
        old(store).number(0, max_size as nat) == 0 ==> r == size && *final(store) == *old(store),
        old(store).number(0, max_size as nat) != 0 ==> r == max_size && final(store).number(
            0,
            size as nat,
        ) + fermat_modulus(old(store).base(), max_size as nat) == old(store).number(
            0,
            size as nat,
        ) && final(store).chunk(size - 1) == 0 && final(store).number(0, r as nat)
            == final(store).number(0, size as nat) && final(store).bytes().len() == extended_len(
            old(store).bytes().len(),
            size as int,
            old(store).width(),
        ),
        forall|j: int| j >= size ==> #[trigger] final(store).chunk(j) == old(store).chunk(j),
{
    let ghost a0 = *store;
    let ghost base = store.base();
    let ghost w = store.width() as int;
    let ghost m = max_size as nat;
    let ghost sz = size as nat;
    proof {
        lemma_bits_radix(store.width());
    }
    let zero = big_zero();
    let mut z: usize = 0;
    let mut seeking = true;
    while seeking && z < max_size
        invariant
            store.wf(),
            *store == a0,
            big_value(zero) == 0,
            0 <= z <= max_size,
            forall|j: int| 0 <= j < z ==> #[trigger] store.chunk(j) == 0,
            !seeking ==> z < max_size && store.chunk(z as int) != 0,
        decreases max_size - z + if seeking { 1int } else { 0int },
    {
        let x = store.read_chunk(z);
        if big_eq(&x, &zero) {
            z += 1;
        } else {
            seeking = false;
        }
    }
    if seeking {
        proof {
            let d = a0.digits(0, m);
            assert forall|q: int| 0 <= q < d.len() implies d[q] == 0 by {
                assert(a0.chunk(q) == 0);
            }
            lemma_radix_value_zeros(d, base);
        }
        return size;
    }
    proof {
        if a0.number(0, m) == 0 {
            lemma_radix_value_zero_digits(a0.digits(0, m), base);
            assert(a0.digits(0, m)[z as int] == 0);
        }
        assert((z + 1) * w <= size * w) by (nonlinear_arith)
            requires
                z + 1 <= size,
                w >= 0,
        ;
    }
    let last = propagate_borrow(store, 0, z, minus_one);
    let ghost a1 = *store;
    store.write_chunk(size - 1, &zero);
    proof {
        let pm = npow(base, m);
        lemma_npow_unfold(base, 0);
        lemma_borrowed_number(&a0, &a1, 0, last as int, sz);
        a1.lemma_written_number(store, m as int, 0, 0, sz);
        let v0 = a0.number(0, sz);
        let v1 = a1.number(0, sz);
        let vf = store.number(0, sz);
        assert(a1.chunk(m as int) == 1);
        assert(vf + (pm + 1) == v0) by (nonlinear_arith)
            requires
                v1 + 1 == v0,
                vf + 1 * pm == v1 + 0 * pm,
        ;
        store.lemma_number_trim(0, sz, m);
    }
    max_size
}

/// Reduces the chunked integer of `size` chunks at the bottom of the store
/// modulo `M = B^max_size + 1`, in place. What is left is the residue
/// itself: a number below `M`, in at most `max_size + 1` chunks. Returns its
/// chunk count. A number of at most `max_size` chunks is left as it is.
#[verifier::rlimit(40)]
pub fn modulo(max_size: usize, minus_one: &BigUint, store: &mut ChunkStore, size: usize) -> (r:
    usize)
    requires
        old(store).wf(),
        max_size >= 1,
        size * old(store).width() <= usize::MAX,
        big_value(*minus_one) == old(store).base() - 1,
    ensures
        final(store).wf(),
        final(store).width() == old(store).width(),
        size <= max_size ==> r == size && *final(store) == *old(store),
        final(store).number(0, r as nat) == reduced_value(
            old(store).number(0, size as nat),
            size as nat,
            old(store).base(),
            max_size as nat,
        ),
        r == reduced_size(
            old(store).number(0, size as nat),
            size as nat,
            old(store).base(),
            max_size as nat,
        ),
        forall|j: int| r <= j < size ==> #[trigger] final(store).chunk(j) == 0,
        forall|j: int| j >= size ==> #[trigger] final(store).chunk(j) == old(store).chunk(j),
        old(store).bytes().len() <= final(store).bytes().len() <= extended_len(
            old(store).bytes().len(),
            size as int,
            old(store).width(),
        ),
{
    let ghost a0 = *store;
    let ghost base = store.base();
    let ghost m = max_size as nat;
    let ghost modulus = fermat_modulus(base, m);
    let ghost v0 = a0.number(0, size as nat);
    let ghost w = store.width() as int;
    proof {
        lemma_bits_radix(store.width());
        lemma_npow_positive(base, m);
    }
    if size <= max_size {
        return size;
    }
    let mut cur: usize = size;
    while cur > max_size
        invariant
            store.wf(),
            a0 == *old(store),
            store.width() == a0.width(),
            w == a0.width(),
            base == a0.base(),
            base >= 256,
            m == max_size,
            max_size >= 1,
            modulus == fermat_modulus(base, m),
            modulus >= 2,
            v0 == a0.number(0, size as nat),
            size * w <= usize::MAX,
            big_value(*minus_one) == base - 1,
            max_size <= cur <= size,
            store.number(0, cur as nat) % modulus == v0 % modulus,
            forall|j: int| cur <= j < size ==> #[trigger] store.chunk(j) == 0,
            forall|j: int| j >= size ==> #[trigger] store.chunk(j) == a0.chunk(j),
            a0.bytes().len() <= store.bytes().len() <= extended_len(
                a0.bytes().len(),
                size as int,
                a0.width(),
            ),
        decreases
                cur,
                (if store.chunk(cur - 1) >= 2 {
                    1int
                } else {
                    0int
                }),
    {
        proof {
            assert(cur * w <= size * w) by (nonlinear_arith)
                requires
                    cur <= size,
                    w >= 0,
            ;
        }
        let ghost before = *store;
        let ghost vb = before.number(0, cur as nat);
        let msc = store.read_chunk(cur - 1);
        match classify(&msc, cur, max_size) {
            ReduceCase::MscZero => {
                proof {
                    store.lemma_number_trim(0, cur as nat, (cur - 1) as nat);
                }
                cur = cur - 1;
            },
            ReduceCase::MscOneBoundary => {
                let r = fold_one_boundary(store, max_size, cur, minus_one);
                if r == cur {
                    proof {
                        // the number is B^max_size, which is M - 1
                        let d = store.digits(0, cur as nat);
                        crate::radix::lemma_radix_value_split(d, m as int, base);
                        assert(d.take(m as int) =~= store.digits(0, m));
                        assert(d.skip(m as int) =~= seq![1nat]);
                        crate::radix::lemma_radix_value_single(1, base);
                        let pm = npow(base, m);
                        assert(pm * 1 == pm) by (nonlinear_arith);
                        assert(vb == pm);
                        lemma_small_mod(pm, modulus);
                    }
                    return cur;
                }
                proof {
                    let vf = store.number(0, cur as nat);
                    lemma_mod_multiples_vanish(1, vf as int, modulus as int);
                    assert(modulus * 1 == modulus) by (nonlinear_arith);
                }
                cur = r;
            },
            ReduceCase::MscOneGeneral => {
                let r = fold_one(store, max_size, cur, minus_one);
                proof {
                    let vf = store.number(0, cur as nat);
                    let k = (before.chunk(cur - 2) + 1) * npow(base, (cur - 2 - max_size) as nat);
                    lemma_mod_multiples_vanish(k as int, vf as int, modulus as int);
                    assert(modulus * k == k * modulus) by (nonlinear_arith);
                }
                cur = r;
            },
            ReduceCase::MscLarge => {
                let r = fold_large(store, max_size, cur, &msc, minus_one);
                proof {
                    let vf = store.number(0, cur as nat);
                    let k = (big_value(msc) - 1) * npow(base, (cur - 1 - max_size) as nat);
                    lemma_mod_multiples_vanish(k as int, vf as int, modulus as int);
                    assert(modulus * k == k * modulus) by (nonlinear_arith);
                }
                cur = r;
            },
        }
    }
    proof {
        let d = store.digits(0, m);
        assert forall|q: int| 0 <= q < d.len() implies d[q] < base by {
            store.lemma_chunk_bound(q);
        }
        lemma_radix_value_bound(d, base);
        lemma_small_mod(store.number(0, m), modulus);
    }
    cur
}

} // verus!
