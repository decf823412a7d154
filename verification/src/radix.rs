//! Positional notation: the number that a sequence of digits denotes in a
//! given base, least significant digit first, and the arithmetic facts about
//! it that the rest of the library builds on.

use vstd::prelude::*;

verus! {

/// `b` raised to the power `e`.
pub open spec fn npow(b: nat, e: nat) -> nat
    decreases e,
{
    if e == 0 {
        1
    } else {
        b * npow(b, (e - 1) as nat)
    }
}

/// The number that the digits `d` denote in base `base`, least significant
/// digit first: the sum of `d[i] * base^i`.
pub open spec fn radix_value(d: Seq<nat>, base: nat) -> nat
    decreases d.len(),
{
    if d.len() == 0 {
        0
    } else {
        d[0] + base * radix_value(d.drop_first(), base)
    }
}

/// Every digit of `d` is a proper digit of base `base`.
pub open spec fn digits_below(d: Seq<nat>, base: nat) -> bool {
    forall|i: int| 0 <= i < d.len() ==> d[i] < base
}

/// Digit `i` of the number `v` written in base `base`.
pub open spec fn digit_of(v: nat, base: nat, i: nat) -> nat {
    (v / npow(base, i)) % base
}

/// The `n` lowest digits of `v` in base `base`.
pub open spec fn digits_of(v: nat, base: nat, n: nat) -> Seq<nat> {
    Seq::new(n, |i: int| digit_of(v, base, i as nat))
}

pub proof fn lemma_npow_unfold(b: nat, e: nat)
    ensures
        npow(b, 0) == 1,
        npow(b, e + 1) == b * npow(b, e),
        npow(b, 1) == b,
{
    reveal_with_fuel(npow, 2);
    assert(b * 1 == b) by (nonlinear_arith);
}

pub proof fn lemma_npow_adds(b: nat, e1: nat, e2: nat)
    ensures
        npow(b, e1 + e2) == npow(b, e1) * npow(b, e2),
    decreases e1,
{
    if e1 == 0 {
        assert(npow(b, 0) == 1);
        assert(1 * npow(b, e2) == npow(b, e2)) by (nonlinear_arith);
    } else {
        let pa = npow(b, (e1 - 1) as nat);
        let pb = npow(b, e2);
        lemma_npow_adds(b, (e1 - 1) as nat, e2);
        assert(npow(b, e1 + e2) == b * npow(b, (e1 - 1 + e2) as nat));
        assert(b * (pa * pb) == (b * pa) * pb) by (nonlinear_arith);
    }
}

pub proof fn lemma_npow_positive(b: nat, e: nat)
    requires
        b > 0,
    ensures
        npow(b, e) > 0,
    decreases e,
{
    if e > 0 {
        let p = npow(b, (e - 1) as nat);
        lemma_npow_positive(b, (e - 1) as nat);
        assert(b * p > 0) by (nonlinear_arith)
            requires
                b > 0,
                p > 0,
        ;
    }
}

pub proof fn lemma_npow_increases(b: nat, e1: nat, e2: nat)
    requires
        b > 0,
        e1 <= e2,
    ensures
        npow(b, e1) <= npow(b, e2),
{
    let d = (e2 - e1) as nat;
    let p = npow(b, e1);
    let q = npow(b, d);
    lemma_npow_adds(b, e1, d);
    lemma_npow_positive(b, d);
    assert(p <= p * q) by (nonlinear_arith)
        requires
            q >= 1,
            p >= 0,
    ;
}

/// `(b^x)^y == b^(x*y)`.
pub proof fn lemma_npow_multiplies(b: nat, x: nat, y: nat)
    ensures
        npow(npow(b, x), y) == npow(b, x * y),
    decreases y,
{
    if y == 0 {
        assert(x * 0 == 0) by (nonlinear_arith);
    } else {
        lemma_npow_multiplies(b, x, (y - 1) as nat);
        assert(x * y == x + x * (y - 1)) by (nonlinear_arith);
        assert(x * (y - 1) >= 0) by (nonlinear_arith)
            requires
                y >= 1,
                x >= 0,
        ;
        lemma_npow_adds(b, x, (x * (y - 1)) as nat);
    }
}

pub proof fn lemma_radix_value_concat(a: Seq<nat>, b: Seq<nat>, base: nat)
    ensures
        radix_value(a + b, base) == radix_value(a, base) + npow(base, a.len()) * radix_value(
            b,
            base,
        ),
    decreases a.len(),
{
    let vb = radix_value(b, base);
    if a.len() == 0 {
        assert(a + b =~= b);
        assert(1 * vb == vb) by (nonlinear_arith);
    } else {
        let t = a.drop_first();
        assert((a + b).drop_first() =~= t + b);
        lemma_radix_value_concat(t, b, base);
        let p = npow(base, t.len());
        lemma_npow_unfold(base, t.len());
        let vt = radix_value(t, base);
        assert(base * (vt + p * vb) == base * vt + (base * p) * vb) by (nonlinear_arith);
    }
}

pub proof fn lemma_radix_value_single(x: nat, base: nat)
    ensures
        radix_value(seq![x], base) == x,
{
    assert(seq![x].drop_first() =~= Seq::<nat>::empty());
    assert(radix_value(Seq::<nat>::empty(), base) == 0);
    assert(base * 0 == 0) by (nonlinear_arith);
}

pub proof fn lemma_radix_value_push(d: Seq<nat>, x: nat, base: nat)
    ensures
        radix_value(d.push(x), base) == radix_value(d, base) + x * npow(base, d.len()),
{
    assert(d.push(x) =~= d + seq![x]);
    lemma_radix_value_concat(d, seq![x], base);
    lemma_radix_value_single(x, base);
    let p = npow(base, d.len());
    assert(p * x == x * p) by (nonlinear_arith);
}

/// Splitting the digits at position `k` splits the number at `base^k`.
pub proof fn lemma_radix_value_split(d: Seq<nat>, k: int, base: nat)
    requires
        0 <= k <= d.len(),
    ensures
        radix_value(d, base) == radix_value(d.take(k), base) + npow(base, k as nat) * radix_value(
            d.skip(k),
            base,
        ),
{
    assert(d =~= d.take(k) + d.skip(k));
    lemma_radix_value_concat(d.take(k), d.skip(k), base);
}

pub proof fn lemma_radix_value_bound(d: Seq<nat>, base: nat)
    requires
        digits_below(d, base),
    ensures
        radix_value(d, base) < npow(base, d.len()),
    decreases d.len(),
{
    if d.len() > 0 {
        let t = d.drop_first();
        assert(digits_below(t, base)) by {
            assert forall|i: int| 0 <= i < t.len() implies t[i] < base by {
                assert(t[i] == d[i + 1]);
            }
        }
        lemma_radix_value_bound(t, base);
        let vt = radix_value(t, base);
        let p = npow(base, t.len());
        let d0 = d[0];
        assert(d0 + base * vt < base * p) by (nonlinear_arith)
            requires
                d0 < base,
                vt < p,
        ;
    }
}

pub proof fn lemma_radix_value_zeros(d: Seq<nat>, base: nat)
    requires
        forall|i: int| 0 <= i < d.len() ==> d[i] == 0,
    ensures
        radix_value(d, base) == 0,
    decreases d.len(),
{
    if d.len() > 0 {
        let t = d.drop_first();
        assert forall|i: int| 0 <= i < t.len() implies t[i] == 0 by {
            assert(t[i] == d[i + 1]);
        }
        lemma_radix_value_zeros(t, base);
        assert(base * 0 == 0) by (nonlinear_arith);
    }
}

/// A number whose value is zero has only zero digits.
pub proof fn lemma_radix_value_zero_digits(d: Seq<nat>, base: nat)
    requires
        base > 0,
        radix_value(d, base) == 0,
    ensures
        forall|i: int| 0 <= i < d.len() ==> d[i] == 0,
    decreases d.len(),
{
    if d.len() > 0 {
        let t = d.drop_first();
        let vt = radix_value(t, base);
        assert(vt == 0) by (nonlinear_arith)
            requires
                base * vt == 0,
                base > 0,
                vt >= 0,
        ;
        lemma_radix_value_zero_digits(t, base);
        assert forall|i: int| 0 <= i < d.len() implies d[i] == 0 by {
            if i > 0 {
                assert(d[i] == t[i - 1]);
            }
        }
    }
}

/// Zero digits above position `n` do not change the number.
pub proof fn lemma_radix_value_trailing_zeros(d: Seq<nat>, n: int, base: nat)
    requires
        0 <= n <= d.len(),
        forall|i: int| n <= i < d.len() ==> d[i] == 0,
    ensures
        radix_value(d, base) == radix_value(d.take(n), base),
{
    lemma_radix_value_split(d, n, base);
    let hi = d.skip(n);
    assert forall|i: int| 0 <= i < hi.len() implies hi[i] == 0 by {
        assert(hi[i] == d[n + i]);
    }
    lemma_radix_value_zeros(hi, base);
    let p = npow(base, n as nat);
    assert(p * 0 == 0) by (nonlinear_arith);
}

/// Replacing digit `k` by `x` changes the number by `(x - d[k]) * base^k`.
pub proof fn lemma_radix_value_update(d: Seq<nat>, k: int, x: nat, base: nat)
    requires
        0 <= k < d.len(),
    ensures
        radix_value(d.update(k, x), base) + d[k] * npow(base, k as nat) == radix_value(d, base)
            + x * npow(base, k as nat),
{
    let e = d.update(k, x);
    let p = npow(base, k as nat);
    lemma_radix_value_split(d, k, base);
    lemma_radix_value_split(e, k, base);
    assert(e.take(k) =~= d.take(k));
    let dh = d.skip(k);
    let eh = e.skip(k);
    assert(eh.drop_first() =~= dh.drop_first());
    let r = radix_value(dh.drop_first(), base);
    assert(radix_value(dh, base) == d[k] + base * r);
    assert(radix_value(eh, base) == x + base * r);
    let dk = d[k];
    assert(p * (x + base * r) + dk * p == p * (dk + base * r) + x * p) by (nonlinear_arith);
}

/// The number is at least what its digit at position `k` alone contributes.
pub proof fn lemma_radix_value_digit_le(d: Seq<nat>, k: int, base: nat)
    requires
        0 <= k < d.len(),
    ensures
        d[k] * npow(base, k as nat) <= radix_value(d, base),
{
    lemma_radix_value_split(d, k, base);
    let dh = d.skip(k);
    let r = radix_value(dh.drop_first(), base);
    let p = npow(base, k as nat);
    let dk = d[k];
    assert(radix_value(dh, base) == dk + base * r);
    assert(dk * p <= p * (dk + base * r)) by (nonlinear_arith)
        requires
            p >= 0,
            dk >= 0,
            base * r >= 0,
    ;
}

/// The top digit is not zero exactly where the number reaches the power of
/// the base that the digit stands at.
pub proof fn lemma_radix_value_top_digit(d: Seq<nat>, base: nat)
    requires
        d.len() >= 1,
        digits_below(d, base),
    ensures
        d[d.len() - 1] != 0 <==> radix_value(d, base) >= npow(base, (d.len() - 1) as nat),
{
    let k = d.len() - 1;
    let p = npow(base, k as nat);
    let top = d[k];
    lemma_radix_value_digit_le(d, k, base);
    if top != 0 {
        assert(p <= top * p) by (nonlinear_arith)
            requires
                top >= 1,
                p >= 0,
        ;
    } else {
        lemma_radix_value_trailing_zeros(d, k, base);
        let low = d.take(k);
        assert(digits_below(low, base)) by {
            assert forall|i: int| 0 <= i < low.len() implies low[i] < base by {
                assert(low[i] == d[i]);
            }
        }
        lemma_radix_value_bound(low, base);
    }
}

/// Writing a number in base `base` and reading the digits back gives the
/// number again, up to the part that `n` digits can hold.
pub proof fn lemma_digits_of_value(v: nat, base: nat, n: nat)
    requires
        base > 0,
    ensures
        radix_value(digits_of(v, base, n), base) == v % npow(base, n),
        digits_below(digits_of(v, base, n), base),
    decreases n,
{
    let d = digits_of(v, base, n);
    assert(digits_below(d, base)) by {
        assert forall|i: int| 0 <= i < d.len() implies d[i] < base by {
            assert(d[i] == digit_of(v, base, i as nat));
        }
    }
    if n == 0 {
        assert(v % 1 == 0);
    } else {
        let m = (n - 1) as nat;
        let p = npow(base, m);
        lemma_npow_positive(base, m);
        lemma_npow_unfold(base, m);
        lemma_digits_of_value(v, base, m);
        assert(d =~= digits_of(v, base, m).push(digit_of(v, base, m)));
        lemma_radix_value_push(digits_of(v, base, m), digit_of(v, base, m), base);
        // v % (p * base) == v % p + p * ((v / p) % base)
        vstd::arithmetic::div_mod::lemma_mod_breakdown(v as int, p as int, base as int);
        assert(p * base == base * p) by (nonlinear_arith);
        let q = (v / p) % base;
        assert(q * p == p * q) by (nonlinear_arith);
    }
}

/// A number below `base^n` is the value of its `n` lowest digits.
pub proof fn lemma_digits_of_small(v: nat, base: nat, n: nat)
    requires
        base > 0,
        v < npow(base, n),
    ensures
        radix_value(digits_of(v, base, n), base) == v,
{
    lemma_digits_of_value(v, base, n);
    vstd::arithmetic::div_mod::lemma_small_mod(v, npow(base, n));
}

} // verus!
