//! Little-endian byte strings read as natural numbers.

use crate::radix::{
    digits_below, lemma_npow_increases, lemma_radix_value_bound, lemma_radix_value_concat,
    lemma_radix_value_digit_le, lemma_radix_value_single, lemma_radix_value_trailing_zeros,
    npow, radix_value,
};
use vstd::prelude::*;

verus! {

/// The bytes of `s` as digits of base 256.
pub open spec fn byte_digits(s: Seq<u8>) -> Seq<nat> {
    Seq::new(s.len(), |i: int| s[i] as nat)
}

/// The natural number that the byte string `s` denotes, least significant
/// byte first.
pub open spec fn le_value(s: Seq<u8>) -> nat {
    radix_value(byte_digits(s), 256)
}

/// `s` is the shortest byte string for its value that is not empty: it has
/// no zero byte at its upper end, except that zero is the single byte `0`.
pub open spec fn is_minimal(s: Seq<u8>) -> bool {
    s.len() >= 1 && (s.len() == 1 || s[s.len() - 1] != 0)
}

/// The byte string of length `n` that is all zero.
pub open spec fn zero_bytes(n: nat) -> Seq<u8> {
    Seq::new(n, |i: int| 0u8)
}

pub proof fn lemma_le_value_empty()
    ensures
        le_value(Seq::<u8>::empty()) == 0,
{
    assert(byte_digits(Seq::<u8>::empty()) =~= Seq::<nat>::empty());
}

pub proof fn lemma_le_value_concat(a: Seq<u8>, b: Seq<u8>)
    ensures
        le_value(a + b) == le_value(a) + npow(256, a.len()) * le_value(b),
{
    assert(byte_digits(a + b) =~= byte_digits(a) + byte_digits(b));
    lemma_radix_value_concat(byte_digits(a), byte_digits(b), 256);
}

pub proof fn lemma_le_value_bound(s: Seq<u8>)
    ensures
        le_value(s) < npow(256, s.len()),
{
    assert(digits_below(byte_digits(s), 256));
    lemma_radix_value_bound(byte_digits(s), 256);
}

/// Zero bytes at the upper end do not change the value.
pub proof fn lemma_le_value_zero_extended(s: Seq<u8>, n: int)
    requires
        0 <= n <= s.len(),
        forall|i: int| n <= i < s.len() ==> s[i] == 0,
    ensures
        le_value(s) == le_value(s.take(n)),
{
    lemma_radix_value_trailing_zeros(byte_digits(s), n, 256);
    assert(byte_digits(s).take(n) =~= byte_digits(s.take(n)));
}

pub proof fn lemma_le_value_single(b: u8)
    ensures
        le_value(seq![b]) == b,
{
    assert(byte_digits(seq![b]) =~= seq![b as nat]);
    lemma_radix_value_single(b as nat, 256);
}

/// A minimal byte string of two or more bytes denotes at least the power of
/// 256 that its top byte stands at.
pub proof fn lemma_minimal_lower_bound(s: Seq<u8>)
    requires
        is_minimal(s),
        s.len() >= 2,
    ensures
        npow(256, (s.len() - 1) as nat) <= le_value(s),
{
    let k = s.len() - 1;
    let d = byte_digits(s);
    lemma_radix_value_digit_le(d, k, 256);
    let top = d[k];
    let p = npow(256, k as nat);
    assert(top >= 1);
    assert(p <= top * p) by (nonlinear_arith)
        requires
            top >= 1,
            p >= 0,
    ;
}

/// A minimal byte string is no longer than the width its value fits in.
pub proof fn lemma_minimal_len(s: Seq<u8>, w: nat)
    requires
        is_minimal(s),
        w >= 1,
        le_value(s) < npow(256, w),
    ensures
        s.len() <= w,
{
    if s.len() > w {
        let k = s.len() - 1;
        let d = byte_digits(s);
        lemma_radix_value_digit_le(d, k, 256);
        lemma_npow_increases(256, w, k as nat);
        let top = d[k];
        let p = npow(256, k as nat);
        assert(top >= 1);
        assert(p <= top * p) by (nonlinear_arith)
            requires
                top >= 1,
                p >= 0,
        ;
    }
}

} // verus!
