//! The modulus descriptor: a modulus of the form `M = B^max_size + 1`, as a
//! Fermat number `F_n = 2^(2^n) + 1` gives it for a chunk width that divides
//! its bit count.

use crate::big::big_value;
use crate::error::ConfigError;
use crate::number::{chunk_radix, lemma_bits_radix, lemma_two_pow_eight, minus_one};
use crate::radix::{
    lemma_npow_adds, lemma_npow_increases, lemma_npow_multiplies, lemma_npow_positive,
    lemma_npow_unfold, npow,
};
use crate::reduce::{fermat_modulus, modulo, reduced_size, reduced_value};
use crate::store::{check_width, check_width_spec, extended_len, valid_width, ChunkStore};
use num_bigint::BigUint;
use vstd::prelude::*;

verus! {

/// The Fermat number `F_n = 2^(2^n) + 1`.
pub open spec fn fermat_number(n: nat) -> nat {
    npow(2, npow(2, n)) + 1
}

/// The least number of chunks `width` bytes wide that hold `2^n` bits, and
/// at least one.
pub open spec fn fermat_max_size(n: nat, width: nat) -> nat {
    let q = (npow(2, n) + 8 * width - 1) / ((8 * width) as int);
    if q < 1 {
        1
    } else {
        q as nat
    }
}

/// What `Modulus::new` answers to a configuration.
pub open spec fn check_modulus(max_size: usize, width: usize) -> Result<(), ConfigError> {
    if check_width_spec(width) is Err {
        check_width_spec(width)
    } else if max_size == 0 {
        Err(ConfigError::ZeroMaxSize)
    } else {
        Ok(())
    }
}

/// What `Modulus::fermat` answers to a configuration.
pub open spec fn check_fermat(n: u32, width: usize) -> Result<(), ConfigError> {
    if check_width_spec(width) is Err {
        check_width_spec(width)
    } else if n >= 64 {
        Err(ConfigError::ExponentTooLarge)
    } else if fermat_max_size(n as nat, width as nat) > usize::MAX {
        Err(ConfigError::TooLarge)
    } else {
        Ok(())
    }
}

pub proof fn lemma_two_pow_64()
    ensures
        npow(2, 64) == 0x1_0000_0000_0000_0000,
        npow(256, 8) == 0x1_0000_0000_0000_0000,
{
    lemma_two_pow_eight();
    lemma_npow_adds(2, 8, 8);
    lemma_npow_adds(2, 16, 16);
    lemma_npow_adds(2, 32, 32);
    lemma_npow_multiplies(2, 8, 8);
    let a = npow(2, 8);
    let b = npow(2, 16);
    let c = npow(2, 32);
    assert(a * a == 0x1_0000) by (nonlinear_arith)
        requires
            a == 256,
    ;
    assert(b * b == 0x1_0000_0000) by (nonlinear_arith)
        requires
            b == 0x1_0000,
    ;
    assert(c * c == 0x1_0000_0000_0000_0000) by (nonlinear_arith)
        requires
            c == 0x1_0000_0000,
    ;
}

/// `2^n` as a machine word.
pub fn pow2_u64(n: u32) -> (p: u64)
    requires
        n < 64,
    ensures
        p == npow(2, n as nat),
{
    let mut p: u64 = 1;
    let mut k: u32 = 0;
    while k < n
        invariant
            k <= n,
            n < 64,
            p == npow(2, k as nat),
        decreases n - k,
    {
        proof {
            lemma_npow_increases(2, (k + 1) as nat, 63);
            lemma_two_pow_64();
            lemma_npow_unfold(2, 63);
            lemma_npow_unfold(2, k as nat);
        }
        p = p * 2;
        k += 1;
    }
    p
}

/// For odd `k`, the quotient of `y^k + 1` by `y + 1`.
pub open spec fn odd_power_quotient(y: nat, k: nat) -> int
    decreases k,
{
    if k <= 1 {
        1
    } else {
        y * y * odd_power_quotient(y, (k - 2) as nat) - (y - 1)
    }
}

/// For odd `k`, `y + 1` divides `y^k + 1`.
pub proof fn lemma_odd_power_plus_one(y: nat, k: nat)
    requires
        k % 2 == 1,
    ensures
        npow(y, k) + 1 == odd_power_quotient(y, k) * (y + 1),
    decreases k,
{
    if k == 1 {
        lemma_npow_unfold(y, 0);
        assert(1 * (y + 1) == y + 1) by (nonlinear_arith);
    } else {
        let j = (k - 2) as nat;
        lemma_odd_power_plus_one(y, j);
        lemma_npow_unfold(y, j);
        lemma_npow_unfold(y, j + 1);
        let pj = npow(y, j);
        let q = odd_power_quotient(y, j);
        assert(npow(y, k) == y * (y * pj));
        assert(y * (y * pj) + 1 == (y * y * q - (y - 1)) * (y + 1)) by (nonlinear_arith)
            requires
                pj + 1 == q * (y + 1),
        ;
    }
}

/// Where the bit count `8 * width * max_size` of `B^max_size` is an odd
/// multiple of `2^n`, the Fermat number `F_n` divides `B^max_size + 1`.
pub proof fn lemma_fermat_divides_modulus(n: nat, width: nat, max_size: nat)
    requires
        (8 * width * max_size) % npow(2, n + 1) == npow(2, n),
    ensures
        fermat_modulus(chunk_radix(width), max_size) == odd_power_quotient(
            npow(2, npow(2, n)),
            (8 * width * max_size) / npow(2, n),
        ) * fermat_number(n),
        odd_power_quotient(
            npow(2, npow(2, n)),
            (8 * width * max_size) / npow(2, n),
        ) >= 1,
        fermat_modulus(chunk_radix(width), max_size) % fermat_number(n) == 0,
{
    let tn = npow(2, n);
    let en = 8 * width * max_size;
    let t = tn as int;
    let e = en as int;
    let y = npow(2, tn);
    lemma_npow_positive(2, n);
    lemma_npow_positive(2, tn);
    lemma_npow_unfold(2, n);
    let q = e / (2 * t);
    vstd::arithmetic::div_mod::lemma_fundamental_div_mod(e, 2 * t);
    let k = 2 * q + 1;
    assert(q >= 0) by {
        vstd::arithmetic::div_mod::lemma_div_pos_is_pos(e, 2 * t);
    }
    assert(e == k * t) by (nonlinear_arith)
        requires
            e == (2 * t) * q + t,
            k == 2 * q + 1,
    ;
    vstd::arithmetic::div_mod::lemma_fundamental_div_mod_converse(e, t, k, 0);
    assert(en / tn == k);
    // B^max_size == 2^e == y^k
    lemma_bits_radix(width);
    lemma_npow_multiplies(2, 8 * width, max_size);
    assert(8 * width * max_size == (8 * width) * max_size) by (nonlinear_arith);
    lemma_npow_multiplies(2, tn, k as nat);
    assert(t * k == k * t) by (nonlinear_arith);
    assert(npow(chunk_radix(width), max_size) == npow(y, k as nat));
    lemma_odd_power_plus_one(y, k as nat);
    let quotient = odd_power_quotient(y, k as nat);
    let f = fermat_number(n);
    let m = fermat_modulus(chunk_radix(width), max_size);
    lemma_npow_positive(y, k as nat);
    assert(quotient >= 1) by (nonlinear_arith)
        requires
            m == quotient * f,
            m >= 1,
            f >= 1,
    ;
    vstd::arithmetic::div_mod::lemma_mod_multiples_basic(quotient, f as int);
}

/// Reduction keeps the residue modulo the Fermat number, in at most
/// `max_size + 1` chunks: where the chunks of the modulus hold an odd
/// multiple of `2^n` bits, what `modulo` leaves of a number `v` of `size`
/// chunks is congruent to `v` modulo `F_n`.
pub proof fn lemma_reduction_keeps_fermat_residue(
    v: nat,
    size: nat,
    n: nat,
    width: nat,
    max_size: nat,
)
    requires
        (8 * width * max_size) % npow(2, n + 1) == npow(2, n),
    ensures
        reduced_value(v, size, chunk_radix(width), max_size) % fermat_number(n) == v
            % fermat_number(n),
        reduced_size(v, size, chunk_radix(width), max_size) <= max_size + 1,
{
    lemma_fermat_divides_modulus(n, width, max_size);
    let f = fermat_number(n);
    let q = odd_power_quotient(npow(2, npow(2, n)), (8 * width * max_size) / npow(2, n));
    vstd::arithmetic::div_mod::lemma_mod_mod(v as int, f as int, q);
    assert(f * q == q * f) by (nonlinear_arith);
}

/// The chunk count `max_size` of the modulus for the Fermat number `F_n` on
/// chunks `width` bytes wide: the least chunk count that holds `2^n` bits.
/// Nothing is allocated.
pub fn fermat_chunk_count(n: u32, width: usize) -> (r: Result<usize, ConfigError>)
    ensures
        match r {
            Ok(c) => check_fermat(n, width) is Ok && c == fermat_max_size(n as nat, width as nat)
                && c >= 1,
            Err(e) => check_fermat(n, width) == Err::<(), ConfigError>(e),
        },
{
    match check_width(width) {
        Err(e) => Err(e),
        Ok(()) => {
            if n >= 64 {
                return Err(ConfigError::ExponentTooLarge);
            }
            let bits: u64 = pow2_u64(n);
            let chunk_bits: u64 = (width as u64) * 8;
            let whole: u64 = bits / chunk_bits;
            let count: u64 = if bits % chunk_bits == 0 {
                whole
            } else {
                whole + 1
            };
            proof {
                let b = bits as int;
                let c = chunk_bits as int;
                lemma_npow_positive(2, n as nat);
                vstd::arithmetic::div_mod::lemma_fundamental_div_mod(b, c);
                vstd::arithmetic::div_mod::lemma_mod_bound(b, c);
                let r = b % c;
                assert(c * (b / c) == (b / c) * c) by (nonlinear_arith);
                if r == 0 {
                    vstd::arithmetic::div_mod::lemma_fundamental_div_mod_converse(
                        b + c - 1,
                        c,
                        b / c,
                        c - 1,
                    );
                } else {
                    assert((b / c + 1) * c == (b / c) * c + c) by (nonlinear_arith);
                    vstd::arithmetic::div_mod::lemma_fundamental_div_mod_converse(
                        b + c - 1,
                        c,
                        b / c + 1,
                        r - 1,
                    );
                }
                assert(count == (b + c - 1) / c);
                assert(count >= 1) by (nonlinear_arith)
                    requires
                        b == (b / c) * c + r,
                        b >= 1,
                        0 <= r < c,
                        count == if r == 0 {
                            b / c
                        } else {
                            b / c + 1
                        },
                ;
            }
            if count > usize::MAX as u64 {
                return Err(ConfigError::TooLarge);
            }
            let max_size = count as usize;
            Ok(max_size)
        },
    }
}

/// A modulus `M = B^max_size + 1` for chunks of a given width, with the
/// largest chunk `B - 1` that borrows are filled with.
pub struct Modulus {
    max_size: usize,
    width: usize,
    minus_one: BigUint,
}

impl Modulus {
    /// The number of chunks that hold the residues below `M - 1`.
    pub closed spec fn max_size(&self) -> nat {
        self.max_size as nat
    }

    /// The chunk width in bytes.
    pub closed spec fn width(&self) -> nat {
        self.width as nat
    }

    /// The value of the borrow-fill chunk.
    pub closed spec fn fill(&self) -> nat {
        big_value(self.minus_one)
    }

    /// The descriptor is valid: the width is one the library works with, the
    /// modulus takes at least one chunk, and the borrow-fill is `B - 1`.
    pub open spec fn wf(&self) -> bool {
        &&& valid_width(self.width())
        &&& self.max_size() >= 1
        &&& self.fill() == chunk_radix(self.width()) - 1
    }

    /// The modulus `M = B^max_size + 1` itself.
    pub open spec fn value(&self) -> nat {
        fermat_modulus(chunk_radix(self.width()), self.max_size())
    }

    /// The modulus `B^max_size + 1` for chunks `width` bytes wide. A width
    /// that `check_width` refuses and a `max_size` of zero are refused.
    pub fn new(max_size: usize, width: usize) -> (r: Result<Modulus, ConfigError>)
        ensures
            match r {
                Ok(m) => check_modulus(max_size, width) is Ok && m.wf() && m.max_size()
                    == max_size && m.width() == width,
                Err(e) => check_modulus(max_size, width) == Err::<(), ConfigError>(e),
            },
    {
        match check_width(width) {
            Err(e) => Err(e),
            Ok(()) => {
                if max_size == 0 {
                    Err(ConfigError::ZeroMaxSize)
                } else {
                    Ok(Modulus { max_size, width, minus_one: minus_one(width) })
                }
            },
        }
    }

    /// The modulus for the Fermat number `F_n`: `max_size` is the least
    /// chunk count that holds `2^n` bits.
    pub fn fermat(n: u32, width: usize) -> (r: Result<Modulus, ConfigError>)
        ensures
            match r {
                Ok(m) => check_fermat(n, width) is Ok && m.wf() && m.max_size() == fermat_max_size(
                    n as nat,
                    width as nat,
                ) && m.width() == width,
                Err(e) => check_fermat(n, width) == Err::<(), ConfigError>(e),
            },
    {
        match fermat_chunk_count(n, width) {
            Err(e) => Err(e),
            Ok(max_size) => Ok(Modulus { max_size, width, minus_one: minus_one(width) }),
        }
    }

    /// The number of chunks that hold the residues below `M - 1`.
    pub fn max_chunks(&self) -> (r: usize)
        ensures
            r == self.max_size(),
    {
        self.max_size
    }

    /// The chunk width in bytes.
    pub fn chunk_width(&self) -> (r: usize)
        ensures
            r == self.width(),
    {
        self.width
    }

    /// The borrow-fill chunk `B - 1`.
    pub fn borrow_fill(&self) -> (r: &BigUint)
        ensures
            big_value(*r) == self.fill(),
    {
        &self.minus_one
    }

    /// Reduces the chunked integer of `size` chunks at the bottom of the
    /// store modulo `M`, in place, and returns the chunk count of what is
    /// left: the residue itself, in the form that `modulo` leaves it in.
    pub fn reduce(&self, store: &mut ChunkStore, size: usize) -> (r: usize)
        requires
            self.wf(),
            old(store).wf(),
            old(store).width() == self.width(),
            size * self.width() <= usize::MAX,
        ensures
            final(store).wf(),
            final(store).width() == old(store).width(),
            size <= self.max_size() ==> r == size && *final(store) == *old(store),
            final(store).number(0, r as nat) == reduced_value(
                old(store).number(0, size as nat),
                size as nat,
                chunk_radix(self.width()),
                self.max_size(),
            ),
            r == reduced_size(
                old(store).number(0, size as nat),
                size as nat,
                chunk_radix(self.width()),
                self.max_size(),
            ),
            forall|j: int| r <= j < size ==> #[trigger] final(store).chunk(j) == 0,
            forall|j: int| j >= size ==> #[trigger] final(store).chunk(j) == old(store).chunk(j),
            old(store).bytes().len() <= final(store).bytes().len() <= extended_len(
                old(store).bytes().len(),
                size as int,
                old(store).width(),
            ),
    {
        modulo(self.max_size, &self.minus_one, store, size)
    }
}

} // verus!
