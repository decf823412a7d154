//! The driver: repeated squaring of a base modulo `M = B^max_size + 1`. One
//! step squares the live value into a scratch store, exchanges the roles of
//! the two stores, clears the old one and reduces the square in place.

use crate::big::{big_from_u64, big_value};
use crate::error::ConfigError;
use crate::le_bytes::lemma_minimal_len;
use crate::modulus::{
    check_fermat, fermat_chunk_count, fermat_max_size, lemma_two_pow_64, pow2_u64, Modulus,
};
use crate::number::{
    chunk_radix, lemma_bits_radix, number_size, read_number_in_chunks, write_number_in_chunks,
};
use crate::radix::{lemma_npow_adds, lemma_npow_increases, lemma_npow_unfold, npow};
use crate::reduce::{fermat_modulus, reduced_size};
use crate::square::{square_number, squared_size};
use crate::store::ChunkStore;
use num_bigint::BigUint;
use vstd::prelude::*;

verus! {

/// The value after `k` steps from `v`: each step squares and takes the
/// residue modulo `m`.
pub open spec fn repeated_square(v: nat, k: nat, m: nat) -> nat
    decreases k,
{
    if k == 0 {
        v
    } else {
        let p = repeated_square(v, (k - 1) as nat, m);
        (p * p) % m
    }
}

/// After `k >= 1` steps the value is the residue of `v^(2^k)`.
pub proof fn lemma_repeated_square_is_power(v: nat, k: nat, m: nat)
    requires
        m > 0,
        k >= 1,
    ensures
        repeated_square(v, k, m) == npow(v, npow(2, k)) % m,
    decreases k,
{
    lemma_npow_unfold(2, (k - 1) as nat);
    let h = npow(2, (k - 1) as nat);
    let x = npow(v, h);
    lemma_npow_adds(v, h, h);
    assert(npow(v, npow(2, k)) == x * x);
    if k == 1 {
        lemma_npow_unfold(v, 0);
        assert(repeated_square(v, 0, m) == v);
        assert(x == v);
    } else {
        lemma_repeated_square_is_power(v, (k - 1) as nat, m);
        vstd::arithmetic::div_mod::lemma_mul_mod_noop(x as int, x as int, m as int);
    }
}

/// The chunk count after one step from a value `v` of `size` chunks.
pub open spec fn step_size(v: nat, size: nat, base: nat, max_size: nat) -> nat {
    reduced_size(v * v, squared_size(v, size, base), base, max_size)
}

/// The chunk count after `k` steps from a value `v` of `size` chunks.
pub open spec fn repeated_size(v: nat, size: nat, k: nat, base: nat, max_size: nat) -> nat
    decreases k,
{
    if k == 0 {
        size
    } else {
        step_size(
            repeated_square(v, (k - 1) as nat, fermat_modulus(base, max_size)),
            repeated_size(v, size, (k - 1) as nat, base, max_size),
            base,
            max_size,
        )
    }
}

/// The base that a run starts from where none is given.
pub const DEFAULT_BASE: u64 = 3;

/// The chunk count that the driver keeps room for: that of a reduced value,
/// and at least that of a machine word.
pub open spec fn capacity(max_size: nat) -> nat {
    if max_size + 1 > 8 {
        max_size + 1
    } else {
        8
    }
}

/// What `Driver::new` answers to a configuration.
pub open spec fn check_driver(n: u32, width: usize) -> Result<(), ConfigError> {
    if check_fermat(n, width) is Err {
        check_fermat(n, width)
    } else if 2 * capacity(fermat_max_size(n as nat, width as nat)) * width > usize::MAX {
        Err(ConfigError::TooLarge)
    } else {
        Ok(())
    }
}

/// The state of one run: the modulus, the store that holds the live value,
/// the scratch store that the next square goes to, and the chunk count of
/// the live value.
pub struct Driver {
    modulus: Modulus,
    source: ChunkStore,
    scratch: ChunkStore,
    size: usize,
    exponent: u32,
}

impl Driver {
    /// The modulus descriptor.
    pub closed spec fn modulus(&self) -> Modulus {
        self.modulus
    }

    /// The store that holds the live value.
    pub closed spec fn store(&self) -> ChunkStore {
        self.source
    }

    /// The scratch store.
    pub closed spec fn spare(&self) -> ChunkStore {
        self.scratch
    }

    /// The chunk count of the live value.
    pub closed spec fn size(&self) -> nat {
        self.size as nat
    }

    /// The Fermat exponent `n`.
    pub closed spec fn exponent(&self) -> nat {
        self.exponent as nat
    }

    /// The live value.
    pub open spec fn value(&self) -> nat {
        self.store().number(0, self.size())
    }

    /// The state is valid: both stores have the chunk width of the modulus,
    /// and the live value and its square fit in the address space.
    pub open spec fn wf(&self) -> bool {
        &&& self.modulus().wf()
        &&& self.store().wf()
        &&& self.store().width() == self.modulus().width()
        &&& self.spare().width() == self.modulus().width()
        &&& 1 <= self.size() <= capacity(self.modulus().max_size())
        &&& 2 * capacity(self.modulus().max_size()) * self.modulus().width() <= usize::MAX
        &&& self.exponent() < 64
    }

    /// A run for the Fermat number `F_n` on chunks `width` bytes wide, with
    /// the live value set to `base`. A configuration that `Modulus::fermat`
    /// refuses is refused with the same error, and one whose operands do not
    /// fit in the address space with `TooLarge`.
    pub fn new(n: u32, width: usize, base: u64) -> (r: Result<Driver, ConfigError>)
        ensures
            match r {
                Ok(d) => check_driver(n, width) is Ok && d.wf() && d.value() == base
                    && d.exponent() == n && d.modulus().width() == width && d.modulus().max_size()
                    == fermat_max_size(n as nat, width as nat) && base < npow(
                    chunk_radix(width as nat),
                    d.size(),
                ) && (d.size() == 1 || npow(chunk_radix(width as nat), (d.size() - 1) as nat)
                    <= base),
                Err(e) => check_driver(n, width) == Err::<(), ConfigError>(e),
            },
    {
        let max_size = match fermat_chunk_count(n, width) {
            Err(e) => {
                return Err(e);
            },
            Ok(c) => c,
        };
        let ghost cap = capacity(max_size as nat) as int;
        let ghost w = width as int;
        let room: usize = if max_size >= 8 {
            match max_size.checked_add(1) {
                None => {
                    proof {
                        assert(2 * cap * w > usize::MAX) by (nonlinear_arith)
                            requires
                                cap > usize::MAX,
                                w >= 1,
                        ;
                    }
                    return Err(ConfigError::TooLarge);
                },
                Some(c) => c,
            }
        } else {
            8
        };
        let twice = match room.checked_mul(2) {
            None => {
                proof {
                    assert(2 * cap * w > usize::MAX) by (nonlinear_arith)
                        requires
                            2 * cap > usize::MAX,
                            w >= 1,
                    ;
                }
                return Err(ConfigError::TooLarge);
            },
            Some(c) => c,
        };
        if twice.checked_mul(width).is_none() {
            return Err(ConfigError::TooLarge);
        }
        let modulus = match Modulus::new(max_size, width) {
            Err(e) => {
                return Err(e);
            },
            Ok(m) => m,
        };
        let mut source = match ChunkStore::new(width) {
            Err(e) => {
                return Err(e);
            },
            Ok(s) => s,
        };
        let scratch = match ChunkStore::new(width) {
            Err(e) => {
                return Err(e);
            },
            Ok(s) => s,
        };
        let start = big_from_u64(base);
        let size = number_size(&start, width);
        proof {
            lemma_two_pow_64();
            lemma_minimal_len(crate::big::big_bytes(start), 8);
            assert(size * w <= 2 * cap * w) by (nonlinear_arith)
                requires
                    size <= 8,
                    cap >= 8,
                    w >= 0,
            ;
        }
        write_number_in_chunks(&start, 0, &mut source);
        Ok(Driver { modulus, source, scratch, size, exponent: n })
    }

    /// One step: the live value is squared and reduced modulo `M`.
    pub fn step(&mut self)
        requires
            old(self).wf(),
        ensures
            final(self).wf(),
            final(self).modulus() == old(self).modulus(),
            final(self).exponent() == old(self).exponent(),
            final(self).value() == (old(self).value() * old(self).value()) % old(
                self,
            ).modulus().value(),
            final(self).size() == step_size(
                old(self).value(),
                old(self).size(),
                chunk_radix(old(self).modulus().width()),
                old(self).modulus().max_size(),
            ),
            final(self).size() <= old(self).modulus().max_size() + 1,
    {
        let ghost v = self.value();
        let ghost w = self.modulus.width() as int;
        let ghost cap = capacity(self.modulus.max_size()) as int;
        let ghost base = chunk_radix(self.modulus.width());
        let ghost ms = self.modulus.max_size();
        proof {
            assert(2 * self.size * w <= 2 * cap * w) by (nonlinear_arith)
                requires
                    self.size <= cap,
                    w >= 0,
            ;
            assert((0 + 2 * self.size) * w == 2 * self.size * w) by (nonlinear_arith);
        }
        let squared = square_number(&self.source, 0, self.size, &mut self.scratch);
        core::mem::swap(&mut self.source, &mut self.scratch);
        self.scratch.clear();
        proof {
            assert(squared * w <= 2 * self.size * w) by (nonlinear_arith)
                requires
                    squared <= 2 * self.size,
                    w >= 0,
            ;
            if squared <= ms {
                self.source.lemma_number_bound(0, squared as nat);
                lemma_bits_radix(self.modulus.width());
                lemma_npow_increases(base, squared as nat, ms);
                vstd::arithmetic::div_mod::lemma_small_mod(v * v, self.modulus.value());
            }
        }
        self.size = self.modulus.reduce(&mut self.source, squared);
    }

    /// Takes `iterations` steps.
    pub fn iterate(&mut self, iterations: u64)
        requires
            old(self).wf(),
        ensures
            final(self).wf(),
            final(self).modulus() == old(self).modulus(),
            final(self).exponent() == old(self).exponent(),
            final(self).value() == repeated_square(
                old(self).value(),
                iterations as nat,
                old(self).modulus().value(),
            ),
            final(self).size() == repeated_size(
                old(self).value(),
                old(self).size(),
                iterations as nat,
                chunk_radix(old(self).modulus().width()),
                old(self).modulus().max_size(),
            ),
            iterations >= 1 ==> final(self).size() <= old(self).modulus().max_size() + 1,
    {
        let ghost start = *self;
        let mut counter: u64 = 0;
        while counter < iterations
            invariant
                self.wf(),
                start == *old(self),
                counter <= iterations,
                self.modulus() == start.modulus(),
                self.exponent() == start.exponent(),
                self.value() == repeated_square(
                    start.value(),
                    counter as nat,
                    start.modulus().value(),
                ),
                self.size() == repeated_size(
                    start.value(),
                    start.size(),
                    counter as nat,
                    chunk_radix(start.modulus().width()),
                    start.modulus().max_size(),
                ),
                counter >= 1 ==> self.size() <= start.modulus().max_size() + 1,
            decreases iterations - counter,
        {
            self.step();
            counter += 1;
        }
    }

    /// The whole run for the Fermat number `F_n`: exactly `2^n` steps.
    pub fn run(&mut self)
        requires
            old(self).wf(),
        ensures
            final(self).wf(),
            final(self).modulus() == old(self).modulus(),
            final(self).exponent() == old(self).exponent(),
            final(self).value() == repeated_square(
                old(self).value(),
                npow(2, old(self).exponent()),
                old(self).modulus().value(),
            ),
            final(self).size() == repeated_size(
                old(self).value(),
                old(self).size(),
                npow(2, old(self).exponent()),
                chunk_radix(old(self).modulus().width()),
                old(self).modulus().max_size(),
            ),
            final(self).size() <= old(self).modulus().max_size() + 1,
    {
        let iterations = pow2_u64(self.exponent);
        proof {
            crate::radix::lemma_npow_positive(2, self.exponent as nat);
        }
        self.iterate(iterations);
    }

    /// The chunk count of the live value.
    pub fn chunk_count(&self) -> (r: usize)
        ensures
            r == self.size(),
    {
        self.size
    }

    /// The modulus descriptor.
    pub fn modulus_ref(&self) -> (r: &Modulus)
        ensures
            *r == self.modulus(),
    {
        &self.modulus
    }

    /// The store that holds the live value.
    pub fn store_ref(&self) -> (r: &ChunkStore)
        ensures
            *r == self.store(),
    {
        &self.source
    }

    /// The live value, read from its chunks.
    pub fn read_value(&self) -> (r: BigUint)
        requires
            self.wf(),
        ensures
            big_value(r) == self.value(),
    {
        proof {
            let w = self.modulus.width() as int;
            let cap = capacity(self.modulus.max_size()) as int;
            assert((0 + self.size) * w <= 2 * cap * w) by (nonlinear_arith)
                requires
                    self.size <= cap,
                    w >= 0,
            ;
        }
        read_number_in_chunks(0, self.size, &self.source)
    }

    /// The residue for display: the single chunk of a live value of one
    /// chunk, and nothing for a value of more chunks, which is too large to
    /// display.
    pub fn residue(&self) -> (r: Option<BigUint>)
        requires
            self.wf(),
        ensures
            r is Some <==> self.size() == 1,
            r is Some ==> big_value(r->Some_0) == self.value(),
    {
        if self.size == 1 {
            let chunk = self.source.read_chunk(0);
            proof {
                assert(self.source.digits(0, 1) =~= seq![self.source.chunk(0)]);
                crate::radix::lemma_radix_value_single(self.source.chunk(0), self.source.base());
            }
            Some(chunk)
        } else {
            None
        }
    }
}

} // verus!
