//! The errors that the library reports.

use vstd::prelude::*;

verus! {

/// A configuration that the library cannot work with.
#[derive(Clone, Copy, Debug, PartialEq, Eq, Structural)]
pub enum ConfigError {
    /// The chunk width is zero bytes.
    ZeroChunkWidth,
    /// The modulus would take zero chunks.
    ZeroMaxSize,
    /// The Fermat exponent is so large that the number of squarings does not
    /// fit in 64 bits.
    ExponentTooLarge,
    /// The operands would not fit in the address space of this machine.
    TooLarge,
}

} // verus!
