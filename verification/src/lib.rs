//! Repeated squaring modulo a Fermat-form number on integers that are held as
//! arrays of fixed-width chunks.
//!
//! A number is a sequence of chunks, each a digit of base `B = 256^W`, laid
//! out in a flat byte image. The library squares such a number chunk pair by
//! chunk pair, reduces it modulo `M = B^max_size + 1` by folding the upper
//! chunks back with subtractions, and iterates the two.
//!
//! - [`store`]: the chunk store over a byte image.
//! - [`number`]: whole numbers and their chunks.
//! - [`square`]: the squarer.
//! - [`reduce`]: the Fermat reducer and its four cases.
//! - [`modulus`]: the modulus descriptor, and how it relates to `F_n`.
//! - [`driver`]: the iteration.
//! - [`arithmetic`], [`block_iterator`]: block-wise addition of byte images.
//! - [`radix`], [`le_bytes`]: positional notation, the model behind all
//!   contracts.
//! - [`big`]: what the library relies on of `num-bigint`.
//! - [`error`]: the configuration errors.

pub mod arithmetic;
pub mod big;
pub mod block_iterator;
pub mod driver;
pub mod error;
pub mod le_bytes;
pub mod modulus;
pub mod number;
pub mod radix;
pub mod reduce;
pub mod square;
pub mod store;
