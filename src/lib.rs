//! Exact products and quotients of factorials, permutations and combinations,
//! kept as prime exponents until the final ratio is asked for.

pub mod arith;
pub mod pending;
pub mod sieve;
pub mod factor;
pub mod ratio;
pub mod accumulator;
pub mod laws;

pub use accumulator::{perm, MulDiv, MultError, MultMult};
