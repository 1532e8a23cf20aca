//! Prime number generation: bounded range queries and an unbounded stream.
use vstd::prelude::*;

pub mod erato_one;
pub mod naive;
pub mod prelude;
pub mod prime_generator;
pub mod primes;

pub use erato_one::EratoOne;
pub use naive::Naive;
pub use prime_generator::{Bound, InfiniteIterator, PrimeGenerator, PrimeIterator, RangeError};

verus! {

} // verus!
