//! The traits that a user of the generators needs in scope.
pub use crate::prime_generator::{InfiniteIterator, PrimeGenerator};
