//! The router's view of time and chance.
use crate::error::Error;
use vstd::prelude::*;

verus! {

/// Milliseconds on the router's monotonic clock.
pub type Time = u64;

/// A source of random octets; the router draws identifiers and jitter from it.
pub trait RandomSource {
    /// `n` random octets.
    fn fill(&mut self, n: usize) -> Result<Vec<u8>, Error>;

    /// A random value in `0..=bound`.
    fn sample(&mut self, bound: u64) -> Result<u64, Error>;
}

} // verus!
