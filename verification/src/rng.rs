//! The one call into the random number generator. A pseudorandom draw
//! promises nothing about its value: every function that consumes one
//! is verified for every value it could take.

use vstd::prelude::*;

verus! {

/// Relies on rand::random: draws a fresh value from the thread-local
/// generator. Nothing can be promised of the value.
pub assume_specification<T>[ rand::random::<T> ]() -> (r: T)
    where
        rand::distributions::Standard: rand::distributions::Distribution<T>,
;

} // verus!
