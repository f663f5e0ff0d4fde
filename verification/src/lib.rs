//! A bounded-memory estimator for the number of distinct elements in a
//! stream, after the algorithm of Chakraborty, Meel and Vinodchandran:
//! a retained sample of at most `capacity` keys is kept under a
//! round-indexed random retention policy, and the distinct count is
//! estimated as the sample size times `2^round`.

pub mod estimator;
pub mod sorted;
pub mod source;

pub use estimator::{Cmv, CmvView, InvalidCapacity, RandomSource};
pub use source::SeededSource;

use vstd::prelude::*;

verus! {

/// Marks the cold path of a branch.
pub fn cold() {
}

/// Identity on its argument; flags `b` as the branch that rarely holds.
pub fn unlikely(b: bool) -> (r: bool)
    ensures
        r == b,
{
    if b {
        cold();
    }
    b
}

} // verus!
