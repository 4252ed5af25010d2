//! Turning counts into times and times into counts.

use crate::functions;
use vstd::prelude::*;

verus! {

/// How counts become numbers, and numbers counts.
#[derive(Debug)]
pub struct Clock<N, W, R, C> {
    /// The number that stands for a count.
    pub count_of: N,
    /// The whole part of a number.
    pub whole: W,
    /// The count nearest to a number.
    pub round: R,
    /// The least count that is no less than a number.
    pub ceil: C,
}

impl<T, N, W, R, C> Clock<N, W, R, C> where
    N: Fn(usize) -> T,
    W: Fn(T) -> usize,
    R: Fn(T) -> usize,
    C: Fn(T) -> usize,
 {
    /// Every function can be called on anything and always returns the same for
    /// the same argument.
    pub open spec fn steady(self) -> bool {
        &&& functions::steady(self.count_of)
        &&& functions::steady(self.whole)
        &&& functions::steady(self.round)
        &&& functions::steady(self.ceil)
    }

    /// The number that stands for a count.
    pub open spec fn number(self, n: int) -> T {
        functions::value(self.count_of, n as usize)
    }
}

} // verus!
