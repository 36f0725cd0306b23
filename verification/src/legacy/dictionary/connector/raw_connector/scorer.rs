//! The scorer of feature pairs of the earlier format.
use vstd::prelude::*;

verus! {

/// Eight feature ids of 31 bits.
pub struct U31x8(pub [u32; 8]);

/// A double-array of feature pairs with their costs.
pub struct Scorer {
    pub(crate) bases: Vec<u32>,
    pub(crate) checks: Vec<u32>,
    pub(crate) costs: Vec<i32>,
}

} // verus!
