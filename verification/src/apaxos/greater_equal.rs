//! The relation by which a pseudo time may overrule another.
use vstd::prelude::*;

verus! {

/// `a.greater_equal(b)`: a proposer at time `a` may overrule what was
/// promised or accepted at time `b`.
///
/// The relation need not be an order: in 2PC it is not transitive.
pub trait GreaterEqual {
    spec fn ge_spec(&self, other: &Self) -> bool;

    fn greater_equal(&self, other: &Self) -> (ge: bool)
        ensures
            ge == self.ge_spec(other),
    ;
}

/// Ballot numbers are ordered as integers.
impl GreaterEqual for u64 {
    open spec fn ge_spec(&self, other: &Self) -> bool {
        *self >= *other
    }

    fn greater_equal(&self, other: &Self) -> (ge: bool) {
        *self >= *other
    }
}

} // verus!
