//! Pseudo time.
use crate::apaxos::greater_equal::GreaterEqual;
use vstd::prelude::*;

verus! {

/// The pseudo time of a consensus algorithm: it has a default value (the
/// time of an acceptor that has seen nothing), can be compared for equality,
/// and is related by [`GreaterEqual`].
pub trait Time: Copy + GreaterEqual + std::fmt::Debug {
    spec fn default_spec() -> Self;

    /// The time of an acceptor that has seen nothing.
    fn default_time() -> (t: Self)
        ensures
            t == Self::default_spec(),
    ;

    fn same(&self, other: &Self) -> (eq: bool)
        ensures
            eq == (*self == *other),
    ;
}

} // verus!
