//! Commonly used pseudo times.
use crate::apaxos::ptime::Time;
use vstd::prelude::*;

verus! {

/// The ballot number of classic Paxos: a round and the proposer that leads it.
pub struct BallotNumber {
    pub round: u64,
    pub leader: u64,
}

impl BallotNumber {
    pub fn new(round: u64, leader: u64) -> (b: Self)
        ensures
            b.round == round,
            b.leader == leader,
    {
        BallotNumber { round, leader }
    }
}

/// A `u64` ballot number: an acceptor that has seen nothing is at ballot 0.
impl Time for u64 {
    open spec fn default_spec() -> u64 {
        0
    }

    fn default_time() -> (t: u64) {
        0
    }

    fn same(&self, other: &Self) -> (eq: bool) {
        *self == *other
    }
}

} // verus!
