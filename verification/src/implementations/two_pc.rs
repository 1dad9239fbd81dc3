//! Implement two-phase commit with abstract-paxos.
use crate::apaxos::acceptor::AcceptorView;
use crate::apaxos::greater_equal::GreaterEqual;
use crate::apaxos::proposal::ProposalView;
use crate::apaxos::ptime::Time;
use crate::commonly_used::quorum_set::all::lemma_all_quorum_covers;
use crate::commonly_used::quorum_set::all::All;
use crate::commonly_used::rebuild::Partitioned;
use crate::commonly_used::transport::DirectCall;
use crate::QuorumSet;
use crate::Types;
use std::collections::BTreeMap;
use vstd::prelude::*;

verus! {

/// Two-phase commit as an instance of Abstract-Paxos.
///
/// Unlike Paxos rebuilding proposal from a single acceptor's data, TwoPC
/// can rebuild the proposal data from acceptors' data with different
/// `accept_time` (vballot in paxos), but with the same propose-time.
///
/// ```text
/// p3: rebuild from v2,v1,v1,v1,v1; because they have the same propose-time
///
/// p3 |
///    |  +------------+       a1..a5
/// p2 |        v2
///    |        +------------+ a3..a7
/// p1 |        v1 v1 v1 v1 v1
///    |        +------------+ a3..a7
/// ---|----------------------
///    |  a1 a2 a3 a4 a5 a6 a7
/// ```
#[derive(Debug)]
pub struct TwoPC {}

impl Types for TwoPC {
    type Time = TwoPCTime;
    type Value = BTreeMap<u64, String>;
    type Part = String;
}

/// The pseudo time for TwoPC represents the mutual exclusion between
/// transactions.
///
/// There is a GE relation if either:
/// 1. they belong to the same txn, or
/// 2. the other txn has not yet locked the resource.
///
/// TwoPCTime is not transitive and can form a cycle.
#[derive(Clone, Copy, Debug, PartialEq, Eq, Structural)]
pub struct TwoPCTime {
    pub txn_id: u64,
    pub locked: bool,
}

/// There is a GE relation if either:
/// 1. they belong to the same txn, or
/// 2. the other txn has not yet locked the resource.
impl GreaterEqual for TwoPCTime {
    open spec fn ge_spec(&self, other: &Self) -> bool {
        self.txn_id == other.txn_id || !other.locked
    }

    fn greater_equal(&self, other: &Self) -> (ge: bool) {
        self.txn_id == other.txn_id || !other.locked
    }
}

impl TwoPCTime {
    /// The time of transaction `txn_id`, which holds the lock.
    pub fn new(txn_id: u64) -> (t: Self)
        ensures
            t.txn_id == txn_id,
            t.locked,
    {
        TwoPCTime { txn_id, locked: true }
    }
}

impl Default for TwoPCTime {
    fn default() -> (t: Self)
        ensures
            t == (TwoPCTime { txn_id: 0, locked: false }),
    {
        TwoPCTime { txn_id: 0, locked: false }
    }
}

/// An acceptor that has seen nothing is at transaction 0, unlocked.
impl Time for TwoPCTime {
    open spec fn default_spec() -> Self {
        TwoPCTime { txn_id: 0, locked: false }
    }

    fn default_time() -> (t: Self) {
        TwoPCTime { txn_id: 0, locked: false }
    }

    fn same(&self, other: &Self) -> (eq: bool) {
        self.txn_id == other.txn_id && self.locked == other.locked
    }
}

/// A transaction overrules any time that holds no lock, and the times of
/// its own transaction; with [`lemma_lock_excludes`], these are all it
/// overrules.
pub proof fn lemma_txn_takes_free_or_own(t: TwoPCTime, o: TwoPCTime)
    ensures
        !o.locked ==> t.ge_spec(&o),
        t.txn_id == o.txn_id ==> t.ge_spec(&o),
        o.locked && t.txn_id != o.txn_id ==> !t.ge_spec(&o),
{
}

/// Mutual exclusion: an acceptor locked by one transaction neither grants
/// the phase-1 request of another transaction nor accepts its phase-2
/// request.
pub proof fn lemma_lock_excludes<V>(
    a: AcceptorView<TwoPCTime, V>,
    t2: TwoPCTime,
    p: ProposalView<TwoPCTime, V>,
)
    requires
        a.time.locked,
        a.time.txn_id != t2.txn_id,
    ensures
        a.after_phase1(t2) == a,
        a.after_phase1(t2).time != t2,
        !a.accepts_phase2(t2),
        a.after_phase2(t2, p) == a,
{
}

/// While one acceptor of the cluster is locked by a transaction, the
/// acceptors that grant another transaction's phase-1 request (without
/// repeats) never form a quorum of all acceptors: that transaction cannot
/// proceed to phase-2.
pub proof fn lemma_lock_blocks_other_transactions<V>(
    qs: All<TwoPC>,
    granted: Seq<u64>,
    x: u64,
    a: AcceptorView<TwoPCTime, V>,
    t2: TwoPCTime,
)
    requires
        qs.acceptor_ids@.contains(x),
        a.time.locked,
        a.time.txn_id != t2.txn_id,
        granted.contains(x) ==> a.after_phase1(t2).time == t2,
    ensures
        !qs.read_quorum_spec(granted),
{
    if qs.read_quorum_spec(granted) {
        lemma_all_quorum_covers(&qs, granted);
        assert(granted.to_set().contains(x));
    }
}

} // verus!
