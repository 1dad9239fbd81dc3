//! Abstract-Paxos: one algorithm of which Paxos, two-phase commit and their
//! kin are instances.
//!
//! A consensus algorithm is described by a [`Types`] (the pseudo time that
//! orders proposers, the value proposed, the part of it that one acceptor
//! stores) and by the components of an [`APaxos`] cluster: its quorum sets
//! ([`QuorumSet`]), the way a value is distributed over the acceptors and
//! rebuilt from their parts ([`Distribute`]), and the transport
//! ([`Transport`]).
use std::collections::BTreeMap;
use std::marker::PhantomData;
use vstd::prelude::*;

pub mod apaxos;
pub mod commonly_used;
pub mod default_impl;
pub mod ids;
pub mod implementations;
pub mod order;

use crate::apaxos::acceptor::Acceptor;
use crate::apaxos::acceptor::AcceptorView;
use crate::apaxos::proposal::Proposal;
use crate::apaxos::proposal::ProposalView;
use crate::apaxos::ptime::Time;

verus! {

broadcast use vstd::std_specs::btree::group_btree_axioms;

/// Acceptors are named by `u64` ids.
pub type AcceptorId = u64;

/// A value to propose and to commit, or a part of one that an acceptor stores.
pub trait Value: DeepView + Sized + std::fmt::Debug {
    /// A copy of the value.
    fn clone_value(&self) -> (copy: Self)
        ensures
            copy.deep_view() == self.deep_view(),
    ;
}

impl Value for String {
    fn clone_value(&self) -> (copy: Self) {
        self.clone()
    }
}

/// The deep view of a map keyed by ids holds the deep views of its values.
pub proof fn lemma_id_map_deep_view<P: DeepView>(m: BTreeMap<u64, P>)
    ensures
        m.deep_view() == m@.map_values(|p: P| p.deep_view()),
{
    broadcast use vstd::std_specs::btree::lemma_btree_map_deepview_properties;

    assert(vstd::relations::injective(|k: u64| k.deep_view()));
    assert(m.deep_view() =~= m@.map_values(|p: P| p.deep_view()));
}

impl<P: Value + Clone> Value for BTreeMap<u64, P> {
    fn clone_value(&self) -> (copy: Self) {
        let copy = self.clone();
        proof {
            lemma_id_map_deep_view(*self);
            lemma_id_map_deep_view(copy);
        }
        copy
    }
}

/// Defines the types that one instance of the Abstract-Paxos algorithm uses.
pub trait Types: Sized {
    /// Pseudo time used in a distributed consensus.
    ///
    /// Every distributed consensus algorithm has its own definition of time.
    /// - In Paxos, it is the ballot number.
    /// - In Raft, it is `(term, Option<voted_for>)`.
    /// - In 2PC, it is the transaction that holds the lock.
    type Time: Time;

    /// The value to propose and to commit.
    type Value: Value;

    /// The part of a [`Proposal`] that is stored on an [`Acceptor`].
    type Part: Value;
}

/// One message that passed through a transport, as seen by the proposer.
pub enum NetEvent<Tm, P> {
    /// A phase-1 request at a time, sent to an acceptor.
    Phase1Request(u64, Tm),
    /// A phase-1 reply: the id of the acceptor and its state after the
    /// request.
    Phase1Reply(u64, AcceptorView<Tm, P>),
    /// The transport had no phase-1 reply to hand out.
    Phase1NoReply,
    /// A phase-2 request at a time, with the proposal of one part, sent to
    /// an acceptor.
    Phase2Request(u64, Tm, ProposalView<Tm, P>),
    /// A phase-2 reply: the id of the acceptor and whether it accepted.
    Phase2Reply(u64, bool),
    /// The transport had no phase-2 reply to hand out.
    Phase2NoReply,
}

/// The network between a proposer and the acceptors.
///
/// Whatever a transport delivers, it logs in order every request it is
/// handed, every reply it hands out, and every time it has no reply to
/// hand out (it then returns `None`).
pub trait Transport<T: Types> {
    /// The requests sent and the replies received so far, in order.
    spec fn events(&self) -> Seq<NetEvent<T::Time, <T::Part as DeepView>::V>>;

    /// What the transport keeps true of its state between calls.
    spec fn inv(&self) -> bool;

    fn send_phase1_request(&mut self, target: AcceptorId, t: T::Time)
        requires
            old(self).inv(),
        ensures
            final(self).inv(),
            final(self).events() == old(self).events().push(NetEvent::Phase1Request(target, t)),
    ;

    fn recv_phase1_reply(&mut self) -> (reply: Option<(AcceptorId, Acceptor<T>)>)
        requires
            old(self).inv(),
        ensures
            final(self).inv(),
            final(self).events() == match reply {
                Some(r) => old(self).events().push(NetEvent::Phase1Reply(r.0, r.1@)),
                None => old(self).events().push(NetEvent::Phase1NoReply),
            },
    ;

    fn send_phase2_request(
        &mut self,
        target: AcceptorId,
        t: T::Time,
        proposal: Proposal<T, T::Part>,
    )
        requires
            old(self).inv(),
        ensures
            final(self).inv(),
            final(self).events() == old(self).events().push(
                NetEvent::Phase2Request(target, t, proposal@),
            ),
    ;

    fn recv_phase2_reply(&mut self) -> (reply: Option<(AcceptorId, bool)>)
        requires
            old(self).inv(),
        ensures
            final(self).inv(),
            final(self).events() == match reply {
                Some(r) => old(self).events().push(NetEvent::Phase2Reply(r.0, r.1)),
                None => old(self).events().push(NetEvent::Phase2NoReply),
            },
    ;
}

/// The deep views of id-tagged parts.
pub open spec fn parts_view<P: DeepView>(parts: Seq<(u64, P)>) -> Seq<(u64, P::V)> {
    parts.map_values(|e: (u64, P)| (e.0, e.1.deep_view()))
}

/// The deep views of a sequence of values.
pub open spec fn values_view<P: DeepView>(vs: Seq<P>) -> Seq<P::V> {
    vs.map_values(|v: P| v.deep_view())
}

/// Defines how a value is stored on several acceptors: it is split into one
/// part per acceptor, and rebuilt from the parts that acceptors hold.
pub trait Distribute<T: Types> {
    /// Whether `value` can be split over the acceptors `ids`.
    spec fn can_distribute_spec(&self, value: <T::Value as DeepView>::V, ids: Seq<u64>) -> bool;

    /// The parts of `value` for the acceptors `ids`, in the same order.
    spec fn distribute_spec(&self, value: <T::Value as DeepView>::V, ids: Seq<u64>) -> Seq<
        <T::Part as DeepView>::V,
    >;

    /// The value rebuilt from id-tagged parts, if they suffice.
    spec fn rebuild_spec(&self, parts: Seq<(u64, <T::Part as DeepView>::V)>) -> Option<
        <T::Value as DeepView>::V,
    >;

    fn can_distribute(&self, value: &T::Value, acceptor_ids: &Vec<AcceptorId>) -> (ok: bool)
        ensures
            ok == self.can_distribute_spec(value.deep_view(), acceptor_ids@),
    ;

    /// Distribute a value to several acceptors.
    fn distribute(&self, value: T::Value, acceptor_ids: &Vec<AcceptorId>) -> (parts: Vec<T::Part>)
        requires
            self.can_distribute_spec(value.deep_view(), acceptor_ids@),
        ensures
            values_view(parts@) == self.distribute_spec(value.deep_view(), acceptor_ids@),
    ;

    /// Rebuild a value from id-tagged parts.
    fn rebuild(&self, parts: &Vec<(AcceptorId, T::Part)>) -> (value: Option<T::Value>)
        ensures
            value.deep_view() == self.rebuild_spec(parts_view(parts@)),
    ;
}

/// The quorums of a cluster: the sets of acceptors whose answer suffices in
/// phase-1 (read) and in phase-2 (write).
pub trait QuorumSet<T: Types> {
    spec fn read_quorum_spec(&self, ids: Seq<u64>) -> bool;

    spec fn write_quorum_spec(&self, ids: Seq<u64>) -> bool;

    fn is_read_quorum(&self, acceptor_ids: &Vec<AcceptorId>) -> (q: bool)
        ensures
            q == self.read_quorum_spec(acceptor_ids@),
    ;

    fn is_write_quorum(&self, acceptor_ids: &Vec<AcceptorId>) -> (q: bool)
        ensures
            q == self.write_quorum_spec(acceptor_ids@),
    ;
}

/// A cluster of acceptors, with its quorum set `Q` (a [`QuorumSet`]), the
/// way `D` (a [`Distribute`]) values are split over the acceptors and
/// rebuilt, and the network transport `N` (a [`Transport`]).
///
/// The quorum set defines quorums for read (phase-1) and write (phase-2).
pub struct APaxos<T: Types, Q, D, N> {
    pub acceptors: BTreeMap<AcceptorId, ()>,
    pub quorum_set: Q,
    pub rebuild: D,
    pub transport: N,
    pub _p: PhantomData<T>,
}

impl<T: Types, Q, D, N> APaxos<T, Q, D, N> {
    /// The ids of the acceptors of the cluster.
    pub open spec fn acceptor_ids(&self) -> Set<u64> {
        self.acceptors@.dom()
    }

    pub fn new(
        acceptors: Vec<AcceptorId>,
        quorum_set: Q,
        rebuild: D,
        transport: N,
    ) -> (apaxos: Self)
        ensures
            apaxos.acceptor_ids() == acceptors@.to_set(),
            apaxos.quorum_set == quorum_set,
            apaxos.rebuild == rebuild,
            apaxos.transport == transport,
    {
        let mut ids: BTreeMap<u64, ()> = BTreeMap::new();
        for i in 0..acceptors.len()
            invariant
                ids@.dom() == acceptors@.take(i as int).to_set(),
        {
            proof {
                crate::order::lemma_ids_ordered();
            }
            ids.insert(acceptors[i], ());
            assert(acceptors@.take(i + 1) == acceptors@.take(i as int).push(acceptors@[i as int]));
            proof {
                acceptors@.take(i as int).lemma_push_to_set_commute(acceptors@[i as int]);
            }
            assert(ids@.dom() =~= acceptors@.take(i + 1).to_set());
        }
        assert(acceptors@.take(acceptors.len() as int) == acceptors@);
        APaxos { acceptors: ids, quorum_set, rebuild, transport, _p: PhantomData }
    }
}

} // verus!
