//! Classic Paxos run as a sequence of proposer rounds: at most one proposal
//! is ever committed.
//!
//! A round of a proposer at ballot `t2` sends phase-1 requests to some
//! acceptors; if those that grant form a read quorum, it decides the
//! proposal that phase-1 rebuilds (or its own, when nothing is rebuilt) and
//! sends phase-2 requests for it to some acceptors. Rounds run one after the
//! other, each with a ballot that no acceptor has accepted anything at.
use crate::apaxos::accepted::AcceptedView;
use crate::apaxos::proposal::ProposalView;
use crate::apaxos::proposer::phase1::first_with_accept_time;
use crate::apaxos::proposer::phase1::parts_proposed_at;
use crate::apaxos::proposer::phase1::rebuilt;
use crate::commonly_used::quorum_set::majority::lemma_majority_quorum_grows;
use crate::commonly_used::quorum_set::majority::lemma_majority_quorums_intersect;
use crate::commonly_used::quorum_set::majority::Majority;
use crate::commonly_used::rebuild::Mirrored;
use crate::ids::is_listing;
use crate::ids::lemma_is_listing;
use crate::ids::lemma_listing_exists;
use crate::ids::listing;
use crate::implementations::safety::accepting;
use crate::implementations::safety::apply_phase1;
use crate::implementations::safety::apply_phase2;
use crate::implementations::safety::committed;
use crate::implementations::safety::lemma_phase1_keeps_committed;
use crate::implementations::safety::lemma_phase1_recovers_committed;
use crate::implementations::safety::lemma_phase2_commits;
use crate::implementations::safety::lemma_phase2_keeps_committed;
use crate::implementations::safety::Cluster;
use crate::QuorumSet;
use crate::Types;
use crate::Value;
use vstd::prelude::*;

verus! {

/// The acceptors of `cluster` that have promised ballot `a` or a later one.
pub open spec fn promised<V>(cluster: Cluster<V>, a: u64) -> Set<u64> {
    cluster.dom().filter(|y: u64| cluster[y].time >= a)
}

/// What every Paxos cluster keeps:
/// - no acceptor has accepted at a ballot later than the one it promised;
/// - a proposal was proposed no later than it was accepted;
/// - whatever was accepted at ballot `a`, a write quorum has promised `a`
///   or later;
/// - two accepted proposals with the same propose time carry the same value.
pub open spec fn paxos_inv<V, T: Types<Time = u64>>(qs: Majority<T>, cluster: Cluster<V>) -> bool {
    &&& qs.acceptor_ids@.finite()
    &&& cluster.dom().finite()
    &&& forall|x: u64| #[trigger]
        cluster.contains_key(x) ==> (cluster[x].accepted matches Some(a) ==> a.accept_time
            <= cluster[x].time)
    &&& forall|x: u64| #[trigger]
        cluster.contains_key(x) ==> (cluster[x].accepted matches Some(a)
            ==> a.proposal.propose_time <= a.accept_time)
    &&& forall|x: u64| #[trigger]
        cluster.contains_key(x) ==> (cluster[x].accepted matches Some(a)
            ==> qs.write_quorum_spec(listing(promised(cluster, a.accept_time))))
    &&& forall|x: u64, y: u64|
        #[trigger] cluster.contains_key(x) && #[trigger] cluster.contains_key(y) ==> (
        cluster[x].accepted matches Some(a) ==> (cluster[y].accepted matches Some(b) ==> (
        a.proposal.propose_time == b.proposal.propose_time ==> a.proposal.data
            == b.proposal.data)))
}

/// A cluster in which no acceptor has accepted anything: every cluster
/// starts so.
pub open spec fn untouched<V>(cluster: Cluster<V>) -> bool {
    forall|x: u64| #[trigger] cluster.contains_key(x) ==> cluster[x].accepted is None
}

/// Ballot `t2` is fresh in `cluster`: nothing was accepted at `t2`, nor
/// proposed at `t2`.
pub open spec fn fresh<V>(cluster: Cluster<V>, t2: u64) -> bool {
    forall|x: u64| #[trigger]
        cluster.contains_key(x) ==> (cluster[x].accepted matches Some(a) ==> a.accept_time != t2
            && a.proposal.propose_time != t2)
}

/// The acceptors of `to` that granted a phase-1 request at `t2`, as seen in
/// the cluster after the request.
pub open spec fn granted_by<V>(cluster1: Cluster<V>, to: Set<u64>, t2: u64) -> Set<u64> {
    to.filter(|x: u64| cluster1.contains_key(x) && cluster1[x].time == t2)
}

/// What the granting acceptors had accepted, by id.
pub open spec fn accepted_by<V>(cluster1: Cluster<V>, granted: Set<u64>) -> Map<
    u64,
    AcceptedView<u64, V>,
> {
    Map::new(
        |x: u64| granted.contains(x) && cluster1.contains_key(x) && cluster1[x].accepted is Some,
        |x: u64| cluster1[x].accepted->0,
    )
}

/// `m` is the greatest accept time in `prev`, as phase-1 computes it.
pub open spec fn is_greatest_accept_time<V>(prev: Map<u64, AcceptedView<u64, V>>, m: u64) -> bool {
    &&& forall|x: u64| #[trigger] prev.contains_key(x) ==> prev[x].accept_time <= m
    &&& (exists|x: u64| #[trigger] prev.contains_key(x)) ==> exists|x: u64|
        #[trigger] prev.contains_key(x) && prev[x].accept_time == m
}

/// The proposal that a round decides: the one phase-1 rebuilds, or the
/// proposer's own.
pub open spec fn decided<V: Value, T: Types<Time = u64, Value = V, Part = V>>(
    d: Mirrored<T>,
    prev: Map<u64, AcceptedView<u64, V::V>>,
    m: u64,
    own: ProposalView<u64, V::V>,
) -> ProposalView<u64, V::V> {
    match rebuilt::<T, Mirrored<T>>(d, prev, m) {
        Some(p) => p,
        None => own,
    }
}

/// The cluster after a round at ballot `t2` whose phase-1 requests reach
/// `s1` and whose phase-2 requests (sent if a read quorum granted) reach
/// `s2`.
pub open spec fn round<V: Value, T: Types<Time = u64, Value = V, Part = V>>(
    qs: Majority<T>,
    d: Mirrored<T>,
    cluster: Cluster<V::V>,
    t2: u64,
    own: ProposalView<u64, V::V>,
    s1: Set<u64>,
    s2: Set<u64>,
    m: u64,
) -> Cluster<V::V> {
    let c1 = apply_phase1(cluster, s1, t2);
    let g = granted_by(c1, s1, t2);
    if qs.read_quorum_spec(listing(g)) {
        apply_phase2(c1, s2, t2, decided(d, accepted_by(c1, g), m, own))
    } else {
        c1
    }
}

/// The round commits its decided proposal: a read quorum granted, and the
/// acceptors that accepted its phase-2 requests form a write quorum.
pub open spec fn round_commits<V: Value, T: Types<Time = u64, Value = V, Part = V>>(
    qs: Majority<T>,
    cluster: Cluster<V::V>,
    t2: u64,
    s1: Set<u64>,
    s2: Set<u64>,
) -> bool {
    let c1 = apply_phase1(cluster, s1, t2);
    &&& qs.read_quorum_spec(listing(granted_by(c1, s1, t2)))
    &&& qs.write_quorum_spec(listing(accepting(c1, s2, t2)))
}

/// An untouched cluster keeps the Paxos invariant.
pub proof fn lemma_untouched_inv<V, T: Types<Time = u64>>(qs: Majority<T>, cluster: Cluster<V>)
    requires
        qs.acceptor_ids@.finite(),
        cluster.dom().finite(),
        untouched(cluster),
    ensures
        paxos_inv(qs, cluster),
{
}

/// Phase-1 requests keep the Paxos invariant and the freshness of a
/// ballot: they change no accepted entry and only raise promises.
pub proof fn lemma_phase1_keeps_inv<V, T: Types<Time = u64>>(
    qs: Majority<T>,
    cluster: Cluster<V>,
    s1: Set<u64>,
    t2: u64,
    t3: u64,
)
    requires
        paxos_inv(qs, cluster),
    ensures
        paxos_inv(qs, apply_phase1(cluster, s1, t2)),
        fresh(cluster, t3) ==> fresh(apply_phase1(cluster, s1, t2), t3),
        forall|x: u64| #[trigger]
            cluster.contains_key(x) ==> apply_phase1(cluster, s1, t2)[x].time >= cluster[x].time
                && apply_phase1(cluster, s1, t2)[x].accepted == cluster[x].accepted,
{
    let c1 = apply_phase1(cluster, s1, t2);
    assert(c1.dom() =~= cluster.dom());
    assert forall|x: u64| #[trigger] c1.contains_key(x) implies (c1[x].accepted matches Some(a)
        ==> qs.write_quorum_spec(listing(promised(c1, a.accept_time)))) by {
        if c1[x].accepted is Some {
            let a = c1[x].accepted->0;
            assert(cluster.contains_key(x));
            assert(promised(cluster, a.accept_time).subset_of(promised(c1, a.accept_time)));
            assert(promised(c1, a.accept_time).subset_of(c1.dom()));
            vstd::set_lib::lemma_set_subset_finite(c1.dom(), promised(c1, a.accept_time));
            lemma_majority_quorum_grows(
                &qs,
                promised(cluster, a.accept_time),
                promised(c1, a.accept_time),
            );
        }
    }
    assert forall|x: u64, y: u64|
        #[trigger] c1.contains_key(x) && #[trigger] c1.contains_key(y) implies (
    c1[x].accepted matches Some(a) ==> (c1[y].accepted matches Some(b) ==> (
    a.proposal.propose_time == b.proposal.propose_time ==> a.proposal.data
        == b.proposal.data))) by {
        assert(cluster.contains_key(x) && cluster.contains_key(y));
    }
}

/// A proposal is consistent with a cluster when it was proposed no later
/// than `t2` and everything accepted with its propose time carries its
/// value.
pub open spec fn consistent<V>(cluster: Cluster<V>, p: ProposalView<u64, V>, t2: u64) -> bool {
    &&& p.propose_time <= t2
    &&& forall|x: u64| #[trigger]
        cluster.contains_key(x) ==> (cluster[x].accepted matches Some(a) ==> (
        a.proposal.propose_time == p.propose_time ==> a.proposal.data == p.data))
}

/// The parts proposed at `pt` come from entries of `ks` proposed at `pt`.
proof fn lemma_parts_from_entries<V>(prev: Map<u64, AcceptedView<u64, V>>, ks: Seq<u64>, pt: u64)
    ensures
        forall|i: int|
            0 <= i < parts_proposed_at(prev, ks, pt).len() ==> ks.contains(
                #[trigger] parts_proposed_at(prev, ks, pt)[i].0,
            ) && prev[parts_proposed_at(prev, ks, pt)[i].0].proposal.propose_time == pt
                && prev[parts_proposed_at(prev, ks, pt)[i].0].proposal.data == parts_proposed_at(
                prev,
                ks,
                pt,
            )[i].1,
    decreases ks.len(),
{
    if ks.len() > 0 {
        let r = ks.drop_last();
        lemma_parts_from_entries(prev, r, pt);
        let rest = parts_proposed_at(prev, r, pt);
        assert forall|i: int| 0 <= i < rest.len() implies ks.contains(#[trigger] rest[i].0) by {
            let j = choose|j: int| 0 <= j < r.len() && r[j] == rest[i].0;
            assert(ks[j] == rest[i].0);
        }
        assert(ks[ks.len() - 1] == ks.last());
    }
}

/// The proposal rebuilt from accepted entries of a cluster, or the
/// proposer's own one made at a fresh ballot if none is rebuilt, is
/// consistent with the cluster.
pub proof fn lemma_rebuilt_consistent<V: Value, T: Types<Time = u64, Value = V, Part = V>>(
    qs: Majority<T>,
    d: Mirrored<T>,
    c1: Cluster<V::V>,
    prev: Map<u64, AcceptedView<u64, V::V>>,
    t2: u64,
    own: ProposalView<u64, V::V>,
    m: u64,
)
    requires
        paxos_inv(qs, c1),
        fresh(c1, t2),
        own.propose_time == t2,
        forall|x: u64| #[trigger]
            prev.contains_key(x) ==> c1.contains_key(x) && Some(prev[x]) == c1[x].accepted,
        forall|x: u64| #[trigger] prev.contains_key(x) ==> c1[x].time <= t2,
    ensures
        consistent(c1, decided(d, prev, m, own), t2),
{
    let ks = listing(prev.dom());
    match rebuilt::<T, Mirrored<T>>(d, prev, m) {
        None => {
        },
        Some(p) => {
            crate::apaxos::proposer::phase1::lemma_first_with_accept_time(prev, ks, m, 0);
            let k = first_with_accept_time(prev, ks, m)->0;
            assert(prev.dom().subset_of(c1.dom()));
            vstd::set_lib::lemma_set_subset_finite(c1.dom(), prev.dom());
            lemma_listing_exists(prev.dom());
            assert(ks.to_set().contains(k));
            assert(prev.contains_key(k));
            assert(c1.contains_key(k));
            let pt = prev[k].proposal.propose_time;
            assert(p.propose_time == pt);
            assert(pt <= t2);
            let parts = parts_proposed_at(prev, ks, pt);
            lemma_parts_from_entries(prev, ks, pt);
            assert(parts.len() > 0);
            assert(ks.contains(parts[0].0));
            let k0 = parts[0].0;
            assert(ks.to_set().contains(k0));
            assert(prev.contains_key(k0));
            assert(p.data == parts[0].1);
            assert(c1.contains_key(k0));
            assert forall|x: u64| #[trigger] c1.contains_key(x) implies (c1[x].accepted matches Some(
                a,
            ) ==> (a.proposal.propose_time == p.propose_time ==> a.proposal.data == p.data)) by {
                assert(c1.contains_key(k0));
            }
        },
    }
}

/// The proposal a round decides is consistent with the cluster: either
/// phase-1 rebuilt it from entries of the granting acceptors, or it is the
/// proposer's own, proposed at a fresh ballot.
pub proof fn lemma_decided_consistent<V: Value, T: Types<Time = u64, Value = V, Part = V>>(
    qs: Majority<T>,
    d: Mirrored<T>,
    c1: Cluster<V::V>,
    s1: Set<u64>,
    t2: u64,
    own: ProposalView<u64, V::V>,
    m: u64,
)
    requires
        paxos_inv(qs, c1),
        fresh(c1, t2),
        own.propose_time == t2,
    ensures
        consistent(c1, decided(d, accepted_by(c1, granted_by(c1, s1, t2)), m, own), t2),
{
    lemma_rebuilt_consistent(qs, d, c1, accepted_by(c1, granted_by(c1, s1, t2)), t2, own, m);
}

/// Phase-2 requests of a round whose phase-1 was granted by a read quorum
/// keep the Paxos invariant, when the proposal they carry is consistent
/// with the cluster.
pub proof fn lemma_phase2_keeps_inv<V, T: Types<Time = u64>>(
    qs: Majority<T>,
    c1: Cluster<V>,
    s1: Set<u64>,
    s2: Set<u64>,
    t2: u64,
    dec: ProposalView<u64, V>,
)
    requires
        paxos_inv(qs, c1),
        qs.read_quorum_spec(listing(granted_by(c1, s1, t2))),
        consistent(c1, dec, t2),
    ensures
        paxos_inv(qs, apply_phase2(c1, s2, t2, dec)),
        forall|x: u64| #[trigger]
            c1.contains_key(x) ==> apply_phase2(c1, s2, t2, dec)[x].time >= c1[x].time,
{
    let c2 = apply_phase2(c1, s2, t2, dec);
    let g = granted_by(c1, s1, t2);
    assert(c2.dom() =~= c1.dom());
    assert forall|x: u64| #[trigger] c1.contains_key(x) implies c2[x].time >= c1[x].time by {}
    assert forall|a: u64| promised(c1, a).subset_of(promised(c2, a)) by {}
    assert forall|x: u64| #[trigger] c2.contains_key(x) implies (c2[x].accepted matches Some(a)
        ==> qs.write_quorum_spec(listing(promised(c2, a.accept_time)))) by {
        if c2[x].accepted is Some {
            let a = c2[x].accepted->0;
            assert(promised(c2, a.accept_time).subset_of(c2.dom()));
            vstd::set_lib::lemma_set_subset_finite(c2.dom(), promised(c2, a.accept_time));
            if c2[x].accepted == c1[x].accepted {
                lemma_majority_quorum_grows(
                    &qs,
                    promised(c1, a.accept_time),
                    promised(c2, a.accept_time),
                );
            } else {
                assert(a.accept_time == t2);
                assert(g.subset_of(promised(c2, t2)));
                lemma_majority_quorum_grows(&qs, g, promised(c2, t2));
            }
        }
    }
    assert forall|x: u64, y: u64|
        #[trigger] c2.contains_key(x) && #[trigger] c2.contains_key(y) implies (
    c2[x].accepted matches Some(a) ==> (c2[y].accepted matches Some(b) ==> (
    a.proposal.propose_time == b.proposal.propose_time ==> a.proposal.data
        == b.proposal.data))) by {
        assert(c1.contains_key(x) && c1.contains_key(y));
    }
}

/// Rounds keep the Paxos invariant: a round at a fresh ballot, whose own
/// proposal is made at its ballot, leaves a cluster that keeps it.
pub proof fn lemma_round_keeps_inv<V: Value, T: Types<Time = u64, Value = V, Part = V>>(
    qs: Majority<T>,
    d: Mirrored<T>,
    cluster: Cluster<V::V>,
    t2: u64,
    own: ProposalView<u64, V::V>,
    s1: Set<u64>,
    s2: Set<u64>,
    m: u64,
)
    requires
        paxos_inv(qs, cluster),
        fresh(cluster, t2),
        own.propose_time == t2,
    ensures
        paxos_inv(qs, round(qs, d, cluster, t2, own, s1, s2, m)),
{
    let c1 = apply_phase1(cluster, s1, t2);
    lemma_phase1_keeps_inv(qs, cluster, s1, t2, t2);
    let g = granted_by(c1, s1, t2);
    if qs.read_quorum_spec(listing(g)) {
        lemma_decided_consistent(qs, d, c1, s1, t2, own, m);
        lemma_phase2_keeps_inv(qs, c1, s1, s2, t2, decided(d, accepted_by(c1, g), m, own));
    }
}

/// A round that commits makes its decided proposal committed at its ballot.
pub proof fn lemma_round_commits<V: Value, T: Types<Time = u64, Value = V, Part = V>>(
    qs: Majority<T>,
    d: Mirrored<T>,
    cluster: Cluster<V::V>,
    t2: u64,
    own: ProposalView<u64, V::V>,
    s1: Set<u64>,
    s2: Set<u64>,
    m: u64,
)
    requires
        paxos_inv(qs, cluster),
        fresh(cluster, t2),
        own.propose_time == t2,
        round_commits(qs, cluster, t2, s1, s2),
    ensures
        committed(
            qs,
            round(qs, d, cluster, t2, own, s1, s2, m),
            t2,
            decided(
                d,
                accepted_by(apply_phase1(cluster, s1, t2), granted_by(apply_phase1(cluster, s1, t2), s1, t2)),
                m,
                own,
            ),
        ),
{
    let c1 = apply_phase1(cluster, s1, t2);
    lemma_phase1_keeps_inv(qs, cluster, s1, t2, t2);
    let g = granted_by(c1, s1, t2);
    let dec = decided(d, accepted_by(c1, g), m, own);
    lemma_decided_consistent(qs, d, c1, s1, t2, own, m);
    assert forall|x: u64| #[trigger] c1.contains_key(x) implies (c1[x].accepted matches Some(a)
        ==> (a.accept_time >= t2 ==> a.proposal == dec)) by {
        if c1[x].accepted is Some {
            let a = c1[x].accepted->0;
            if a.accept_time >= t2 {
                assert(a.accept_time != t2);
                let pr = promised(c1, a.accept_time);
                assert(pr.subset_of(c1.dom()));
                vstd::set_lib::lemma_set_subset_finite(c1.dom(), pr);
                assert(g.subset_of(c1.dom()));
                vstd::set_lib::lemma_set_subset_finite(c1.dom(), g);
                lemma_listing_exists(pr);
                lemma_listing_exists(g);
                lemma_is_listing(listing(pr), pr);
                lemma_is_listing(listing(g), g);
                lemma_majority_quorums_intersect(&qs, listing(g), listing(pr));
                let y = choose|y: u64|
                    listing(g).contains(y) && listing(pr).contains(y) && qs.acceptor_ids@.contains(
                        y,
                    );
                assert(listing(g).to_set().contains(y));
                assert(listing(pr).to_set().contains(y));
                assert(false);
            }
        }
    }
    lemma_phase2_commits(qs, c1, t2, dec, s2);
}

/// A committed proposal stays committed, and every later round that reaches
/// phase-2 decides it: once `p` is committed at `t`, any round leaves `p`
/// committed at `t`, and a round whose phase-1 was granted by a read quorum
/// decides `p` (so whatever it commits is `p`).
pub proof fn lemma_round_keeps_committed<V: Value, T: Types<Time = u64, Value = V, Part = V>>(
    qs: Majority<T>,
    d: Mirrored<T>,
    cluster: Cluster<V::V>,
    t: u64,
    p: ProposalView<u64, V::V>,
    t2: u64,
    own: ProposalView<u64, V::V>,
    s1: Set<u64>,
    s2: Set<u64>,
    m: u64,
)
    requires
        paxos_inv(qs, cluster),
        committed(qs, cluster, t, p),
        is_greatest_accept_time(
            accepted_by(apply_phase1(cluster, s1, t2), granted_by(apply_phase1(cluster, s1, t2), s1, t2)),
            m,
        ),
    ensures
        committed(qs, round(qs, d, cluster, t2, own, s1, s2, m), t, p),
        qs.read_quorum_spec(listing(granted_by(apply_phase1(cluster, s1, t2), s1, t2))) ==> decided(
            d,
            accepted_by(apply_phase1(cluster, s1, t2), granted_by(apply_phase1(cluster, s1, t2), s1, t2)),
            m,
            own,
        ) == p,
{
    let c1 = apply_phase1(cluster, s1, t2);
    lemma_phase1_keeps_inv(qs, cluster, s1, t2, t2);
    lemma_phase1_keeps_committed(qs, cluster, t, p, s1, t2);
    let g = granted_by(c1, s1, t2);
    if qs.read_quorum_spec(listing(g)) {
        let prev = accepted_by(c1, g);
        assert(g.subset_of(c1.dom()));
        vstd::set_lib::lemma_set_subset_finite(c1.dom(), g);
        assert(prev.dom().subset_of(c1.dom()));
        vstd::set_lib::lemma_set_subset_finite(c1.dom(), prev.dom());
        assert(prev.dom().len() > 0 ==> exists|x: u64| #[trigger] prev.contains_key(x)) by {
            if prev.dom().len() > 0 && !(exists|x: u64| #[trigger] prev.contains_key(x)) {
                assert(prev.dom() =~= Set::<u64>::empty());
            }
        }
        lemma_phase1_recovers_committed(qs, d, c1, t, p, t2, g, prev, m);
        lemma_phase2_keeps_committed(qs, c1, t, p, s2, t2);
    }
}

/// The plan of one round: its ballot, the proposer's own proposal, the
/// acceptors its phase-1 and phase-2 requests reach, and the greatest
/// accept time its phase-1 found.
pub struct RoundPlan<V> {
    pub ballot: u64,
    pub own: ProposalView<u64, V>,
    pub phase1_to: Set<u64>,
    pub phase2_to: Set<u64>,
    pub max_accept_time: u64,
}

/// The cluster before round `n` of `plans`.
pub open spec fn before_round<V: Value, T: Types<Time = u64, Value = V, Part = V>>(
    qs: Majority<T>,
    d: Mirrored<T>,
    cluster: Cluster<V::V>,
    plans: Seq<RoundPlan<V::V>>,
    n: nat,
) -> Cluster<V::V>
    decreases n,
{
    if n == 0 {
        cluster
    } else {
        let pl = plans[n - 1];
        round(
            qs,
            d,
            before_round(qs, d, cluster, plans, (n - 1) as nat),
            pl.ballot,
            pl.own,
            pl.phase1_to,
            pl.phase2_to,
            pl.max_accept_time,
        )
    }
}

/// What phase-1 of round `n` found accepted, by granting acceptor.
pub open spec fn found_in_round<V: Value, T: Types<Time = u64, Value = V, Part = V>>(
    qs: Majority<T>,
    d: Mirrored<T>,
    cluster: Cluster<V::V>,
    plans: Seq<RoundPlan<V::V>>,
    n: nat,
) -> Map<u64, AcceptedView<u64, V::V>> {
    let pl = plans[n as int];
    let c1 = apply_phase1(before_round(qs, d, cluster, plans, n), pl.phase1_to, pl.ballot);
    accepted_by(c1, granted_by(c1, pl.phase1_to, pl.ballot))
}

/// The proposal that round `n` decides.
pub open spec fn decided_in_round<V: Value, T: Types<Time = u64, Value = V, Part = V>>(
    qs: Majority<T>,
    d: Mirrored<T>,
    cluster: Cluster<V::V>,
    plans: Seq<RoundPlan<V::V>>,
    n: nat,
) -> ProposalView<u64, V::V> {
    let pl = plans[n as int];
    decided(d, found_in_round(qs, d, cluster, plans, n), pl.max_accept_time, pl.own)
}

/// Round `n` commits its decided proposal.
pub open spec fn commits_in_round<V: Value, T: Types<Time = u64, Value = V, Part = V>>(
    qs: Majority<T>,
    d: Mirrored<T>,
    cluster: Cluster<V::V>,
    plans: Seq<RoundPlan<V::V>>,
    n: nat,
) -> bool {
    let pl = plans[n as int];
    round_commits(qs, before_round(qs, d, cluster, plans, n), pl.ballot, pl.phase1_to, pl.phase2_to)
}

/// Every round uses a fresh ballot, proposes its own value at its ballot,
/// and computes the greatest accept time of what its phase-1 found.
pub open spec fn well_planned<V: Value, T: Types<Time = u64, Value = V, Part = V>>(
    qs: Majority<T>,
    d: Mirrored<T>,
    cluster: Cluster<V::V>,
    plans: Seq<RoundPlan<V::V>>,
) -> bool {
    forall|n: nat|
        n < plans.len() ==> {
            &&& fresh(before_round(qs, d, cluster, plans, n), #[trigger] plans[n as int].ballot)
            &&& plans[n as int].own.propose_time == plans[n as int].ballot
            &&& is_greatest_accept_time(
                found_in_round(qs, d, cluster, plans, n),
                plans[n as int].max_accept_time,
            )
        }
}

/// Rounds keep the Paxos invariant all along.
pub proof fn lemma_rounds_keep_inv<V: Value, T: Types<Time = u64, Value = V, Part = V>>(
    qs: Majority<T>,
    d: Mirrored<T>,
    cluster: Cluster<V::V>,
    plans: Seq<RoundPlan<V::V>>,
    n: nat,
)
    requires
        paxos_inv(qs, cluster),
        well_planned(qs, d, cluster, plans),
        n <= plans.len(),
    ensures
        paxos_inv(qs, before_round(qs, d, cluster, plans, n)),
    decreases n,
{
    if n > 0 {
        lemma_rounds_keep_inv(qs, d, cluster, plans, (n - 1) as nat);
        let pl = plans[n - 1];
        assert(fresh(before_round(qs, d, cluster, plans, (n - 1) as nat), plans[n - 1].ballot));
        lemma_round_keeps_inv(
            qs,
            d,
            before_round(qs, d, cluster, plans, (n - 1) as nat),
            pl.ballot,
            pl.own,
            pl.phase1_to,
            pl.phase2_to,
            pl.max_accept_time,
        );
    }
}

/// Once round `i` commits, its proposal stays committed at its ballot
/// through every later round, and every later round that gets a read
/// quorum in phase-1 decides it.
pub proof fn lemma_commit_persists<V: Value, T: Types<Time = u64, Value = V, Part = V>>(
    qs: Majority<T>,
    d: Mirrored<T>,
    cluster: Cluster<V::V>,
    plans: Seq<RoundPlan<V::V>>,
    i: nat,
    n: nat,
)
    requires
        paxos_inv(qs, cluster),
        well_planned(qs, d, cluster, plans),
        i < n <= plans.len(),
        commits_in_round(qs, d, cluster, plans, i),
    ensures
        committed(
            qs,
            before_round(qs, d, cluster, plans, n),
            plans[i as int].ballot,
            decided_in_round(qs, d, cluster, plans, i),
        ),
    decreases n,
{
    let p = decided_in_round(qs, d, cluster, plans, i);
    if n == i + 1 {
        lemma_rounds_keep_inv(qs, d, cluster, plans, i);
        let pl = plans[i as int];
        assert(fresh(before_round(qs, d, cluster, plans, i), plans[i as int].ballot));
        lemma_round_commits(
            qs,
            d,
            before_round(qs, d, cluster, plans, i),
            pl.ballot,
            pl.own,
            pl.phase1_to,
            pl.phase2_to,
            pl.max_accept_time,
        );
    } else {
        lemma_commit_persists(qs, d, cluster, plans, i, (n - 1) as nat);
        lemma_rounds_keep_inv(qs, d, cluster, plans, (n - 1) as nat);
        let pl = plans[n - 1];
        assert(fresh(before_round(qs, d, cluster, plans, (n - 1) as nat), plans[n - 1].ballot));
        lemma_round_keeps_committed(
            qs,
            d,
            before_round(qs, d, cluster, plans, (n - 1) as nat),
            plans[i as int].ballot,
            p,
            pl.ballot,
            pl.own,
            pl.phase1_to,
            pl.phase2_to,
            pl.max_accept_time,
        );
    }
}

/// Agreement: in a run of well-planned rounds from a cluster that keeps the
/// Paxos invariant (such as one where nothing was accepted yet), any two
/// rounds that commit commit the same proposal.
pub proof fn lemma_rounds_agree<V: Value, T: Types<Time = u64, Value = V, Part = V>>(
    qs: Majority<T>,
    d: Mirrored<T>,
    cluster: Cluster<V::V>,
    plans: Seq<RoundPlan<V::V>>,
    i: nat,
    j: nat,
)
    requires
        paxos_inv(qs, cluster),
        well_planned(qs, d, cluster, plans),
        i < j < plans.len(),
        commits_in_round(qs, d, cluster, plans, i),
        commits_in_round(qs, d, cluster, plans, j),
    ensures
        decided_in_round(qs, d, cluster, plans, i) == decided_in_round(qs, d, cluster, plans, j),
{
    let p = decided_in_round(qs, d, cluster, plans, i);
    lemma_commit_persists(qs, d, cluster, plans, i, j);
    lemma_rounds_keep_inv(qs, d, cluster, plans, j);
    let pl = plans[j as int];
    lemma_round_keeps_committed(
        qs,
        d,
        before_round(qs, d, cluster, plans, j),
        plans[i as int].ballot,
        p,
        pl.ballot,
        pl.own,
        pl.phase1_to,
        pl.phase2_to,
        pl.max_accept_time,
    );
}

} // verus!
