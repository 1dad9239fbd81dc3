//! Why classic Paxos built from these parts is safe: a committed proposal
//! stays committed.
//!
//! The laws below speak of a cluster of acceptors, by id, as the acceptor
//! handlers leave them (`after_phase1`, `after_phase2`), with ballot numbers
//! as time, a [`Majority`] quorum set and [`Mirrored`] values. Together they
//! say: once a proposal `p` is committed at ballot `t`, every later phase-1
//! that reaches a read quorum rebuilds `p`, and neither phase-1 requests nor
//! phase-2 requests for `p` can undo the commitment. `rounds.rs` puts them
//! together over whole runs.
use crate::apaxos::accepted::AcceptedView;
use crate::apaxos::acceptor::AcceptorView;
use crate::apaxos::proposal::ProposalView;
use crate::apaxos::proposer::phase1::first_with_accept_time;
use crate::apaxos::proposer::phase1::parts_proposed_at;
use crate::apaxos::proposer::phase1::rebuilt;
use crate::commonly_used::quorum_set::majority::lemma_majority_quorums_intersect;
use crate::commonly_used::quorum_set::majority::Majority;
use crate::commonly_used::rebuild::Mirrored;
use crate::ids::is_listing;
use crate::ids::listing;
use crate::commonly_used::transport::replay;
use crate::NetEvent;
use crate::QuorumSet;
use crate::Types;
use crate::Value;
use vstd::prelude::*;

verus! {

/// The acceptors of a cluster, by id, as a proposer sees them.
pub type Cluster<V> = Map<u64, AcceptorView<u64, V>>;

/// The acceptors of `cluster` that have accepted something at ballot `t` or
/// later.
pub open spec fn accepted_since<V>(cluster: Cluster<V>, t: u64) -> Set<u64> {
    cluster.dom().filter(
        |x: u64|
            cluster[x].accepted matches Some(a) && a.accept_time >= t,
    )
}

/// `p` is committed at ballot `t` in `cluster`:
/// - no acceptor has accepted at a ballot later than the one it promised;
/// - everything accepted at ballot `t` or later is `p`;
/// - whatever was accepted with `p`'s propose time carries `p`'s value;
/// - the acceptors that accepted at `t` or later form a write quorum.
pub open spec fn committed<V, T: Types<Time = u64>>(
    qs: Majority<T>,
    cluster: Cluster<V>,
    t: u64,
    p: ProposalView<u64, V>,
) -> bool {
    &&& forall|x: u64| #[trigger]
        cluster.contains_key(x) ==> (cluster[x].accepted matches Some(a) ==> a.accept_time
            <= cluster[x].time)
    &&& forall|x: u64| #[trigger]
        cluster.contains_key(x) ==> (cluster[x].accepted matches Some(a) ==> (a.accept_time >= t
            ==> a.proposal == p))
    &&& forall|x: u64| #[trigger]
        cluster.contains_key(x) ==> (cluster[x].accepted matches Some(a) ==> (
        a.proposal.propose_time == p.propose_time ==> a.proposal.data == p.data))
    &&& qs.write_quorum_spec(listing(accepted_since(cluster, t)))
}

/// The cluster after the acceptors in `to` handled a phase-1 request at
/// ballot `t2`.
pub open spec fn apply_phase1<V>(cluster: Cluster<V>, to: Set<u64>, t2: u64) -> Cluster<V> {
    Map::new(
        |x: u64| cluster.contains_key(x),
        |x: u64|
            if to.contains(x) {
                cluster[x].after_phase1(t2)
            } else {
                cluster[x]
            },
    )
}

/// The cluster after the acceptors in `to` handled a phase-2 request at
/// ballot `t2` for proposal `p`.
pub open spec fn apply_phase2<V>(
    cluster: Cluster<V>,
    to: Set<u64>,
    t2: u64,
    p: ProposalView<u64, V>,
) -> Cluster<V> {
    Map::new(
        |x: u64| cluster.contains_key(x),
        |x: u64|
            if to.contains(x) {
                cluster[x].after_phase2(t2, p)
            } else {
                cluster[x]
            },
    )
}

/// Each request that reaches the acceptors of a transport changes them as
/// the phase step of this model does for the one acceptor it names; a reply
/// changes nothing.
pub proof fn lemma_replay_is_model_step<V>(
    start: Cluster<V>,
    log: Seq<NetEvent<u64, V>>,
    e: NetEvent<u64, V>,
)
    ensures
        e matches NetEvent::Phase1Request(id, t) ==> replay(start, log.push(e)) == apply_phase1(
            replay(start, log),
            set![id],
            t,
        ),
        e matches NetEvent::Phase2Request(id, t, p) ==> replay(start, log.push(e)) == apply_phase2(
            replay(start, log),
            set![id],
            t,
            p,
        ),
        (e is Phase1Reply || e is Phase2Reply) ==> replay(start, log.push(e)) == replay(start, log),
{
    let c = replay(start, log);
    assert(log.push(e).drop_last() == log);
    match e {
        NetEvent::Phase1Request(id, t) => {
            assert(replay(start, log.push(e)) =~= apply_phase1(c, set![id], t));
        },
        NetEvent::Phase2Request(id, t, p) => {
            assert(replay(start, log.push(e)) =~= apply_phase2(c, set![id], t, p));
        },
        _ => {},
    }
}

/// The parts proposed at a given time all carry the value `v`, when every
/// entry proposed at that time does; and there is one for each such entry.
proof fn lemma_parts_proposed_at<V>(
    prev: Map<u64, AcceptedView<u64, V>>,
    ks: Seq<u64>,
    pt: u64,
    v: V,
)
    requires
        forall|i: int|
            0 <= i < ks.len() && prev[#[trigger] ks[i]].proposal.propose_time == pt
                ==> prev[ks[i]].proposal.data == v,
    ensures
        forall|i: int|
            0 <= i < parts_proposed_at(prev, ks, pt).len() ==> #[trigger] parts_proposed_at(
                prev,
                ks,
                pt,
            )[i].1 == v,
        (exists|i: int| 0 <= i < ks.len() && prev[#[trigger] ks[i]].proposal.propose_time == pt)
            ==> parts_proposed_at(prev, ks, pt).len() > 0,
    decreases ks.len(),
{
    if ks.len() > 0 {
        let r = ks.drop_last();
        assert forall|i: int|
            0 <= i < r.len() && prev[#[trigger] r[i]].proposal.propose_time == pt implies prev[r[i]].proposal.data
            == v by {
            assert(r[i] == ks[i]);
        }
        lemma_parts_proposed_at(prev, r, pt, v);
        if exists|i: int| 0 <= i < ks.len() && prev[#[trigger] ks[i]].proposal.propose_time == pt {
            let i = choose|i: int| 0 <= i < ks.len() && prev[#[trigger] ks[i]].proposal.propose_time == pt;
            if i < ks.len() - 1 {
                assert(r[i] == ks[i]);
            }
        }
    }
}

/// Phase-1 recovers a committed proposal.
///
/// Let `p` be committed at ballot `t`. A proposer at ballot `t2` sends its
/// phase-1 request; the acceptors `granted`, which form a read quorum,
/// grant it (their time after the request is `t2`). Its phase-1 state then
/// holds, by acceptor, what those acceptors had accepted, and
/// `max_accept_time` the greatest of their accept times. Then `t2` is at
/// least `t`, and the proposal rebuilt from that state is `p`.
pub proof fn lemma_phase1_recovers_committed<V: Value, T: Types<Time = u64, Value = V, Part = V>>(
    qs: Majority<T>,
    d: Mirrored<T>,
    cluster: Cluster<V::V>,
    t: u64,
    p: ProposalView<u64, V::V>,
    t2: u64,
    granted: Set<u64>,
    prev: Map<u64, AcceptedView<u64, V::V>>,
    max_accept_time: u64,
)
    requires
        qs.acceptor_ids@.finite(),
        cluster.dom().finite(),
        committed(qs, cluster, t, p),
        granted.finite(),
        qs.read_quorum_spec(listing(granted)),
        forall|x: u64| #[trigger]
            granted.contains(x) ==> cluster.contains_key(x) && cluster[x].after_phase1(t2).time
                == t2,
        forall|x: u64| #[trigger]
            prev.contains_key(x) <==> granted.contains(x) && cluster[x].accepted is Some,
        forall|x: u64| #[trigger] prev.contains_key(x) ==> Some(prev[x]) == cluster[x].accepted,
        forall|x: u64| #[trigger] prev.contains_key(x) ==> prev[x].accept_time <= max_accept_time,
        prev.dom().len() > 0 ==> exists|x: u64|
            #[trigger] prev.contains_key(x) && prev[x].accept_time == max_accept_time,
    ensures
        t2 >= t,
        rebuilt::<T, Mirrored<T>>(d, prev, max_accept_time) == Some(p),
{
    let w = accepted_since(cluster, t);
    assert(w.finite());
    let lw = listing(w);
    let lr = listing(granted);
    assert(is_listing(lw, w)) by {
        vstd::set_lib::lemma_set_subset_finite(cluster.dom(), w);
        crate::ids::lemma_listing_exists(w);
    }
    assert(is_listing(lr, granted)) by {
        crate::ids::lemma_listing_exists(granted);
    }
    crate::ids::lemma_is_listing(lw, w);
    crate::ids::lemma_is_listing(lr, granted);
    lemma_majority_quorums_intersect(&qs, lr, lw);
    let x = choose|x: u64| lr.contains(x) && lw.contains(x) && qs.acceptor_ids@.contains(x);
    assert(granted.contains(x) && w.contains(x)) by {
        assert(lr.to_set().contains(x));
        assert(lw.to_set().contains(x));
    }
    let a = cluster[x].accepted->0;
    assert(a.accept_time >= t);
    assert(prev.contains_key(x));
    assert(cluster[x].after_phase1(t2).time == t2);
    assert(t2 >= t);
    assert(max_accept_time >= t);
    assert(prev.dom().contains(x));
    assert(prev.dom().len() > 0) by {
        vstd::set_lib::lemma_set_subset_finite(granted, prev.dom());
        if prev.dom().len() == 0 {
            prev.dom().lemma_len0_is_empty();
        }
    }
    let y = choose|y: u64| #[trigger] prev.contains_key(y) && prev[y].accept_time == max_accept_time;
    assert(prev[y].proposal == p);
    let ks = listing(prev.dom());
    assert(is_listing(ks, prev.dom())) by {
        vstd::set_lib::lemma_set_subset_finite(granted, prev.dom());
        crate::ids::lemma_listing_exists(prev.dom());
    }
    assert(ks.to_set().contains(y));
    let jy = choose|j: int| 0 <= j < ks.len() && ks[j] == y;
    crate::apaxos::proposer::phase1::lemma_first_with_accept_time(prev, ks, max_accept_time, jy);
    let k = first_with_accept_time(prev, ks, max_accept_time)->0;
    assert(ks.to_set().contains(k));
    assert(prev.contains_key(k));
    assert(prev[k].proposal == p);
    assert forall|i: int|
        0 <= i < ks.len() && prev[#[trigger] ks[i]].proposal.propose_time == p.propose_time implies prev[ks[i]].proposal.data
        == p.data by {
        assert(ks.to_set().contains(ks[i]));
    }
    lemma_parts_proposed_at(prev, ks, p.propose_time, p.data);
    let jk = choose|j: int| 0 <= j < ks.len() && ks[j] == k;
    assert(prev[ks[jk]].proposal.propose_time == p.propose_time);
    let parts = parts_proposed_at(prev, ks, p.propose_time);
    assert(parts.len() > 0);
    assert(parts[0].1 == p.data);
}

/// Phase-1 requests do not undo a commitment: they change no acceptor's
/// accepted proposal, and only raise promised ballots.
pub proof fn lemma_phase1_keeps_committed<V, T: Types<Time = u64>>(
    qs: Majority<T>,
    cluster: Cluster<V>,
    t: u64,
    p: ProposalView<u64, V>,
    to: Set<u64>,
    t2: u64,
)
    requires
        committed(qs, cluster, t, p),
    ensures
        committed(qs, apply_phase1(cluster, to, t2), t, p),
{
    let c2 = apply_phase1(cluster, to, t2);
    assert(accepted_since(c2, t) =~= accepted_since(cluster, t));
    assert forall|x: u64| #[trigger] c2.contains_key(x) implies (c2[x].accepted matches Some(a)
        ==> a.accept_time <= c2[x].time) by {
        assert(cluster.contains_key(x));
    }
    assert forall|x: u64| #[trigger] c2.contains_key(x) implies (c2[x].accepted matches Some(a)
        ==> (a.accept_time >= t ==> a.proposal == p)) by {
        assert(cluster.contains_key(x));
    }
    assert forall|x: u64| #[trigger] c2.contains_key(x) implies (c2[x].accepted matches Some(a)
        ==> (a.proposal.propose_time == p.propose_time ==> a.proposal.data == p.data)) by {
        assert(cluster.contains_key(x));
    }
}

/// The acceptors of `to` that accept a phase-2 request at ballot `t2`.
pub open spec fn accepting<V>(cluster: Cluster<V>, to: Set<u64>, t2: u64) -> Set<u64> {
    to.filter(|x: u64| cluster.contains_key(x) && cluster[x].accepts_phase2(t2))
}

/// What a phase-2 request for `p` at ballot `t2` leaves in a cluster: every
/// acceptor's accepted entry is its old one or `(t2, p)`, promises stay
/// above accept times, and the acceptors that accepted at `t` or later are
/// those that did before and those that accepted now, when `t2 >= t`.
proof fn lemma_phase2_effect<V>(
    cluster: Cluster<V>,
    t: u64,
    p: ProposalView<u64, V>,
    to: Set<u64>,
    t2: u64,
)
    requires
        t2 >= t,
        forall|x: u64| #[trigger]
            cluster.contains_key(x) ==> (cluster[x].accepted matches Some(a) ==> a.accept_time
                <= cluster[x].time),
    ensures
        ({
            let c2 = apply_phase2(cluster, to, t2, p);
            &&& c2.dom() == cluster.dom()
            &&& forall|x: u64| #[trigger]
                c2.contains_key(x) ==> (c2[x].accepted matches Some(a) ==> a.accept_time
                    <= c2[x].time)
            &&& forall|x: u64| #[trigger]
                c2.contains_key(x) ==> (c2[x].accepted == cluster[x].accepted || c2[x].accepted
                    == Some(AcceptedView { accept_time: t2, proposal: p }))
            &&& accepted_since(c2, t) == accepted_since(cluster, t).union(accepting(cluster, to, t2))
        }),
{
    let c2 = apply_phase2(cluster, to, t2, p);
    assert(c2.dom() =~= cluster.dom());
    assert forall|x: u64| #[trigger] c2.contains_key(x) implies (c2[x].accepted matches Some(a)
        ==> a.accept_time <= c2[x].time) by {
        assert(cluster.contains_key(x));
    }
    assert forall|x: u64| accepted_since(c2, t).contains(x) implies accepted_since(cluster, t).union(
        accepting(cluster, to, t2),
    ).contains(x) by {
        assert(cluster.contains_key(x));
    }
    assert forall|x: u64| accepted_since(cluster, t).union(accepting(cluster, to, t2)).contains(
        x,
    ) implies accepted_since(c2, t).contains(x) by {
        assert(cluster.contains_key(x));
        if accepted_since(cluster, t).contains(x) && !accepting(cluster, to, t2).contains(x) {
            if to.contains(x) {
                let a = cluster[x].accepted->0;
                assert(a.accept_time <= cluster[x].time);
            }
        }
    }
    assert(accepted_since(c2, t) =~= accepted_since(cluster, t).union(accepting(cluster, to, t2)));
}

/// Phase-2 requests for the committed proposal keep it committed: a proposer
/// that rebuilt `p` in phase-1 (so its ballot is at least `t`) sends `p`,
/// and whichever acceptors accept it, `p` stays committed.
pub proof fn lemma_phase2_keeps_committed<V, T: Types<Time = u64>>(
    qs: Majority<T>,
    cluster: Cluster<V>,
    t: u64,
    p: ProposalView<u64, V>,
    to: Set<u64>,
    t2: u64,
)
    requires
        cluster.dom().finite(),
        committed(qs, cluster, t, p),
        t2 >= t,
    ensures
        committed(qs, apply_phase2(cluster, to, t2, p), t, p),
{
    let c2 = apply_phase2(cluster, to, t2, p);
    lemma_phase2_effect(cluster, t, p, to, t2);
    assert forall|x: u64| #[trigger] c2.contains_key(x) implies (c2[x].accepted matches Some(a)
        ==> (a.accept_time >= t ==> a.proposal == p)) by {
        assert(cluster.contains_key(x));
    }
    assert forall|x: u64| #[trigger] c2.contains_key(x) implies (c2[x].accepted matches Some(a)
        ==> (a.proposal.propose_time == p.propose_time ==> a.proposal.data == p.data)) by {
        assert(cluster.contains_key(x));
    }
    assert(accepted_since(c2, t).subset_of(c2.dom()));
    vstd::set_lib::lemma_set_subset_finite(c2.dom(), accepted_since(c2, t));
    crate::commonly_used::quorum_set::majority::lemma_majority_quorum_grows(
        &qs,
        accepted_since(cluster, t),
        accepted_since(c2, t),
    );
}

/// A proposal accepted by a write quorum is committed: if everything
/// accepted at ballot `t` or later is `p`, and everything accepted with
/// `p`'s propose time carries `p`'s value, then once the acceptors that
/// accept a phase-2 request for `p` at ballot `t` form a write quorum, `p`
/// is committed at `t`.
pub proof fn lemma_phase2_commits<V, T: Types<Time = u64>>(
    qs: Majority<T>,
    cluster: Cluster<V>,
    t: u64,
    p: ProposalView<u64, V>,
    to: Set<u64>,
)
    requires
        cluster.dom().finite(),
        forall|x: u64| #[trigger]
            cluster.contains_key(x) ==> (cluster[x].accepted matches Some(a) ==> a.accept_time
                <= cluster[x].time),
        forall|x: u64| #[trigger]
            cluster.contains_key(x) ==> (cluster[x].accepted matches Some(a) ==> (a.accept_time
                >= t ==> a.proposal == p)),
        forall|x: u64| #[trigger]
            cluster.contains_key(x) ==> (cluster[x].accepted matches Some(a) ==> (
            a.proposal.propose_time == p.propose_time ==> a.proposal.data == p.data)),
        qs.write_quorum_spec(listing(accepting(cluster, to, t))),
    ensures
        committed(qs, apply_phase2(cluster, to, t, p), t, p),
{
    let c2 = apply_phase2(cluster, to, t, p);
    lemma_phase2_effect(cluster, t, p, to, t);
    assert forall|x: u64| #[trigger] c2.contains_key(x) implies (c2[x].accepted matches Some(a)
        ==> (a.accept_time >= t ==> a.proposal == p)) by {
        assert(cluster.contains_key(x));
    }
    assert forall|x: u64| #[trigger] c2.contains_key(x) implies (c2[x].accepted matches Some(a)
        ==> (a.proposal.propose_time == p.propose_time ==> a.proposal.data == p.data)) by {
        assert(cluster.contains_key(x));
    }
    assert(accepted_since(c2, t).subset_of(c2.dom()));
    vstd::set_lib::lemma_set_subset_finite(c2.dom(), accepted_since(c2, t));
    crate::commonly_used::quorum_set::majority::lemma_majority_quorum_grows(
        &qs,
        accepting(cluster, to, t),
        accepted_since(c2, t),
    );
}

} // verus!
