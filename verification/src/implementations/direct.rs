//! Paxos runs of the executable proposer over a [`DirectCall`] transport.
//!
//! A run is described by what [`Proposer::run`] ensures of it
//! ([`proposer_ran`]) and by the log of the transport, whose invariant
//! relates it to the acceptors (`replay`) and to the replies they made.
//! From these, the laws below show that Paxos keeps its promises over
//! executable runs: what a run commits stays committed, and runs at
//! increasing ballots agree.
//!
//! [`Proposer::run`]: crate::apaxos::proposer::Proposer::run
//! [`DirectCall`]: crate::commonly_used::transport::DirectCall
use crate::apaxos::acceptor::AcceptorView;
use crate::apaxos::proposal::Proposal;
use crate::apaxos::proposal::ProposalView;
use crate::apaxos::proposer::empty_tally;
use crate::apaxos::proposer::leading_phase1_replies;
use crate::apaxos::proposer::phase1_stop;
use crate::apaxos::proposer::proposer_ran;
use crate::apaxos::proposer::ProposeError;
use crate::apaxos::proposer::phase1::tally_found;
use crate::commonly_used::rebuild::Mirrored;
use crate::implementations::safety::committed;
use crate::implementations::safety::lemma_phase1_recovers_committed;
use crate::apaxos::proposer::phase1::tally_replies;
use crate::apaxos::proposer::phase1::Phase1Tally;
use crate::commonly_used::quorum_set::majority::lemma_majority_quorum_grows;
use crate::commonly_used::quorum_set::majority::Majority;
use crate::ids::listing;
use crate::QuorumSet;
use crate::Types;
use crate::Value;
use crate::Distribute;
use crate::apaxos::greater_equal::GreaterEqual;
use crate::apaxos::proposer::phase1::phase1_requests;
use crate::commonly_used::transport::phase2_given;
use crate::commonly_used::transport::phase2_made;
use crate::implementations::safety::apply_phase2;
use crate::implementations::safety::accepting;
use crate::implementations::safety::lemma_phase2_commits;
use crate::implementations::safety::lemma_phase1_keeps_committed;
use crate::implementations::safety::lemma_phase2_keeps_committed;
use crate::implementations::rounds::consistent;
use crate::implementations::rounds::decided;
use crate::implementations::rounds::fresh;
use crate::implementations::rounds::lemma_phase1_keeps_inv;
use crate::implementations::rounds::lemma_phase2_keeps_inv;
use crate::implementations::rounds::granted_by;
use crate::implementations::rounds::lemma_rebuilt_consistent;
use crate::implementations::rounds::lemma_untouched_inv;
use crate::implementations::rounds::paxos_inv;
use crate::implementations::rounds::untouched;
use crate::implementations::rounds::promised;
use crate::apaxos::proposer::phase2::granted_after;
use crate::apaxos::proposer::phase2::phase2_ran;
use crate::apaxos::proposer::phase2::phase2_requests;
use crate::commonly_used::quorum_set::majority::lemma_majority_quorums_intersect;
use crate::commonly_used::transport::phase1_given;
use crate::commonly_used::transport::phase1_made;
use crate::commonly_used::transport::replay;
use crate::commonly_used::transport::drained_when_no_reply;
use crate::implementations::safety::apply_phase1;
use crate::implementations::safety::Cluster;
use crate::NetEvent;
use vstd::prelude::*;

verus! {

/// The phase-1 replies handed out over two stretches of a log are those of
/// the first, then those of the second.
pub proof fn lemma_phase1_given_concat<Tm, V>(a: Seq<NetEvent<Tm, V>>, b: Seq<NetEvent<Tm, V>>)
    ensures
        phase1_given(a + b) == phase1_given(a) + phase1_given(b),
    decreases b.len(),
{
    if b.len() == 0 {
        assert(a + b =~= a);
        assert(phase1_given(a) + phase1_given(b) =~= phase1_given(a));
    } else {
        lemma_phase1_given_concat(a, b.drop_last());
        assert((a + b).drop_last() =~= a + b.drop_last());
        assert((a + b).last() == b.last());
        match b.last() {
            NetEvent::Phase1Reply(id, x) => {
                assert(phase1_given(a) + phase1_given(b.drop_last()).push((id, x)) =~= (
                phase1_given(a) + phase1_given(b.drop_last())).push((id, x)));
            },
            _ => {},
        }
    }
}

/// Acceptors that handle two stretches of requests end as if they handled
/// the second from where the first left them.
pub proof fn lemma_replay_concat<Tm: GreaterEqual, V>(
    start: Map<u64, AcceptorView<Tm, V>>,
    a: Seq<NetEvent<Tm, V>>,
    b: Seq<NetEvent<Tm, V>>,
)
    ensures
        replay(start, a + b) == replay(replay(start, a), b),
    decreases b.len(),
{
    if b.len() == 0 {
        assert(a + b =~= a);
    } else {
        lemma_replay_concat(start, a, b.drop_last());
        assert((a + b).drop_last() =~= a + b.drop_last());
        assert((a + b).last() == b.last());
    }
}

/// The phase-1 replies made over two stretches of requests are those of the
/// first, then those the second made from where the first left the
/// acceptors.
pub proof fn lemma_phase1_made_concat<Tm: GreaterEqual, V>(
    start: Map<u64, AcceptorView<Tm, V>>,
    a: Seq<NetEvent<Tm, V>>,
    b: Seq<NetEvent<Tm, V>>,
)
    ensures
        phase1_made(start, a + b) == phase1_made(start, a) + phase1_made(replay(start, a), b),
    decreases b.len(),
{
    if b.len() == 0 {
        assert(a + b =~= a);
        assert(phase1_made(start, a) + phase1_made(replay(start, a), b) =~= phase1_made(start, a));
    } else {
        lemma_phase1_made_concat(start, a, b.drop_last());
        lemma_replay_concat(start, a, b.drop_last());
        assert((a + b).drop_last() =~= a + b.drop_last());
        assert((a + b).last() == b.last());
        let c = replay(replay(start, a), b.drop_last());
        match b.last() {
            NetEvent::Phase1Request(id, t) => {
                if c.contains_key(id) {
                    assert(phase1_made(start, a) + phase1_made(replay(start, a), b.drop_last()).push(
                        (id, c[id].after_phase1(t)),
                    ) =~= (phase1_made(start, a) + phase1_made(
                        replay(start, a),
                        b.drop_last(),
                    )).push((id, c[id].after_phase1(t))));
                }
            },
            _ => {},
        }
    }
}

/// Phase-1 requests at ballot `t` to distinct acceptors `ids` of `c`: the
/// acceptors end as the model's phase-1 step leaves them, and each made, as
/// its reply, its state after the request.
pub proof fn lemma_phase1_requests<V>(c: Cluster<V>, ids: Seq<u64>, t: u64)
    requires
        ids.no_duplicates(),
        forall|i: int| 0 <= i < ids.len() ==> c.contains_key(#[trigger] ids[i]),
    ensures
        replay(c, phase1_requests::<u64, V>(ids, t)) == apply_phase1(c, ids.to_set(), t),
        phase1_made(c, phase1_requests::<u64, V>(ids, t)) == ids.map_values(
            |id: u64| (id, c[id].after_phase1(t)),
        ),
    decreases ids.len(),
{
    let reqs = phase1_requests::<u64, V>(ids, t);
    if ids.len() == 0 {
        assert(ids.to_set() =~= Set::empty());
        assert(apply_phase1(c, ids.to_set(), t) =~= c);
        assert(reqs.len() == 0);
        assert(ids.map_values(|id: u64| (id, c[id].after_phase1(t))) =~= Seq::empty());
    } else {
        let r = ids.drop_last();
        let id = ids.last();
        assert(r.no_duplicates());
        lemma_phase1_requests(c, r, t);
        assert(reqs.drop_last() =~= phase1_requests::<u64, V>(r, t));
        assert(reqs.last() == NetEvent::<u64, V>::Phase1Request(id, t));
        assert(!r.contains(id)) by {
            if r.contains(id) {
                let k = choose|k: int| 0 <= k < r.len() && r[k] == id;
                assert(ids[k] == ids[ids.len() - 1]);
            }
        }
        assert(ids == r.push(id));
        r.lemma_push_to_set_commute(id);
        let c1 = apply_phase1(c, r.to_set(), t);
        assert(c.contains_key(ids[ids.len() - 1]));
        assert(c1[id] == c[id]);
        assert(c1.insert(id, c1[id].after_phase1(t)) =~= apply_phase1(c, ids.to_set(), t));
        assert(ids.map_values(|i: u64| (i, c[i].after_phase1(t))) =~= r.map_values(
            |i: u64| (i, c[i].after_phase1(t)),
        ).push((id, c[id].after_phase1(t))));
    }
}

/// A stretch of a log without phase-1 replies hands none out.
pub proof fn lemma_phase1_given_none<Tm, V>(s: Seq<NetEvent<Tm, V>>)
    requires
        forall|i: int| 0 <= i < s.len() ==> !(#[trigger] s[i] is Phase1Reply),
    ensures
        phase1_given(s) == Seq::<(u64, AcceptorView<Tm, V>)>::empty(),
    decreases s.len(),
{
    if s.len() > 0 {
        lemma_phase1_given_none(s.drop_last());
        assert(!(s[s.len() - 1] is Phase1Reply));
    }
}

/// A stretch of a log without phase-1 requests makes no phase-1 reply.
pub proof fn lemma_phase1_made_none<Tm: GreaterEqual, V>(
    c: Map<u64, AcceptorView<Tm, V>>,
    s: Seq<NetEvent<Tm, V>>,
)
    requires
        forall|i: int| 0 <= i < s.len() ==> !(#[trigger] s[i] is Phase1Request),
    ensures
        phase1_made(c, s) == Seq::<(u64, AcceptorView<Tm, V>)>::empty(),
    decreases s.len(),
{
    if s.len() > 0 {
        lemma_phase1_made_none(c, s.drop_last());
        assert(!(s[s.len() - 1] is Phase1Request));
    }
}

/// A stretch of phase-1 replies hands out exactly those replies.
pub proof fn lemma_phase1_given_all<Tm, V>(s: Seq<NetEvent<Tm, V>>)
    requires
        forall|i: int| 0 <= i < s.len() ==> #[trigger] s[i] is Phase1Reply,
    ensures
        phase1_given(s).len() == s.len(),
        forall|i: int|
            0 <= i < s.len() ==> (#[trigger] s[i] matches NetEvent::Phase1Reply(id, a)
                && phase1_given(s)[i] == (id, a)),
    decreases s.len(),
{
    if s.len() > 0 {
        lemma_phase1_given_all(s.drop_last());
        assert(s[s.len() - 1] is Phase1Reply);
        assert forall|i: int| 0 <= i < s.len() implies (#[trigger] s[i] matches NetEvent::Phase1Reply(
            id,
            a,
        ) && phase1_given(s)[i] == (id, a)) by {
            if i < s.len() - 1 {
                assert(s.drop_last()[i] == s[i]);
            }
        }
    }
}

/// The phase-2 replies handed out over two stretches of a log, the second
/// without phase-1 requests, are those of the first, then those of the
/// second.
pub proof fn lemma_phase2_given_concat<Tm, V>(a: Seq<NetEvent<Tm, V>>, b: Seq<NetEvent<Tm, V>>)
    requires
        forall|i: int| 0 <= i < b.len() ==> !(#[trigger] b[i] is Phase1Request),
    ensures
        phase2_given(a + b) == phase2_given(a) + phase2_given(b),
    decreases b.len(),
{
    if b.len() == 0 {
        assert(a + b =~= a);
        assert(phase2_given(a) + phase2_given(b) =~= phase2_given(a));
    } else {
        assert(!(b[b.len() - 1] is Phase1Request));
        lemma_phase2_given_concat(a, b.drop_last());
        assert((a + b).drop_last() =~= a + b.drop_last());
        assert((a + b).last() == b.last());
        match b.last() {
            NetEvent::Phase2Reply(id, ok) => {
                assert(phase2_given(a) + phase2_given(b.drop_last()).push((id, ok)) =~= (
                phase2_given(a) + phase2_given(b.drop_last())).push((id, ok)));
            },
            _ => {},
        }
    }
}

/// A stretch of a log without phase-2 replies hands none out.
pub proof fn lemma_phase2_given_none<Tm, V>(s: Seq<NetEvent<Tm, V>>)
    requires
        forall|i: int| 0 <= i < s.len() ==> !(#[trigger] s[i] is Phase2Reply),
    ensures
        phase2_given(s) == Seq::<(u64, bool)>::empty(),
    decreases s.len(),
{
    if s.len() > 0 {
        lemma_phase2_given_none(s.drop_last());
        assert(!(s[s.len() - 1] is Phase2Reply));
    }
}

/// A stretch of phase-2 replies hands out exactly those replies.
pub proof fn lemma_phase2_given_all<Tm, V>(s: Seq<NetEvent<Tm, V>>)
    requires
        forall|i: int| 0 <= i < s.len() ==> #[trigger] s[i] is Phase2Reply,
    ensures
        phase2_given(s).len() == s.len(),
        forall|i: int|
            0 <= i < s.len() ==> (#[trigger] s[i] matches NetEvent::Phase2Reply(id, ok)
                && phase2_given(s)[i] == (id, ok)),
    decreases s.len(),
{
    if s.len() > 0 {
        lemma_phase2_given_all(s.drop_last());
        assert(s[s.len() - 1] is Phase2Reply);
        assert forall|i: int| 0 <= i < s.len() implies (#[trigger] s[i] matches NetEvent::Phase2Reply(
            id,
            ok,
        ) && phase2_given(s)[i] == (id, ok)) by {
            if i < s.len() - 1 {
                assert(s.drop_last()[i] == s[i]);
            }
        }
    }
}

/// Events other than requests change no acceptor.
pub proof fn lemma_replay_replies<Tm: GreaterEqual, V>(
    c: Map<u64, AcceptorView<Tm, V>>,
    s: Seq<NetEvent<Tm, V>>,
)
    requires
        forall|i: int|
            0 <= i < s.len() ==> !(#[trigger] s[i] is Phase1Request) && !(s[i] is Phase2Request),
    ensures
        replay(c, s) == c,
    decreases s.len(),
{
    if s.len() > 0 {
        lemma_replay_replies(c, s.drop_last());
        assert(!(s[s.len() - 1] is Phase1Request) && !(s[s.len() - 1] is Phase2Request));
    }
}

/// A phase-1 request starts the phase-2 replies afresh: from it on, those
/// made and handed out are those of the stretch it starts.
pub proof fn lemma_phase2_reset<Tm: GreaterEqual, V>(
    start: Map<u64, AcceptorView<Tm, V>>,
    a: Seq<NetEvent<Tm, V>>,
    b: Seq<NetEvent<Tm, V>>,
)
    requires
        b.len() > 0,
        b[0] is Phase1Request,
    ensures
        phase2_given(a + b) == phase2_given(b),
        phase2_made(start, a + b) == phase2_made(replay(start, a), b),
    decreases b.len(),
{
    lemma_replay_concat(start, a, b.drop_last());
    assert((a + b).drop_last() =~= a + b.drop_last());
    assert((a + b).last() == b.last());
    if b.len() > 1 {
        assert(b.drop_last()[0] == b[0]);
        lemma_phase2_reset(start, a, b.drop_last());
    }
}

/// The phase-2 replies made over two stretches of requests, the second
/// without phase-1 requests, are those of the first, then those the second
/// made from where the first left the acceptors.
pub proof fn lemma_phase2_made_concat<Tm: GreaterEqual, V>(
    start: Map<u64, AcceptorView<Tm, V>>,
    a: Seq<NetEvent<Tm, V>>,
    b: Seq<NetEvent<Tm, V>>,
)
    requires
        forall|i: int| 0 <= i < b.len() ==> !(#[trigger] b[i] is Phase1Request),
    ensures
        phase2_made(start, a + b) == phase2_made(start, a) + phase2_made(replay(start, a), b),
    decreases b.len(),
{
    if b.len() == 0 {
        assert(a + b =~= a);
        assert(phase2_made(start, a) + phase2_made(replay(start, a), b) =~= phase2_made(start, a));
    } else {
        assert(!(b[b.len() - 1] is Phase1Request));
        lemma_phase2_made_concat(start, a, b.drop_last());
        lemma_replay_concat(start, a, b.drop_last());
        assert((a + b).drop_last() =~= a + b.drop_last());
        assert((a + b).last() == b.last());
        let c = replay(replay(start, a), b.drop_last());
        match b.last() {
            NetEvent::Phase2Request(id, t, p) => {
                if c.contains_key(id) {
                    assert(phase2_made(start, a) + phase2_made(replay(start, a), b.drop_last()).push(
                        (id, c[id].accepts_phase2(t)),
                    ) =~= (phase2_made(start, a) + phase2_made(
                        replay(start, a),
                        b.drop_last(),
                    )).push((id, c[id].accepts_phase2(t))));
                }
            },
            _ => {},
        }
    }
}

/// A stretch of a log without phase-2 requests makes no phase-2 reply
/// after its last phase-1 request.
pub proof fn lemma_phase2_made_none<Tm: GreaterEqual, V>(
    c: Map<u64, AcceptorView<Tm, V>>,
    s: Seq<NetEvent<Tm, V>>,
)
    requires
        forall|i: int| 0 <= i < s.len() ==> !(#[trigger] s[i] is Phase2Request),
    ensures
        phase2_made(c, s) == Seq::<(u64, bool)>::empty(),
    decreases s.len(),
{
    if s.len() > 0 {
        lemma_phase2_made_none(c, s.drop_last());
        assert(!(s[s.len() - 1] is Phase2Request));
    }
}

/// The phase-2 requests at ballot `t` for `p` to the distinct acceptors
/// `ids`, in that order.
pub open spec fn phase2_requests_for<V>(ids: Seq<u64>, t: u64, p: ProposalView<u64, V>) -> Seq<
    NetEvent<u64, V>,
> {
    Seq::new(ids.len(), |i: int| NetEvent::Phase2Request(ids[i], t, p))
}

/// Phase-2 requests at ballot `t` for `p` to distinct acceptors `ids` of
/// `c`: the acceptors end as the model's phase-2 step leaves them, and each
/// made, as its reply, whether it accepted.
pub proof fn lemma_phase2_requests<V>(c: Cluster<V>, ids: Seq<u64>, t: u64, p: ProposalView<u64, V>)
    requires
        ids.no_duplicates(),
        forall|i: int| 0 <= i < ids.len() ==> c.contains_key(#[trigger] ids[i]),
    ensures
        replay(c, phase2_requests_for(ids, t, p)) == apply_phase2(c, ids.to_set(), t, p),
        phase2_made(c, phase2_requests_for(ids, t, p)) == ids.map_values(
            |id: u64| (id, c[id].accepts_phase2(t)),
        ),
    decreases ids.len(),
{
    let reqs = phase2_requests_for(ids, t, p);
    if ids.len() == 0 {
        assert(ids.to_set() =~= Set::empty());
        assert(apply_phase2(c, ids.to_set(), t, p) =~= c);
        assert(ids.map_values(|id: u64| (id, c[id].accepts_phase2(t))) =~= Seq::empty());
    } else {
        let r = ids.drop_last();
        let id = ids.last();
        assert(r.no_duplicates());
        lemma_phase2_requests(c, r, t, p);
        assert(reqs.drop_last() =~= phase2_requests_for(r, t, p));
        assert(reqs.last() == NetEvent::<u64, V>::Phase2Request(id, t, p));
        assert(!r.contains(id)) by {
            if r.contains(id) {
                let k = choose|k: int| 0 <= k < r.len() && r[k] == id;
                assert(ids[k] == ids[ids.len() - 1]);
            }
        }
        assert(ids == r.push(id));
        r.lemma_push_to_set_commute(id);
        let c1 = apply_phase2(c, r.to_set(), t, p);
        assert(c.contains_key(ids[ids.len() - 1]));
        assert(c1[id] == c[id]);
        assert(c1.insert(id, c1[id].after_phase2(t, p)) =~= apply_phase2(c, ids.to_set(), t, p));
        assert(ids.map_values(|i: u64| (i, c[i].accepts_phase2(t))) =~= r.map_values(
            |i: u64| (i, c[i].accepts_phase2(t)),
        ).push((id, c[id].accepts_phase2(t))));
    }
}

/// What a tally holds after phase-1 replies that are, in order, the states
/// that the distinct acceptors `ids` of `c` reached at a request at `t2`.
pub open spec fn tally_of_states<V>(
    c: Cluster<V>,
    t2: u64,
    ids: Seq<u64>,
    k: int,
    s: Phase1Tally<u64, V>,
) -> bool {
    &&& s.granted.finite()
    &&& s.granted.subset_of(ids.take(k).to_set())
    &&& forall|x: u64| #[trigger]
        s.granted.contains(x) ==> c.contains_key(x) && c[x].after_phase1(t2).time == t2
    &&& forall|x: u64| #[trigger]
        s.previously_accepted.contains_key(x) <==> s.granted.contains(x) && c[x].accepted is Some
    &&& forall|x: u64| #[trigger]
        s.previously_accepted.contains_key(x) ==> Some(s.previously_accepted[x]) == c[x].accepted
    &&& forall|x: u64| #[trigger]
        s.previously_accepted.contains_key(x) ==> s.previously_accepted[x].accept_time
            <= s.max_accept_time
    &&& s.max_accept_time == 0 || exists|x: u64| #[trigger]
        s.previously_accepted.contains_key(x) && s.previously_accepted[x].accept_time
            == s.max_accept_time
}

/// The tally over the first `k` such replies holds what
/// [`tally_of_states`] says, and a quorum it found is one of its grants.
pub proof fn lemma_tally_of_states<V: Value, T: Types<Time = u64, Value = V, Part = V>>(
    qs: Majority<T>,
    c: Cluster<V::V>,
    t2: u64,
    ids: Seq<u64>,
    replies: Seq<NetEvent<u64, V::V>>,
    k: int,
)
    requires
        qs.acceptor_ids@.finite(),
        ids.no_duplicates(),
        0 <= k <= replies.len() <= ids.len(),
        forall|i: int|
            0 <= i < replies.len() ==> c.contains_key(ids[i]) && #[trigger] replies[i]
                == NetEvent::<u64, V::V>::Phase1Reply(ids[i], c[ids[i]].after_phase1(t2)),
    ensures
        tally_of_states(
            c,
            t2,
            ids,
            k,
            tally_replies::<T, Majority<T>>(qs, t2, empty_tally::<T>(), replies.take(k)),
        ),
        tally_replies::<T, Majority<T>>(qs, t2, empty_tally::<T>(), replies.take(k)).is_quorum
            ==> qs.read_quorum_spec(
            listing(
                tally_replies::<T, Majority<T>>(qs, t2, empty_tally::<T>(), replies.take(k)).granted,
            ),
        ),
        forall|j: int|
            0 <= j < k && c[ids[j]].after_phase1(t2).time == t2 ==> tally_replies::<T, Majority<T>>(
                qs,
                t2,
                empty_tally::<T>(),
                replies.take(k),
            ).granted.contains(#[trigger] ids[j]),
        k > 0 && c[ids[k - 1]].after_phase1(t2).time == t2 && qs.read_quorum_spec(
            listing(
                tally_replies::<T, Majority<T>>(qs, t2, empty_tally::<T>(), replies.take(k)).granted,
            ),
        ) ==> tally_replies::<T, Majority<T>>(qs, t2, empty_tally::<T>(), replies.take(k)).is_quorum,
    decreases k,
{
    let s = tally_replies::<T, Majority<T>>(qs, t2, empty_tally::<T>(), replies.take(k));
    if k == 0 {
        assert(replies.take(0) =~= Seq::<NetEvent<u64, V::V>>::empty());
        assert(s.granted =~= Set::empty());
        assert(ids.take(0).to_set() =~= Set::empty());
    } else {
        lemma_tally_of_states(qs, c, t2, ids, replies, k - 1);
        let before = tally_replies::<T, Majority<T>>(
            qs,
            t2,
            empty_tally::<T>(),
            replies.take(k - 1),
        );
        assert(replies.take(k).drop_last() =~= replies.take(k - 1));
        assert(replies.take(k).last() == replies[k - 1]);
        let id = ids[k - 1];
        let a = c[id].after_phase1(t2);
        assert(replies[k - 1] == NetEvent::<u64, V::V>::Phase1Reply(id, a));
        assert(ids.take(k) == ids.take(k - 1).push(id));
        ids.take(k - 1).lemma_push_to_set_commute(id);
        assert(!ids.take(k - 1).to_set().contains(id)) by {
            if ids.take(k - 1).to_set().contains(id) {
                let j = choose|j: int| 0 <= j < k - 1 && #[trigger] ids.take(k - 1)[j] == id;
                assert(ids[j] == ids[k - 1]);
            }
        }
        if a.time == t2 {
            assert(s.granted == before.granted.insert(id));
            if before.is_quorum {
                lemma_majority_quorum_grows(&qs, before.granted, s.granted);
            }
            match a.accepted {
                Some(x) => {
                    if x.accept_time >= before.max_accept_time {
                        assert(s.previously_accepted.contains_key(id)
                            && s.previously_accepted[id].accept_time == s.max_accept_time);
                    } else {
                        assert(before.max_accept_time != 0);
                        let w = choose|w: u64| #[trigger]
                            before.previously_accepted.contains_key(w)
                                && before.previously_accepted[w].accept_time
                                == before.max_accept_time;
                        assert(s.previously_accepted.contains_key(w));
                    }
                },
                None => {
                    if before.max_accept_time != 0 {
                        let w = choose|w: u64| #[trigger]
                            before.previously_accepted.contains_key(w)
                                && before.previously_accepted[w].accept_time
                                == before.max_accept_time;
                        assert(s.previously_accepted.contains_key(w));
                    }
                },
            }
        }
    }
}

/// Whether `e`, if a phase-1 reply, refuses a request at `time`.
pub open spec fn refuses<Tm, V>(e: NetEvent<Tm, V>, time: Tm) -> bool {
    match e {
        NetEvent::Phase1Reply(_, a) => a.time != time,
        _ => true,
    }
}

/// Refusals ahead of other phase-1 replies change nothing of the tally.
pub proof fn lemma_tally_skips_refusals<T: Types, Q: QuorumSet<T>>(
    qs: Q,
    time: T::Time,
    start: Phase1Tally<T::Time, <T::Part as DeepView>::V>,
    a: Seq<NetEvent<T::Time, <T::Part as DeepView>::V>>,
    b: Seq<NetEvent<T::Time, <T::Part as DeepView>::V>>,
)
    requires
        forall|i: int| 0 <= i < a.len() ==> refuses(#[trigger] a[i], time),
    ensures
        tally_replies::<T, Q>(qs, time, start, a + b) == tally_replies::<T, Q>(qs, time, start, b),
    decreases a.len() + b.len(),
{
    if b.len() == 0 {
        assert(a + b =~= a);
        if a.len() > 0 {
            lemma_tally_skips_refusals::<T, Q>(qs, time, start, a.drop_last(), b);
            assert(a.drop_last() + b =~= a.drop_last());
            assert(refuses(a[a.len() - 1], time));
        }
    } else {
        lemma_tally_skips_refusals::<T, Q>(qs, time, start, a, b.drop_last());
        assert((a + b).drop_last() =~= a + b.drop_last());
        assert((a + b).last() == b.last());
    }
}

/// How many phase-1 replies wait to be handed out after `log`.
pub open spec fn waiting1<Tm: GreaterEqual, V>(
    start: Map<u64, AcceptorView<Tm, V>>,
    log: Seq<NetEvent<Tm, V>>,
) -> int {
    phase1_made(start, log).len() - phase1_given(log).len()
}

/// Where the phase-1 replies of a proposer run that logged `events` end:
/// after the requests to the acceptors `ids`, and the replies that follow.
pub open spec fn phase1_end<Tm, V>(ids: Seq<u64>, events: Seq<NetEvent<Tm, V>>) -> int {
    (ids.len() + leading_phase1_replies(events.skip(ids.len() as int))) as int
}

/// The decision of the phase-1 of a proposer run that logged `events`:
/// what the replies rebuilt, or the proposer's own proposal.
pub open spec fn run_decided<V: Value, T: Types<Time = u64, Value = V, Part = V>>(
    qs: Majority<T>,
    d: Mirrored<T>,
    t2: u64,
    own: ProposalView<u64, V::V>,
    ids: Seq<u64>,
    events: Seq<NetEvent<u64, V::V>>,
) -> ProposalView<u64, V::V> {
    let replies = events.take(phase1_end(ids, events)).skip(ids.len() as int);
    match tally_found::<T, Mirrored<T>>(
        d,
        tally_replies::<T, Majority<T>>(qs, t2, empty_tally::<T>(), replies),
    ) {
        Some(found) => found,
        None => own,
    }
}

/// The events that `leading_phase1_replies` counts are phase-1 replies,
/// and the one after them is not.
pub proof fn lemma_leading_props<Tm, V>(s: Seq<NetEvent<Tm, V>>)
    ensures
        leading_phase1_replies(s) <= s.len(),
        forall|i: int| 0 <= i < leading_phase1_replies(s) ==> #[trigger] s[i] is Phase1Reply,
        leading_phase1_replies(s) < s.len() ==> !(s[leading_phase1_replies(s) as int] is Phase1Reply),
    decreases s.len(),
{
    if s.len() > 0 && s[0] is Phase1Reply {
        lemma_leading_props(s.drop_first());
        assert forall|i: int| 0 <= i < leading_phase1_replies(s) implies #[trigger] s[i] is Phase1Reply by {
            if i > 0 {
                assert(s[i] == s.drop_first()[i - 1]);
            }
        }
        if leading_phase1_replies(s) < s.len() {
            assert(s[leading_phase1_replies(s) as int] == s.drop_first()[leading_phase1_replies(
                s.drop_first(),
            ) as int]);
        }
    }
}

/// A proposer run at ballot `t2` over a `DirectCall` transport whose
/// acceptors were `start` and which had logged `log`, where the phase-1
/// replies still waiting are not at `t2`: its log splits into its phase-1
/// requests to the acceptors, the phase-1 replies it took, perhaps the
/// record that the transport had none left, and its phase-2 (requests and
/// replies only). Of the replies it took, those that were waiting refuse
/// it, and the others are, in id order, the states the acceptors reached
/// at its requests.
#[verifier::rlimit(50)]
#[verifier::spinoff_prover]
pub proof fn lemma_direct_phase1<V: Value, T: Types<Time = u64, Value = V, Part = V>>(
    qs: Majority<T>,
    d: Mirrored<T>,
    start: Cluster<V::V>,
    log: Seq<NetEvent<u64, V::V>>,
    events: Seq<NetEvent<u64, V::V>>,
    t2: u64,
    own: ProposalView<u64, V::V>,
    r: Result<Proposal<T, T::Value>, ProposeError>,
)
    requires
        replay(start, log).dom().finite(),
        phase1_given(log).is_prefix_of(phase1_made(start, log)),
        forall|i: int|
            phase1_given(log).len() <= i < phase1_made(start, log).len() ==> (
            #[trigger] phase1_made(start, log)[i]).1.time != t2,
        phase1_given(log + events).is_prefix_of(phase1_made(start, log + events)),
        proposer_ran::<T, Majority<T>, Mirrored<T>>(
            qs,
            d,
            t2,
            own,
            listing(replay(start, log).dom()),
            events,
            r,
        ),
    ensures
        ({
            let c0 = replay(start, log);
            let ids = listing(c0.dom());
            let m = phase1_end(ids, events);
            let stop = phase1_stop(ids, events);
            let replies = events.take(m).skip(ids.len() as int);
            let nr = events.subrange(m, stop);
            let rest = events.skip(stop);
            &&& ids.no_duplicates()
            &&& ids.to_set() == c0.dom()
            &&& forall|i: int| 0 <= i < ids.len() ==> c0.contains_key(#[trigger] ids[i])
            &&& ids.len() <= m <= stop <= events.len()
            &&& stop <= m + 1
            &&& events == phase1_requests::<u64, V::V>(ids, t2) + replies + nr + rest
            &&& replies.len() <= ids.len()
            &&& forall|i: int| 0 <= i < nr.len() ==> #[trigger] nr[i] is Phase1NoReply
            &&& tally_replies::<T, Majority<T>>(
                qs,
                t2,
                empty_tally::<T>(),
                events.take(stop).skip(ids.len() as int),
            ) == tally_replies::<T, Majority<T>>(qs, t2, empty_tally::<T>(), replies)
            &&& forall|i: int| 0 <= i < replies.len() ==> #[trigger] replies[i] is Phase1Reply
            &&& forall|i: int|
                0 <= i < replies.len() && i < waiting1(start, log) ==> refuses(
                    #[trigger] replies[i],
                    t2,
                )
            &&& forall|i: int|
                waiting1(start, log) <= i < replies.len() ==> #[trigger] replies[i]
                    == NetEvent::<u64, V::V>::Phase1Reply(
                    ids[i - waiting1(start, log)],
                    c0[ids[i - waiting1(start, log)]].after_phase1(t2),
                )
            &&& forall|i: int|
                0 <= i < rest.len() ==> #[trigger] rest[i] is Phase2Request || rest[i] is Phase2Reply
                    || rest[i] is Phase2NoReply
            &&& phase1_made(start, log + events) == phase1_made(start, log) + ids.map_values(
                |id: u64| (id, c0[id].after_phase1(t2)),
            )
        }),
{
    let c0 = replay(start, log);
    let ids = listing(c0.dom());
    crate::ids::lemma_listing_exists(c0.dom());
    crate::ids::lemma_is_listing(ids, c0.dom());
    assert forall|i: int| 0 <= i < ids.len() implies c0.contains_key(#[trigger] ids[i]) by {
        assert(ids.to_set().contains(ids[i]));
    }
    let n = ids.len() as int;
    let m = phase1_end(ids, events);
    let stop = phase1_stop(ids, events);
    let phase1 = events.take(stop);
    let reqs = phase1.take(n);
    let replies = events.take(m).skip(n);
    let nr = events.subrange(m, stop);
    let rest = events.skip(stop);
    lemma_leading_props(events.skip(n));
    assert(events =~= reqs + replies + nr + rest);
    assert(reqs == phase1_requests::<u64, V::V>(ids, t2));
    assert forall|i: int| 0 <= i < replies.len() implies #[trigger] replies[i] is Phase1Reply by {
        assert(replies[i] == events.skip(n)[i]);
    }
    assert(phase1.skip(n) =~= replies + nr);
    if nr.len() > 0 {
        assert((replies + nr).drop_last() =~= replies);
        assert((replies + nr).last() == events[m]);
    } else {
        assert(replies + nr =~= replies);
        if replies.len() > 0 {
            assert((replies + nr)[(replies + nr).len() - 1] == replies[replies.len() - 1]);
        }
    }
    assert forall|i: int| 0 <= i < rest.len() implies (#[trigger] rest[i] is Phase2Request
        || rest[i] is Phase2Reply || rest[i] is Phase2NoReply) by {
        let decided = run_decided(qs, d, t2, own, ids, events);
        let requests = crate::apaxos::proposer::phase2::phase2_requests(
            ids,
            t2,
            decided.propose_time,
            d.distribute_spec(decided.data, ids),
        );
        if i < requests.len() {
            assert(rest.take(requests.len() as int)[i] == requests[i]);
        } else {
            assert(rest.skip(requests.len() as int)[i - requests.len()] == rest[i]);
        }
    }
    lemma_phase1_given_concat(log, events);
    lemma_phase1_given_concat(reqs + replies + nr, rest);
    lemma_phase1_given_concat(reqs + replies, nr);
    lemma_phase1_given_concat(reqs, replies);
    lemma_phase1_given_none(reqs);
    lemma_phase1_given_none(nr);
    lemma_phase1_given_none(rest);
    lemma_phase1_given_all(replies);
    lemma_phase1_made_concat(start, log, events);
    let after = replies + nr + rest;
    lemma_phase1_made_concat(c0, reqs, after);
    assert forall|i: int| 0 <= i < after.len() implies !(#[trigger] after[i] is Phase1Request) by {
        if i >= replies.len() + nr.len() {
            assert(after[i] == rest[i - replies.len() - nr.len()]);
        } else if i >= replies.len() {
            assert(after[i] == nr[i - replies.len()]);
        } else {
            assert(after[i] == replies[i]);
        }
    }
    lemma_phase1_made_none(replay(c0, reqs), after);
    lemma_phase1_requests(c0, ids, t2);
    assert(phase1_given(events) =~= phase1_given(replies));
    assert(events =~= reqs + after);
    assert(phase1_made(c0, events) =~= ids.map_values(|id: u64| (id, c0[id].after_phase1(t2))));
    let w = waiting1(start, log);
    assert forall|i: int| 0 <= i < replies.len() && i < w implies refuses(
        #[trigger] replies[i],
        t2,
    ) by {
        let k = phase1_given(log).len() + i;
        assert(phase1_given(log + events)[k] == phase1_given(replies)[i]);
        assert(phase1_made(start, log + events)[k] == phase1_made(start, log)[k]);
    }
    assert forall|i: int| w <= i < replies.len() implies #[trigger] replies[i]
        == NetEvent::<u64, V::V>::Phase1Reply(ids[i - w], c0[ids[i - w]].after_phase1(t2)) by {
        let k = phase1_given(log).len() + i;
        assert(phase1_given(log + events)[k] == phase1_given(replies)[i]);
        assert(phase1_made(start, log + events)[k] == (
            ids[i - w],
            c0[ids[i - w]].after_phase1(t2),
        ));
    }
}

/// The tally of a proposer run over a `DirectCall` transport (in the
/// setting of [`lemma_direct_phase1`]), once it holds a read quorum: the
/// acceptors that granted, and what they had accepted, as the acceptors
/// were when the run began, and the greatest accept time among those.
#[verifier::rlimit(50)]
#[verifier::spinoff_prover]
pub proof fn lemma_direct_tally<V: Value, T: Types<Time = u64, Value = V, Part = V>>(
    qs: Majority<T>,
    d: Mirrored<T>,
    start: Cluster<V::V>,
    log: Seq<NetEvent<u64, V::V>>,
    events: Seq<NetEvent<u64, V::V>>,
    t2: u64,
    own: ProposalView<u64, V::V>,
    r: Result<Proposal<T, T::Value>, ProposeError>,
)
    requires
        qs.acceptor_ids@.finite(),
        replay(start, log).dom().finite(),
        phase1_given(log).is_prefix_of(phase1_made(start, log)),
        forall|i: int|
            phase1_given(log).len() <= i < phase1_made(start, log).len() ==> (
            #[trigger] phase1_made(start, log)[i]).1.time != t2,
        phase1_given(log + events).is_prefix_of(phase1_made(start, log + events)),
        proposer_ran::<T, Majority<T>, Mirrored<T>>(
            qs,
            d,
            t2,
            own,
            listing(replay(start, log).dom()),
            events,
            r,
        ),
    ensures
        ({
            let c0 = replay(start, log);
            let ids = listing(c0.dom());
            let replies = events.take(phase1_end(ids, events)).skip(ids.len() as int);
            let tally = tally_replies::<T, Majority<T>>(qs, t2, empty_tally::<T>(), replies);
            let prev = tally.previously_accepted;
            tally.is_quorum ==> {
                &&& tally_of_states(c0, t2, ids, ids.len() as int, tally)
                &&& qs.read_quorum_spec(listing(tally.granted))
                &&& prev.dom().len() > 0 ==> exists|x: u64|
                    #[trigger] prev.contains_key(x) && prev[x].accept_time == tally.max_accept_time
            }
        }),
{
    let c0 = replay(start, log);
    let ids = listing(c0.dom());
    let m = phase1_end(ids, events);
    let reqs = phase1_requests::<u64, V::V>(ids, t2);
    let replies = events.take(m).skip(ids.len() as int);
    let stop = phase1_stop(ids, events);
    let nr = events.subrange(m, stop);
    let rest = events.skip(stop);
    let tally = tally_replies::<T, Majority<T>>(qs, t2, empty_tally::<T>(), replies);
    lemma_direct_phase1(qs, d, start, log, events, t2, own, r);
    if !tally.is_quorum {
        return;
    }
    // The replies waiting from before are refusals; the others are the
    // states the acceptors reached at the run's requests.
    let w = waiting1(start, log);
    let skipped = if w <= replies.len() {
        w
    } else {
        replies.len() as int
    };
    let fresh_replies = replies.skip(skipped);
    assert(replies =~= replies.take(skipped) + fresh_replies);
    lemma_tally_skips_refusals::<T, Majority<T>>(
        qs,
        t2,
        empty_tally::<T>(),
        replies.take(skipped),
        fresh_replies,
    );
    if fresh_replies.len() == 0 {
        assert(fresh_replies =~= Seq::<NetEvent<u64, V::V>>::empty());
    }
    assert forall|i: int| 0 <= i < fresh_replies.len() implies c0.contains_key(ids[i])
        && #[trigger] fresh_replies[i] == NetEvent::<u64, V::V>::Phase1Reply(
        ids[i],
        c0[ids[i]].after_phase1(t2),
    ) by {
        assert(fresh_replies[i] == replies[i + w]);
    }
    assert(fresh_replies.take(fresh_replies.len() as int) == fresh_replies);
    lemma_tally_of_states(qs, c0, t2, ids, fresh_replies, fresh_replies.len() as int);
    let prev = tally.previously_accepted;
    assert(prev.dom().len() > 0 ==> exists|x: u64|
        #[trigger] prev.contains_key(x) && prev[x].accept_time == tally.max_accept_time) by {
        if prev.dom().len() > 0 {
            vstd::set_lib::lemma_set_subset_finite(tally.granted, prev.dom());
            if !(exists|x: u64| #[trigger] prev.contains_key(x)) {
                assert(prev.dom() =~= Set::<u64>::empty());
            }
            let x = choose|x: u64| #[trigger] prev.contains_key(x);
            if tally.max_accept_time == 0 {
                assert(prev[x].accept_time == tally.max_accept_time);
            }
        }
    }
    assert forall|x: u64| #[trigger] tally.granted.contains(x) implies ids.take(
        ids.len() as int,
    ).to_set().contains(x) by {
        let k = fresh_replies.len() as int;
        assert(ids.take(k).to_set().contains(x));
        let j = choose|j: int| 0 <= j < k && #[trigger] ids.take(k)[j] == x;
        assert(ids.take(ids.len() as int)[j] == x);
    }
}

/// Once the proposal `p` is committed at ballot `t`, a proposer run over a
/// `DirectCall` transport whose phase-1 replies formed a read quorum rebuilt
/// `p`; see [`lemma_direct_run_keeps_commit`] for the setting.
#[verifier::rlimit(50)]
#[verifier::spinoff_prover]
pub proof fn lemma_direct_run_finds_commit<V: Value, T: Types<Time = u64, Value = V, Part = V>>(
    qs: Majority<T>,
    d: Mirrored<T>,
    start: Cluster<V::V>,
    log: Seq<NetEvent<u64, V::V>>,
    events: Seq<NetEvent<u64, V::V>>,
    t: u64,
    p: ProposalView<u64, V::V>,
    t2: u64,
    own: ProposalView<u64, V::V>,
    r: Result<Proposal<T, T::Value>, ProposeError>,
)
    requires
        qs.acceptor_ids@.finite(),
        replay(start, log).dom().finite(),
        committed(qs, replay(start, log), t, p),
        phase1_given(log).is_prefix_of(phase1_made(start, log)),
        forall|i: int|
            phase1_given(log).len() <= i < phase1_made(start, log).len() ==> (
            #[trigger] phase1_made(start, log)[i]).1.time != t2,
        phase1_given(log + events).is_prefix_of(phase1_made(start, log + events)),
        proposer_ran::<T, Majority<T>, Mirrored<T>>(
            qs,
            d,
            t2,
            own,
            listing(replay(start, log).dom()),
            events,
            r,
        ),
    ensures
        ({
            let ids = listing(replay(start, log).dom());
            let replies = events.take(phase1_end(ids, events)).skip(ids.len() as int);
            let tally = tally_replies::<T, Majority<T>>(qs, t2, empty_tally::<T>(), replies);
            tally.is_quorum ==> t2 >= t && tally_found::<T, Mirrored<T>>(d, tally) == Some(p)
        }),
{
    let c0 = replay(start, log);
    let ids = listing(c0.dom());
    let replies = events.take(phase1_end(ids, events)).skip(ids.len() as int);
    let tally = tally_replies::<T, Majority<T>>(qs, t2, empty_tally::<T>(), replies);
    lemma_direct_tally(qs, d, start, log, events, t2, own, r);
    if tally.is_quorum {
        lemma_phase1_recovers_committed(
            qs,
            d,
            c0,
            t,
            p,
            t2,
            tally.granted,
            tally.previously_accepted,
            tally.max_accept_time,
        );
    }
}

/// Once the proposal `p` is committed at ballot `t`, every run of a
/// proposer over a [`DirectCall`](crate::commonly_used::transport::DirectCall)
/// transport that returns a proposal returns `p`, and every run leaves `p`
/// committed at `t`.
///
/// The transport was made with the acceptors `start` and had logged `log`
/// when the run began, and none of the phase-1 replies still waiting then
/// is at `t2`; the run logged `events` and returned `r`, at ballot `t2`,
/// with its own proposal `own`, against all the acceptors of the
/// transport. The transport hands out the phase-1 replies in the order they
/// were made.
#[verifier::rlimit(50)]
#[verifier::spinoff_prover]
pub proof fn lemma_direct_run_keeps_commit<V: Value, T: Types<Time = u64, Value = V, Part = V>>(
    qs: Majority<T>,
    d: Mirrored<T>,
    start: Cluster<V::V>,
    log: Seq<NetEvent<u64, V::V>>,
    events: Seq<NetEvent<u64, V::V>>,
    t: u64,
    p: ProposalView<u64, V::V>,
    t2: u64,
    own: ProposalView<u64, V::V>,
    r: Result<Proposal<T, T::Value>, ProposeError>,
)
    requires
        qs.acceptor_ids@.finite(),
        replay(start, log).dom().finite(),
        committed(qs, replay(start, log), t, p),
        phase1_given(log).is_prefix_of(phase1_made(start, log)),
        forall|i: int|
            phase1_given(log).len() <= i < phase1_made(start, log).len() ==> (
            #[trigger] phase1_made(start, log)[i]).1.time != t2,
        phase1_given(log + events).is_prefix_of(phase1_made(start, log + events)),
        proposer_ran::<T, Majority<T>, Mirrored<T>>(
            qs,
            d,
            t2,
            own,
            listing(replay(start, log).dom()),
            events,
            r,
        ),
    ensures
        r matches Ok(q) ==> q@ == p,
        committed(qs, replay(start, log + events), t, p),
{
    let c0 = replay(start, log);
    let ids = listing(c0.dom());
    let m = phase1_end(ids, events);
    let reqs = phase1_requests::<u64, V::V>(ids, t2);
    let replies = events.take(m).skip(ids.len() as int);
    let stop = phase1_stop(ids, events);
    let nr = events.subrange(m, stop);
    let rest = events.skip(stop);
    let tally = tally_replies::<T, Majority<T>>(qs, t2, empty_tally::<T>(), replies);
    lemma_direct_phase1(qs, d, start, log, events, t2, own, r);
    let c1 = apply_phase1(c0, ids.to_set(), t2);
    lemma_phase1_requests(c0, ids, t2);
    lemma_phase1_keeps_committed(qs, c0, t, p, ids.to_set(), t2);
    assert forall|i: int| 0 <= i < (replies + nr).len() implies !(#[trigger] (replies
        + nr)[i] is Phase1Request) && !((replies + nr)[i] is Phase2Request) by {
        if i >= replies.len() {
            assert((replies + nr)[i] == nr[i - replies.len()]);
        } else {
            assert((replies + nr)[i] == replies[i]);
        }
    }
    lemma_replay_replies(c1, replies + nr);
    lemma_replay_concat(start, log, events);
    lemma_replay_concat(c0, reqs, replies + nr);
    if !tally.is_quorum {
        assert(rest.len() == 0);
        assert(events =~= reqs + (replies + nr));
        return;
    }
    lemma_direct_run_finds_commit(qs, d, start, log, events, t, p, t2, own, r);
    // Its phase-2 handed every acceptor `p`, which keeps `p` committed.
    let requests = phase2_requests(ids, t2, p.propose_time, d.distribute_spec(p.data, ids));
    assert(requests =~= phase2_requests_for(ids, t2, p));
    let replies2 = rest.skip(requests.len() as int);
    assert(rest =~= requests + replies2);
    lemma_phase2_requests(c1, ids, t2, p);
    let c2 = apply_phase2(c1, ids.to_set(), t2, p);
    lemma_replay_replies(c2, replies2);
    assert(events =~= reqs + (replies + nr) + (requests + replies2));
    lemma_replay_concat(c0, reqs + (replies + nr), requests + replies2);
    lemma_replay_concat(replay(c0, reqs + (replies + nr)), requests, replies2);
    assert(c1.dom() =~= c0.dom());
    lemma_phase2_keeps_committed(qs, c1, t, p, ids.to_set(), t2);
}

/// The acceptors granted after phase-2 replies from acceptors of `s`,
/// starting from some of `s`, are some of `s`.
pub proof fn lemma_granted_after_within<Tm, V>(
    granted: Set<u64>,
    replies: Seq<NetEvent<Tm, V>>,
    s: Set<u64>,
)
    requires
        granted.subset_of(s),
        forall|i: int|
            0 <= i < replies.len() ==> (#[trigger] replies[i] matches NetEvent::Phase2Reply(id, _)
                ==> s.contains(id)),
    ensures
        granted_after(granted, replies).subset_of(s),
    decreases replies.len(),
{
    if replies.len() > 0 {
        lemma_granted_after_within(granted, replies.drop_last(), s);
        assert(replies.last() == replies[replies.len() - 1]);
    }
}

/// A proposer run over a [`DirectCall`](crate::commonly_used::transport::DirectCall)
/// transport at ballot `t2`, on acceptors that keep the Paxos invariant and
/// are, as the phase-1 replies they made, at ballots before `t2`, that
/// returns a proposal has committed it at `t2`.
///
/// The transport was made with the acceptors `start` and had logged `log`
/// when the run began; the run logged `events` and returned `r`, with its
/// own proposal `own` made at `t2`, against all the acceptors of the
/// transport, which hands out the replies in the order they were made.
#[verifier::rlimit(50)]
#[verifier::spinoff_prover]
pub proof fn lemma_direct_run_commits<V: Value, T: Types<Time = u64, Value = V, Part = V>>(
    qs: Majority<T>,
    d: Mirrored<T>,
    start: Cluster<V::V>,
    log: Seq<NetEvent<u64, V::V>>,
    events: Seq<NetEvent<u64, V::V>>,
    t2: u64,
    own: ProposalView<u64, V::V>,
    r: Result<Proposal<T, T::Value>, ProposeError>,
    b: u64,
)
    requires
        paxos_inv(qs, replay(start, log)),
        settled_by(replay(start, log), b),
        replies_by(start, log, b),
        b < t2,
        own.propose_time == t2,
        phase1_given(log).is_prefix_of(phase1_made(start, log)),
        phase1_given(log + events).is_prefix_of(phase1_made(start, log + events)),
        phase2_given(log + events).is_prefix_of(phase2_made(start, log + events)),
        proposer_ran::<T, Majority<T>, Mirrored<T>>(
            qs,
            d,
            t2,
            own,
            listing(replay(start, log).dom()),
            events,
            r,
        ),
    ensures
        r matches Ok(q) ==> committed(qs, replay(start, log + events), t2, q@),
{
    let c0 = replay(start, log);
    let ids = listing(c0.dom());
    let m = phase1_end(ids, events);
    let reqs = phase1_requests::<u64, V::V>(ids, t2);
    let replies = events.take(m).skip(ids.len() as int);
    let stop = phase1_stop(ids, events);
    let nr = events.subrange(m, stop);
    let rest = events.skip(stop);
    let tally = tally_replies::<T, Majority<T>>(qs, t2, empty_tally::<T>(), replies);
    assert forall|i: int|
        phase1_given(log).len() <= i < phase1_made(start, log).len() implies (
        #[trigger] phase1_made(start, log)[i]).1.time != t2 by {}
    lemma_direct_phase1(qs, d, start, log, events, t2, own, r);
    if !(r is Ok) || !tally.is_quorum {
        return;
    }
    lemma_direct_tally(qs, d, start, log, events, t2, own, r);
    if ids.len() == 0 {
        assert(replies =~= Seq::<NetEvent<u64, V::V>>::empty());
    }
    lemma_replay_dom(start, log);
    let s1 = ids.to_set();
    let g = tally.granted;
    let prev = tally.previously_accepted;
    let max = tally.max_accept_time;
    // Nothing was accepted at `t2` or later; phase-1 promised every
    // acceptor to `t2`.
    assert(fresh(c0, t2));
    let c1 = apply_phase1(c0, s1, t2);
    lemma_phase1_requests(c0, ids, t2);
    lemma_phase1_keeps_inv(qs, c0, s1, t2, t2);
    assert forall|x: u64| #[trigger] c1.contains_key(x) implies c1[x].time == t2 && (
    c1[x].accepted matches Some(a) ==> a.accept_time < t2) by {
        assert(c0.contains_key(x));
    }
    assert forall|x: u64| #[trigger] prev.contains_key(x) implies c1.contains_key(x) && Some(
        prev[x],
    ) == c1[x].accepted && c1[x].time <= t2 by {
        assert(g.contains(x));
    }
    // What it decided is consistent with them.
    let dec = decided(d, prev, max, own);
    assert(dec == run_decided(qs, d, t2, own, ids, events));
    lemma_rebuilt_consistent(qs, d, c1, prev, t2, own, max);
    // Its phase-2 handed every acceptor the decided proposal.
    let requests = phase2_requests(ids, t2, dec.propose_time, d.distribute_spec(dec.data, ids));
    assert(requests =~= phase2_requests_for(ids, t2, dec));
    let n2 = requests.len() as int;
    let replies2 = rest.skip(n2);
    assert(rest =~= requests + replies2);
    lemma_phase2_requests(c1, ids, t2, dec);
    let c2 = apply_phase2(c1, s1, t2, dec);
    // The acceptors end as phase-1 then phase-2 left them.
    assert forall|i: int| 0 <= i < (replies + nr).len() implies !(#[trigger] (replies
        + nr)[i] is Phase1Request) && !((replies + nr)[i] is Phase2Request) by {
        if i >= replies.len() {
            assert((replies + nr)[i] == nr[i - replies.len()]);
        } else {
            assert((replies + nr)[i] == replies[i]);
        }
    }
    lemma_replay_replies(c1, replies + nr);
    lemma_replay_replies(c2, replies2);
    lemma_replay_concat(start, log, events);
    assert(events =~= reqs + (replies + nr) + (requests + replies2));
    lemma_replay_concat(c0, reqs + (replies + nr), requests + replies2);
    lemma_replay_concat(c0, reqs, replies + nr);
    lemma_replay_concat(replay(c0, reqs + (replies + nr)), requests, replies2);
    assert(replay(start, log + events) == c2);
    // The phase-2 replies it took are the acceptors' answers to its
    // requests: those waiting from before were dropped at its first
    // phase-1 request.
    let x = reqs + (replies + nr);
    assert(events =~= x + rest);
    assert(events[0] == reqs[0]);
    lemma_phase2_reset(start, log, events);
    assert forall|i: int| 0 <= i < rest.len() implies !(#[trigger] rest[i] is Phase1Request) by {}
    lemma_phase2_given_concat(x, rest);
    lemma_phase2_made_concat(c0, x, rest);
    assert forall|i: int| 0 <= i < x.len() implies !(#[trigger] x[i] is Phase2Reply) && !(
    x[i] is Phase2Request) by {
        if i >= reqs.len() + replies.len() {
            assert(x[i] == nr[i - reqs.len() - replies.len()]);
        } else if i >= reqs.len() {
            assert(x[i] == replies[i - reqs.len()]);
        } else {
            assert(x[i] == reqs[i]);
        }
    }
    lemma_phase2_given_none(x);
    lemma_phase2_made_none(c0, x);
    lemma_replay_concat(c0, reqs, replies + nr);
    assert(replay(c0, x) == c1);
    assert forall|i: int| 0 <= i < replies2.len() implies !(#[trigger] replies2[i] is Phase1Request) by {
        assert(replies2[i] == rest[n2 + i]);
    }
    lemma_phase2_given_concat(requests, replies2);
    lemma_phase2_made_concat(c1, requests, replies2);
    lemma_phase2_given_none(requests);
    assert forall|i: int| 0 <= i < replies2.len() implies !(#[trigger] replies2[i] is Phase2Request) by {
        assert(replies2[i] == rest[n2 + i]);
    }
    lemma_phase2_made_none(c2, replies2);
    let taken2 = crate::apaxos::proposer::phase2::phase2_replies_taken(replies2);
    let pure2 = replies2.take(taken2);
    assert(replies2 =~= pure2 + replies2.skip(taken2));
    assert forall|i: int| 0 <= i < replies2.skip(taken2).len() implies !(#[trigger] replies2.skip(
        taken2,
    )[i] is Phase2Reply) by {}
    lemma_phase2_given_concat(pure2, replies2.skip(taken2));
    lemma_phase2_given_none(replies2.skip(taken2));
    assert forall|i: int| 0 <= i < pure2.len() implies #[trigger] pure2[i] is Phase2Reply by {
        assert(pure2[i] == replies2[i]);
    }
    lemma_phase2_given_all(pure2);
    assert(phase2_given(log + events) =~= phase2_given(pure2));
    assert(phase2_made(start, log + events) =~= ids.map_values(
        |id: u64| (id, c1[id].accepts_phase2(t2)),
    ));
    assert forall|i: int| 0 <= i < replies2.len() implies (#[trigger] replies2[i] matches NetEvent::Phase2Reply(
        id,
        _,
    ) ==> s1.contains(id)) by {
        if replies2[i] is Phase2Reply {
            assert(i < taken2);
            assert(pure2[i] == replies2[i]);
            assert(phase2_given(log + events)[i] == phase2_given(pure2)[i]);
            assert(phase2_made(start, log + events)[i] == (ids[i], c1[ids[i]].accepts_phase2(t2)));
            assert(ids.to_set().contains(ids[i]));
        }
    }
    // Every acceptor accepted, and those counted form a write quorum.
    lemma_granted_after_within(Set::empty(), replies2, s1);
    let acc = accepting(c1, s1, t2);
    assert(acc =~= s1);
    lemma_majority_quorum_grows(&qs, granted_after(Set::empty(), replies2), acc);
    assert(c1.dom() =~= c0.dom());
    lemma_phase2_commits(qs, c1, t2, dec, s1);
}

/// The acceptors granted after phase-2 replies that all accept hold every
/// acceptor that replied.
pub proof fn lemma_granted_after_all<Tm, V>(
    granted: Set<u64>,
    replies: Seq<NetEvent<Tm, V>>,
    ids: Seq<u64>,
)
    requires
        replies.len() <= ids.len(),
        forall|i: int|
            0 <= i < replies.len() ==> #[trigger] replies[i] == NetEvent::<Tm, V>::Phase2Reply(
                ids[i],
                true,
            ),
    ensures
        forall|j: int|
            0 <= j < replies.len() ==> granted_after(granted, replies).contains(#[trigger] ids[j]),
    decreases replies.len(),
{
    if replies.len() > 0 {
        lemma_granted_after_all(granted, replies.drop_last(), ids);
        assert(replies.last() == replies[replies.len() - 1]);
        assert forall|j: int| 0 <= j < replies.len() implies granted_after(
            granted,
            replies,
        ).contains(#[trigger] ids[j]) by {
            if j < replies.len() - 1 {
                assert(replies.drop_last()[j] == replies[j]);
            }
        }
    }
}

/// In the setting of [`lemma_direct_run_succeeds`], the phase-1 of the run
/// finds a read quorum.
#[verifier::rlimit(50)]
#[verifier::spinoff_prover]
pub proof fn lemma_direct_run_reads_quorum<V: Value, T: Types<Time = u64, Value = V, Part = V>>(
    qs: Majority<T>,
    d: Mirrored<T>,
    start: Cluster<V::V>,
    log: Seq<NetEvent<u64, V::V>>,
    events: Seq<NetEvent<u64, V::V>>,
    t2: u64,
    own: ProposalView<u64, V::V>,
    r: Result<Proposal<T, T::Value>, ProposeError>,
    b: u64,
)
    requires
        qs.acceptor_ids@.finite(),
        replay(start, log).dom().finite(),
        settled_by(replay(start, log), b),
        b < t2,
        qs.read_quorum_spec(listing(replay(start, log).dom())),
        phase1_made(start, log) == phase1_given(log),
        phase1_given(log + events).is_prefix_of(phase1_made(start, log + events)),
        phase2_given(log + events).is_prefix_of(phase2_made(start, log + events)),
        drained_when_no_reply(start, log + events),
        proposer_ran::<T, Majority<T>, Mirrored<T>>(
            qs,
            d,
            t2,
            own,
            listing(replay(start, log).dom()),
            events,
            r,
        ),
    ensures
        tally_replies::<T, Majority<T>>(
            qs,
            t2,
            empty_tally::<T>(),
            events.take(phase1_end(listing(replay(start, log).dom()), events)).skip(
                listing(replay(start, log).dom()).len() as int,
            ),
        ).is_quorum,
{
    let c0 = replay(start, log);
    let ids = listing(c0.dom());
    let n = ids.len() as int;
    let m = phase1_end(ids, events);
    let reqs = phase1_requests::<u64, V::V>(ids, t2);
    let replies = events.take(m).skip(n);
    let stop = phase1_stop(ids, events);
    let nr = events.subrange(m, stop);
    let rest = events.skip(stop);
    let tally = tally_replies::<T, Majority<T>>(qs, t2, empty_tally::<T>(), replies);
    lemma_direct_phase1(qs, d, start, log, events, t2, own, r);
    lemma_replay_dom(start, log);
    let s1 = ids.to_set();
    assert(waiting1(start, log) == 0);
    // Every acceptor grants the run's phase-1 request.
    assert forall|j: int| 0 <= j < n implies #[trigger] c0[ids[j]].after_phase1(t2).time == t2 by {
        assert(c0.contains_key(ids[j]));
    }
    assert forall|i: int| 0 <= i < replies.len() implies c0.contains_key(ids[i])
        && #[trigger] replies[i] == NetEvent::<u64, V::V>::Phase1Reply(
        ids[i],
        c0[ids[i]].after_phase1(t2),
    ) by {
        assert(replies[i] == NetEvent::<u64, V::V>::Phase1Reply(
            ids[i - waiting1(start, log)],
            c0[ids[i - waiting1(start, log)]].after_phase1(t2),
        ));
    }
    assert(replies.take(replies.len() as int) == replies);
    lemma_tally_of_states(qs, c0, t2, ids, replies, replies.len() as int);
    // It took a reply from every acceptor, unless it rebuilt a proposal
    // earlier: the transport had none left only once all had been taken.
    if !tally.is_quorum {
        if replies.len() < n {
            let phase1_replies = events.take(stop).skip(n);
            assert(phase1_replies =~= replies + nr);
            if nr.len() == 0 {
                assert(phase1_replies =~= replies);
            } else {
                assert(phase1_replies.last() == nr[0]);
            }
            assert(nr.len() == 1);
            let p = log.len() + m;
            let upto = log + (reqs + replies);
            assert((log + events).take(p) =~= upto);
            assert((log + events)[p] == nr[0]);
            lemma_phase1_given_concat(log, reqs + replies);
            lemma_phase1_given_concat(reqs, replies);
            lemma_phase1_given_none(reqs);
            lemma_phase1_given_all(replies);
            lemma_phase1_made_concat(start, log, reqs + replies);
            lemma_phase1_made_concat(c0, reqs, replies);
            lemma_phase1_made_none(replay(c0, reqs), replies);
            lemma_phase1_requests(c0, ids, t2);
            assert(false);
        }
        assert(replies.len() == n);
        assert forall|x: u64| s1.contains(x) implies tally.granted.contains(x) by {
            let j = choose|j: int| 0 <= j < n && ids[j] == x;
            assert(tally.granted.contains(ids[j]));
        }
        assert forall|x: u64| tally.granted.contains(x) implies s1.contains(x) by {
            assert(ids.take(n) =~= ids);
        }
        assert(tally.granted =~= s1);
        assert(s1 == c0.dom());
        if n == 0 {
            assert(ids.to_set() =~= Set::empty());
            assert(ids.to_set().intersect(qs.acceptor_ids@) =~= Set::empty());
        }
        assert(c0[ids[n - 1]].after_phase1(t2).time == t2);
        assert(false);
    }
}

/// A proposer run over a `DirectCall` transport with no phase-1 reply
/// waiting when it began takes a phase-1 reply for each acceptor, unless
/// those it took already rebuilt a proposal; and when it took one for each
/// acceptor, it leaves no phase-1 reply waiting.
#[verifier::rlimit(50)]
#[verifier::spinoff_prover]
pub proof fn lemma_direct_run_drains_phase1<V: Value, T: Types<Time = u64, Value = V, Part = V>>(
    qs: Majority<T>,
    d: Mirrored<T>,
    start: Cluster<V::V>,
    log: Seq<NetEvent<u64, V::V>>,
    events: Seq<NetEvent<u64, V::V>>,
    t2: u64,
    own: ProposalView<u64, V::V>,
    r: Result<Proposal<T, T::Value>, ProposeError>,
)
    requires
        replay(start, log).dom().finite(),
        phase1_made(start, log) == phase1_given(log),
        phase1_given(log + events).is_prefix_of(phase1_made(start, log + events)),
        drained_when_no_reply(start, log + events),
        proposer_ran::<T, Majority<T>, Mirrored<T>>(
            qs,
            d,
            t2,
            own,
            listing(replay(start, log).dom()),
            events,
            r,
        ),
    ensures
        ({
            let ids = listing(replay(start, log).dom());
            let replies = events.take(phase1_end(ids, events)).skip(ids.len() as int);
            &&& replies.len() < ids.len() ==> tally_found::<T, Mirrored<T>>(
                d,
                tally_replies::<T, Majority<T>>(qs, t2, empty_tally::<T>(), replies),
            ) is Some
            &&& replies.len() == ids.len() ==> phase1_made(start, log + events) == phase1_given(
                log + events,
            )
        }),
{
    let c0 = replay(start, log);
    let ids = listing(c0.dom());
    let n = ids.len() as int;
    let m = phase1_end(ids, events);
    let reqs = phase1_requests::<u64, V::V>(ids, t2);
    let replies = events.take(m).skip(n);
    let stop = phase1_stop(ids, events);
    let nr = events.subrange(m, stop);
    let rest = events.skip(stop);
    let tally = tally_replies::<T, Majority<T>>(qs, t2, empty_tally::<T>(), replies);
    lemma_direct_phase1(qs, d, start, log, events, t2, own, r);
    assert(waiting1(start, log) == 0);
    lemma_phase1_given_concat(log, reqs + replies);
    lemma_phase1_given_concat(reqs, replies);
    lemma_phase1_given_none(reqs);
    lemma_phase1_given_all(replies);
    lemma_phase1_made_concat(start, log, reqs + replies);
    lemma_phase1_made_concat(c0, reqs, replies);
    lemma_phase1_made_none(replay(c0, reqs), replies);
    lemma_phase1_requests(c0, ids, t2);
    if replies.len() < n && tally_found::<T, Mirrored<T>>(d, tally) is None {
        let phase1_replies = events.take(stop).skip(n);
        assert(phase1_replies =~= replies + nr);
        if nr.len() == 0 {
            assert(phase1_replies =~= replies);
        } else {
            assert(phase1_replies.last() == nr[0]);
        }
        assert(nr.len() == 1);
        let p = log.len() + m;
        let upto = log + (reqs + replies);
        assert((log + events).take(p) =~= upto);
        assert((log + events)[p] == nr[0]);
        assert(false);
    }
    if replies.len() == n {
        lemma_phase1_given_concat(log, events);
        lemma_phase1_given_concat(reqs + replies + nr, rest);
        lemma_phase1_given_concat(reqs + replies, nr);
        lemma_phase1_given_none(nr);
        lemma_phase1_given_none(rest);
        assert(events =~= reqs + replies + nr + rest);
        assert(phase1_given(log + events) =~= phase1_made(start, log + events));
    }
}

/// A proposer run over a `DirectCall` transport whose acceptors have
/// accepted nothing, with no phase-1 reply waiting when it began, rebuilds
/// nothing in phase-1, so takes a reply from every acceptor and leaves no
/// phase-1 reply waiting.
#[verifier::rlimit(50)]
#[verifier::spinoff_prover]
pub proof fn lemma_untouched_run_drains_phase1<V: Value, T: Types<Time = u64, Value = V, Part = V>>(
    qs: Majority<T>,
    d: Mirrored<T>,
    start: Cluster<V::V>,
    log: Seq<NetEvent<u64, V::V>>,
    events: Seq<NetEvent<u64, V::V>>,
    t2: u64,
    own: ProposalView<u64, V::V>,
    r: Result<Proposal<T, T::Value>, ProposeError>,
)
    requires
        qs.acceptor_ids@.finite(),
        replay(start, log).dom().finite(),
        untouched(replay(start, log)),
        phase1_made(start, log) == phase1_given(log),
        phase1_given(log + events).is_prefix_of(phase1_made(start, log + events)),
        drained_when_no_reply(start, log + events),
        proposer_ran::<T, Majority<T>, Mirrored<T>>(
            qs,
            d,
            t2,
            own,
            listing(replay(start, log).dom()),
            events,
            r,
        ),
    ensures
        phase1_made(start, log + events) == phase1_given(log + events),
        run_decided(qs, d, t2, own, listing(replay(start, log).dom()), events) == own,
{
    let c0 = replay(start, log);
    let ids = listing(c0.dom());
    let n = ids.len() as int;
    let m = phase1_end(ids, events);
    let replies = events.take(m).skip(n);
    lemma_direct_phase1(qs, d, start, log, events, t2, own, r);
    lemma_direct_run_drains_phase1(qs, d, start, log, events, t2, own, r);
    assert(waiting1(start, log) == 0);
    {
        assert forall|i: int| 0 <= i < replies.len() implies c0.contains_key(ids[i])
            && #[trigger] replies[i] == NetEvent::<u64, V::V>::Phase1Reply(
            ids[i],
            c0[ids[i]].after_phase1(t2),
        ) by {
            assert(replies[i] == NetEvent::<u64, V::V>::Phase1Reply(
                ids[i - waiting1(start, log)],
                c0[ids[i - waiting1(start, log)]].after_phase1(t2),
            ));
        }
        assert(replies.take(replies.len() as int) == replies);
        lemma_tally_of_states(qs, c0, t2, ids, replies, replies.len() as int);
        let tally = tally_replies::<T, Majority<T>>(qs, t2, empty_tally::<T>(), replies);
        assert(tally.previously_accepted.dom() =~= Set::<u64>::empty());
        let none = Seq::<u64>::empty();
        assert(none.to_set() =~= Set::<u64>::empty());
        crate::ids::lemma_is_listing(none, Set::<u64>::empty());
        assert(tally_found::<T, Mirrored<T>>(d, tally) is None);
    }
}

/// In the setting of [`lemma_direct_run_succeeds`], the run sends every
/// acceptor a phase-2 request, each phase-2 reply it takes accepts, in id
/// order, and the transport has none left only once it took them all.
#[verifier::rlimit(50)]
#[verifier::spinoff_prover]
pub proof fn lemma_direct_run_phase2_answers<V: Value, T: Types<Time = u64, Value = V, Part = V>>(
    qs: Majority<T>,
    d: Mirrored<T>,
    start: Cluster<V::V>,
    log: Seq<NetEvent<u64, V::V>>,
    events: Seq<NetEvent<u64, V::V>>,
    t2: u64,
    own: ProposalView<u64, V::V>,
    r: Result<Proposal<T, T::Value>, ProposeError>,
    b: u64,
)
    requires
        qs.acceptor_ids@.finite(),
        replay(start, log).dom().finite(),
        settled_by(replay(start, log), b),
        b < t2,
        qs.read_quorum_spec(listing(replay(start, log).dom())),
        phase1_made(start, log) == phase1_given(log),
        phase1_given(log + events).is_prefix_of(phase1_made(start, log + events)),
        phase2_given(log + events).is_prefix_of(phase2_made(start, log + events)),
        drained_when_no_reply(start, log + events),
        proposer_ran::<T, Majority<T>, Mirrored<T>>(
            qs,
            d,
            t2,
            own,
            listing(replay(start, log).dom()),
            events,
            r,
        ),
    ensures
        ({
            let ids = listing(replay(start, log).dom());
            let dec = run_decided(qs, d, t2, own, ids, events);
            let requests = phase2_requests(
                ids,
                t2,
                dec.propose_time,
                d.distribute_spec(dec.data, ids),
            );
            let replies2 = events.skip(phase1_stop(ids, events)).skip(requests.len() as int);
            let taken2 = crate::apaxos::proposer::phase2::phase2_replies_taken(replies2);
            &&& requests.len() == ids.len()
            &&& tally_replies::<T, Majority<T>>(
                qs,
                t2,
                empty_tally::<T>(),
                events.take(phase1_stop(ids, events)).skip(ids.len() as int),
            ).is_quorum
            &&& forall|i: int|
                0 <= i < taken2 ==> #[trigger] replies2[i] == NetEvent::<u64, V::V>::Phase2Reply(
                    ids[i],
                    true,
                )
            &&& taken2 < requests.len() ==> !(replies2.len() > 0 && replies2.last() is Phase2NoReply)
        }),
{
    let c0 = replay(start, log);
    let ids = listing(c0.dom());
    let n = ids.len() as int;
    let m = phase1_end(ids, events);
    let reqs = phase1_requests::<u64, V::V>(ids, t2);
    let replies = events.take(m).skip(n);
    let stop = phase1_stop(ids, events);
    let nr = events.subrange(m, stop);
    let rest = events.skip(stop);
    let tally = tally_replies::<T, Majority<T>>(qs, t2, empty_tally::<T>(), replies);
    lemma_direct_phase1(qs, d, start, log, events, t2, own, r);
    lemma_replay_dom(start, log);
    let s1 = ids.to_set();
    assert(waiting1(start, log) == 0);
    lemma_direct_run_reads_quorum(qs, d, start, log, events, t2, own, r, b);
    // So it went on to phase-2, where every acceptor accepts.
    let dec = run_decided(qs, d, t2, own, ids, events);
    let c1 = apply_phase1(c0, s1, t2);
    lemma_phase1_requests(c0, ids, t2);
    let requests = phase2_requests(ids, t2, dec.propose_time, d.distribute_spec(dec.data, ids));
    assert(requests =~= phase2_requests_for(ids, t2, dec));
    let n2 = requests.len() as int;
    let replies2 = rest.skip(n2);
    assert(rest =~= requests + replies2);
    lemma_phase2_requests(c1, ids, t2, dec);
    let c2 = apply_phase2(c1, s1, t2, dec);
    assert forall|i: int| 0 <= i < (replies + nr).len() implies !(#[trigger] (replies
        + nr)[i] is Phase1Request) && !((replies + nr)[i] is Phase2Request) by {
        if i >= replies.len() {
            assert((replies + nr)[i] == nr[i - replies.len()]);
        } else {
            assert((replies + nr)[i] == replies[i]);
        }
    }
    lemma_replay_replies(c1, replies + nr);
    let x = reqs + (replies + nr);
    assert(events =~= x + rest);
    assert(events[0] == reqs[0]);
    lemma_phase2_reset(start, log, events);
    assert forall|i: int| 0 <= i < rest.len() implies !(#[trigger] rest[i] is Phase1Request) by {}
    lemma_phase2_given_concat(x, rest);
    lemma_phase2_made_concat(c0, x, rest);
    assert forall|i: int| 0 <= i < x.len() implies !(#[trigger] x[i] is Phase2Reply) && !(
    x[i] is Phase2Request) by {
        if i >= reqs.len() + replies.len() {
            assert(x[i] == nr[i - reqs.len() - replies.len()]);
        } else if i >= reqs.len() {
            assert(x[i] == replies[i - reqs.len()]);
        } else {
            assert(x[i] == reqs[i]);
        }
    }
    lemma_phase2_given_none(x);
    lemma_phase2_made_none(c0, x);
    lemma_replay_concat(c0, reqs, replies + nr);
    assert(replay(c0, x) == c1);
    assert forall|i: int| 0 <= i < replies2.len() implies !(#[trigger] replies2[i] is Phase1Request)
        && !(replies2[i] is Phase2Request) by {
        assert(replies2[i] == rest[n2 + i]);
    }
    lemma_phase2_given_concat(requests, replies2);
    lemma_phase2_made_concat(c1, requests, replies2);
    lemma_phase2_given_none(requests);
    lemma_phase2_made_none(c2, replies2);
    let taken2 = crate::apaxos::proposer::phase2::phase2_replies_taken(replies2);
    let pure2 = replies2.take(taken2);
    let tail2 = replies2.skip(taken2);
    assert(replies2 =~= pure2 + tail2);
    assert forall|i: int| 0 <= i < tail2.len() implies !(#[trigger] tail2[i] is Phase2Reply) by {}
    lemma_phase2_given_concat(pure2, tail2);
    lemma_phase2_given_none(tail2);
    assert forall|i: int| 0 <= i < pure2.len() implies #[trigger] pure2[i] is Phase2Reply by {
        assert(pure2[i] == replies2[i]);
    }
    lemma_phase2_given_all(pure2);
    assert(phase2_given(log + events) =~= phase2_given(pure2));
    assert(phase2_made(start, log + events) =~= ids.map_values(
        |id: u64| (id, c1[id].accepts_phase2(t2)),
    ));
    assert forall|i: int| 0 <= i < pure2.len() implies #[trigger] pure2[i]
        == NetEvent::<u64, V::V>::Phase2Reply(ids[i], true) by {
        assert(phase2_given(log + events)[i] == phase2_given(pure2)[i]);
        assert(phase2_made(start, log + events)[i] == (ids[i], c1[ids[i]].accepts_phase2(t2)));
        assert(c0.contains_key(ids[i]));
    }
    assert forall|i: int| 0 <= i < taken2 implies #[trigger] replies2[i]
        == NetEvent::<u64, V::V>::Phase2Reply(ids[i], true) by {
        assert(pure2[i] == replies2[i]);
    }
if taken2 < n2 && replies2.len() > 0 && replies2.last() is Phase2NoReply {
        assert(tail2.len() == 1 && tail2[0] is Phase2NoReply) by {
            assert(tail2[0] == replies2[replies2.len() - 1]);
        }
        let p = log.len() + stop + n2 + taken2;
        let upto = log + (x + (requests + pure2));
        assert(events =~= x + (requests + pure2) + tail2);
        assert((log + events).take(p) =~= upto);
        assert((log + events)[p] == tail2[0]);
        assert(upto[log.len() as int] == reqs[0]);
        lemma_phase2_reset(start, log, x + (requests + pure2));
        lemma_phase2_given_concat(x, requests + pure2);
        lemma_phase2_made_concat(c0, x, requests + pure2);
        lemma_phase2_given_concat(requests, pure2);
        lemma_phase2_made_concat(c1, requests, pure2);
        lemma_phase2_made_none(c2, pure2);
        assert(false);
    }
}

/// A proposer run over a [`DirectCall`](crate::commonly_used::transport::DirectCall)
/// transport at a ballot `t2` above the ballot of every acceptor, against
/// all the acceptors of the transport, which form a read quorum, and with
/// no phase-1 reply waiting as it began, returns a proposal: the one its
/// phase-1 decided.
///
/// The transport was made with the acceptors `start` and had logged `log`
/// when the run began; the run logged `events` and returned `r`, with its
/// own proposal `own`. The transport hands out the replies in the order
/// they were made, and has no reply to hand out only when none is waiting.
#[verifier::rlimit(50)]
#[verifier::spinoff_prover]
pub proof fn lemma_direct_run_succeeds<V: Value, T: Types<Time = u64, Value = V, Part = V>>(
    qs: Majority<T>,
    d: Mirrored<T>,
    start: Cluster<V::V>,
    log: Seq<NetEvent<u64, V::V>>,
    events: Seq<NetEvent<u64, V::V>>,
    t2: u64,
    own: ProposalView<u64, V::V>,
    r: Result<Proposal<T, T::Value>, ProposeError>,
    b: u64,
)
    requires
        qs.acceptor_ids@.finite(),
        replay(start, log).dom().finite(),
        settled_by(replay(start, log), b),
        b < t2,
        qs.read_quorum_spec(listing(replay(start, log).dom())),
        phase1_made(start, log) == phase1_given(log),
        phase1_given(log + events).is_prefix_of(phase1_made(start, log + events)),
        phase2_given(log + events).is_prefix_of(phase2_made(start, log + events)),
        drained_when_no_reply(start, log + events),
        proposer_ran::<T, Majority<T>, Mirrored<T>>(
            qs,
            d,
            t2,
            own,
            listing(replay(start, log).dom()),
            events,
            r,
        ),
    ensures
        r matches Ok(q) && q@ == run_decided(
            qs,
            d,
            t2,
            own,
            listing(replay(start, log).dom()),
            events,
        ),
{
    let c0 = replay(start, log);
    let ids = listing(c0.dom());
    let n = ids.len() as int;
    let stop = phase1_stop(ids, events);
    let rest = events.skip(stop);
    let s1 = ids.to_set();
    lemma_direct_phase1(qs, d, start, log, events, t2, own, r);
    lemma_direct_run_phase2_answers(qs, d, start, log, events, t2, own, r, b);
    let dec = run_decided(qs, d, t2, own, ids, events);
    let requests = phase2_requests(ids, t2, dec.propose_time, d.distribute_spec(dec.data, ids));
    let n2 = requests.len() as int;
    let replies2 = rest.skip(n2);
    let taken2 = crate::apaxos::proposer::phase2::phase2_replies_taken(replies2);
    let pure2 = replies2.take(taken2);
    assert(phase2_ran::<T, Majority<T>, Mirrored<T>>(qs, d, t2, dec, ids, Set::empty(), rest, r));
    if let Err(e) = r {
        assert(taken2 == n);
        assert forall|i: int| 0 <= i < pure2.len() implies #[trigger] pure2[i]
            == NetEvent::<u64, V::V>::Phase2Reply(ids[i], true) by {
            assert(pure2[i] == replies2[i]);
        }
        lemma_granted_after_all(Set::empty(), pure2, ids);
        let acc = granted_after(Set::empty(), replies2);
        assert(granted_after(Set::empty(), replies2) == granted_after(Set::empty(), pure2)) by {
            if replies2.len() > taken2 {
                assert(replies2.drop_last() =~= pure2);
            } else {
                assert(replies2 =~= pure2);
            }
        }
        assert forall|i: int| 0 <= i < replies2.len() implies (#[trigger] replies2[i] matches NetEvent::Phase2Reply(
            id,
            _,
        ) ==> s1.contains(id)) by {
            if i < taken2 {
                assert(s1.contains(ids[i]));
            }
        }
        lemma_granted_after_within(Set::empty(), replies2, s1);
        assert(acc =~= s1) by {
            assert forall|y: u64| s1.contains(y) implies acc.contains(y) by {
                let j = choose|j: int| 0 <= j < n && ids[j] == y;
                assert(acc.contains(ids[j]));
            }
        }
        assert(false);
    }
}

/// Once `p` is committed at `t`, a proposer run in the setting of
/// [`lemma_direct_run_succeeds`] returns `p`.
pub proof fn lemma_direct_run_returns_commit<V: Value, T: Types<Time = u64, Value = V, Part = V>>(
    qs: Majority<T>,
    d: Mirrored<T>,
    start: Cluster<V::V>,
    log: Seq<NetEvent<u64, V::V>>,
    events: Seq<NetEvent<u64, V::V>>,
    t: u64,
    p: ProposalView<u64, V::V>,
    t2: u64,
    own: ProposalView<u64, V::V>,
    r: Result<Proposal<T, T::Value>, ProposeError>,
    b: u64,
)
    requires
        qs.acceptor_ids@.finite(),
        replay(start, log).dom().finite(),
        committed(qs, replay(start, log), t, p),
        settled_by(replay(start, log), b),
        b < t2,
        qs.read_quorum_spec(listing(replay(start, log).dom())),
        phase1_made(start, log) == phase1_given(log),
        phase1_given(log + events).is_prefix_of(phase1_made(start, log + events)),
        phase2_given(log + events).is_prefix_of(phase2_made(start, log + events)),
        drained_when_no_reply(start, log + events),
        proposer_ran::<T, Majority<T>, Mirrored<T>>(
            qs,
            d,
            t2,
            own,
            listing(replay(start, log).dom()),
            events,
            r,
        ),
    ensures
        r matches Ok(q) && q@ == p,
{
    lemma_direct_run_succeeds(qs, d, start, log, events, t2, own, r, b);
    lemma_direct_run_keeps_commit(qs, d, start, log, events, t, p, t2, own, r);
}

/// Requests change which acceptors there are in no way.
pub proof fn lemma_replay_dom<Tm: GreaterEqual, V>(
    start: Map<u64, AcceptorView<Tm, V>>,
    log: Seq<NetEvent<Tm, V>>,
)
    ensures
        replay(start, log).dom() == start.dom(),
    decreases log.len(),
{
    if log.len() > 0 {
        lemma_replay_dom(start, log.drop_last());
        let c = replay(start, log.drop_last());
        match log.last() {
            NetEvent::Phase1Request(id, t) => {
                if c.contains_key(id) {
                    assert(c.insert(id, c[id].after_phase1(t)).dom() =~= c.dom());
                }
            },
            NetEvent::Phase2Request(id, t, p) => {
                if c.contains_key(id) {
                    assert(c.insert(id, c[id].after_phase2(t, p)).dom() =~= c.dom());
                }
            },
            _ => {},
        }
    }
}

/// A proposer run over a [`DirectCall`](crate::commonly_used::transport::DirectCall)
/// transport at a fresh ballot `t2`, with its own proposal made at `t2`,
/// keeps the Paxos invariant of the acceptors: among others, two accepted
/// proposals with the same propose time carry the same value.
///
/// The setting is that of [`lemma_direct_run_keeps_commit`].
#[verifier::rlimit(50)]
#[verifier::spinoff_prover]
pub proof fn lemma_direct_run_keeps_inv<V: Value, T: Types<Time = u64, Value = V, Part = V>>(
    qs: Majority<T>,
    d: Mirrored<T>,
    start: Cluster<V::V>,
    log: Seq<NetEvent<u64, V::V>>,
    events: Seq<NetEvent<u64, V::V>>,
    t2: u64,
    own: ProposalView<u64, V::V>,
    r: Result<Proposal<T, T::Value>, ProposeError>,
)
    requires
        paxos_inv(qs, replay(start, log)),
        fresh(replay(start, log), t2),
        own.propose_time == t2,
        phase1_given(log).is_prefix_of(phase1_made(start, log)),
        forall|i: int|
            phase1_given(log).len() <= i < phase1_made(start, log).len() ==> (
            #[trigger] phase1_made(start, log)[i]).1.time != t2,
        phase1_given(log + events).is_prefix_of(phase1_made(start, log + events)),
        proposer_ran::<T, Majority<T>, Mirrored<T>>(
            qs,
            d,
            t2,
            own,
            listing(replay(start, log).dom()),
            events,
            r,
        ),
    ensures
        paxos_inv(qs, replay(start, log + events)),
{
    let c0 = replay(start, log);
    let ids = listing(c0.dom());
    let m = phase1_end(ids, events);
    let reqs = phase1_requests::<u64, V::V>(ids, t2);
    let replies = events.take(m).skip(ids.len() as int);
    let stop = phase1_stop(ids, events);
    let nr = events.subrange(m, stop);
    let rest = events.skip(stop);
    let tally = tally_replies::<T, Majority<T>>(qs, t2, empty_tally::<T>(), replies);
    lemma_direct_phase1(qs, d, start, log, events, t2, own, r);
    let s1 = ids.to_set();
    let c1 = apply_phase1(c0, s1, t2);
    lemma_phase1_requests(c0, ids, t2);
    lemma_phase1_keeps_inv(qs, c0, s1, t2, t2);
    assert forall|i: int| 0 <= i < (replies + nr).len() implies !(#[trigger] (replies
        + nr)[i] is Phase1Request) && !((replies + nr)[i] is Phase2Request) by {
        if i >= replies.len() {
            assert((replies + nr)[i] == nr[i - replies.len()]);
        } else {
            assert((replies + nr)[i] == replies[i]);
        }
    }
    lemma_replay_replies(c1, replies + nr);
    lemma_replay_concat(start, log, events);
    lemma_replay_concat(c0, reqs, replies + nr);
    if !tally.is_quorum {
        assert(rest.len() == 0);
        assert(events =~= reqs + (replies + nr));
        return;
    }
    lemma_direct_tally(qs, d, start, log, events, t2, own, r);
    let g = tally.granted;
    let prev = tally.previously_accepted;
    let max = tally.max_accept_time;
    // The acceptors that granted are promised to `t2`, and a read quorum.
    assert forall|x: u64| #[trigger] g.contains(x) implies granted_by(c1, s1, t2).contains(x) by {
        assert(ids.take(ids.len() as int) == ids);
    }
    let gb = granted_by(c1, s1, t2);
    assert(gb.subset_of(s1));
    vstd::set_lib::lemma_set_subset_finite(s1, gb);
    lemma_majority_quorum_grows(&qs, g, gb);
    // What it decided is consistent with them.
    assert forall|x: u64| #[trigger] prev.contains_key(x) implies c1.contains_key(x) && Some(
        prev[x],
    ) == c1[x].accepted && c1[x].time <= t2 by {
        assert(g.contains(x));
    }
    let dec = decided(d, prev, max, own);
    assert(dec == run_decided(qs, d, t2, own, ids, events));
    lemma_rebuilt_consistent(qs, d, c1, prev, t2, own, max);
    lemma_phase2_keeps_inv(qs, c1, s1, s1, t2, dec);
    // Its phase-2 handed every acceptor the decided proposal.
    let requests = phase2_requests(ids, t2, dec.propose_time, d.distribute_spec(dec.data, ids));
    assert(requests =~= phase2_requests_for(ids, t2, dec));
    let replies2 = rest.skip(requests.len() as int);
    assert(rest =~= requests + replies2);
    lemma_phase2_requests(c1, ids, t2, dec);
    let c2 = apply_phase2(c1, s1, t2, dec);
    lemma_replay_replies(c2, replies2);
    assert(events =~= reqs + (replies + nr) + (requests + replies2));
    lemma_replay_concat(c0, reqs + (replies + nr), requests + replies2);
    lemma_replay_concat(replay(c0, reqs + (replies + nr)), requests, replies2);
}

/// No acceptor of `c` is at a ballot later than `b`.
pub open spec fn settled_by<V>(c: Cluster<V>, b: u64) -> bool {
    forall|x: u64| #[trigger] c.contains_key(x) ==> c[x].time <= b
}

/// No phase-1 reply made over `log` is at a ballot later than `b`.
pub open spec fn replies_by<V>(start: Cluster<V>, log: Seq<NetEvent<u64, V>>, b: u64) -> bool {
    forall|i: int|
        0 <= i < phase1_made(start, log).len() ==> (#[trigger] phase1_made(start, log)[i]).1.time
            <= b
}

/// A proposer run at ballot `t2` over a `DirectCall` transport whose
/// acceptors, and the phase-1 replies they made, are at ballots no later
/// than `b`, which is below `t2`, leaves them at ballots no later than `t2`.
///
/// The setting is that of [`lemma_direct_run_keeps_commit`].
#[verifier::rlimit(50)]
#[verifier::spinoff_prover]
pub proof fn lemma_direct_run_settles<V: Value, T: Types<Time = u64, Value = V, Part = V>>(
    qs: Majority<T>,
    d: Mirrored<T>,
    start: Cluster<V::V>,
    log: Seq<NetEvent<u64, V::V>>,
    events: Seq<NetEvent<u64, V::V>>,
    t2: u64,
    own: ProposalView<u64, V::V>,
    r: Result<Proposal<T, T::Value>, ProposeError>,
    b: u64,
)
    requires
        replay(start, log).dom().finite(),
        settled_by(replay(start, log), b),
        replies_by(start, log, b),
        b < t2,
        phase1_given(log).is_prefix_of(phase1_made(start, log)),
        phase1_given(log + events).is_prefix_of(phase1_made(start, log + events)),
        proposer_ran::<T, Majority<T>, Mirrored<T>>(
            qs,
            d,
            t2,
            own,
            listing(replay(start, log).dom()),
            events,
            r,
        ),
    ensures
        settled_by(replay(start, log + events), t2),
        replies_by(start, log + events, t2),
{
    let c0 = replay(start, log);
    let ids = listing(c0.dom());
    let m = phase1_end(ids, events);
    let reqs = phase1_requests::<u64, V::V>(ids, t2);
    let replies = events.take(m).skip(ids.len() as int);
    let stop = phase1_stop(ids, events);
    let nr = events.subrange(m, stop);
    let rest = events.skip(stop);
    let tally = tally_replies::<T, Majority<T>>(qs, t2, empty_tally::<T>(), replies);
    assert forall|i: int|
        phase1_given(log).len() <= i < phase1_made(start, log).len() implies (
        #[trigger] phase1_made(start, log)[i]).1.time != t2 by {}
    lemma_direct_phase1(qs, d, start, log, events, t2, own, r);
    let s1 = ids.to_set();
    let c1 = apply_phase1(c0, s1, t2);
    lemma_phase1_requests(c0, ids, t2);
    assert forall|i: int| 0 <= i < (replies + nr).len() implies !(#[trigger] (replies
        + nr)[i] is Phase1Request) && !((replies + nr)[i] is Phase2Request) by {
        if i >= replies.len() {
            assert((replies + nr)[i] == nr[i - replies.len()]);
        } else {
            assert((replies + nr)[i] == replies[i]);
        }
    }
    lemma_replay_replies(c1, replies + nr);
    lemma_replay_concat(start, log, events);
    lemma_replay_concat(c0, reqs, replies + nr);
    let made = phase1_made(start, log + events);
    assert forall|i: int| 0 <= i < made.len() implies (#[trigger] made[i]).1.time <= t2 by {
        if i >= phase1_made(start, log).len() {
            let k = i - phase1_made(start, log).len();
            assert(made[i] == (ids[k], c0[ids[k]].after_phase1(t2)));
            assert(c0.contains_key(ids[k]));
        } else {
            assert(made[i] == phase1_made(start, log)[i]);
        }
    }
    if !tally.is_quorum {
        assert(rest.len() == 0);
        assert(events =~= reqs + (replies + nr));
        return;
    }
    let dec = run_decided(qs, d, t2, own, ids, events);
    let requests = phase2_requests(ids, t2, dec.propose_time, d.distribute_spec(dec.data, ids));
    assert(requests =~= phase2_requests_for(ids, t2, dec));
    let replies2 = rest.skip(requests.len() as int);
    assert(rest =~= requests + replies2);
    lemma_phase2_requests(c1, ids, t2, dec);
    let c2 = apply_phase2(c1, s1, t2, dec);
    lemma_replay_replies(c2, replies2);
    assert(events =~= reqs + (replies + nr) + (requests + replies2));
    lemma_replay_concat(c0, reqs + (replies + nr), requests + replies2);
    lemma_replay_concat(replay(c0, reqs + (replies + nr)), requests, replies2);
}

/// One run of a proposer: its ballot, its own proposal, what it logged on
/// the transport, and what it returned.
pub struct ProposerRun<T: Types> {
    pub ballot: T::Time,
    pub own: ProposalView<T::Time, <T::Value as DeepView>::V>,
    pub events: Seq<NetEvent<T::Time, <T::Part as DeepView>::V>>,
    pub result: Result<Proposal<T, T::Value>, ProposeError>,
}

/// The log of a transport before run `k` of `runs`, which came one after
/// the other once it had logged `log`.
pub open spec fn log_before<T: Types>(
    log: Seq<NetEvent<T::Time, <T::Part as DeepView>::V>>,
    runs: Seq<ProposerRun<T>>,
    k: int,
) -> Seq<NetEvent<T::Time, <T::Part as DeepView>::V>>
    decreases k,
{
    if k <= 0 {
        log
    } else {
        log_before(log, runs, k - 1) + runs[k - 1].events
    }
}

/// Proposer runs, one after the other, over a `DirectCall` transport made
/// with the acceptors `start` that had logged `log`: each ran against all
/// the acceptors of the transport; the transport handed out the replies in
/// the order they were made; and the phase-1 replies still waiting when a
/// run began were not at its ballot.
pub open spec fn direct_runs<V: Value, T: Types<Time = u64, Value = V, Part = V>>(
    qs: Majority<T>,
    d: Mirrored<T>,
    start: Cluster<V::V>,
    log: Seq<NetEvent<u64, V::V>>,
    runs: Seq<ProposerRun<T>>,
) -> bool {
    &&& forall|k: int|
        0 <= k < runs.len() ==> proposer_ran::<T, Majority<T>, Mirrored<T>>(
            qs,
            d,
            (#[trigger] runs[k]).ballot,
            runs[k].own,
            listing(start.dom()),
            runs[k].events,
            runs[k].result,
        )
    &&& forall|k: int|
        0 <= k <= runs.len() ==> phase1_given(#[trigger] log_before(log, runs, k)).is_prefix_of(
            phase1_made(start, log_before(log, runs, k)),
        ) && phase2_given(log_before(log, runs, k)).is_prefix_of(
            phase2_made(start, log_before(log, runs, k)),
        )
    &&& forall|k: int, i: int|
        0 <= k < runs.len() && phase1_given(log_before(log, runs, k)).len() <= i < phase1_made(
            start,
            log_before(log, runs, k),
        ).len() ==> (#[trigger] phase1_made(start, log_before(log, runs, k))[i]).1.time
            != #[trigger] runs[k].ballot
}

/// Once `p` is committed at `t` before run `k`, it stays committed through
/// the later runs, and each of them that returns a proposal returns `p`.
pub proof fn lemma_commit_persists_over_runs<V: Value, T: Types<Time = u64, Value = V, Part = V>>(
    qs: Majority<T>,
    d: Mirrored<T>,
    start: Cluster<V::V>,
    log: Seq<NetEvent<u64, V::V>>,
    runs: Seq<ProposerRun<T>>,
    t: u64,
    p: ProposalView<u64, V::V>,
    k: int,
    j: int,
)
    requires
        qs.acceptor_ids@.finite(),
        start.dom().finite(),
        direct_runs(qs, d, start, log, runs),
        0 <= k <= j <= runs.len(),
        committed(qs, replay(start, log_before(log, runs, k)), t, p),
    ensures
        committed(qs, replay(start, log_before(log, runs, j)), t, p),
        forall|i: int| k <= i < j ==> ((#[trigger] runs[i]).result matches Ok(q) ==> q@ == p),
    decreases j - k,
{
    if k < j {
        let lk = log_before(log, runs, k);
        lemma_replay_dom(start, lk);
        assert(log_before(log, runs, k + 1) == lk + runs[k].events);
        assert(phase1_given(log_before(log, runs, k + 1)).is_prefix_of(
            phase1_made(start, log_before(log, runs, k + 1)),
        ));
        assert(phase1_given(lk).is_prefix_of(phase1_made(start, lk)));
        assert forall|i: int|
            phase1_given(lk).len() <= i < phase1_made(start, lk).len() implies (
            #[trigger] phase1_made(start, lk)[i]).1.time != runs[k].ballot by {
            assert(phase1_made(start, log_before(log, runs, k))[i].1.time != runs[k].ballot);
        }
        assert(proposer_ran::<T, Majority<T>, Mirrored<T>>(
            qs,
            d,
            runs[k].ballot,
            runs[k].own,
            listing(start.dom()),
            runs[k].events,
            runs[k].result,
        ));
        lemma_direct_run_keeps_commit(
            qs,
            d,
            start,
            lk,
            runs[k].events,
            t,
            p,
            runs[k].ballot,
            runs[k].own,
            runs[k].result,
        );
        lemma_commit_persists_over_runs(qs, d, start, log, runs, t, p, k + 1, j);
    }
}

/// The ballot that run `k` of `runs` must exceed: the previous run's, or
/// `b0` for the first.
pub open spec fn bound_before<T: Types<Time = u64>>(b0: u64, runs: Seq<ProposerRun<T>>, k: int) -> u64 {
    if k <= 0 {
        b0
    } else {
        runs[k - 1].ballot
    }
}

/// Proposer runs, one after the other, over a `DirectCall` transport made
/// with the acceptors `start` that had logged `log`, at ballots that
/// increase from above `b0`: each ran against all the acceptors of the
/// transport, with its own proposal made at its ballot, and the transport
/// handed out the replies in the order they were made and had no reply to
/// hand out only when none was waiting.
pub open spec fn increasing_direct_runs<V: Value, T: Types<Time = u64, Value = V, Part = V>>(
    qs: Majority<T>,
    d: Mirrored<T>,
    start: Cluster<V::V>,
    log: Seq<NetEvent<u64, V::V>>,
    runs: Seq<ProposerRun<T>>,
    b0: u64,
) -> bool {
    &&& forall|k: int|
        0 <= k < runs.len() ==> proposer_ran::<T, Majority<T>, Mirrored<T>>(
            qs,
            d,
            (#[trigger] runs[k]).ballot,
            runs[k].own,
            listing(start.dom()),
            runs[k].events,
            runs[k].result,
        )
    &&& forall|k: int|
        0 <= k < runs.len() ==> (#[trigger] runs[k]).own.propose_time == runs[k].ballot
            && bound_before(b0, runs, k) < runs[k].ballot
    &&& forall|k: int|
        0 <= k <= runs.len() ==> phase1_given(#[trigger] log_before(log, runs, k)).is_prefix_of(
            phase1_made(start, log_before(log, runs, k)),
        ) && phase2_given(log_before(log, runs, k)).is_prefix_of(
            phase2_made(start, log_before(log, runs, k)),
        ) && drained_when_no_reply(start, log_before(log, runs, k))
}

/// Before every run of increasing runs, the acceptors keep the Paxos
/// invariant, and they and the phase-1 replies they made are at ballots no
/// later than the previous run's.
pub proof fn lemma_increasing_runs_inv<V: Value, T: Types<Time = u64, Value = V, Part = V>>(
    qs: Majority<T>,
    d: Mirrored<T>,
    start: Cluster<V::V>,
    log: Seq<NetEvent<u64, V::V>>,
    runs: Seq<ProposerRun<T>>,
    b0: u64,
    k: int,
)
    requires
        increasing_direct_runs(qs, d, start, log, runs, b0),
        paxos_inv(qs, replay(start, log)),
        settled_by(replay(start, log), b0),
        replies_by(start, log, b0),
        0 <= k <= runs.len(),
    ensures
        paxos_inv(qs, replay(start, log_before(log, runs, k))),
        settled_by(replay(start, log_before(log, runs, k)), bound_before(b0, runs, k)),
        replies_by(start, log_before(log, runs, k), bound_before(b0, runs, k)),
    decreases k,
{
    if k > 0 {
        lemma_increasing_runs_inv(qs, d, start, log, runs, b0, k - 1);
        let lk = log_before(log, runs, k - 1);
        let run = runs[k - 1];
        let b = bound_before(b0, runs, k - 1);
        lemma_replay_dom(start, lk);
        lemma_replay_dom(start, log);
        assert(log_before(log, runs, k) == lk + run.events);
        assert(proposer_ran::<T, Majority<T>, Mirrored<T>>(
            qs,
            d,
            run.ballot,
            run.own,
            listing(start.dom()),
            run.events,
            run.result,
        ));
        assert(b < run.ballot && run.own.propose_time == run.ballot);
        assert(phase1_given(lk).is_prefix_of(phase1_made(start, lk)));
        assert(phase1_given(log_before(log, runs, k)).is_prefix_of(
            phase1_made(start, log_before(log, runs, k)),
        ));
        assert(fresh(replay(start, lk), run.ballot));
        assert forall|i: int|
            phase1_given(lk).len() <= i < phase1_made(start, lk).len() implies (
            #[trigger] phase1_made(start, lk)[i]).1.time != run.ballot by {}
        lemma_direct_run_keeps_inv(qs, d, start, lk, run.events, run.ballot, run.own, run.result);
        lemma_direct_run_settles(
            qs,
            d,
            start,
            lk,
            run.events,
            run.ballot,
            run.own,
            run.result,
            b,
        );
    }
}

/// Agreement of proposers that run one after the other over a
/// [`DirectCall`](crate::commonly_used::transport::DirectCall) transport at
/// increasing ballots (see [`increasing_direct_runs`]), from acceptors that
/// keep the Paxos invariant and are, as the phase-1 replies they made, at
/// ballots no later than `b0`: any two runs that return a proposal return
/// the same.
pub proof fn lemma_increasing_runs_agree<V: Value, T: Types<Time = u64, Value = V, Part = V>>(
    qs: Majority<T>,
    d: Mirrored<T>,
    start: Cluster<V::V>,
    log: Seq<NetEvent<u64, V::V>>,
    runs: Seq<ProposerRun<T>>,
    b0: u64,
    i: int,
    j: int,
)
    requires
        increasing_direct_runs(qs, d, start, log, runs, b0),
        paxos_inv(qs, replay(start, log)),
        settled_by(replay(start, log), b0),
        replies_by(start, log, b0),
        0 <= i < j < runs.len(),
    ensures
        runs[i].result matches Ok(pi) ==> (runs[j].result matches Ok(pj) ==> pi@ == pj@),
{
    // The runs meet what the persistence of a commitment asks.
    assert forall|k: int, x: int|
        0 <= k < runs.len() && phase1_given(log_before(log, runs, k)).len() <= x < phase1_made(
            start,
            log_before(log, runs, k),
        ).len() implies (#[trigger] phase1_made(start, log_before(log, runs, k))[x]).1.time
        != #[trigger] runs[k].ballot by {
        lemma_increasing_runs_inv(qs, d, start, log, runs, b0, k);
    }
    assert(direct_runs(qs, d, start, log, runs));
    let li = log_before(log, runs, i);
    lemma_increasing_runs_inv(qs, d, start, log, runs, b0, i);
    lemma_replay_dom(start, li);
    lemma_replay_dom(start, log);
    assert(log_before(log, runs, i + 1) == li + runs[i].events);
    assert(phase1_given(li).is_prefix_of(phase1_made(start, li)));
    assert(phase1_given(log_before(log, runs, i + 1)).is_prefix_of(
        phase1_made(start, log_before(log, runs, i + 1)),
    ));
    assert(proposer_ran::<T, Majority<T>, Mirrored<T>>(
        qs,
        d,
        runs[i].ballot,
        runs[i].own,
        listing(start.dom()),
        runs[i].events,
        runs[i].result,
    ));
    assert(bound_before(b0, runs, i) < runs[i].ballot);
    lemma_direct_run_commits(
        qs,
        d,
        start,
        li,
        runs[i].events,
        runs[i].ballot,
        runs[i].own,
        runs[i].result,
        bound_before(b0, runs, i),
    );
    if runs[i].result is Ok {
        let pi = runs[i].result->Ok_0;
        lemma_commit_persists_over_runs(qs, d, start, log, runs, runs[i].ballot, pi@, i + 1, j + 1);
        assert(runs[j].result matches Ok(q) ==> q@ == pi@);
    }
}

/// Of increasing runs (see [`lemma_increasing_runs_agree`]) against
/// acceptors that form a read quorum, every run that begins with no
/// phase-1 reply waiting returns a proposal.
pub proof fn lemma_increasing_run_succeeds<V: Value, T: Types<Time = u64, Value = V, Part = V>>(
    qs: Majority<T>,
    d: Mirrored<T>,
    start: Cluster<V::V>,
    log: Seq<NetEvent<u64, V::V>>,
    runs: Seq<ProposerRun<T>>,
    b0: u64,
    k: int,
)
    requires
        increasing_direct_runs(qs, d, start, log, runs, b0),
        paxos_inv(qs, replay(start, log)),
        settled_by(replay(start, log), b0),
        replies_by(start, log, b0),
        qs.read_quorum_spec(listing(start.dom())),
        0 <= k < runs.len(),
        phase1_made(start, log_before(log, runs, k)) == phase1_given(log_before(log, runs, k)),
    ensures
        runs[k].result is Ok,
{
    let lk = log_before(log, runs, k);
    lemma_increasing_runs_inv(qs, d, start, log, runs, b0, k);
    lemma_replay_dom(start, lk);
    lemma_replay_dom(start, log);
    assert(log_before(log, runs, k + 1) == lk + runs[k].events);
    assert(phase1_given(log_before(log, runs, k + 1)).is_prefix_of(
        phase1_made(start, log_before(log, runs, k + 1)),
    ));
    assert(proposer_ran::<T, Majority<T>, Mirrored<T>>(
        qs,
        d,
        runs[k].ballot,
        runs[k].own,
        listing(start.dom()),
        runs[k].events,
        runs[k].result,
    ));
    assert(bound_before(b0, runs, k) < runs[k].ballot);
    lemma_direct_run_succeeds(
        qs,
        d,
        start,
        lk,
        runs[k].events,
        runs[k].ballot,
        runs[k].own,
        runs[k].result,
        bound_before(b0, runs, k),
    );
}

/// Agreement on a `DirectCall` transport made from acceptors that have
/// accepted nothing and are at ballots no later than `b0`: of proposers
/// that run one after the other on it at increasing ballots above `b0`,
/// any two that return a proposal return the same; and when its acceptors
/// form a read quorum, the first commits its own proposal and the second
/// returns that proposal too.
pub proof fn lemma_direct_call_runs_agree<V: Value, T: Types<Time = u64, Value = V, Part = V>>(
    qs: Majority<T>,
    d: Mirrored<T>,
    start: Cluster<V::V>,
    runs: Seq<ProposerRun<T>>,
    b0: u64,
    i: int,
    j: int,
)
    requires
        qs.acceptor_ids@.finite(),
        start.dom().finite(),
        untouched(start),
        settled_by(start, b0),
        increasing_direct_runs(qs, d, start, Seq::empty(), runs, b0),
        0 <= i < j < runs.len(),
    ensures
        runs[i].result matches Ok(pi) ==> (runs[j].result matches Ok(pj) ==> pi@ == pj@),
        qs.read_quorum_spec(listing(start.dom())) ==> (runs[0].result matches Ok(p) && p@
            == runs[0].own),
        qs.read_quorum_spec(listing(start.dom())) ==> (runs[1].result matches Ok(p) && p@
            == runs[0].own),
{
    let empty = Seq::<NetEvent<u64, V::V>>::empty();
    lemma_untouched_inv(qs, start);
    assert(replay(start, empty) == start);
    assert(phase1_made(start, empty).len() == 0);
    lemma_increasing_runs_agree(qs, d, start, empty, runs, b0, i, j);
    if qs.read_quorum_spec(listing(start.dom())) {
        let first = runs[0];
        assert(log_before(empty, runs, 0) == empty);
        assert(log_before(empty, runs, 1) == empty + first.events);
        assert(phase1_made(start, empty) =~= phase1_given(empty));
        assert(bound_before(b0, runs, 0) == b0);
        lemma_direct_run_succeeds(
            qs,
            d,
            start,
            empty,
            first.events,
            first.ballot,
            first.own,
            first.result,
            b0,
        );
        lemma_untouched_run_drains_phase1(
            qs,
            d,
            start,
            empty,
            first.events,
            first.ballot,
            first.own,
            first.result,
        );
        lemma_increasing_run_succeeds(qs, d, start, empty, runs, b0, 1);
        lemma_increasing_runs_agree(qs, d, start, empty, runs, b0, 0, 1);
    }
}

} // verus!
