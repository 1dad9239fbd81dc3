//! Phase-1 of a proposer: learn what a read quorum may have committed.
use crate::apaxos::accepted::Accepted;
use crate::apaxos::accepted::AcceptedView;
use crate::apaxos::acceptor::Acceptor;
use crate::apaxos::acceptor::AcceptorView;
use crate::apaxos::greater_equal::GreaterEqual;
use crate::apaxos::proposal::Proposal;
use crate::apaxos::proposal::ProposalView;
use crate::apaxos::proposer::ProposeError;
use crate::apaxos::proposer::count_events;
use crate::apaxos::proposer::lemma_count_bounds;
use crate::apaxos::proposer::lemma_count_concat;
use crate::apaxos::ptime::Time;
use crate::ids::elements_of;
use crate::ids::keys_of;
use crate::ids::listing;
use crate::parts_view;
use crate::APaxos;
use crate::Distribute;
use crate::NetEvent;
use crate::QuorumSet;
use crate::Transport;
use crate::Types;
use crate::Value;
use std::collections::BTreeMap;
use std::collections::BTreeSet;
use vstd::prelude::*;

verus! {

broadcast use vstd::std_specs::btree::group_btree_axioms;

/// The views of what acceptors have accepted, by acceptor id.
pub open spec fn accepted_views<T: Types>(m: Map<u64, Accepted<T>>) -> Map<
    u64,
    AcceptedView<T::Time, <T::Part as DeepView>::V>,
> {
    m.map_values(|a: Accepted<T>| a@)
}

/// The first id of `ks` whose accepted entry carries the accept time `t`.
pub open spec fn first_with_accept_time<Tm, V>(
    prev: Map<u64, AcceptedView<Tm, V>>,
    ks: Seq<u64>,
    t: Tm,
) -> Option<u64>
    decreases ks.len(),
{
    if ks.len() == 0 {
        None
    } else if prev[ks[0]].accept_time == t {
        Some(ks[0])
    } else {
        first_with_accept_time(prev, ks.drop_first(), t)
    }
}

/// The entry found first is one of `ks` and carries the accept time looked
/// for; one is found whenever the entry `ks[j]` carries it.
pub proof fn lemma_first_with_accept_time<Tm, V>(
    prev: Map<u64, AcceptedView<Tm, V>>,
    ks: Seq<u64>,
    t: Tm,
    j: int,
)
    ensures
        first_with_accept_time(prev, ks, t) matches Some(k) ==> ks.contains(k)
            && prev[k].accept_time == t,
        first_with_accept_time(prev, ks, t) matches Some(k) ==> exists|i: int|
            0 <= i < ks.len() && ks[i] == k && forall|m: int|
                0 <= m < i ==> prev[#[trigger] ks[m]].accept_time != t,
        0 <= j < ks.len() && prev[ks[j]].accept_time == t ==> first_with_accept_time(
            prev,
            ks,
            t,
        ) is Some,
    decreases ks.len(),
{
    if ks.len() > 0 && prev[ks[0]].accept_time != t {
        lemma_first_with_accept_time(prev, ks.drop_first(), t, j - 1);
        if first_with_accept_time(prev, ks.drop_first(), t) is Some {
            let k = first_with_accept_time(prev, ks.drop_first(), t)->0;
            let i = choose|i: int| 0 <= i < ks.drop_first().len() && ks.drop_first()[i] == k
                && forall|m: int| 0 <= m < i ==> prev[#[trigger] ks.drop_first()[m]].accept_time != t;
            assert(ks[i + 1] == k);
            assert forall|m: int| 0 <= m < i + 1 implies prev[#[trigger] ks[m]].accept_time != t by {
                if m > 0 {
                    assert(ks[m] == ks.drop_first()[m - 1]);
                }
            }
        }
        if 0 < j < ks.len() {
            assert(ks.drop_first()[j - 1] == ks[j]);
        }
    }
}

/// The id-tagged parts of the entries of `ks`, in that order, whose proposal
/// was made at `propose_time`.
pub open spec fn parts_proposed_at<Tm, V>(
    prev: Map<u64, AcceptedView<Tm, V>>,
    ks: Seq<u64>,
    propose_time: Tm,
) -> Seq<(u64, V)>
    decreases ks.len(),
{
    if ks.len() == 0 {
        Seq::empty()
    } else {
        let rest = parts_proposed_at(prev, ks.drop_last(), propose_time);
        let k = ks.last();
        if prev[k].proposal.propose_time == propose_time {
            rest.push((k, prev[k].proposal.data))
        } else {
            rest
        }
    }
}

/// The parts gathered for a propose time are those of the entries of `ks`
/// whose proposal was made at that time, each tagged with its id, in the
/// order of `ks`.
pub proof fn lemma_parts_proposed_at<Tm, V>(
    prev: Map<u64, AcceptedView<Tm, V>>,
    ks: Seq<u64>,
    propose_time: Tm,
)
    ensures
        parts_proposed_at(prev, ks, propose_time) == ks.filter(
            |k: u64| prev[k].proposal.propose_time == propose_time,
        ).map_values(|k: u64| (k, prev[k].proposal.data)),
    decreases ks.len(),
{
    reveal(Seq::filter);
    if ks.len() > 0 {
        lemma_parts_proposed_at(prev, ks.drop_last(), propose_time);
        let pred = |k: u64| prev[k].proposal.propose_time == propose_time;
        let f = |k: u64| (k, prev[k].proposal.data);
        let sub = ks.drop_last().filter(pred);
        if pred(ks.last()) {
            assert(sub.push(ks.last()).map_values(f) =~= sub.map_values(f).push(f(ks.last())));
        }
    }
}

/// The proposal rebuilt from accepted parts.
///
/// First, the entry of least id whose accept time is `max_accept_time`
/// names a propose time; the proposal that carries it is the only one that
/// can have been committed. Then the parts of all entries with that propose
/// time, in ascending id order, come from the same proposer and are
/// rebuilt into its value.
pub open spec fn rebuilt<T: Types, D: Distribute<T>>(
    dist: D,
    prev: Map<u64, AcceptedView<T::Time, <T::Part as DeepView>::V>>,
    max_accept_time: T::Time,
) -> Option<ProposalView<T::Time, <T::Value as DeepView>::V>> {
    let ks = listing(prev.dom());
    match first_with_accept_time(prev, ks, max_accept_time) {
        None => None,
        Some(k) => {
            let propose_time = prev[k].proposal.propose_time;
            match dist.rebuild_spec(parts_proposed_at(prev, ks, propose_time)) {
                None => None,
                Some(v) => Some(ProposalView { propose_time, data: v }),
            }
        },
    }
}

/// The view of an optional proposal.
pub open spec fn proposal_option_view<T: Types, D: DeepView>(p: Option<Proposal<T, D>>) -> Option<
    ProposalView<T::Time, D::V>,
> {
    match p {
        Some(p) => Some(p@),
        None => None,
    }
}

/// What phase-1 has gathered from the replies: the acceptors that granted,
/// the parts they had accepted, the greatest accept time among those, and
/// whether the acceptors that granted have formed a read quorum.
pub struct Phase1Tally<Tm, V> {
    pub granted: Set<u64>,
    pub previously_accepted: Map<u64, AcceptedView<Tm, V>>,
    pub max_accept_time: Tm,
    pub is_quorum: bool,
}

/// The tally after the reply `acceptor` of acceptor `target` to a phase-1
/// request at `time`.
///
/// A reply whose time is not `time` is a refusal and changes nothing.
/// Otherwise the acceptor has granted: it joins `granted`, its accepted part
/// (if any) is kept, the greatest accept time grows to its accept time if
/// that one is `greater_equal`, and the quorum test is made again.
pub open spec fn tally_step<T: Types, Q: QuorumSet<T>>(
    qs: Q,
    time: T::Time,
    tally: Phase1Tally<T::Time, <T::Part as DeepView>::V>,
    target: u64,
    acceptor: AcceptorView<T::Time, <T::Part as DeepView>::V>,
) -> Phase1Tally<T::Time, <T::Part as DeepView>::V> {
    if acceptor.time != time {
        tally
    } else {
        let granted = tally.granted.insert(target);
        Phase1Tally {
            granted,
            previously_accepted: match acceptor.accepted {
                Some(a) => tally.previously_accepted.insert(target, a),
                None => tally.previously_accepted,
            },
            max_accept_time: match acceptor.accepted {
                Some(a) => if a.accept_time.ge_spec(&tally.max_accept_time) {
                    a.accept_time
                } else {
                    tally.max_accept_time
                },
                None => tally.max_accept_time,
            },
            is_quorum: tally.is_quorum || qs.read_quorum_spec(listing(granted)),
        }
    }
}

/// The tally after the phase-1 replies among `events`, in order.
pub open spec fn tally_replies<T: Types, Q: QuorumSet<T>>(
    qs: Q,
    time: T::Time,
    tally: Phase1Tally<T::Time, <T::Part as DeepView>::V>,
    events: Seq<NetEvent<T::Time, <T::Part as DeepView>::V>>,
) -> Phase1Tally<T::Time, <T::Part as DeepView>::V>
    decreases events.len(),
{
    if events.len() == 0 {
        tally
    } else {
        let before = tally_replies(qs, time, tally, events.drop_last());
        match events.last() {
            NetEvent::Phase1Reply(target, acceptor) => tally_step(
                qs,
                time,
                before,
                target,
                acceptor,
            ),
            _ => before,
        }
    }
}

/// What a tally rebuilds to, once it holds a read quorum.
pub open spec fn tally_found<T: Types, D: Distribute<T>>(
    dist: D,
    tally: Phase1Tally<T::Time, <T::Part as DeepView>::V>,
) -> Option<ProposalView<T::Time, <T::Value as DeepView>::V>> {
    if tally.is_quorum {
        rebuilt::<T, D>(dist, tally.previously_accepted, tally.max_accept_time)
    } else {
        None
    }
}

/// The phase-1 requests at `time` to the acceptors `ids`, in that order.
pub open spec fn phase1_requests<Tm, V>(ids: Seq<u64>, time: Tm) -> Seq<NetEvent<Tm, V>> {
    ids.map_values(|id: u64| NetEvent::Phase1Request(id, time))
}

/// How many phase-1 replies `replies` holds: all its events but a last
/// one that says the transport had none.
pub open spec fn phase1_replies_taken<Tm, V>(replies: Seq<NetEvent<Tm, V>>) -> int {
    if replies.len() > 0 && replies.last() is Phase1NoReply {
        replies.len() - 1
    } else {
        replies.len() as int
    }
}

/// A run of phase-1 at `time`, from the tally `start`, against the
/// acceptors `ids`, made the transport `events`: the requests to every
/// acceptor in order, then phase-1 replies, handled one by one, perhaps
/// ended by the transport having none left. It took at most as many replies
/// as it sent requests, none of which but the last made the tally rebuild a
/// proposal; and it took fewer only if the transport had none left or the
/// last reply made the tally rebuild a proposal.
pub open spec fn phase1_ran<T: Types, Q: QuorumSet<T>, D: Distribute<T>>(
    qs: Q,
    dist: D,
    time: T::Time,
    start: Phase1Tally<T::Time, <T::Part as DeepView>::V>,
    ids: Seq<u64>,
    events: Seq<NetEvent<T::Time, <T::Part as DeepView>::V>>,
) -> bool {
    let replies = events.skip(ids.len() as int);
    let taken = phase1_replies_taken(replies);
    &&& ids.len() <= events.len() <= 2 * ids.len() + 1
    &&& events.take(ids.len() as int) == phase1_requests::<T::Time, <T::Part as DeepView>::V>(
        ids,
        time,
    )
    &&& forall|i: int|
        0 <= i < replies.len() ==> #[trigger] replies[i] is Phase1Reply || (i == replies.len() - 1
            && replies[i] is Phase1NoReply)
    &&& taken <= ids.len()
    &&& forall|j: int|
        0 <= j < replies.len() ==> tally_found::<T, D>(
            dist,
            #[trigger] tally_replies::<T, Q>(qs, time, start, replies.take(j)),
        ) is None
    &&& taken < ids.len() ==> (replies.len() > 0 && replies.last() is Phase1NoReply)
        || tally_found::<T, D>(dist, tally_replies::<T, Q>(qs, time, start, replies)) is Some
}

/// The tally at the end of a run of phase-1 that made the transport
/// `events`.
pub open spec fn phase1_tally<T: Types, Q: QuorumSet<T>>(
    qs: Q,
    time: T::Time,
    start: Phase1Tally<T::Time, <T::Part as DeepView>::V>,
    ids: Seq<u64>,
    events: Seq<NetEvent<T::Time, <T::Part as DeepView>::V>>,
) -> Phase1Tally<T::Time, <T::Part as DeepView>::V> {
    tally_replies::<T, Q>(qs, time, start, events.skip(ids.len() as int))
}

/// A phase-1 run whose replies rebuilt no proposal took a reply for every
/// request it sent, unless the transport had no reply left: it does not
/// give up at a refusal while grants may still come.
pub proof fn lemma_phase1_gives_up_after_every_reply<T: Types, Q: QuorumSet<T>, D: Distribute<T>>(
    qs: Q,
    dist: D,
    time: T::Time,
    start: Phase1Tally<T::Time, <T::Part as DeepView>::V>,
    ids: Seq<u64>,
    events: Seq<NetEvent<T::Time, <T::Part as DeepView>::V>>,
)
    requires
        phase1_ran::<T, Q, D>(qs, dist, time, start, ids, events),
        tally_found::<T, D>(
            dist,
            tally_replies::<T, Q>(qs, time, start, events.skip(ids.len() as int)),
        ) is None,
    ensures
        count_events(events, |e: NetEvent<T::Time, <T::Part as DeepView>::V>| e is Phase1Reply)
            == count_events(
            events,
            |e: NetEvent<T::Time, <T::Part as DeepView>::V>| e is Phase1Request,
        ) || (events.len() > 0 && events.last() is Phase1NoReply),
{
    let fr = |e: NetEvent<T::Time, <T::Part as DeepView>::V>| e is Phase1Reply;
    let fq = |e: NetEvent<T::Time, <T::Part as DeepView>::V>| e is Phase1Request;
    let requests = events.take(ids.len() as int);
    let replies = events.skip(ids.len() as int);
    assert(events =~= requests + replies);
    assert forall|i: int| 0 <= i < requests.len() implies fq(#[trigger] requests[i]) by {
        assert(requests[i] == phase1_requests::<T::Time, <T::Part as DeepView>::V>(ids, time)[i]);
    }
    assert forall|i: int| 0 <= i < requests.len() implies !fr(#[trigger] requests[i]) by {
        assert(fq(requests[i]));
    }
    lemma_count_concat(requests, replies, fr);
    lemma_count_concat(requests, replies, fq);
    lemma_count_bounds(requests, fr);
    lemma_count_bounds(requests, fq);
    if !(replies.len() > 0 && replies.last() is Phase1NoReply) {
        assert forall|i: int| 0 <= i < replies.len() implies fr(#[trigger] replies[i]) by {
            if i == replies.len() - 1 {
                assert(replies.last() == replies[i]);
            }
        }
        assert forall|i: int| 0 <= i < replies.len() implies !fq(#[trigger] replies[i]) by {
            assert(fr(replies[i]));
        }
        lemma_count_bounds(replies, fr);
        lemma_count_bounds(replies, fq);
    } else {
        assert(events.last() == replies.last());
    }
}

pub struct Phase1<'a, T: Types, Q, D, N> {
    pub apaxos: &'a mut APaxos<T, Q, D, N>,
    /// The time of the proposer that runs this phase.
    pub time: T::Time,
    /// The set of acceptors that granted the proposer's phase-1 request.
    pub granted: BTreeSet<u64>,
    /// The value parts that the acceptors have accepted.
    ///
    /// These value parts are proposed by smaller proposers.
    pub previously_accepted: BTreeMap<u64, Accepted<T>>,
    /// The greatest accept time (by `greater_equal`, in the order the
    /// replies came) among the granted replies, or the default time.
    pub max_accept_time: T::Time,
    /// Whether the acceptors that granted have formed a read quorum.
    pub is_quorum: bool,
}

impl<'a, T: Types, Q, D, N> Phase1<'a, T, Q, D, N> where
    Q: QuorumSet<T>,
    D: Distribute<T>,
    N: Transport<T>,
 {
    /// What this phase has gathered so far.
    pub open spec fn tally(&self) -> Phase1Tally<T::Time, <T::Part as DeepView>::V> {
        Phase1Tally {
            granted: self.granted@,
            previously_accepted: accepted_views(self.previously_accepted@),
            max_accept_time: self.max_accept_time,
            is_quorum: self.is_quorum,
        }
    }

    /// What the accepted parts that this phase holds rebuild to.
    pub open spec fn rebuilt_now(&self) -> Option<ProposalView<T::Time, <T::Value as DeepView>::V>> {
        rebuilt::<T, D>(
            self.apaxos.rebuild,
            accepted_views(self.previously_accepted@),
            self.max_accept_time,
        )
    }

    /// Rebuild the proposal using the parts from the replies.
    ///
    /// First, identify a reply with the max accept time, as this is the only
    /// proposal that can be committed.
    ///
    /// Second, find out the propose-time of that specific reply. Regardless of
    /// the accept-time, replies with the same propose-time originate from
    /// the same proposer and are always compatible for reconstructing
    /// the proposal as it was made.
    pub fn rebuild(&self, max_accept_time: T::Time) -> (p: Option<Proposal<T, T::Value>>)
        ensures
            proposal_option_view(p) == rebuilt::<T, D>(
                old(self.apaxos).rebuild,
                accepted_views(self.previously_accepted@),
                max_accept_time,
            ),
    {
        let ghost prev = accepted_views(self.previously_accepted@);
        let keys = keys_of(&self.previously_accepted);
        let ghost ks = keys@;
        assert(prev.dom() =~= self.previously_accepted@.dom());
        let mut i: usize = 0;
        let mut chosen: Option<T::Time> = None;
        assert(ks.skip(0) =~= ks);
        while i < keys.len() && chosen.is_none()
            invariant
                0 <= i <= keys.len(),
                ks == keys@,
                ks == listing(prev.dom()),
                prev == accepted_views(self.previously_accepted@),
                chosen is None ==> first_with_accept_time(prev, ks, max_accept_time)
                    == first_with_accept_time(prev, ks.skip(i as int), max_accept_time),
                chosen matches Some(pt) ==> first_with_accept_time(prev, ks, max_accept_time)
                    matches Some(k) && prev[k].proposal.propose_time == pt,
                forall|j: int| 0 <= j < ks.len() ==> prev.dom().contains(#[trigger] ks[j]),
            decreases keys.len() - i,
        {
            proof {
                crate::order::lemma_ids_ordered();
            }
            let accepted = self.previously_accepted.get(&keys[i]).unwrap();
            assert(ks.skip(i as int)[0] == ks[i as int]);
            assert(ks.skip(i as int).drop_first() == ks.skip(i + 1));
            if accepted.accept_time.same(&max_accept_time) {
                chosen = Some(accepted.proposal.propose_time);
            }
            i = i + 1;
        }
        let propose_time = match chosen {
            None => {
                assert(ks.skip(i as int).len() == 0);
                return None;
            },
            Some(pt) => pt,
        };
        let mut parts: Vec<(u64, T::Part)> = Vec::new();
        for j in 0..keys.len()
            invariant
                ks == keys@,
                prev == accepted_views(self.previously_accepted@),
                forall|j: int| 0 <= j < ks.len() ==> prev.dom().contains(#[trigger] ks[j]),
                parts_view(parts@) == parts_proposed_at(prev, ks.take(j as int), propose_time),
        {
            proof {
                crate::order::lemma_ids_ordered();
            }
            let accepted = self.previously_accepted.get(&keys[j]).unwrap();
            assert(ks.take(j + 1).drop_last() == ks.take(j as int));
            assert(ks.take(j + 1).last() == ks[j as int]);
            if accepted.proposal.propose_time.same(&propose_time) {
                let part = accepted.proposal.data.clone_value();
                let ghost before = parts@;
                parts.push((keys[j], part));
                assert(parts@ == before.push((keys@[j as int], part)));
                assert(parts_view(parts@) =~= parts_view(before).push(
                    (keys@[j as int], part.deep_view()),
                ));
            }
        }
        assert(ks.take(keys.len() as int) == ks);
        match self.apaxos.rebuild.rebuild(&parts) {
            None => None,
            Some(value) => Some(Proposal::new(propose_time, value)),
        }
    }

    /// Handle one phase-1 reply: a reply from an acceptor whose time is the
    /// proposer's grants the request; its accepted part is kept, and once
    /// the acceptors that granted form a read quorum, the proposal that may
    /// have been committed is rebuilt.
    pub fn handle_reply(&mut self, target: u64, reply: Acceptor<T>) -> (p: Option<
        Proposal<T, T::Value>,
    >)
        ensures
            final(self).time == old(self).time,
            *final(self).apaxos == *old(self).apaxos,
            *final(final(self).apaxos) == *final(old(self).apaxos),
            final(self).tally() == tally_step::<T, Q>(
                old(self).apaxos.quorum_set,
                old(self).time,
                old(self).tally(),
                target,
                reply@,
            ),
            proposal_option_view(p) == if reply.time == old(self).time {
                tally_found::<T, D>(old(self).apaxos.rebuild, final(self).tally())
            } else {
                None
            },
            reply.time != old(self).time ==> {
                &&& p is None
                &&& final(self).granted@ == old(self).granted@
                &&& final(self).previously_accepted@ == old(self).previously_accepted@
                &&& final(self).max_accept_time == old(self).max_accept_time
                &&& final(self).is_quorum == old(self).is_quorum
            },
            reply.time == old(self).time ==> {
                &&& final(self).granted@ == old(self).granted@.insert(target)
                &&& final(self).is_quorum == (old(self).is_quorum
                    || old(self).apaxos.quorum_set.read_quorum_spec(
                    listing(final(self).granted@),
                ))
                &&& final(self).max_accept_time == match reply.accepted {
                    Some(a) => if a.accept_time.ge_spec(&old(self).max_accept_time) {
                        a.accept_time
                    } else {
                        old(self).max_accept_time
                    },
                    None => old(self).max_accept_time,
                }
                &&& final(self).previously_accepted@ == match reply.accepted {
                    Some(a) => old(self).previously_accepted@.insert(target, a),
                    None => old(self).previously_accepted@,
                }
                &&& proposal_option_view(p) == if final(self).is_quorum {
                    final(self).rebuilt_now()
                } else {
                    None
                }
            },
    {
        if !reply.time.same(&self.time) {
            proof {
                assert(self.tally() == old(self).tally());
            }
            return None;
        }
        proof {
            crate::order::lemma_ids_ordered();
        }
        let ghost before = self.previously_accepted@;
        self.granted.insert(target);
        if !self.is_quorum {
            let ids = elements_of(&self.granted);
            self.is_quorum = self.apaxos.quorum_set.is_read_quorum(&ids);
        }
        match reply.accepted {
            Some(accepted) => {
                if accepted.accept_time.greater_equal(&self.max_accept_time) {
                    self.max_accept_time = accepted.accept_time;
                }
                self.previously_accepted.insert(target, accepted);
                assert(accepted_views(self.previously_accepted@) =~= accepted_views(before).insert(
                    target,
                    accepted@,
                ));
            },
            None => {},
        }
        if self.is_quorum {
            self.rebuild(self.max_accept_time)
        } else {
            None
        }
    }

    /// The tally that a run of phase-1 starts from: the grants and parts
    /// this phase already holds, no greatest accept time yet, no quorum.
    pub open spec fn start_tally(&self) -> Phase1Tally<T::Time, <T::Part as DeepView>::V> {
        Phase1Tally {
            granted: self.granted@,
            previously_accepted: accepted_views(self.previously_accepted@),
            max_accept_time: T::Time::default_spec(),
            is_quorum: false,
        }
    }

    /// Run phase-1: send the proposer's time to every acceptor of the
    /// cluster in ascending id order, then handle the replies, at most as
    /// many as requests were sent, until the acceptors that granted form a
    /// read quorum whose accepted parts rebuild a proposal.
    ///
    /// Returns that proposal, the one that a read quorum may have
    /// committed; `None` if a read quorum formed but rebuilt nothing; or
    /// `NoReadQuorum` if the acceptors that granted never formed a read
    /// quorum.
    pub fn run(&mut self) -> (r: Result<Option<Proposal<T, T::Value>>, ProposeError>)
        requires
            old(self).apaxos.transport.inv(),
        ensures
            final(self).apaxos.transport.inv(),
            final(self).time == old(self).time,
            *final(final(self).apaxos) == *final(old(self).apaxos),
            final(self).apaxos.acceptors == old(self).apaxos.acceptors,
            final(self).apaxos.quorum_set == old(self).apaxos.quorum_set,
            final(self).apaxos.rebuild == old(self).apaxos.rebuild,
            old(self).apaxos.transport.events().is_prefix_of(final(self).apaxos.transport.events()),
            phase1_ran::<T, Q, D>(
                old(self).apaxos.quorum_set,
                old(self).apaxos.rebuild,
                old(self).time,
                old(self).start_tally(),
                listing(old(self).apaxos.acceptor_ids()),
                final(self).apaxos.transport.events().skip(
                    old(self).apaxos.transport.events().len() as int,
                ),
            ),
            final(self).tally() == phase1_tally::<T, Q>(
                old(self).apaxos.quorum_set,
                old(self).time,
                old(self).start_tally(),
                listing(old(self).apaxos.acceptor_ids()),
                final(self).apaxos.transport.events().skip(
                    old(self).apaxos.transport.events().len() as int,
                ),
            ),
            match r {
                Ok(Some(p)) => tally_found::<T, D>(old(self).apaxos.rebuild, final(self).tally())
                    == Some(p@),
                Ok(None) => final(self).is_quorum && tally_found::<T, D>(
                    old(self).apaxos.rebuild,
                    final(self).tally(),
                ) is None,
                Err(e) => e == ProposeError::NoReadQuorum && !final(self).is_quorum,
            },
            old(self).apaxos.acceptor_ids().len() == 0 ==> r == Err::<
                Option<Proposal<T, T::Value>>,
                ProposeError,
            >(ProposeError::NoReadQuorum),
    {
        let ids = keys_of(&self.apaxos.acceptors);
        let ghost before = self.apaxos.transport.events();
        let mut sent: usize = 0;
        for i in 0..ids.len()
            invariant
                sent == i,
                self.time == old(self).time,
                self.apaxos.transport.inv(),
                *final(self.apaxos) == *final(old(self).apaxos),
                self.granted == old(self).granted,
                self.previously_accepted == old(self).previously_accepted,
                self.apaxos.acceptors == old(self).apaxos.acceptors,
                self.apaxos.quorum_set == old(self).apaxos.quorum_set,
                self.apaxos.rebuild == old(self).apaxos.rebuild,
                before == old(self).apaxos.transport.events(),
                ids@ == listing(old(self).apaxos.acceptor_ids()),
                self.apaxos.transport.events() == before + phase1_requests(
                    ids@.take(i as int),
                    self.time,
                ),
        {
            self.apaxos.transport.send_phase1_request(ids[i], self.time);
            assert(phase1_requests::<T::Time, <T::Part as DeepView>::V>(
                ids@.take(i + 1),
                self.time,
            ) =~= phase1_requests::<T::Time, <T::Part as DeepView>::V>(
                ids@.take(i as int),
                self.time,
            ).push(NetEvent::Phase1Request(ids@[i as int], self.time)));
            sent = sent + 1;
        }
        assert(ids@.take(ids.len() as int) == ids@);
        let ghost header = self.apaxos.transport.events();
        assert(header.take(header.len() as int) == header);
        self.max_accept_time = T::Time::default_time();
        self.is_quorum = false;
        assert(self.tally() == old(self).start_tally());
        assert(header.skip(header.len() as int) =~= Seq::<NetEvent<T::Time, <T::Part as DeepView>::V>>::empty());
        let mut n: usize = 0;
        let ghost mut got_none = false;
        while n < sent
            invariant_except_break
                !got_none,
            invariant
                n <= sent,
                got_none ==> n < sent,
                sent == ids@.len(),
                sent == old(self).apaxos.acceptor_ids().len(),
                ids@ == listing(old(self).apaxos.acceptor_ids()),
                before == old(self).apaxos.transport.events(),
                header == before + phase1_requests(ids@, old(self).time),
                header.len() == before.len() + sent,
                self.apaxos.transport.events().take(header.len() as int) == header,
                self.apaxos.transport.events().len() == header.len() + n + if got_none {
                    1int
                } else {
                    0int
                },
                forall|i: int|
                    0 <= i < n ==> #[trigger] self.apaxos.transport.events().skip(
                        header.len() as int,
                    )[i] is Phase1Reply,
                got_none ==> self.apaxos.transport.events().skip(header.len() as int)[n as int] is Phase1NoReply,
                self.tally() == tally_replies::<T, Q>(old(self).apaxos.quorum_set, old(self).time, old(self).start_tally(), 
                    self.apaxos.transport.events().skip(header.len() as int),
                ),
                forall|j: int|
                    0 <= j <= n ==> tally_found::<T, D>(
                        old(self).apaxos.rebuild,
                        #[trigger] tally_replies::<T, Q>(old(self).apaxos.quorum_set, old(self).time, old(self).start_tally(), 
                            self.apaxos.transport.events().skip(header.len() as int).take(j),
                        ),
                    ) is None,
                self.time == old(self).time,
                self.apaxos.transport.inv(),
                *final(self.apaxos) == *final(old(self).apaxos),
                self.apaxos.acceptors == old(self).apaxos.acceptors,
                self.apaxos.quorum_set == old(self).apaxos.quorum_set,
                self.apaxos.rebuild == old(self).apaxos.rebuild,
            ensures
                got_none || n == sent,
            decreases sent - n,
        {
            let ghost events_before = self.apaxos.transport.events();
            let ghost tally_before = self.tally();
            match self.apaxos.transport.recv_phase1_reply() {
                None => {
                    proof {
                        let replies = self.apaxos.transport.events().skip(header.len() as int);
                        let replies_before = events_before.skip(header.len() as int);
                        assert(replies =~= replies_before.push(NetEvent::Phase1NoReply));
                        assert(replies.drop_last() == replies_before);
                        assert(self.apaxos.transport.events().take(header.len() as int) =~= header);
                        assert forall|j: int| 0 <= j <= n implies #[trigger] replies.take(j)
                            == replies_before.take(j) by {
                            assert(replies.take(j) =~= replies_before.take(j));
                        }
                        got_none = true;
                    }
                    break;
                },
                Some((target, reply)) => {
                    let ghost ev = NetEvent::Phase1Reply(target, reply@);
                    let ghost replies = self.apaxos.transport.events().skip(header.len() as int);
                    let ghost replies_before = events_before.skip(header.len() as int);
                    assert(replies =~= replies_before.push(ev));
                    assert(replies.drop_last() == replies_before);
                    assert(replies.last() == ev);
                    assert(tally_replies::<T, Q>(old(self).apaxos.quorum_set, old(self).time, old(self).start_tally(), replies) == tally_step::<T, Q>(
                        old(self).apaxos.quorum_set,
                        old(self).time,
                        tally_replies::<T, Q>(old(self).apaxos.quorum_set, old(self).time, old(self).start_tally(), replies_before),
                        target,
                        reply@,
                    ));
                    assert(self.apaxos.transport.events().take(header.len() as int) =~= header);
                    assert(replies.take(n + 1) == replies);
                    assert forall|j: int| 0 <= j <= n implies #[trigger] replies.take(j)
                        == replies_before.take(j) by {
                        assert(replies.take(j) =~= replies_before.take(j));
                    }
                    let found = self.handle_reply(target, reply);
                    match found {
                        Some(p) => {
                            proof {
                                crate::apaxos::proposer::lemma_log_split(
                                    before,
                                    phase1_requests(ids@, old(self).time),
                                    self.apaxos.transport.events(),
                                );
                            }
                            return Ok(Some(p));
                        },
                        None => {},
                    }
                },
            }
            n = n + 1;
        }
        proof {
            let replies = self.apaxos.transport.events().skip(header.len() as int);
            if !got_none {
                assert(replies.take(n as int) =~= replies);
                assert(n == sent);
                if replies.len() > 0 {
                    assert(replies[replies.len() - 1] is Phase1Reply);
                }
            } else {
                assert(replies.take(n as int) =~= replies.drop_last());
                assert(replies[n as int] is Phase1NoReply);
            }
            crate::apaxos::proposer::lemma_log_split(
                before,
                phase1_requests(ids@, old(self).time),
                self.apaxos.transport.events(),
            );
            assert(tally_found::<T, D>(
                old(self).apaxos.rebuild,
                tally_replies::<T, Q>(old(self).apaxos.quorum_set, old(self).time, old(self).start_tally(), replies.take(n as int)),
            ) is None);
        }
        if self.is_quorum {
            Ok(None)
        } else {
            Err(ProposeError::NoReadQuorum)
        }
    }
}

} // verus!
