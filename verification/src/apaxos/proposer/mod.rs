//! Proposers.
use crate::apaxos::proposal::Proposal;
use crate::apaxos::proposal::ProposalView;
use crate::apaxos::ptime::Time;
use crate::APaxos;
use crate::Distribute;
use crate::QuorumSet;
use crate::Transport;
use crate::Types;
use crate::Value;
use crate::ids::listing;
use crate::NetEvent;
use phase1::phase1_ran;
use phase1::phase1_tally;
use phase1::tally_found;
use phase1::Phase1;
use phase1::Phase1Tally;
use phase2::phase2_ran;
use phase2::Phase2;
use std::collections::BTreeMap;
use std::collections::BTreeSet;
use vstd::prelude::*;

pub mod phase1;
pub mod phase2;

verus! {

/// A log that extends `before` with `sent` splits into them and the rest.
pub proof fn lemma_log_split<E>(before: Seq<E>, sent: Seq<E>, after: Seq<E>)
    requires
        after.take((before.len() + sent.len()) as int) == before + sent,
        after.len() >= before.len() + sent.len(),
    ensures
        before.is_prefix_of(after),
        after.skip(before.len() as int).take(sent.len() as int) == sent,
        after.skip(before.len() as int).skip(sent.len() as int) == after.skip(
            (before.len() + sent.len()) as int,
        ),
{
    assert(after.take(before.len() as int) =~= (before + sent).take(before.len() as int));
    assert(before =~= after.subrange(0, before.len() as int));
    assert(after.skip(before.len() as int).take(sent.len() as int) =~= (before + sent).skip(
        before.len() as int,
    ));
    assert(after.skip(before.len() as int).skip(sent.len() as int) =~= after.skip(
        (before.len() + sent.len()) as int,
    ));
}

/// How many events of `events` have the property `pred`.
pub open spec fn count_events<E>(events: Seq<E>, pred: spec_fn(E) -> bool) -> nat
    decreases events.len(),
{
    if events.len() == 0 {
        0
    } else {
        count_events(events.drop_last(), pred) + if pred(events.last()) {
            1nat
        } else {
            0nat
        }
    }
}

/// Counting over two logs one after the other adds up.
pub proof fn lemma_count_concat<E>(a: Seq<E>, b: Seq<E>, pred: spec_fn(E) -> bool)
    ensures
        count_events(a + b, pred) == count_events(a, pred) + count_events(b, pred),
    decreases b.len(),
{
    if b.len() == 0 {
        assert(a + b =~= a);
    } else {
        lemma_count_concat(a, b.drop_last(), pred);
        assert((a + b).drop_last() =~= a + b.drop_last());
        assert((a + b).last() == b.last());
    }
}

/// A log counts each of its events that has the property, and only those.
pub proof fn lemma_count_bounds<E>(s: Seq<E>, pred: spec_fn(E) -> bool)
    ensures
        (forall|i: int| 0 <= i < s.len() ==> pred(#[trigger] s[i])) ==> count_events(s, pred)
            == s.len(),
        (forall|i: int| 0 <= i < s.len() ==> !pred(#[trigger] s[i])) ==> count_events(s, pred) == 0,
    decreases s.len(),
{
    if s.len() > 0 {
        lemma_count_bounds(s.drop_last(), pred);
        assert(s.last() == s[s.len() - 1]);
        assert forall|i: int| 0 <= i < s.drop_last().len() implies #[trigger] s.drop_last()[i]
            == s[i] by {}
    }
}

/// Why a proposer could not commit.
#[derive(Debug, PartialEq, Eq, Structural)]
pub enum ProposeError {
    /// The acceptors that granted phase-1 never formed a read quorum.
    NoReadQuorum,
    /// The acceptors that accepted phase-2 never formed a write quorum.
    NoWriteQuorum,
    /// The value to commit cannot be split over the acceptors.
    Undistributable,
}

/// How many phase-1 replies `events` starts with.
pub open spec fn leading_phase1_replies<Tm, V>(events: Seq<NetEvent<Tm, V>>) -> nat
    decreases events.len(),
{
    if events.len() > 0 && events[0] is Phase1Reply {
        1 + leading_phase1_replies(events.drop_first())
    } else {
        0
    }
}

/// Phase-1 replies followed by anything that does not start with one: the
/// replies are the leading ones.
pub proof fn lemma_leading_phase1_replies<Tm, V>(
    replies: Seq<NetEvent<Tm, V>>,
    rest: Seq<NetEvent<Tm, V>>,
)
    requires
        forall|i: int| 0 <= i < replies.len() ==> #[trigger] replies[i] is Phase1Reply,
        rest.len() == 0 || !(rest[0] is Phase1Reply),
    ensures
        leading_phase1_replies(replies + rest) == replies.len(),
    decreases replies.len(),
{
    if replies.len() == 0 {
        assert(replies + rest =~= rest);
    } else {
        lemma_leading_phase1_replies(replies.drop_first(), rest);
        assert((replies + rest).drop_first() =~= replies.drop_first() + rest);
        assert((replies + rest)[0] == replies[0]);
    }
}

/// Where the phase-1 of a proposer run that logged `events` against the
/// acceptors `ids` ends: after its requests, the phase-1 replies that
/// follow, and the record that the transport had none left, if there is
/// one.
pub open spec fn phase1_stop<Tm, V>(ids: Seq<u64>, events: Seq<NetEvent<Tm, V>>) -> int {
    let m = (ids.len() + leading_phase1_replies(events.skip(ids.len() as int))) as int;
    if m < events.len() && events[m] is Phase1NoReply {
        m + 1
    } else {
        m
    }
}

/// The tally a proposer's phase-1 starts from: nothing granted or kept.
pub open spec fn empty_tally<T: Types>() -> Phase1Tally<T::Time, <T::Part as DeepView>::V> {
    Phase1Tally {
        granted: Set::empty(),
        previously_accepted: Map::empty(),
        max_accept_time: T::Time::default_spec(),
        is_quorum: false,
    }
}

/// A run of a proposer at `time` with its own proposal `own`, against the
/// acceptors `ids`, made the transport `events` and returned `r`.
///
/// Its phase-1 made the first of these events: the requests and the
/// phase-1 replies after them. If the acceptors that granted never formed
/// a read quorum, that was all, and it returned `NoReadQuorum`. Otherwise
/// the rest is its phase-2 for the proposal phase-1 rebuilt, or for `own`
/// if phase-1 rebuilt none.
pub open spec fn proposer_ran<T: Types, Q: QuorumSet<T>, D: Distribute<T>>(
    qs: Q,
    dist: D,
    time: T::Time,
    own: ProposalView<T::Time, <T::Value as DeepView>::V>,
    ids: Seq<u64>,
    events: Seq<NetEvent<T::Time, <T::Part as DeepView>::V>>,
    r: Result<Proposal<T, T::Value>, ProposeError>,
) -> bool {
    let m = phase1_stop(ids, events);
    let phase1 = events.take(m);
    let tally = phase1_tally::<T, Q>(qs, time, empty_tally::<T>(), ids, phase1);
    &&& m <= events.len()
    &&& phase1_ran::<T, Q, D>(qs, dist, time, empty_tally::<T>(), ids, phase1)
    &&& if !tally.is_quorum {
        &&& r == Err::<Proposal<T, T::Value>, ProposeError>(ProposeError::NoReadQuorum)
        &&& events.len() == m
    } else {
        phase2_ran::<T, Q, D>(
            qs,
            dist,
            time,
            match tally_found::<T, D>(dist, tally) {
                Some(found) => found,
                None => own,
            },
            ids,
            Set::empty(),
            events.skip(m),
            r,
        )
    }
}

/// A proposer: it runs phase-1 and phase-2 at its time to commit its
/// proposal, or the proposal that may have been committed before it.
pub struct Proposer<'a, T: Types, Q, D, N> {
    pub apaxos: &'a mut APaxos<T, Q, D, N>,
    pub time: T::Time,
    pub proposal: Proposal<T, T::Value>,
}

impl<'a, T: Types, Q, D, N> Proposer<'a, T, Q, D, N> where
    Q: QuorumSet<T>,
    D: Distribute<T>,
    N: Transport<T>,
 {
    pub fn new(apaxos: &'a mut APaxos<T, Q, D, N>, time: T::Time, value: T::Value) -> (p: Self)
        ensures
            p.time == time,
            p.proposal.propose_time == time,
            p.proposal.data == value,
            *p.apaxos == *old(apaxos),
            *final(p.apaxos) == *final(apaxos),
    {
        Proposer { apaxos, time, proposal: Proposal::new(time, value) }
    }

    /// Run phase-1 then phase-2; returns the committed proposal.
    ///
    /// The proposal committed is the one that phase-1 rebuilt from the parts
    /// accepted by a read quorum, or, if there is none, the proposer's own.
    pub fn run(&mut self) -> (r: Result<Proposal<T, T::Value>, ProposeError>)
        requires
            old(self).apaxos.transport.inv(),
        ensures
            final(self).apaxos.transport.inv(),
            final(self).time == old(self).time,
            final(self).proposal == old(self).proposal,
            *final(final(self).apaxos) == *final(old(self).apaxos),
            final(self).apaxos.acceptors == old(self).apaxos.acceptors,
            final(self).apaxos.quorum_set == old(self).apaxos.quorum_set,
            final(self).apaxos.rebuild == old(self).apaxos.rebuild,
            old(self).apaxos.transport.events().is_prefix_of(final(self).apaxos.transport.events()),
            proposer_ran::<T, Q, D>(
                old(self).apaxos.quorum_set,
                old(self).apaxos.rebuild,
                old(self).time,
                old(self).proposal@,
                listing(old(self).apaxos.acceptor_ids()),
                final(self).apaxos.transport.events().skip(
                    old(self).apaxos.transport.events().len() as int,
                ),
                r,
            ),
            old(self).apaxos.acceptor_ids().len() == 0 ==> r == Err::<
                Proposal<T, T::Value>,
                ProposeError,
            >(ProposeError::NoReadQuorum),
    {
        let ghost before = self.apaxos.transport.events();
        let ghost ids = listing(self.apaxos.acceptor_ids());
        let mut phase1 = self.new_phase1();
        proof {
            assert(phase1::accepted_views(phase1.previously_accepted@) =~= Map::empty());
            assert(phase1.start_tally() == empty_tally::<T>());
        }
        let maybe_committed = phase1.run();
        let ghost tally = phase1.tally();
        let ghost mid = self.apaxos.transport.events();
        let ghost events1 = mid.skip(before.len() as int);
        proof {
            assert(mid =~= before + events1);
            let replies1 = events1.skip(ids.len() as int);
            let taken = phase1::phase1_replies_taken(replies1);
            let pure = replies1.take(taken);
            let tail1 = replies1.skip(taken);
            assert(replies1 =~= pure + tail1);
            assert forall|i: int| 0 <= i < pure.len() implies #[trigger] pure[i] is Phase1Reply by {
                assert(pure[i] == replies1[i]);
            }
            if tail1.len() > 0 {
                assert(tail1[0] == replies1[taken]);
                assert(events1[ids.len() + taken] == replies1[taken]);
            }
            lemma_leading_phase1_replies(pure, tail1);
            assert(events1.take(events1.len() as int) =~= events1);
        }
        let maybe_committed = match maybe_committed {
            Ok(m) => m,
            Err(e) => {
                return Err(e);
            },
        };
        let mut phase2 = self.new_phase2(maybe_committed);
        let ghost decided = phase2.decided@;
        let r = phase2.run();
        proof {
            let after_phase2 = self.apaxos.transport.events();
            let events2 = after_phase2.skip(mid.len() as int);
            let dist = old(self).apaxos.rebuild;
            let requests = phase2::phase2_requests(
                ids,
                old(self).time,
                decided.propose_time,
                dist.distribute_spec(decided.data, ids),
            );
            if dist.can_distribute_spec(decided.data, ids) && requests.len() > 0 {
                assert(events2.take(requests.len() as int)[0] == requests[0]);
            }
            if dist.can_distribute_spec(decided.data, ids) && requests.len() == 0
                && events2.len() > 0 {
                assert(events2.skip(0)[0] == events2[0]);
            }
        }
        proof {
            let after = self.apaxos.transport.events();
            let events2 = after.skip(mid.len() as int);
            let events = after.skip(before.len() as int);
            assert(after =~= mid + events2);
            assert(events =~= events1 + events2);
            let replies1 = events1.skip(ids.len() as int);
            let taken = phase1::phase1_replies_taken(replies1);
            let pure = replies1.take(taken);
            let tail1 = replies1.skip(taken);
            assert(replies1 =~= pure + tail1);
            assert(events.skip(ids.len() as int) =~= pure + (tail1 + events2));
            assert forall|i: int| 0 <= i < pure.len() implies #[trigger] pure[i] is Phase1Reply by {
                assert(pure[i] == replies1[i]);
            }
            let rest = tail1 + events2;
            if rest.len() > 0 {
                if tail1.len() > 0 {
                    assert(rest[0] == replies1[taken]);
                } else {
                    assert(rest[0] == events2[0]);
                }
            }
            lemma_leading_phase1_replies(pure, rest);
            if tail1.len() == 0 && events2.len() > 0 {
                assert(events[ids.len() + taken] == events2[0]);
            }
            if tail1.len() > 0 {
                assert(events[ids.len() + taken] == replies1[taken]);
            }
            assert(events.take(events1.len() as int) =~= events1);
            assert(events.skip(events1.len() as int) =~= events2);
        }
        r
    }

    fn new_phase1(&mut self) -> (p: Phase1<'_, T, Q, D, N>)
        ensures
            p.time == old(self).time,
            p.granted@ == Set::<u64>::empty(),
            p.previously_accepted@ == Map::<u64, crate::apaxos::accepted::Accepted<T>>::empty(),
            p.max_accept_time == T::Time::default_spec(),
            !p.is_quorum,
            *p.apaxos == *old(self).apaxos,
            *final(self).apaxos == *final(p.apaxos),
            *final(final(self).apaxos) == *final(old(self).apaxos),
            final(self).time == old(self).time,
            final(self).proposal == old(self).proposal,
    {
        Phase1 {
            apaxos: &mut *self.apaxos,
            time: self.time,
            granted: BTreeSet::new(),
            previously_accepted: BTreeMap::new(),
            max_accept_time: T::Time::default_time(),
            is_quorum: false,
        }
    }

    fn new_phase2(&mut self, maybe_committed: Option<Proposal<T, T::Value>>) -> (p: Phase2<'_, T, Q, D, N>)
        ensures
            p.time == old(self).time,
            p.decided@ == match maybe_committed {
                Some(c) => c@,
                None => old(self).proposal@,
            },
            p.granted@ == Map::<u64, ()>::empty(),
            *p.apaxos == *old(self).apaxos,
            *final(self).apaxos == *final(p.apaxos),
            *final(final(self).apaxos) == *final(old(self).apaxos),
            final(self).time == old(self).time,
            final(self).proposal == old(self).proposal,
    {
        let decided = match maybe_committed {
            Some(c) => c,
            None => self.proposal.clone(),
        };
        Phase2 { apaxos: &mut *self.apaxos, time: self.time, decided, granted: BTreeMap::new() }
    }
}

} // verus!
