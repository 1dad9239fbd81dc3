//! Phase-2 of a proposer: have a write quorum accept the decided proposal.
use crate::apaxos::proposal::Proposal;
use crate::apaxos::proposal::ProposalView;
use crate::apaxos::proposer::ProposeError;
use crate::apaxos::proposer::count_events;
use crate::apaxos::proposer::lemma_count_bounds;
use crate::apaxos::proposer::lemma_count_concat;
use crate::ids::keys_of;
use crate::ids::listing;
use crate::APaxos;
use crate::values_view;
use crate::Distribute;
use crate::NetEvent;
use crate::QuorumSet;
use crate::Transport;
use crate::Types;
use crate::Value;
use std::collections::BTreeMap;
use vstd::prelude::*;

verus! {

broadcast use vstd::std_specs::btree::group_btree_axioms;

/// The phase-2 requests at `time` that hand acceptor `ids[i]` the proposal
/// of `parts[i]` made at `propose_time`, for each id that has a part, in
/// that order.
pub open spec fn phase2_requests<Tm, V>(
    ids: Seq<u64>,
    time: Tm,
    propose_time: Tm,
    parts: Seq<V>,
) -> Seq<NetEvent<Tm, V>> {
    let n = if ids.len() <= parts.len() {
        ids.len()
    } else {
        parts.len()
    };
    Seq::new(
        n,
        |i: int| NetEvent::Phase2Request(ids[i], time, ProposalView { propose_time, data: parts[i] }),
    )
}

/// The acceptors that have accepted, after the phase-2 replies among
/// `events`, starting from `granted`.
pub open spec fn granted_after<Tm, V>(granted: Set<u64>, events: Seq<NetEvent<Tm, V>>) -> Set<u64>
    decreases events.len(),
{
    if events.len() == 0 {
        granted
    } else {
        let before = granted_after(granted, events.drop_last());
        match events.last() {
            NetEvent::Phase2Reply(target, true) => before.insert(target),
            _ => before,
        }
    }
}

/// How many phase-2 replies `replies` holds: all its events but a last
/// one that says the transport had none.
pub open spec fn phase2_replies_taken<Tm, V>(replies: Seq<NetEvent<Tm, V>>) -> int {
    if replies.len() > 0 && replies.last() is Phase2NoReply {
        replies.len() - 1
    } else {
        replies.len() as int
    }
}

/// A run of phase-2 at `time` for `decided`, against the acceptors `ids`
/// and starting from the grants `granted`, made the transport `events` and
/// returned `r`.
///
/// If the decided value cannot be split over `ids`, it sent nothing and
/// returned `Undistributable`. Otherwise it sent every acceptor that has a
/// part its part, then took at most as many phase-2 replies, and returned
/// the decided proposal at the first reply after which the acceptors that
/// accepted formed a write quorum, or `NoWriteQuorum` if none did once it
/// had taken as many replies as it sent requests or the transport had none
/// left.
pub open spec fn phase2_ran<T: Types, Q: QuorumSet<T>, D: Distribute<T>>(
    qs: Q,
    dist: D,
    time: T::Time,
    decided: ProposalView<T::Time, <T::Value as DeepView>::V>,
    ids: Seq<u64>,
    granted: Set<u64>,
    events: Seq<NetEvent<T::Time, <T::Part as DeepView>::V>>,
    r: Result<Proposal<T, T::Value>, ProposeError>,
) -> bool {
    let requests = phase2_requests(
        ids,
        time,
        decided.propose_time,
        dist.distribute_spec(decided.data, ids),
    );
    let replies = events.skip(requests.len() as int);
    let accepted = granted_after(granted, replies);
    if !dist.can_distribute_spec(decided.data, ids) {
        r == Err::<Proposal<T, T::Value>, ProposeError>(ProposeError::Undistributable)
            && events.len() == 0
    } else {
        &&& requests.len() <= events.len() <= 2 * requests.len() + 1
        &&& events.take(requests.len() as int) == requests
        &&& forall|i: int|
            0 <= i < replies.len() ==> #[trigger] replies[i] is Phase2Reply || (i == replies.len()
                - 1 && replies[i] is Phase2NoReply)
        &&& phase2_replies_taken(replies) <= requests.len()
        &&& forall|j: int|
            1 <= j < replies.len() ==> !qs.write_quorum_spec(
                listing(#[trigger] granted_after(granted, replies.take(j))),
            )
        &&& match r {
            Ok(p) => p@ == decided && replies.len() > 0 && replies.last() is Phase2Reply
                && qs.write_quorum_spec(listing(accepted)),
            Err(e) => e == ProposeError::NoWriteQuorum && (phase2_replies_taken(replies) == 0
                || !qs.write_quorum_spec(listing(accepted))) && (phase2_replies_taken(replies)
                == requests.len() || (replies.len() > 0 && replies.last() is Phase2NoReply)),
        }
    }
}

/// A phase-2 run that found no write quorum took a reply for every request
/// it sent, unless the transport had no reply left: it does not give up at
/// a refusal while acceptances may still come.
pub proof fn lemma_phase2_gives_up_after_every_reply<T: Types, Q: QuorumSet<T>, D: Distribute<T>>(
    qs: Q,
    dist: D,
    time: T::Time,
    decided: ProposalView<T::Time, <T::Value as DeepView>::V>,
    ids: Seq<u64>,
    granted: Set<u64>,
    events: Seq<NetEvent<T::Time, <T::Part as DeepView>::V>>,
    r: Result<Proposal<T, T::Value>, ProposeError>,
)
    requires
        phase2_ran::<T, Q, D>(qs, dist, time, decided, ids, granted, events, r),
        r == Err::<Proposal<T, T::Value>, ProposeError>(ProposeError::NoWriteQuorum),
    ensures
        count_events(events, |e: NetEvent<T::Time, <T::Part as DeepView>::V>| e is Phase2Reply)
            == count_events(
            events,
            |e: NetEvent<T::Time, <T::Part as DeepView>::V>| e is Phase2Request,
        ) || (events.len() > 0 && events.last() is Phase2NoReply),
{
    let fr = |e: NetEvent<T::Time, <T::Part as DeepView>::V>| e is Phase2Reply;
    let fq = |e: NetEvent<T::Time, <T::Part as DeepView>::V>| e is Phase2Request;
    let requests = phase2_requests(
        ids,
        time,
        decided.propose_time,
        dist.distribute_spec(decided.data, ids),
    );
    let replies = events.skip(requests.len() as int);
    assert(events =~= requests + replies);
    lemma_count_concat(requests, replies, fr);
    lemma_count_concat(requests, replies, fq);
    lemma_count_bounds(requests, fr);
    lemma_count_bounds(requests, fq);
    if !(replies.len() > 0 && replies.last() is Phase2NoReply) {
        assert forall|i: int| 0 <= i < replies.len() implies fr(#[trigger] replies[i]) by {
            if i == replies.len() - 1 {
                assert(replies.last() == replies[i]);
            }
        }
        assert forall|i: int| 0 <= i < replies.len() implies !fq(#[trigger] replies[i]) by {
            assert(fr(replies[i]));
        }
        lemma_count_bounds(replies, fr);
        lemma_count_bounds(replies, fq);
    } else {
        assert(events.last() == replies.last());
    }
}

pub struct Phase2<'a, T: Types, Q, D, N> {
    pub apaxos: &'a mut APaxos<T, Q, D, N>,
    /// The time of the proposer that runs this phase.
    pub time: T::Time,
    /// The proposal to commit.
    pub decided: Proposal<T, T::Value>,
    /// The acceptors that accepted the proposer's phase-2 request.
    pub granted: BTreeMap<u64, ()>,
}

impl<'a, T: Types, Q, D, N> Phase2<'a, T, Q, D, N> where
    Q: QuorumSet<T>,
    D: Distribute<T>,
    N: Transport<T>,
 {
    /// Handle one phase-2 reply: an acceptor that accepted joins the
    /// granted ones. Returns whether the acceptors that accepted form a
    /// write quorum.
    pub fn handle_reply(&mut self, target: u64, is_accepted: bool) -> (quorum: bool)
        ensures
            final(self).time == old(self).time,
            final(self).decided == old(self).decided,
            *final(self).apaxos == *old(self).apaxos,
            *final(final(self).apaxos) == *final(old(self).apaxos),
            final(self).granted@ == if is_accepted {
                old(self).granted@.insert(target, ())
            } else {
                old(self).granted@
            },
            quorum == old(self).apaxos.quorum_set.write_quorum_spec(
                listing(final(self).granted@.dom()),
            ),
    {
        if is_accepted {
            proof {
                crate::order::lemma_ids_ordered();
            }
            self.granted.insert(target, ());
        }
        let granted_ids = keys_of(&self.granted);
        self.apaxos.quorum_set.is_write_quorum(&granted_ids)
    }

    /// Run phase-2: split the decided value over the acceptors of the
    /// cluster in ascending id order, send each its part, proposed at the
    /// decided propose time, at the proposer's time; then handle the
    /// replies, at most as many as requests were sent, until the acceptors
    /// that accepted form a write quorum.
    ///
    /// Returns the decided proposal once a write quorum accepted it;
    /// `Undistributable`, with nothing sent, if the value cannot be split
    /// over the acceptors; `NoWriteQuorum` if the replies never formed a
    /// write quorum.
    pub fn run(&mut self) -> (r: Result<Proposal<T, T::Value>, ProposeError>)
        requires
            old(self).apaxos.transport.inv(),
        ensures
            final(self).apaxos.transport.inv(),
            final(self).time == old(self).time,
            *final(final(self).apaxos) == *final(old(self).apaxos),
            final(self).decided@ == old(self).decided@,
            final(self).apaxos.acceptors == old(self).apaxos.acceptors,
            final(self).apaxos.quorum_set == old(self).apaxos.quorum_set,
            final(self).apaxos.rebuild == old(self).apaxos.rebuild,
            old(self).apaxos.transport.events().is_prefix_of(final(self).apaxos.transport.events()),
            phase2_ran::<T, Q, D>(
                old(self).apaxos.quorum_set,
                old(self).apaxos.rebuild,
                old(self).time,
                old(self).decided@,
                listing(old(self).apaxos.acceptor_ids()),
                old(self).granted@.dom(),
                final(self).apaxos.transport.events().skip(
                    old(self).apaxos.transport.events().len() as int,
                ),
                r,
            ),
            !old(self).apaxos.rebuild.can_distribute_spec(
                old(self).decided.data.deep_view(),
                listing(old(self).apaxos.acceptor_ids()),
            ) ==> final(self).granted == old(self).granted,
            old(self).apaxos.rebuild.can_distribute_spec(
                old(self).decided.data.deep_view(),
                listing(old(self).apaxos.acceptor_ids()),
            ) ==> final(self).granted@.dom() == granted_after(
                old(self).granted@.dom(),
                final(self).apaxos.transport.events().skip(
                    old(self).apaxos.transport.events().len() as int,
                ).skip(
                    phase2_requests(
                        listing(old(self).apaxos.acceptor_ids()),
                        old(self).time,
                        old(self).decided.propose_time,
                        old(self).apaxos.rebuild.distribute_spec(
                            old(self).decided.data.deep_view(),
                            listing(old(self).apaxos.acceptor_ids()),
                        ),
                    ).len() as int,
                ),
            ),
    {
        let ids = keys_of(&self.apaxos.acceptors);
        let value = self.decided.data.clone_value();
        if !self.apaxos.rebuild.can_distribute(&value, &ids) {
            proof {
                let evs = self.apaxos.transport.events();
                assert(evs.take(evs.len() as int) =~= evs);
                assert(evs.skip(evs.len() as int) =~= Seq::<
                    NetEvent<T::Time, <T::Part as DeepView>::V>,
                >::empty());
            }
            return Err(ProposeError::Undistributable);
        }
        let parts = self.apaxos.rebuild.distribute(value, &ids);
        let ghost requests = phase2_requests(
            ids@,
            self.time,
            self.decided.propose_time,
            values_view(parts@),
        );
        let ghost before = self.apaxos.transport.events();
        let n = if ids.len() <= parts.len() {
            ids.len()
        } else {
            parts.len()
        };
        let mut sent: usize = 0;
        for i in 0..n
            invariant
                sent == i,
                n <= ids.len(),
                n <= parts.len(),
                n == requests.len(),
                requests == phase2_requests(
                    ids@,
                    old(self).time,
                    old(self).decided.propose_time,
                    values_view(parts@),
                ),
                before == old(self).apaxos.transport.events(),
                self.apaxos.transport.events() == before + requests.take(i as int),
                self.time == old(self).time,
                self.apaxos.transport.inv(),
                *final(self.apaxos) == *final(old(self).apaxos),
                self.decided == old(self).decided,
                self.granted == old(self).granted,
                self.apaxos.acceptors == old(self).apaxos.acceptors,
                self.apaxos.quorum_set == old(self).apaxos.quorum_set,
                self.apaxos.rebuild == old(self).apaxos.rebuild,
        {
            let p = Proposal::new(self.decided.propose_time, parts[i].clone_value());
            self.apaxos.transport.send_phase2_request(ids[i], self.time, p);
            assert(requests.take(i + 1) =~= requests.take(i as int).push(requests[i as int]));
            sent = sent + 1;
        }
        assert(requests.take(n as int) == requests);
        let ghost header = self.apaxos.transport.events();
        assert(header.take(header.len() as int) == header);
        assert(header.skip(header.len() as int) =~= Seq::<
            NetEvent<T::Time, <T::Part as DeepView>::V>,
        >::empty());
        let mut k: usize = 0;
        let ghost mut got_none = false;
        while k < sent
            invariant_except_break
                !got_none,
            invariant
                k <= sent,
                got_none ==> k < sent,
                sent == requests.len(),
                header == old(self).apaxos.transport.events() + requests,
                old(self).apaxos.rebuild.can_distribute_spec(
                    old(self).decided.data.deep_view(),
                    listing(old(self).apaxos.acceptor_ids()),
                ),
                requests == phase2_requests(
                    listing(old(self).apaxos.acceptor_ids()),
                    old(self).time,
                    old(self).decided.propose_time,
                    old(self).apaxos.rebuild.distribute_spec(
                        old(self).decided.data.deep_view(),
                        listing(old(self).apaxos.acceptor_ids()),
                    ),
                ),
                self.apaxos.transport.events().take(header.len() as int) == header,
                self.apaxos.transport.events().len() == header.len() + k + if got_none {
                    1int
                } else {
                    0int
                },
                forall|i: int|
                    0 <= i < k ==> #[trigger] self.apaxos.transport.events().skip(
                        header.len() as int,
                    )[i] is Phase2Reply,
                got_none ==> self.apaxos.transport.events().skip(header.len() as int)[k as int] is Phase2NoReply,
                self.granted@.dom() == granted_after(
                    old(self).granted@.dom(),
                    self.apaxos.transport.events().skip(header.len() as int),
                ),
                forall|j: int|
                    1 <= j <= k ==> !old(self).apaxos.quorum_set.write_quorum_spec(
                        listing(
                            #[trigger] granted_after(
                                old(self).granted@.dom(),
                                self.apaxos.transport.events().skip(header.len() as int).take(j),
                            ),
                        ),
                    ),
                self.time == old(self).time,
                self.apaxos.transport.inv(),
                *final(self.apaxos) == *final(old(self).apaxos),
                self.decided == old(self).decided,
                self.apaxos.acceptors == old(self).apaxos.acceptors,
                self.apaxos.quorum_set == old(self).apaxos.quorum_set,
                self.apaxos.rebuild == old(self).apaxos.rebuild,
            ensures
                got_none || k == sent,
            decreases sent - k,
        {
            let ghost events_before = self.apaxos.transport.events();
            match self.apaxos.transport.recv_phase2_reply() {
                None => {
                    proof {
                        let replies = self.apaxos.transport.events().skip(header.len() as int);
                        let replies_before = events_before.skip(header.len() as int);
                        assert(replies =~= replies_before.push(NetEvent::Phase2NoReply));
                        assert(replies.drop_last() == replies_before);
                        assert(self.apaxos.transport.events().take(header.len() as int) =~= header);
                        assert forall|j: int| 1 <= j <= k implies #[trigger] replies.take(j)
                            == replies_before.take(j) by {
                            assert(replies.take(j) =~= replies_before.take(j));
                        }
                        got_none = true;
                    }
                    break;
                },
                Some((target, is_accepted)) => {
                    let ghost ev = NetEvent::Phase2Reply(target, is_accepted);
                    let ghost replies = self.apaxos.transport.events().skip(header.len() as int);
                    let ghost replies_before = events_before.skip(header.len() as int);
                    assert(replies =~= replies_before.push(ev));
                    assert(replies.drop_last() == replies_before);
                    assert(replies.last() == ev);
                    assert(replies.take(k + 1) == replies);
                    assert forall|j: int| 1 <= j <= k implies #[trigger] replies.take(j)
                        == replies_before.take(j) by {
                        assert(replies.take(j) =~= replies_before.take(j));
                    }
                    assert(self.apaxos.transport.events().take(header.len() as int) =~= header);
                    let ghost granted_before = self.granted@;
                    let quorum = self.handle_reply(target, is_accepted);
                    assert(self.granted@.dom() =~= granted_after(old(self).granted@.dom(), replies));
                    if quorum {
                        proof {
                            crate::apaxos::proposer::lemma_log_split(
                                old(self).apaxos.transport.events(),
                                requests,
                                self.apaxos.transport.events(),
                            );
                        }
                        return Ok(self.decided.clone());
                    }
                },
            }
            k = k + 1;
        }
        proof {
            let replies = self.apaxos.transport.events().skip(header.len() as int);
            if !got_none {
                assert(replies.take(k as int) =~= replies);
                if replies.len() > 0 {
                    assert(replies[replies.len() - 1] is Phase2Reply);
                }
            } else {
                assert(replies.take(k as int) =~= replies.drop_last());
                assert(replies[k as int] is Phase2NoReply);
                assert(granted_after(old(self).granted@.dom(), replies) == granted_after(
                    old(self).granted@.dom(),
                    replies.take(k as int),
                ));
            }
            crate::apaxos::proposer::lemma_log_split(
                old(self).apaxos.transport.events(),
                requests,
                self.apaxos.transport.events(),
            );
        }
        Err(ProposeError::NoWriteQuorum)
    }
}

} // verus!
