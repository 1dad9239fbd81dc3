//! A transport that calls the acceptors directly.
use crate::apaxos::acceptor::Acceptor;
use crate::apaxos::acceptor::AcceptorView;
use crate::apaxos::greater_equal::GreaterEqual;
use crate::apaxos::proposal::Proposal;
use crate::NetEvent;
use crate::Transport;
use crate::Types;
use std::collections::BTreeMap;
use vstd::prelude::*;

verus! {

broadcast use vstd::std_specs::btree::group_btree_axioms;

/// The acceptors, by id, after the requests among `log` reached them in
/// order, starting from `start`. A request to an id that has no acceptor
/// changes nothing.
pub open spec fn replay<Tm: GreaterEqual, V>(
    start: Map<u64, AcceptorView<Tm, V>>,
    log: Seq<NetEvent<Tm, V>>,
) -> Map<u64, AcceptorView<Tm, V>>
    decreases log.len(),
{
    if log.len() == 0 {
        start
    } else {
        let c = replay(start, log.drop_last());
        match log.last() {
            NetEvent::Phase1Request(id, t) => if c.contains_key(id) {
                c.insert(id, c[id].after_phase1(t))
            } else {
                c
            },
            NetEvent::Phase2Request(id, t, p) => if c.contains_key(id) {
                c.insert(id, c[id].after_phase2(t, p))
            } else {
                c
            },
            _ => c,
        }
    }
}

/// The phase-1 replies that the requests among `log` produced, in order:
/// the state each acceptor reached at its request.
pub open spec fn phase1_made<Tm: GreaterEqual, V>(
    start: Map<u64, AcceptorView<Tm, V>>,
    log: Seq<NetEvent<Tm, V>>,
) -> Seq<(u64, AcceptorView<Tm, V>)>
    decreases log.len(),
{
    if log.len() == 0 {
        Seq::empty()
    } else {
        let made = phase1_made(start, log.drop_last());
        let c = replay(start, log.drop_last());
        match log.last() {
            NetEvent::Phase1Request(id, t) => if c.contains_key(id) {
                made.push((id, c[id].after_phase1(t)))
            } else {
                made
            },
            _ => made,
        }
    }
}

/// The phase-2 replies that the requests among `log` produced since its
/// last phase-1 request, in order: whether each acceptor accepted.
pub open spec fn phase2_made<Tm: GreaterEqual, V>(
    start: Map<u64, AcceptorView<Tm, V>>,
    log: Seq<NetEvent<Tm, V>>,
) -> Seq<(u64, bool)>
    decreases log.len(),
{
    if log.len() == 0 {
        Seq::empty()
    } else {
        let made = phase2_made(start, log.drop_last());
        let c = replay(start, log.drop_last());
        match log.last() {
            NetEvent::Phase1Request(_, _) => Seq::empty(),
            NetEvent::Phase2Request(id, t, p) => if c.contains_key(id) {
                made.push((id, c[id].accepts_phase2(t)))
            } else {
                made
            },
            _ => made,
        }
    }
}

/// The phase-1 replies handed out among `log`, in order.
pub open spec fn phase1_given<Tm, V>(log: Seq<NetEvent<Tm, V>>) -> Seq<(u64, AcceptorView<Tm, V>)>
    decreases log.len(),
{
    if log.len() == 0 {
        Seq::empty()
    } else {
        let given = phase1_given(log.drop_last());
        match log.last() {
            NetEvent::Phase1Reply(id, a) => given.push((id, a)),
            _ => given,
        }
    }
}

/// The phase-2 replies handed out among `log` since its last phase-1
/// request, in order.
pub open spec fn phase2_given<Tm, V>(log: Seq<NetEvent<Tm, V>>) -> Seq<(u64, bool)>
    decreases log.len(),
{
    if log.len() == 0 {
        Seq::empty()
    } else {
        let given = phase2_given(log.drop_last());
        match log.last() {
            NetEvent::Phase1Request(_, _) => Seq::empty(),
            NetEvent::Phase2Reply(id, ok) => given.push((id, ok)),
            _ => given,
        }
    }
}

/// Whenever the transport logged that it had no reply of a phase to hand
/// out, every reply of that phase made so far had been handed out.
pub open spec fn drained_when_no_reply<Tm: GreaterEqual, V>(
    start: Map<u64, AcceptorView<Tm, V>>,
    log: Seq<NetEvent<Tm, V>>,
) -> bool {
    forall|k: int|
        0 <= k < log.len() ==> (#[trigger] log[k] is Phase1NoReply ==> phase1_made(
            start,
            log.take(k),
        ).len() == phase1_given(log.take(k)).len()) && (log[k] is Phase2NoReply ==> phase2_made(
            start,
            log.take(k),
        ).len() == phase2_given(log.take(k)).len())
}

/// The views of acceptors by id.
pub open spec fn acceptor_views<T: Types>(m: Map<u64, Acceptor<T>>) -> Map<
    u64,
    AcceptorView<T::Time, <T::Part as DeepView>::V>,
> {
    m.map_values(|a: Acceptor<T>| a@)
}

/// The views of id-tagged acceptors.
pub open spec fn tagged_views<T: Types>(s: Seq<(u64, Acceptor<T>)>) -> Seq<
    (u64, AcceptorView<T::Time, <T::Part as DeepView>::V>),
> {
    s.map_values(|e: (u64, Acceptor<T>)| (e.0, e.1@))
}

/// A transport in which every request is handled at once by an acceptor
/// held in memory; its replies wait in first-in first-out queues.
///
/// A request to an id that has no acceptor gets no reply. Phase-2 replies
/// still waiting when a phase-1 request is sent are dropped: they answer a
/// proposer that has finished.
pub struct DirectCall<T: Types> {
    acceptors: BTreeMap<u64, Acceptor<T>>,
    phase1_replies: Vec<(u64, Acceptor<T>)>,
    phase2_replies: Vec<(u64, bool)>,
    /// The requests sent and the replies handed out so far.
    log: Ghost<Seq<NetEvent<T::Time, <T::Part as DeepView>::V>>>,
    /// The acceptors as they were when the transport was made.
    start: Ghost<Map<u64, AcceptorView<T::Time, <T::Part as DeepView>::V>>>,
}

impl<T: Types> DirectCall<T> {
    /// The acceptors held, by id.
    pub closed spec fn held(&self) -> Map<u64, Acceptor<T>> {
        self.acceptors@
    }

    /// The phase-1 replies waiting to be handed out, in order.
    pub closed spec fn phase1_queue(&self) -> Seq<(u64, Acceptor<T>)> {
        self.phase1_replies@
    }

    /// The phase-2 replies waiting to be handed out, in order.
    pub closed spec fn phase2_queue(&self) -> Seq<(u64, bool)> {
        self.phase2_replies@
    }

    /// The acceptors held, by id.
    pub fn acceptors(&self) -> (m: &BTreeMap<u64, Acceptor<T>>)
        ensures
            m@ == self.held(),
    {
        &self.acceptors
    }

    /// The acceptors as they were when the transport was made.
    pub closed spec fn initial_acceptors(&self) -> Map<
        u64,
        AcceptorView<T::Time, <T::Part as DeepView>::V>,
    > {
        self.start@
    }

    pub fn new(acceptors: BTreeMap<u64, Acceptor<T>>) -> (d: Self)
        ensures
            d.held() == acceptors@,
            d.phase1_queue().len() == 0,
            d.phase2_queue().len() == 0,
            d.events().len() == 0,
            d.initial_acceptors() == acceptor_views(acceptors@),
            d.inv(),
    {
        DirectCall {
            acceptors,
            phase1_replies: Vec::new(),
            phase2_replies: Vec::new(),
            log: Ghost(Seq::empty()),
            start: Ghost(acceptor_views(acceptors@)),
        }
    }
}

impl<T: Types> Transport<T> for DirectCall<T> {
    closed spec fn events(&self) -> Seq<NetEvent<T::Time, <T::Part as DeepView>::V>> {
        self.log@
    }

    /// The acceptors are what the requests logged made of them; every reply
    /// they made has been handed out, dropped, or waits in its queue, in
    /// order; and it had no reply to hand out only when none was waiting.
    open spec fn inv(&self) -> bool {
        &&& acceptor_views(self.held()) == replay(self.initial_acceptors(), self.events())
        &&& phase1_made(self.initial_acceptors(), self.events()) == phase1_given(self.events())
            + tagged_views(self.phase1_queue())
        &&& phase2_made(self.initial_acceptors(), self.events()) == phase2_given(self.events())
            + self.phase2_queue()
        &&& drained_when_no_reply(self.initial_acceptors(), self.events())
    }

    fn send_phase1_request(&mut self, target: u64, t: T::Time)
        ensures
            old(self).held().contains_key(target) ==> {
                &&& final(self).held().dom() == old(self).held().dom()
                &&& final(self).held()[target]@ == old(self).held()[target]@.after_phase1(t)
                &&& forall|k: u64|
                    k != target && #[trigger] old(self).held().contains_key(k)
                        ==> final(self).held()[k] == old(self).held()[k]
                &&& final(self).phase1_queue().len() == old(self).phase1_queue().len() + 1
                &&& final(self).phase1_queue().drop_last() == old(self).phase1_queue()
                &&& final(self).phase1_queue().last().0 == target
                &&& final(self).phase1_queue().last().1@ == final(self).held()[target]@
            },
            !old(self).held().contains_key(target) ==> {
                &&& final(self).held() == old(self).held()
                &&& final(self).phase1_queue() == old(self).phase1_queue()
            },
            final(self).phase2_queue().len() == 0,
    {
        let ghost log = self.log@;
        proof {
            crate::order::lemma_ids_ordered();
            self.log@ = self.log@.push(NetEvent::Phase1Request(target, t));
            assert(self.log@.drop_last() == log);
            lemma_drained_push(self.start@, log, NetEvent::Phase1Request(target, t));
        }
        self.phase2_replies = Vec::new();
        assert(phase2_made(self.start@, self.log@) =~= phase2_given(self.log@)
            + self.phase2_replies@);
        if !self.acceptors.contains_key(&target) {
            return;
        }
        match self.acceptors.remove(&target) {
            Some(mut acceptor) => {
                let reply = acceptor.handle_phase1_request(t);
                self.acceptors.insert(target, acceptor);
                self.phase1_replies.push((target, reply));
                assert(self.acceptors@.dom() =~= old(self).held().dom());
                proof {
                    assert(acceptor_views(self.acceptors@) =~= acceptor_views(
                        old(self).held(),
                    ).insert(target, acceptor@));
                    assert(tagged_views(self.phase1_replies@) =~= tagged_views(
                        old(self).phase1_queue(),
                    ).push((target, reply@)));
                }
            },
            None => {},
        }
    }

    fn recv_phase1_reply(&mut self) -> (reply: Option<(u64, Acceptor<T>)>)
        ensures
            old(self).phase1_queue().len() == 0 ==> reply is None && final(self).held() == old(
                self,
            ).held() && final(self).phase1_queue() == old(self).phase1_queue()
                && final(self).phase2_queue() == old(self).phase2_queue(),
            old(self).phase1_queue().len() > 0 ==> {
                &&& reply == Some(old(self).phase1_queue()[0])
                &&& final(self).phase1_queue() == old(self).phase1_queue().drop_first()
                &&& final(self).held() == old(self).held()
                &&& final(self).phase2_queue() == old(self).phase2_queue()
            },
    {
        let ghost log = self.log@;
        if self.phase1_replies.len() == 0 {
            proof {
                self.log@ = self.log@.push(NetEvent::Phase1NoReply);
                assert(self.log@.drop_last() == log);
                assert(tagged_views(self.phase1_replies@) =~= Seq::empty());
                assert(phase1_given(log) + tagged_views(self.phase1_replies@) =~= phase1_given(log));
                lemma_drained_push(self.start@, log, NetEvent::Phase1NoReply);
            }
            None
        } else {
            let reply = self.phase1_replies.remove(0);
            proof {
                self.log@ = self.log@.push(NetEvent::Phase1Reply(reply.0, reply.1@));
                assert(self.log@.drop_last() == log);
                assert(tagged_views(old(self).phase1_queue()) =~= seq![(reply.0, reply.1@)]
                    + tagged_views(self.phase1_replies@));
                assert(phase1_given(self.log@) + tagged_views(self.phase1_replies@)
                    =~= phase1_given(log) + tagged_views(old(self).phase1_queue()));
                lemma_drained_push(self.start@, log, NetEvent::Phase1Reply(reply.0, reply.1@));
            }
            Some(reply)
        }
    }

    fn send_phase2_request(&mut self, target: u64, t: T::Time, proposal: Proposal<T, T::Part>)
        ensures
            old(self).held().contains_key(target) ==> {
                &&& final(self).held().dom() == old(self).held().dom()
                &&& final(self).held()[target]@ == old(self).held()[target]@.after_phase2(
                    t,
                    proposal@,
                )
                &&& forall|k: u64|
                    k != target && #[trigger] old(self).held().contains_key(k)
                        ==> final(self).held()[k] == old(self).held()[k]
                &&& final(self).phase2_queue() == old(self).phase2_queue().push(
                    (target, old(self).held()[target]@.accepts_phase2(t)),
                )
            },
            !old(self).held().contains_key(target) ==> {
                &&& final(self).held() == old(self).held()
                &&& final(self).phase2_queue() == old(self).phase2_queue()
            },
            final(self).phase1_queue() == old(self).phase1_queue(),
    {
        let ghost log = self.log@;
        proof {
            crate::order::lemma_ids_ordered();
            self.log@ = self.log@.push(NetEvent::Phase2Request(target, t, proposal@));
            assert(self.log@.drop_last() == log);
            lemma_drained_push(self.start@, log, NetEvent::Phase2Request(target, t, proposal@));
        }
        if !self.acceptors.contains_key(&target) {
            return;
        }
        match self.acceptors.remove(&target) {
            Some(mut acceptor) => {
                let ok = acceptor.handle_phase2_request(t, proposal);
                self.acceptors.insert(target, acceptor);
                self.phase2_replies.push((target, ok));
                assert(self.acceptors@.dom() =~= old(self).held().dom());
                proof {
                    assert(acceptor_views(self.acceptors@) =~= acceptor_views(
                        old(self).held(),
                    ).insert(target, acceptor@));
                    assert(phase2_given(log) + self.phase2_replies@ =~= (phase2_given(log)
                        + old(self).phase2_queue()).push((target, ok)));
                }
            },
            None => {},
        }
    }

    fn recv_phase2_reply(&mut self) -> (reply: Option<(u64, bool)>)
        ensures
            old(self).phase2_queue().len() == 0 ==> reply is None && final(self).held() == old(
                self,
            ).held() && final(self).phase1_queue() == old(self).phase1_queue()
                && final(self).phase2_queue() == old(self).phase2_queue(),
            old(self).phase2_queue().len() > 0 ==> {
                &&& reply == Some(old(self).phase2_queue()[0])
                &&& final(self).phase2_queue() == old(self).phase2_queue().drop_first()
                &&& final(self).held() == old(self).held()
                &&& final(self).phase1_queue() == old(self).phase1_queue()
            },
    {
        let ghost log = self.log@;
        if self.phase2_replies.len() == 0 {
            proof {
                self.log@ = self.log@.push(NetEvent::Phase2NoReply);
                assert(self.log@.drop_last() == log);
                assert(phase2_given(log) + self.phase2_replies@ =~= phase2_given(log));
                lemma_drained_push(self.start@, log, NetEvent::Phase2NoReply);
            }
            None
        } else {
            let reply = self.phase2_replies.remove(0);
            proof {
                self.log@ = self.log@.push(NetEvent::Phase2Reply(reply.0, reply.1));
                assert(self.log@.drop_last() == log);
                assert(old(self).phase2_queue() =~= seq![reply] + self.phase2_replies@);
                assert(phase2_given(self.log@) + self.phase2_replies@ =~= phase2_given(log)
                    + old(self).phase2_queue());
                lemma_drained_push(self.start@, log, NetEvent::Phase2Reply(reply.0, reply.1));
            }
            Some(reply)
        }
    }
}

/// Logging one more event keeps what was true of the earlier ones; a
/// no-reply event is logged only when nothing of its phase is waiting.
pub proof fn lemma_drained_push<Tm: GreaterEqual, V>(
    start: Map<u64, AcceptorView<Tm, V>>,
    log: Seq<NetEvent<Tm, V>>,
    e: NetEvent<Tm, V>,
)
    requires
        drained_when_no_reply(start, log),
        e is Phase1NoReply ==> phase1_made(start, log).len() == phase1_given(log).len(),
        e is Phase2NoReply ==> phase2_made(start, log).len() == phase2_given(log).len(),
    ensures
        drained_when_no_reply(start, log.push(e)),
{
    let l2 = log.push(e);
    assert forall|k: int| 0 <= k < l2.len() implies (#[trigger] l2[k] is Phase1NoReply
        ==> phase1_made(start, l2.take(k)).len() == phase1_given(l2.take(k)).len()) && (
    l2[k] is Phase2NoReply ==> phase2_made(start, l2.take(k)).len() == phase2_given(
        l2.take(k),
    ).len()) by {
        if k < log.len() {
            assert(l2.take(k) == log.take(k));
            assert(l2[k] == log[k]);
        } else {
            assert(l2.take(k) == log);
        }
    }
}

/// What the invariant of a `DirectCall` gives of its log: it hands out
/// the replies in the order they were made, it had no reply to hand out
/// only when none was waiting, and with a queue empty every reply of that
/// phase made (since the last phase-1 request, for phase 2) has been
/// handed out.
pub proof fn lemma_direct_call_replies<T: Types>(dc: DirectCall<T>)
    requires
        dc.inv(),
    ensures
        phase1_given(dc.events()).is_prefix_of(phase1_made(dc.initial_acceptors(), dc.events())),
        phase2_given(dc.events()).is_prefix_of(phase2_made(dc.initial_acceptors(), dc.events())),
        drained_when_no_reply(dc.initial_acceptors(), dc.events()),
        dc.phase1_queue().len() == 0 ==> phase1_made(dc.initial_acceptors(), dc.events())
            == phase1_given(dc.events()),
        dc.phase2_queue().len() == 0 ==> phase2_made(dc.initial_acceptors(), dc.events())
            == phase2_given(dc.events()),
{
    let g1 = phase1_given(dc.events());
    let g2 = phase2_given(dc.events());
    assert(g1 =~= (g1 + tagged_views(dc.phase1_queue())).subrange(0, g1.len() as int));
    assert(g2 =~= (g2 + dc.phase2_queue()).subrange(0, g2.len() as int));
    if dc.phase1_queue().len() == 0 {
        assert(g1 + tagged_views(dc.phase1_queue()) =~= g1);
    }
    if dc.phase2_queue().len() == 0 {
        assert(g2 + dc.phase2_queue() =~= g2);
    }
}

} // verus!
