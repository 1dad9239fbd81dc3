//! Acceptors.
use crate::apaxos::accepted::Accepted;
use crate::apaxos::accepted::AcceptedView;
use crate::apaxos::greater_equal::GreaterEqual;
use crate::apaxos::proposal::Proposal;
use crate::apaxos::proposal::ProposalView;
use crate::apaxos::ptime::Time;
use crate::Types;
use vstd::prelude::*;

verus! {

/// An acceptor: the time it has promised, and what it has accepted.
#[derive(Debug)]
pub struct Acceptor<T: Types> {
    /// The time it has seen so far, i.e., the current time.
    pub time: T::Time,
    /// The state that is accepted by this acceptor.
    pub accepted: Option<Accepted<T>>,
}

pub struct AcceptorView<Tm, V> {
    pub time: Tm,
    pub accepted: Option<AcceptedView<Tm, V>>,
}

impl<T: Types> View for Acceptor<T> {
    type V = AcceptorView<T::Time, <T::Part as DeepView>::V>;

    open spec fn view(&self) -> Self::V {
        AcceptorView {
            time: self.time,
            accepted: match self.accepted {
                Some(a) => Some(a@),
                None => None,
            },
        }
    }
}

impl<Tm: GreaterEqual, V> AcceptorView<Tm, V> {
    /// The acceptor after a phase-1 request at time `now`: it moves its time
    /// to `now` if `now` overrules it.
    pub open spec fn after_phase1(self, now: Tm) -> Self {
        if now.ge_spec(&self.time) {
            AcceptorView { time: now, accepted: self.accepted }
        } else {
            self
        }
    }

    /// Whether a phase-2 request at time `t` is accepted.
    pub open spec fn accepts_phase2(self, t: Tm) -> bool {
        t.ge_spec(&self.time)
    }

    /// The acceptor after a phase-2 request at time `t` for `proposal`.
    pub open spec fn after_phase2(self, t: Tm, proposal: ProposalView<Tm, V>) -> Self {
        if self.accepts_phase2(t) {
            AcceptorView {
                time: t,
                accepted: Some(AcceptedView { accept_time: t, proposal: proposal }),
            }
        } else {
            self
        }
    }
}

/// Whether what an acceptor has accepted was accepted at or before its time.
pub open spec fn accepted_no_later<V>(a: AcceptorView<u64, V>) -> bool {
    a.accepted matches Some(x) ==> x.accept_time <= a.time
}

/// With ballot numbers for time, handling a phase-1 or a phase-2 request
/// never moves an acceptor's time back, never moves the accept time of
/// what it holds back, and keeps what it accepted at or before its time.
pub proof fn lemma_acceptor_time_never_decreases<V>(
    a: AcceptorView<u64, V>,
    now: u64,
    proposal: ProposalView<u64, V>,
)
    requires
        accepted_no_later(a),
    ensures
        a.after_phase1(now).time >= a.time,
        a.after_phase2(now, proposal).time >= a.time,
        a.after_phase1(now).accepted == a.accepted,
        a.accepted matches Some(x) ==> a.after_phase2(now, proposal).accepted matches Some(y)
            && y.accept_time >= x.accept_time,
        accepted_no_later(a.after_phase1(now)),
        accepted_no_later(a.after_phase2(now, proposal)),
{
}

impl<T: Types> Default for Acceptor<T> {
    fn default() -> (a: Self)
        ensures
            a.time == T::Time::default_spec(),
            a.accepted is None,
    {
        Acceptor { time: T::Time::default_time(), accepted: None }
    }
}

impl<T: Types> Clone for Acceptor<T> {
    fn clone(&self) -> (a: Self)
        ensures
            a@ == self@,
    {
        let accepted = match &self.accepted {
            Some(a) => Some(a.clone()),
            None => None,
        };
        Acceptor { time: self.time, accepted }
    }
}

impl<T: Types> Acceptor<T> {
    /// Handle a phase-1 request of a proposer at time `now`, and reply with
    /// the acceptor's state.
    pub fn handle_phase1_request(&mut self, now: T::Time) -> (reply: Self)
        ensures
            final(self)@ == old(self)@.after_phase1(now),
            reply@ == final(self)@,
    {
        if now.greater_equal(&self.time) {
            self.time = now;
        }
        self.clone()
    }

    /// Handle a phase-2 request of a proposer at time `t`: accept the
    /// proposal if `t` overrules the acceptor's time.
    pub fn handle_phase2_request(&mut self, t: T::Time, proposal: Proposal<T, T::Part>) -> (ok:
        bool)
        ensures
            ok == old(self)@.accepts_phase2(t),
            final(self)@ == old(self)@.after_phase2(t, proposal@),
    {
        if t.greater_equal(&self.time) {
            self.time = t;
            self.accepted = Some(Accepted { accept_time: t, proposal });
            true
        } else {
            false
        }
    }
}

} // verus!
