//! What an acceptor has accepted.
use crate::apaxos::proposal::Proposal;
use crate::apaxos::proposal::ProposalView;
use crate::Types;
use vstd::prelude::*;

verus! {

/// The state that is accepted by an [`Acceptor`](crate::apaxos::acceptor::Acceptor).
#[derive(Debug)]
pub struct Accepted<T: Types> {
    /// When the proposal is accepted.
    ///
    /// I.e., the time of the Proposer that **replicated** the value.
    /// In other words, it increases every time a new proposer replicates the
    /// value.
    pub accept_time: T::Time,
    /// The proposal data that is accepted by the acceptor.
    pub proposal: Proposal<T, T::Part>,
}

pub struct AcceptedView<Tm, V> {
    pub accept_time: Tm,
    pub proposal: ProposalView<Tm, V>,
}

impl<T: Types> View for Accepted<T> {
    type V = AcceptedView<T::Time, <T::Part as DeepView>::V>;

    open spec fn view(&self) -> Self::V {
        AcceptedView { accept_time: self.accept_time, proposal: self.proposal@ }
    }
}

impl<T: Types> Clone for Accepted<T> {
    fn clone(&self) -> (a: Self)
        ensures
            a@ == self@,
    {
        Accepted { accept_time: self.accept_time, proposal: self.proposal.clone() }
    }
}

} // verus!
