//! Proposals.
use crate::Types;
use crate::Value;
use vstd::prelude::*;

verus! {

/// A proposal is a value that is proposed by a Proposer.
///
/// `Proposal` is either an entire proposal or a part of a proposal that is
/// stored on an [`Acceptor`](crate::apaxos::acceptor::Acceptor).
#[derive(Debug)]
pub struct Proposal<T: Types, D> {
    /// When the proposal is proposed, i.e. the time of the Proposer that
    /// **created** this proposal. This time won't change once is decided.
    pub propose_time: T::Time,
    /// The data of the proposal: a `T::Value` or a `T::Part`.
    pub data: D,
}

/// What a proposal holds, with its data by its deep view.
pub struct ProposalView<Tm, V> {
    pub propose_time: Tm,
    pub data: V,
}

impl<T: Types, D: DeepView> View for Proposal<T, D> {
    type V = ProposalView<T::Time, D::V>;

    open spec fn view(&self) -> Self::V {
        ProposalView { propose_time: self.propose_time, data: self.data.deep_view() }
    }
}

impl<T: Types, D> Proposal<T, D> {
    pub fn new(propose_time: T::Time, data: D) -> (p: Self)
        ensures
            p.propose_time == propose_time,
            p.data == data,
    {
        Proposal { propose_time, data }
    }
}

impl<T: Types, D: Value> Clone for Proposal<T, D> {
    fn clone(&self) -> (p: Self)
        ensures
            p@ == self@,
    {
        Proposal { propose_time: self.propose_time, data: self.data.clone_value() }
    }
}

} // verus!
