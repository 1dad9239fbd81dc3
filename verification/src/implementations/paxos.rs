//! Implement classic-paxos with abstract-paxos
//!
//! - Time in paxos is the ballot number, a monotonic incremental integer.
//! - The quorum set is a simple [`Majority`].
//! - The network transport is implemented with direct function calls to an
//!   acceptor.
//! - A **maybe committed** value is rebuilt with [`Mirrored`]: every acceptor
//!   holds a copy.
use crate::commonly_used::quorum_set::majority::Majority;
use crate::commonly_used::rebuild::Mirrored;
use crate::commonly_used::transport::DirectCall;
use crate::Types;
use vstd::prelude::*;

verus! {

/// Classic Paxos as an instance of Abstract-Paxos.
#[derive(Debug)]
pub struct Paxos {}

impl Types for Paxos {
    type Time = u64;
    type Value = String;
    type Part = String;
}

} // verus!
