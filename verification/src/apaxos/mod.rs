//! The core of Abstract-Paxos: proposals, acceptors and proposers.
pub mod accepted;
pub mod acceptor;
pub mod greater_equal;
pub mod proposal;
pub mod proposer;
pub mod ptime;
