//! Consensus algorithms implemented with Abstract-Paxos.
pub mod paxos;
pub mod two_pc;
pub mod safety;
pub mod rounds;
pub mod direct;
