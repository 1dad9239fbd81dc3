use abstract_paxos::apaxos::acceptor::Acceptor;
use abstract_paxos::apaxos::greater_equal::GreaterEqual;
use abstract_paxos::apaxos::proposer::ProposeError;
use abstract_paxos::apaxos::proposer::Proposer;
use abstract_paxos::apaxos::ptime::Time;
use abstract_paxos::commonly_used::quorum_set::all::All;
use abstract_paxos::commonly_used::rebuild::Partitioned;
use abstract_paxos::commonly_used::transport::DirectCall;
use abstract_paxos::implementations::two_pc::TwoPC;
use abstract_paxos::implementations::two_pc::TwoPCTime;
use abstract_paxos::APaxos;
use std::collections::BTreeMap;

fn s(x: &str) -> String {
    x.to_string()
}

fn two_pc_cluster() -> APaxos<TwoPC, All<TwoPC>, Partitioned<TwoPC>, DirectCall<TwoPC>> {
    let acceptor_ids = [1, 2, 3];
    let mut acceptors = BTreeMap::new();
    for id in acceptor_ids {
        acceptors.insert(id, Acceptor::default());
    }
    let quorum_set = All::new(acceptor_ids.to_vec());
    let transport = DirectCall::new(acceptors.clone());
    let rebuild = Partitioned::<TwoPC>::new(acceptor_ids.to_vec());
    APaxos::new(acceptor_ids.to_vec(), quorum_set, rebuild, transport)
}

#[test]
fn two_pc_first_transaction_commits_and_the_second_is_locked_out() {
    let mut apaxos = two_pc_cluster();

    let t1 = TwoPCTime::new(1);
    let mut tx1_data = BTreeMap::new();
    tx1_data.insert(1u64, s("hello"));
    tx1_data.insert(2u64, s("world"));
    tx1_data.insert(3u64, s(""));
    let committed = Proposer::new(&mut apaxos, t1, tx1_data.clone()).run().unwrap();
    assert_eq!(committed.propose_time, t1);
    assert_eq!(committed.data, tx1_data);

    // every acceptor holds its own part of tx1
    assert_eq!(apaxos.transport.acceptors()[&2].accepted.as_ref().unwrap().proposal.data, "world");

    // Tx2 is expected to fail: the resource is locked by tx1.
    let t2 = TwoPCTime::new(2);
    let mut tx2_data = BTreeMap::new();
    tx2_data.insert(1u64, s("bye"));
    tx2_data.insert(2u64, s("planet"));
    tx2_data.insert(3u64, s("earth"));
    let r = Proposer::new(&mut apaxos, t2, tx2_data).run();
    assert_eq!(r.err(), Some(ProposeError::NoReadQuorum));
    assert_eq!(apaxos.transport.acceptors()[&3].time, t1);
}

#[test]
fn two_pc_the_same_transaction_may_run_again() {
    let mut apaxos = two_pc_cluster();
    let t1 = TwoPCTime::new(1);
    let mut data = BTreeMap::new();
    data.insert(1u64, s("a"));
    data.insert(2u64, s("b"));
    data.insert(3u64, s("c"));
    Proposer::new(&mut apaxos, t1, data.clone()).run().unwrap();
    let mut other = BTreeMap::new();
    other.insert(1u64, s("x"));
    other.insert(2u64, s("y"));
    other.insert(3u64, s("z"));
    // a second run of tx1 rebuilds tx1's committed data from all parts
    let committed = Proposer::new(&mut apaxos, t1, other).run().unwrap();
    assert_eq!(committed.data, data);
}

#[test]
fn two_pc_value_without_a_part_for_every_acceptor_is_undistributable() {
    let mut apaxos = two_pc_cluster();
    let mut data = BTreeMap::new();
    data.insert(1u64, s("a"));
    data.insert(2u64, s("b"));
    let r = Proposer::new(&mut apaxos, TwoPCTime::new(1), data).run();
    assert_eq!(r.err(), Some(ProposeError::Undistributable));
}

#[test]
fn two_pc_time_relation() {
    let t1 = TwoPCTime::new(1);
    let t2 = TwoPCTime::new(2);
    let free = TwoPCTime::default_time();
    assert_eq!(free, TwoPCTime { txn_id: 0, locked: false });
    assert!(t1.greater_equal(&t1));
    assert!(!t1.greater_equal(&t2));
    assert!(!t2.greater_equal(&t1));
    assert!(t1.greater_equal(&free));
    assert!(t2.greater_equal(&free));
    // not transitive: 1 >= free(1), free(1) >= 2-unlocked... a cycle
    let u1 = TwoPCTime { txn_id: 1, locked: false };
    let u2 = TwoPCTime { txn_id: 2, locked: false };
    assert!(u1.greater_equal(&u2));
    assert!(u2.greater_equal(&u1));
    assert!(u1 != u2);
    // not transitive: t2 >= u1 and u1 >= t1 (same txn), but not t2 >= t1
    assert!(t2.greater_equal(&u1));
    assert!(u1.greater_equal(&t1));
    assert!(!t2.greater_equal(&t1));
}
