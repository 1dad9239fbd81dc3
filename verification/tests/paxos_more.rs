use abstract_paxos::apaxos::acceptor::Acceptor;
use abstract_paxos::apaxos::proposer::ProposeError;
use abstract_paxos::apaxos::proposer::Proposer;
use abstract_paxos::commonly_used::quorum_set::majority::Majority;
use abstract_paxos::commonly_used::rebuild::Mirrored;
use abstract_paxos::commonly_used::transport::DirectCall;
use abstract_paxos::implementations::paxos::Paxos;
use abstract_paxos::APaxos;
use std::collections::BTreeMap;

fn cluster(
    ids: &[u64],
    with_acceptors: &[u64],
) -> APaxos<Paxos, Majority<Paxos>, Mirrored<Paxos>, DirectCall<Paxos>> {
    let mut acceptors = BTreeMap::new();
    for id in with_acceptors {
        acceptors.insert(*id, Acceptor::default());
    }
    APaxos::new(
        ids.to_vec(),
        Majority::new(ids.to_vec()),
        Mirrored::new(),
        DirectCall::new(acceptors),
    )
}

#[test]
fn first_proposer_commits_its_own_value() {
    let mut apaxos = cluster(&[1, 2, 3, 4, 5], &[1, 2, 3, 4, 5]);
    let committed = Proposer::new(&mut apaxos, 3, "a".to_string()).run().unwrap();
    assert_eq!(committed.propose_time, 3);
    assert_eq!(committed.data, "a");
    for id in 1..=5u64 {
        let a = &apaxos.transport.acceptors()[&id];
        assert_eq!(a.time, 3);
        let accepted = a.accepted.as_ref().unwrap();
        assert_eq!(accepted.accept_time, 3);
        assert_eq!(accepted.proposal.propose_time, 3);
        assert_eq!(accepted.proposal.data, "a");
    }
}

#[test]
fn later_proposers_commit_the_committed_value() {
    let mut apaxos = cluster(&[1, 2, 3], &[1, 2, 3]);
    Proposer::new(&mut apaxos, 5, "hello".to_string()).run().unwrap();
    for (t, v) in [(6u64, "world"), (9, "again"), (100, "late")] {
        let committed = Proposer::new(&mut apaxos, t, v.to_string()).run().unwrap();
        assert_eq!(committed.propose_time, 5);
        assert_eq!(committed.data, "hello");
        assert_eq!(apaxos.transport.acceptors()[&1].accepted.as_ref().unwrap().accept_time, t);
    }
}

#[test]
fn an_earlier_proposer_is_refused_in_phase1() {
    let mut apaxos = cluster(&[1, 2, 3], &[1, 2, 3]);
    Proposer::new(&mut apaxos, 5, "hello".to_string()).run().unwrap();
    let r = Proposer::new(&mut apaxos, 4, "old".to_string()).run();
    assert_eq!(r.err(), Some(ProposeError::NoReadQuorum));
    // the acceptors keep their promise and what they accepted
    assert_eq!(apaxos.transport.acceptors()[&2].time, 5);
    assert_eq!(apaxos.transport.acceptors()[&2].accepted.as_ref().unwrap().proposal.data, "hello");
}

#[test]
fn a_minority_of_reachable_acceptors_is_no_quorum() {
    // only acceptor 1 exists in the transport: the others never reply
    let mut apaxos = cluster(&[1, 2, 3], &[1]);
    let r = Proposer::new(&mut apaxos, 1, "x".to_string()).run();
    assert_eq!(r.err(), Some(ProposeError::NoReadQuorum));
}

#[test]
fn a_majority_of_reachable_acceptors_is_enough() {
    let mut apaxos = cluster(&[1, 2, 3], &[1, 3]);
    let committed = Proposer::new(&mut apaxos, 1, "x".to_string()).run().unwrap();
    assert_eq!(committed.data, "x");
    assert!(!apaxos.transport.acceptors().contains_key(&2));
}

#[test]
fn an_empty_cluster_has_no_read_quorum() {
    let mut apaxos = cluster(&[], &[]);
    let r = Proposer::new(&mut apaxos, 1, "x".to_string()).run();
    assert_eq!(r.err(), Some(ProposeError::NoReadQuorum));
}

#[test]
fn a_value_accepted_by_a_minority_is_taken_over_when_seen() {
    // acceptor 1 accepted "old" at ballot 2; the others saw nothing.
    let mut acceptors = BTreeMap::new();
    let mut a1: Acceptor<Paxos> = Acceptor::default();
    let granted = a1.handle_phase2_request(
        2,
        abstract_paxos::apaxos::proposal::Proposal::new(2, "old".to_string()),
    );
    assert!(granted);
    acceptors.insert(1u64, a1);
    acceptors.insert(2u64, Acceptor::default());
    acceptors.insert(3u64, Acceptor::default());
    let mut apaxos = APaxos::new(
        vec![1, 2, 3],
        Majority::new(vec![1, 2, 3]),
        Mirrored::<Paxos>::new(),
        DirectCall::new(acceptors),
    );
    // phase-1 hears acceptor 1 first: its accepted value is rebuilt
    let committed = Proposer::new(&mut apaxos, 7, "new".to_string()).run().unwrap();
    assert_eq!(committed.propose_time, 2);
    assert_eq!(committed.data, "old");
}
