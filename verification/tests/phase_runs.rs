use abstract_paxos::apaxos::acceptor::Acceptor;
use abstract_paxos::apaxos::proposal::Proposal;
use abstract_paxos::apaxos::proposer::phase1::Phase1;
use abstract_paxos::apaxos::proposer::phase2::Phase2;
use abstract_paxos::apaxos::proposer::ProposeError;
use abstract_paxos::commonly_used::quorum_set::majority::Majority;
use abstract_paxos::commonly_used::rebuild::Mirrored;
use abstract_paxos::commonly_used::transport::DirectCall;
use abstract_paxos::implementations::paxos::Paxos;
use abstract_paxos::APaxos;
use std::collections::BTreeMap;
use std::collections::BTreeSet;

type Cluster = APaxos<Paxos, Majority<Paxos>, Mirrored<Paxos>, DirectCall<Paxos>>;

fn cluster(acceptors: Vec<(u64, Acceptor<Paxos>)>) -> Cluster {
    let ids: Vec<u64> = acceptors.iter().map(|(id, _)| *id).collect();
    let map: BTreeMap<u64, Acceptor<Paxos>> = acceptors.into_iter().collect();
    APaxos::new(ids.clone(), Majority::new(ids), Mirrored::new(), DirectCall::new(map))
}

fn at(time: u64) -> Acceptor<Paxos> {
    Acceptor { time, accepted: None }
}

fn accepted_at(t: u64, data: &str) -> Acceptor<Paxos> {
    let mut a = Acceptor::default();
    a.handle_phase2_request(t, Proposal::new(t, data.to_string()));
    a
}

#[test]
fn phase2_refused_by_all_is_no_write_quorum() {
    let mut apaxos = cluster(vec![(1, at(9)), (2, at(9)), (3, at(9))]);
    let mut phase2 = Phase2 {
        apaxos: &mut apaxos,
        time: 4,
        decided: Proposal::new(4, "v".to_string()),
        granted: BTreeMap::new(),
    };
    assert_eq!(phase2.run().err(), Some(ProposeError::NoWriteQuorum));
    assert!(phase2.granted.is_empty());
    for id in 1..=3u64 {
        let a = &apaxos.transport.acceptors()[&id];
        assert_eq!(a.time, 9);
        assert!(a.accepted.is_none());
    }
}

#[test]
fn phase2_run_returns_the_decided_proposal() {
    let mut apaxos = cluster(vec![(3, at(0)), (1, at(0)), (2, at(0))]);
    let mut phase2 = Phase2 {
        apaxos: &mut apaxos,
        time: 8,
        decided: Proposal::new(2, "d".to_string()),
        granted: BTreeMap::new(),
    };
    let p = phase2.run().unwrap();
    assert_eq!((p.propose_time, p.data), (2, "d".to_string()));
    // the run stopped at the second acceptance: a majority of three
    assert_eq!(phase2.granted.len(), 2);
    assert!(phase2.granted.contains_key(&1) && phase2.granted.contains_key(&2));
    // every acceptor was handed its part, proposed at the decided time,
    // at the proposer's time
    for id in 1..=3u64 {
        let a = &apaxos.transport.acceptors()[&id];
        assert_eq!(a.time, 8);
        let accepted = a.accepted.as_ref().unwrap();
        assert_eq!(accepted.accept_time, 8);
        assert_eq!(accepted.proposal.propose_time, 2);
        assert_eq!(accepted.proposal.data, "d");
    }
}

#[test]
fn phase2_handle_reply_counts_acceptances() {
    let mut apaxos = cluster(vec![(1, at(0)), (2, at(0)), (3, at(0))]);
    let mut phase2 = Phase2 {
        apaxos: &mut apaxos,
        time: 1,
        decided: Proposal::new(1, "x".to_string()),
        granted: BTreeMap::new(),
    };
    assert!(!phase2.handle_reply(1, true));
    assert!(!phase2.handle_reply(2, false));
    assert!(!phase2.handle_reply(1, true));
    assert!(phase2.handle_reply(3, true));
    assert_eq!(phase2.granted.keys().copied().collect::<Vec<u64>>(), vec![1, 3]);
}

#[test]
fn phase1_rebuilds_the_latest_accepted_proposal() {
    let mut apaxos = cluster(vec![
        (1, accepted_at(3, "a")),
        (2, accepted_at(5, "b")),
        (3, accepted_at(5, "b")),
    ]);
    let mut phase1 = Phase1 {
        apaxos: &mut apaxos,
        time: 6,
        granted: BTreeSet::new(),
        previously_accepted: BTreeMap::new(),
        max_accept_time: 0,
        is_quorum: false,
    };
    let p = phase1.run().unwrap().unwrap();
    assert_eq!((p.propose_time, p.data), (5, "b".to_string()));
    // acceptor 1 (accept time 3) and acceptor 2 (accept time 5) made the quorum
    assert_eq!(phase1.granted.iter().copied().collect::<Vec<u64>>(), vec![1, 2]);
    assert_eq!(phase1.max_accept_time, 5);
    assert!(phase1.is_quorum);
}

#[test]
fn phase1_with_nothing_accepted_finds_nothing() {
    let mut apaxos = cluster(vec![(1, at(0)), (2, at(0)), (3, at(0))]);
    let mut phase1 = Phase1 {
        apaxos: &mut apaxos,
        time: 2,
        granted: BTreeSet::new(),
        previously_accepted: BTreeMap::new(),
        max_accept_time: 0,
        is_quorum: false,
    };
    assert!(matches!(phase1.run(), Ok(None)));
    assert_eq!(phase1.granted.len(), 3);
    assert!(phase1.previously_accepted.is_empty());
}

#[test]
fn phase1_refused_by_later_acceptors_is_no_read_quorum() {
    let mut apaxos = cluster(vec![(1, at(7)), (2, at(7)), (3, at(0))]);
    let mut phase1 = Phase1 {
        apaxos: &mut apaxos,
        time: 5,
        granted: BTreeSet::new(),
        previously_accepted: BTreeMap::new(),
        max_accept_time: 0,
        is_quorum: false,
    };
    assert_eq!(phase1.run().err(), Some(ProposeError::NoReadQuorum));
    assert_eq!(phase1.granted.iter().copied().collect::<Vec<u64>>(), vec![3]);
    assert!(!phase1.is_quorum);
}
