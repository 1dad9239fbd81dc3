use abstract_paxos::apaxos::acceptor::Acceptor;
use abstract_paxos::apaxos::proposer::Proposer;
use abstract_paxos::commonly_used::quorum_set::majority::Majority;
use abstract_paxos::commonly_used::rebuild::Mirrored;
use abstract_paxos::commonly_used::transport::DirectCall;
use abstract_paxos::implementations::paxos::Paxos;
use abstract_paxos::APaxos;
use std::collections::BTreeMap;

#[test]
fn test_paxos() {
    let acceptor_ids = [1, 2, 3];

    let mut acceptors = BTreeMap::new();
    for id in acceptor_ids {
        acceptors.insert(id, Acceptor::default());
    }

    let quorum_set = Majority::new(acceptor_ids.to_vec());
    let transport = DirectCall::new(acceptors.clone());
    let rebuild = Mirrored::<Paxos>::new();

    let mut apaxos =
        APaxos::<Paxos, _, _, _>::new(acceptor_ids.to_vec(), quorum_set, rebuild, transport);

    let mut proposer = Proposer::new(&mut apaxos, 5, "hello".to_string());
    let committed = proposer.run().unwrap();

    assert_eq!(committed.propose_time, 5);
    assert_eq!(committed.data, "hello".to_string());

    let mut proposer = Proposer::new(&mut apaxos, 6, "world".to_string());
    let committed = proposer.run().unwrap();

    assert_eq!(committed.propose_time, 5);
    assert_eq!(committed.data, "hello".to_string());
}

#[test]
fn paxos_test_paxos() {
    let acceptor_ids = [1, 2, 3];

    let mut acceptors = BTreeMap::new();
    for id in acceptor_ids {
        acceptors.insert(id, Acceptor::default());
    }

    let quorum_set = Majority::new(acceptor_ids.to_vec());
    let transport = DirectCall::new(acceptors.clone());
    let rebuild = Mirrored::<Paxos>::new();

    let mut apaxos =
        APaxos::<Paxos, _, _, _>::new(acceptor_ids.to_vec(), quorum_set, rebuild, transport);

    let mut proposer = Proposer::new(&mut apaxos, 5, "hello".to_string());
    let committed = proposer.run().unwrap();

    assert_eq!(committed.data, "hello".to_string());

    let mut proposer = Proposer::new(&mut apaxos, 6, "world".to_string());
    let committed = proposer.run().unwrap();

    assert_eq!(committed.data, "hello".to_string());
}
