use abstract_paxos::apaxos::accepted::Accepted;
use abstract_paxos::apaxos::acceptor::Acceptor;
use abstract_paxos::apaxos::greater_equal::GreaterEqual;
use abstract_paxos::apaxos::proposal::Proposal;
use abstract_paxos::apaxos::proposer::phase1::Phase1;
use abstract_paxos::apaxos::ptime::Time;
use abstract_paxos::commonly_used::quorum_set::all::All;
use abstract_paxos::commonly_used::quorum_set::majority::Majority;
use abstract_paxos::commonly_used::rebuild::Mirrored;
use abstract_paxos::commonly_used::rebuild::Partitioned;
use abstract_paxos::commonly_used::time::BallotNumber;
use abstract_paxos::commonly_used::transport::DirectCall;
use abstract_paxos::default_impl::rebuild::AcceptedValue;
use abstract_paxos::default_impl::rebuild::Mirror;
use abstract_paxos::ids::elements_of;
use abstract_paxos::ids::keys_of;
use abstract_paxos::implementations::paxos::Paxos;
use abstract_paxos::implementations::two_pc::TwoPC;
use abstract_paxos::APaxos;
use abstract_paxos::Distribute;
use abstract_paxos::QuorumSet;
use abstract_paxos::Transport;
use abstract_paxos::Value;
use std::collections::BTreeMap;
use std::collections::BTreeSet;

#[test]
fn majority_quorums() {
    let m = Majority::<Paxos>::new(vec![1, 2, 3, 4, 5]);
    assert!(!m.is_read_quorum(&vec![1, 2]));
    assert!(m.is_read_quorum(&vec![1, 2, 3]));
    assert!(m.is_read_quorum(&vec![5, 4, 3]));
    // a superset of a quorum is a quorum
    assert!(m.is_read_quorum(&vec![5, 4, 3, 1]));
    // ids outside the cluster do not count
    assert!(!m.is_read_quorum(&vec![1, 2, 6, 7]));
    assert!(m.is_write_quorum(&vec![2, 3, 4]));
    assert!(!m.is_write_quorum(&vec![]));
    // two quorums of five share an acceptor
    let a = vec![1, 2, 3];
    let b = vec![3, 4, 5];
    assert!(m.is_read_quorum(&a) && m.is_write_quorum(&b));
    assert!(a.iter().any(|x| b.contains(x)));
    // four acceptors: three are needed
    let m4 = Majority::<Paxos>::new(vec![1, 2, 3, 4]);
    assert!(!m4.is_read_quorum(&vec![1, 2]));
    assert!(m4.is_read_quorum(&vec![1, 2, 4]));
}

#[test]
fn all_quorums() {
    let q = All::<TwoPC>::new(vec![1, 2, 3]);
    assert!(!q.is_read_quorum(&vec![1, 2]));
    assert!(q.is_read_quorum(&vec![3, 1, 2]));
    assert!(q.is_write_quorum(&vec![1, 2, 3, 9]));
    assert!(!q.is_write_quorum(&vec![1, 2, 9]));
    let empty = All::<TwoPC>::new(vec![]);
    assert!(empty.is_read_quorum(&vec![]));
}

#[test]
fn quorums_count_distinct_acceptors() {
    let m = Majority::<Paxos>::new(vec![1, 2, 3]);
    assert!(!m.is_read_quorum(&vec![1, 1]));
    assert!(!m.is_write_quorum(&vec![2, 2, 2, 9]));
    assert!(m.is_read_quorum(&vec![1, 3, 1]));
    let a = All::<TwoPC>::new(vec![1, 2, 3]);
    assert!(!a.is_read_quorum(&vec![1, 1, 2]));
    assert!(a.is_read_quorum(&vec![2, 3, 3, 1]));
}

#[test]
fn mirrored_round_trip() {
    let d = Mirrored::<Paxos>::new();
    let ids = vec![1, 2, 3];
    assert!(d.can_distribute(&"v".to_string(), &ids));
    let parts = d.distribute("v".to_string(), &ids);
    assert_eq!(parts, vec!["v".to_string(), "v".to_string(), "v".to_string()]);
    let tagged: Vec<(u64, String)> = ids.iter().copied().zip(parts.into_iter()).collect();
    assert_eq!(d.rebuild(&tagged), Some("v".to_string()));
    assert_eq!(d.rebuild(&vec![(3, "c".to_string()), (1, "a".to_string())]), Some("c".to_string()));
    assert_eq!(d.rebuild(&vec![]), None);
}

#[test]
fn partitioned_round_trip() {
    let d = Partitioned::<TwoPC>::new(vec![1, 2, 3]);
    let mut v = BTreeMap::new();
    v.insert(1u64, "a".to_string());
    v.insert(2u64, "b".to_string());
    v.insert(3u64, "c".to_string());
    let ids = vec![1, 2, 3];
    assert!(d.can_distribute(&v, &ids));
    let parts = d.distribute(v.clone(), &ids);
    assert_eq!(parts, vec!["a".to_string(), "b".to_string(), "c".to_string()]);
    let tagged: Vec<(u64, String)> = ids.iter().copied().zip(parts.into_iter()).collect();
    assert_eq!(d.rebuild(&tagged), Some(v.clone()));
    // a missing part: nothing is rebuilt
    assert_eq!(d.rebuild(&tagged[..2].to_vec()), None);
    // a part from outside the partition: nothing is rebuilt
    let mut extra = tagged.clone();
    extra.push((4, "d".to_string()));
    assert_eq!(d.rebuild(&extra), None);
    // a later part for the same id wins
    let mut again = tagged.clone();
    again.push((2, "B".to_string()));
    let mut expected = v.clone();
    expected.insert(2, "B".to_string());
    assert_eq!(d.rebuild(&again), Some(expected));
    // a value without an entry for an acceptor cannot be distributed
    assert!(!d.can_distribute(&v, &vec![1, 4]));
}

#[test]
fn mirror_takes_the_latest_copy() {
    let m = Mirror::<Paxos>::new();
    let vs = vec![
        (1u64, AcceptedValue::<Paxos> { v_time: 3, value: "x".to_string() }),
        (2u64, AcceptedValue::<Paxos> { v_time: 7, value: "y".to_string() }),
        (3u64, AcceptedValue::<Paxos> { v_time: 7, value: "z".to_string() }),
        (4u64, AcceptedValue::<Paxos> { v_time: 5, value: "w".to_string() }),
    ];
    assert_eq!(m.rebuild(&vs), Some("y".to_string()));
    assert_eq!(m.rebuild(&vec![]), None);
}

#[test]
fn acceptor_handles_requests() {
    let mut a: Acceptor<Paxos> = Acceptor::default();
    assert_eq!(a.time, 0);
    assert!(a.accepted.is_none());

    let reply = a.handle_phase1_request(5);
    assert_eq!(reply.time, 5);
    assert_eq!(a.time, 5);
    // a lower time does not move the acceptor
    let reply = a.handle_phase1_request(3);
    assert_eq!(reply.time, 5);

    // phase-2 below the promise is refused
    assert!(!a.handle_phase2_request(4, Proposal::new(4, "no".to_string())));
    assert!(a.accepted.is_none());
    // phase-2 at the promise is accepted
    assert!(a.handle_phase2_request(5, Proposal::new(2, "yes".to_string())));
    let accepted = a.accepted.as_ref().unwrap();
    assert_eq!(accepted.accept_time, 5);
    assert_eq!(accepted.proposal.propose_time, 2);
    assert_eq!(accepted.proposal.data, "yes");
    // phase-2 above moves the time too
    assert!(a.handle_phase2_request(9, Proposal::new(2, "yes".to_string())));
    assert_eq!(a.time, 9);
}

#[test]
fn direct_call_queues_replies_in_order() {
    let mut acceptors = BTreeMap::new();
    acceptors.insert(1u64, Acceptor::<Paxos>::default());
    acceptors.insert(2u64, Acceptor::<Paxos>::default());
    let mut t = DirectCall::new(acceptors);
    assert!(t.recv_phase1_reply().is_none());
    t.send_phase1_request(2, 4);
    t.send_phase1_request(7, 4); // unknown acceptor: no reply
    t.send_phase1_request(1, 4);
    let (id, a) = t.recv_phase1_reply().unwrap();
    assert_eq!((id, a.time), (2, 4));
    let (id, _) = t.recv_phase1_reply().unwrap();
    assert_eq!(id, 1);
    assert!(t.recv_phase1_reply().is_none());

    t.send_phase2_request(1, 3, Proposal::new(3, "x".to_string()));
    t.send_phase2_request(2, 4, Proposal::new(4, "y".to_string()));
    assert_eq!(t.recv_phase2_reply(), Some((1, false)));
    assert_eq!(t.recv_phase2_reply(), Some((2, true)));
    assert_eq!(t.recv_phase2_reply(), None);
    assert_eq!(t.acceptors()[&2].accepted.as_ref().unwrap().proposal.data, "y");
}

#[test]
fn phase1_rebuilds_from_the_least_id_with_the_greatest_accept_time() {
    let mut acceptors = BTreeMap::new();
    acceptors.insert(1u64, Acceptor::<Paxos>::default());
    let mut apaxos = APaxos::new(
        vec![1],
        Majority::new(vec![1]),
        Mirrored::<Paxos>::new(),
        DirectCall::new(acceptors),
    );
    let mut phase1 = Phase1 {
        apaxos: &mut apaxos,
        time: 10,
        granted: BTreeSet::new(),
        previously_accepted: BTreeMap::new(),
        max_accept_time: 0,
        is_quorum: false,
    };
    let entry = |at: u64, pt: u64, v: &str| Accepted::<Paxos> {
        accept_time: at,
        proposal: Proposal::new(pt, v.to_string()),
    };
    phase1.previously_accepted.insert(4, entry(8, 3, "c"));
    phase1.previously_accepted.insert(2, entry(8, 6, "b"));
    phase1.previously_accepted.insert(1, entry(5, 6, "a"));
    let p = phase1.rebuild(8).unwrap();
    assert_eq!(p.propose_time, 6);
    // parts proposed at 6, in id order: acceptor 1's comes first
    assert_eq!(p.data, "a");
    assert!(phase1.rebuild(9).is_none());
}

#[test]
fn phase1_handles_replies() {
    let mut apaxos = APaxos::new(
        vec![1, 2, 3],
        Majority::new(vec![1, 2, 3]),
        Mirrored::<Paxos>::new(),
        DirectCall::new(BTreeMap::new()),
    );
    let mut phase1 = Phase1 {
        apaxos: &mut apaxos,
        time: 10,
        granted: BTreeSet::new(),
        previously_accepted: BTreeMap::new(),
        max_accept_time: 0,
        is_quorum: false,
    };
    let stale = Acceptor::<Paxos> { time: 11, accepted: None };
    assert!(phase1.handle_reply(1, stale).is_none());
    assert!(phase1.granted.is_empty());
    let fresh = Acceptor::<Paxos> { time: 10, accepted: None };
    assert!(phase1.handle_reply(1, fresh).is_none());
    assert!(!phase1.is_quorum);
    let with_value = Acceptor::<Paxos> {
        time: 10,
        accepted: Some(Accepted { accept_time: 7, proposal: Proposal::new(7, "v".to_string()) }),
    };
    let p = phase1.handle_reply(2, with_value).unwrap();
    assert!(phase1.is_quorum);
    assert_eq!(phase1.max_accept_time, 7);
    assert_eq!((p.propose_time, p.data), (7, "v".to_string()));
}

#[test]
fn ids_in_ascending_order() {
    let mut m = BTreeMap::new();
    m.insert(9u64, ());
    m.insert(2u64, ());
    m.insert(5u64, ());
    assert_eq!(keys_of(&m), vec![2, 5, 9]);
    let s: BTreeSet<u64> = [7, 1, 3].into_iter().collect();
    assert_eq!(elements_of(&s), vec![1, 3, 7]);
}

#[test]
fn times() {
    assert_eq!(<u64 as Time>::default_time(), 0);
    assert!(5u64.greater_equal(&5));
    assert!(!4u64.greater_equal(&5));
    assert!(3u64.same(&3));
    let b = BallotNumber::new(3, 7);
    assert_eq!((b.round, b.leader), (3, 7));
}

#[test]
fn values_copy() {
    let s = "abc".to_string();
    assert_eq!(s.clone_value(), s);
    let mut m = BTreeMap::new();
    m.insert(1u64, "x".to_string());
    assert_eq!(m.clone_value(), m);
}

#[test]
fn acceptor_debug_shows_its_state() {
    let mut a: Acceptor<Paxos> = Acceptor::default();
    a.handle_phase2_request(3, Proposal::new(2, "v".to_string()));
    let text = format!("{:?}", a);
    assert!(text.starts_with("Acceptor"));
    assert!(text.contains("time: 3"));
    assert!(text.contains("accept_time: 3"));
    assert!(text.contains("\"v\""));
}

#[test]
fn acceptor_time_never_decreases() {
    let mut a: Acceptor<Paxos> = Acceptor::default();
    a.handle_phase1_request(5);
    assert_eq!(a.time, 5);
    // an earlier phase-1 request leaves the time alone
    let reply = a.handle_phase1_request(3);
    assert_eq!((a.time, reply.time), (5, 5));
    // an earlier phase-2 request is refused
    assert!(!a.handle_phase2_request(4, Proposal::new(4, "x".to_string())));
    assert_eq!(a.time, 5);
    assert!(a.accepted.is_none());
    // a later one is accepted, at its time
    assert!(a.handle_phase2_request(7, Proposal::new(6, "y".to_string())));
    assert_eq!(a.time, 7);
    let accepted = a.accepted.as_ref().unwrap();
    assert!(accepted.accept_time <= a.time);
    assert_eq!(accepted.accept_time, 7);
    assert_eq!(accepted.proposal.propose_time, 6);
}

#[test]
fn direct_call_drops_waiting_phase2_replies_at_a_phase1_request() {
    let mut acceptors = BTreeMap::new();
    acceptors.insert(1u64, Acceptor::<Paxos>::default());
    acceptors.insert(2u64, Acceptor::<Paxos>::default());
    let mut t = DirectCall::new(acceptors);
    t.send_phase2_request(1, 3, Proposal::new(3, "x".to_string()));
    t.send_phase2_request(2, 3, Proposal::new(3, "x".to_string()));
    assert_eq!(t.recv_phase2_reply(), Some((1, true)));
    t.send_phase1_request(2, 5);
    assert_eq!(t.recv_phase2_reply(), None);
    let (id, a) = t.recv_phase1_reply().unwrap();
    assert_eq!((id, a.time), (2, 5));
    assert_eq!(a.accepted.as_ref().unwrap().proposal.data, "x");
    assert!(t.recv_phase1_reply().is_none());
}
