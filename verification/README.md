# abstract_paxos

Abstract-Paxos unifies well-known distributed consensus algorithms (Paxos,
two-phase commit, ...) into a single approach, verified with Verus.

- `src/lib.rs`: the `Types` of an instance (time, value, part), the
  `QuorumSet`, `Distribute` and `Transport` traits, and `APaxos`, a cluster.
  A transport logs, as `NetEvent`s, every request it is handed, every
  reply it hands out, and each time it had no reply to hand out; the
  proposer's contracts are stated over that log, and a phase stops taking
  replies only once it has one per request, has rebuilt a proposal or
  formed a quorum, or the transport had none.
- `src/apaxos/`: proposals, acceptors and their request handlers, pseudo
  time (`Time`, `GreaterEqual`), and the proposer with its two phases.
- `src/commonly_used/`: majority and all-acceptor quorums (over the set of
  distinct acceptors named), mirrored and partitioned distribution, ballot
  numbers, and `DirectCall`, a transport that calls in-memory acceptors,
  keeps them equal to what the logged requests made of them, and drops the
  phase-2 replies still waiting when a phase-1 request is sent.
- `src/default_impl/`: `Mirror`, which rebuilds the latest mirrored copy.
- `src/implementations/`: classic Paxos and two-phase commit as instances;
  the laws that keep a committed Paxos proposal committed (`safety.rs`);
  agreement over runs of Paxos rounds (`rounds.rs`), on a model of rounds
  over acceptor states; and the same laws for the executable proposer over
  `DirectCall` (`direct.rs`): a run that returns a proposal has committed
  it; a committed proposal stays committed; runs keep the Paxos invariant,
  so proposers that run one after the other at increasing ballots agree;
  and a run at a ballot above every acceptor's, against acceptors that
  form a read quorum with no phase-1 reply waiting, returns a proposal,
  the committed one where there is one. From fresh acceptors, the first
  run commits its own proposal and the second returns it.
- `src/ids.rs`, `src/order.rs`: acceptor ids in ascending order.

The proposer's phases state, over the transport's log, which requests they
send and how each reply they take changes what they hold and return; the
laws are public proof functions next to the code they speak of.
