use raft_luby::message::RaftPaperMsg;
use raft_luby::network::{MockAdaptor, MockFIFONetwork, MockNetwork, SharedFIFONetwork};
use raft_luby::nums::{ProposalId, RaftErr, RaftId, Term};
use raft_luby::replica::{PaperRole, RaftPaperImpl};
use raft_luby::store::{MockPersistor, Persistor};

type P = usize;
type M = RaftPaperMsg<P>;
type Node = RaftPaperImpl<P>;
type Wire = MockAdaptor<M, SharedFIFONetwork<M>>;

/// Three replicas with empty logs; replica `i` starts with its election
/// timer at `timers[i]` of 10.
fn cluster(timers: [u64; 3]) -> (SharedFIFONetwork<M>, Vec<Wire>, Vec<MockPersistor<P>>, Vec<Node>) {
    let network = MockFIFONetwork::<M>::shared(3);
    let adaptors = (0..3).map(|i| MockAdaptor::new(RaftId(i), network.clone())).collect::<Vec<_>>();
    let mut disks = vec![MockPersistor::<P>::new(); 3];
    let nodes = (0..3usize)
        .map(|i| {
            let peers = (0..3).map(RaftId).collect::<Vec<_>>();
            Node::new_with(RaftId(i as u64), 10, peers, 10, 2, &mut disks[i], timers[i])
        })
        .collect::<Vec<_>>();
    (network, adaptors, disks, nodes)
}

/// Hands the next message waiting for replica `i` to it, with the election
/// timer of a follower set to 0. Returns whether there was a message.
fn step(network: &SharedFIFONetwork<M>, i: usize, adaptors: &mut Vec<Wire>, disks: &mut Vec<MockPersistor<P>>, nodes: &mut Vec<Node>) -> bool {
    match network.receive(RaftId(i as u64)) {
        Some(msg) => {
            nodes[i].deliver(msg, 0, &mut adaptors[i], &mut disks[i]);
            true
        }
        None => false,
    }
}

/// Hands every waiting message to its replica until the network is quiet.
fn settle(network: &SharedFIFONetwork<M>, adaptors: &mut Vec<Wire>, disks: &mut Vec<MockPersistor<P>>, nodes: &mut Vec<Node>) {
    loop {
        let mut moved = false;
        for i in 0..nodes.len() {
            while step(network, i, adaptors, disks, nodes) {
                moved = true;
            }
        }
        if !moved {
            break;
        }
    }
}

fn leads(node: &Node) -> bool {
    matches!(node.role(), PaperRole::Leader { .. })
}

#[test]
fn mock_fifo() {
    let peers = (0..5).map(|i| RaftId(i)).collect::<Vec<_>>();
    let network = MockFIFONetwork::<M>::shared(5);
    let mut adaptors = (0..5).map(|i| MockAdaptor::<M, _>::new(RaftId(i), network.clone())).collect::<Vec<_>>();
    let mut disks = vec![MockPersistor::<P>::new(); 5];
    let mut nodes = (0..5)
        .map(|i| {
            RaftPaperImpl::new(
                RaftId(i),
                10,
                {
                    let mut peer = peers.clone();
                    peer.remove(i as usize);
                    peer
                },
                100,
                2,
                &mut disks[i as usize],
            )
        })
        .collect::<Vec<_>>();
    for p in 0..2000 {
        for i in 0..5 {
            while nodes[i].handle(&mut adaptors[i], &mut disks[i]) {}
            nodes[i].tick(&mut adaptors[i], &mut disks[i]);
            let _ = nodes[i].propose(p, ProposalId((p * 5 + i) as u64), &mut adaptors[i], &mut disks[i]);
        }
    }
}

#[test]
fn quiet_election_makes_replica_zero_leader_of_term_one() {
    let (network, mut adaptors, mut disks, mut nodes) = cluster([9, 0, 0]);
    for i in 0..3 {
        nodes[i].tick_with(0, &mut adaptors[i], &mut disks[i]);
    }
    assert_eq!(nodes[0].term(), Term(1));
    assert_eq!(nodes[0].role(), &PaperRole::Candidate { count: 1 });
    settle(&network, &mut adaptors, &mut disks, &mut nodes);
    assert!(leads(&nodes[0]));
    assert_eq!(nodes[0].term(), Term(1));
    match nodes[0].role() {
        PaperRole::Leader { matched, .. } => {
            assert_eq!(matched.get(&1), Some(&0));
            assert_eq!(matched.get(&2), Some(&0));
            assert_eq!(matched.len(), 2);
        }
        _ => unreachable!(),
    }
    for i in 0..3 {
        assert_eq!(nodes[i].commitable(), 0);
        assert_eq!(nodes[i].term(), Term(1));
    }
    assert_eq!(nodes[1].role(), &PaperRole::Follower { leader: Some(RaftId(0)) });
    assert_eq!(nodes[2].vote(), Some(RaftId(0)));
}

#[test]
fn single_leader_append_commits_on_majority() {
    let (network, mut adaptors, mut disks, mut nodes) = cluster([9, 0, 0]);
    nodes[0].tick_with(0, &mut adaptors[0], &mut disks[0]);
    settle(&network, &mut adaptors, &mut disks, &mut nodes);
    assert_eq!(nodes[0].propose(77, ProposalId(1), &mut adaptors[0], &mut disks[0]), Ok(()));
    assert_eq!(disks[0].last(), (Term(1), 1));
    assert_eq!(nodes[0].commitable(), 0);
    settle(&network, &mut adaptors, &mut disks, &mut nodes);
    assert_eq!(nodes[0].commitable(), 1);
    assert_eq!(disks[0].commitable(), 1);
    assert_eq!(nodes[1].commitable(), 0);
    nodes[0].replicate(&mut adaptors[0], &mut disks[0]);
    settle(&network, &mut adaptors, &mut disks, &mut nodes);
    for i in 0..3 {
        assert_eq!(nodes[i].commitable(), 1);
        assert_eq!(disks[i].slice(0..9), vec![(77, ProposalId(1), Term(1))]);
    }
}

#[test]
fn proposal_fails_without_a_known_leader() {
    let (network, mut adaptors, mut disks, mut nodes) = cluster([0, 0, 0]);
    assert_eq!(
        nodes[1].propose(5, ProposalId(8), &mut adaptors[1], &mut disks[1]),
        Err(RaftErr::ProposalFailed { id: ProposalId(8) })
    );
    nodes[1].handle_vote_req((Term(3), RaftId(2)), (Term(0), 0), &mut adaptors[1], &mut disks[1]);
    assert_eq!(nodes[1].role(), &PaperRole::Follower { leader: None });
    assert_eq!(
        nodes[1].propose(5, ProposalId(9), &mut adaptors[1], &mut disks[1]),
        Err(RaftErr::ProposalFailed { id: ProposalId(9) })
    );
    assert_eq!(network.receive(RaftId(2)), Some(RaftPaperMsg::VoteAck { term: Term(3) }));
    assert_eq!(network.receive(RaftId(2)), None);
}

/// The rates of loss and of change of a burst network: a channel in its
/// upper state loses a message with `rate_upper` and leaves the state with
/// `flip_upper`; in its lower state, with `rate_lower` and `flip_lower`.
struct Rates {
    rate_upper: f32,
    rate_lower: f32,
    flip_upper: f32,
    flip_lower: f32,
}

/// A burst network behind a lock, with its rates.
#[derive(Clone)]
struct Burst(std::sync::Arc<(std::sync::Mutex<raft_luby::network::BurstNetwork<M>>, Rates)>);

impl MockNetwork<M> for Burst {
    fn receive(&self, receiver: RaftId) -> Option<M> {
        self.0 .0.lock().unwrap().pop(receiver)
    }

    fn send(&self, sender: RaftId, to: RaftId, msg: M) {
        let rates = &self.0 .1;
        let mut net = self.0 .0.lock().unwrap();
        let upper = net.is_upper(sender, to);
        let erase = if upper { rand::random::<f32>() < rates.rate_upper } else { rand::random::<f32>() <= rates.rate_lower };
        let flip = if upper { rand::random::<f32>() < rates.flip_upper } else { rand::random::<f32>() <= rates.flip_lower };
        net.accept(sender, to, msg, true, erase, flip);
    }
}

#[test]
fn mock_burst() {
    let peers = (0..5).map(|i| RaftId(i)).collect::<Vec<_>>();
    let network = Burst(std::sync::Arc::new((
        std::sync::Mutex::new(raft_luby::network::BurstNetwork::new(5)),
        Rates { rate_upper: 0.9, rate_lower: 0.01, flip_upper: 0.5, flip_lower: 0.1 },
    )));
    let mut adaptors = (0..5).map(|i| MockAdaptor::<M, _>::new(RaftId(i), network.clone())).collect::<Vec<_>>();
    let mut disks = vec![MockPersistor::<P>::new(); 5];
    let mut nodes = (0..5)
        .map(|i| {
            RaftPaperImpl::new(
                RaftId(i),
                10,
                {
                    let mut peer = peers.clone();
                    peer.remove(i as usize);
                    peer
                },
                100,
                2,
                &mut disks[i as usize],
            )
        })
        .collect::<Vec<_>>();
    for p in 0..2000 {
        for i in 0..5 {
            while nodes[i].handle(&mut adaptors[i], &mut disks[i]) {}
            nodes[i].tick(&mut adaptors[i], &mut disks[i]);
            let _ = nodes[i].propose(p * 5 + i, ProposalId((p * 5 + i) as u64), &mut adaptors[i], &mut disks[i]);
        }
    }
}

/// Throws away what waits for replica `id`.
fn cut_off(network: &SharedFIFONetwork<M>, id: u64) {
    while network.receive(RaftId(id)).is_some() {}
}

#[test]
fn an_isolated_leader_steps_down_on_rejoining() {
    let (network, mut adaptors, mut disks, mut nodes) = cluster([9, 5, 0]);
    nodes[0].tick_with(0, &mut adaptors[0], &mut disks[0]);
    settle(&network, &mut adaptors, &mut disks, &mut nodes);
    assert_eq!(nodes[0].propose(77, ProposalId(1), &mut adaptors[0], &mut disks[0]), Ok(()));
    settle(&network, &mut adaptors, &mut disks, &mut nodes);
    nodes[0].replicate(&mut adaptors[0], &mut disks[0]);
    settle(&network, &mut adaptors, &mut disks, &mut nodes);
    assert_eq!(nodes[1].commitable(), 1);
    let mut ticks = 0;
    while nodes[1].term() == Term(1) {
        nodes[1].tick_with(0, &mut adaptors[1], &mut disks[1]);
        ticks += 1;
    }
    assert!(ticks <= 10);
    cut_off(&network, 0);
    while step(&network, 1, &mut adaptors, &mut disks, &mut nodes) || step(&network, 2, &mut adaptors, &mut disks, &mut nodes) {
        cut_off(&network, 0);
    }
    assert!(leads(&nodes[1]));
    assert_eq!(nodes[1].term(), Term(2));
    assert!(leads(&nodes[0]));
    assert_eq!(nodes[0].term(), Term(1));
    nodes[0].replicate(&mut adaptors[0], &mut disks[0]);
    settle(&network, &mut adaptors, &mut disks, &mut nodes);
    assert!(!leads(&nodes[0]));
    assert_eq!(nodes[0].term(), Term(2));
    assert!(leads(&nodes[1]));
    for i in 0..3 {
        assert_eq!(disks[i].slice(0..1), vec![(77, ProposalId(1), Term(1))]);
    }
}

#[test]
fn a_conflicting_suffix_is_overwritten() {
    let (network, mut adaptors, mut disks, mut nodes) = cluster([9, 5, 0]);
    nodes[0].tick_with(0, &mut adaptors[0], &mut disks[0]);
    settle(&network, &mut adaptors, &mut disks, &mut nodes);
    assert_eq!(nodes[0].propose(1, ProposalId(1), &mut adaptors[0], &mut disks[0]), Ok(()));
    settle(&network, &mut adaptors, &mut disks, &mut nodes);
    nodes[0].replicate(&mut adaptors[0], &mut disks[0]);
    settle(&network, &mut adaptors, &mut disks, &mut nodes);
    assert_eq!(nodes[0].propose(2, ProposalId(2), &mut adaptors[0], &mut disks[0]), Ok(()));
    cut_off(&network, 1);
    cut_off(&network, 2);
    assert_eq!(disks[0].slice(0..9), vec![(1, ProposalId(1), Term(1)), (2, ProposalId(2), Term(1))]);
    while nodes[1].term() == Term(1) {
        nodes[1].tick_with(0, &mut adaptors[1], &mut disks[1]);
    }
    cut_off(&network, 0);
    while step(&network, 1, &mut adaptors, &mut disks, &mut nodes) || step(&network, 2, &mut adaptors, &mut disks, &mut nodes) {
        cut_off(&network, 0);
    }
    assert!(leads(&nodes[1]));
    assert_eq!(nodes[1].propose(3, ProposalId(3), &mut adaptors[1], &mut disks[1]), Ok(()));
    cut_off(&network, 0);
    while step(&network, 1, &mut adaptors, &mut disks, &mut nodes) || step(&network, 2, &mut adaptors, &mut disks, &mut nodes) {
        cut_off(&network, 0);
    }
    assert_eq!(nodes[1].commitable(), 2);
    for _ in 0..4 {
        nodes[1].replicate(&mut adaptors[1], &mut disks[1]);
        settle(&network, &mut adaptors, &mut disks, &mut nodes);
    }
    for i in 0..3 {
        assert_eq!(disks[i].slice(0..9), vec![(1, ProposalId(1), Term(1)), (3, ProposalId(3), Term(2))]);
        assert_eq!(nodes[i].commitable(), 2);
        assert_eq!(nodes[i].term(), Term(2));
    }
    assert!(!leads(&nodes[0]));
}

#[test]
fn a_quiet_cluster_elects_a_leader_and_commits_within_the_election_bound() {
    let (network, mut adaptors, mut disks, mut nodes) = cluster([3, 7, 1]);
    let mut ticks = 0;
    while !nodes.iter().any(leads) {
        for i in 0..3 {
            nodes[i].tick_with(0, &mut adaptors[i], &mut disks[i]);
        }
        settle(&network, &mut adaptors, &mut disks, &mut nodes);
        ticks += 1;
        assert!(ticks <= 10);
    }
    assert_eq!(ticks, 3);
    assert!(leads(&nodes[1]));
    assert_eq!(nodes.iter().filter(|node| leads(node)).count(), 1);
    assert_eq!(nodes[1].propose(5, ProposalId(5), &mut adaptors[1], &mut disks[1]), Ok(()));
    for _ in 0..3 {
        for i in 0..3 {
            nodes[i].tick_with(0, &mut adaptors[i], &mut disks[i]);
        }
        settle(&network, &mut adaptors, &mut disks, &mut nodes);
    }
    for i in 0..3 {
        assert_eq!(nodes[i].commitable(), 1);
    }
}

/// Whether two logs match: where both hold an entry of the same term at one
/// index, they hold the same entries up to that index.
fn logs_match(a: &[(P, ProposalId, Term)], b: &[(P, ProposalId, Term)]) -> bool {
    (0..a.len().min(b.len())).all(|i| a[i].2 != b[i].2 || a[..=i] == b[..=i])
}

#[test]
fn a_long_run_has_one_leader_for_a_term_and_matching_logs() {
    let network = MockFIFONetwork::<M>::shared(5);
    let mut adaptors = (0..5).map(|i| MockAdaptor::new(RaftId(i), network.clone())).collect::<Vec<Wire>>();
    let mut disks = vec![MockPersistor::<P>::new(); 5];
    let members = (0..5).map(RaftId).collect::<Vec<_>>();
    let mut nodes = (0..5usize)
        .map(|i| Node::new_with(RaftId(i as u64), 3, members.clone(), 12, 3, &mut disks[i], 5 * i as u64))
        .collect::<Vec<_>>();
    let mut seed = 11u64;
    let mut dice = move |sides: u64| {
        seed = seed.wrapping_mul(6364136223846793005).wrapping_add(1442695040888963407);
        (seed >> 33) % sides
    };
    let mut leaders = std::collections::HashMap::new();
    let mut terms = vec![Term(0); 5];
    let mut proposed = 0;
    let mut committed = 0;
    for _ in 0..30000 {
        let i = dice(5) as usize;
        let before = (leads(&nodes[i]), nodes[i].term(), disks[i].slice(0..usize::MAX), disks[i].commitable());
        match dice(10) {
            0 => nodes[i].tick_with(dice(1000), &mut adaptors[i], &mut disks[i]),
            1 => {
                proposed += 1;
                let _ = nodes[i].propose(proposed, ProposalId(proposed as u64), &mut adaptors[i], &mut disks[i]);
            }
            2 if dice(40) == 0 => {
                nodes[i] = Node::new_with(RaftId(i as u64), 3, members.clone(), 12, 3, &mut disks[i], dice(1000));
            }
            3 if dice(4) == 0 => {
                let _ = network.receive(RaftId(i as u64));
            }
            _ => {
                if let Some(msg) = network.receive(RaftId(i as u64)) {
                    nodes[i].deliver(msg, dice(1000), &mut adaptors[i], &mut disks[i]);
                }
            }
        }
        assert!(terms[i] <= nodes[i].term());
        terms[i] = nodes[i].term();
        if leads(&nodes[i]) {
            assert_eq!(*leaders.entry(nodes[i].term().0).or_insert(i), i);
        }
        let log = disks[i].slice(0..usize::MAX);
        if before.0 && leads(&nodes[i]) && before.1 == nodes[i].term() {
            assert!(log.starts_with(&before.2));
        }
        assert!(before.3 <= disks[i].commitable());
        for other in 0..5 {
            assert!(logs_match(&log, &disks[other].slice(0..usize::MAX)));
        }
        committed = committed.max(nodes[i].commitable());
    }
    assert!(leaders.len() > 1);
    assert!(committed > 0);
}
