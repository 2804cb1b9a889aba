use raft_luby::message::RaftPaperMsg;
use raft_luby::network::{BurstNetwork, MockAdaptor, MockFIFONetwork, MockNetwork, SharedFIFONetwork};
use raft_luby::nums::{ProposalId, RaftId, Term};
use raft_luby::replica::{others, PaperRole, RaftPaperImpl};
use raft_luby::store::{MockPersistor, Persistor};

type M = RaftPaperMsg<u64>;
type Node = RaftPaperImpl<u64>;
type Wire = MockAdaptor<M, SharedFIFONetwork<M>>;

fn entry(payload: u64, id: u64, term: u64) -> (u64, ProposalId, Term) {
    (payload, ProposalId(id), Term(term))
}

/// Replica `id` of five, started on `disk` with its election timer at
/// `timer` of 10.
fn node_on(id: u64, disk: &mut MockPersistor<u64>, timer: u64) -> (SharedFIFONetwork<M>, Wire, Node) {
    let network = MockFIFONetwork::<M>::shared(5);
    let adaptor = MockAdaptor::new(RaftId(id), network.clone());
    let peers = (0..5).map(RaftId).collect::<Vec<_>>();
    let node = Node::new_with(RaftId(id), 2, peers, 10, 3, disk, timer);
    (network, adaptor, node)
}

/// Replica 0 of five as the leader of term 2 over `log`.
fn leader_over(log: &[(u64, ProposalId, Term)]) -> (SharedFIFONetwork<M>, Wire, MockPersistor<u64>, Node) {
    let mut disk = MockPersistor::new();
    for (payload, id, term) in log {
        disk.push(*payload, *id, *term);
    }
    disk.persist(Term(1), None);
    let (network, mut adaptor, mut node) = node_on(0, &mut disk, 0);
    node.coup_detat_with(0, &mut adaptor, &mut disk);
    node.handle_vote_ack(Term(2), &mut adaptor, &mut disk);
    node.handle_vote_ack(Term(2), &mut adaptor, &mut disk);
    assert!(matches!(node.role(), PaperRole::Leader { .. }));
    for peer in 1..5 {
        while network.receive(RaftId(peer)).is_some() {}
    }
    (network, adaptor, disk, node)
}

fn books(node: &Node) -> (Vec<(u64, usize)>, Vec<(u64, usize)>) {
    match node.role() {
        PaperRole::Leader { matched, guessed } => {
            let mut matched = matched.iter().map(|(peer, index)| (*peer, *index)).collect::<Vec<_>>();
            let mut guessed = guessed.iter().map(|(peer, index)| (*peer, *index)).collect::<Vec<_>>();
            matched.sort();
            guessed.sort();
            (matched, guessed)
        }
        role => panic!("{role:?}"),
    }
}

#[test]
fn a_replica_starts_as_a_candidate_without_votes() {
    let mut disk = MockPersistor::<u64>::new();
    disk.persist(Term(4), Some(RaftId(3)));
    disk.push(9, ProposalId(1), Term(2));
    disk.commit(1);
    let (_network, _adaptor, node) = node_on(2, &mut disk, 47);
    assert_eq!(node.id(), RaftId(2));
    assert_eq!(node.term(), Term(4));
    assert_eq!(node.vote(), Some(RaftId(3)));
    assert_eq!(node.role(), &PaperRole::Candidate { count: 0 });
    assert_eq!(node.commitable(), 1);
    assert_eq!(node.timeout_elect(), 7);
    assert_eq!(node.timeout_heart(), 0);
    assert_eq!(node.peers(), &vec![RaftId(0), RaftId(1), RaftId(3), RaftId(4)]);
    let drawn = Node::new(RaftId(2), 2, vec![RaftId(1)], 10, 3, &mut disk);
    assert!(drawn.timeout_elect() < 10);
    assert_eq!(drawn.peers(), &vec![RaftId(1)]);
    assert_eq!(others(&vec![RaftId(1), RaftId(2), RaftId(1), RaftId(3)], RaftId(1)), vec![RaftId(2), RaftId(3)]);
}

#[test]
fn election_timeout_opens_the_next_term() {
    let mut disk = MockPersistor::<u64>::new();
    disk.push(9, ProposalId(1), Term(2));
    disk.persist(Term(2), None);
    let (network, mut adaptor, mut node) = node_on(1, &mut disk, 8);
    node.tick_with(33, &mut adaptor, &mut disk);
    assert_eq!(node.timeout_elect(), 9);
    assert_eq!(node.term(), Term(2));
    assert_eq!(network.receive(RaftId(0)), None);
    node.tick_with(33, &mut adaptor, &mut disk);
    assert_eq!(node.term(), Term(3));
    assert_eq!(node.vote(), Some(RaftId(1)));
    assert_eq!(node.role(), &PaperRole::Candidate { count: 1 });
    assert_eq!(node.timeout_elect(), 3);
    assert_eq!(node.timeout_heart(), 2);
    assert_eq!(disk.load(), (Term(3), Some(RaftId(1))));
    for peer in [0, 2, 3, 4] {
        assert_eq!(
            network.receive(RaftId(peer)),
            Some(M::VoteReq { candidate: (Term(3), RaftId(1)), last: (Term(2), 1) })
        );
        assert_eq!(network.receive(RaftId(peer)), None);
    }
    assert_eq!(network.receive(RaftId(1)), None);
    node.coup_detat(&mut adaptor, &mut disk);
    assert_eq!(node.term(), Term(4));
    assert!(node.timeout_elect() < 10);
}

#[test]
fn a_leader_does_not_stand_again() {
    let (network, mut adaptor, mut disk, mut node) = leader_over(&[]);
    let before = books(&node);
    node.coup_detat_with(5, &mut adaptor, &mut disk);
    assert_eq!(node.term(), Term(2));
    assert_eq!(books(&node), before);
    assert_eq!(network.receive(RaftId(1)), None);
}

#[test]
fn votes_go_to_the_first_candidate_of_a_term_with_a_log_up_to_date() {
    let mut disk = MockPersistor::<u64>::new();
    disk.push(9, ProposalId(1), Term(2));
    disk.push(9, ProposalId(2), Term(2));
    disk.persist(Term(2), None);
    let (network, mut adaptor, mut node) = node_on(0, &mut disk, 0);
    node.handle_vote_req((Term(1), RaftId(1)), (Term(2), 2), &mut adaptor, &mut disk);
    assert_eq!(network.receive(RaftId(1)), Some(M::VoteRej { term: Term(2) }));
    assert_eq!(node.vote(), None);
    node.handle_vote_req((Term(2), RaftId(1)), (Term(2), 1), &mut adaptor, &mut disk);
    assert_eq!(network.receive(RaftId(1)), Some(M::VoteRej { term: Term(2) }));
    node.handle_vote_req((Term(2), RaftId(1)), (Term(1), 5), &mut adaptor, &mut disk);
    assert_eq!(network.receive(RaftId(1)), Some(M::VoteRej { term: Term(2) }));
    assert_eq!(node.vote(), None);
    node.handle_vote_req((Term(2), RaftId(1)), (Term(2), 2), &mut adaptor, &mut disk);
    assert_eq!(network.receive(RaftId(1)), Some(M::VoteAck { term: Term(2) }));
    assert_eq!(node.vote(), Some(RaftId(1)));
    assert_eq!(disk.load(), (Term(2), Some(RaftId(1))));
    node.handle_vote_req((Term(2), RaftId(3)), (Term(3), 9), &mut adaptor, &mut disk);
    assert_eq!(network.receive(RaftId(3)), Some(M::VoteRej { term: Term(2) }));
    assert_eq!(node.vote(), Some(RaftId(1)));
    node.handle_vote_req((Term(5), RaftId(3)), (Term(3), 1), &mut adaptor, &mut disk);
    assert_eq!(network.receive(RaftId(3)), Some(M::VoteAck { term: Term(5) }));
    assert_eq!((node.term(), node.vote()), (Term(5), Some(RaftId(3))));
    assert_eq!(node.role(), &PaperRole::Follower { leader: None });
    node.handle_vote_req((Term(7), RaftId(4)), (Term(1), 9), &mut adaptor, &mut disk);
    assert_eq!(network.receive(RaftId(4)), Some(M::VoteRej { term: Term(7) }));
    assert_eq!((node.term(), node.vote()), (Term(7), None));
    assert_eq!(disk.load(), (Term(7), None));
}

#[test]
fn a_vote_request_delivered_twice_is_granted_twice_and_counted_once() {
    let mut voter_disk = MockPersistor::<u64>::new();
    let (voter_net, mut voter_wire, mut voter) = {
        let network = MockFIFONetwork::<M>::shared(3);
        let adaptor = MockAdaptor::new(RaftId(0), network.clone());
        let node = Node::new_with(RaftId(0), 2, vec![RaftId(1), RaftId(2)], 10, 3, &mut voter_disk, 0);
        (network, adaptor, node)
    };
    let mut disk = MockPersistor::<u64>::new();
    let mut wire = MockAdaptor::new(RaftId(1), voter_net.clone());
    let mut candidate = Node::new_with(RaftId(1), 2, vec![RaftId(0), RaftId(2)], 10, 3, &mut disk, 0);
    candidate.coup_detat_with(0, &mut wire, &mut disk);
    let ask = voter_net.receive(RaftId(0)).unwrap();
    assert_eq!(ask, M::VoteReq { candidate: (Term(1), RaftId(1)), last: (Term(0), 0) });
    voter.deliver(ask.clone(), 0, &mut voter_wire, &mut voter_disk);
    voter.deliver(ask, 0, &mut voter_wire, &mut voter_disk);
    assert_eq!(voter.vote(), Some(RaftId(1)));
    let first = voter_net.receive(RaftId(1)).unwrap();
    let second = voter_net.receive(RaftId(1)).unwrap();
    assert_eq!(first, M::VoteAck { term: Term(1) });
    assert_eq!(second, M::VoteAck { term: Term(1) });
    candidate.deliver(first, 0, &mut wire, &mut disk);
    assert!(matches!(candidate.role(), PaperRole::Leader { .. }));
    let led = books(&candidate);
    while voter_net.receive(RaftId(0)).is_some() {}
    candidate.deliver(second, 0, &mut wire, &mut disk);
    assert_eq!(books(&candidate), led);
    assert_eq!(candidate.term(), Term(1));
    assert_eq!(voter_net.receive(RaftId(0)), None);
}

#[test]
fn a_candidate_leads_with_a_strict_majority() {
    let mut disk = MockPersistor::<u64>::new();
    disk.push(9, ProposalId(1), Term(1));
    let (network, mut adaptor, mut node) = node_on(0, &mut disk, 0);
    node.handle_vote_ack(Term(0), &mut adaptor, &mut disk);
    assert_eq!(node.role(), &PaperRole::Candidate { count: 1 });
    node.coup_detat_with(0, &mut adaptor, &mut disk);
    for peer in 1..5 {
        while network.receive(RaftId(peer)).is_some() {}
    }
    node.handle_vote_ack(Term(0), &mut adaptor, &mut disk);
    assert_eq!(node.role(), &PaperRole::Candidate { count: 1 });
    node.handle_vote_ack(Term(1), &mut adaptor, &mut disk);
    assert_eq!(node.role(), &PaperRole::Candidate { count: 2 });
    assert_eq!(network.receive(RaftId(1)), None);
    node.handle_vote_ack(Term(1), &mut adaptor, &mut disk);
    assert_eq!(
        books(&node),
        (vec![(1, 0), (2, 0), (3, 0), (4, 0)], vec![(1, 1), (2, 1), (3, 1), (4, 1)])
    );
    assert_eq!(node.timeout_heart(), 0);
    for peer in 1..5 {
        assert_eq!(
            network.receive(RaftId(peer)),
            Some(M::ReplicateReq {
                commit: 0,
                leader: (Term(1), RaftId(0)),
                prefix: (Some(Term(1)), 1),
                patch: vec![],
            })
        );
    }
    node.handle_vote_ack(Term(9), &mut adaptor, &mut disk);
    assert_eq!(node.role(), &PaperRole::Follower { leader: None });
    assert_eq!((node.term(), node.vote()), (Term(9), None));
    assert_eq!(disk.load(), (Term(9), None));
}

#[test]
fn a_refused_vote_of_a_larger_term_resets_the_candidate() {
    let mut disk = MockPersistor::<u64>::new();
    let (_network, mut adaptor, mut node) = node_on(0, &mut disk, 0);
    node.coup_detat_with(0, &mut adaptor, &mut disk);
    node.handle_vote_rej(Term(1), &mut disk);
    assert_eq!(node.role(), &PaperRole::Candidate { count: 1 });
    assert_eq!(node.vote(), Some(RaftId(0)));
    node.handle_vote_rej(Term(6), &mut disk);
    assert_eq!(node.role(), &PaperRole::Candidate { count: 0 });
    assert_eq!((node.term(), node.vote()), (Term(6), None));
    assert_eq!(disk.load(), (Term(6), None));
}

#[test]
fn a_leader_probes_each_peer_from_its_probe_index() {
    let log = [entry(1, 1, 1), entry(2, 2, 1), entry(3, 3, 1), entry(4, 4, 1)];
    let (network, mut adaptor, mut disk, mut node) = leader_over(&log);
    node.handle_replicate_rej(RaftId(1), Term(1), 3, &mut disk);
    node.handle_replicate_rej(RaftId(2), Term(0), 1, &mut disk);
    node.handle_replicate_rej(RaftId(9), Term(1), 3, &mut disk);
    node.handle_replicate_ack(RaftId(3), 3, 3, &mut disk);
    assert_eq!(
        books(&node),
        (vec![(1, 0), (2, 0), (3, 3), (4, 0)], vec![(1, 1), (2, 0), (3, 3), (4, 4)])
    );
    node.replicate(&mut adaptor, &mut disk);
    let leader = (Term(2), RaftId(0));
    let expected = [
        (1, (Some(Term(1)), 1), vec![entry(2, 2, 1), entry(3, 3, 1)]),
        (2, (None, 0), vec![entry(1, 1, 1), entry(2, 2, 1)]),
        (3, (Some(Term(1)), 3), vec![entry(4, 4, 1)]),
        (4, (Some(Term(1)), 4), vec![]),
    ];
    for (peer, prefix, patch) in expected {
        assert_eq!(
            network.receive(RaftId(peer)),
            Some(M::ReplicateReq { commit: 0, leader, prefix, patch })
        );
        assert_eq!(network.receive(RaftId(peer)), None);
    }
}

#[test]
fn heartbeat_timeout_makes_a_leader_replicate() {
    let (network, mut adaptor, mut disk, mut node) = leader_over(&[]);
    node.tick_with(0, &mut adaptor, &mut disk);
    node.tick_with(0, &mut adaptor, &mut disk);
    assert_eq!(node.timeout_heart(), 2);
    assert_eq!(network.receive(RaftId(1)), None);
    node.tick_with(0, &mut adaptor, &mut disk);
    assert_eq!(node.timeout_heart(), 0);
    assert_eq!(node.timeout_elect(), 3);
    assert!(matches!(network.receive(RaftId(1)), Some(M::ReplicateReq { .. })));
    for _ in 0..20 {
        node.tick(&mut adaptor, &mut disk);
    }
    assert_eq!(node.term(), Term(2));
    assert!(matches!(node.role(), PaperRole::Leader { .. }));
}

#[test]
fn a_follower_merges_what_follows_a_matching_prefix() {
    let mut disk = MockPersistor::<u64>::new();
    disk.push(1, ProposalId(1), Term(1));
    disk.push(2, ProposalId(2), Term(1));
    disk.persist(Term(2), Some(RaftId(4)));
    let (network, mut adaptor, mut node) = node_on(1, &mut disk, 0);
    let leader = (Term(2), RaftId(3));
    node.handle_replicate_with(leader, (Some(Term(1)), 1), vec![entry(7, 7, 2), entry(8, 8, 2)], 5, 14, &mut adaptor, &mut disk);
    assert_eq!(network.receive(RaftId(3)), Some(M::ReplicateAck { from: RaftId(1), sync: 3, tail: 3 }));
    assert_eq!(disk.slice(0..9), vec![entry(1, 1, 1), entry(7, 7, 2), entry(8, 8, 2)]);
    assert_eq!(node.role(), &PaperRole::Follower { leader: Some(RaftId(3)) });
    assert_eq!((node.term(), node.vote(), node.timeout_elect()), (Term(2), Some(RaftId(4)), 4));
    assert_eq!((node.commitable(), disk.commitable()), (3, 3));
    node.handle_replicate_with(leader, (Some(Term(2)), 3), vec![], 2, 14, &mut adaptor, &mut disk);
    assert_eq!(network.receive(RaftId(3)), Some(M::ReplicateAck { from: RaftId(1), sync: 3, tail: 3 }));
    assert_eq!((node.commitable(), disk.commitable()), (3, 3));
    node.handle_replicate(leader, (None, 0), vec![entry(1, 1, 1)], 3, &mut adaptor, &mut disk);
    assert_eq!(network.receive(RaftId(3)), Some(M::ReplicateAck { from: RaftId(1), sync: 1, tail: 3 }));
    assert!(node.timeout_elect() < 10);
    assert_eq!(disk.last(), (Term(2), 3));
}

#[test]
fn a_follower_turns_down_stale_leaders_and_wrong_prefixes() {
    let mut disk = MockPersistor::<u64>::new();
    disk.push(1, ProposalId(1), Term(1));
    disk.persist(Term(3), Some(RaftId(1)));
    let (network, mut adaptor, mut node) = node_on(1, &mut disk, 6);
    node.handle_replicate_with((Term(2), RaftId(3)), (None, 0), vec![entry(7, 7, 2)], 0, 14, &mut adaptor, &mut disk);
    assert_eq!(network.receive(RaftId(3)), Some(M::ReplicateRej { from: RaftId(1), term: Term(3), at: 0 }));
    assert_eq!(node.role(), &PaperRole::Candidate { count: 0 });
    assert_eq!(node.timeout_elect(), 6);
    assert_eq!(disk.last(), (Term(1), 1));
    for prefix in [(Some(Term(2)), 1), (Some(Term(1)), 2), (Some(Term(1)), 0), (None, 2), (None, 9)] {
        node.handle_replicate_with((Term(4), RaftId(2)), prefix, vec![entry(7, 7, 4)], 0, 14, &mut adaptor, &mut disk);
        assert_eq!(
            network.receive(RaftId(2)),
            Some(M::ReplicateRej { from: RaftId(1), term: Term(4), at: prefix.1 })
        );
    }
    assert_eq!(node.role(), &PaperRole::Follower { leader: Some(RaftId(2)) });
    assert_eq!((node.term(), node.vote(), node.timeout_elect()), (Term(4), None, 4));
    assert_eq!(disk.load(), (Term(4), None));
    assert_eq!(disk.slice(0..9), vec![entry(1, 1, 1)]);
}

#[test]
fn replaying_a_request_gives_the_same_acknowledgement() {
    let mut disk = MockPersistor::<u64>::new();
    disk.push(1, ProposalId(1), Term(1));
    disk.push(2, ProposalId(2), Term(1));
    let (network, mut adaptor, mut node) = node_on(1, &mut disk, 0);
    let request = M::ReplicateReq {
        commit: 1,
        leader: (Term(2), RaftId(3)),
        prefix: (Some(Term(1)), 1),
        patch: vec![entry(7, 7, 2), entry(8, 8, 2)],
    };
    node.deliver(request.clone(), 3, &mut adaptor, &mut disk);
    let first = network.receive(RaftId(3));
    let log = disk.slice(0..9);
    node.deliver(request, 8, &mut adaptor, &mut disk);
    assert_eq!(network.receive(RaftId(3)), first);
    assert_eq!(first, Some(M::ReplicateAck { from: RaftId(1), sync: 3, tail: 3 }));
    assert_eq!(disk.slice(0..9), log);
    assert_eq!((node.commitable(), disk.commitable()), (1, 1));
}

#[test]
fn a_leader_commits_only_through_an_entry_of_its_own_term() {
    let (_network, mut adaptor, mut disk, mut node) = leader_over(&[entry(1, 1, 1)]);
    assert_eq!(node.term(), Term(2));
    node.handle_replicate_ack(RaftId(1), 1, 1, &mut disk);
    node.handle_replicate_ack(RaftId(2), 1, 1, &mut disk);
    assert_eq!((node.commitable(), disk.commitable()), (0, 0));
    assert_eq!(node.propose(2, ProposalId(2), &mut adaptor, &mut disk), Ok(()));
    node.handle_replicate_ack(RaftId(1), 2, 2, &mut disk);
    assert_eq!(node.commitable(), 0);
    node.handle_replicate_ack(RaftId(2), 2, 2, &mut disk);
    assert_eq!((node.commitable(), disk.commitable()), (2, 2));
    node.handle_replicate_ack(RaftId(2), 1, 1, &mut disk);
    assert_eq!((node.commitable(), disk.commitable()), (2, 2));
    node.handle_replicate_ack(RaftId(3), 9, 9, &mut disk);
    node.handle_replicate_ack(RaftId(4), 9, 9, &mut disk);
    assert_eq!(node.commitable(), 2);
}

#[test]
fn a_refused_replication_of_a_larger_term_ends_the_term() {
    let (_network, _adaptor, mut disk, mut node) = leader_over(&[]);
    node.handle_replicate_rej(RaftId(1), Term(2), 6, &mut disk);
    assert!(matches!(node.role(), PaperRole::Leader { .. }));
    node.handle_replicate_rej(RaftId(1), Term(5), 0, &mut disk);
    assert_eq!(node.role(), &PaperRole::Candidate { count: 0 });
    assert_eq!((node.term(), node.vote()), (Term(5), None));
    assert_eq!(disk.load(), (Term(5), None));
    node.handle_replicate_rej(RaftId(1), Term(5), 4, &mut disk);
    assert_eq!(node.role(), &PaperRole::Candidate { count: 0 });
    node.handle_replicate_ack(RaftId(1), 4, 4, &mut disk);
    assert_eq!(node.commitable(), 0);
    let mut other = MockPersistor::<u64>::new();
    let (_network, _adaptor, mut follower) = node_on(2, &mut other, 0);
    follower.handle_replicate_rej(RaftId(1), Term(3), 0, &mut other);
    assert_eq!(follower.role(), &PaperRole::Follower { leader: None });
    assert_eq!(other.load(), (Term(3), None));
}

#[test]
fn a_follower_hands_a_proposal_on_to_its_leader() {
    let mut disk = MockPersistor::<u64>::new();
    let (network, mut adaptor, mut node) = node_on(1, &mut disk, 0);
    node.handle_replicate_with((Term(1), RaftId(3)), (None, 0), vec![], 0, 0, &mut adaptor, &mut disk);
    while network.receive(RaftId(3)).is_some() {}
    assert_eq!(node.propose(5, ProposalId(8), &mut adaptor, &mut disk), Ok(()));
    assert_eq!(network.receive(RaftId(3)), Some(M::ProposalReq { proposal: 5, id: ProposalId(8) }));
    assert_eq!(disk.last(), (Term(0), 0));
    node.deliver(M::ProposalReq { proposal: 6, id: ProposalId(9) }, 0, &mut adaptor, &mut disk);
    assert_eq!(network.receive(RaftId(3)), Some(M::ProposalReq { proposal: 6, id: ProposalId(9) }));
}

#[test]
fn the_term_never_falls_and_a_term_has_one_vote() {
    let mut disk = MockPersistor::<u64>::new();
    let (network, mut adaptor, mut node) = node_on(0, &mut disk, 0);
    let inbox = vec![
        M::VoteReq { candidate: (Term(3), RaftId(1)), last: (Term(0), 0) },
        M::VoteReq { candidate: (Term(3), RaftId(2)), last: (Term(0), 0) },
        M::VoteRej { term: Term(2) },
        M::ReplicateReq { commit: 0, leader: (Term(3), RaftId(2)), prefix: (None, 0), patch: vec![] },
        M::VoteReq { candidate: (Term(3), RaftId(2)), last: (Term(9), 9) },
        M::VoteReq { candidate: (Term(3), RaftId(1)), last: (Term(0), 0) },
        M::ReplicateRej { from: RaftId(1), term: Term(1), at: 0 },
        M::VoteAck { term: Term(1) },
        M::VoteReq { candidate: (Term(4), RaftId(2)), last: (Term(0), 0) },
        M::VoteReq { candidate: (Term(3), RaftId(4)), last: (Term(0), 0) },
    ];
    let mut seen = Term(0);
    for (turn, msg) in inbox.into_iter().enumerate() {
        node.deliver(msg, 3, &mut adaptor, &mut disk);
        assert!(seen <= node.term());
        seen = node.term();
        if turn % 3 == 2 {
            node = Node::new_with(RaftId(0), 2, (0..5).map(RaftId).collect(), 10, 3, &mut disk, 1);
            assert_eq!(node.term(), seen);
        }
    }
    let mut granted = std::collections::HashMap::new();
    for peer in 1..5 {
        while let Some(msg) = network.receive(RaftId(peer)) {
            if let M::VoteAck { term } = msg {
                assert_eq!(*granted.entry(term.0).or_insert(peer), peer);
            }
        }
    }
    assert_eq!(granted, std::collections::HashMap::from([(3, 1), (4, 2)]));
}

#[test]
fn fifo_network_keeps_the_order_of_sending() {
    let mut net = MockFIFONetwork::<u64>::new(2);
    net.push(RaftId(1), 10);
    net.push(RaftId(0), 20);
    net.push(RaftId(1), 30);
    net.push(RaftId(2), 40);
    assert_eq!(net.pop(RaftId(1)), Some(10));
    assert_eq!(net.pop(RaftId(1)), Some(30));
    assert_eq!(net.pop(RaftId(1)), None);
    assert_eq!(net.pop(RaftId(0)), Some(20));
    assert_eq!(net.pop(RaftId(2)), None);
    let shared = MockFIFONetwork::<u64>::shared(2);
    shared.send(RaftId(0), RaftId(1), 5);
    shared.send(RaftId(0), RaftId(7), 6);
    assert_eq!(shared.receive(RaftId(0)), None);
    assert_eq!(shared.receive(RaftId(1)), Some(5));
    assert_eq!(shared.receive(RaftId(7)), None);
}

#[test]
fn burst_network_loses_what_the_dice_erase() {
    let mut net = BurstNetwork::<u64>::new(3);
    assert!(!net.is_upper(RaftId(0), RaftId(1)));
    net.accept(RaftId(0), RaftId(1), 10, true, false, true);
    assert!(net.is_upper(RaftId(0), RaftId(1)));
    assert!(!net.is_upper(RaftId(1), RaftId(0)));
    net.accept(RaftId(0), RaftId(1), 20, true, true, false);
    net.accept(RaftId(0), RaftId(1), 30, false, false, true);
    net.accept(RaftId(0), RaftId(5), 40, true, false, true);
    assert!(!net.is_upper(RaftId(0), RaftId(1)));
    assert!(!net.is_upper(RaftId(0), RaftId(5)));
    assert_eq!(net.timestamp(), 3);
    assert_eq!(net.pop(RaftId(1)), Some(10));
    assert_eq!(net.pop(RaftId(1)), Some(30));
    assert_eq!(net.pop(RaftId(1)), None);
    assert_eq!(net.pop(RaftId(5)), None);
    for i in 0..3 {
        assert!(!net.is_upper(RaftId(i), RaftId(i)));
        net.accept(RaftId(i), RaftId(i), 50 + i, false, false, true);
        assert!(!net.is_upper(RaftId(i), RaftId(i)));
        assert_eq!(net.pop(RaftId(i)), Some(50 + i));
    }
    for i in 0..3 {
        for j in 0..3 {
            assert!(!net.is_upper(RaftId(i), RaftId(j)));
        }
    }
    assert_eq!(net.timestamp(), 3);
}

#[test]
fn classic_messages_clone_to_equal_messages() {
    let request = M::ReplicateReq {
        commit: 1,
        leader: (Term(2), RaftId(3)),
        prefix: (Some(Term(1)), 1),
        patch: vec![entry(7, 7, 2), entry(8, 8, 2)],
    };
    assert_eq!(request.clone(), request);
    let proposal = M::ProposalReq { proposal: 4, id: ProposalId(1) };
    assert_eq!(proposal.clone(), proposal);
    assert!(M::VoteAck { term: Term(1) } != M::VoteRej { term: Term(1) });
}

#[test]
fn handle_takes_one_message_at_a_time() {
    let mut disk = MockPersistor::<u64>::new();
    let (network, mut adaptor, mut node) = node_on(1, &mut disk, 0);
    assert!(!node.handle(&mut adaptor, &mut disk));
    assert_eq!((node.term(), node.vote()), (Term(0), None));
    assert_eq!(network.receive(RaftId(3)), None);
    network.send(RaftId(3), RaftId(1), M::VoteReq { candidate: (Term(2), RaftId(3)), last: (Term(0), 0) });
    network.send(RaftId(3), RaftId(1), M::VoteRej { term: Term(5) });
    assert!(node.handle(&mut adaptor, &mut disk));
    assert_eq!((node.term(), node.vote()), (Term(2), Some(RaftId(3))));
    assert_eq!(network.receive(RaftId(3)), Some(M::VoteAck { term: Term(2) }));
    assert_eq!(network.receive(RaftId(3)), None);
    assert!(node.handle(&mut adaptor, &mut disk));
    assert_eq!((node.term(), node.vote()), (Term(5), None));
    assert_eq!(node.role(), &PaperRole::Candidate { count: 0 });
    assert!(!node.handle(&mut adaptor, &mut disk));
    assert_eq!(node.term(), Term(5));
    let lost = MockAdaptor::<M, _>::new(RaftId(9), network.clone());
    let mut lost = lost;
    network.send(RaftId(3), RaftId(9), M::VoteRej { term: Term(7) });
    assert!(!node.handle(&mut lost, &mut disk));
}

#[test]
fn a_follower_keeps_what_its_commit_watermark_shields() {
    let mut disk = MockPersistor::<u64>::new();
    disk.push(1, ProposalId(1), Term(1));
    disk.push(2, ProposalId(2), Term(1));
    disk.commit(1);
    let (network, mut adaptor, mut node) = node_on(1, &mut disk, 0);
    node.handle_replicate_with((Term(2), RaftId(3)), (None, 0), vec![entry(7, 7, 2)], 0, 0, &mut adaptor, &mut disk);
    assert_eq!(network.receive(RaftId(3)), Some(M::ReplicateAck { from: RaftId(1), sync: 0, tail: 2 }));
    assert_eq!(disk.slice(0..9), vec![entry(1, 1, 1), entry(2, 2, 1)]);
    node.handle_replicate_with(
        (Term(2), RaftId(3)),
        (Some(Term(1)), 1),
        vec![entry(7, 7, 2)],
        0,
        0,
        &mut adaptor,
        &mut disk,
    );
    assert_eq!(network.receive(RaftId(3)), Some(M::ReplicateAck { from: RaftId(1), sync: 2, tail: 2 }));
    assert_eq!(disk.slice(0..9), vec![entry(1, 1, 1), entry(7, 7, 2)]);
    assert_eq!(disk.commitable(), 1);
}

#[test]
fn silence_opens_an_election_within_the_bound() {
    let mut disk = MockPersistor::<u64>::new();
    disk.persist(Term(5), Some(RaftId(4)));
    let (network, mut adaptor, mut node) = node_on(2, &mut disk, 3);
    for passed in 1..7 {
        node.tick_with(8, &mut adaptor, &mut disk);
        assert_eq!(node.timeout_elect(), 3 + passed);
        assert_eq!((node.term(), node.vote()), (Term(5), Some(RaftId(4))));
        assert_eq!(network.receive(RaftId(0)), None);
    }
    node.tick_with(8, &mut adaptor, &mut disk);
    assert_eq!((node.term(), node.vote()), (Term(6), Some(RaftId(2))));
    assert_eq!(node.role(), &PaperRole::Candidate { count: 1 });
    assert_eq!(disk.load(), (Term(6), Some(RaftId(2))));
    for peer in [0, 1, 3, 4] {
        assert_eq!(
            network.receive(RaftId(peer)),
            Some(M::VoteReq { candidate: (Term(6), RaftId(2)), last: (Term(0), 0) })
        );
        assert_eq!(network.receive(RaftId(peer)), None);
    }
}
