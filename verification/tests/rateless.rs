use std::collections::HashMap;
use std::marker::PhantomData;

use raft_luby::codeword::{peel, Codeword};
use raft_luby::luby::{LubyRole, RaftLubyImpl};
use raft_luby::message::RaftLubyMsg;
use raft_luby::network::{MockAdaptor, MockFIFONetwork, MockNetwork, SharedFIFONetwork};
use raft_luby::nums::{ProposalId, RaftId, Term};
use raft_luby::sampling::{deal, degree_for};
use raft_luby::store::{MockPersistor, Persistor};

type M = RaftLubyMsg<u64>;

fn word(data: u64, symb: &[u64]) -> Codeword<u64> {
    Codeword::new(data, symb.iter().map(|id| ProposalId(*id)).collect())
}

fn entry(payload: u64, id: u64, term: u64) -> (u64, ProposalId, Term) {
    (payload, ProposalId(id), Term(term))
}

/// The proposals `ids`, each of term `term`, as a request names them.
fn names(ids: &[u64], term: u64) -> Vec<(ProposalId, Term)> {
    ids.iter().map(|id| (ProposalId(*id), Term(term))).collect()
}

fn replica(id: u64, role: LubyRole, term: u64, commitable: usize) -> RaftLubyImpl<u64> {
    RaftLubyImpl {
        id: RaftId(id),
        batch: 2,
        peers: vec![RaftId(0), RaftId(1), RaftId(2)],
        degdist: vec![1, 2, 1],
        phantom: PhantomData,
        term: Term(term),
        vote: None,
        buff: vec![],
        known: vec![],
        role,
        commitable,
        timeout_elect: 0,
        timeout_heart: 5,
        bound_elect: 10,
        bound_heart: 2,
    }
}

fn leader_books() -> LubyRole {
    LubyRole::Leader { matched: HashMap::from([(1, 0), (2, 0)]) }
}

fn wired(id: u64) -> (SharedFIFONetwork<M>, MockAdaptor<M, SharedFIFONetwork<M>>) {
    let network = MockFIFONetwork::<M>::shared(3);
    let adaptor = MockAdaptor::new(RaftId(id), network.clone());
    (network, adaptor)
}

#[test]
fn encode_combines_the_picked_entries() {
    let entries = vec![entry(1, 11, 1), entry(2, 12, 1), entry(4, 13, 1)];
    assert_eq!(Codeword::encode(&entries, &vec![0, 2]), word(5, &[11, 13]));
    assert_eq!(Codeword::encode(&entries, &vec![1]), word(2, &[12]));
    assert_eq!(Codeword::encode(&entries, &vec![2, 1, 0]), word(7, &[13, 12, 11]));
    let made = Codeword::encode(&entries, &vec![0, 1]);
    assert_eq!(made.data(), &3);
    assert_eq!(made.symb(), &vec![ProposalId(11), ProposalId(12)]);
    assert_eq!(made.clone(), made);
}

#[test]
fn strike_takes_a_resolved_proposal_out() {
    let mut both = word(5, &[11, 13]);
    both.strike(ProposalId(11), &1);
    assert_eq!(both, word(4, &[13]));
    both.strike(ProposalId(12), &2);
    assert_eq!(both, word(4, &[13]));
    both.strike(ProposalId(13), &4);
    assert_eq!(both, word(0, &[]));
}

#[test]
fn peel_resolves_what_degree_one_unlocks() {
    let buffer = vec![word(5, &[11, 13]), word(1, &[11]), word(6, &[12, 13])];
    let (resolved, rest) = peel(buffer);
    assert_eq!(resolved, vec![(ProposalId(11), 1), (ProposalId(13), 4), (ProposalId(12), 2)]);
    assert_eq!(rest, vec![]);
}

#[test]
fn peel_leaves_what_it_cannot_resolve() {
    let buffer = vec![word(3, &[11, 12]), word(6, &[12, 13]), word(8, &[14])];
    let (resolved, rest) = peel(buffer);
    assert_eq!(resolved, vec![(ProposalId(14), 8)]);
    assert_eq!(rest, vec![word(3, &[11, 12]), word(6, &[12, 13])]);
    let (resolved, rest) = peel(vec![]);
    assert_eq!(resolved, vec![]);
    assert_eq!(rest, Vec::<Codeword<u64>>::new());
}

#[test]
fn peel_recovers_every_entry_from_enough_codewords() {
    let entries = (0..6u64).map(|i| entry(1 << i, 100 + i, 1)).collect::<Vec<_>>();
    let picks: Vec<Vec<usize>> =
        vec![vec![0], vec![0, 1], vec![1, 2], vec![2, 3, 4], vec![3], vec![4, 5], vec![0, 5], vec![1, 3]];
    let buffer = picks.iter().map(|picks| Codeword::encode(&entries, picks)).collect::<Vec<_>>();
    let (resolved, rest) = peel(buffer);
    assert!(rest.is_empty());
    let decoded = resolved.into_iter().collect::<HashMap<_, _>>();
    assert_eq!(decoded.len(), 6);
    for (payload, id, _) in entries {
        assert_eq!(decoded.get(&id), Some(&payload));
    }
}

#[test]
fn degree_follows_the_weights() {
    let weights = vec![1, 2, 1];
    assert_eq!(degree_for(&weights, 0), Some(1));
    assert_eq!(degree_for(&weights, 1), Some(2));
    assert_eq!(degree_for(&weights, 2), Some(2));
    assert_eq!(degree_for(&weights, 3), Some(3));
    assert_eq!(degree_for(&weights, 4), Some(1));
    assert_eq!(degree_for(&vec![0, 0, 5], 77), Some(3));
    assert_eq!(degree_for(&vec![0, 0], 3), None);
    assert_eq!(degree_for(&vec![], 3), None);
    assert_eq!(degree_for(&vec![u64::MAX, u64::MAX], u64::MAX), Some(2));
    assert_eq!(degree_for(&vec![u64::MAX, u64::MAX], u64::MAX - 1), Some(1));
}

#[test]
fn deal_picks_each_entry_at_most_once() {
    assert_eq!(deal(5, 3, &vec![0, 0, 0]), vec![0, 1, 2]);
    assert_eq!(deal(5, 3, &vec![4, 0, 0]), vec![4, 1, 2]);
    assert_eq!(deal(5, 3, &vec![4, 3, 1]), vec![4, 0, 3]);
    assert_eq!(deal(5, 0, &vec![]), vec![]);
    assert_eq!(deal(3, 3, &vec![7, 7, 7]), vec![1, 2, 0]);
    for seed in 0..50u64 {
        let draws = (0..4).map(|i| seed.wrapping_mul(2654435761).wrapping_add(i * 97)).collect::<Vec<_>>();
        let mut picks = deal(9, 4, &draws);
        assert!(picks.iter().all(|pick| *pick < 9));
        picks.sort();
        picks.dedup();
        assert_eq!(picks.len(), 4);
    }
}

#[test]
fn encode_with_ranges_over_the_entries_past_the_commit_index() {
    let mut disk = MockPersistor::<u64>::new();
    for i in 0..4u64 {
        disk.push(1 << i, ProposalId(100 + i), Term(1));
    }
    let node = replica(0, leader_books(), 1, 1);
    assert_eq!(node.encode_with(&mut disk, 0, &vec![0, 0, 0]), Some(word(2, &[101])));
    assert_eq!(node.encode_with(&mut disk, 1, &vec![2, 0, 0]), Some(word(12, &[103, 102])));
    assert_eq!(node.encode_with(&mut disk, 3, &vec![0, 0, 0]), Some(word(14, &[101, 102, 103])));
    let idle = replica(0, leader_books(), 1, 4);
    assert_eq!(idle.encode_with(&mut disk, 0, &vec![0, 0, 0]), None);
    let mut mute = replica(0, leader_books(), 1, 1);
    mute.degdist = vec![0, 0];
    assert_eq!(mute.encode_with(&mut disk, 0, &vec![0, 0]), None);
}

#[test]
fn encode_draws_a_codeword_over_the_suffix() {
    let mut disk = MockPersistor::<u64>::new();
    for i in 0..5u64 {
        disk.push(1 << i, ProposalId(100 + i), Term(1));
    }
    let mut node = replica(0, leader_books(), 1, 2);
    for _ in 0..40 {
        let made = node.encode(&mut disk).unwrap();
        let degree = made.symb().len();
        assert!(1 <= degree && degree <= 3);
        let mut data = 0;
        for id in made.symb() {
            assert!(102 <= id.0 && id.0 <= 104);
            data ^= 1 << (id.0 - 100);
        }
        assert_eq!(made.data(), &data);
    }
}

#[test]
fn leader_ships_patches_from_the_committed_boundary() {
    let (network, mut adaptor) = wired(0);
    let mut disk = MockPersistor::<u64>::new();
    for i in 0..3u64 {
        disk.push(1 << i, ProposalId(100 + i), Term(2));
    }
    let mut node = replica(0, leader_books(), 2, 1);
    node.replicate_with(vec![vec![word(2, &[101])], vec![word(6, &[101, 102])]], &mut adaptor, &mut disk);
    assert_eq!(node.timeout_heart, 0);
    assert_eq!(
        network.receive(RaftId(1)),
        Some(RaftLubyMsg::ReplicateReq {
            commit: 1,
            leader: (Term(2), RaftId(0)),
            prefix: (Some(Term(2)), 1),
            names: names(&[101, 102], 2),
            patch: vec![word(2, &[101])],
        })
    );
    assert_eq!(
        network.receive(RaftId(2)),
        Some(RaftLubyMsg::ReplicateReq {
            commit: 1,
            leader: (Term(2), RaftId(0)),
            prefix: (Some(Term(2)), 1),
            names: names(&[101, 102], 2),
            patch: vec![word(6, &[101, 102])],
        })
    );
    assert_eq!(network.receive(RaftId(0)), None);
    node.replicate(&mut adaptor, &mut disk);
    for peer in 1..3 {
        match network.receive(RaftId(peer)) {
            Some(RaftLubyMsg::ReplicateReq { commit, leader, prefix, names: named, patch }) => {
                assert_eq!((commit, leader, prefix), (1, (Term(2), RaftId(0)), (Some(Term(2)), 1)));
                assert_eq!(named, names(&[101, 102], 2));
                assert_eq!(patch.len(), 2);
                for made in patch {
                    let data = made.symb().iter().fold(0, |data, id| data ^ (1 << (id.0 - 100)));
                    assert!(!made.symb().is_empty() && made.symb().iter().all(|id| id.0 == 101 || id.0 == 102));
                    assert_eq!(made.data(), &data);
                }
            }
            other => panic!("{other:?}"),
        }
    }
    let mut follower = replica(1, LubyRole::Follower { leader: Some(RaftId(0)) }, 2, 0);
    follower.replicate_with(vec![vec![], vec![]], &mut adaptor, &mut disk);
    assert_eq!(follower.timeout_heart, 5);
    assert_eq!(network.receive(RaftId(0)), None);
    assert_eq!(network.receive(RaftId(2)), None);
}

#[test]
fn follower_merges_what_it_resolves_without_a_gap() {
    let (network, mut adaptor) = wired(1);
    let mut disk = MockPersistor::<u64>::new();
    disk.push(1, ProposalId(100), Term(1));
    let mut node = replica(1, LubyRole::Candidate { count: 0 }, 1, 0);
    let leader = (Term(2), RaftId(0));
    let named = names(&[101, 102, 103, 104], 2);
    let resolved = node.handle_replicate_with(
        leader,
        (Some(Term(1)), 1),
        named.clone(),
        vec![word(6, &[101, 102]), word(24, &[103, 104])],
        1,
        23,
        &mut adaptor,
        &mut disk,
    );
    assert_eq!(resolved, vec![]);
    assert_eq!(node.buff, vec![word(6, &[101, 102]), word(24, &[103, 104])]);
    assert_eq!(node.known, vec![]);
    assert_eq!(node.role, LubyRole::Follower { leader: Some(RaftId(0)) });
    assert_eq!((node.term, node.vote, node.timeout_elect, node.commitable), (Term(2), None, 3, 1));
    assert_eq!(disk.load(), (Term(2), None));
    assert_eq!(disk.commitable(), 1);
    assert_eq!(disk.last(), (Term(1), 1));
    assert_eq!(
        network.receive(RaftId(0)),
        Some(RaftLubyMsg::ReplicateAck { from: RaftId(1), sync: 1, tail: 1 })
    );
    let resolved = node.handle_replicate_with(
        leader,
        (Some(Term(1)), 1),
        named.clone(),
        vec![word(4, &[102])],
        0,
        5,
        &mut adaptor,
        &mut disk,
    );
    assert_eq!(resolved, vec![(ProposalId(102), 4), (ProposalId(101), 2)]);
    assert_eq!(node.buff, vec![word(24, &[103, 104])]);
    assert_eq!(node.known, vec![(ProposalId(102), 4), (ProposalId(101), 2)]);
    assert_eq!(node.commitable, 1);
    assert_eq!(disk.slice(0..9), vec![entry(1, 100, 1), entry(2, 101, 2), entry(4, 102, 2)]);
    assert_eq!(
        network.receive(RaftId(0)),
        Some(RaftLubyMsg::ReplicateAck { from: RaftId(1), sync: 3, tail: 3 })
    );
    let resolved = node.handle_replicate_with(
        leader,
        (Some(Term(1)), 1),
        named.clone(),
        vec![word(16, &[104])],
        3,
        5,
        &mut adaptor,
        &mut disk,
    );
    assert_eq!(
        resolved,
        vec![(ProposalId(102), 4), (ProposalId(101), 2), (ProposalId(104), 16), (ProposalId(103), 8)]
    );
    assert_eq!(node.buff, vec![]);
    assert_eq!(node.known, resolved);
    assert_eq!(
        disk.slice(0..9),
        vec![entry(1, 100, 1), entry(2, 101, 2), entry(4, 102, 2), entry(8, 103, 2), entry(16, 104, 2)]
    );
    assert_eq!((node.commitable, disk.commitable()), (3, 3));
    assert_eq!(
        network.receive(RaftId(0)),
        Some(RaftLubyMsg::ReplicateAck { from: RaftId(1), sync: 5, tail: 5 })
    );
}

#[test]
fn follower_waits_for_the_first_entry_before_it_merges_the_second() {
    let (network, mut adaptor) = wired(1);
    let mut disk = MockPersistor::<u64>::new();
    let mut node = replica(1, LubyRole::Candidate { count: 0 }, 0, 0);
    let leader = (Term(1), RaftId(0));
    let named = names(&[101, 102], 1);
    let resolved =
        node.handle_replicate_with(leader, (None, 0), named.clone(), vec![word(4, &[102])], 0, 0, &mut adaptor, &mut disk);
    assert_eq!(resolved, vec![(ProposalId(102), 4)]);
    assert_eq!(node.buff, vec![]);
    assert_eq!(node.known, vec![(ProposalId(102), 4)]);
    assert_eq!(disk.last(), (Term(0), 0));
    assert_eq!(
        network.receive(RaftId(0)),
        Some(RaftLubyMsg::ReplicateAck { from: RaftId(1), sync: 0, tail: 0 })
    );
    let resolved =
        node.handle_replicate_with(leader, (None, 0), named, vec![word(6, &[101, 102])], 0, 0, &mut adaptor, &mut disk);
    assert_eq!(resolved, vec![(ProposalId(102), 4), (ProposalId(101), 2)]);
    assert_eq!(disk.slice(0..9), vec![entry(2, 101, 1), entry(4, 102, 1)]);
    assert_eq!(
        network.receive(RaftId(0)),
        Some(RaftLubyMsg::ReplicateAck { from: RaftId(1), sync: 2, tail: 2 })
    );
}

#[test]
fn follower_turns_down_stale_leaders_and_wrong_boundaries() {
    let (network, mut adaptor) = wired(1);
    let mut disk = MockPersistor::<u64>::new();
    disk.push(1, ProposalId(100), Term(1));
    let mut node = replica(1, LubyRole::Candidate { count: 1 }, 3, 0);
    let resolved = node.handle_replicate_with(
        (Term(2), RaftId(0)),
        (None, 0),
        names(&[101], 2),
        vec![word(2, &[101])],
        0,
        5,
        &mut adaptor,
        &mut disk,
    );
    assert_eq!(resolved, vec![]);
    assert_eq!(node.role, LubyRole::Candidate { count: 1 });
    assert_eq!(node.buff, vec![]);
    assert_eq!(
        network.receive(RaftId(0)),
        Some(RaftLubyMsg::ReplicateRej { from: RaftId(1), term: Term(3), at: 0 })
    );
    for prefix in [(Some(Term(2)), 1), (None, 4), (Some(Term(1)), 2)] {
        let resolved = node.handle_replicate_with(
            (Term(4), RaftId(2)),
            prefix,
            names(&[101], 4),
            vec![word(2, &[101])],
            0,
            5,
            &mut adaptor,
            &mut disk,
        );
        assert_eq!(resolved, vec![]);
        assert_eq!(node.buff, vec![]);
        assert_eq!(
            network.receive(RaftId(2)),
            Some(RaftLubyMsg::ReplicateRej { from: RaftId(1), term: Term(4), at: prefix.1 })
        );
    }
    assert_eq!(node.role, LubyRole::Follower { leader: Some(RaftId(2)) });
    assert_eq!(node.term, Term(4));
    assert_eq!(disk.slice(0..9), vec![entry(1, 100, 1)]);
    let _ = node.handle_replicate(
        (Term(4), RaftId(2)),
        (Some(Term(1)), 1),
        vec![],
        vec![],
        0,
        &mut adaptor,
        &mut disk,
    );
    assert!(node.timeout_elect < 10);
    assert_eq!(
        network.receive(RaftId(2)),
        Some(RaftLubyMsg::ReplicateAck { from: RaftId(1), sync: 1, tail: 1 })
    );
}

#[test]
fn follower_keeps_what_its_commit_watermark_shields() {
    let (network, mut adaptor) = wired(1);
    let mut disk = MockPersistor::<u64>::new();
    disk.push(1, ProposalId(100), Term(1));
    disk.push(2, ProposalId(101), Term(1));
    disk.commit(2);
    let mut node = replica(1, LubyRole::Candidate { count: 0 }, 1, 2);
    let resolved = node.handle_replicate_with(
        (Term(2), RaftId(0)),
        (Some(Term(1)), 1),
        names(&[201, 202], 2),
        vec![word(7, &[201]), word(9, &[202])],
        0,
        0,
        &mut adaptor,
        &mut disk,
    );
    assert_eq!(resolved, vec![(ProposalId(201), 7), (ProposalId(202), 9)]);
    assert_eq!(disk.slice(0..9), vec![entry(1, 100, 1), entry(2, 101, 1)]);
    assert_eq!(disk.commitable(), 2);
    assert_eq!(
        network.receive(RaftId(0)),
        Some(RaftLubyMsg::ReplicateAck { from: RaftId(1), sync: 1, tail: 2 })
    );
}

#[test]
fn rateless_leader_commits_on_a_majority_of_its_own_term() {
    let mut disk = MockPersistor::<u64>::new();
    disk.push(1, ProposalId(100), Term(1));
    disk.push(2, ProposalId(101), Term(2));
    let mut node = replica(0, leader_books(), 2, 0);
    node.handle_replicate_ack(RaftId(1), 1, 1, &mut disk);
    assert_eq!(node.commitable, 0);
    node.handle_replicate_ack(RaftId(7), 2, 2, &mut disk);
    assert_eq!(node.commitable, 0);
    node.handle_replicate_ack(RaftId(2), 2, 2, &mut disk);
    assert_eq!(node.commitable, 2);
    assert_eq!(disk.commitable(), 2);
    assert_eq!(node.role, LubyRole::Leader { matched: HashMap::from([(1, 1), (2, 2)]) });
}

#[test]
fn rateless_refusal_of_a_larger_term_ends_the_term() {
    let mut disk = MockPersistor::<u64>::new();
    let mut node = replica(0, leader_books(), 2, 0);
    node.vote = Some(RaftId(0));
    node.handle_replicate_rej(RaftId(1), Term(2), 4, &mut disk);
    assert_eq!(node.role, leader_books());
    assert_eq!(node.term, Term(2));
    node.handle_replicate_rej(RaftId(1), Term(5), 4, &mut disk);
    assert_eq!(node.role, LubyRole::Candidate { count: 0 });
    assert_eq!((node.term, node.vote), (Term(5), None));
    assert_eq!(disk.load(), (Term(5), None));
    let mut follower = replica(1, LubyRole::Follower { leader: Some(RaftId(0)) }, 2, 0);
    follower.handle_replicate_rej(RaftId(2), Term(6), 0, &mut disk);
    assert_eq!(follower.role, LubyRole::Follower { leader: None });
    assert_eq!(follower.term, Term(6));
}

#[test]
fn messages_clone_to_equal_messages() {
    let msg = RaftLubyMsg::ReplicateReq {
        commit: 1,
        leader: (Term(2), RaftId(0)),
        prefix: (None, 0),
        names: names(&[101, 102], 1),
        patch: vec![word(6, &[101, 102])],
    };
    assert_eq!(msg.clone(), msg);
    let ack = M::VoteAck { term: Term(2) };
    assert_eq!(ack.clone(), ack);
}

#[test]
fn a_follower_recovers_the_entries_behind_the_codewords_it_gathers() {
    let mut leader_disk = MockPersistor::<u64>::new();
    let entries = (0..10u64).map(|i| entry(0x9e37_79b9 * (i + 1), 500 + i, 1)).collect::<Vec<_>>();
    for (payload, id, term) in &entries {
        leader_disk.push(*payload, *id, *term);
    }
    let mut leader = replica(0, leader_books(), 1, 0);
    leader.batch = 13;
    // The ideal soliton distribution over ten entries, in shares of 90.
    leader.degdist = vec![9, 45, 15, 7, 5, 3, 2, 2, 1, 1];
    let mut seed = 7u64;
    let mut draw = move || {
        seed = seed.wrapping_mul(6364136223846793005).wrapping_add(1442695040888963407);
        seed >> 17
    };
    let patch = (0..13)
        .map(|_| {
            let degree_draw = draw();
            let pick_draws = (0..10).map(|_| draw()).collect::<Vec<_>>();
            leader.encode_with(&mut leader_disk, degree_draw, &pick_draws).unwrap()
        })
        .collect::<Vec<_>>();
    for made in &patch {
        let mut data = 0;
        for id in made.symb() {
            data ^= entries[(id.0 - 500) as usize].0;
        }
        assert_eq!(made.data(), &data);
    }
    let (network, mut adaptor) = wired(1);
    let mut disk = MockPersistor::<u64>::new();
    let mut follower = replica(1, LubyRole::Candidate { count: 0 }, 0, 0);
    let named = entries.iter().map(|(_, id, term)| (*id, *term)).collect::<Vec<_>>();
    let resolved =
        follower.handle_replicate_with((Term(1), RaftId(0)), (None, 0), named, patch, 0, 0, &mut adaptor, &mut disk);
    assert!(!resolved.is_empty());
    let mut seen = std::collections::HashSet::new();
    for (id, payload) in &resolved {
        assert_eq!(entries[(id.0 - 500) as usize].0, *payload);
        assert!(seen.insert(*id));
    }
    assert_eq!(follower.known, resolved);
    for left in &follower.buff {
        assert!(left.symb().len() >= 2);
        assert!(left.symb().iter().all(|id| !seen.contains(id)));
    }
    let ready = entries.iter().take_while(|(_, id, _)| seen.contains(id)).count();
    assert_eq!(disk.slice(0..99), entries[..ready].to_vec());
    assert_eq!(
        network.receive(RaftId(0)),
        Some(RaftLubyMsg::ReplicateAck { from: RaftId(1), sync: ready, tail: ready })
    );
    let rest = (0..10)
        .map(|i| Codeword::encode(&entries, &vec![i]))
        .collect::<Vec<_>>();
    let named = entries.iter().map(|(_, id, term)| (*id, *term)).collect::<Vec<_>>();
    let resolved =
        follower.handle_replicate_with((Term(1), RaftId(0)), (None, 0), named, rest, 0, 0, &mut adaptor, &mut disk);
    assert_eq!(resolved.len(), 10);
    assert_eq!(disk.slice(0..99), entries);
    assert_eq!(
        network.receive(RaftId(0)),
        Some(RaftLubyMsg::ReplicateAck { from: RaftId(1), sync: 10, tail: 10 })
    );
}

type Node = RaftLubyImpl<u64>;
type Wire = MockAdaptor<M, SharedFIFONetwork<M>>;

/// Three rateless replicas with empty logs; replica `i` starts with its
/// election timer at `timers[i]` of 10.
fn cluster(timers: [u64; 3]) -> (SharedFIFONetwork<M>, Vec<Wire>, Vec<MockPersistor<u64>>, Vec<Node>) {
    let network = MockFIFONetwork::<M>::shared(3);
    let adaptors = (0..3).map(|i| MockAdaptor::new(RaftId(i), network.clone())).collect::<Vec<_>>();
    let mut disks = vec![MockPersistor::<u64>::new(); 3];
    let nodes = (0..3usize)
        .map(|i| {
            let peers = (0..3).map(RaftId).collect::<Vec<_>>();
            Node::new_with(RaftId(i as u64), 2, peers, vec![1, 1], 10, 2, &mut disks[i], timers[i])
        })
        .collect::<Vec<_>>();
    (network, adaptors, disks, nodes)
}

#[test]
fn a_rateless_replica_starts_as_a_candidate_without_votes() {
    let mut disk = MockPersistor::<u64>::new();
    disk.persist(Term(3), Some(RaftId(2)));
    disk.commit(4);
    let node = Node::new_with(RaftId(1), 5, vec![RaftId(0), RaftId(1)], vec![2, 1], 10, 3, &mut disk, 38);
    assert_eq!((node.id, node.batch, node.term, node.vote), (RaftId(1), 5, Term(3), Some(RaftId(2))));
    assert_eq!(node.role, LubyRole::Candidate { count: 0 });
    assert_eq!((node.commitable, node.timeout_elect, node.timeout_heart), (4, 8, 0));
    assert_eq!((node.bound_elect, node.bound_heart), (10, 3));
    assert_eq!(node.peers, vec![RaftId(0), RaftId(1)]);
    assert_eq!(node.degdist, vec![2, 1]);
    assert_eq!(node.buff, vec![]);
    assert_eq!(node.known, vec![]);
    let drawn = Node::new(RaftId(1), 5, vec![RaftId(0)], vec![1], 10, 3, &mut disk);
    assert!(drawn.timeout_elect < 10);
}

#[test]
fn a_rateless_election_runs_as_a_classic_one() {
    let (network, mut adaptors, mut disks, mut nodes) = cluster([9, 0, 0]);
    nodes[0].tick_with(24, &mut adaptors[0], &mut disks[0]);
    assert_eq!(nodes[0].role, LubyRole::Candidate { count: 1 });
    assert_eq!((nodes[0].term, nodes[0].vote, nodes[0].timeout_elect), (Term(1), Some(RaftId(0)), 4));
    assert_eq!(disks[0].load(), (Term(1), Some(RaftId(0))));
    let ask = M::VoteReq { candidate: (Term(1), RaftId(0)), last: (Term(0), 0) };
    assert_eq!(network.receive(RaftId(1)), Some(ask.clone()));
    assert_eq!(network.receive(RaftId(2)), Some(ask.clone()));
    assert_eq!(network.receive(RaftId(0)), None);
    assert_eq!(nodes[1].deliver(ask.clone(), 0, &mut adaptors[1], &mut disks[1]), vec![]);
    assert_eq!((nodes[1].term, nodes[1].vote), (Term(1), Some(RaftId(0))));
    assert_eq!(nodes[1].role, LubyRole::Follower { leader: None });
    nodes[2].handle_vote_req((Term(1), RaftId(1)), (Term(0), 0), &mut adaptors[2], &mut disks[2]);
    assert_eq!(network.receive(RaftId(1)), Some(M::VoteAck { term: Term(1) }));
    nodes[2].handle_vote_req((Term(1), RaftId(0)), (Term(0), 0), &mut adaptors[2], &mut disks[2]);
    assert_eq!(nodes[2].vote, Some(RaftId(1)));
    assert_eq!(network.receive(RaftId(0)), Some(M::VoteAck { term: Term(1) }));
    assert_eq!(network.receive(RaftId(0)), Some(M::VoteRej { term: Term(1) }));
    nodes[0].handle_vote_rej(Term(1), &mut disks[0]);
    assert_eq!(nodes[0].role, LubyRole::Candidate { count: 1 });
    nodes[0].handle_vote_ack(Term(0), &mut adaptors[0], &mut disks[0]);
    assert_eq!(nodes[0].role, LubyRole::Candidate { count: 1 });
    nodes[0].handle_vote_ack(Term(1), &mut adaptors[0], &mut disks[0]);
    assert_eq!(nodes[0].role, LubyRole::Leader { matched: HashMap::from([(1, 0), (2, 0)]) });
    assert_eq!(nodes[0].timeout_heart, 0);
    for peer in 1..3 {
        assert_eq!(
            network.receive(RaftId(peer)),
            Some(M::ReplicateReq {
                commit: 0,
                leader: (Term(1), RaftId(0)),
                prefix: (None, 0),
                names: vec![],
                patch: vec![],
            })
        );
    }
    nodes[0].coup_detat_with(3, &mut adaptors[0], &mut disks[0]);
    assert_eq!(nodes[0].term, Term(1));
    nodes[1].coup_detat(&mut adaptors[1], &mut disks[1]);
    assert_eq!((nodes[1].term, nodes[1].vote), (Term(2), Some(RaftId(1))));
    assert!(nodes[1].timeout_elect < 10);
    nodes[1].handle_vote_rej(Term(5), &mut disks[1]);
    assert_eq!(nodes[1].role, LubyRole::Candidate { count: 0 });
    assert_eq!(disks[1].load(), (Term(5), None));
    nodes[1].handle_vote_ack(Term(8), &mut adaptors[1], &mut disks[1]);
    assert_eq!(nodes[1].role, LubyRole::Follower { leader: None });
    assert_eq!(disks[1].load(), (Term(8), None));
}

#[test]
fn a_rateless_leader_takes_proposals_and_ships_codewords_over_them() {
    let (network, mut adaptors, mut disks, mut nodes) = cluster([9, 0, 0]);
    assert_eq!(
        nodes[0].propose(3, ProposalId(1), &mut adaptors[0], &mut disks[0]),
        Err(raft_luby::nums::RaftErr::ProposalFailed { id: ProposalId(1) })
    );
    nodes[0].tick(&mut adaptors[0], &mut disks[0]);
    while let Some(msg) = network.receive(RaftId(1)) {
        let _ = nodes[1].deliver(msg, 0, &mut adaptors[1], &mut disks[1]);
    }
    assert_eq!(nodes[0].handle(&mut adaptors[0], &mut disks[0]), Some(vec![]));
    assert!(matches!(nodes[0].role, LubyRole::Leader { .. }));
    assert_eq!(nodes[0].handle(&mut adaptors[0], &mut disks[0]), None);
    for peer in 1..3 {
        while network.receive(RaftId(peer)).is_some() {}
    }
    assert_eq!(nodes[1].role, LubyRole::Follower { leader: None });
    assert_eq!(nodes[0].propose(6, ProposalId(2), &mut adaptors[0], &mut disks[0]), Ok(()));
    assert_eq!(disks[0].slice(0..9), vec![entry(6, 2, 1)]);
    let shipped = network.receive(RaftId(1)).unwrap();
    match &shipped {
        M::ReplicateReq { commit, leader, prefix, names: named, patch } => {
            assert_eq!((*commit, *leader, *prefix), (0, (Term(1), RaftId(0)), (None, 0)));
            assert_eq!(named, &names(&[2], 1));
            assert_eq!(patch, &vec![word(6, &[2]), word(6, &[2])]);
        }
        other => panic!("{other:?}"),
    }
    assert_eq!(nodes[1].deliver(shipped, 7, &mut adaptors[1], &mut disks[1]), vec![(ProposalId(2), 6)]);
    assert_eq!(nodes[1].role, LubyRole::Follower { leader: Some(RaftId(0)) });
    assert_eq!(nodes[1].buff, vec![]);
    assert_eq!(nodes[1].known, vec![(ProposalId(2), 6)]);
    assert_eq!(disks[1].slice(0..9), vec![entry(6, 2, 1)]);
    assert_eq!(nodes[1].propose(9, ProposalId(3), &mut adaptors[1], &mut disks[1]), Ok(()));
    assert_eq!(network.receive(RaftId(0)), Some(M::ReplicateAck { from: RaftId(1), sync: 1, tail: 1 }));
    assert_eq!(network.receive(RaftId(0)), Some(M::ProposalReq { proposal: 9, id: ProposalId(3) }));
    while network.receive(RaftId(2)).is_some() {}
    nodes[0].tick_with(0, &mut adaptors[0], &mut disks[0]);
    assert_eq!(network.receive(RaftId(2)), None);
    nodes[0].tick_with(0, &mut adaptors[0], &mut disks[0]);
    assert_eq!(nodes[0].timeout_heart, 0);
    assert!(matches!(network.receive(RaftId(2)), Some(M::ReplicateReq { .. })));
}
