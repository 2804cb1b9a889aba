//! Elections: candidacy, and the handling of vote requests and their
//! answers.

use vstd::prelude::*;
use std::collections::HashMap;
use crate::nums::{RaftId, Term};
use crate::log::exact_clone;
use crate::store::Persistor;
use crate::message::RaftPaperMsg;
use crate::network::Adaptor;
use crate::replica::{draw_u64, PaperRole, RaftPaperImpl};
use crate::rules;

verus! {

broadcast use vstd::std_specs::hash::group_hash_axioms;

/// The books of a new leader: every peer at `index`.
pub fn books(peers: &Vec<RaftId>, index: usize) -> (map: HashMap<u64, usize>)
    ensures
        map@ == rules::books(peers@, index),
{
    let mut map: HashMap<u64, usize> = HashMap::new();
    let mut i: usize = 0;
    while i < peers.len()
        invariant
            i <= peers.len(),
            map@ == rules::books(peers@.take(i as int), index),
        decreases peers.len() - i,
    {
        map.insert(peers[i].0, index);
        proof {
            let before = peers@.take(i as int);
            let after = peers@.take(i + 1);
            assert(after == before.push(peers@[i as int]));
            assert forall|k: u64| after.contains(RaftId(k)) <==> (before.contains(RaftId(k)) || k
                == peers@[i as int].0) by {
                if before.contains(RaftId(k)) {
                    let j = choose|j: int| 0 <= j < before.len() && before[j] == RaftId(k);
                    assert(after[j] == RaftId(k));
                }
                if k == peers@[i as int].0 {
                    assert(after[i as int] == RaftId(k));
                }
            }
            assert(map@ =~= rules::books(after, index));
        }
        i += 1;
    }
    assert(peers@.take(peers.len() as int) == peers@);
    map
}

impl<Proposal: Clone> RaftPaperImpl<Proposal> {
    /// Starts a candidacy with a random election timer: see
    /// `coup_detat_with`.
    pub fn coup_detat(
        &mut self,
        adaptor: &mut impl Adaptor<RaftPaperMsg<Proposal>>,
        disk: &mut impl Persistor<Proposal>,
    )
        requires
            old(self)@.bound_elect > 0,
            old(self)@.role is Leader || old(self)@.term.0 < u64::MAX,
        ensures
            exists|draw: u64|
                (#[trigger] old(self)@.on_election_timeout(old(disk)@, draw)).lands(
                    final(self)@,
                    final(disk)@,
                    old(adaptor).sent(),
                    final(adaptor).sent(),
                ),
        final(adaptor).received() == old(adaptor).received(),
    {
        let draw = draw_u64();
        self.coup_detat_with(draw, adaptor, disk);
        assert(old(self)@.on_election_timeout(old(disk)@, draw).lands(
            self@,
            disk@,
            old(adaptor).sent(),
            adaptor.sent(),
        ));
    }

    /// Starts a candidacy, unless the replica leads: the next term begins,
    /// the replica votes for itself and records it, the election timer is set
    /// from `draw`, and every peer is asked for its vote.
    pub fn coup_detat_with(
        &mut self,
        draw: u64,
        adaptor: &mut impl Adaptor<RaftPaperMsg<Proposal>>,
        disk: &mut impl Persistor<Proposal>,
    )
        requires
            old(self)@.bound_elect > 0,
            old(self)@.role is Leader || old(self)@.term.0 < u64::MAX,
        ensures
            old(self)@.on_election_timeout(old(disk)@, draw).lands(
                final(self)@,
                final(disk)@,
                old(adaptor).sent(),
                final(adaptor).sent(),
            ),
        final(adaptor).received() == old(adaptor).received(),
    {
        if let PaperRole::Leader { .. } = self.role {
            return ;
        }
        self.term = Term(self.term.0 + 1);
        self.role = PaperRole::Candidate { count: 1 };
        self.vote = Some(self.id);
        disk.persist(self.term, self.vote);
        self.timeout_elect = draw % self.bound_elect;
        let last = disk.last();
        let ghost step = old(self)@.on_election_timeout(old(disk)@, draw);
        let mut i: usize = 0;
        while i < self.peers.len()
            invariant
                i <= self.peers.len(),
                self@ == step.replica,
                disk@ == step.store,
                last == crate::log::last_of(disk@.log),
                step == old(self)@.on_election_timeout(old(disk)@, draw),
                !(old(self)@.role is Leader),
                adaptor.sent() == old(adaptor).sent() + step.out.take(i as int),
                adaptor.received() == old(adaptor).received(),
            decreases self.peers.len() - i,
        {
            adaptor.send(
                self.peers[i],
                RaftPaperMsg::VoteReq { candidate: (self.term, self.id), last },
            );
            assert(step.out.take(i + 1) == step.out.take(i as int).push(step.out[i as int]));
            i += 1;
        }
        assert(step.out.take(self.peers.len() as int) == step.out);
    }

    /// Answers a vote request. A candidate of a larger term is first
    /// followed into its term. The vote is granted where the replica's term
    /// does not exceed the candidate's, it has not voted for another, and the
    /// candidate's log is at least as up to date as its own.
    pub fn handle_vote_req(
        &mut self,
        candidate: (Term, RaftId),
        last: (Term, usize),
        adaptor: &mut impl Adaptor<RaftPaperMsg<Proposal>>,
        disk: &mut impl Persistor<Proposal>,
    )
        ensures
            old(self)@.on_vote_req(old(disk)@, candidate, last).lands(
                final(self)@,
                final(disk)@,
                old(adaptor).sent(),
                final(adaptor).sent(),
            ),
        final(adaptor).received() == old(adaptor).received(),
    {
        let (cand_term, cand_id) = candidate;
        let newer = cand_term.0 > self.term.0;
        if newer {
            self.term = cand_term;
            self.vote = None;
            self.role = PaperRole::Follower { leader: None };
        }
        let ours = disk.last();
        let free = match self.vote {
            None => true,
            Some(voted) => voted.0 == cand_id.0,
        };
        let fresh = last.0.0 > ours.0.0 || (last.0.0 == ours.0.0 && last.1 >= ours.1);
        if self.term.0 <= cand_term.0 && free && fresh {
            self.vote = Some(cand_id);
            disk.persist(self.term, self.vote);
            adaptor.send(cand_id, RaftPaperMsg::VoteAck { term: cand_term });
        } else {
            if newer {
                disk.persist(self.term, self.vote);
            }
            adaptor.send(cand_id, RaftPaperMsg::VoteRej { term: self.term });
        }
    }

    /// Counts a granted vote. A vote of a larger term makes the replica a
    /// follower of that term. A candidate counts a vote of its own term, and
    /// with a strict majority of the cluster becomes leader and replicates at
    /// once.
    ///
    /// Every grant of the term is counted, whoever sent it: a grant does not
    /// name its sender. The count is the number of voters only on a transport
    /// that hands each grant over at most once; a grant handed over twice is
    /// counted twice.
    pub fn handle_vote_ack(
        &mut self,
        term: Term,
        adaptor: &mut impl Adaptor<RaftPaperMsg<Proposal>>,
        disk: &mut impl Persistor<Proposal>,
    )
        requires
            exact_clone::<Proposal>(),
        ensures
            old(self)@.on_vote_ack(old(disk)@, term).lands(
                final(self)@,
                final(disk)@,
                old(adaptor).sent(),
                final(adaptor).sent(),
            ),
        final(adaptor).received() == old(adaptor).received(),
    {
        if term.0 > self.term.0 {
            self.term = term;
            self.vote = None;
            self.role = PaperRole::Follower { leader: None };
            disk.persist(self.term, self.vote);
            return ;
        }
        if term.0 != self.term.0 {
            return ;
        }
        let count = match self.role {
            PaperRole::Candidate { count } => count,
            _ => { return ; },
        };
        let others = self.peers.len();
        if count >= others - others / 2 {
            let tail = disk.last().1;
            self.role = PaperRole::Leader {
                matched: books(&self.peers, 0),
                guessed: books(&self.peers, tail),
            };
            self.replicate(adaptor, disk);
        } else {
            self.role = PaperRole::Candidate { count: count + 1 };
        }
    }

    /// Takes a refused vote: a refusal of a larger term makes the replica a
    /// candidate of that term, without votes.
    pub fn handle_vote_rej(&mut self, term: Term, disk: &mut impl Persistor<Proposal>)
        ensures
            final(self)@ == old(self)@.on_vote_rej(old(disk)@, term).replica,
            final(disk)@ == old(self)@.on_vote_rej(old(disk)@, term).store,
    {
        if term.0 <= self.term.0 {
            return ;
        }
        self.term = term;
        self.role = PaperRole::Candidate { count: 0 };
        self.vote = None;
        disk.persist(self.term, self.vote);
    }
}

} // verus!
