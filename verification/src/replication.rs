//! Replication: the leader's probes, and the handling of replication
//! requests and their answers.

use vstd::prelude::*;
use std::collections::HashMap;
use crate::nums::{RaftId, Term};
use crate::log::{Entry, exact_clone};
use crate::store::Persistor;
use crate::message::RaftPaperMsg;
use crate::network::Adaptor;
use crate::quorum::majority_match;
use crate::replica::{draw_u64, PaperRole, RaftPaperImpl};

verus! {

broadcast use vstd::std_specs::hash::group_hash_axioms;

/// The index on record for `peer` in a leader's book; 0 where there is
/// none.
pub fn on_record(book: &HashMap<u64, usize>, peer: RaftId) -> (index: usize)
    ensures
        index == if book@.contains_key(peer.0) { book@[peer.0] } else { 0 },
{
    match book.get(&peer.0) {
        Some(index) => *index,
        None => 0,
    }
}

impl<Proposal: Clone> RaftPaperImpl<Proposal> {
    /// A leader probes every peer with the entries that follow its probe
    /// index, a batch at most, and rewinds the heartbeat timer. Any other
    /// replica does nothing.
    pub fn replicate(
        &mut self,
        adaptor: &mut impl Adaptor<RaftPaperMsg<Proposal>>,
        disk: &mut impl Persistor<Proposal>,
    )
        requires
            exact_clone::<Proposal>(),
        ensures
            old(self)@.on_heartbeat(old(disk)@).lands(
                final(self)@,
                final(disk)@,
                old(adaptor).sent(),
                final(adaptor).sent(),
            ),
        final(adaptor).received() == old(adaptor).received(),
    {
        if let PaperRole::Leader { .. } = self.role {
        } else {
            return ;
        }
        self.timeout_heart = 0;
        let tail = disk.last().1;
        let ghost step = old(self)@.on_heartbeat(old(disk)@);
        let mut i: usize = 0;
        while i < self.peers.len()
            invariant
                exact_clone::<Proposal>(),
                i <= self.peers.len(),
                old(self)@.role is Leader,
                self@ == step.replica,
                disk@ == old(disk)@,
                tail == disk@.log.len(),
                step == old(self)@.on_heartbeat(old(disk)@),
                adaptor.sent() == old(adaptor).sent() + step.out.take(i as int),
                adaptor.received() == old(adaptor).received(),
            decreases self.peers.len() - i,
        {
            let peer = self.peers[i];
            let guess = match &self.role {
                PaperRole::Leader { guessed, .. } => on_record(guessed, peer),
                _ => 0,
            };
            let at = if guess <= tail { guess } else { tail };
            let before = if at == 0 { None } else { disk.term(at - 1) };
            let end = if self.batch > tail - at { tail } else { at + self.batch };
            let patch = disk.slice(at..end);
            adaptor.send(
                peer,
                RaftPaperMsg::ReplicateReq {
                    commit: self.commitable,
                    leader: (self.term, self.id),
                    prefix: (before, at),
                    patch,
                },
            );
            assert(step.out.take(i + 1) == step.out.take(i as int).push(step.out[i as int]));
            i += 1;
        }
        assert(step.out.take(self.peers.len() as int) == step.out);
    }

    /// Handles a replication request with a random election timer: see
    /// `handle_replicate_with`.
    pub fn handle_replicate(
        &mut self,
        leader: (Term, RaftId),
        prefix: (Option<Term>, usize),
        patch: Vec<Entry<Proposal>>,
        commit: usize,
        adaptor: &mut impl Adaptor<RaftPaperMsg<Proposal>>,
        disk: &mut impl Persistor<Proposal>,
    )
        requires
            old(self)@.bound_elect > 0,
        ensures
            exists|draw: u64|
                (#[trigger] old(self)@.on_replicate(old(disk)@, leader, prefix, patch@, commit, draw)).lands(
                    final(self)@,
                    final(disk)@,
                    old(adaptor).sent(),
                    final(adaptor).sent(),
                ),
        final(adaptor).received() == old(adaptor).received(),
    {
        let draw = draw_u64();
        self.handle_replicate_with(leader, prefix, patch, commit, draw, adaptor, disk);
        assert(old(self)@.on_replicate(old(disk)@, leader, prefix, patch@, commit, draw).lands(
            self@,
            disk@,
            old(adaptor).sent(),
            adaptor.sent(),
        ));
    }

    /// Handles a replication request. A leader of a smaller term is turned
    /// down. Otherwise the replica follows the leader, into its term where
    /// that is larger, and sets the election timer from `draw`; where the
    /// patch would start past the end of the log, or the request names the
    /// term of the entry before the patch and the log does not hold that term
    /// there, it turns the request down; else it merges the patch, cutting
    /// the log only beyond the store's commit watermark, takes over the
    /// leader's commit index as far as its own log reaches, and acknowledges
    /// the end of what was merged.
    pub fn handle_replicate_with(
        &mut self,
        leader: (Term, RaftId),
        prefix: (Option<Term>, usize),
        patch: Vec<Entry<Proposal>>,
        commit: usize,
        draw: u64,
        adaptor: &mut impl Adaptor<RaftPaperMsg<Proposal>>,
        disk: &mut impl Persistor<Proposal>,
    )
        requires
            old(self)@.bound_elect > 0,
        ensures
            old(self)@.on_replicate(old(disk)@, leader, prefix, patch@, commit, draw).lands(
                final(self)@,
                final(disk)@,
                old(adaptor).sent(),
                final(adaptor).sent(),
            ),
        final(adaptor).received() == old(adaptor).received(),
    {
        let (leader_term, leader_id) = leader;
        let (prefix_term, prefix_index) = prefix;
        if leader_term.0 < self.term.0 {
            adaptor.send(
                leader_id,
                RaftPaperMsg::ReplicateRej { from: self.id, term: self.term, at: prefix_index },
            );
            return ;
        }
        let newer = self.term.0 < leader_term.0;
        self.role = PaperRole::Follower { leader: Some(leader_id) };
        self.timeout_elect = draw % self.bound_elect;
        if newer {
            self.term = leader_term;
            self.vote = None;
            disk.persist(self.term, self.vote);
        }
        let gap = prefix_index > disk.last().1;
        let mismatch = gap || match prefix_term {
            None => false,
            Some(wanted) => if prefix_index == 0 {
                true
            } else {
                match disk.term(prefix_index - 1) {
                    Some(held) => held.0 != wanted.0,
                    None => true,
                }
            },
        };
        if mismatch {
            adaptor.send(
                leader_id,
                RaftPaperMsg::ReplicateRej { from: self.id, term: self.term, at: prefix_index },
            );
            return ;
        }
        let sync = disk.append(prefix_index, patch);
        let tail = disk.last().1;
        if commit >= self.commitable {
            let known = if commit <= tail { commit } else { tail };
            self.commitable = known;
            disk.commit(known);
        }
        adaptor.send(leader_id, RaftPaperMsg::ReplicateAck { from: self.id, sync, tail });
    }

    /// A leader books an acknowledgement from a peer it knows, and moves its
    /// commit index up to the highest index that a majority of the cluster
    /// holds, where that index is higher and the entry below it is of the
    /// leader's own term.
    pub fn handle_replicate_ack(
        &mut self,
        from: RaftId,
        sync: usize,
        tail: usize,
        disk: &mut impl Persistor<Proposal>,
    )
        ensures
            final(self)@ == old(self)@.on_replicate_ack(old(disk)@, from, sync).replica,
            final(disk)@ == old(self)@.on_replicate_ack(old(disk)@, from, sync).store,
    {
        match &mut self.role {
            PaperRole::Leader { matched, guessed } => {
                if !matched.contains_key(&from.0) {
                    return ;
                }
                matched.insert(from.0, sync);
                guessed.insert(from.0, sync);
            },
            _ => { return ; },
        }
        let mut acked: Vec<usize> = Vec::new();
        let mut i: usize = 0;
        while i < self.peers.len()
            invariant
                i <= self.peers.len(),
                acked@ == self@.acked(disk@).take(i as int),
            decreases self.peers.len() - i,
        {
            let held = match &self.role {
                PaperRole::Leader { matched, .. } => on_record(matched, self.peers[i]),
                _ => 0,
            };
            acked.push(held);
            assert(self@.acked(disk@).take(i + 1) == self@.acked(disk@).take(i as int).push(held));
            i += 1;
        }
        acked.push(disk.last().1);
        assert(acked@ == self@.acked(disk@));
        let reach = majority_match(&acked);
        if reach > self.commitable {
            let below = disk.term(reach - 1);
            let ours = match below {
                Some(term) => term.0 == self.term.0,
                None => false,
            };
            if ours {
                self.commitable = reach;
                disk.commit(reach);
            }
        }
    }

    /// Takes a refused replication. A refusal of a larger term ends a
    /// leader's term: it becomes a candidate of the larger term, without
    /// votes; any other replica becomes a follower of it. Else a leader moves
    /// the probe index of a peer it knows to half of the refused index.
    pub fn handle_replicate_rej(
        &mut self,
        from: RaftId,
        term: Term,
        at: usize,
        disk: &mut impl Persistor<Proposal>,
    )
        ensures
            final(self)@ == old(self)@.on_replicate_rej(old(disk)@, from, term, at).replica,
            final(disk)@ == old(self)@.on_replicate_rej(old(disk)@, from, term, at).store,
    {
        if term.0 > self.term.0 {
            let led = if let PaperRole::Leader { .. } = self.role { true } else { false };
            self.role = if led {
                PaperRole::Candidate { count: 0 }
            } else {
                PaperRole::Follower { leader: None }
            };
            self.term = term;
            self.vote = None;
            disk.persist(self.term, self.vote);
        } else {
            match &mut self.role {
                PaperRole::Leader { guessed, .. } => {
                    if guessed.contains_key(&from.0) {
                        guessed.insert(from.0, at / 2);
                    }
                },
                _ => {},
            }
        }
    }
}

} // verus!
