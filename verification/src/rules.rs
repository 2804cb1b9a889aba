//! The rules of the classic dialect, as functions from a replica, its store
//! and one event to the replica and the store that follow and the messages
//! that leave.

use vstd::prelude::*;
use crate::nums::{ProposalId, RaftErr, RaftId, Term};
use crate::log::{Entry, clamped, fits, last_of, overlay, overlay_end, term_at};
use crate::store::StoreView;
use crate::message::PaperMsgView;
use crate::quorum::majority_index;
use crate::lists::without;

verus! {

/// The role of a replica, with the leader's books as maps from a peer's
/// identifier to an index.
#[verifier::ext_equal]
pub enum RoleView {
    Leader { matched: Map<u64, usize>, guessed: Map<u64, usize> },
    Follower { leader: Option<RaftId> },
    Candidate { count: usize },
}

/// A replica as a mathematical value.
#[verifier::ext_equal]
pub struct ReplicaView {
    /// The replica's own identifier.
    pub id: RaftId,
    /// How many entries one replication request carries at most.
    pub batch: usize,
    /// The other members of the cluster.
    pub peers: Seq<RaftId>,
    /// The highest term seen.
    pub term: Term,
    /// The replica voted for in `term`, if any.
    pub vote: Option<RaftId>,
    pub role: RoleView,
    /// The highest index known to be committed.
    pub commitable: usize,
    pub timeout_elect: u64,
    pub timeout_heart: u64,
    pub bound_elect: u64,
    pub bound_heart: u64,
}

/// What one event leaves behind: the replica, its store, and the messages
/// sent, each with its destination, in the order of sending.
#[verifier::ext_equal]
pub struct Step<P> {
    pub replica: ReplicaView,
    pub store: StoreView<P>,
    pub out: Seq<(RaftId, PaperMsgView<P>)>,
}

/// Whether a log that ends in `theirs` is at least as up to date as one that
/// ends in `ours`: the higher last term wins, and of equal terms the longer
/// log.
pub open spec fn up_to_date(theirs: (Term, usize), ours: (Term, usize)) -> bool {
    theirs.0.0 > ours.0.0 || (theirs.0.0 == ours.0.0 && theirs.1 >= ours.1)
}

/// A fresh election timer from a random draw.
pub open spec fn timer(draw: u64, bound: u64) -> u64 {
    (draw % bound) as u64
}

/// The peers of `peers` other than `id`, in their order.
pub open spec fn others_of(peers: Seq<RaftId>, id: RaftId) -> Seq<RaftId> {
    without(peers, id)
}

/// The books of a new leader: every peer at `index`.
pub open spec fn books(peers: Seq<RaftId>, index: usize) -> Map<u64, usize> {
    Map::new(|k: u64| peers.contains(RaftId(k)), |k: u64| index)
}

impl<P> Step<P> {
    /// A step that sends nothing.
    pub open spec fn quiet(replica: ReplicaView, store: StoreView<P>) -> Self {
        Step { replica, store, out: Seq::empty() }
    }

    /// This step, with `next` run from where it ended.
    pub open spec fn followed_by(self, next: Step<P>) -> Self {
        Step { replica: next.replica, store: next.store, out: self.out + next.out }
    }

    /// Whether this step leads from what was sent `before` to `replica`,
    /// `store` and what was sent `after`.
    pub open spec fn lands(
        self,
        replica: ReplicaView,
        store: StoreView<P>,
        before: Seq<(RaftId, PaperMsgView<P>)>,
        after: Seq<(RaftId, PaperMsgView<P>)>,
    ) -> bool {
        replica =~= self.replica && store =~= self.store && after =~= before + self.out
    }
}

impl<P> StoreView<P> {
    /// The store after the identity of `replica` was recorded.
    pub open spec fn persisted(self, replica: ReplicaView) -> Self {
        StoreView { term: replica.term, vote: replica.vote, ..self }
    }

    /// The store after its watermark was raised to `at`.
    pub open spec fn committed(self, at: usize) -> Self {
        StoreView { commit: if at > self.commit { at } else { self.commit }, ..self }
    }
}

impl ReplicaView {
    /// A replica as it starts: a candidate without votes, its identity and
    /// watermark read from the store.
    pub open spec fn start<P>(
        id: RaftId,
        batch: usize,
        peers: Seq<RaftId>,
        bound_elect: u64,
        bound_heart: u64,
        store: StoreView<P>,
        draw: u64,
    ) -> ReplicaView {
        ReplicaView {
            id,
            batch,
            peers: others_of(peers, id),
            term: store.term,
            vote: store.vote,
            role: RoleView::Candidate { count: 0 },
            commitable: store.commit,
            timeout_elect: timer(draw, bound_elect),
            timeout_heart: 0,
            bound_elect,
            bound_heart,
        }
    }

    /// The number of replicas in the cluster, this one included.
    pub open spec fn cluster_size(self) -> nat {
        self.peers.len() + 1
    }

    /// The match index a leader has on record for `peer`; 0 where it has
    /// none.
    pub open spec fn matched_of(self, peer: RaftId) -> usize {
        match self.role {
            RoleView::Leader { matched, .. } => if matched.contains_key(peer.0) {
                matched[peer.0]
            } else {
                0
            },
            _ => 0,
        }
    }

    /// The probe index a leader has on record for `peer`; 0 where it has
    /// none.
    pub open spec fn guessed_of(self, peer: RaftId) -> usize {
        match self.role {
            RoleView::Leader { guessed, .. } => if guessed.contains_key(peer.0) {
                guessed[peer.0]
            } else {
                0
            },
            _ => 0,
        }
    }

    /// The replica after it met the larger term `term`: a follower of that
    /// term that has not voted and knows no leader.
    pub open spec fn follow(self, term: Term) -> ReplicaView {
        ReplicaView { term, vote: None, role: RoleView::Follower { leader: None }, ..self }
    }

    /// The replica after it met the larger term `term` in a refusal: a
    /// candidate of that term without votes.
    pub open spec fn stand_down(self, term: Term) -> ReplicaView {
        ReplicaView { term, vote: None, role: RoleView::Candidate { count: 0 }, ..self }
    }

    /// Whether the replica, already in step with the candidate's term,
    /// grants its vote.
    pub open spec fn grants<P>(
        self,
        store: StoreView<P>,
        candidate: (Term, RaftId),
        last: (Term, usize),
    ) -> bool {
        &&& self.term.0 <= candidate.0.0
        &&& (self.vote is None || self.vote == Some(candidate.1))
        &&& up_to_date(last, last_of(store.log))
    }

    /// A vote request arrives.
    pub open spec fn on_vote_req<P>(
        self,
        store: StoreView<P>,
        candidate: (Term, RaftId),
        last: (Term, usize),
    ) -> Step<P> {
        let newer = candidate.0.0 > self.term.0;
        let here = if newer { self.follow(candidate.0) } else { self };
        if here.grants(store, candidate, last) {
            let voted = ReplicaView { vote: Some(candidate.1), ..here };
            Step {
                replica: voted,
                store: store.persisted(voted),
                out: seq![(candidate.1, PaperMsgView::VoteAck { term: candidate.0 })],
            }
        } else {
            Step {
                replica: here,
                store: if newer { store.persisted(here) } else { store },
                out: seq![(candidate.1, PaperMsgView::VoteRej { term: here.term })],
            }
        }
    }

    /// Whether one more vote makes a strict majority of the cluster.
    pub open spec fn wins_with(self, count: int) -> bool {
        2 * count > self.cluster_size()
    }

    /// The replica as the leader of its term, its books opened on a log of
    /// length `tail`.
    pub open spec fn crowned(self, tail: usize) -> ReplicaView {
        ReplicaView {
            role: RoleView::Leader { matched: books(self.peers, 0), guessed: books(self.peers, tail) },
            ..self
        }
    }

    /// A granted vote arrives.
    pub open spec fn on_vote_ack<P>(self, store: StoreView<P>, term: Term) -> Step<P> {
        if term.0 > self.term.0 {
            let here = self.follow(term);
            Step::quiet(here, store.persisted(here))
        } else if term == self.term && self.role is Candidate {
            let count = self.role->count + 1;
            if self.wins_with(count) {
                self.crowned(store.log.len() as usize).on_heartbeat(store)
            } else {
                Step::quiet(
                    ReplicaView { role: RoleView::Candidate { count: count as usize }, ..self },
                    store,
                )
            }
        } else {
            Step::quiet(self, store)
        }
    }

    /// A refused vote arrives.
    pub open spec fn on_vote_rej<P>(self, store: StoreView<P>, term: Term) -> Step<P> {
        if term.0 > self.term.0 {
            let here = self.stand_down(term);
            Step::quiet(here, store.persisted(here))
        } else {
            Step::quiet(self, store)
        }
    }

    /// The election timer runs out: unless it leads, the replica opens the
    /// next term, votes for itself and asks every peer for its vote.
    pub open spec fn on_election_timeout<P>(self, store: StoreView<P>, draw: u64) -> Step<P> {
        if self.role is Leader {
            Step::quiet(self, store)
        } else {
            let here = ReplicaView {
                term: Term((self.term.0 + 1) as u64),
                vote: Some(self.id),
                role: RoleView::Candidate { count: 1 },
                timeout_elect: timer(draw, self.bound_elect),
                ..self
            };
            let ask = PaperMsgView::VoteReq {
                candidate: (here.term, here.id),
                last: last_of(store.log),
            };
            Step {
                replica: here,
                store: store.persisted(here),
                out: Seq::new(here.peers.len(), |i: int| (here.peers[i], ask)),
            }
        }
    }

    /// The request by which a leader probes `peer`: the entries that follow
    /// the probe index, a batch at most, and the term of the entry before
    /// them.
    pub open spec fn probe<P>(self, store: StoreView<P>, peer: RaftId) -> PaperMsgView<P> {
        let guess = self.guessed_of(peer);
        let at = if guess <= store.log.len() { guess } else { store.log.len() as usize };
        PaperMsgView::ReplicateReq {
            commit: self.commitable,
            leader: (self.term, self.id),
            prefix: (term_at(store.log, at - 1), at),
            patch: clamped(store.log, at as int, at + self.batch),
        }
    }

    /// The heartbeat timer runs out, or a leader has news: a leader probes
    /// every peer and rewinds the heartbeat timer.
    pub open spec fn on_heartbeat<P>(self, store: StoreView<P>) -> Step<P> {
        if self.role is Leader {
            Step {
                replica: ReplicaView { timeout_heart: 0, ..self },
                store,
                out: Seq::new(self.peers.len(), |i: int| (self.peers[i], self.probe(store, self.peers[i]))),
            }
        } else {
            Step::quiet(self, store)
        }
    }

    /// A replication request arrives.
    pub open spec fn on_replicate<P>(
        self,
        store: StoreView<P>,
        leader: (Term, RaftId),
        prefix: (Option<Term>, usize),
        patch: Seq<Entry<P>>,
        commit: usize,
        draw: u64,
    ) -> Step<P> {
        if leader.0.0 < self.term.0 {
            Step {
                replica: self,
                store,
                out: seq![
                    (leader.1, PaperMsgView::ReplicateRej { from: self.id, term: self.term, at: prefix.1 }),
                ],
            }
        } else {
            let newer = self.term.0 < leader.0.0;
            let here = ReplicaView {
                term: leader.0,
                vote: if newer { None } else { self.vote },
                role: RoleView::Follower { leader: Some(leader.1) },
                timeout_elect: timer(draw, self.bound_elect),
                ..self
            };
            let kept = if newer { store.persisted(here) } else { store };
            if !fits(store.log, prefix) {
                Step {
                    replica: here,
                    store: kept,
                    out: seq![
                        (leader.1, PaperMsgView::ReplicateRej { from: self.id, term: here.term, at: prefix.1 }),
                    ],
                }
            } else {
                let log = overlay(store.log, store.commit as int, prefix.1 as int, patch);
                let sync = overlay_end(store.log, store.commit as int, prefix.1 as int, patch) as usize;
                let merged = StoreView { log, ..kept };
                let reply = PaperMsgView::ReplicateAck { from: self.id, sync, tail: log.len() as usize };
                if commit >= self.commitable {
                    let known = if commit <= log.len() { commit } else { log.len() as usize };
                    Step {
                        replica: ReplicaView { commitable: known, ..here },
                        store: merged.committed(known),
                        out: seq![(leader.1, reply)],
                    }
                } else {
                    Step { replica: here, store: merged, out: seq![(leader.1, reply)] }
                }
            }
        }
    }

    /// What the leader knows each member of the cluster to hold: the match
    /// index of every peer, and the length of its own log.
    pub open spec fn acked<P>(self, store: StoreView<P>) -> Seq<usize> {
        Seq::new(self.peers.len(), |i: int| self.matched_of(self.peers[i])).push(store.log.len() as usize)
    }

    /// An acknowledged replication arrives.
    pub open spec fn on_replicate_ack<P>(self, store: StoreView<P>, from: RaftId, sync: usize) -> Step<P> {
        match self.role {
            RoleView::Leader { matched, guessed } => if matched.contains_key(from.0) {
                let here = ReplicaView {
                    role: RoleView::Leader {
                        matched: matched.insert(from.0, sync),
                        guessed: guessed.insert(from.0, sync),
                    },
                    ..self
                };
                let reach = majority_index(here.acked(store));
                if reach > self.commitable && term_at(store.log, reach - 1) == Some(self.term) {
                    Step::quiet(
                        ReplicaView { commitable: reach as usize, ..here },
                        store.committed(reach as usize),
                    )
                } else {
                    Step::quiet(here, store)
                }
            } else {
                Step::quiet(self, store)
            },
            _ => Step::quiet(self, store),
        }
    }

    /// A refused replication arrives.
    pub open spec fn on_replicate_rej<P>(
        self,
        store: StoreView<P>,
        from: RaftId,
        term: Term,
        at: usize,
    ) -> Step<P> {
        if term.0 > self.term.0 {
            let here = if self.role is Leader { self.stand_down(term) } else { self.follow(term) };
            Step::quiet(here, store.persisted(here))
        } else {
            match self.role {
                RoleView::Leader { matched, guessed } => if guessed.contains_key(from.0) {
                    Step::quiet(
                        ReplicaView {
                            role: RoleView::Leader { matched, guessed: guessed.insert(from.0, at / 2) },
                            ..self
                        },
                        store,
                    )
                } else {
                    Step::quiet(self, store)
                },
                _ => Step::quiet(self, store),
            }
        }
    }

    /// Whether a proposal made at this replica is taken in.
    pub open spec fn takes_proposals(self) -> bool {
        match self.role {
            RoleView::Leader { .. } => true,
            RoleView::Follower { leader } => leader is Some,
            RoleView::Candidate { .. } => false,
        }
    }

    /// A proposal is made: a leader appends it and replicates, a follower
    /// that knows the leader hands it on, and anyone else leaves it.
    pub open spec fn on_propose<P>(self, store: StoreView<P>, proposal: P, id: ProposalId) -> Step<P> {
        match self.role {
            RoleView::Leader { .. } => self.on_heartbeat(
                StoreView { log: store.log.push((proposal, id, self.term)), ..store },
            ),
            RoleView::Follower { leader: Some(leader) } => Step {
                replica: self,
                store,
                out: seq![(leader, PaperMsgView::ProposalReq { proposal, id })],
            },
            _ => Step::quiet(self, store),
        }
    }

    /// The answer to the one who proposed.
    pub open spec fn answer(self, id: ProposalId) -> Result<(), RaftErr> {
        if self.takes_proposals() {
            Ok(())
        } else {
            Err(RaftErr::ProposalFailed { id })
        }
    }

    /// One message arrives.
    pub open spec fn on_message<P>(self, store: StoreView<P>, msg: PaperMsgView<P>, draw: u64) -> Step<P> {
        match msg {
            PaperMsgView::ProposalReq { proposal, id } => self.on_propose(store, proposal, id),
            PaperMsgView::ReplicateReq { commit, leader, prefix, patch } => self.on_replicate(
                store,
                leader,
                prefix,
                patch,
                commit,
                draw,
            ),
            PaperMsgView::ReplicateAck { from, sync, tail } => self.on_replicate_ack(store, from, sync),
            PaperMsgView::ReplicateRej { from, term, at } => self.on_replicate_rej(store, from, term, at),
            PaperMsgView::VoteReq { candidate, last } => self.on_vote_req(store, candidate, last),
            PaperMsgView::VoteAck { term } => self.on_vote_ack(store, term),
            PaperMsgView::VoteRej { term } => self.on_vote_rej(store, term),
        }
    }

    /// Whether the replica can take one more tick: neither timer is at the
    /// end of its range, the election bound is positive, and a candidacy
    /// that this tick starts has a next term to open.
    pub open spec fn can_tick(self) -> bool {
        &&& self.timeout_elect < u64::MAX
        &&& self.timeout_heart < u64::MAX
        &&& self.bound_elect > 0
        &&& (self.role is Leader || self.timeout_elect + 1 < self.bound_elect || self.term.0 < u64::MAX)
    }

    /// One unit of logical time passes: both timers advance; an election
    /// timer at its bound starts a candidacy, and after that a heartbeat timer
    /// at its bound makes a leader replicate.
    pub open spec fn on_tick<P>(self, store: StoreView<P>, draw: u64) -> Step<P> {
        let ticked = ReplicaView {
            timeout_elect: (self.timeout_elect + 1) as u64,
            timeout_heart: (self.timeout_heart + 1) as u64,
            ..self
        };
        let first = if ticked.timeout_elect >= ticked.bound_elect {
            ticked.on_election_timeout(store, draw)
        } else {
            Step::quiet(ticked, store)
        };
        let second = if first.replica.timeout_heart >= first.replica.bound_heart {
            first.replica.on_heartbeat(first.store)
        } else {
            Step::quiet(first.replica, first.store)
        };
        first.followed_by(second)
    }
}

} // verus!
