//! One replica of the rateless dialect. It runs as a replica of the classic
//! dialect does, but that a leader ships codewords over the entries past its
//! commit index, and a follower peels what it has gathered and hands the
//! proposals it resolves to its caller.

use vstd::prelude::*;
use core::marker::PhantomData;
use core::ops::BitXor;
use std::collections::HashMap;
use crate::nums::{ProposalId, RaftErr, RaftId, Term};
use crate::log::{Entry, clamped, exact_clone, fits, term_at};
use crate::store::{Persistor, StoreView};
use crate::message::{copy_names, LubyMsgView, PaperMsgView, RaftLubyMsg};
use crate::merge::{copy_pairs, merge_resolved, merged, merged_end, names_of};
use crate::network::Adaptor;
use crate::quorum::{majority_index, majority_match};
use crate::codeword::{Codeword, CodewordView, combined, combines, live, peel, peeled_off, struck_each, views};
use crate::sampling::{deal, dealt, degree_for, lemma_selects_one, selects, total};
use crate::replica::{draw_u64, others};
use crate::replication::on_record;
use crate::rules::{books, others_of, timer, ReplicaView, RoleView, Step};

verus! {

broadcast use vstd::std_specs::hash::group_hash_axioms;

/// The role a replica of the rateless dialect plays. A leader keeps, for
/// each peer by its identifier, the highest index known to be replicated on
/// it.
#[derive(Debug, Clone, PartialEq, Eq)]
pub enum LubyRole {
    Leader { matched: HashMap<u64, usize> },
    Follower { leader: Option<RaftId> },
    Candidate { count: usize },
}

/// The role of a rateless replica as a mathematical value.
#[verifier::ext_equal]
pub enum LubyRoleView {
    Leader { matched: Map<u64, usize> },
    Follower { leader: Option<RaftId> },
    Candidate { count: usize },
}

impl View for LubyRole {
    type V = LubyRoleView;

    open spec fn view(&self) -> LubyRoleView {
        match *self {
            LubyRole::Leader { matched } => LubyRoleView::Leader { matched: matched@ },
            LubyRole::Follower { leader } => LubyRoleView::Follower { leader },
            LubyRole::Candidate { count } => LubyRoleView::Candidate { count },
        }
    }
}

/// The state machine of one replica of the rateless dialect.
pub struct RaftLubyImpl<Proposal> {
    /// The replica's own identifier.
    pub id: RaftId,
    /// How many codewords one replication request carries at most.
    pub batch: usize,
    /// The members of the cluster; the replica itself may be among them.
    pub peers: Vec<RaftId>,
    /// The weight of each degree: `degdist[d - 1]` for degree `d`.
    pub degdist: Vec<u64>,
    pub phantom: PhantomData<Proposal>,
    /// The highest term seen.
    pub term: Term,
    /// The replica voted for in `term`, if any.
    pub vote: Option<RaftId>,
    /// The codewords gathered and not yet taken apart: each names two
    /// proposals or more once a request has been handled.
    pub buff: Vec<Codeword<Proposal>>,
    /// The proposals that peeling has resolved, each with its payload.
    pub known: Vec<(ProposalId, Proposal)>,
    pub role: LubyRole,
    /// The highest index known to be committed.
    pub commitable: usize,
    pub timeout_elect: u64,
    pub timeout_heart: u64,
    pub bound_elect: u64,
    pub bound_heart: u64,
}

/// A rateless replica as a mathematical value.
#[verifier::ext_equal]
pub struct LubyView<P> {
    pub id: RaftId,
    pub batch: usize,
    pub peers: Seq<RaftId>,
    pub degdist: Seq<u64>,
    pub term: Term,
    pub vote: Option<RaftId>,
    pub buff: Seq<CodewordView<P>>,
    pub known: Seq<(ProposalId, P)>,
    pub role: LubyRoleView,
    pub commitable: usize,
    pub timeout_elect: u64,
    pub timeout_heart: u64,
    pub bound_elect: u64,
    pub bound_heart: u64,
}

/// What one event leaves behind at a rateless replica.
#[verifier::ext_equal]
pub struct LubyStep<P> {
    pub replica: LubyView<P>,
    pub store: StoreView<P>,
    pub out: Seq<(RaftId, LubyMsgView<P>)>,
}

impl<P> LubyStep<P> {
    /// A step that sends nothing.
    pub open spec fn quiet(replica: LubyView<P>, store: StoreView<P>) -> Self {
        LubyStep { replica, store, out: Seq::empty() }
    }

    /// Whether this step leads from what was sent `before` to `replica`,
    /// `store` and what was sent `after`.
    pub open spec fn lands(
        self,
        replica: LubyView<P>,
        store: StoreView<P>,
        before: Seq<(RaftId, LubyMsgView<P>)>,
        after: Seq<(RaftId, LubyMsgView<P>)>,
    ) -> bool {
        replica =~= self.replica && store =~= self.store && after =~= before + self.out
    }
}

impl<Proposal> View for RaftLubyImpl<Proposal> {
    type V = LubyView<Proposal>;

    open spec fn view(&self) -> LubyView<Proposal> {
        LubyView {
            id: self.id,
            batch: self.batch,
            peers: self.peers@,
            degdist: self.degdist@,
            term: self.term,
            vote: self.vote,
            buff: views(self.buff@),
            known: self.known@,
            role: self.role@,
            commitable: self.commitable,
            timeout_elect: self.timeout_elect,
            timeout_heart: self.timeout_heart,
            bound_elect: self.bound_elect,
            bound_heart: self.bound_heart,
        }
    }
}

/// The degree that `draw` selects under `weights`.
pub open spec fn degree_of(weights: Seq<u64>, draw: u64) -> int {
    choose|d: int| selects(weights, draw, d)
}

/// The codeword that the draws make over `suffix`: of the degree that
/// `degree_draw` selects under `weights`, as far as `suffix` has entries,
/// over entries dealt by `pick_draws`. There is none where `suffix` is
/// empty or no degree has weight.
pub open spec fn made<P: BitXor<P, Output = P>>(
    suffix: Seq<Entry<P>>,
    weights: Seq<u64>,
    degree_draw: u64,
    pick_draws: Seq<u64>,
) -> Option<CodewordView<P>> {
    if suffix.len() == 0 || total(weights) == 0 {
        None
    } else {
        let wanted = degree_of(weights, degree_draw);
        let d = if wanted <= suffix.len() { wanted } else { suffix.len() as int };
        Some(combined(suffix, dealt(suffix.len(), pick_draws, d as nat).take(d)))
    }
}

/// Whether some draws make `word` over `suffix`.
pub open spec fn makeable<P: BitXor<P, Output = P>>(
    suffix: Seq<Entry<P>>,
    weights: Seq<u64>,
    word: CodewordView<P>,
) -> bool {
    exists|degree_draw: u64, pick_draws: Seq<u64>|
        pick_draws.len() == weights.len() && #[trigger] made(suffix, weights, degree_draw, pick_draws) == Some(
            word,
        )
}

/// Each resolved proposal as a codeword of its own.
pub open spec fn singles<P>(resolved: Seq<(ProposalId, P)>) -> Seq<CodewordView<P>> {
    Seq::new(resolved.len(), |k: int| CodewordView { data: resolved[k].1, symb: seq![resolved[k].0] })
}

/// Whether `resolved` is what peeling `buffer` resolves, to the end: it was
/// peeled off the buffer, and no codeword that is left names one proposal
/// alone.
pub open spec fn peeled_out<P: BitXor<P, Output = P>>(
    buffer: Seq<CodewordView<P>>,
    resolved: Seq<(ProposalId, P)>,
) -> bool {
    &&& peeled_off(buffer, resolved)
    &&& forall|i: int|
        0 <= i < live(struck_each(buffer, resolved)).len() ==> (#[trigger] live(struck_each(buffer, resolved))[i]).symb.len()
            >= 2
}

/// A message of the classic dialect as one of the rateless dialect. A
/// replication request, whose patch has no counterpart, comes out without
/// names and without a patch.
pub open spec fn rateless<P>(msg: PaperMsgView<P>) -> LubyMsgView<P> {
    match msg {
        PaperMsgView::ProposalReq { proposal, id } => LubyMsgView::ProposalReq { proposal, id },
        PaperMsgView::ReplicateReq { commit, leader, prefix, .. } => LubyMsgView::ReplicateReq {
            commit,
            leader,
            prefix,
            names: Seq::empty(),
            patch: Seq::empty(),
        },
        PaperMsgView::ReplicateAck { from, sync, tail } => LubyMsgView::ReplicateAck { from, sync, tail },
        PaperMsgView::ReplicateRej { from, term, at } => LubyMsgView::ReplicateRej { from, term, at },
        PaperMsgView::VoteReq { candidate, last } => LubyMsgView::VoteReq { candidate, last },
        PaperMsgView::VoteAck { term } => LubyMsgView::VoteAck { term },
        PaperMsgView::VoteRej { term } => LubyMsgView::VoteRej { term },
    }
}

impl<P: BitXor<P, Output = P>> LubyView<P> {
    /// The other members of the cluster.
    pub open spec fn others(self) -> Seq<RaftId> {
        others_of(self.peers, self.id)
    }

    /// The entries a leader's codewords range over: those past its commit
    /// index.
    pub open spec fn suffix(self, store: StoreView<P>) -> Seq<Entry<P>> {
        clamped(store.log, self.commitable as int, store.log.len() as int)
    }

    /// The codeword that the draws make over the entries past the commit
    /// index.
    pub open spec fn encoded(
        self,
        store: StoreView<P>,
        degree_draw: u64,
        pick_draws: Seq<u64>,
    ) -> Option<CodewordView<P>> {
        made(self.suffix(store), self.degdist, degree_draw, pick_draws)
    }

    /// Whether some draws make `word` over the entries past the commit
    /// index.
    pub open spec fn can_encode(self, store: StoreView<P>, word: CodewordView<P>) -> bool {
        makeable(self.suffix(store), self.degdist, word)
    }

    /// Whether codewords can be made: there are entries past the commit
    /// index, and some degree has weight.
    pub open spec fn can_ship(self, store: StoreView<P>) -> bool {
        self.suffix(store).len() > 0 && total(self.degdist) > 0
    }

    /// Whether `patches` holds, for each of the other members, a batch of
    /// codewords that draws can make; no codeword where none can be made.
    pub open spec fn ships(self, store: StoreView<P>, patches: Seq<Seq<CodewordView<P>>>) -> bool {
        &&& patches.len() == self.others().len()
        &&& forall|i: int|
            0 <= i < patches.len() ==> (#[trigger] patches[i]).len() == if self.can_ship(store) {
                self.batch as int
            } else {
                0
            }
        &&& forall|i: int, j: int|
            0 <= i < patches.len() && 0 <= j < patches[i].len() ==> makeable(
                self.suffix(store),
                self.degdist,
                #[trigger] patches[i][j],
            )
    }

    /// Patches that can be shipped: a batch of one codeword that draws can
    /// make, for each of the other members.
    pub open spec fn stock(self, store: StoreView<P>) -> Seq<Seq<CodewordView<P>>> {
        Seq::new(
            self.others().len(),
            |i: int|
                Seq::new(
                    if self.can_ship(store) { self.batch as nat } else { 0 },
                    |j: int|
                        made(
                            self.suffix(store),
                            self.degdist,
                            0,
                            Seq::new(self.degdist.len(), |k: int| 0u64),
                        )->0,
                ),
        )
    }

    /// There are patches that can be shipped.
    pub proof fn lemma_stock_ships(self, store: StoreView<P>)
        ensures
            self.ships(store, self.stock(store)),
    {
        let patches = self.stock(store);
        let draws = Seq::new(self.degdist.len(), |k: int| 0u64);
        assert forall|i: int, j: int| 0 <= i < patches.len() && 0 <= j < patches[i].len() implies makeable(
            self.suffix(store),
            self.degdist,
            #[trigger] patches[i][j],
        ) by {
            assert(made(self.suffix(store), self.degdist, 0, draws) == Some(patches[i][j]));
        }
    }

    /// The committed boundary of the log: the commit index, as far as the
    /// log reaches, and the term of the entry before it.
    pub open spec fn boundary(self, store: StoreView<P>) -> (Option<Term>, usize) {
        let at = if self.commitable <= store.log.len() { self.commitable } else { store.log.len() as usize };
        (term_at(store.log, at - 1), at)
    }

    /// A leader ships `patches`, one to each of the other members, from the
    /// committed boundary, and rewinds the heartbeat timer.
    pub open spec fn on_heartbeat(
        self,
        store: StoreView<P>,
        patches: Seq<Seq<CodewordView<P>>>,
    ) -> LubyStep<P> {
        if self.role is Leader {
            LubyStep {
                replica: LubyView { timeout_heart: 0, ..self },
                store,
                out: Seq::new(
                    self.others().len(),
                    |i: int|
                        (
                            self.others()[i],
                            LubyMsgView::ReplicateReq {
                                commit: self.commitable,
                                leader: (self.term, self.id),
                                prefix: self.boundary(store),
                                names: names_of(self.suffix(store)),
                                patch: patches[i],
                            },
                        ),
                ),
            }
        } else {
            LubyStep::quiet(self, store)
        }
    }

    /// What is there to peel when `patch` arrives: the codewords gathered,
    /// the proposals resolved before, each as a codeword of its own, and the
    /// codewords of the patch.
    pub open spec fn gathered(self, patch: Seq<CodewordView<P>>) -> Seq<CodewordView<P>> {
        self.buff + singles(self.known) + patch
    }

    /// A replication request arrives, and `resolved` is what peeling then
    /// yields. A request that is taken in adds its codewords to those
    /// gathered; the replica keeps what peeling resolves, and in its buffer
    /// the codewords that peeling leaves; and the entries that are ready
    /// under the names of the request, the longest run from the boundary on
    /// whose payloads are resolved, are merged into the log. The
    /// acknowledgement carries the end of what was merged.
    pub open spec fn on_replicate(
        self,
        store: StoreView<P>,
        leader: (Term, RaftId),
        prefix: (Option<Term>, usize),
        names: Seq<(ProposalId, Term)>,
        patch: Seq<CodewordView<P>>,
        commit: usize,
        draw: u64,
        resolved: Seq<(ProposalId, P)>,
    ) -> LubyStep<P> {
        if leader.0.0 < self.term.0 {
            LubyStep {
                replica: self,
                store,
                out: seq![
                    (leader.1, LubyMsgView::ReplicateRej { from: self.id, term: self.term, at: prefix.1 }),
                ],
            }
        } else {
            let newer = self.term.0 < leader.0.0;
            let here = LubyView {
                term: leader.0,
                vote: if newer { None } else { self.vote },
                role: LubyRoleView::Follower { leader: Some(leader.1) },
                timeout_elect: timer(draw, self.bound_elect),
                ..self
            };
            let kept = if newer { StoreView { term: here.term, vote: here.vote, ..store } } else { store };
            if !fits(store.log, prefix) {
                LubyStep {
                    replica: here,
                    store: kept,
                    out: seq![
                        (leader.1, LubyMsgView::ReplicateRej { from: self.id, term: here.term, at: prefix.1 }),
                    ],
                }
            } else {
                let log = merged(store, prefix.1 as int, names, resolved);
                let sync = merged_end(store, prefix.1 as int, names, resolved) as usize;
                let tail = log.len() as usize;
                let filled = StoreView { log, ..kept };
                let peeled = LubyView {
                    buff: live(struck_each(self.gathered(patch), resolved)),
                    known: resolved,
                    ..here
                };
                let reply = LubyMsgView::ReplicateAck { from: self.id, sync, tail };
                if commit >= self.commitable {
                    let upto = if commit <= tail { commit } else { tail };
                    LubyStep {
                        replica: LubyView { commitable: upto, ..peeled },
                        store: filled.committed(upto),
                        out: seq![(leader.1, reply)],
                    }
                } else {
                    LubyStep { replica: peeled, store: filled, out: seq![(leader.1, reply)] }
                }
            }
        }
    }

    /// Whether `resolved` is what handling `msg` yields: where the message
    /// brings codewords that are taken in, what peeling the codewords
    /// gathered and brought resolves, to the end; else nothing.
    pub open spec fn yields(self, store: StoreView<P>, msg: LubyMsgView<P>, resolved: Seq<(ProposalId, P)>) -> bool {
        match msg {
            LubyMsgView::ReplicateReq { leader, prefix, patch, .. } => if self.takes_in(store, leader, prefix) {
                peeled_out(self.gathered(patch), resolved)
            } else {
                resolved.len() == 0
            },
            _ => resolved.len() == 0,
        }
    }

    /// Whether a replication request is taken in: it is of the replica's
    /// term or a later one, and it fits the log.
    pub open spec fn takes_in(
        self,
        store: StoreView<P>,
        leader: (Term, RaftId),
        prefix: (Option<Term>, usize),
    ) -> bool {
        leader.0.0 >= self.term.0 && fits(store.log, prefix)
    }

    /// The match index a leader has on record for `peer`; 0 where it has
    /// none.
    pub open spec fn matched_of(self, peer: RaftId) -> usize {
        match self.role {
            LubyRoleView::Leader { matched } => if matched.contains_key(peer.0) {
                matched[peer.0]
            } else {
                0
            },
            _ => 0,
        }
    }

    /// What the leader knows each member of the cluster to hold.
    pub open spec fn acked(self, store: StoreView<P>) -> Seq<usize> {
        Seq::new(self.others().len(), |i: int| self.matched_of(self.others()[i])).push(
            store.log.len() as usize,
        )
    }

    /// An acknowledged replication arrives.
    pub open spec fn on_replicate_ack(self, store: StoreView<P>, from: RaftId, sync: usize) -> LubyStep<P> {
        match self.role {
            LubyRoleView::Leader { matched } => if matched.contains_key(from.0) {
                let here = LubyView {
                    role: LubyRoleView::Leader { matched: matched.insert(from.0, sync) },
                    ..self
                };
                let reach = majority_index(here.acked(store));
                if reach > self.commitable && term_at(store.log, reach - 1) == Some(self.term) {
                    LubyStep::quiet(
                        LubyView { commitable: reach as usize, ..here },
                        store.committed(reach as usize),
                    )
                } else {
                    LubyStep::quiet(here, store)
                }
            } else {
                LubyStep::quiet(self, store)
            },
            _ => LubyStep::quiet(self, store),
        }
    }

    /// The replica as one of the classic dialect, in what the two dialects
    /// share: a leader's probe indices and the rateless replica's codewords
    /// and weights are left out.
    pub open spec fn classic(self) -> ReplicaView {
        ReplicaView {
            id: self.id,
            batch: self.batch,
            peers: self.others(),
            term: self.term,
            vote: self.vote,
            role: match self.role {
                LubyRoleView::Leader { matched } => RoleView::Leader { matched, guessed: Map::empty() },
                LubyRoleView::Follower { leader } => RoleView::Follower { leader },
                LubyRoleView::Candidate { count } => RoleView::Candidate { count },
            },
            commitable: self.commitable,
            timeout_elect: self.timeout_elect,
            timeout_heart: self.timeout_heart,
            bound_elect: self.bound_elect,
            bound_heart: self.bound_heart,
        }
    }

    /// This replica with what it shares with the classic dialect taken
    /// from `core`.
    pub open spec fn with(self, core: ReplicaView) -> LubyView<P> {
        LubyView {
            term: core.term,
            vote: core.vote,
            role: match core.role {
                RoleView::Leader { matched, .. } => LubyRoleView::Leader { matched },
                RoleView::Follower { leader } => LubyRoleView::Follower { leader },
                RoleView::Candidate { count } => LubyRoleView::Candidate { count },
            },
            commitable: core.commitable,
            timeout_elect: core.timeout_elect,
            timeout_heart: core.timeout_heart,
            ..self
        }
    }

    /// A step of the classic dialect as one of this replica.
    pub open spec fn lifted(self, step: Step<P>) -> LubyStep<P> {
        LubyStep {
            replica: self.with(step.replica),
            store: step.store,
            out: Seq::new(step.out.len(), |i: int| (step.out[i].0, rateless(step.out[i].1))),
        }
    }

    /// A replica as it starts: a candidate without votes and without
    /// codewords, its identity and watermark read from the store.
    pub open spec fn start(
        id: RaftId,
        batch: usize,
        peers: Seq<RaftId>,
        degdist: Seq<u64>,
        bound_elect: u64,
        bound_heart: u64,
        store: StoreView<P>,
        draw: u64,
    ) -> LubyView<P> {
        LubyView {
            id,
            batch,
            peers,
            degdist,
            term: store.term,
            vote: store.vote,
            buff: Seq::empty(),
            known: Seq::empty(),
            role: LubyRoleView::Candidate { count: 0 },
            commitable: store.commit,
            timeout_elect: timer(draw, bound_elect),
            timeout_heart: 0,
            bound_elect,
            bound_heart,
        }
    }

    /// A vote request arrives: as in the classic dialect.
    pub open spec fn on_vote_req(
        self,
        store: StoreView<P>,
        candidate: (Term, RaftId),
        last: (Term, usize),
    ) -> LubyStep<P> {
        self.lifted(self.classic().on_vote_req(store, candidate, last))
    }

    /// A refused vote arrives: as in the classic dialect.
    pub open spec fn on_vote_rej(self, store: StoreView<P>, term: Term) -> LubyStep<P> {
        self.lifted(self.classic().on_vote_rej(store, term))
    }

    /// The election timer runs out: as in the classic dialect.
    pub open spec fn on_election_timeout(self, store: StoreView<P>, draw: u64) -> LubyStep<P> {
        self.lifted(self.classic().on_election_timeout(store, draw))
    }

    /// Whether one more vote of `term` makes the replica leader.
    pub open spec fn wins_by(self, term: Term) -> bool {
        term == self.term && self.role is Candidate && self.classic().wins_with(self.role->count + 1)
    }

    /// A granted vote arrives: as in the classic dialect, but that a new
    /// leader ships `patches`.
    pub open spec fn on_vote_ack(
        self,
        store: StoreView<P>,
        term: Term,
        patches: Seq<Seq<CodewordView<P>>>,
    ) -> LubyStep<P> {
        if self.wins_by(term) {
            (LubyView { role: LubyRoleView::Leader { matched: books(self.others(), 0) }, ..self }).on_heartbeat(
                store,
                patches,
            )
        } else {
            self.lifted(self.classic().on_vote_ack(store, term))
        }
    }

    /// A proposal is made: as in the classic dialect, but that a leader
    /// ships `patches`.
    pub open spec fn on_propose(
        self,
        store: StoreView<P>,
        proposal: P,
        id: ProposalId,
        patches: Seq<Seq<CodewordView<P>>>,
    ) -> LubyStep<P> {
        if self.role is Leader {
            self.on_heartbeat(StoreView { log: store.log.push((proposal, id, self.term)), ..store }, patches)
        } else {
            self.lifted(self.classic().on_propose(store, proposal, id))
        }
    }

    /// One unit of logical time passes: as in the classic dialect, but that
    /// a leader ships `patches`.
    pub open spec fn on_tick(
        self,
        store: StoreView<P>,
        draw: u64,
        patches: Seq<Seq<CodewordView<P>>>,
    ) -> LubyStep<P> {
        let ticked = LubyView {
            timeout_elect: (self.timeout_elect + 1) as u64,
            timeout_heart: (self.timeout_heart + 1) as u64,
            ..self
        };
        let first = if ticked.timeout_elect >= ticked.bound_elect {
            ticked.on_election_timeout(store, draw)
        } else {
            LubyStep::quiet(ticked, store)
        };
        let second = if first.replica.timeout_heart >= first.replica.bound_heart {
            first.replica.on_heartbeat(first.store, patches)
        } else {
            LubyStep::quiet(first.replica, first.store)
        };
        LubyStep { replica: second.replica, store: second.store, out: first.out + second.out }
    }

    /// One message arrives. `patches` is what the replica ships where it
    /// replicates, and `resolved` what peeling yields where it takes
    /// codewords in.
    pub open spec fn on_message(
        self,
        store: StoreView<P>,
        msg: LubyMsgView<P>,
        draw: u64,
        patches: Seq<Seq<CodewordView<P>>>,
        resolved: Seq<(ProposalId, P)>,
    ) -> LubyStep<P> {
        match msg {
            LubyMsgView::ProposalReq { proposal, id } => self.on_propose(store, proposal, id, patches),
            LubyMsgView::ReplicateReq { commit, leader, prefix, names, patch } => self.on_replicate(
                store,
                leader,
                prefix,
                names,
                patch,
                commit,
                draw,
                resolved,
            ),
            LubyMsgView::ReplicateAck { from, sync, tail } => self.on_replicate_ack(store, from, sync),
            LubyMsgView::ReplicateRej { from, term, at } => self.on_replicate_rej(store, term),
            LubyMsgView::VoteReq { candidate, last } => self.on_vote_req(store, candidate, last),
            LubyMsgView::VoteAck { term } => self.on_vote_ack(store, term, patches),
            LubyMsgView::VoteRej { term } => self.on_vote_rej(store, term),
        }
    }

    /// A refused replication arrives.
    pub open spec fn on_replicate_rej(self, store: StoreView<P>, term: Term) -> LubyStep<P> {
        if term.0 > self.term.0 {
            let role = if self.role is Leader {
                LubyRoleView::Candidate { count: 0 }
            } else {
                LubyRoleView::Follower { leader: None }
            };
            LubyStep::quiet(
                LubyView { term, vote: None, role, ..self },
                StoreView { term, vote: None, ..store },
            )
        } else {
            LubyStep::quiet(self, store)
        }
    }
}

impl<Proposal: Clone + BitXor<Proposal, Output = Proposal>> RaftLubyImpl<Proposal> {
    /// A replica for `id` in the cluster of `peers`, with the weights
    /// `degdist` for the degrees of its codewords, its election timer set
    /// from `draw`.
    pub fn new_with(
        id: RaftId,
        batch: usize,
        peers: Vec<RaftId>,
        degdist: Vec<u64>,
        bound_elect: u64,
        bound_heart: u64,
        disk: &mut impl Persistor<Proposal>,
        draw: u64,
    ) -> (replica: Self)
        requires
            bound_elect > 0,
        ensures
            final(disk)@ == old(disk)@,
            replica@ == LubyView::start(
                id,
                batch,
                peers@,
                degdist@,
                bound_elect,
                bound_heart,
                old(disk)@,
                draw,
            ),
    {
        let (term, vote) = disk.load();
        let replica = Self {
            role: LubyRole::Candidate { count: 0 },
            commitable: disk.commitable(),
            id,
            batch,
            peers,
            degdist,
            term,
            vote,
            buff: Vec::new(),
            known: Vec::new(),
            phantom: PhantomData,
            bound_elect,
            timeout_elect: draw % bound_elect,
            bound_heart,
            timeout_heart: 0,
        };
        assert(replica@.buff =~= Seq::empty());
        replica
    }

    /// A replica for `id` in the cluster of `peers`, with a random election
    /// timer: see `new_with`.
    pub fn new(
        id: RaftId,
        batch: usize,
        peers: Vec<RaftId>,
        degdist: Vec<u64>,
        bound_elect: u64,
        bound_heart: u64,
        disk: &mut impl Persistor<Proposal>,
    ) -> (replica: Self)
        requires
            bound_elect > 0,
        ensures
            final(disk)@ == old(disk)@,
            exists|draw: u64|
                replica@ == #[trigger] LubyView::start(
                    id,
                    batch,
                    peers@,
                    degdist@,
                    bound_elect,
                    bound_heart,
                    old(disk)@,
                    draw,
                ),
    {
        Self::new_with(id, batch, peers, degdist, bound_elect, bound_heart, disk, draw_u64())
    }

    /// Submits a proposal. A leader appends it to its log in its term and
    /// ships fresh codewords; a follower that knows the leader hands it on;
    /// any other replica fails it.
    pub fn propose(
        &mut self,
        proposal: Proposal,
        id: ProposalId,
        adaptor: &mut impl Adaptor<RaftLubyMsg<Proposal>>,
        disk: &mut impl Persistor<Proposal>,
    ) -> (answer: Result<(), RaftErr>)
        requires
            combines::<Proposal>(),
            exact_clone::<Proposal>(),
        ensures
            answer == old(self)@.classic().answer(id),
            exists|patches: Seq<Seq<CodewordView<Proposal>>>|
                old(self)@.ships(final(disk)@, patches) && (#[trigger] old(self)@.on_propose(
                    old(disk)@,
                    proposal,
                    id,
                    patches,
                )).lands(final(self)@, final(disk)@, old(adaptor).sent(), final(adaptor).sent()),
        final(adaptor).received() == old(adaptor).received(),
    {
        let known = match &self.role {
            LubyRole::Follower { leader } => *leader,
            LubyRole::Candidate { .. } => None,
            LubyRole::Leader { .. } => Some(self.id),
        };
        let leads = if let LubyRole::Leader { .. } = self.role { true } else { false };
        if leads {
            disk.push(proposal, id, self.term);
            let ghost grown = disk@;
            self.replicate(adaptor, disk);
            proof {
                let shipped = choose|patches: Seq<Seq<CodewordView<Proposal>>>|
                    old(self)@.ships(grown, patches) && (#[trigger] old(self)@.on_heartbeat(grown, patches)).lands(
                        self@,
                        disk@,
                        old(adaptor).sent(),
                        adaptor.sent(),
                    );
                assert(old(self)@.on_propose(old(disk)@, proposal, id, shipped).lands(
                    self@,
                    disk@,
                    old(adaptor).sent(),
                    adaptor.sent(),
                ));
            }
            Ok(())
        } else {
            proof {
                old(self)@.lemma_stock_ships(disk@);
            }
            match known {
                Some(leader) => {
                    adaptor.send(leader, RaftLubyMsg::ProposalReq { proposal, id });
                    assert(old(self)@.on_propose(old(disk)@, proposal, id, old(self)@.stock(disk@)).lands(
                        self@,
                        disk@,
                        old(adaptor).sent(),
                        adaptor.sent(),
                    ));
                    Ok(())
                },
                None => {
                    assert(old(self)@.on_propose(old(disk)@, proposal, id, old(self)@.stock(disk@)).lands(
                        self@,
                        disk@,
                        old(adaptor).sent(),
                        adaptor.sent(),
                    ));
                    Err(RaftErr::ProposalFailed { id })
                },
            }
        }
    }

    /// Lets one unit of logical time pass, with a random election timer for
    /// a candidacy that starts: see `tick_with`.
    pub fn tick(
        &mut self,
        adaptor: &mut impl Adaptor<RaftLubyMsg<Proposal>>,
        disk: &mut impl Persistor<Proposal>,
    )
        requires
            combines::<Proposal>(),
            exact_clone::<Proposal>(),
            old(self)@.classic().can_tick(),
        ensures
            exists|draw: u64, patches: Seq<Seq<CodewordView<Proposal>>>|
                old(self)@.ships(final(disk)@, patches) && (#[trigger] old(self)@.on_tick(
                    old(disk)@,
                    draw,
                    patches,
                )).lands(final(self)@, final(disk)@, old(adaptor).sent(), final(adaptor).sent()),
        final(adaptor).received() == old(adaptor).received(),
    {
        let draw = draw_u64();
        self.tick_with(draw, adaptor, disk);
        proof {
            let shipped = choose|patches: Seq<Seq<CodewordView<Proposal>>>|
                old(self)@.ships(disk@, patches) && (#[trigger] old(self)@.on_tick(old(disk)@, draw, patches)).lands(
                    self@,
                    disk@,
                    old(adaptor).sent(),
                    adaptor.sent(),
                );
            assert(old(self)@.ships(disk@, shipped) && old(self)@.on_tick(old(disk)@, draw, shipped).lands(
                self@,
                disk@,
                old(adaptor).sent(),
                adaptor.sent(),
            ));
        }
    }

    /// Lets one unit of logical time pass: both timers advance by one; an
    /// election timer at its bound starts a candidacy, whose timer is set from
    /// `draw`; after that a heartbeat timer at its bound makes a leader ship
    /// fresh codewords.
    pub fn tick_with(
        &mut self,
        draw: u64,
        adaptor: &mut impl Adaptor<RaftLubyMsg<Proposal>>,
        disk: &mut impl Persistor<Proposal>,
    )
        requires
            combines::<Proposal>(),
            exact_clone::<Proposal>(),
            old(self)@.classic().can_tick(),
        ensures
            exists|patches: Seq<Seq<CodewordView<Proposal>>>|
                old(self)@.ships(final(disk)@, patches) && (#[trigger] old(self)@.on_tick(
                    old(disk)@,
                    draw,
                    patches,
                )).lands(final(self)@, final(disk)@, old(adaptor).sent(), final(adaptor).sent()),
        final(adaptor).received() == old(adaptor).received(),
    {
        self.timeout_elect += 1;
        self.timeout_heart += 1;
        let ghost ticked = self@;
        if self.timeout_elect >= self.bound_elect {
            self.coup_detat_with(draw, adaptor, disk);
        }
        let ghost first = self@;
        let ghost kept = disk@;
        let ghost said = adaptor.sent();
        let leads = if let LubyRole::Leader { .. } = self.role { true } else { false };
        if self.timeout_heart >= self.bound_heart && leads {
            self.replicate(adaptor, disk);
            proof {
                let shipped = choose|patches: Seq<Seq<CodewordView<Proposal>>>|
                    first.ships(kept, patches) && (#[trigger] first.on_heartbeat(kept, patches)).lands(
                        self@,
                        disk@,
                        said,
                        adaptor.sent(),
                    );
                assert(old(self)@.ships(disk@, shipped));
                assert(old(self)@.on_tick(old(disk)@, draw, shipped).lands(
                    self@,
                    disk@,
                    old(adaptor).sent(),
                    adaptor.sent(),
                ));
            }
        } else {
            proof {
                old(self)@.lemma_stock_ships(disk@);
                assert(old(self)@.on_tick(old(disk)@, draw, old(self)@.stock(disk@)).lands(
                    self@,
                    disk@,
                    old(adaptor).sent(),
                    adaptor.sent(),
                ));
            }
        }
    }

    /// Takes the next message from the transport, if there is one, and
    /// handles it with a random election timer: see `deliver`. Returns what
    /// `deliver` returns; nothing where there was no message. Where there
    /// was none, nothing has been taken and nothing has changed; where there
    /// was one, that one message has been taken, and the replica, its store
    /// and what was sent are as `deliver` leaves them for that message.
    pub fn handle(
        &mut self,
        adaptor: &mut impl Adaptor<RaftLubyMsg<Proposal>>,
        disk: &mut impl Persistor<Proposal>,
    ) -> (handled: Option<Vec<(ProposalId, Proposal)>>)
        requires
            combines::<Proposal>(),
            exact_clone::<Proposal>(),
            old(self)@.bound_elect > 0,
        ensures
            handled is Some <==> final(adaptor).received().len() == old(adaptor).received().len() + 1,
            handled is None ==> final(adaptor).received() == old(adaptor).received(),
            handled is None ==> final(self)@ == old(self)@,
            handled is None ==> final(disk)@ == old(disk)@,
            handled is None ==> final(adaptor).sent() == old(adaptor).sent(),
            handled is Some ==> final(adaptor).received().drop_last() == old(adaptor).received(),
            handled is Some ==> old(self)@.yields(old(disk)@, final(adaptor).received().last(), handled->0@),
            handled is Some ==> exists|draw: u64, patches: Seq<Seq<CodewordView<Proposal>>>|
                old(self)@.ships(final(disk)@, patches) && (#[trigger] old(self)@.on_message(
                    old(disk)@,
                    final(adaptor).received().last(),
                    draw,
                    patches,
                    handled->0@,
                )).lands(final(self)@, final(disk)@, old(adaptor).sent(), final(adaptor).sent()),
    {
        match adaptor.receive() {
            None => None,
            Some(msg) => {
                let draw = draw_u64();
                let ghost arrived = msg@;
                let resolved = self.deliver(msg, draw, adaptor, disk);
                assert(adaptor.received() == old(adaptor).received().push(arrived));
                assert(adaptor.received().drop_last() == old(adaptor).received());
                proof {
                    let shipped = choose|patches: Seq<Seq<CodewordView<Proposal>>>|
                        old(self)@.ships(disk@, patches) && (#[trigger] old(self)@.on_message(
                            old(disk)@,
                            arrived,
                            draw,
                            patches,
                            resolved@,
                        )).lands(self@, disk@, old(adaptor).sent(), adaptor.sent());
                    assert(old(self)@.ships(disk@, shipped) && old(self)@.on_message(
                        old(disk)@,
                        arrived,
                        draw,
                        shipped,
                        resolved@,
                    ).lands(self@, disk@, old(adaptor).sent(), adaptor.sent()));
                }
                let handled = Some(resolved);
                assert(exists|draw: u64, patches: Seq<Seq<CodewordView<Proposal>>>|
                    old(self)@.ships(disk@, patches) && (#[trigger] old(self)@.on_message(
                        old(disk)@,
                        adaptor.received().last(),
                        draw,
                        patches,
                        handled->0@,
                    )).lands(self@, disk@, old(adaptor).sent(), adaptor.sent()));
                handled
            },
        }
    }

    /// Handles one message by the rule of its kind; a replication request
    /// sets the election timer from `draw`. Returns the proposals that
    /// peeling resolved, each with its payload, where the message brought
    /// codewords that were taken in.
    pub fn deliver(
        &mut self,
        msg: RaftLubyMsg<Proposal>,
        draw: u64,
        adaptor: &mut impl Adaptor<RaftLubyMsg<Proposal>>,
        disk: &mut impl Persistor<Proposal>,
    ) -> (resolved: Vec<(ProposalId, Proposal)>)
        requires
            combines::<Proposal>(),
            exact_clone::<Proposal>(),
            old(self)@.bound_elect > 0,
        ensures
            exists|patches: Seq<Seq<CodewordView<Proposal>>>|
                old(self)@.ships(final(disk)@, patches) && (#[trigger] old(self)@.on_message(
                    old(disk)@,
                    msg@,
                    draw,
                    patches,
                    resolved@,
                )).lands(final(self)@, final(disk)@, old(adaptor).sent(), final(adaptor).sent()),
            old(self)@.yields(old(disk)@, msg@, resolved@),
        final(adaptor).received() == old(adaptor).received(),
    {
        let ghost arrived = msg@;
        match msg {
            RaftLubyMsg::ProposalReq { proposal, id } => {
                let _ = self.propose(proposal, id, adaptor, disk);
                proof {
                    let shipped = choose|patches: Seq<Seq<CodewordView<Proposal>>>|
                        old(self)@.ships(disk@, patches) && (#[trigger] old(self)@.on_propose(
                            old(disk)@,
                            proposal,
                            id,
                            patches,
                        )).lands(self@, disk@, old(adaptor).sent(), adaptor.sent());
                    let none = Seq::<(ProposalId, Proposal)>::empty();
                    assert(old(self)@.on_message(old(disk)@, arrived, draw, shipped, none).lands(
                        self@,
                        disk@,
                        old(adaptor).sent(),
                        adaptor.sent(),
                    ));
                }
                Vec::new()
            },
            RaftLubyMsg::ReplicateReq { leader, prefix, names, patch, commit } => {
                let resolved = self.handle_replicate_with(
                    leader,
                    prefix,
                    names,
                    patch,
                    commit,
                    draw,
                    adaptor,
                    disk,
                );
                proof {
                    old(self)@.lemma_stock_ships(disk@);
                    assert(old(self)@.on_message(old(disk)@, arrived, draw, old(self)@.stock(disk@), resolved@).lands(
                        self@,
                        disk@,
                        old(adaptor).sent(),
                        adaptor.sent(),
                    ));
                }
                resolved
            },
            RaftLubyMsg::ReplicateAck { from, sync, tail } => {
                self.handle_replicate_ack(from, sync, tail, disk);
                proof {
                    let none = Seq::<(ProposalId, Proposal)>::empty();
                    old(self)@.lemma_stock_ships(disk@);
                    assert(old(self)@.on_message(old(disk)@, arrived, draw, old(self)@.stock(disk@), none).lands(
                        self@,
                        disk@,
                        old(adaptor).sent(),
                        adaptor.sent(),
                    ));
                }
                Vec::new()
            },
            RaftLubyMsg::ReplicateRej { from, term, at } => {
                self.handle_replicate_rej(from, term, at, disk);
                proof {
                    let none = Seq::<(ProposalId, Proposal)>::empty();
                    old(self)@.lemma_stock_ships(disk@);
                    assert(old(self)@.on_message(old(disk)@, arrived, draw, old(self)@.stock(disk@), none).lands(
                        self@,
                        disk@,
                        old(adaptor).sent(),
                        adaptor.sent(),
                    ));
                }
                Vec::new()
            },
            RaftLubyMsg::VoteReq { candidate, last } => {
                self.handle_vote_req(candidate, last, adaptor, disk);
                proof {
                    let none = Seq::<(ProposalId, Proposal)>::empty();
                    old(self)@.lemma_stock_ships(disk@);
                    assert(old(self)@.on_message(old(disk)@, arrived, draw, old(self)@.stock(disk@), none).lands(
                        self@,
                        disk@,
                        old(adaptor).sent(),
                        adaptor.sent(),
                    ));
                }
                Vec::new()
            },
            RaftLubyMsg::VoteAck { term } => {
                self.handle_vote_ack(term, adaptor, disk);
                proof {
                    let shipped = choose|patches: Seq<Seq<CodewordView<Proposal>>>|
                        old(self)@.ships(disk@, patches) && (#[trigger] old(self)@.on_vote_ack(
                            old(disk)@,
                            term,
                            patches,
                        )).lands(self@, disk@, old(adaptor).sent(), adaptor.sent());
                    let none = Seq::<(ProposalId, Proposal)>::empty();
                    assert(old(self)@.on_message(old(disk)@, arrived, draw, shipped, none).lands(
                        self@,
                        disk@,
                        old(adaptor).sent(),
                        adaptor.sent(),
                    ));
                }
                Vec::new()
            },
            RaftLubyMsg::VoteRej { term } => {
                self.handle_vote_rej(term, disk);
                proof {
                    let none = Seq::<(ProposalId, Proposal)>::empty();
                    old(self)@.lemma_stock_ships(disk@);
                    assert(old(self)@.on_message(old(disk)@, arrived, draw, old(self)@.stock(disk@), none).lands(
                        self@,
                        disk@,
                        old(adaptor).sent(),
                        adaptor.sent(),
                    ));
                }
                Vec::new()
            },
        }
    }

    /// Makes one codeword with random draws: see `encode_with`.
    pub fn encode(&mut self, disk: &mut impl Persistor<Proposal>) -> (word: Option<Codeword<Proposal>>)
        requires
            combines::<Proposal>(),
            exact_clone::<Proposal>(),
        ensures
            final(self)@ == old(self)@,
            final(disk)@ == old(disk)@,
            match word {
                Some(word) => old(self)@.can_encode(old(disk)@, word@),
                None => old(self)@.suffix(old(disk)@).len() == 0 || total(old(self)@.degdist) == 0,
            },
    {
        let degree_draw = draw_u64();
        let mut pick_draws: Vec<u64> = Vec::new();
        let mut i: usize = 0;
        while i < self.degdist.len()
            invariant
                i <= self.degdist.len(),
                pick_draws.len() == i,
                *self == *old(self),
            decreases self.degdist.len() - i,
        {
            pick_draws.push(draw_u64());
            i += 1;
        }
        let word = self.encode_with(disk, degree_draw, &pick_draws);
        proof {
            if word is Some {
                assert(self@.encoded(old(disk)@, degree_draw, pick_draws@) == Some(word->0@));
            }
        }
        word
    }

    /// Makes one codeword over the entries past the commit index: of the
    /// degree that `degree_draw` selects by the weights, as far as there are
    /// entries, over entries dealt by `pick_draws`. Makes none where there
    /// are no such entries or no degree has weight.
    pub fn encode_with(
        &self,
        disk: &mut impl Persistor<Proposal>,
        degree_draw: u64,
        pick_draws: &Vec<u64>,
    ) -> (word: Option<Codeword<Proposal>>)
        requires
            combines::<Proposal>(),
            exact_clone::<Proposal>(),
            pick_draws.len() >= self@.degdist.len(),
        ensures
            final(disk)@ == old(disk)@,
            match word {
                Some(word) => self@.encoded(old(disk)@, degree_draw, pick_draws@) == Some(word@),
                None => self@.encoded(old(disk)@, degree_draw, pick_draws@) is None,
            },
    {
        let tail = disk.last().1;
        let suffix = disk.slice(self.commitable..tail);
        if suffix.len() == 0 {
            return None;
        }
        match degree_for(&self.degdist, degree_draw) {
            None => None,
            Some(wanted) => {
                proof {
                    let chosen = degree_of(self@.degdist, degree_draw);
                    assert(selects(self@.degdist, degree_draw, wanted as int));
                    lemma_selects_one(self@.degdist, degree_draw, wanted as int, chosen);
                }
                let d = if wanted <= suffix.len() { wanted } else { suffix.len() };
                let picks = deal(suffix.len(), d, pick_draws);
                Some(Codeword::encode(&suffix, &picks))
            },
        }
    }

    /// A leader ships fresh codewords to every other member: see
    /// `replicate_with`. Each member gets a batch of codewords made with
    /// random draws, fewer where none can be made.
    pub fn replicate(
        &mut self,
        adaptor: &mut impl Adaptor<RaftLubyMsg<Proposal>>,
        disk: &mut impl Persistor<Proposal>,
    )
        requires
            combines::<Proposal>(),
            exact_clone::<Proposal>(),
        ensures
            !(old(self)@.role is Leader) ==> final(self)@ == old(self)@ && final(disk)@ == old(disk)@
                && final(adaptor).sent() == old(adaptor).sent(),
            old(self)@.role is Leader ==> exists|patches: Seq<Seq<CodewordView<Proposal>>>|
                old(self)@.ships(old(disk)@, patches) && (#[trigger] old(self)@.on_heartbeat(
                    old(disk)@,
                    patches,
                )).lands(final(self)@, final(disk)@, old(adaptor).sent(), final(adaptor).sent()),
        final(adaptor).received() == old(adaptor).received(),
    {
        if let LubyRole::Leader { .. } = self.role {
        } else {
            return ;
        }
        let count = others(&self.peers, self.id).len();
        let mut patches: Vec<Vec<Codeword<Proposal>>> = Vec::new();
        let ghost shipped: Seq<Seq<CodewordView<Proposal>>> = Seq::empty();
        let mut i: usize = 0;
        while i < count
            invariant
                combines::<Proposal>(),
                exact_clone::<Proposal>(),
                i <= count,
                count == old(self)@.others().len(),
                self@ == old(self)@,
                disk@ == old(disk)@,
                patches.len() == i,
                shipped.len() == i,
                forall|k: int| 0 <= k < i ==> #[trigger] shipped[k] == views(patches@[k]@),
                forall|k: int|
                    0 <= k < i ==> (#[trigger] shipped[k]).len() == if self@.can_ship(disk@) {
                        self.batch as int
                    } else {
                        0
                    },
                forall|k: int, j: int|
                    0 <= k < i && 0 <= j < shipped[k].len() ==> self@.can_encode(
                        disk@,
                        #[trigger] shipped[k][j],
                    ),
            decreases count - i,
        {
            let mut patch: Vec<Codeword<Proposal>> = Vec::new();
            let mut j: usize = 0;
            while j < self.batch
                invariant
                    combines::<Proposal>(),
                    exact_clone::<Proposal>(),
                    j <= self.batch,
                    self@ == old(self)@,
                    disk@ == old(disk)@,
                    patch.len() == if self@.can_ship(disk@) { j as int } else { 0 },
                    forall|k: int| 0 <= k < patch.len() ==> self@.can_encode(disk@, (#[trigger] patch@[k])@),
                decreases self.batch - j,
            {
                match self.encode(disk) {
                    Some(word) => {
                        proof {
                            let draws = choose|degree_draw: u64, pick_draws: Seq<u64>|
                                pick_draws.len() == self@.degdist.len() && #[trigger] made(
                                    self@.suffix(disk@),
                                    self@.degdist,
                                    degree_draw,
                                    pick_draws,
                                ) == Some(word@);
                            assert(made(self@.suffix(disk@), self@.degdist, draws.0, draws.1) is Some);
                        }
                        patch.push(word);
                    },
                    None => {},
                }
                j += 1;
            }
            proof {
                let made = views(patch@);
                assert forall|k: int| 0 <= k < made.len() implies self@.can_encode(disk@, #[trigger] made[k]) by {
                    assert(made[k] == patch@[k]@);
                }
                shipped = shipped.push(made);
            }
            patches.push(patch);
            i += 1;
        }
        proof {
            assert(old(self)@.ships(old(disk)@, shipped));
        }
        self.replicate_with(patches, adaptor, disk);
        proof {
            let sent = Seq::new(patches@.len(), |k: int| views(patches@[k]@));
            assert(sent =~= shipped);
        }
    }

    /// A leader ships `patches`, one to each of the other members in their
    /// order, from the committed boundary of its log, with the names of the
    /// entries past it, and rewinds the heartbeat timer. Any other replica
    /// does nothing.
    pub fn replicate_with(
        &mut self,
        patches: Vec<Vec<Codeword<Proposal>>>,
        adaptor: &mut impl Adaptor<RaftLubyMsg<Proposal>>,
        disk: &mut impl Persistor<Proposal>,
    )
        requires
            exact_clone::<Proposal>(),
            patches.len() == old(self)@.others().len(),
        ensures
            old(self)@.on_heartbeat(old(disk)@, Seq::new(patches@.len(), |k: int| views(patches@[k]@))).lands(
                final(self)@,
                final(disk)@,
                old(adaptor).sent(),
                final(adaptor).sent(),
            ),
            final(adaptor).received() == old(adaptor).received(),
    {
        if let LubyRole::Leader { .. } = self.role {
        } else {
            return ;
        }
        self.timeout_heart = 0;
        let tail = disk.last().1;
        let at = if self.commitable <= tail { self.commitable } else { tail };
        let before = if at == 0 { None } else { disk.term(at - 1) };
        let suffix = disk.slice(self.commitable..tail);
        let mut names: Vec<(ProposalId, Term)> = Vec::new();
        let mut j: usize = 0;
        while j < suffix.len()
            invariant
                j <= suffix.len(),
                names@ == names_of(suffix@).take(j as int),
            decreases suffix.len() - j,
        {
            names.push((suffix[j].1, suffix[j].2));
            assert(names@ =~= names_of(suffix@).take(j + 1));
            j += 1;
        }
        assert(names_of(suffix@).take(suffix.len() as int) =~= names_of(suffix@));
        let rest = others(&self.peers, self.id);
        let ghost shipped = Seq::new(patches@.len(), |k: int| views(patches@[k]@));
        let ghost step = old(self)@.on_heartbeat(old(disk)@, shipped);
        let mut patches = patches;
        let mut i: usize = 0;
        while i < rest.len()
            invariant
                i <= rest.len(),
                rest@ == old(self)@.others(),
                patches.len() == rest.len(),
                shipped.len() == rest.len(),
                forall|k: int| i <= k < patches.len() ==> #[trigger] shipped[k] == views(patches@[k]@),
                old(self)@.role is Leader,
                self@ == step.replica,
                disk@ == old(disk)@,
                (before, at) == old(self)@.boundary(old(disk)@),
                names@ == names_of(old(self)@.suffix(old(disk)@)),
                step == old(self)@.on_heartbeat(old(disk)@, shipped),
                adaptor.sent() == old(adaptor).sent() + step.out.take(i as int),
                adaptor.received() == old(adaptor).received(),
            decreases rest.len() - i,
        {
            let mut patch: Vec<Codeword<Proposal>> = Vec::new();
            core::mem::swap(&mut patch, &mut patches[i]);
            adaptor.send(
                rest[i],
                RaftLubyMsg::ReplicateReq {
                    commit: self.commitable,
                    leader: (self.term, self.id),
                    prefix: (before, at),
                    names: copy_names(&names),
                    patch,
                },
            );
            assert(step.out.take(i + 1) == step.out.take(i as int).push(step.out[i as int]));
            i += 1;
        }
        assert(step.out.take(rest.len() as int) == step.out);
    }

    /// Handles a replication request with a random election timer: see
    /// `handle_replicate_with`.
    pub fn handle_replicate(
        &mut self,
        leader: (Term, RaftId),
        prefix: (Option<Term>, usize),
        names: Vec<(ProposalId, Term)>,
        patch: Vec<Codeword<Proposal>>,
        commit: usize,
        adaptor: &mut impl Adaptor<RaftLubyMsg<Proposal>>,
        disk: &mut impl Persistor<Proposal>,
    ) -> (resolved: Vec<(ProposalId, Proposal)>)
        requires
            combines::<Proposal>(),
            exact_clone::<Proposal>(),
            old(self)@.bound_elect > 0,
        ensures
            exists|draw: u64|
                (#[trigger] old(self)@.on_replicate(
                    old(disk)@,
                    leader,
                    prefix,
                    names@,
                    views(patch@),
                    commit,
                    draw,
                    resolved@,
                )).lands(final(self)@, final(disk)@, old(adaptor).sent(), final(adaptor).sent()),
            old(self)@.takes_in(old(disk)@, leader, prefix) ==> peeled_out(
                old(self)@.gathered(views(patch@)),
                resolved@,
            ),
            !old(self)@.takes_in(old(disk)@, leader, prefix) ==> resolved@.len() == 0,
            final(adaptor).received() == old(adaptor).received(),
    {
        let draw = draw_u64();
        let ghost shipped = views(patch@);
        let ghost named = names@;
        let resolved = self.handle_replicate_with(leader, prefix, names, patch, commit, draw, adaptor, disk);
        assert(old(self)@.on_replicate(old(disk)@, leader, prefix, named, shipped, commit, draw, resolved@).lands(
            self@,
            disk@,
            old(adaptor).sent(),
            adaptor.sent(),
        ));
        resolved
    }

    /// Handles a replication request. A leader of a smaller term is turned
    /// down. Otherwise the replica follows the leader, into its term where
    /// that is larger, and sets the election timer from `draw`; where the
    /// request does not fit the log, because the boundary lies past its end or
    /// the term named for the entry before the boundary is not the one the log
    /// holds there, it turns the request down. Else it adds the codewords to
    /// those gathered and peels them, beside the proposals resolved before;
    /// keeps what peeling resolved, and in its buffer the codewords that
    /// peeling left, none of which names one proposal alone; merges into the
    /// log, from the boundary on, the entries named by the request as far as
    /// their payloads are resolved without a gap, cutting the log only beyond
    /// the store's commit watermark; takes over the leader's commit index as
    /// far as its own log reaches; and acknowledges the end of what was
    /// merged. Returns the proposals resolved, each with its payload.
    pub fn handle_replicate_with(
        &mut self,
        leader: (Term, RaftId),
        prefix: (Option<Term>, usize),
        names: Vec<(ProposalId, Term)>,
        patch: Vec<Codeword<Proposal>>,
        commit: usize,
        draw: u64,
        adaptor: &mut impl Adaptor<RaftLubyMsg<Proposal>>,
        disk: &mut impl Persistor<Proposal>,
    ) -> (resolved: Vec<(ProposalId, Proposal)>)
        requires
            combines::<Proposal>(),
            exact_clone::<Proposal>(),
            old(self)@.bound_elect > 0,
        ensures
            old(self)@.on_replicate(
                old(disk)@,
                leader,
                prefix,
                names@,
                views(patch@),
                commit,
                draw,
                resolved@,
            ).lands(final(self)@, final(disk)@, old(adaptor).sent(), final(adaptor).sent()),
            old(self)@.takes_in(old(disk)@, leader, prefix) ==> peeled_out(
                old(self)@.gathered(views(patch@)),
                resolved@,
            ),
            !old(self)@.takes_in(old(disk)@, leader, prefix) ==> resolved@.len() == 0,
            final(adaptor).received() == old(adaptor).received(),
    {
        let (leader_term, leader_id) = leader;
        let (prefix_term, prefix_index) = prefix;
        if leader_term.0 < self.term.0 {
            adaptor.send(
                leader_id,
                RaftLubyMsg::ReplicateRej { from: self.id, term: self.term, at: prefix_index },
            );
            return Vec::new();
        }
        let newer = self.term.0 < leader_term.0;
        self.role = LubyRole::Follower { leader: Some(leader_id) };
        self.timeout_elect = draw % self.bound_elect;
        if newer {
            self.term = leader_term;
            self.vote = None;
            disk.persist(self.term, self.vote);
        }
        let gap = prefix_index > disk.last().1;
        let mismatch = gap || match prefix_term {
            None => false,
            Some(wanted) => if prefix_index == 0 {
                true
            } else {
                match disk.term(prefix_index - 1) {
                    Some(held) => held.0 != wanted.0,
                    None => true,
                }
            },
        };
        if mismatch {
            adaptor.send(
                leader_id,
                RaftLubyMsg::ReplicateRej { from: self.id, term: self.term, at: prefix_index },
            );
            return Vec::new();
        }
        let mut gathered: Vec<Codeword<Proposal>> = Vec::new();
        core::mem::swap(&mut gathered, &mut self.buff);
        let mut k: usize = 0;
        while k < self.known.len()
            invariant
                exact_clone::<Proposal>(),
                k <= self.known.len(),
                self.known@ == old(self)@.known,
                views(gathered@) == old(self)@.buff + singles(self.known@.take(k as int)),
            decreases self.known.len() - k,
        {
            let payload = self.known[k].1.clone();
            assert(cloned::<Proposal>(self.known@[k as int].1, payload));
            let mut symb: Vec<ProposalId> = Vec::new();
            symb.push(self.known[k].0);
            assert(symb@ =~= seq![self.known@[k as int].0]);
            let word = Codeword::new(payload, symb);
            let ghost was = views(gathered@);
            gathered.push(word);
            assert(views(gathered@) =~= was.push(word@));
            assert(singles(self.known@.take(k + 1)) =~= singles(self.known@.take(k as int)).push(
                CodewordView { data: self.known@[k as int].1, symb: seq![self.known@[k as int].0] },
            ));
            k += 1;
        }
        assert(self.known@.take(self.known.len() as int) =~= self.known@);
        let mut patch = patch;
        let ghost shipped = views(patch@);
        let ghost before = views(gathered@);
        gathered.append(&mut patch);
        let ghost all = old(self)@.gathered(shipped);
        assert(views(gathered@) =~= before + shipped);
        let (resolved, rest) = peel(gathered);
        proof {
            assert forall|i: int| 0 <= i < live(struck_each(all, resolved@)).len() implies (#[trigger] live(
                struck_each(all, resolved@),
            )[i]).symb.len() >= 2 by {
                assert(views(rest@)[i] == rest@[i]@);
            }
        }
        self.buff = rest;
        self.known = copy_pairs(&resolved);
        let sync = merge_resolved(disk, prefix_index, &names, &resolved);
        let tail = disk.last().1;
        if commit >= self.commitable {
            let upto = if commit <= tail { commit } else { tail };
            self.commitable = upto;
            disk.commit(upto);
        }
        adaptor.send(leader_id, RaftLubyMsg::ReplicateAck { from: self.id, sync, tail });
        resolved
    }

    /// A leader books an acknowledgement from a peer it knows, and moves its
    /// commit index up to the highest index that a majority of the cluster
    /// holds, where that index is higher and the entry below it is of the
    /// leader's own term.
    pub fn handle_replicate_ack(
        &mut self,
        from: RaftId,
        sync: usize,
        tail: usize,
        disk: &mut impl Persistor<Proposal>,
    )
        ensures
            final(self)@ == old(self)@.on_replicate_ack(old(disk)@, from, sync).replica,
            final(disk)@ == old(self)@.on_replicate_ack(old(disk)@, from, sync).store,
    {
        match &mut self.role {
            LubyRole::Leader { matched } => {
                if !matched.contains_key(&from.0) {
                    return ;
                }
                matched.insert(from.0, sync);
            },
            _ => { return ; },
        }
        let rest = others(&self.peers, self.id);
        let mut acked: Vec<usize> = Vec::new();
        let mut i: usize = 0;
        while i < rest.len()
            invariant
                i <= rest.len(),
                rest@ == self@.others(),
                acked@ == self@.acked(disk@).take(i as int),
            decreases rest.len() - i,
        {
            let held = match &self.role {
                LubyRole::Leader { matched } => on_record(matched, rest[i]),
                _ => 0,
            };
            acked.push(held);
            assert(self@.acked(disk@).take(i + 1) == self@.acked(disk@).take(i as int).push(held));
            i += 1;
        }
        acked.push(disk.last().1);
        assert(acked@ == self@.acked(disk@));
        let reach = majority_match(&acked);
        if reach > self.commitable {
            let ours = match disk.term(reach - 1) {
                Some(term) => term.0 == self.term.0,
                None => false,
            };
            if ours {
                self.commitable = reach;
                disk.commit(reach);
            }
        }
    }

    /// Takes a refused replication. A refusal of a larger term ends a
    /// leader's term: it becomes a candidate of the larger term, without
    /// votes; any other replica becomes a follower of it. No other refusal
    /// changes anything: this dialect keeps no probe index to move.
    pub fn handle_replicate_rej(
        &mut self,
        from: RaftId,
        term: Term,
        at: usize,
        disk: &mut impl Persistor<Proposal>,
    )
        ensures
            final(self)@ == old(self)@.on_replicate_rej(old(disk)@, term).replica,
            final(disk)@ == old(self)@.on_replicate_rej(old(disk)@, term).store,
    {
        if term.0 > self.term.0 {
            let led = if let LubyRole::Leader { .. } = self.role { true } else { false };
            self.role = if led {
                LubyRole::Candidate { count: 0 }
            } else {
                LubyRole::Follower { leader: None }
            };
            self.term = term;
            self.vote = None;
            disk.persist(self.term, self.vote);
        }
    }
}

/// Whether the message at `at` of `out` grants a vote of `term` to `to`.
pub open spec fn rateless_grants_at<P>(
    out: Seq<(RaftId, LubyMsgView<P>)>,
    at: int,
    term: Term,
    to: RaftId,
) -> bool {
    0 <= at < out.len() && out[at] == (to, LubyMsgView::<P>::VoteAck { term })
}

/// Whether a step keeps the identity of a rateless replica as it should:
/// the term does not fall, the store records the identity, a vote cast stays
/// cast while the term lasts, and a vote is granted only in the replica's
/// term and to the one it voted for.
pub open spec fn keeps_identity<P>(replica: LubyView<P>, next: LubyStep<P>) -> bool {
    &&& next.replica.term.0 >= replica.term.0
    &&& next.replica.term == next.store.term && next.replica.vote == next.store.vote
    &&& next.replica.term == replica.term && replica.vote is Some ==> next.replica.vote == replica.vote
    &&& forall|at: int, term: Term, to: RaftId| #[trigger]
        rateless_grants_at(next.out, at, term, to) ==> next.replica.term == term && next.replica.vote == Some(
            to,
        )
}

/// Term monotonicity and vote uniqueness in the rateless dialect, event by
/// event: whatever message arrives, whenever time passes and whatever is
/// proposed, a replica whose store records its identity keeps it as it
/// should.
pub proof fn lemma_rateless_identity<P: BitXor<P, Output = P>>(
    replica: LubyView<P>,
    store: StoreView<P>,
    msg: LubyMsgView<P>,
    proposal: P,
    id: ProposalId,
    draw: u64,
    patches: Seq<Seq<CodewordView<P>>>,
    resolved: Seq<(ProposalId, P)>,
)
    requires
        replica.term == store.term,
        replica.vote == store.vote,
        replica.bound_elect > 0,
    ensures
        keeps_identity(replica, replica.on_message(store, msg, draw, patches, resolved)),
        keeps_identity(replica, replica.on_propose(store, proposal, id, patches)),
        replica.classic().can_tick() ==> keeps_identity(replica, replica.on_tick(store, draw, patches)),
{
}

} // verus!
