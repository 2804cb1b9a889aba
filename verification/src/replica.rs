//! One replica of the classic dialect.

use vstd::prelude::*;
use core::marker::PhantomData;
use std::collections::HashMap;
use crate::nums::{ProposalId, RaftErr, RaftId, Term};
use crate::log::exact_clone;
use crate::store::Persistor;
use crate::message::{PaperMsgView, RaftPaperMsg};
use crate::network::Adaptor;
use crate::rules::{others_of, ReplicaView, RoleView};

verus! {

/// The role a replica plays, with the books a leader keeps on its peers:
/// for each, by its identifier, the highest index known to be replicated on
/// it (`matched`) and the index the next probe starts at (`guessed`).
#[derive(Debug, Clone, PartialEq, Eq)]
pub enum PaperRole {
    Leader { matched: HashMap<u64, usize>, guessed: HashMap<u64, usize> },
    Follower { leader: Option<RaftId> },
    Candidate { count: usize },
}

impl View for PaperRole {
    type V = RoleView;

    open spec fn view(&self) -> RoleView {
        match *self {
            PaperRole::Leader { matched, guessed } => RoleView::Leader {
                matched: matched@,
                guessed: guessed@,
            },
            PaperRole::Follower { leader } => RoleView::Follower { leader },
            PaperRole::Candidate { count } => RoleView::Candidate { count },
        }
    }
}

/// The state machine of one replica.
pub struct RaftPaperImpl<Proposal> {
    pub(crate) id: RaftId,
    pub(crate) batch: usize,
    pub(crate) peers: Vec<RaftId>,
    pub(crate) phantom: PhantomData<Proposal>,
    pub(crate) term: Term,
    pub(crate) vote: Option<RaftId>,
    pub(crate) role: PaperRole,
    pub(crate) commitable: usize,
    pub(crate) timeout_elect: u64,
    pub(crate) timeout_heart: u64,
    pub(crate) bound_elect: u64,
    pub(crate) bound_heart: u64,
}

/// Draws a number with `rand::random::<u64>()`. Nothing is claimed of the
/// number drawn.
#[verifier::external_body]
pub(crate) fn draw_u64() -> u64 {
    rand::random::<u64>()
}

/// The members of `peers` other than `id`, in their order.
pub fn others(peers: &Vec<RaftId>, id: RaftId) -> (rest: Vec<RaftId>)
    ensures
        rest@ == others_of(peers@, id),
{
    let mut rest: Vec<RaftId> = Vec::new();
    let mut i: usize = 0;
    while i < peers.len()
        invariant
            i <= peers.len(),
            rest@ == others_of(peers@.take(i as int), id),
        decreases peers.len() - i,
    {
        assert(peers@.take(i + 1).drop_last() == peers@.take(i as int));
        if peers[i].0 != id.0 {
            rest.push(peers[i]);
        }
        i += 1;
    }
    assert(peers@.take(peers.len() as int) == peers@);
    rest
}

impl<Proposal> View for RaftPaperImpl<Proposal> {
    type V = ReplicaView;

    open(crate) spec fn view(&self) -> ReplicaView {
        ReplicaView {
            id: self.id,
            batch: self.batch,
            peers: self.peers@,
            term: self.term,
            vote: self.vote,
            role: self.role@,
            commitable: self.commitable,
            timeout_elect: self.timeout_elect,
            timeout_heart: self.timeout_heart,
            bound_elect: self.bound_elect,
            bound_heart: self.bound_heart,
        }
    }
}

impl<Proposal: Clone> RaftPaperImpl<Proposal> {
    /// A replica for `id` in the cluster of `peers`, its election timer set
    /// from `draw`.
    pub fn new_with(
        id: RaftId,
        batch: usize,
        peers: Vec<RaftId>,
        bound_elect: u64,
        bound_heart: u64,
        disk: &mut impl Persistor<Proposal>,
        draw: u64,
    ) -> (replica: Self)
        requires
            bound_elect > 0,
        ensures
            final(disk)@ == old(disk)@,
            replica@ == ReplicaView::start(id, batch, peers@, bound_elect, bound_heart, old(disk)@, draw),
    {
        let (term, vote) = disk.load();
        Self {
            role: PaperRole::Candidate { count: 0 },
            commitable: disk.commitable(),
            id,
            batch,
            peers: others(&peers, id),
            term,
            vote,
            phantom: PhantomData,
            bound_elect,
            timeout_elect: draw % bound_elect,
            bound_heart,
            timeout_heart: 0,
        }
    }

    /// A replica for `id` in the cluster of `peers`, with a random election
    /// timer.
    pub fn new(
        id: RaftId,
        batch: usize,
        peers: Vec<RaftId>,
        bound_elect: u64,
        bound_heart: u64,
        disk: &mut impl Persistor<Proposal>,
    ) -> (replica: Self)
        requires
            bound_elect > 0,
        ensures
            final(disk)@ == old(disk)@,
            exists|draw: u64|
                replica@ == #[trigger] ReplicaView::start(
                    id,
                    batch,
                    peers@,
                    bound_elect,
                    bound_heart,
                    old(disk)@,
                    draw,
                ),
    {
        Self::new_with(id, batch, peers, bound_elect, bound_heart, disk, draw_u64())
    }

    /// Takes the next message from the transport, if there is one, and
    /// handles it with a random election timer: see `deliver`. Returns whether
    /// there was a message. Where there was none, nothing has been taken and
    /// nothing has changed; where there was one, that one message has been
    /// taken, and the replica, its store and what was sent are as `deliver`
    /// leaves them for that message.
    pub fn handle(
        &mut self,
        adaptor: &mut impl Adaptor<RaftPaperMsg<Proposal>>,
        disk: &mut impl Persistor<Proposal>,
    ) -> (handled: bool)
        requires
            exact_clone::<Proposal>(),
            old(self)@.bound_elect > 0,
        ensures
            handled <==> final(adaptor).received().len() == old(adaptor).received().len() + 1,
            !handled ==> final(adaptor).received() == old(adaptor).received(),
            !handled ==> final(self)@ == old(self)@,
            !handled ==> final(disk)@ == old(disk)@,
            !handled ==> final(adaptor).sent() == old(adaptor).sent(),
            handled ==> final(adaptor).received().drop_last() == old(adaptor).received(),
            handled ==> exists|draw: u64|
                (#[trigger] old(self)@.on_message(old(disk)@, final(adaptor).received().last(), draw)).lands(
                    final(self)@,
                    final(disk)@,
                    old(adaptor).sent(),
                    final(adaptor).sent(),
                ),
    {
        match adaptor.receive() {
            None => false,
            Some(msg) => {
                let draw = draw_u64();
                let ghost arrived = msg@;
                self.deliver(msg, draw, adaptor, disk);
                assert(adaptor.received() == old(adaptor).received().push(arrived));
                assert(adaptor.received().drop_last() == old(adaptor).received());
                assert(old(self)@.on_message(old(disk)@, adaptor.received().last(), draw).lands(
                    self@,
                    disk@,
                    old(adaptor).sent(),
                    adaptor.sent(),
                ));
                true
            },
        }
    }

    /// Handles one message by the rule of its kind; a replication request
    /// sets the election timer from `draw`.
    pub fn deliver(
        &mut self,
        msg: RaftPaperMsg<Proposal>,
        draw: u64,
        adaptor: &mut impl Adaptor<RaftPaperMsg<Proposal>>,
        disk: &mut impl Persistor<Proposal>,
    )
        requires
            exact_clone::<Proposal>(),
            old(self)@.bound_elect > 0,
        ensures
            old(self)@.on_message(old(disk)@, msg@, draw).lands(
                final(self)@,
                final(disk)@,
                old(adaptor).sent(),
                final(adaptor).sent(),
            ),
        final(adaptor).received() == old(adaptor).received(),
    {
        match msg {
            RaftPaperMsg::ProposalReq { proposal, id } => {
                let _ = self.propose(proposal, id, adaptor, disk);
            },
            RaftPaperMsg::ReplicateReq { leader, prefix, patch, commit } => {
                self.handle_replicate_with(leader, prefix, patch, commit, draw, adaptor, disk)
            },
            RaftPaperMsg::ReplicateAck { from, sync, tail } => {
                self.handle_replicate_ack(from, sync, tail, disk)
            },
            RaftPaperMsg::ReplicateRej { from, term, at } => {
                self.handle_replicate_rej(from, term, at, disk)
            },
            RaftPaperMsg::VoteReq { candidate, last } => {
                self.handle_vote_req(candidate, last, adaptor, disk)
            },
            RaftPaperMsg::VoteAck { term } => { self.handle_vote_ack(term, adaptor, disk) },
            RaftPaperMsg::VoteRej { term } => { self.handle_vote_rej(term, disk) },
        }
    }

    /// Submits a proposal. A leader appends it to its log in its term and
    /// replicates; a follower that knows the leader hands it on; any other
    /// replica fails it. The identifier must be fresh for every submission.
    pub fn propose(
        &mut self,
        proposal: Proposal,
        id: ProposalId,
        adaptor: &mut impl Adaptor<RaftPaperMsg<Proposal>>,
        disk: &mut impl Persistor<Proposal>,
    ) -> (answer: Result<(), RaftErr>)
        requires
            exact_clone::<Proposal>(),
        ensures
            answer == old(self)@.answer(id),
            old(self)@.on_propose(old(disk)@, proposal, id).lands(
                final(self)@,
                final(disk)@,
                old(adaptor).sent(),
                final(adaptor).sent(),
            ),
        final(adaptor).received() == old(adaptor).received(),
    {
        let known = match &self.role {
            PaperRole::Follower { leader } => *leader,
            PaperRole::Candidate { .. } => None,
            PaperRole::Leader { .. } => Some(self.id),
        };
        let leads = if let PaperRole::Leader { .. } = self.role { true } else { false };
        if leads {
            disk.push(proposal, id, self.term);
            self.replicate(adaptor, disk);
            Ok(())
        } else {
            match known {
                Some(leader) => {
                    adaptor.send(leader, RaftPaperMsg::ProposalReq { proposal, id });
                    Ok(())
                },
                None => Err(RaftErr::ProposalFailed { id }),
            }
        }
    }

    /// Lets one unit of logical time pass, with a random election timer for
    /// a candidacy that starts: see `tick_with`.
    pub fn tick(
        &mut self,
        adaptor: &mut impl Adaptor<RaftPaperMsg<Proposal>>,
        disk: &mut impl Persistor<Proposal>,
    )
        requires
            exact_clone::<Proposal>(),
            old(self)@.can_tick(),
        ensures
            exists|draw: u64|
                (#[trigger] old(self)@.on_tick(old(disk)@, draw)).lands(
                    final(self)@,
                    final(disk)@,
                    old(adaptor).sent(),
                    final(adaptor).sent(),
                ),
        final(adaptor).received() == old(adaptor).received(),
    {
        let draw = draw_u64();
        self.tick_with(draw, adaptor, disk);
        assert(old(self)@.on_tick(old(disk)@, draw).lands(
            self@,
            disk@,
            old(adaptor).sent(),
            adaptor.sent(),
        ));
    }

    /// Lets one unit of logical time pass: both timers advance by one; an
    /// election timer at its bound starts a candidacy, whose timer is set from
    /// `draw`; after that a heartbeat timer at its bound makes a leader
    /// replicate.
    pub fn tick_with(
        &mut self,
        draw: u64,
        adaptor: &mut impl Adaptor<RaftPaperMsg<Proposal>>,
        disk: &mut impl Persistor<Proposal>,
    )
        requires
            exact_clone::<Proposal>(),
            old(self)@.can_tick(),
        ensures
            old(self)@.on_tick(old(disk)@, draw).lands(
                final(self)@,
                final(disk)@,
                old(adaptor).sent(),
                final(adaptor).sent(),
            ),
        final(adaptor).received() == old(adaptor).received(),
    {
        self.timeout_elect += 1;
        self.timeout_heart += 1;
        if self.timeout_elect >= self.bound_elect {
            self.coup_detat_with(draw, adaptor, disk);
        }
        if self.timeout_heart >= self.bound_heart {
            self.replicate(adaptor, disk);
        }
    }

    /// The replica's own identifier.
    pub fn id(&self) -> (id: RaftId)
        ensures
            id == self@.id,
    {
        self.id
    }

    /// The highest term the replica has seen.
    pub fn term(&self) -> (term: Term)
        ensures
            term == self@.term,
    {
        self.term
    }

    /// The replica voted for in the current term, if any.
    pub fn vote(&self) -> (vote: Option<RaftId>)
        ensures
            vote == self@.vote,
    {
        self.vote
    }

    /// The role the replica plays.
    pub fn role(&self) -> (role: &PaperRole)
        ensures
            role@ == self@.role,
    {
        &self.role
    }

    /// The highest index known to be committed.
    pub fn commitable(&self) -> (index: usize)
        ensures
            index == self@.commitable,
    {
        self.commitable
    }

    /// The other members of the cluster.
    pub fn peers(&self) -> (peers: &Vec<RaftId>)
        ensures
            peers@ == self@.peers,
    {
        &self.peers
    }

    /// The ticks counted towards the next candidacy.
    pub fn timeout_elect(&self) -> (ticks: u64)
        ensures
            ticks == self@.timeout_elect,
    {
        self.timeout_elect
    }

    /// The ticks counted towards the next heartbeat.
    pub fn timeout_heart(&self) -> (ticks: u64)
        ensures
            ticks == self@.timeout_heart,
    {
        self.timeout_heart
    }
}

} // verus!
