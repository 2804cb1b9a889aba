//! A cluster of replicas on a network that may lose, delay and reorder
//! messages but hands each one over at most once; what the votes cast in it
//! imply, one leader for a term; and that every member keeps what it has
//! committed.

use vstd::prelude::*;
use vstd::set_lib::{lemma_len_subset, lemma_set_intersect_union_lens};
use crate::nums::{ProposalId, RaftId, Term};
use crate::lists::lemma_without;
use crate::log::Entry;
use crate::store::{lemma_kept_on, StoreView};
use crate::message::PaperMsgView;
use crate::rules::{ReplicaView, RoleView};
use crate::laws::{lemma_committed_stays, lemma_event_identity, Event};

verus! {

/// A message under way from one replica to another.
pub struct Packet<P> {
    pub src: RaftId,
    pub dst: RaftId,
    pub msg: PaperMsgView<P>,
}

/// A replica with its store.
pub struct Member<P> {
    pub replica: ReplicaView,
    pub store: StoreView<P>,
}

/// What has happened in a cluster so far, as far as elections go.
#[verifier::ext_equal]
pub struct Record {
    /// The vote each replica has cast in each term.
    pub votes: Map<(RaftId, Term), RaftId>,
    /// The voters each candidate has counted in its present candidacy.
    pub tally: Map<RaftId, Set<RaftId>>,
    /// Who has become leader, and in which term.
    pub crowned: Set<(Term, RaftId)>,
}

/// A cluster: its members by their identifiers, the messages under way,
/// the record of its elections, and for each term that had a leader, the
/// leader with its log as it last was while it led.
pub struct Cluster<P> {
    pub members: Map<RaftId, Member<P>>,
    pub net: Seq<Packet<P>>,
    pub record: Record,
    pub canon: Map<Term, (RaftId, Seq<Entry<P>>)>,
}

/// What can happen in a cluster.
pub enum Move<P> {
    /// The message at `at` of those under way reaches its destination.
    Deliver { at: int, draw: u64 },
    /// The message at `at` of those under way is lost.
    Lose { at: int },
    /// One unit of logical time passes at `id`.
    Tick { id: RaftId, draw: u64 },
    /// A client proposes at `id`.
    Propose { id: RaftId, proposal: P, pid: ProposalId },
    /// The replica `id` stops and starts again from its store.
    Restart { id: RaftId, draw: u64 },
}

/// The messages of `out` as packets from `src`.
pub open spec fn parcels<P>(src: RaftId, out: Seq<(RaftId, PaperMsgView<P>)>) -> Seq<Packet<P>> {
    Seq::new(out.len(), |i: int| Packet { src, dst: out[i].0, msg: out[i].1 })
}

impl<P> Packet<P> {
    /// The term of the vote that the packet grants, if it grants one.
    pub open spec fn grants(self) -> Option<Term> {
        match self.msg {
            PaperMsgView::VoteAck { term } => Some(term),
            _ => None,
        }
    }

    /// The candidacy that the packet asks a vote for, if it asks for one.
    pub open spec fn asks(self) -> Option<(Term, RaftId)> {
        match self.msg {
            PaperMsgView::VoteReq { candidate, .. } => Some(candidate),
            _ => None,
        }
    }
}

impl Record {
    /// The record before anything has happened among the replicas `ids`.
    pub open spec fn blank(ids: Set<RaftId>) -> Record {
        Record {
            votes: Map::empty(),
            tally: Map::new(|id: RaftId| ids.contains(id), |id: RaftId| Set::empty()),
            crowned: Set::empty(),
        }
    }

    /// The replicas of `ids` that have voted for `of` in `term`.
    pub open spec fn supporters(self, ids: Set<RaftId>, of: RaftId, term: Term) -> Set<RaftId> {
        ids.filter(|v: RaftId| self.votes.contains_key((v, term)) && self.votes[(v, term)] == of)
    }

    /// The record after the replica `id` went from `old` to `new`, counting
    /// a vote of `src` where it counted one.
    pub open spec fn noted(self, id: RaftId, old: ReplicaView, new: ReplicaView, src: RaftId) -> Record {
        Record {
            votes: match new.vote {
                Some(to) => self.votes.insert((id, new.term), to),
                None => self.votes,
            },
            tally: self.tally.insert(
                id,
                if new.role is Candidate && old.role is Candidate && new.term == old.term {
                    if new.role->count == old.role->count {
                        self.tally[id]
                    } else if new.role->count == old.role->count + 1 {
                        self.tally[id].insert(src)
                    } else {
                        Set::empty()
                    }
                } else if new.role is Candidate && new.role->count == 1 {
                    set![id]
                } else {
                    Set::empty()
                },
            ),
            crowned: if new.role is Leader {
                self.crowned.insert((new.term, id))
            } else {
                self.crowned
            },
        }
    }
}

impl<P> Cluster<P> {
    /// The identifiers of the members.
    pub open spec fn ids(self) -> Set<RaftId> {
        self.members.dom()
    }

    /// Whether `id` leads the cluster in `term`.
    pub open spec fn led_by(self, id: RaftId, term: Term) -> bool {
        self.ids().contains(id) && self.members[id].replica.role is Leader && self.members[id].replica.term
            == term
    }

    /// Whether `step` may come now.
    pub open spec fn allows(self, step: Move<P>) -> bool {
        match step {
            Move::Deliver { at, draw } => 0 <= at < self.net.len() && self.ids().contains(self.net[at].dst)
                && self.members[self.net[at].dst].replica.allows(
                Event::Message { msg: self.net[at].msg, draw },
            ),
            Move::Lose { at } => 0 <= at < self.net.len(),
            Move::Tick { id, draw } => self.ids().contains(id) && self.members[id].replica.allows(
                Event::<P>::Tick { draw },
            ),
            Move::Propose { id, proposal, pid } => self.ids().contains(id) && self.members[id].replica.allows(
                Event::Propose { proposal, id: pid },
            ),
            Move::Restart { id, draw } => self.ids().contains(id) && self.members[id].replica.allows(
                Event::<P>::Restart { draw },
            ),
        }
    }

    /// The cluster after `event` came to the member `id`, with `rest` as
    /// the other messages under way; `src` is the sender of a message that
    /// came.
    pub open spec fn acted(self, id: RaftId, event: Event<P>, rest: Seq<Packet<P>>, src: RaftId) -> Cluster<P> {
        let old = self.members[id];
        let step = old.replica.on_event(old.store, event);
        Cluster {
            members: self.members.insert(id, Member { replica: step.replica, store: step.store }),
            net: rest + parcels(id, step.out),
            record: self.record.noted(id, old.replica, step.replica, src),
            canon: if step.replica.role is Leader {
                self.canon.insert(step.replica.term, (id, step.store.log))
            } else {
                self.canon
            },
        }
    }

    /// The cluster after `step`.
    pub open spec fn after(self, step: Move<P>) -> Cluster<P> {
        match step {
            Move::Deliver { at, draw } => self.acted(
                self.net[at].dst,
                Event::Message { msg: self.net[at].msg, draw },
                self.net.remove(at),
                self.net[at].src,
            ),
            Move::Lose { at } => Cluster { net: self.net.remove(at), ..self },
            Move::Tick { id, draw } => self.acted(id, Event::Tick { draw }, self.net, id),
            Move::Propose { id, proposal, pid } => self.acted(
                id,
                Event::Propose { proposal, id: pid },
                self.net,
                id,
            ),
            Move::Restart { id, draw } => self.acted(id, Event::Restart { draw }, self.net, id),
        }
    }

    /// Whether the members know each other: every member goes by its own
    /// identifier, has every other member as a peer once, and no one else,
    /// as many as a machine can count, and its store records its identity.
    pub open spec fn seated(self) -> bool {
        &&& self.ids().finite()
        &&& self.record.tally.dom() == self.ids()
        &&& forall|id: RaftId| #[trigger]
            self.ids().contains(id) ==> {
                let member = self.members[id];
                &&& member.replica.id == id
                &&& member.replica.recorded(member.store)
                &&& member.replica.peers.no_duplicates()
                &&& member.replica.peers.len() + 1 == self.ids().len()
                &&& member.replica.peers.len() <= usize::MAX
                &&& forall|peer: RaftId| #[trigger]
                    member.replica.peers.contains(peer) <==> self.ids().contains(peer) && peer != id
            }
    }

    /// Every vote on record was cast by a member, in a term that the member
    /// has reached; and a vote of the member's present term is the vote it
    /// holds.
    pub open spec fn votes_true(self) -> bool {
        forall|v: RaftId, term: Term| #[trigger]
            self.record.votes.contains_key((v, term)) ==> self.ids().contains(v) && term.0
                <= self.members[v].replica.term.0 && (term == self.members[v].replica.term
                ==> self.members[v].replica.vote == Some(self.record.votes[(v, term)]))
    }

    /// The vote that a member holds is on record.
    pub open spec fn votes_kept(self) -> bool {
        forall|v: RaftId| #[trigger]
            self.ids().contains(v) ==> (self.members[v].replica.vote matches Some(to)
                ==> self.record.votes.contains_key((v, self.members[v].replica.term))
                && self.record.votes[(v, self.members[v].replica.term)] == to)
    }

    /// Every granted vote under way goes from a member to another member
    /// that has reached the term, and is on record.
    pub open spec fn acks_true(self) -> bool {
        forall|i: int|
            0 <= i < self.net.len() ==> ((#[trigger] self.net[i]).grants() matches Some(term) ==> {
                let p = self.net[i];
                &&& self.ids().contains(p.src)
                &&& self.ids().contains(p.dst)
                &&& p.src != p.dst
                &&& self.record.votes.contains_key((p.src, term))
                &&& self.record.votes[(p.src, term)] == p.dst
                &&& self.members[p.dst].replica.term.0 >= term.0
            })
    }

    /// No granted vote is under way twice.
    pub open spec fn acks_once(self) -> bool {
        forall|i: int, j: int|
            0 <= i < j < self.net.len() && (#[trigger] self.net[i]).grants() is Some
                ==> self.net[i] != #[trigger] self.net[j]
    }

    /// A granted vote under way has not been counted.
    pub open spec fn acks_uncounted(self) -> bool {
        forall|i: int|
            0 <= i < self.net.len() ==> ((#[trigger] self.net[i]).grants() matches Some(term)
                ==> self.members[self.net[i].dst].replica.term == term ==> !self.record.tally[self.net[i].dst].contains(
                self.net[i].src,
            ))
    }

    /// Every request for a vote under way comes from its candidate, a
    /// member that has reached the term, and goes to another member.
    pub open spec fn asks_true(self) -> bool {
        forall|i: int|
            0 <= i < self.net.len() ==> ((#[trigger] self.net[i]).asks() matches Some(candidacy) ==> {
                let p = self.net[i];
                &&& p.src == candidacy.1
                &&& self.ids().contains(p.src)
                &&& self.ids().contains(p.dst)
                &&& p.dst != p.src
                &&& self.members[p.src].replica.term.0 >= candidacy.0.0
            })
    }

    /// No candidacy asks one member twice.
    pub open spec fn asks_once(self) -> bool {
        forall|i: int, j: int|
            0 <= i < j < self.net.len() && (#[trigger] self.net[i]).asks() is Some && self.net[i].asks() == (
            #[trigger] self.net[j]).asks() ==> self.net[i].dst != self.net[j].dst
    }

    /// A request for a vote under way has not been answered: no vote from
    /// the one asked is under way to the candidate for that term, nor has
    /// the candidate counted one.
    pub open spec fn asks_open(self) -> bool {
        &&& forall|i: int, j: int|
            0 <= i < self.net.len() && 0 <= j < self.net.len() ==> ((#[trigger] self.net[i]).asks() matches Some(
                candidacy,
            ) ==> (#[trigger] self.net[j]).grants() == Some(candidacy.0) ==> !(self.net[j].src == self.net[i].dst
                && self.net[j].dst == self.net[i].src))
        &&& forall|i: int|
            0 <= i < self.net.len() ==> ((#[trigger] self.net[i]).asks() matches Some(candidacy)
                ==> self.members[self.net[i].src].replica.term == candidacy.0 ==> !self.record.tally[self.net[i].src].contains(
                self.net[i].dst,
            ))
    }

    /// What a candidate has counted: as many voters as its count says, each
    /// a member that voted for it in its term.
    pub open spec fn tallies_true(self) -> bool {
        forall|c: RaftId| #[trigger]
            self.ids().contains(c) ==> {
                let replica = self.members[c].replica;
                let tally = self.record.tally[c];
                &&& tally.finite()
                &&& replica.role is Candidate ==> replica.role->count == tally.len()
                &&& forall|v: RaftId| #[trigger]
                    tally.contains(v) ==> self.ids().contains(v) && self.record.votes.contains_key(
                        (v, replica.term),
                    ) && self.record.votes[(v, replica.term)] == c
            }
    }

    /// Whoever was crowned has the votes of more than half the members.
    pub open spec fn crowned_by_majority(self) -> bool {
        forall|term: Term, a: RaftId| #[trigger]
            self.record.crowned.contains((term, a)) ==> 2 * self.record.supporters(self.ids(), a, term).len()
                > self.ids().len()
    }

    /// Whoever leads was crowned.
    pub open spec fn leaders_crowned(self) -> bool {
        forall|a: RaftId| #[trigger]
            self.ids().contains(a) ==> (self.members[a].replica.role is Leader ==> self.record.crowned.contains(
                (self.members[a].replica.term, a),
            ))
    }

    /// What holds of a cluster at all times.
    pub open spec fn sound(self) -> bool {
        &&& self.seated()
        &&& self.votes_true()
        &&& self.votes_kept()
        &&& self.acks_true()
        &&& self.acks_once()
        &&& self.acks_uncounted()
        &&& self.asks_true()
        &&& self.asks_once()
        &&& self.asks_open()
        &&& self.tallies_true()
        &&& self.crowned_by_majority()
        &&& self.leaders_crowned()
    }
}

impl<P> Cluster<P> {
    /// The messages under way but the one at `at`; all of them where `at`
    /// is past the last.
    pub open spec fn spared(self, at: int) -> Seq<Packet<P>> {
        if 0 <= at < self.net.len() {
            self.net.remove(at)
        } else {
            self.net
        }
    }

    /// Whether `event` comes to the member `id` by the message at `at`,
    /// sent by `src`, or, where `at` is past the last message, by itself.
    pub open spec fn brings(self, id: RaftId, event: Event<P>, at: int, src: RaftId) -> bool {
        &&& self.ids().contains(id)
        &&& self.members[id].replica.allows(event)
        &&& 0 <= at <= self.net.len()
        &&& at < self.net.len() ==> id == self.net[at].dst && src == self.net[at].src && (event matches Event::Message {
            msg,
            ..
        } && msg == self.net[at].msg)
        &&& at == self.net.len() ==> !(event is Message) && src == id
    }
}

/// The place in the messages under way of the message at `i` of those
/// spared.
pub open spec fn up(at: int, i: int) -> int {
    if i < at {
        i
    } else {
        i + 1
    }
}

/// What one event does to the ballots of a replica that is not its own
/// peer. It keeps its identifier, its peers and its bounds. It grants a vote
/// only in answer to a request, to the candidate, in the candidate's term,
/// which is then its own, and holds that vote. It asks for votes only when
/// it opens the term after its own, voting for itself, and asks each peer
/// once. It counts one more vote only for a vote of its term. As a
/// candidate it has the count it had, or one more, or one vote in the next
/// term, its own, or none. It becomes leader
/// only as a candidate whose count, with one more vote, exceeds half the
/// cluster, and stays one only in its term.
pub proof fn lemma_event_ballots<P>(replica: ReplicaView, store: StoreView<P>, event: Event<P>)
    requires
        replica.recorded(store),
        replica.allows(event),
        !replica.peers.contains(replica.id),
        replica.peers.len() <= usize::MAX,
    ensures
        ({
            let next = replica.on_event(store, event);
            let new = next.replica;
            &&& new.id == replica.id && new.peers == replica.peers
            &&& forall|k: int|
                0 <= k < next.out.len() ==> ((#[trigger] next.out[k]).1 matches PaperMsgView::VoteAck { term } ==> {
                    &&& next.out.len() == 1
                    &&& event matches Event::Message { msg: PaperMsgView::VoteReq { candidate, .. }, .. }
                        && candidate == (term, next.out[k].0)
                    &&& new.term == term
                    &&& new.vote == Some(next.out[k].0)
                })
            &&& forall|k: int|
                0 <= k < next.out.len() ==> ((#[trigger] next.out[k]).1 matches PaperMsgView::VoteReq {
                    candidate,
                    ..
                } ==> {
                    &&& event is Tick
                    &&& candidate == (new.term, replica.id)
                    &&& new.term.0 == replica.term.0 + 1
                    &&& new.vote == Some(replica.id)
                    &&& new.role == (RoleView::Candidate { count: 1 })
                    &&& next.out.len() == replica.peers.len()
                    &&& next.out[k].0 == replica.peers[k]
                })
            &&& new.role is Candidate && replica.role is Candidate && new.term == replica.term && new.role->count
                == replica.role->count + 1 ==> (event matches Event::Message {
                msg: PaperMsgView::VoteAck { term },
                ..
            } && term == replica.term)
            &&& new.role is Candidate ==> {
                ||| replica.role is Candidate && new.term == replica.term && new.role->count
                    == replica.role->count
                ||| replica.role is Candidate && new.term == replica.term && new.role->count
                    == replica.role->count + 1
                ||| new.term.0 == replica.term.0 + 1 && new.role->count == 1 && new.vote == Some(replica.id)
                ||| new.role->count == 0
            }
            &&& new.role is Leader && replica.role is Leader ==> new.term == replica.term
            &&& new.role is Leader && !(replica.role is Leader) ==> {
                &&& event matches Event::Message { msg: PaperMsgView::VoteAck { term }, .. } && term
                    == replica.term
                &&& replica.role is Candidate
                &&& 2 * (replica.role->count + 1) > replica.cluster_size()
                &&& new.term == replica.term
            }
        }),
{
    lemma_without(replica.peers, replica.id);
}

/// The votes on record stay as they are, whatever a sound cluster does.
pub proof fn lemma_votes_stay<P>(c: Cluster<P>, id: RaftId, event: Event<P>, at: int, src: RaftId)
    requires
        c.sound(),
        c.brings(id, event, at, src),
    ensures
        ({
            let n = c.acted(id, event, c.spared(at), src);
            &&& n.ids() == c.ids()
            &&& forall|v: RaftId, term: Term| #[trigger]
                c.record.votes.contains_key((v, term)) ==> n.record.votes.contains_key((v, term))
                    && n.record.votes[(v, term)] == c.record.votes[(v, term)]
            &&& forall|v: RaftId, term: Term| #[trigger]
                n.record.votes.contains_key((v, term)) ==> c.record.votes.contains_key((v, term)) || (v == id
                    && term == n.members[id].replica.term && n.members[id].replica.vote == Some(
                    n.record.votes[(v, term)],
                ))
            &&& forall|pair: (Term, RaftId)| #[trigger]
                c.record.crowned.contains(pair) ==> n.record.crowned.contains(pair)
        }),
{
    let old = c.members[id];
    assert(c.ids().contains(id));
    lemma_event_identity(old.replica, old.store, event);
    let n = c.acted(id, event, c.spared(at), src);
    let new = n.members[id].replica;
    assert(n.ids() =~= c.ids());
    assert forall|v: RaftId, term: Term| #[trigger] c.record.votes.contains_key((v, term)) implies n.record.votes.contains_key(
        (v, term),
    ) && n.record.votes[(v, term)] == c.record.votes[(v, term)] by {
        assert(c.ids().contains(v));
        if v == id && term == new.term && new.vote is Some {
            assert(term.0 <= old.replica.term.0);
            assert(old.replica.vote == Some(c.record.votes[(v, term)]));
        }
    }
}

/// A sound cluster stays seated, and its record of votes stays true.
pub proof fn lemma_acted_votes<P>(c: Cluster<P>, id: RaftId, event: Event<P>, at: int, src: RaftId)
    requires
        c.sound(),
        c.brings(id, event, at, src),
    ensures
        c.acted(id, event, c.spared(at), src).seated(),
        c.acted(id, event, c.spared(at), src).votes_true(),
        c.acted(id, event, c.spared(at), src).votes_kept(),
{
    let old = c.members[id];
    assert(c.ids().contains(id));
    assert(!old.replica.peers.contains(id));
    lemma_event_identity(old.replica, old.store, event);
    lemma_event_ballots(old.replica, old.store, event);
    lemma_votes_stay(c, id, event, at, src);
    let n = c.acted(id, event, c.spared(at), src);
    assert(n.record.tally.dom() =~= n.ids());
    assert forall|other: RaftId| #[trigger] n.ids().contains(other) implies {
        let member = n.members[other];
        &&& member.replica.id == other
        &&& member.replica.recorded(member.store)
        &&& member.replica.peers.no_duplicates()
        &&& member.replica.peers.len() + 1 == n.ids().len()
        &&& member.replica.peers.len() <= usize::MAX
        &&& forall|peer: RaftId| #[trigger]
            member.replica.peers.contains(peer) <==> n.ids().contains(peer) && peer != other
    } by {
        assert(c.ids().contains(other));
    }
    assert forall|v: RaftId, term: Term| #[trigger] n.record.votes.contains_key((v, term)) implies n.ids().contains(
        v,
    ) && term.0 <= n.members[v].replica.term.0 && (term == n.members[v].replica.term
        ==> n.members[v].replica.vote == Some(n.record.votes[(v, term)])) by {
        if c.record.votes.contains_key((v, term)) {
            assert(c.ids().contains(v));
        }
    }
    assert forall|v: RaftId| #[trigger] n.ids().contains(v) implies (n.members[v].replica.vote matches Some(to)
        ==> n.record.votes.contains_key((v, n.members[v].replica.term)) && n.record.votes[(
        v,
        n.members[v].replica.term,
    )] == to) by {
        assert(c.ids().contains(v));
    }
}

/// The messages under way after an event: those spared, in their order, and
/// then those the member sent.
pub proof fn lemma_acted_net<P>(c: Cluster<P>, id: RaftId, event: Event<P>, at: int, src: RaftId)
    requires
        c.brings(id, event, at, src),
    ensures
        ({
            let n = c.acted(id, event, c.spared(at), src);
            let out = c.members[id].replica.on_event(c.members[id].store, event).out;
            let kept = c.spared(at).len();
            &&& n.net.len() == kept + out.len()
            &&& kept == if at < c.net.len() { c.net.len() - 1 } else { c.net.len() as int }
            &&& forall|i: int| 0 <= i < kept ==> #[trigger] n.net[i] == c.net[up(at, i)]
            &&& forall|i: int|
                kept <= i < n.net.len() ==> #[trigger] n.net[i] == (Packet {
                    src: id,
                    dst: out[i - kept].0,
                    msg: out[i - kept].1,
                })
        }),
{
}

/// Granted votes under way stay true, single and uncounted.
pub proof fn lemma_acted_acks<P>(c: Cluster<P>, id: RaftId, event: Event<P>, at: int, src: RaftId)
    requires
        c.sound(),
        c.brings(id, event, at, src),
    ensures
        c.acted(id, event, c.spared(at), src).acks_true(),
        c.acted(id, event, c.spared(at), src).acks_once(),
        c.acted(id, event, c.spared(at), src).acks_uncounted(),
{
    let old = c.members[id];
    assert(c.ids().contains(id));
    assert(!old.replica.peers.contains(id));
    lemma_event_identity(old.replica, old.store, event);
    lemma_event_ballots(old.replica, old.store, event);
    lemma_votes_stay(c, id, event, at, src);
    lemma_acted_net(c, id, event, at, src);
    let n = c.acted(id, event, c.spared(at), src);
    let step = old.replica.on_event(old.store, event);
    let out = step.out;
    let new = step.replica;
    let kept = c.spared(at).len() as int;
    assert forall|i: int| 0 <= i < n.net.len() implies ((#[trigger] n.net[i]).grants() matches Some(term) ==> {
        let p = n.net[i];
        &&& n.ids().contains(p.src)
        &&& n.ids().contains(p.dst)
        &&& p.src != p.dst
        &&& n.record.votes.contains_key((p.src, term))
        &&& n.record.votes[(p.src, term)] == p.dst
        &&& n.members[p.dst].replica.term.0 >= term.0
    }) by {
        if n.net[i].grants() is Some {
            let term = n.net[i].grants()->0;
            if i < kept {
                let u = up(at, i);
                assert(n.net[i] == c.net[u]);
                assert(c.net[u].grants() == Some(term));
                assert(c.record.votes.contains_key((c.net[u].src, term)));
            } else {
                let k = i - kept;
                assert(out[k].1 == (PaperMsgView::<P>::VoteAck { term }));
                assert(at < c.net.len());
                assert(c.net[at].asks() == Some((term, out[k].0)));
            }
        }
    }
    assert forall|i: int, j: int| 0 <= i < j < n.net.len() && (#[trigger] n.net[i]).grants() is Some implies n.net[i]
        != #[trigger] n.net[j] by {
        if i < kept && j < kept {
            assert(c.net[up(at, i)] != c.net[up(at, j)]);
        } else if i < kept {
            if n.net[i] == n.net[j] {
                let k = j - kept;
                let term = n.net[j].grants()->0;
                assert(out[k].1 == (PaperMsgView::<P>::VoteAck { term }));
                assert(c.net[at].asks() == Some((term, out[k].0)));
                assert(c.net[up(at, i)].grants() == Some(term));
            }
        } else {
            let k = i - kept;
            assert(out[k].1 is VoteAck);
        }
    }
    assert forall|i: int| 0 <= i < n.net.len() implies ((#[trigger] n.net[i]).grants() matches Some(term)
        ==> n.members[n.net[i].dst].replica.term == term ==> !n.record.tally[n.net[i].dst].contains(n.net[i].src)) by {
        if n.net[i].grants() is Some {
            let term = n.net[i].grants()->0;
            let p = n.net[i];
            if n.members[p.dst].replica.term == term {
                if i < kept {
                    let u = up(at, i);
                    assert(p == c.net[u]);
                    assert(c.net[u].grants() == Some(term));
                    if p.dst == id {
                        if new.role is Candidate && old.replica.role is Candidate && new.term == old.replica.term {
                            if new.role->count == old.replica.role->count + 1 && new.role->count
                                != old.replica.role->count {
                                assert(at < c.net.len());
                                assert(c.net[at].grants() == Some(term));
                                if u < at {
                                    assert(c.net[u] != c.net[at]);
                                } else {
                                    assert(c.net[at] != c.net[u]);
                                }
                            }
                        }
                    }
                } else {
                    let k = i - kept;
                    assert(out[k].1 == (PaperMsgView::<P>::VoteAck { term }));
                    assert(c.net[at].asks() == Some((term, out[k].0)));
                    assert(p.dst == c.net[at].src);
                    assert(p.dst != id);
                }
            }
        }
    }
}

/// Requests for votes under way stay true, single and open.
pub proof fn lemma_acted_asks<P>(c: Cluster<P>, id: RaftId, event: Event<P>, at: int, src: RaftId)
    requires
        c.sound(),
        c.brings(id, event, at, src),
    ensures
        c.acted(id, event, c.spared(at), src).asks_true(),
        c.acted(id, event, c.spared(at), src).asks_once(),
        c.acted(id, event, c.spared(at), src).asks_open(),
{
    let old = c.members[id];
    assert(c.ids().contains(id));
    assert(!old.replica.peers.contains(id));
    lemma_event_identity(old.replica, old.store, event);
    lemma_event_ballots(old.replica, old.store, event);
    lemma_votes_stay(c, id, event, at, src);
    lemma_acted_net(c, id, event, at, src);
    let n = c.acted(id, event, c.spared(at), src);
    let step = old.replica.on_event(old.store, event);
    let out = step.out;
    let new = step.replica;
    let kept = c.spared(at).len() as int;
    assert forall|i: int| 0 <= i < n.net.len() implies ((#[trigger] n.net[i]).asks() matches Some(candidacy) ==> {
        let p = n.net[i];
        &&& p.src == candidacy.1
        &&& n.ids().contains(p.src)
        &&& n.ids().contains(p.dst)
        &&& p.dst != p.src
        &&& n.members[p.src].replica.term.0 >= candidacy.0.0
    }) by {
        if n.net[i].asks() is Some {
            if i < kept {
                let u = up(at, i);
                assert(n.net[i] == c.net[u]);
                assert(c.net[u].asks() is Some);
            } else {
                let k = i - kept;
                assert(out[k].1 is VoteReq);
                assert(old.replica.peers.contains(old.replica.peers[k]));
            }
        }
    }
    assert forall|i: int, j: int|
        0 <= i < j < n.net.len() && (#[trigger] n.net[i]).asks() is Some && n.net[i].asks() == (
        #[trigger] n.net[j]).asks() implies n.net[i].dst != n.net[j].dst by {
        if i < kept && j < kept {
            assert(c.net[up(at, i)].asks() == c.net[up(at, j)].asks());
        } else if i < kept {
            let k = j - kept;
            assert(out[k].1 is VoteReq);
            assert(c.net[up(at, i)].asks() == Some((new.term, id)));
        } else {
            assert(out[i - kept].1 is VoteReq);
            assert(out[j - kept].1 is VoteReq);
        }
    }
    assert forall|i: int, j: int| 0 <= i < n.net.len() && 0 <= j < n.net.len() implies ((#[trigger] n.net[i]).asks() matches Some(
        candidacy,
    ) ==> (#[trigger] n.net[j]).grants() == Some(candidacy.0) ==> !(n.net[j].src == n.net[i].dst && n.net[j].dst
        == n.net[i].src)) by {
        if n.net[i].asks() is Some && n.net[j].grants() == Some((n.net[i].asks()->0).0) {
            let candidacy = n.net[i].asks()->0;
            if i < kept && j < kept {
                assert(c.net[up(at, i)].asks() == Some(candidacy));
                assert(c.net[up(at, j)].grants() == Some(candidacy.0));
            } else if i < kept {
                let k = j - kept;
                let u = up(at, i);
                assert(out[k].1 == (PaperMsgView::<P>::VoteAck { term: candidacy.0 }));
                assert(c.net[at].asks() == Some((candidacy.0, out[k].0)));
                assert(c.net[u].asks() == Some(candidacy));
                if n.net[j].src == n.net[i].dst && n.net[j].dst == n.net[i].src {
                    assert(c.net[u].src == candidacy.1);
                    if u < at {
                        assert(c.net[u].dst != c.net[at].dst);
                    } else {
                        assert(c.net[at].dst != c.net[u].dst);
                    }
                }
            } else if j < kept {
                let k = i - kept;
                assert(out[k].1 is VoteReq);
                assert(c.net[up(at, j)].grants() == Some(candidacy.0));
            } else {
                assert(out[i - kept].1 is VoteReq);
                assert(out[j - kept].1 is VoteAck);
            }
        }
    }
    assert forall|i: int| 0 <= i < n.net.len() implies ((#[trigger] n.net[i]).asks() matches Some(candidacy)
        ==> n.members[n.net[i].src].replica.term == candidacy.0 ==> !n.record.tally[n.net[i].src].contains(
        n.net[i].dst,
    )) by {
        if n.net[i].asks() is Some {
            let candidacy = n.net[i].asks()->0;
            let p = n.net[i];
            if n.members[p.src].replica.term == candidacy.0 {
                if i < kept {
                    let u = up(at, i);
                    assert(p == c.net[u]);
                    assert(c.net[u].asks() == Some(candidacy));
                    if p.src == id {
                        if new.role is Candidate && old.replica.role is Candidate && new.term == old.replica.term {
                            if new.role->count == old.replica.role->count + 1 && new.role->count
                                != old.replica.role->count {
                                assert(at < c.net.len());
                                assert(c.net[at].grants() == Some(candidacy.0));
                            }
                        }
                    }
                } else {
                    let k = i - kept;
                    assert(out[k].1 is VoteReq);
                    assert(old.replica.peers.contains(old.replica.peers[k]));
                }
            }
        }
    }
}

/// What the candidates have counted stays true.
pub proof fn lemma_acted_tallies<P>(c: Cluster<P>, id: RaftId, event: Event<P>, at: int, src: RaftId)
    requires
        c.sound(),
        c.brings(id, event, at, src),
    ensures
        c.acted(id, event, c.spared(at), src).tallies_true(),
{
    let old = c.members[id];
    assert(c.ids().contains(id));
    assert(!old.replica.peers.contains(id));
    lemma_event_identity(old.replica, old.store, event);
    lemma_event_ballots(old.replica, old.store, event);
    lemma_votes_stay(c, id, event, at, src);
    let n = c.acted(id, event, c.spared(at), src);
    let step = old.replica.on_event(old.store, event);
    let new = step.replica;
    assert forall|a: RaftId| #[trigger] n.ids().contains(a) implies {
        let replica = n.members[a].replica;
        let tally = n.record.tally[a];
        &&& tally.finite()
        &&& replica.role is Candidate ==> replica.role->count == tally.len()
        &&& forall|v: RaftId| #[trigger]
            tally.contains(v) ==> n.ids().contains(v) && n.record.votes.contains_key((v, replica.term))
                && n.record.votes[(v, replica.term)] == a
    } by {
        assert(c.ids().contains(a));
        let was = c.record.tally[a];
        let tally = n.record.tally[a];
        if a == id {
            if new.role is Candidate && old.replica.role is Candidate && new.term == old.replica.term
                && new.role->count != old.replica.role->count && new.role->count == old.replica.role->count
                + 1 {
                assert(at < c.net.len());
                assert(c.net[at].grants() == Some(new.term));
                assert(!was.contains(src));
                assert(tally == was.insert(src));
                assert(c.record.votes.contains_key((src, new.term)));
            }
            assert forall|v: RaftId| #[trigger] tally.contains(v) implies n.ids().contains(v)
                && n.record.votes.contains_key((v, new.term)) && n.record.votes[(v, new.term)] == a by {
                if was.contains(v) && new.term == old.replica.term {
                    assert(c.record.votes.contains_key((v, new.term)));
                }
            }
        } else {
            assert(tally == was);
            assert forall|v: RaftId| #[trigger] tally.contains(v) implies n.ids().contains(v)
                && n.record.votes.contains_key((v, n.members[a].replica.term)) && n.record.votes[(
                v,
                n.members[a].replica.term,
            )] == a by {
                assert(c.record.votes.contains_key((v, c.members[a].replica.term)));
            }
        }
    }
}

/// Whoever is crowned has the votes of more than half the members, and
/// whoever leads is crowned.
pub proof fn lemma_acted_crowned<P>(c: Cluster<P>, id: RaftId, event: Event<P>, at: int, src: RaftId)
    requires
        c.sound(),
        c.brings(id, event, at, src),
    ensures
        c.acted(id, event, c.spared(at), src).crowned_by_majority(),
        c.acted(id, event, c.spared(at), src).leaders_crowned(),
{
    let old = c.members[id];
    assert(c.ids().contains(id));
    assert(!old.replica.peers.contains(id));
    lemma_event_identity(old.replica, old.store, event);
    lemma_event_ballots(old.replica, old.store, event);
    lemma_votes_stay(c, id, event, at, src);
    let n = c.acted(id, event, c.spared(at), src);
    let step = old.replica.on_event(old.store, event);
    let new = step.replica;
    let ids = c.ids();
    assert forall|term: Term, a: RaftId| #[trigger] n.record.crowned.contains((term, a)) implies 2
        * n.record.supporters(n.ids(), a, term).len() > n.ids().len() by {
        let before = c.record.supporters(ids, a, term);
        let now = n.record.supporters(ids, a, term);
        assert(before.subset_of(now)) by {
            assert forall|v: RaftId| before.contains(v) implies now.contains(v) by {
                assert(c.record.votes.contains_key((v, term)));
            }
        }
        assert(now.subset_of(ids));
        vstd::set_lib::lemma_set_subset_finite(ids, now);
        lemma_len_subset(before, now);
        if !c.record.crowned.contains((term, a)) {
            assert(a == id && term == new.term && new.role is Leader);
            if old.replica.role is Leader {
                assert(c.record.crowned.contains((old.replica.term, id)));
            } else {
                let counted = c.record.tally[id];
                let with = counted.insert(src);
                assert(at < c.net.len());
                assert(c.net[at].grants() == Some(term));
                assert(!counted.contains(src));
                assert(c.record.votes.contains_key((src, term)));
                assert(with.subset_of(before)) by {
                    assert forall|v: RaftId| with.contains(v) implies before.contains(v) by {
                        if counted.contains(v) {
                            assert(c.record.votes.contains_key((v, term)));
                        }
                    }
                }
                assert(before.subset_of(ids));
                vstd::set_lib::lemma_set_subset_finite(ids, before);
                lemma_len_subset(with, before);
            }
        }
    }
    assert forall|a: RaftId| n.ids().contains(a) && n.members[a].replica.role is Leader implies n.record.crowned.contains(
        (n.members[a].replica.term, a),
    ) by {
        assert(c.ids().contains(a));
    }
}

/// A sound cluster stays sound when an event comes to a member.
pub proof fn lemma_acted_sound<P>(c: Cluster<P>, id: RaftId, event: Event<P>, at: int, src: RaftId)
    requires
        c.sound(),
        c.brings(id, event, at, src),
    ensures
        c.acted(id, event, c.spared(at), src).sound(),
{
    lemma_acted_votes(c, id, event, at, src);
    lemma_acted_acks(c, id, event, at, src);
    lemma_acted_asks(c, id, event, at, src);
    lemma_acted_tallies(c, id, event, at, src);
    lemma_acted_crowned(c, id, event, at, src);
}

/// A sound cluster stays sound when a message is lost.
pub proof fn lemma_lost_sound<P>(c: Cluster<P>, at: int)
    requires
        c.sound(),
        0 <= at < c.net.len(),
    ensures
        (Cluster { net: c.net.remove(at), ..c }).sound(),
{
    let n = Cluster { net: c.net.remove(at), ..c };
    assert forall|i: int| 0 <= i < n.net.len() implies #[trigger] n.net[i] == c.net[up(at, i)] by {}
    assert forall|i: int, j: int| 0 <= i < j < n.net.len() && (#[trigger] n.net[i]).grants() is Some implies n.net[i]
        != #[trigger] n.net[j] by {
        assert(c.net[up(at, i)] != c.net[up(at, j)]);
    }
    assert forall|i: int, j: int|
        0 <= i < j < n.net.len() && (#[trigger] n.net[i]).asks() is Some && n.net[i].asks() == (
        #[trigger] n.net[j]).asks() implies n.net[i].dst != n.net[j].dst by {
        assert(c.net[up(at, i)].asks() == c.net[up(at, j)].asks());
    }
    assert(n.asks_open()) by {
        assert forall|i: int, j: int| 0 <= i < n.net.len() && 0 <= j < n.net.len() implies ((#[trigger] n.net[i]).asks() matches Some(
            candidacy,
        ) ==> (#[trigger] n.net[j]).grants() == Some(candidacy.0) ==> !(n.net[j].src == n.net[i].dst
            && n.net[j].dst == n.net[i].src)) by {
            assert(n.net[i] == c.net[up(at, i)]);
            assert(n.net[j] == c.net[up(at, j)]);
        }
    }
}

/// A sound cluster stays sound, whatever happens; its members stay the
/// same, and whoever was crowned stays crowned.
pub proof fn lemma_move_sound<P>(c: Cluster<P>, step: Move<P>)
    requires
        c.sound(),
        c.allows(step),
    ensures
        c.after(step).sound(),
        c.after(step).ids() == c.ids(),
        c.record.crowned.subset_of(c.after(step).record.crowned),
{
    match step {
        Move::Deliver { at, draw } => {
            let p = c.net[at];
            let event = Event::Message { msg: p.msg, draw };
            lemma_acted_sound(c, p.dst, event, at, p.src);
            lemma_votes_stay(c, p.dst, event, at, p.src);
        },
        Move::Lose { at } => {
            lemma_lost_sound(c, at);
        },
        Move::Tick { id, draw } => {
            let event = Event::<P>::Tick { draw };
            lemma_acted_sound(c, id, event, c.net.len() as int, id);
            lemma_votes_stay(c, id, event, c.net.len() as int, id);
        },
        Move::Propose { id, proposal, pid } => {
            let event = Event::Propose { proposal, id: pid };
            lemma_acted_sound(c, id, event, c.net.len() as int, id);
            lemma_votes_stay(c, id, event, c.net.len() as int, id);
        },
        Move::Restart { id, draw } => {
            let event = Event::<P>::Restart { draw };
            lemma_acted_sound(c, id, event, c.net.len() as int, id);
            lemma_votes_stay(c, id, event, c.net.len() as int, id);
        },
    }
}

impl<P> Cluster<P> {
    /// Whether the cluster is at its beginning: nothing is under way or on
    /// record, and every member goes by its own identifier, has every other
    /// member as a peer once, and no one else, has not voted in its term,
    /// and is a candidate without votes.
    pub open spec fn opens(self) -> bool {
        &&& self.ids().finite()
        &&& self.net.len() == 0
        &&& self.record == Record::blank(self.ids())
        &&& forall|id: RaftId| #[trigger]
            self.ids().contains(id) ==> {
                let member = self.members[id];
                &&& member.replica.id == id
                &&& member.replica.recorded(member.store)
                &&& member.replica.vote is None
                &&& member.replica.role == (RoleView::Candidate { count: 0 })
                &&& member.replica.peers.no_duplicates()
                &&& member.replica.peers.len() <= usize::MAX
                &&& forall|peer: RaftId| #[trigger]
                    member.replica.peers.contains(peer) <==> self.ids().contains(peer) && peer != id
            }
    }
}

/// A cluster at its beginning is sound.
pub proof fn lemma_opens_sound<P>(c: Cluster<P>)
    requires
        c.opens(),
    ensures
        c.sound(),
{
    assert(c.record.tally.dom() =~= c.ids());
    assert forall|id: RaftId| #[trigger] c.ids().contains(id) implies c.members[id].replica.peers.len() + 1
        == c.ids().len() by {
        let peers = c.members[id].replica.peers;
        peers.unique_seq_to_set();
        assert(peers.to_set() =~= c.ids().remove(id));
    }
}

/// The cluster after the first `k` of `moves`.
pub open spec fn state_at<P>(start: Cluster<P>, moves: Seq<Move<P>>, k: int) -> Cluster<P>
    decreases k,
{
    if k <= 0 {
        start
    } else {
        state_at(start, moves, k - 1).after(moves[k - 1])
    }
}

/// Whether every one of `moves` may come when its turn is.
pub open spec fn behaves<P>(start: Cluster<P>, moves: Seq<Move<P>>) -> bool {
    forall|k: int| 0 <= k < moves.len() ==> state_at(start, moves, k).allows(#[trigger] moves[k])
}

/// A sound cluster is sound after every move, and whoever was crowned at
/// one time is crowned at every later time.
pub proof fn lemma_always_sound<P>(start: Cluster<P>, moves: Seq<Move<P>>, i: int, j: int)
    requires
        start.sound(),
        behaves(start, moves),
        0 <= i <= j <= moves.len(),
    ensures
        state_at(start, moves, j).sound(),
        state_at(start, moves, j).ids() == start.ids(),
        state_at(start, moves, i).record.crowned.subset_of(state_at(start, moves, j).record.crowned),
    decreases j,
{
    if j > 0 {
        lemma_always_sound(start, moves, if i < j { i } else { j - 1 }, j - 1);
        assert(state_at(start, moves, j - 1).allows(moves[j - 1]));
        lemma_move_sound(state_at(start, moves, j - 1), moves[j - 1]);
    }
}

/// In a sound cluster one replica at most is crowned for a term.
pub proof fn lemma_crowned_once<P>(c: Cluster<P>, a: RaftId, b: RaftId, term: Term)
    requires
        c.seated(),
        c.crowned_by_majority(),
        c.record.crowned.contains((term, a)),
        c.record.crowned.contains((term, b)),
    ensures
        a == b,
{
    let ids = c.ids();
    let for_a = c.record.supporters(ids, a, term);
    let for_b = c.record.supporters(ids, b, term);
    assert(for_a.subset_of(ids));
    assert(for_b.subset_of(ids));
    vstd::set_lib::lemma_set_subset_finite(ids, for_a);
    vstd::set_lib::lemma_set_subset_finite(ids, for_b);
    lemma_set_intersect_union_lens(for_a, for_b);
    assert((for_a + for_b).subset_of(ids));
    lemma_len_subset(for_a + for_b, ids);
    let both = for_a.intersect(for_b);
    assert(both.len() > 0);
    let v = both.choose();
    assert(both.contains(v)) by {
        if both.is_empty() {
            assert(both =~= Set::empty());
        }
    }
    assert(for_a.contains(v) && for_b.contains(v));
}

/// Single leader per term. Let a cluster start at its beginning and run on
/// a network that hands each message over at most once. Replicas that lead
/// in the same term, at whatever times, are the same replica.
pub proof fn lemma_single_leader_per_term<P>(
    start: Cluster<P>,
    moves: Seq<Move<P>>,
    i: int,
    j: int,
    a: RaftId,
    b: RaftId,
    term: Term,
)
    requires
        start.opens(),
        behaves(start, moves),
        0 <= i <= moves.len(),
        0 <= j <= moves.len(),
        state_at(start, moves, i).led_by(a, term),
        state_at(start, moves, j).led_by(b, term),
    ensures
        a == b,
{
    lemma_opens_sound(start);
    let k = if i <= j { j } else { i };
    lemma_always_sound(start, moves, i, i);
    lemma_always_sound(start, moves, j, j);
    lemma_always_sound(start, moves, i, k);
    lemma_always_sound(start, moves, j, k);
    let end = state_at(start, moves, k);
    assert(state_at(start, moves, i).record.crowned.contains((term, a)));
    assert(state_at(start, moves, j).record.crowned.contains((term, b)));
    assert(end.record.crowned.contains((term, a)));
    assert(end.record.crowned.contains((term, b)));
    lemma_crowned_once(end, a, b, term);
}

/// Every member keeps over one move what it has committed.
pub proof fn lemma_move_keeps_committed<P>(c: Cluster<P>, step: Move<P>, id: RaftId)
    requires
        c.allows(step),
        c.ids().contains(id),
    ensures
        c.after(step).ids() == c.ids(),
        c.members[id].store.kept_by(c.after(step).members[id].store),
{
    let member = c.members[id];
    match step {
        Move::Deliver { at, draw } => {
            if c.net[at].dst == id {
                lemma_committed_stays(member.replica, member.store, Event::Message { msg: c.net[at].msg, draw });
            }
        },
        Move::Lose { at } => {},
        Move::Tick { id: at, draw } => {
            if at == id {
                lemma_committed_stays(member.replica, member.store, Event::<P>::Tick { draw });
            }
        },
        Move::Propose { id: at, proposal, pid } => {
            if at == id {
                lemma_committed_stays(member.replica, member.store, Event::Propose { proposal, id: pid });
            }
        },
        Move::Restart { id: at, draw } => {
            if at == id {
                lemma_committed_stays(member.replica, member.store, Event::<P>::Restart { draw });
            }
        },
    }
    assert(c.after(step).ids() =~= c.ids());
}

/// Commit durability at every member of a cluster. Whatever the cluster
/// does, with messages lost, delayed or out of order and members starting
/// again from their stores: every entry that a member's commit watermark
/// shields at one time stands in that member's log at the same index at
/// every later time, and the watermark never falls.
pub proof fn lemma_commit_durability<P>(start: Cluster<P>, moves: Seq<Move<P>>, i: int, j: int, id: RaftId)
    requires
        behaves(start, moves),
        0 <= i <= j <= moves.len(),
        start.ids().contains(id),
    ensures
        state_at(start, moves, j).ids() == start.ids(),
        state_at(start, moves, i).members[id].store.kept_by(state_at(start, moves, j).members[id].store),
    decreases j,
{
    let early = state_at(start, moves, i).members[id].store;
    if j > 0 {
        lemma_commit_durability(start, moves, if i < j { i } else { j - 1 }, j - 1, id);
        let before = state_at(start, moves, j - 1);
        assert(before.allows(moves[j - 1]));
        lemma_move_keeps_committed(before, moves[j - 1], id);
        if i < j {
            lemma_kept_on(early, before.members[id].store, state_at(start, moves, j).members[id].store);
        }
    }
}

} // verus!
