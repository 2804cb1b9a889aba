//! What holds of one replica over any sequence of events, however the
//! network and the clock behave.

use vstd::prelude::*;
use crate::nums::{ProposalId, RaftId, Term};
use crate::log::{last_of, lemma_overlay_idempotent, lemma_overlay_keeps_committed, shielded, Entry};
use crate::store::{lemma_kept_on, StoreView};
use crate::message::PaperMsgView;
use crate::rules::{ReplicaView, RoleView, Step};

verus! {

/// What can happen to a replica.
pub enum Event<P> {
    /// A message arrives; `draw` is the random number at hand.
    Message { msg: PaperMsgView<P>, draw: u64 },
    /// One unit of logical time passes.
    Tick { draw: u64 },
    /// A client proposes at this replica.
    Propose { proposal: P, id: ProposalId },
    /// The replica stops and starts again from its store.
    Restart { draw: u64 },
}

impl ReplicaView {
    /// Whether the replica's identity is the one its store records.
    pub open spec fn recorded<P>(self, store: StoreView<P>) -> bool {
        self.term == store.term && self.vote == store.vote
    }

    /// Whether `event` may come now.
    pub open spec fn allows<P>(self, event: Event<P>) -> bool {
        match event {
            Event::Tick { .. } => self.can_tick(),
            _ => self.bound_elect > 0,
        }
    }

    /// The replica, its store and the messages sent after `event`.
    pub open spec fn on_event<P>(self, store: StoreView<P>, event: Event<P>) -> Step<P> {
        match event {
            Event::Message { msg, draw } => self.on_message(store, msg, draw),
            Event::Tick { draw } => self.on_tick(store, draw),
            Event::Propose { proposal, id } => self.on_propose(store, proposal, id),
            Event::Restart { draw } => Step::quiet(
                ReplicaView::start(
                    self.id,
                    self.batch,
                    self.peers,
                    self.bound_elect,
                    self.bound_heart,
                    store,
                    draw,
                ),
                store,
            ),
        }
    }
}

/// Where a replica and its store stand after `events`, one after the other,
/// and all that was sent on the way.
pub open spec fn run<P>(replica: ReplicaView, store: StoreView<P>, events: Seq<Event<P>>) -> Step<P>
    decreases events.len(),
{
    if events.len() == 0 {
        Step::quiet(replica, store)
    } else {
        let before = run(replica, store, events.drop_last());
        before.followed_by(before.replica.on_event(before.store, events.last()))
    }
}

/// Whether every one of `events` may come when its turn is.
pub open spec fn runs<P>(replica: ReplicaView, store: StoreView<P>, events: Seq<Event<P>>) -> bool {
    forall|i: int|
        0 <= i < events.len() ==> run(replica, store, events.take(i)).replica.allows(#[trigger] events[i])
}

/// Whether the message at `at` of `out` grants a vote of `term` to `to`.
pub open spec fn grants_at<P>(out: Seq<(RaftId, PaperMsgView<P>)>, at: int, term: Term, to: RaftId) -> bool {
    0 <= at < out.len() && out[at] == (to, PaperMsgView::<P>::VoteAck { term })
}

/// One event: the term does not fall, the store keeps recording the
/// replica's identity, a vote cast stays cast while the term lasts, and a
/// vote is granted only in the replica's term and to the one it voted for.
pub proof fn lemma_event_identity<P>(replica: ReplicaView, store: StoreView<P>, event: Event<P>)
    requires
        replica.recorded(store),
        replica.allows(event),
    ensures
        ({
            let next = replica.on_event(store, event);
            &&& next.replica.term.0 >= replica.term.0
            &&& next.replica.recorded(next.store)
            &&& next.replica.term == replica.term && replica.vote is Some ==> next.replica.vote
                == replica.vote
            &&& forall|at: int, term: Term, to: RaftId| #[trigger]
                grants_at(next.out, at, term, to) ==> next.replica.term == term && next.replica.vote
                    == Some(to)
        }),
{
    let next = replica.on_event(store, event);
    assert forall|at: int, term: Term, to: RaftId| #[trigger]
        grants_at(next.out, at, term, to) implies next.replica.term == term && next.replica.vote
        == Some(to) by {
        let sent = next.out[at];
        match event {
            Event::Message { msg, draw } => {
                match msg {
                    PaperMsgView::VoteReq { candidate, last } => {},
                    _ => {},
                }
            },
            _ => {},
        }
    }
}

/// What holds after every run: the term has not fallen, the store records
/// the replica's identity, and every vote granted on the way was granted in
/// a term no later than the present one and, if in the present one, to the
/// replica now voted for.
pub proof fn lemma_run_identity<P>(replica: ReplicaView, store: StoreView<P>, events: Seq<Event<P>>)
    requires
        replica.recorded(store),
        runs(replica, store, events),
    ensures
        ({
            let end = run(replica, store, events);
            &&& end.replica.term.0 >= replica.term.0
            &&& end.replica.recorded(end.store)
            &&& forall|at: int, term: Term, to: RaftId| #[trigger]
                grants_at(end.out, at, term, to) ==> end.replica.term.0 >= term.0 && (end.replica.term
                    == term ==> end.replica.vote == Some(to))
            &&& forall|a: int, b: int, term: Term, one: RaftId, other: RaftId|
                grants_at(end.out, a, term, one) && grants_at(end.out, b, term, other) ==> one == other
        }),
    decreases events.len(),
{
    if events.len() > 0 {
        let earlier = events.drop_last();
        assert forall|i: int| 0 <= i < earlier.len() implies run(
            replica,
            store,
            earlier.take(i),
        ).replica.allows(#[trigger] earlier[i]) by {
            assert(earlier.take(i) == events.take(i));
            assert(earlier[i] == events[i]);
        }
        lemma_run_identity(replica, store, earlier);
        let before = run(replica, store, earlier);
        assert(events.take(events.len() - 1) == earlier);
        assert(before.replica.allows(events[events.len() - 1]));
        lemma_event_identity(before.replica, before.store, events.last());
        let step = before.replica.on_event(before.store, events.last());
        let end = run(replica, store, events);
        assert(end.out == before.out + step.out);
        assert forall|at: int, term: Term, to: RaftId| #[trigger]
            grants_at(end.out, at, term, to) implies end.replica.term.0 >= term.0 && (end.replica.term
            == term ==> end.replica.vote == Some(to)) by {
            if at < before.out.len() {
                assert(grants_at(before.out, at, term, to));
            } else {
                assert(grants_at(step.out, at - before.out.len(), term, to));
            }
        }
        assert forall|a: int, b: int, term: Term, one: RaftId, other: RaftId|
            grants_at(end.out, a, term, one) && grants_at(end.out, b, term, other) implies one
            == other by {
            if a < before.out.len() {
                assert(grants_at(before.out, a, term, one));
            } else {
                assert(grants_at(step.out, a - before.out.len(), term, one));
            }
            if b < before.out.len() {
                assert(grants_at(before.out, b, term, other));
            } else {
                assert(grants_at(step.out, b - before.out.len(), term, other));
            }
        }
    }
}

/// Term monotonicity: over any run, the term a replica is in never falls.
pub proof fn lemma_term_never_falls<P>(
    replica: ReplicaView,
    store: StoreView<P>,
    events: Seq<Event<P>>,
    i: int,
    j: int,
)
    requires
        replica.recorded(store),
        runs(replica, store, events),
        0 <= i <= j <= events.len(),
    ensures
        run(replica, store, events.take(i)).replica.term.0 <= run(
            replica,
            store,
            events.take(j),
        ).replica.term.0,
    decreases j - i,
{
    if i < j {
        let upto = events.take(j);
        let earlier = events.take(j - 1);
        assert(upto.drop_last() == earlier);
        assert(upto.last() == events[j - 1]);
        lemma_term_never_falls(replica, store, events, i, j - 1);
        assert forall|k: int| 0 <= k < earlier.len() implies run(
            replica,
            store,
            earlier.take(k),
        ).replica.allows(#[trigger] earlier[k]) by {
            assert(earlier.take(k) == events.take(k));
            assert(earlier[k] == events[k]);
        }
        lemma_run_identity(replica, store, earlier);
        let before = run(replica, store, earlier);
        assert(before.replica.allows(events[j - 1]));
        lemma_event_identity(before.replica, before.store, events[j - 1]);
    }
}

/// Vote uniqueness: over any run, all the votes a replica grants for one
/// term go to one replica.
pub proof fn lemma_one_vote_per_term<P>(
    replica: ReplicaView,
    store: StoreView<P>,
    events: Seq<Event<P>>,
    a: int,
    b: int,
    term: Term,
    one: RaftId,
    other: RaftId,
)
    requires
        replica.recorded(store),
        runs(replica, store, events),
        grants_at(run(replica, store, events).out, a, term, one),
        grants_at(run(replica, store, events).out, b, term, other),
    ensures
        one == other,
{
    lemma_run_identity(replica, store, events);
}

/// Replaying a replication request that was just handled gives the same
/// answer, an acknowledgement with the same `sync` and `tail` where the
/// first was one, and leaves the store as it is.
pub proof fn lemma_replay_same_answer<P>(
    replica: ReplicaView,
    store: StoreView<P>,
    leader: (Term, RaftId),
    prefix: (Option<Term>, usize),
    patch: Seq<Entry<P>>,
    commit: usize,
    draw: u64,
    again: u64,
)
    ensures
        ({
            let first = replica.on_replicate(store, leader, prefix, patch, commit, draw);
            let second = first.replica.on_replicate(first.store, leader, prefix, patch, commit, again);
            second.out == first.out && second.store == first.store
        }),
{
    let first = replica.on_replicate(store, leader, prefix, patch, commit, draw);
    lemma_overlay_idempotent(store.log, store.commit as int, first.store.commit as int, prefix.1 as int, patch);
}

/// A leader only appends: while a replica stays leader, an event leaves its
/// log as it was or longer by entries at the tail.
pub proof fn lemma_leader_appends_only<P>(replica: ReplicaView, store: StoreView<P>, event: Event<P>)
    requires
        replica.role is Leader,
        replica.on_event(store, event).replica.role is Leader,
    ensures
        store.log.is_prefix_of(replica.on_event(store, event).store.log),
{
}

/// Commit durability at one replica, event by event. The store after an
/// event keeps what the store before it has committed: the commit watermark
/// never falls, and the entries that it shields stay in the log at their
/// indices. The replica's commit index stays at or below the watermark.
pub proof fn lemma_committed_stays<P>(replica: ReplicaView, store: StoreView<P>, event: Event<P>)
    ensures
        store.kept_by(replica.on_event(store, event).store),
        replica.commitable <= store.commit ==> replica.on_event(store, event).replica.commitable
            <= replica.on_event(store, event).store.commit,
{
    let next = replica.on_event(store, event);
    let held = shielded(store.log, store.commit as int);
    match event {
        Event::Message { msg: PaperMsgView::ReplicateReq { prefix, patch, .. }, .. } => {
            lemma_overlay_keeps_committed(store.log, store.commit as int, prefix.1 as int, patch);
        },
        _ => {},
    }
    assert(next.store.log.take(held) =~= store.log.take(held));
}

/// Commit durability at one replica, over any run: every entry that the
/// commit watermark shields at one time stands in the log at the same index
/// at every later time.
pub proof fn lemma_committed_never_lost<P>(
    replica: ReplicaView,
    store: StoreView<P>,
    events: Seq<Event<P>>,
    i: int,
    j: int,
)
    requires
        0 <= i <= j <= events.len(),
    ensures
        run(replica, store, events.take(i)).store.kept_by(run(replica, store, events.take(j)).store),
    decreases j - i,
{
    let early = run(replica, store, events.take(i)).store;
    if i < j {
        let upto = events.take(j);
        let earlier = events.take(j - 1);
        assert(upto.drop_last() == earlier);
        assert(upto.last() == events[j - 1]);
        lemma_committed_never_lost(replica, store, events, i, j - 1);
        let before = run(replica, store, earlier);
        lemma_committed_stays(before.replica, before.store, events[j - 1]);
        lemma_kept_on(early, before.store, run(replica, store, upto).store);
    }
}

/// A replica becomes leader in one way only: as a candidate, by a vote of
/// its own term with which its count exceeds half the cluster.
pub proof fn lemma_leader_by_majority<P>(replica: ReplicaView, store: StoreView<P>, event: Event<P>)
    requires
        !(replica.role is Leader),
        replica.on_event(store, event).replica.role is Leader,
    ensures
        event matches Event::Message { msg: PaperMsgView::VoteAck { term }, .. } && term == replica.term,
        replica.role is Candidate,
        2 * (replica.role->count + 1) > replica.cluster_size(),
        replica.on_event(store, event).replica.term == replica.term,
{
}

/// Logical time passing with nothing else: one tick for each of `draws`.
pub open spec fn silence<P>(draws: Seq<u64>) -> Seq<Event<P>> {
    Seq::new(draws.len(), |k: int| Event::Tick { draw: draws[k] })
}

/// A replica that hears nothing only counts the ticks: one that does not
/// lead while its election timer is short of its bound, a leader while its
/// heartbeat timer is short of its bound.
pub proof fn lemma_silence_waits<P>(replica: ReplicaView, store: StoreView<P>, draws: Seq<u64>, k: int)
    requires
        runs(replica, store, silence::<P>(draws)),
        0 <= k <= draws.len(),
        if replica.role is Leader {
            replica.timeout_heart + k < replica.bound_heart
        } else {
            replica.timeout_elect + k < replica.bound_elect
        },
    ensures
        run(replica, store, silence::<P>(draws).take(k)) == Step::quiet(
            ReplicaView {
                timeout_elect: (replica.timeout_elect + k) as u64,
                timeout_heart: (replica.timeout_heart + k) as u64,
                ..replica
            },
            store,
        ),
        replica.timeout_elect + k <= u64::MAX,
        replica.timeout_heart + k <= u64::MAX,
    decreases k,
{
    let events = silence::<P>(draws);
    if k > 0 {
        lemma_silence_waits(replica, store, draws, k - 1);
        let before = run(replica, store, events.take(k - 1));
        assert(events.take(k).drop_last() == events.take(k - 1));
        assert(events.take(k).last() == events[k - 1]);
        assert(before.replica.allows(events[k - 1]));
        assert(before.out + Seq::<(RaftId, PaperMsgView<P>)>::empty() =~= before.out);
    } else {
        assert(events.take(0).len() == 0);
    }
}

/// An election starts within the election bound. Let a replica that does
/// not lead hear nothing while logical time passes. Once as many ticks have
/// passed as its election timer was short of its bound, the replica has
/// opened the next term as a candidate with its own vote, has recorded both
/// in its store, and has asked every peer for its vote, and nothing else.
pub proof fn lemma_silence_opens_term<P>(replica: ReplicaView, store: StoreView<P>, draws: Seq<u64>)
    requires
        !(replica.role is Leader),
        replica.timeout_elect < replica.bound_elect,
        draws.len() == replica.bound_elect - replica.timeout_elect,
        runs(replica, store, silence::<P>(draws)),
    ensures
        ({
            let end = run(replica, store, silence::<P>(draws));
            let ask = PaperMsgView::<P>::VoteReq { candidate: (end.replica.term, replica.id), last: last_of(store.log) };
            &&& end.replica.term.0 == replica.term.0 + 1
            &&& end.replica.role == RoleView::Candidate { count: 1 }
            &&& end.replica.vote == Some(replica.id)
            &&& end.store == store.persisted(end.replica)
            &&& end.out == Seq::new(replica.peers.len(), |i: int| (replica.peers[i], ask))
        }),
{
    let events = silence::<P>(draws);
    let n = draws.len() as int;
    lemma_silence_waits(replica, store, draws, n - 1);
    let before = run(replica, store, events.take(n - 1));
    assert(events.take(n) == events);
    assert(events.drop_last() == events.take(n - 1));
    assert(before.replica.allows(events[n - 1]));
    let end = run(replica, store, events);
    let ask = PaperMsgView::<P>::VoteReq { candidate: (end.replica.term, replica.id), last: last_of(store.log) };
    assert(end.out =~= Seq::new(replica.peers.len(), |i: int| (replica.peers[i], ask)));
}

/// A leader is heard within the heartbeat bound. Let a leader hear nothing
/// while logical time passes. Once as many ticks have passed as its
/// heartbeat timer was short of its bound, the leader, still leading its
/// term with its books as they were, has probed every peer, and nothing
/// else, and has rewound the heartbeat timer.
pub proof fn lemma_leader_beats_in_time<P>(replica: ReplicaView, store: StoreView<P>, draws: Seq<u64>)
    requires
        replica.role is Leader,
        replica.timeout_heart < replica.bound_heart,
        draws.len() == replica.bound_heart - replica.timeout_heart,
        runs(replica, store, silence::<P>(draws)),
    ensures
        ({
            let end = run(replica, store, silence::<P>(draws));
            &&& end.replica == ReplicaView {
                timeout_elect: (replica.timeout_elect + draws.len()) as u64,
                timeout_heart: 0,
                ..replica
            }
            &&& end.store == store
            &&& end.out == Seq::new(
                replica.peers.len(),
                |i: int| (replica.peers[i], replica.probe(store, replica.peers[i])),
            )
        }),
{
    let events = silence::<P>(draws);
    let n = draws.len() as int;
    lemma_silence_waits(replica, store, draws, n - 1);
    let before = run(replica, store, events.take(n - 1));
    assert(events.take(n) == events);
    assert(events.drop_last() == events.take(n - 1));
    assert(before.replica.allows(events[n - 1]));
    let end = run(replica, store, events);
    assert(end.out =~= Seq::new(
        replica.peers.len(),
        |i: int| (replica.peers[i], replica.probe(store, replica.peers[i])),
    ));
}

} // verus!
