//! Log matching in a cluster: every entry of every log stands where the
//! leader of its term put it, after the same entries.

use vstd::prelude::*;
use crate::nums::{RaftId, Term};
use crate::log::{
    Entry, agreement, barred, cut_from, fits, lemma_agreement, lemma_overlay_shape, logs_match, overlay, overlay_end,
    term_at,
};
use crate::store::StoreView;
use crate::message::PaperMsgView;
use crate::rules::ReplicaView;
use crate::laws::{Event, lemma_event_identity};
use crate::cluster::{
    behaves, lemma_acted_net, lemma_acted_sound, lemma_always_sound, lemma_crowned_once, lemma_event_ballots,
    lemma_opens_sound, lemma_votes_stay, state_at, up, Cluster, Move,
};

verus! {

/// Whether the entry at `i` of `log` stands where the leader of its term
/// put it: that leader's log holds the same entries up to `i`.
pub open spec fn rooted<P>(canon: Map<Term, (RaftId, Seq<Entry<P>>)>, log: Seq<Entry<P>>, i: int) -> bool {
    let term = log[i].2;
    &&& canon.contains_key(term)
    &&& i < canon[term].1.len()
    &&& log.take(i + 1) =~= canon[term].1.take(i + 1)
}

/// Whether every entry of `log` stands where the leader of its term put it.
pub open spec fn canonical<P>(canon: Map<Term, (RaftId, Seq<Entry<P>>)>, log: Seq<Entry<P>>) -> bool {
    forall|i: int| 0 <= i < log.len() ==> #[trigger] rooted(canon, log, i)
}

impl<P> Cluster<P> {
    /// The leaders on record are the replicas crowned.
    pub open spec fn canon_crowned(self) -> bool {
        &&& forall|term: Term| #[trigger]
            self.canon.contains_key(term) ==> self.record.crowned.contains((term, self.canon[term].0))
        &&& forall|term: Term, a: RaftId| #[trigger]
            self.record.crowned.contains((term, a)) ==> self.canon.contains_key(term) && self.canon[term].0
                == a
    }

    /// Whoever was crowned is a member that has reached the term.
    pub open spec fn crowned_reached(self) -> bool {
        forall|term: Term, a: RaftId| #[trigger]
            self.record.crowned.contains((term, a)) ==> self.ids().contains(a) && term.0
                <= self.members[a].replica.term.0
    }

    /// A replica crowned for the term it is in holds the log on record for
    /// that term.
    pub open spec fn leaders_hold_canon(self) -> bool {
        forall|a: RaftId| #[trigger]
            self.ids().contains(a) ==> (self.record.crowned.contains((self.members[a].replica.term, a))
                ==> self.members[a].store.log == self.canon[self.members[a].replica.term].1)
    }

    /// Every entry of every member's log stands where the leader of its
    /// term put it.
    pub open spec fn logs_canonical(self) -> bool {
        forall|a: RaftId| #[trigger] self.ids().contains(a) ==> canonical(self.canon, self.members[a].store.log)
    }

    /// Every entry of every leader's log on record stands where the leader
    /// of its term put it.
    pub open spec fn canon_canonical(self) -> bool {
        forall|term: Term| #[trigger] self.canon.contains_key(term) ==> canonical(self.canon, self.canon[term].1)
    }

    /// Every replication request under way comes from a replica crowned for
    /// its term, goes to another, and was cut from the log on record for
    /// that term.
    pub open spec fn requests_cut(self) -> bool {
        forall|i: int|
            0 <= i < self.net.len() ==> ((#[trigger] self.net[i]).msg matches PaperMsgView::ReplicateReq {
                leader,
                prefix,
                patch,
                ..
            } ==> {
                &&& self.record.crowned.contains(leader)
                &&& self.net[i].src == leader.1
                &&& self.net[i].dst != leader.1
                &&& cut_from(self.canon[leader.0].1, prefix.0, prefix.1 as int, patch)
            })
    }

    /// What holds of the logs of a cluster at all times.
    pub open spec fn matched(self) -> bool {
        &&& self.canon_crowned()
        &&& self.crowned_reached()
        &&& self.leaders_hold_canon()
        &&& self.logs_canonical()
        &&& self.canon_canonical()
        &&& self.requests_cut()
    }

    /// Whether nothing has been written yet: every log is empty, and no
    /// leader is on record.
    pub open spec fn unwritten(self) -> bool {
        &&& self.canon == Map::<Term, (RaftId, Seq<Entry<P>>)>::empty()
        &&& forall|a: RaftId| #[trigger] self.ids().contains(a) ==> self.members[a].store.log.len() == 0
    }
}

/// What one event does to the log of a replica. The log stays as it is; or
/// a leader that stays leader in its term appends one entry of its term; or
/// a replication request of the replica's term or a later one, whose prefix
/// the log does not contradict, is merged, and the replica follows into the
/// request's term. And every replication request that leaves comes from a
/// leader, names it and its term, goes to a peer, and is cut from its log.
pub proof fn lemma_event_log<P>(replica: ReplicaView, store: StoreView<P>, event: Event<P>)
    requires
        replica.allows(event),
    ensures
        ({
            let next = replica.on_event(store, event);
            let new = next.replica;
            &&& {
                ||| next.store.log == store.log
                ||| {
                    &&& replica.role is Leader && new.role is Leader && new.term == replica.term
                    &&& next.store.log.len() == store.log.len() + 1
                    &&& next.store.log.drop_last() == store.log
                    &&& next.store.log.last().2 == replica.term
                }
                ||| {
                    &&& event matches Event::Message {
                        msg: PaperMsgView::ReplicateReq { leader, prefix, patch, .. },
                        ..
                    }
                    &&& leader.0.0 >= replica.term.0
                    &&& fits(store.log, prefix)
                    &&& next.store.log == overlay(store.log, store.commit as int, prefix.1 as int, patch)
                    &&& new.term == leader.0
                    &&& !(new.role is Leader)
                }
            }
            &&& forall|k: int|
                0 <= k < next.out.len() ==> ((#[trigger] next.out[k]).1 matches PaperMsgView::ReplicateReq {
                    leader,
                    prefix,
                    patch,
                    ..
                } ==> {
                    &&& new.role is Leader
                    &&& leader == (new.term, replica.id)
                    &&& next.out.len() == replica.peers.len()
                    &&& next.out[k].0 == replica.peers[k]
                    &&& cut_from(next.store.log, prefix.0, prefix.1 as int, patch)
                })
        }),
{
    let next = replica.on_event(store, event);
    assert forall|k: int| 0 <= k < next.out.len() implies ((#[trigger] next.out[k]).1 matches PaperMsgView::ReplicateReq {
        leader,
        prefix,
        patch,
        ..
    } ==> {
        &&& next.replica.role is Leader
        &&& leader == (next.replica.term, replica.id)
        &&& next.out.len() == replica.peers.len()
        &&& next.out[k].0 == replica.peers[k]
        &&& cut_from(next.store.log, prefix.0, prefix.1 as int, patch)
    }) by {
        if next.out[k].1 is ReplicateReq {
            let log = next.store.log;
            let at = next.out[k].1->prefix.1 as int;
            let patch = next.out[k].1->patch;
            assert(patch =~= log.subrange(at, at + patch.len()));
        }
    }
}

/// A request cut from a log is cut from every log that extends it.
pub proof fn lemma_cut_from_longer<P>(
    source: Seq<Entry<P>>,
    longer: Seq<Entry<P>>,
    before: Option<Term>,
    at: int,
    patch: Seq<Entry<P>>,
)
    requires
        cut_from(source, before, at, patch),
        source.is_prefix_of(longer),
    ensures
        cut_from(longer, before, at, patch),
{
    assert(patch =~= longer.subrange(at, at + patch.len()));
}

/// An entry that stands where the leader of its term put it still does
/// when the logs on record grow at their tails, and does in every log that
/// holds the same entries up to it.
pub proof fn lemma_rooted_stays<P>(
    canon: Map<Term, (RaftId, Seq<Entry<P>>)>,
    grown: Map<Term, (RaftId, Seq<Entry<P>>)>,
    log: Seq<Entry<P>>,
    other: Seq<Entry<P>>,
    i: int,
)
    requires
        0 <= i < log.len(),
        rooted(canon, log, i),
        forall|term: Term| #[trigger]
            canon.contains_key(term) ==> grown.contains_key(term) && canon[term].1.is_prefix_of(grown[term].1),
        i < other.len(),
        other.take(i + 1) =~= log.take(i + 1),
    ensures
        rooted(grown, other, i),
{
    let term = log[i].2;
    assert(other[i] == other.take(i + 1)[i]);
    assert(log[i] == log.take(i + 1)[i]);
    assert(canon.contains_key(term));
    assert(grown[term].1.take(i + 1) =~= canon[term].1.take(i + 1));
}

/// Two logs whose entries stand where the leaders of their terms put them
/// match.
pub proof fn lemma_canonical_match<P>(
    canon: Map<Term, (RaftId, Seq<Entry<P>>)>,
    a: Seq<Entry<P>>,
    b: Seq<Entry<P>>,
)
    requires
        canonical(canon, a),
        canonical(canon, b),
    ensures
        logs_match(a, b),
{
    assert forall|i: int, j: int|
        0 <= j <= i && i < a.len() && i < b.len() && (#[trigger] a[i]).2 == b[i].2 implies #[trigger] a[j]
        == b[j] by {
        assert(rooted(canon, a, i));
        assert(rooted(canon, b, i));
        assert(a.take(i + 1)[j] == b.take(i + 1)[j]);
    }
}

/// Merging a request that was cut from a leader's log on record, into a
/// log that it fits, keeps every entry where the leader of its term put it.
pub proof fn lemma_overlay_canonical<P>(
    canon: Map<Term, (RaftId, Seq<Entry<P>>)>,
    log: Seq<Entry<P>>,
    commit: int,
    term: Term,
    before: Option<Term>,
    at: int,
    patch: Seq<Entry<P>>,
)
    requires
        canonical(canon, log),
        canon.contains_key(term),
        canonical(canon, canon[term].1),
        cut_from(canon[term].1, before, at, patch),
        at <= log.len(),
        !(before is Some && before != term_at(log, at - 1)),
    ensures
        canonical(canon, overlay(log, commit, at, patch)),
{
    let source = canon[term].1;
    let merged = overlay(log, commit, at, patch);
    let n = patch.len() as int;
    lemma_overlay_shape(log, commit, at, patch);
    lemma_agreement(log, at, patch);
    let k = agreement(log, at, patch) as int;
    if k < n && !barred(log, commit, at, patch) {
        if at + k > 0 {
            let i = at + k - 1;
            if k > 0 {
                assert(log[at + (k - 1)].2 == patch[k - 1].2);
                assert(patch[k - 1] == source[at + k - 1]);
            } else {
                assert(before == Some(source[at - 1].2));
                assert(term_at(log, at - 1) == Some(log[at - 1].2));
            }
            assert(rooted(canon, log, i));
            assert(rooted(canon, source, i));
            assert(log.take(i + 1) =~= source.take(i + 1));
        }
        assert forall|i: int| 0 <= i < at + n implies #[trigger] merged[i] == source[i] by {
            if i < at + k {
                assert(merged[i] == log[i]);
                assert(log.take(at + k)[i] == source.take(at + k)[i]);
            } else {
                assert(merged[at + (i - at)] == patch[i - at]);
                assert(patch[i - at] == source[at + (i - at)]);
            }
        }
        assert(merged =~= source.take(at + n));
        assert forall|i: int| 0 <= i < merged.len() implies #[trigger] rooted(canon, merged, i) by {
            assert(rooted(canon, source, i));
            assert(merged.take(i + 1) =~= source.take(i + 1));
            assert(merged[i] == source[i]);
        }
    }
}

/// What is merged is the leader's. After a request that was cut from a
/// leader's log on record is merged into a log that it fits, the log holds,
/// up to the end of what was merged, the entries of the leader's log.
pub proof fn lemma_merged_is_leaders<P>(
    canon: Map<Term, (RaftId, Seq<Entry<P>>)>,
    log: Seq<Entry<P>>,
    commit: int,
    term: Term,
    before: Option<Term>,
    at: int,
    patch: Seq<Entry<P>>,
)
    requires
        canonical(canon, log),
        canon.contains_key(term),
        canonical(canon, canon[term].1),
        cut_from(canon[term].1, before, at, patch),
        at <= log.len(),
        !(before is Some && before != term_at(log, at - 1)),
    ensures
        overlay_end(log, commit, at, patch) <= overlay(log, commit, at, patch).len(),
        overlay(log, commit, at, patch).take(overlay_end(log, commit, at, patch)) =~= canon[term].1.take(
            overlay_end(log, commit, at, patch),
        ),
{
    let source = canon[term].1;
    let merged = overlay(log, commit, at, patch);
    let end = overlay_end(log, commit, at, patch);
    if at > 0 {
        assert(before == Some(source[at - 1].2));
    }
    lemma_overlay_shape(log, commit, at, patch);
    lemma_agreement(log, at, patch);
    let k = agreement(log, at, patch) as int;
    if at + k > 0 {
        let i = at + k - 1;
        if k > 0 {
            assert(log[at + (k - 1)].2 == patch[k - 1].2);
            assert(patch[k - 1] == source[at + k - 1]);
        } else {
            assert(term_at(log, at - 1) == Some(log[at - 1].2));
        }
        assert(rooted(canon, log, i));
        assert(rooted(canon, source, i));
        assert(log.take(i + 1) =~= source.take(i + 1));
    }
    assert forall|i: int| 0 <= i < end implies #[trigger] merged[i] == source[i] by {
        if i < at + k {
            assert(merged[i] == log[i]);
            assert(log.take(at + k)[i] == source.take(at + k)[i]);
        } else {
            assert(merged[at + (i - at)] == patch[i - at]);
            assert(patch[i - at] == source[at + (i - at)]);
        }
    }
}

/// An acknowledgement is true when it is made. When a member of a cluster
/// takes in a replication request, its log then holds, up to the index it
/// acknowledges, the entries of the log on record for the leader of the
/// request's term.
pub proof fn lemma_acknowledged_is_leaders<P>(c: Cluster<P>, at: int, draw: u64)
    requires
        c.sound(),
        c.matched(),
        c.allows(Move::Deliver { at, draw }),
        c.net[at].msg is ReplicateReq,
        c.after(Move::Deliver { at, draw }).net.last().msg is ReplicateAck,
    ensures
        ({
            let n = c.after(Move::Deliver { at, draw });
            let log = n.members[c.net[at].dst].store.log;
            let led = n.canon[c.net[at].msg->leader.0].1;
            let sync = n.net.last().msg->sync as int;
            log.take(sync) =~= led.take(sync)
        }),
{
    let p = c.net[at];
    let event = Event::Message { msg: p.msg, draw };
    let old = c.members[p.dst];
    assert(c.ids().contains(p.dst));
    lemma_acted_net(c, p.dst, event, at, p.src);
    lemma_event_log(old.replica, old.store, event);
    let leader = p.msg->leader;
    let prefix = p.msg->prefix;
    let patch = p.msg->patch;
    assert(c.record.crowned.contains(leader));
    assert(c.canon.contains_key(leader.0));
    assert(canonical(c.canon, old.store.log));
    lemma_merged_is_leaders(
        c.canon,
        old.store.log,
        old.store.commit as int,
        leader.0,
        prefix.0,
        prefix.1 as int,
        patch,
    );
    let n = c.after(Move::Deliver { at, draw });
    assert(n.canon == c.canon);
}

/// The logs of a cluster stay as they should when an event comes to a
/// member.
pub proof fn lemma_acted_matched<P>(c: Cluster<P>, id: RaftId, event: Event<P>, at: int, src: RaftId)
    requires
        c.sound(),
        c.matched(),
        c.brings(id, event, at, src),
    ensures
        c.acted(id, event, c.spared(at), src).matched(),
{
    let old = c.members[id];
    assert(c.ids().contains(id));
    assert(!old.replica.peers.contains(id));
    lemma_event_identity(old.replica, old.store, event);
    lemma_event_ballots(old.replica, old.store, event);
    lemma_event_log(old.replica, old.store, event);
    lemma_votes_stay(c, id, event, at, src);
    lemma_acted_net(c, id, event, at, src);
    lemma_acted_sound(c, id, event, at, src);
    let n = c.acted(id, event, c.spared(at), src);
    let step = old.replica.on_event(old.store, event);
    let out = step.out;
    let new = step.replica;
    let log = old.store.log;
    let new_log = step.store.log;
    let kept = c.spared(at).len() as int;
    assert(n.ids() == c.ids());
    // A leader holds the log on record for its term, before and after.
    if new.role is Leader {
        assert(new.term == old.replica.term);
        if c.canon.contains_key(new.term) {
            assert(c.record.crowned.contains((new.term, c.canon[new.term].0)));
            assert(n.record.crowned.contains((new.term, c.canon[new.term].0)));
            assert(n.record.crowned.contains((new.term, id)));
            lemma_crowned_once(n, c.canon[new.term].0, id, new.term);
            assert(c.record.crowned.contains((old.replica.term, id)));
            assert(log == c.canon[new.term].1);
        }
        assert(log.is_prefix_of(new_log)) by {
            if new_log != log {
                assert(new_log.drop_last() == log);
            }
        }
    }
    // The logs on record only grow at their tails.
    assert forall|term: Term| #[trigger] c.canon.contains_key(term) implies n.canon.contains_key(term)
        && n.canon[term].0 == c.canon[term].0 && c.canon[term].1.is_prefix_of(n.canon[term].1) by {}
    assert(n.canon_crowned()) by {
        assert forall|term: Term| #[trigger] n.canon.contains_key(term) implies n.record.crowned.contains(
            (term, n.canon[term].0),
        ) by {
            if c.canon.contains_key(term) {
                assert(c.record.crowned.contains((term, c.canon[term].0)));
            }
        }
        assert forall|term: Term, a: RaftId| #[trigger] n.record.crowned.contains((term, a)) implies n.canon.contains_key(
            term,
        ) && n.canon[term].0 == a by {
            if c.record.crowned.contains((term, a)) {
                assert(c.canon.contains_key(term));
            }
        }
    }
    assert(n.crowned_reached()) by {
        assert forall|term: Term, a: RaftId| #[trigger] n.record.crowned.contains((term, a)) implies n.ids().contains(
            a,
        ) && term.0 <= n.members[a].replica.term.0 by {
            if c.record.crowned.contains((term, a)) {
                assert(c.ids().contains(a));
            }
        }
    }
    // The member's own log stays where it should.
    assert(canonical(n.canon, new_log)) by {
        assert(canonical(c.canon, log));
        if new_log == log {
            assert forall|i: int| 0 <= i < new_log.len() implies #[trigger] rooted(n.canon, new_log, i) by {
                assert(rooted(c.canon, log, i));
                lemma_rooted_stays(c.canon, n.canon, log, log, i);
            }
        } else if new.role is Leader {
            assert forall|i: int| 0 <= i < new_log.len() implies #[trigger] rooted(n.canon, new_log, i) by {
                if i < log.len() {
                    assert(rooted(c.canon, log, i));
                    assert(new_log.take(i + 1) =~= log.take(i + 1));
                    lemma_rooted_stays(c.canon, n.canon, log, new_log, i);
                }
            }
        } else {
            assert(at < c.net.len());
            let p = c.net[at];
            let leader = p.msg->leader;
            let prefix = p.msg->prefix;
            let patch = p.msg->patch;
            assert(c.record.crowned.contains(leader));
            assert(c.canon.contains_key(leader.0));
            lemma_overlay_canonical(
                c.canon,
                log,
                old.store.commit as int,
                leader.0,
                prefix.0,
                prefix.1 as int,
                patch,
            );
            assert(n.canon == c.canon);
        }
    }
    assert(n.leaders_hold_canon()) by {
        assert forall|a: RaftId|
            n.ids().contains(a) && n.record.crowned.contains((n.members[a].replica.term, a)) implies n.members[a].store.log
            == n.canon[n.members[a].replica.term].1 by {
            assert(c.ids().contains(a));
            let term = n.members[a].replica.term;
            {
                if a == id {
                    if !(new.role is Leader) {
                        assert(c.record.crowned.contains((term, id)));
                        assert(term.0 <= old.replica.term.0);
                        if new_log != log {
                            let p = c.net[at];
                            let leader = p.msg->leader;
                            assert(c.record.crowned.contains(leader));
                            lemma_crowned_once(c, leader.1, id, term);
                        }
                    }
                } else {
                    assert(c.record.crowned.contains((term, a))) by {
                        if !c.record.crowned.contains((term, a)) {
                            assert(a == id);
                        }
                    }
                    if new.role is Leader && term == new.term {
                        lemma_crowned_once(n, a, id, term);
                    }
                }
            }
        }
    }
    assert(n.logs_canonical()) by {
        assert forall|a: RaftId| #[trigger] n.ids().contains(a) implies canonical(n.canon, n.members[a].store.log) by {
            assert(c.ids().contains(a));
            if a != id {
                let theirs = c.members[a].store.log;
                assert(canonical(c.canon, theirs));
                assert forall|i: int| 0 <= i < theirs.len() implies #[trigger] rooted(n.canon, theirs, i) by {
                    assert(rooted(c.canon, theirs, i));
                    lemma_rooted_stays(c.canon, n.canon, theirs, theirs, i);
                }
            }
        }
    }
    assert(n.canon_canonical()) by {
        assert forall|term: Term| #[trigger] n.canon.contains_key(term) implies canonical(n.canon, n.canon[term].1) by {
            if new.role is Leader && term == new.term {
            } else {
                let theirs = c.canon[term].1;
                assert(c.canon.contains_key(term));
                assert(canonical(c.canon, theirs));
                assert forall|i: int| 0 <= i < theirs.len() implies #[trigger] rooted(n.canon, theirs, i) by {
                    assert(rooted(c.canon, theirs, i));
                    lemma_rooted_stays(c.canon, n.canon, theirs, theirs, i);
                }
            }
        }
    }
    assert(n.requests_cut()) by {
        assert forall|i: int| 0 <= i < n.net.len() implies ((#[trigger] n.net[i]).msg matches PaperMsgView::ReplicateReq {
            leader,
            prefix,
            patch,
            ..
        } ==> {
            &&& n.record.crowned.contains(leader)
            &&& n.net[i].src == leader.1
            &&& n.net[i].dst != leader.1
            &&& cut_from(n.canon[leader.0].1, prefix.0, prefix.1 as int, patch)
        }) by {
            if n.net[i].msg is ReplicateReq {
                let leader = n.net[i].msg->leader;
                let prefix = n.net[i].msg->prefix;
                let patch = n.net[i].msg->patch;
                if i < kept {
                    let u = up(at, i);
                    assert(n.net[i] == c.net[u]);
                    assert(c.net[u].msg is ReplicateReq);
                    assert(c.record.crowned.contains(leader));
                    assert(c.canon.contains_key(leader.0));
                    lemma_cut_from_longer(c.canon[leader.0].1, n.canon[leader.0].1, prefix.0, prefix.1 as int, patch);
                } else {
                    let k = i - kept;
                    assert(out[k].1 is ReplicateReq);
                    assert(old.replica.peers.contains(old.replica.peers[k]));
                }
            }
        }
    }
}

/// The logs of a cluster stay as they should, whatever happens.
pub proof fn lemma_move_matched<P>(c: Cluster<P>, step: Move<P>)
    requires
        c.sound(),
        c.matched(),
        c.allows(step),
    ensures
        c.after(step).matched(),
{
    match step {
        Move::Deliver { at, draw } => {
            let p = c.net[at];
            lemma_acted_matched(c, p.dst, Event::Message { msg: p.msg, draw }, at, p.src);
        },
        Move::Lose { at } => {
            let n = c.after(step);
            assert forall|i: int| 0 <= i < n.net.len() implies #[trigger] n.net[i] == c.net[up(at, i)] by {}
        },
        Move::Tick { id, draw } => {
            lemma_acted_matched(c, id, Event::<P>::Tick { draw }, c.net.len() as int, id);
        },
        Move::Propose { id, proposal, pid } => {
            lemma_acted_matched(c, id, Event::Propose { proposal, id: pid }, c.net.len() as int, id);
        },
        Move::Restart { id, draw } => {
            lemma_acted_matched(c, id, Event::<P>::Restart { draw }, c.net.len() as int, id);
        },
    }
}

/// The logs of a sound cluster that are as they should be stay so after
/// every move.
pub proof fn lemma_always_matched<P>(start: Cluster<P>, moves: Seq<Move<P>>, k: int)
    requires
        start.sound(),
        start.matched(),
        behaves(start, moves),
        0 <= k <= moves.len(),
    ensures
        state_at(start, moves, k).sound(),
        state_at(start, moves, k).matched(),
        state_at(start, moves, k).ids() == start.ids(),
    decreases k,
{
    if k > 0 {
        lemma_always_matched(start, moves, k - 1);
        lemma_always_sound(start, moves, k, k);
        assert(state_at(start, moves, k - 1).allows(moves[k - 1]));
        lemma_move_matched(state_at(start, moves, k - 1), moves[k - 1]);
    }
}

/// Log matching. Let a cluster start at its beginning with nothing written
/// and run on a network that hands each message over at most once. At
/// every time, the logs of any two members match: where both hold an entry
/// of the same term at one index, they hold the same entries up to that
/// index.
pub proof fn lemma_log_matching<P>(start: Cluster<P>, moves: Seq<Move<P>>, k: int, a: RaftId, b: RaftId)
    requires
        start.opens(),
        start.unwritten(),
        behaves(start, moves),
        0 <= k <= moves.len(),
        start.ids().contains(a),
        start.ids().contains(b),
    ensures
        logs_match(
            state_at(start, moves, k).members[a].store.log,
            state_at(start, moves, k).members[b].store.log,
        ),
{
    lemma_opens_sound(start);
    assert(start.matched()) by {
        assert forall|id: RaftId| #[trigger] start.ids().contains(id) implies canonical(
            start.canon,
            start.members[id].store.log,
        ) by {}
    }
    lemma_always_matched(start, moves, k);
    let end = state_at(start, moves, k);
    assert(end.ids().contains(a) && end.ids().contains(b));
    lemma_canonical_match(end.canon, end.members[a].store.log, end.members[b].store.log);
}

} // verus!
