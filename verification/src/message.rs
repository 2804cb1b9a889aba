//! The wire messages of the two dialects.

use vstd::prelude::*;
use crate::nums::{ProposalId, RaftId, Term};
use core::ops::BitXor;
use crate::log::{Entry, copy_range, exact_clone};
use crate::codeword::{Codeword, CodewordView, views};

verus! {

/// What replicas of the classic dialect send each other.
#[derive(Debug, PartialEq, Eq, PartialOrd, Ord)]
pub enum RaftPaperMsg<Proposal> {
    /// A client proposal on its way to the leader.
    ProposalReq { proposal: Proposal, id: ProposalId },
    /// A leader ships a run of entries that follows `prefix`.
    ReplicateReq {
        commit: usize,
        leader: (Term, RaftId),
        prefix: (Option<Term>, usize),
        patch: Vec<(Proposal, ProposalId, Term)>,
    },
    /// A follower holds the leader's entries up to `sync`.
    ReplicateAck { from: RaftId, sync: usize, tail: usize },
    /// A follower turns a replication down.
    ReplicateRej { from: RaftId, term: Term, at: usize },
    /// A candidate asks for a vote.
    VoteReq { candidate: (Term, RaftId), last: (Term, usize) },
    /// The vote is granted for `term`.
    VoteAck { term: Term },
    /// The vote is refused by a replica in `term`.
    VoteRej { term: Term },
}

/// A classic message as a mathematical value: the patch is a sequence.
#[verifier::ext_equal]
pub enum PaperMsgView<P> {
    ProposalReq { proposal: P, id: ProposalId },
    ReplicateReq {
        commit: usize,
        leader: (Term, RaftId),
        prefix: (Option<Term>, usize),
        patch: Seq<Entry<P>>,
    },
    ReplicateAck { from: RaftId, sync: usize, tail: usize },
    ReplicateRej { from: RaftId, term: Term, at: usize },
    VoteReq { candidate: (Term, RaftId), last: (Term, usize) },
    VoteAck { term: Term },
    VoteRej { term: Term },
}

impl<Proposal> View for RaftPaperMsg<Proposal> {
    type V = PaperMsgView<Proposal>;

    open spec fn view(&self) -> PaperMsgView<Proposal> {
        match *self {
            RaftPaperMsg::ProposalReq { proposal, id } => PaperMsgView::ProposalReq { proposal, id },
            RaftPaperMsg::ReplicateReq { commit, leader, prefix, patch } => PaperMsgView::ReplicateReq {
                commit,
                leader,
                prefix,
                patch: patch@,
            },
            RaftPaperMsg::ReplicateAck { from, sync, tail } => PaperMsgView::ReplicateAck {
                from,
                sync,
                tail,
            },
            RaftPaperMsg::ReplicateRej { from, term, at } => PaperMsgView::ReplicateRej {
                from,
                term,
                at,
            },
            RaftPaperMsg::VoteReq { candidate, last } => PaperMsgView::VoteReq { candidate, last },
            RaftPaperMsg::VoteAck { term } => PaperMsgView::VoteAck { term },
            RaftPaperMsg::VoteRej { term } => PaperMsgView::VoteRej { term },
        }
    }
}

impl<Proposal: Clone> Clone for RaftPaperMsg<Proposal> {
    /// A message with the same contents, where payloads clone exactly.
    fn clone(&self) -> (copy: Self)
        ensures
            exact_clone::<Proposal>() ==> copy@ == self@,
    {
        match self {
            RaftPaperMsg::ProposalReq { proposal, id } => {
                let payload = proposal.clone();
                assert(cloned::<Proposal>(*proposal, payload));
                RaftPaperMsg::ProposalReq { proposal: payload, id: *id }
            },
            RaftPaperMsg::ReplicateReq { commit, leader, prefix, patch } => RaftPaperMsg::ReplicateReq {
                commit: *commit,
                leader: *leader,
                prefix: *prefix,
                patch: copy_range(patch, 0, patch.len()),
            },
            RaftPaperMsg::ReplicateAck { from, sync, tail } => RaftPaperMsg::ReplicateAck {
                from: *from,
                sync: *sync,
                tail: *tail,
            },
            RaftPaperMsg::ReplicateRej { from, term, at } => RaftPaperMsg::ReplicateRej {
                from: *from,
                term: *term,
                at: *at,
            },
            RaftPaperMsg::VoteReq { candidate, last } => RaftPaperMsg::VoteReq {
                candidate: *candidate,
                last: *last,
            },
            RaftPaperMsg::VoteAck { term } => RaftPaperMsg::VoteAck { term: *term },
            RaftPaperMsg::VoteRej { term } => RaftPaperMsg::VoteRej { term: *term },
        }
    }
}

/// What replicas of the rateless dialect send each other: the messages of
/// the classic dialect, but that a leader ships codewords.
#[derive(Debug, PartialEq, Eq, PartialOrd, Ord)]
pub enum RaftLubyMsg<Proposal> {
    /// A client proposal on its way to the leader.
    ProposalReq { proposal: Proposal, id: ProposalId },
    /// A leader ships codewords over the entries that follow `prefix`, and
    /// names those entries: the proposal and the term of each, in the order of
    /// the log.
    ReplicateReq {
        commit: usize,
        leader: (Term, RaftId),
        prefix: (Option<Term>, usize),
        names: Vec<(ProposalId, Term)>,
        patch: Vec<Codeword<Proposal>>,
    },
    /// A follower holds the leader's entries up to `sync`.
    ReplicateAck { from: RaftId, sync: usize, tail: usize },
    /// A follower turns a replication down.
    ReplicateRej { from: RaftId, term: Term, at: usize },
    /// A candidate asks for a vote.
    VoteReq { candidate: (Term, RaftId), last: (Term, usize) },
    /// The vote is granted for `term`.
    VoteAck { term: Term },
    /// The vote is refused by a replica in `term`.
    VoteRej { term: Term },
}

/// A rateless message as a mathematical value.
#[verifier::ext_equal]
pub enum LubyMsgView<P> {
    ProposalReq { proposal: P, id: ProposalId },
    ReplicateReq {
        commit: usize,
        leader: (Term, RaftId),
        prefix: (Option<Term>, usize),
        names: Seq<(ProposalId, Term)>,
        patch: Seq<CodewordView<P>>,
    },
    ReplicateAck { from: RaftId, sync: usize, tail: usize },
    ReplicateRej { from: RaftId, term: Term, at: usize },
    VoteReq { candidate: (Term, RaftId), last: (Term, usize) },
    VoteAck { term: Term },
    VoteRej { term: Term },
}

impl<Proposal> View for RaftLubyMsg<Proposal> {
    type V = LubyMsgView<Proposal>;

    open spec fn view(&self) -> LubyMsgView<Proposal> {
        match *self {
            RaftLubyMsg::ProposalReq { proposal, id } => LubyMsgView::ProposalReq { proposal, id },
            RaftLubyMsg::ReplicateReq { commit, leader, prefix, names, patch } => LubyMsgView::ReplicateReq {
                commit,
                leader,
                prefix,
                names: names@,
                patch: views(patch@),
            },
            RaftLubyMsg::ReplicateAck { from, sync, tail } => LubyMsgView::ReplicateAck { from, sync, tail },
            RaftLubyMsg::ReplicateRej { from, term, at } => LubyMsgView::ReplicateRej { from, term, at },
            RaftLubyMsg::VoteReq { candidate, last } => LubyMsgView::VoteReq { candidate, last },
            RaftLubyMsg::VoteAck { term } => LubyMsgView::VoteAck { term },
            RaftLubyMsg::VoteRej { term } => LubyMsgView::VoteRej { term },
        }
    }
}

/// A copy of `names`.
pub fn copy_names(names: &Vec<(ProposalId, Term)>) -> (copy: Vec<(ProposalId, Term)>)
    ensures
        copy@ == names@,
{
    let mut copy: Vec<(ProposalId, Term)> = Vec::new();
    let mut i: usize = 0;
    while i < names.len()
        invariant
            i <= names.len(),
            copy@ == names@.take(i as int),
        decreases names.len() - i,
    {
        copy.push(names[i]);
        assert(copy@ =~= names@.take(i + 1));
        i += 1;
    }
    assert(names@.take(names.len() as int) =~= names@);
    copy
}

/// A copy of the codewords of `words`.
pub fn copy_words<Proposal: Clone + BitXor<Proposal, Output = Proposal>>(words: &Vec<Codeword<Proposal>>) -> (copy:
    Vec<Codeword<Proposal>>)
    ensures
        copy.len() == words.len(),
        exact_clone::<Proposal>() ==> views(copy@) == views(words@),
{
    let mut copy: Vec<Codeword<Proposal>> = Vec::new();
    let mut i: usize = 0;
    while i < words.len()
        invariant
            i <= words.len(),
            copy.len() == i,
            exact_clone::<Proposal>() ==> views(copy@) == views(words@.take(i as int)),
        decreases words.len() - i,
    {
        let word = words[i].clone();
        let ghost was = views(copy@);
        copy.push(word);
        assert(views(copy@) =~= was.push(word@));
        assert(views(words@.take(i + 1)) =~= views(words@.take(i as int)).push(words@[i as int]@));
        i += 1;
    }
    assert(words@.take(words.len() as int) =~= words@);
    copy
}

impl<Proposal: Clone + BitXor<Proposal, Output = Proposal>> Clone for RaftLubyMsg<Proposal> {
    /// A message with the same contents, where payloads clone exactly.
    fn clone(&self) -> (copy: Self)
        ensures
            exact_clone::<Proposal>() ==> copy@ == self@,
    {
        match self {
            RaftLubyMsg::ProposalReq { proposal, id } => {
                let payload = proposal.clone();
                assert(cloned::<Proposal>(*proposal, payload));
                RaftLubyMsg::ProposalReq { proposal: payload, id: *id }
            },
            RaftLubyMsg::ReplicateReq { commit, leader, prefix, names, patch } => RaftLubyMsg::ReplicateReq {
                commit: *commit,
                leader: *leader,
                prefix: *prefix,
                names: copy_names(names),
                patch: copy_words(patch),
            },
            RaftLubyMsg::ReplicateAck { from, sync, tail } => RaftLubyMsg::ReplicateAck {
                from: *from,
                sync: *sync,
                tail: *tail,
            },
            RaftLubyMsg::ReplicateRej { from, term, at } => RaftLubyMsg::ReplicateRej {
                from: *from,
                term: *term,
                at: *at,
            },
            RaftLubyMsg::VoteReq { candidate, last } => RaftLubyMsg::VoteReq {
                candidate: *candidate,
                last: *last,
            },
            RaftLubyMsg::VoteAck { term } => RaftLubyMsg::VoteAck { term: *term },
            RaftLubyMsg::VoteRej { term } => RaftLubyMsg::VoteRej { term: *term },
        }
    }
}

} // verus!
