//! The durable state of one replica: its persisted identity and its log.

use vstd::prelude::*;
use core::ops::Range;
use crate::nums::{ProposalId, RaftId, Term};
use crate::log::{
    Entry, clamped, copy_range, exact_clone, last_of, lemma_agreement_is, lemma_overlay_keeps_committed, overlay,
    overlay_end, shielded, term_at,
};

verus! {

/// What a store holds, as mathematical values.
#[verifier::ext_equal]
pub struct StoreView<P> {
    /// The highest term the replica has recorded.
    pub term: Term,
    /// The replica voted for in `term`, if any.
    pub vote: Option<RaftId>,
    /// The entries, oldest first.
    pub log: Seq<Entry<P>>,
    /// The commit watermark.
    pub commit: usize,
}

impl<P> StoreView<P> {
    /// A store that was never written.
    pub open spec fn fresh() -> Self {
        StoreView { term: Term(0), vote: None, log: Seq::empty(), commit: 0 }
    }

    /// Whether `later` keeps what this store has committed: its watermark
    /// is not lower, it shields as much at least, and every entry that this
    /// store's watermark shields stands in its log at the same index.
    pub open spec fn kept_by(self, later: StoreView<P>) -> bool {
        let held = shielded(self.log, self.commit as int);
        &&& self.commit <= later.commit
        &&& held <= shielded(later.log, later.commit as int)
        &&& later.log.take(held) == self.log.take(held)
    }
}

/// What a first store has committed, a third keeps, where a second keeps it
/// and the third keeps what the second has committed.
pub proof fn lemma_kept_on<P>(first: StoreView<P>, second: StoreView<P>, third: StoreView<P>)
    requires
        first.kept_by(second),
        second.kept_by(third),
    ensures
        first.kept_by(third),
{
    let held = shielded(first.log, first.commit as int);
    let mid = shielded(second.log, second.commit as int);
    assert(third.log.take(held) =~= third.log.take(mid).take(held));
    assert(second.log.take(held) =~= second.log.take(mid).take(held));
}

/// The store a replica writes its identity and its log to.
pub trait Persistor<Proposal: Clone> {
    /// The contents of the store.
    spec fn view(&self) -> StoreView<Proposal>;

    /// Records the replica's term and vote.
    fn persist(&mut self, term: Term, vote: Option<RaftId>)
        ensures
            final(self)@ == (StoreView { term, vote, ..old(self)@ }),
    ;

    /// Reads the recorded term and vote.
    fn load(&mut self) -> (identity: (Term, Option<RaftId>))
        ensures
            final(self)@ == old(self)@,
            identity == (old(self)@.term, old(self)@.vote),
    ;

    /// Appends a fresh entry at the tail.
    fn push(&mut self, proposal: Proposal, id: ProposalId, term: Term)
        ensures
            final(self)@ == (StoreView {
                log: old(self)@.log.push((proposal, id, term)),
                ..old(self)@
            }),
    ;

    /// The term of the final entry and the length of the log.
    fn last(&self) -> (last: (Term, usize))
        ensures
            last == last_of(self@.log),
            last.1 == self@.log.len(),
    ;

    /// The term of the entry at `at`.
    fn term(&self, at: usize) -> (term: Option<Term>)
        ensures
            term == term_at(self@.log, at as int),
    ;

    /// Merges `patch` into the log from position `at` and returns the index
    /// just past the merged region. The log is cut only beyond the commit
    /// watermark: what the watermark shields stays as it is.
    fn append(&mut self, at: usize, patch: Vec<Entry<Proposal>>) -> (end: usize)
        ensures
            final(self)@ == (StoreView {
                log: overlay(old(self)@.log, old(self)@.commit as int, at as int, patch@),
                ..old(self)@
            }),
            end == overlay_end(old(self)@.log, old(self)@.commit as int, at as int, patch@),
            end <= final(self)@.log.len(),
            shielded(old(self)@.log, old(self)@.commit as int) <= final(self)@.log.len(),
            final(self)@.log.take(shielded(old(self)@.log, old(self)@.commit as int)) == old(self)@.log.take(
                shielded(old(self)@.log, old(self)@.commit as int),
            ),
    ;

    /// Raises the commit watermark to `at`; it never falls.
    fn commit(&mut self, at: usize)
        ensures
            final(self)@ == (StoreView {
                commit: if at > old(self)@.commit { at } else { old(self)@.commit },
                ..old(self)@
            }),
    ;

    /// The commit watermark.
    fn commitable(&self) -> (commit: usize)
        ensures
            commit == self@.commit,
    ;

    /// A copy of the entries in `range`, both ends clamped to the log.
    fn slice(&mut self, range: Range<usize>) -> (entries: Vec<Entry<Proposal>>)
        requires
            exact_clone::<Proposal>(),
        ensures
            final(self)@ == old(self)@,
            entries@ == clamped(old(self)@.log, range.start as int, range.end as int),
    ;
}

/// A store that lives in memory.
#[derive(Debug, Clone)]
pub struct MockPersistor<Proposal> {
    commit: usize,
    log: Vec<Entry<Proposal>>,
    vote: Option<RaftId>,
    term: Term,
}

impl<Proposal: Clone> MockPersistor<Proposal> {
    /// A store that was never written.
    pub fn new() -> (store: Self)
        ensures
            store@ == StoreView::<Proposal>::fresh(),
    {
        Self { commit: 0, log: Vec::new(), vote: None, term: Term(0) }
    }
}

impl<Proposal: Clone> Persistor<Proposal> for MockPersistor<Proposal> {
    closed spec fn view(&self) -> StoreView<Proposal> {
        StoreView { term: self.term, vote: self.vote, log: self.log@, commit: self.commit }
    }

    fn persist(&mut self, term: Term, vote: Option<RaftId>) {
        self.term = term;
        self.vote = vote;
    }

    fn load(&mut self) -> (identity: (Term, Option<RaftId>)) {
        (self.term, self.vote)
    }

    fn push(&mut self, proposal: Proposal, id: ProposalId, term: Term) {
        self.log.push((proposal, id, term));
    }

    fn last(&self) -> (last: (Term, usize)) {
        let n = self.log.len();
        if n == 0 {
            (Term(0), 0)
        } else {
            (self.log[n - 1].2, n)
        }
    }

    fn term(&self, at: usize) -> (term: Option<Term>) {
        if at < self.log.len() {
            Some(self.log[at].2)
        } else {
            None
        }
    }

    fn append(&mut self, at: usize, patch: Vec<Entry<Proposal>>) -> (end: usize) {
        proof {
            lemma_overlay_keeps_committed(self.log@, self.commit as int, at as int, patch@);
        }
        if at > self.log.len() {
            return self.log.len();
        }
        let ghost before = self.log@;
        let ghost whole = patch@;
        let mut patch = patch;
        let n = patch.len();
        let mut k: usize = 0;
        while k < n && at + k < self.log.len() && self.log[at + k].2.0 == patch[k].2.0
            invariant
                self.log@ == before,
                patch@ == whole,
                n == whole.len(),
                k <= n,
                at + k <= self.log.len(),
                forall|j: int| 0 <= j < k ==> (#[trigger] before[at + j]).2 == whole[j].2,
            decreases n - k,
        {
            k += 1;
        }
        proof {
            lemma_agreement_is(before, at as int, whole, k as int);
        }
        if k == n {
            at + n
        } else if at + k < self.commit && at + k < self.log.len() {
            at + k
        } else {
            let mut rest = patch.split_off(k);
            self.log.truncate(at + k);
            self.log.append(&mut rest);
            self.log.len()
        }
    }

    fn commit(&mut self, at: usize) {
        if at > self.commit {
            self.commit = at;
        }
    }

    fn commitable(&self) -> (commit: usize) {
        self.commit
    }

    fn slice(&mut self, range: Range<usize>) -> (entries: Vec<Entry<Proposal>>) {
        let n = self.log.len();
        let hi = if range.end < n { range.end } else { n };
        let lo = if range.start < hi { range.start } else { hi };
        copy_range(&self.log, lo, hi)
    }
}

} // verus!
