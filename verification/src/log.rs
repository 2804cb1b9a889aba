//! The replicated log as a mathematical sequence, and the one operation by
//! which a follower's log changes.

use vstd::prelude::*;
use crate::nums::{ProposalId, Term};

verus! {

/// A log entry: the payload, the identifier of the proposal that carried it,
/// and the term of the leader that first appended it.
pub type Entry<P> = (P, ProposalId, Term);

/// The term of the final entry (term 0 for an empty log) and the length.
pub open spec fn last_of<P>(log: Seq<Entry<P>>) -> (Term, usize) {
    if log.len() == 0 {
        (Term(0), 0usize)
    } else {
        (log.last().2, log.len() as usize)
    }
}

/// The term of the entry at `at`, where the log has one.
pub open spec fn term_at<P>(log: Seq<Entry<P>>, at: int) -> Option<Term> {
    if 0 <= at < log.len() {
        Some(log[at].2)
    } else {
        None
    }
}

/// How many leading entries of `patch` the log already holds from position
/// `at` on, judged by their terms.
pub open spec fn agreement<P>(log: Seq<Entry<P>>, at: int, patch: Seq<Entry<P>>) -> nat
    decreases patch.len(),
{
    if patch.len() > 0 && 0 <= at < log.len() && log[at].2 == patch[0].2 {
        1 + agreement(log, at + 1, patch.drop_first())
    } else {
        0
    }
}

/// How far the commit watermark `commit` shields the log: up to the
/// watermark, as far as the log reaches.
pub open spec fn shielded<P>(log: Seq<Entry<P>>, commit: int) -> int {
    if commit < 0 {
        0
    } else if commit < log.len() {
        commit
    } else {
        log.len() as int
    }
}

/// Whether merging `patch` at `at` would cut the log below the commit
/// watermark: the first patch entry that the log does not agree with stands
/// where the log is shielded.
pub open spec fn barred<P>(log: Seq<Entry<P>>, commit: int, at: int, patch: Seq<Entry<P>>) -> bool {
    let k = agreement(log, at, patch) as int;
    at <= log.len() && k < patch.len() && at + k < shielded(log, commit)
}

/// The log after merging `patch` at position `at`, under the commit
/// watermark `commit`: entries that agree with the patch stay; from the first
/// that does not, the log is cut and the rest of the patch takes its place.
/// Nothing changes where the patch starts past the end of the log, or where
/// the cut would fall below the watermark.
pub open spec fn overlay<P>(log: Seq<Entry<P>>, commit: int, at: int, patch: Seq<Entry<P>>) -> Seq<Entry<P>> {
    let k = agreement(log, at, patch) as int;
    if at > log.len() || k == patch.len() || barred(log, commit, at, patch) {
        log
    } else {
        log.subrange(0, at + k) + patch.subrange(k, patch.len() as int)
    }
}

/// The index just past the merged region: the end of the patch where it was
/// merged whole; the end of the agreement where the rest was barred; the end
/// of the log where the patch starts past it and nothing was merged.
pub open spec fn overlay_end<P>(log: Seq<Entry<P>>, commit: int, at: int, patch: Seq<Entry<P>>) -> int {
    if at > log.len() {
        log.len() as int
    } else if barred(log, commit, at, patch) {
        at + agreement(log, at, patch)
    } else {
        at + patch.len()
    }
}

/// Whether a request that names `prefix` fits the log: its patch starts
/// within the log or at its end, and the term it names for the entry before,
/// if any, is the one the log holds there.
pub open spec fn fits<P>(log: Seq<Entry<P>>, prefix: (Option<Term>, usize)) -> bool {
    prefix.1 <= log.len() && !(prefix.0 is Some && prefix.0 != term_at(log, prefix.1 - 1))
}

/// The entries of `log` in `start..end`, with both ends clamped to the log.
pub open spec fn clamped<P>(log: Seq<Entry<P>>, start: int, end: int) -> Seq<Entry<P>> {
    let hi = if end < log.len() { end } else { log.len() as int };
    let lo = if start < hi { start } else { hi };
    log.subrange(lo, hi)
}

/// Every clone of a payload equals the payload.
pub open spec fn exact_clone<P: Clone>() -> bool {
    forall|a: P, b: P| cloned::<P>(a, b) ==> a == b
}

/// A copy of the entries of `log` in `lo..hi`.
pub fn copy_range<P: Clone>(log: &Vec<Entry<P>>, lo: usize, hi: usize) -> (entries: Vec<Entry<P>>)
    requires
        lo <= hi <= log.len(),
    ensures
        entries.len() == hi - lo,
        forall|i: int|
            0 <= i < hi - lo ==> cloned::<P>(log@[lo + i].0, (#[trigger] entries@[i]).0)
                && entries@[i].1 == log@[lo + i].1 && entries@[i].2 == log@[lo + i].2,
        exact_clone::<P>() ==> entries@ == log@.subrange(lo as int, hi as int),
{
    let mut entries: Vec<Entry<P>> = Vec::new();
    let mut i = lo;
    while i < hi
        invariant
            lo <= i <= hi <= log.len(),
            entries.len() == i - lo,
            forall|j: int|
                0 <= j < i - lo ==> cloned::<P>(log@[lo + j].0, (#[trigger] entries@[j]).0)
                    && entries@[j].1 == log@[lo + j].1 && entries@[j].2 == log@[lo + j].2,
        decreases hi - i,
    {
        let payload = log[i].0.clone();
        assert(cloned::<P>(log@[i as int].0, payload));
        entries.push((payload, log[i].1, log[i].2));
        i += 1;
    }
    assert(exact_clone::<P>() ==> entries@ =~= log@.subrange(lo as int, hi as int));
    entries
}

/// `agreement` is the length of the longest run of patch entries that the log
/// matches term by term, starting at `at`.
pub proof fn lemma_agreement<P>(log: Seq<Entry<P>>, at: int, patch: Seq<Entry<P>>)
    requires
        0 <= at,
    ensures
        agreement(log, at, patch) <= patch.len(),
        at <= log.len() ==> at + agreement(log, at, patch) <= log.len(),
        forall|j: int|
            0 <= j < agreement(log, at, patch) ==> (#[trigger] log[at + j]).2 == patch[j].2,
        ({
            let k = agreement(log, at, patch) as int;
            k < patch.len() && at + k < log.len() ==> log[at + k].2 != patch[k].2
        }),
    decreases patch.len(),
{
    if patch.len() > 0 && at < log.len() && log[at].2 == patch[0].2 {
        let rest = patch.drop_first();
        lemma_agreement(log, at + 1, rest);
        let k = agreement(log, at, patch) as int;
        assert forall|j: int| 0 <= j < k implies (#[trigger] log[at + j]).2 == patch[j].2 by {
            if j > 0 {
                assert(log[(at + 1) + (j - 1)].2 == rest[j - 1].2);
            }
        }
        if k < patch.len() && at + k < log.len() {
            assert(rest[k - 1] == patch[k]);
        }
    }
}

/// A run of `k` agreeing entries that stops at a disagreement, at the end of
/// the patch or at the end of the log is the agreement.
pub proof fn lemma_agreement_is<P>(log: Seq<Entry<P>>, at: int, patch: Seq<Entry<P>>, k: int)
    requires
        0 <= at,
        0 <= k <= patch.len(),
        at + k <= log.len(),
        forall|j: int| 0 <= j < k ==> (#[trigger] log[at + j]).2 == patch[j].2,
        k == patch.len() || at + k == log.len() || log[at + k].2 != patch[k].2,
    ensures
        agreement(log, at, patch) == k,
    decreases patch.len(),
{
    if k > 0 {
        assert(log[at + 0].2 == patch[0].2);
        let rest = patch.drop_first();
        assert forall|j: int| 0 <= j < k - 1 implies (#[trigger] log[(at + 1) + j]).2 == rest[j].2 by {
            assert(log[at + (j + 1)].2 == patch[j + 1].2);
        }
        if k < patch.len() && at + k < log.len() {
            assert(rest[k - 1] == patch[k]);
        }
        lemma_agreement_is(log, at + 1, rest, k - 1);
    }
}

/// What merging leaves of the log and of the patch: the log is untouched
/// up to the end of the agreement and as far as it is shielded, the merged
/// region ends within the log, every patch entry of the merged region stands
/// at its place by term, and what follows the agreement there is the
/// patch's own.
pub proof fn lemma_overlay_shape<P>(log: Seq<Entry<P>>, commit: int, at: int, patch: Seq<Entry<P>>)
    requires
        0 <= at <= log.len(),
    ensures
        ({
            let merged = overlay(log, commit, at, patch);
            let end = overlay_end(log, commit, at, patch);
            let k = agreement(log, at, patch) as int;
            &&& k <= patch.len() && at + k <= log.len()
            &&& at + k <= end <= at + patch.len() && end <= merged.len()
            &&& shielded(log, commit) <= merged.len()
            &&& merged.take(shielded(log, commit)) =~= log.take(shielded(log, commit))
            &&& !barred(log, commit, at, patch) ==> end == at + patch.len()
            &&& !barred(log, commit, at, patch) && k < patch.len() ==> merged.len() == at + patch.len()
            &&& k == patch.len() || barred(log, commit, at, patch) ==> merged == log
            &&& forall|i: int| 0 <= i < at + k ==> #[trigger] merged[i] == log[i]
            &&& forall|j: int| 0 <= j < end - at ==> (#[trigger] merged[at + j]).2 == patch[j].2
            &&& forall|j: int| k <= j < end - at ==> #[trigger] merged[at + j] == patch[j]
        }),
{
    lemma_agreement(log, at, patch);
    let merged = overlay(log, commit, at, patch);
    let end = overlay_end(log, commit, at, patch);
    let k = agreement(log, at, patch) as int;
    assert forall|j: int| 0 <= j < end - at implies (#[trigger] merged[at + j]).2 == patch[j].2 by {
        if j < k {
            assert(log[at + j].2 == patch[j].2);
        }
    }
}

/// Merging never cuts below the commit watermark: the log stays as long as
/// it is shielded, and holds the same entries there.
pub proof fn lemma_overlay_keeps_committed<P>(log: Seq<Entry<P>>, commit: int, at: int, patch: Seq<Entry<P>>)
    requires
        0 <= at,
    ensures
        shielded(log, commit) <= overlay(log, commit, at, patch).len(),
        overlay(log, commit, at, patch).take(shielded(log, commit)) == log.take(shielded(log, commit)),
        overlay_end(log, commit, at, patch) <= overlay(log, commit, at, patch).len(),
{
    if at <= log.len() {
        lemma_overlay_shape(log, commit, at, patch);
    }
}

/// Merging the same patch at the same place a second time, under a
/// watermark no lower, changes nothing and ends where it ended.
pub proof fn lemma_overlay_idempotent<P>(
    log: Seq<Entry<P>>,
    commit: int,
    later: int,
    at: int,
    patch: Seq<Entry<P>>,
)
    requires
        0 <= at,
        commit <= later,
    ensures
        ({
            let merged = overlay(log, commit, at, patch);
            &&& overlay(merged, later, at, patch) == merged
            &&& overlay_end(merged, later, at, patch) == overlay_end(log, commit, at, patch)
            &&& term_at(merged, at - 1) == term_at(log, at - 1)
            &&& at <= log.len() <==> at <= merged.len()
        }),
{
    if at <= log.len() {
        lemma_overlay_shape(log, commit, at, patch);
        lemma_agreement(log, at, patch);
        let merged = overlay(log, commit, at, patch);
        if barred(log, commit, at, patch) {
        } else {
            assert forall|j: int| 0 <= j < patch.len() implies (#[trigger] merged[at + j]).2 == patch[j].2 by {}
            lemma_agreement_is(merged, at, patch, patch.len() as int);
        }
        if at > 0 {
            assert(merged[at - 1] == log[at - 1]);
        }
    }
}

/// Whether two logs agree wherever they could: where both hold an entry of
/// the same term at one index, they hold the same entries up to that index.
pub open spec fn logs_match<P>(a: Seq<Entry<P>>, b: Seq<Entry<P>>) -> bool {
    forall|i: int, j: int|
        0 <= j <= i && i < a.len() && i < b.len() && (#[trigger] a[i]).2 == b[i].2 ==> #[trigger] a[j]
            == b[j]
}

/// Whether the request `(before, at, patch)` was cut from `source`: the patch
/// is a run of `source` from `at`, and `before` names the term that `source`
/// holds just before it.
pub open spec fn cut_from<P>(
    source: Seq<Entry<P>>,
    before: Option<Term>,
    at: int,
    patch: Seq<Entry<P>>,
) -> bool {
    &&& 0 <= at && at + patch.len() <= source.len()
    &&& before == term_at(source, at - 1)
    &&& patch == source.subrange(at, at + patch.len())
}

} // verus!
