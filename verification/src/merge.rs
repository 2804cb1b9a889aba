//! From what peeling resolved to entries of the log: the longest run of the
//! leader's entries past the boundary whose payloads are known, and its merge
//! into the follower's log.

use vstd::prelude::*;
use crate::nums::{ProposalId, Term};
use crate::log::{
    agreement, barred, exact_clone, lemma_agreement, lemma_overlay_shape, overlay, overlay_end, shielded, Entry,
};
use crate::store::{Persistor, StoreView};
use core::ops::BitXor;
use crate::codeword::{
    combines, decoded, distinct_proposals, lemma_decoded, lemma_peeling_is_true, payloads, peeled_off, CodewordView,
};

verus! {

/// The proposal and the term of each entry of `entries`, in their order.
pub open spec fn names_of<P>(entries: Seq<Entry<P>>) -> Seq<(ProposalId, Term)> {
    Seq::new(entries.len(), |j: int| (entries[j].1, entries[j].2))
}

/// The payload that `resolved` holds for the proposal `id`: that of the
/// first pair for it.
pub open spec fn payload_of<P>(resolved: Seq<(ProposalId, P)>, id: ProposalId) -> Option<P>
    decreases resolved.len(),
{
    if resolved.len() == 0 {
        None
    } else if resolved[0].0 == id {
        Some(resolved[0].1)
    } else {
        payload_of(resolved.drop_first(), id)
    }
}

/// How many of `names`, from the first on without a gap, are resolved.
pub open spec fn ready_len<P>(names: Seq<(ProposalId, Term)>, resolved: Seq<(ProposalId, P)>) -> nat
    decreases names.len(),
{
    if names.len() > 0 && payload_of(resolved, names[0].0) is Some {
        1 + ready_len(names.drop_first(), resolved)
    } else {
        0
    }
}

/// The entries that are ready to be merged: for the longest run of `names`
/// from the first on that is resolved without a gap, the payload resolved,
/// the proposal and the term.
pub open spec fn ready<P>(names: Seq<(ProposalId, Term)>, resolved: Seq<(ProposalId, P)>) -> Seq<Entry<P>> {
    Seq::new(
        ready_len(names, resolved),
        |j: int| (payload_of(resolved, names[j].0)->0, names[j].0, names[j].1),
    )
}

/// A payload that `resolved` holds for a proposal stands in one of its
/// pairs.
pub proof fn lemma_payload_of<P>(resolved: Seq<(ProposalId, P)>, id: ProposalId)
    ensures
        payload_of(resolved, id) matches Some(payload) ==> exists|k: int|
            0 <= k < resolved.len() && #[trigger] resolved[k] == (id, payload),
        payload_of(resolved, id) is None ==> forall|k: int|
            0 <= k < resolved.len() ==> (#[trigger] resolved[k]).0 != id,
    decreases resolved.len(),
{
    if resolved.len() > 0 {
        let rest = resolved.drop_first();
        lemma_payload_of(rest, id);
        if resolved[0].0 != id {
            if payload_of(resolved, id) is Some {
                let payload = payload_of(resolved, id)->0;
                let k = choose|k: int| 0 <= k < rest.len() && #[trigger] rest[k] == (id, payload);
                assert(resolved[k + 1] == (id, payload));
            } else {
                assert forall|k: int| 0 <= k < resolved.len() implies (#[trigger] resolved[k]).0 != id by {
                    if k > 0 {
                        assert(rest[k - 1] == resolved[k]);
                    }
                }
            }
        } else {
            assert(resolved[0] == (id, resolved[0].1));
        }
    }
}

/// `ready_len` is the length of the longest run of names, from the first
/// on, that are all resolved.
pub proof fn lemma_ready_len<P>(names: Seq<(ProposalId, Term)>, resolved: Seq<(ProposalId, P)>)
    ensures
        ready_len(names, resolved) <= names.len(),
        forall|j: int| 0 <= j < ready_len(names, resolved) ==> payload_of(resolved, (#[trigger] names[j]).0) is Some,
        ready_len(names, resolved) < names.len() ==> payload_of(
            resolved,
            names[ready_len(names, resolved) as int].0,
        ) is None,
    decreases names.len(),
{
    if names.len() > 0 && payload_of(resolved, names[0].0) is Some {
        let rest = names.drop_first();
        lemma_ready_len(rest, resolved);
        let n = ready_len(names, resolved) as int;
        assert forall|j: int| 0 <= j < n implies payload_of(resolved, (#[trigger] names[j]).0) is Some by {
            if j > 0 {
                assert(rest[j - 1] == names[j]);
            }
        }
        if n < names.len() {
            assert(rest[n - 1] == names[n]);
        }
    }
}

/// A run of `n` resolved names that stops at an unresolved one or at the end
/// is the longest.
pub proof fn lemma_ready_len_is<P>(names: Seq<(ProposalId, Term)>, resolved: Seq<(ProposalId, P)>, n: int)
    requires
        0 <= n <= names.len(),
        forall|j: int| 0 <= j < n ==> payload_of(resolved, (#[trigger] names[j]).0) is Some,
        n == names.len() || payload_of(resolved, names[n].0) is None,
    ensures
        ready_len(names, resolved) == n,
    decreases names.len(),
{
    if n > 0 {
        let rest = names.drop_first();
        assert(payload_of(resolved, names[0].0) is Some);
        assert forall|j: int| 0 <= j < n - 1 implies payload_of(resolved, (#[trigger] rest[j]).0) is Some by {
            assert(rest[j] == names[j + 1]);
        }
        if n < names.len() {
            assert(rest[n - 1] == names[n]);
        }
        lemma_ready_len_is(rest, resolved, n - 1);
    }
}

/// Whether `source` holds each entry of `entries` under its proposal, with
/// its payload.
pub open spec fn held_in<P>(entries: Seq<Entry<P>>, source: Map<ProposalId, P>) -> bool {
    forall|j: int|
        0 <= j < entries.len() ==> source.contains_key((#[trigger] entries[j]).1) && source[entries[j].1]
            == entries[j].0
}

/// Entries with proposals of their own are held in their payloads.
pub proof fn lemma_held_in_payloads<P>(entries: Seq<Entry<P>>)
    requires
        distinct_proposals(entries),
    ensures
        held_in(entries, payloads(entries)),
{
    assert forall|j: int| 0 <= j < entries.len() implies payloads(entries).contains_key((#[trigger] entries[j]).1)
        && payloads(entries)[entries[j].1] == entries[j].0 by {
        let id = entries[j].1;
        let at = choose|i: int| 0 <= i < entries.len() && (#[trigger] entries[i]).1 == id;
        assert(entries[at].1 == entries[j].1);
    }
}

/// What is ready to be merged is a prefix of the leader's entries. Let
/// `source` hold each entry of `suffix`, and let every pair of `resolved` be
/// a proposal of `source` with its payload. Then the entries ready under the
/// names of `suffix` are the first entries of `suffix`, in their order; and
/// they are all of `suffix` where every proposal of `suffix` is resolved.
pub proof fn lemma_ready_is_prefix<P>(
    source: Map<ProposalId, P>,
    suffix: Seq<Entry<P>>,
    resolved: Seq<(ProposalId, P)>,
)
    requires
        held_in(suffix, source),
        forall|k: int|
            0 <= k < resolved.len() ==> source.contains_key((#[trigger] resolved[k]).0) && source[resolved[k].0]
                == resolved[k].1,
    ensures
        ready(names_of(suffix), resolved).is_prefix_of(suffix),
        (forall|j: int| 0 <= j < suffix.len() ==> payload_of(resolved, (#[trigger] suffix[j]).1) is Some) ==> ready(
            names_of(suffix),
            resolved,
        ) == suffix,
{
    let names = names_of(suffix);
    let made = ready(names, resolved);
    lemma_ready_len(names, resolved);
    assert forall|j: int| 0 <= j < made.len() implies #[trigger] made[j] == suffix[j] by {
        let id = suffix[j].1;
        assert(names[j].0 == id);
        lemma_payload_of(resolved, id);
        let payload = payload_of(resolved, id)->0;
        let k = choose|k: int| 0 <= k < resolved.len() && #[trigger] resolved[k] == (id, payload);
        assert(source[resolved[k].0] == payload);
    }
    assert(made =~= suffix.take(made.len() as int));
    if forall|j: int| 0 <= j < suffix.len() ==> payload_of(resolved, (#[trigger] suffix[j]).1) is Some {
        assert forall|j: int| 0 <= j < names.len() implies payload_of(resolved, (#[trigger] names[j]).0) is Some by {
            assert(names[j].0 == suffix[j].1);
        }
        lemma_ready_len_is(names, resolved, names.len() as int);
        assert(made =~= suffix);
    }
}

/// The payload that `resolved` holds for the proposal `id`.
pub fn lookup<P: Clone>(resolved: &Vec<(ProposalId, P)>, id: ProposalId) -> (payload: Option<P>)
    requires
        exact_clone::<P>(),
    ensures
        payload == payload_of(resolved@, id),
{
    let mut i: usize = 0;
    assert(resolved@.skip(0) =~= resolved@);
    while i < resolved.len()
        invariant
            exact_clone::<P>(),
            i <= resolved.len(),
            payload_of(resolved@, id) == payload_of(resolved@.skip(i as int), id),
        decreases resolved.len() - i,
    {
        assert(resolved@.skip(i as int).drop_first() =~= resolved@.skip(i + 1));
        assert(resolved@.skip(i as int)[0] == resolved@[i as int]);
        if resolved[i].0.0 == id.0 {
            let payload = resolved[i].1.clone();
            assert(cloned::<P>(resolved@[i as int].1, payload));
            return Some(payload);
        }
        i += 1;
    }
    assert(resolved@.skip(resolved.len() as int).len() == 0);
    None
}

/// A copy of the resolved pairs.
pub fn copy_pairs<P: Clone>(resolved: &Vec<(ProposalId, P)>) -> (copy: Vec<(ProposalId, P)>)
    requires
        exact_clone::<P>(),
    ensures
        copy@ == resolved@,
{
    let mut copy: Vec<(ProposalId, P)> = Vec::new();
    let mut i: usize = 0;
    while i < resolved.len()
        invariant
            exact_clone::<P>(),
            i <= resolved.len(),
            copy@ == resolved@.take(i as int),
        decreases resolved.len() - i,
    {
        let payload = resolved[i].1.clone();
        assert(cloned::<P>(resolved@[i as int].1, payload));
        copy.push((resolved[i].0, payload));
        assert(copy@ =~= resolved@.take(i + 1));
        i += 1;
    }
    assert(resolved@.take(resolved.len() as int) =~= resolved@);
    copy
}

/// The entries that are ready to be merged under `names`.
pub fn assemble<P: Clone>(names: &Vec<(ProposalId, Term)>, resolved: &Vec<(ProposalId, P)>) -> (patch: Vec<Entry<P>>)
    requires
        exact_clone::<P>(),
    ensures
        patch@ == ready(names@, resolved@),
{
    let mut patch: Vec<Entry<P>> = Vec::new();
    let mut j: usize = 0;
    let mut open = true;
    while open && j < names.len()
        invariant
            exact_clone::<P>(),
            j <= names.len(),
            patch.len() == j,
            forall|k: int| 0 <= k < j ==> payload_of(resolved@, (#[trigger] names@[k]).0) is Some,
            forall|k: int|
                0 <= k < j ==> #[trigger] patch@[k] == (payload_of(resolved@, names@[k].0)->0, names@[k].0, names@[k].1),
            !open ==> j < names.len() && payload_of(resolved@, names@[j as int].0) is None,
        decreases names.len() - j, if open { 1nat } else { 0nat },
    {
        match lookup(resolved, names[j].0) {
            Some(payload) => {
                patch.push((payload, names[j].0, names[j].1));
                j += 1;
            },
            None => {
                open = false;
            },
        }
    }
    proof {
        lemma_ready_len_is(names@, resolved@, j as int);
        assert(patch@ =~= ready(names@, resolved@));
    }
    patch
}

/// The log after the entries ready under `names` were merged at `at`.
pub open spec fn merged<P>(
    store: StoreView<P>,
    at: int,
    names: Seq<(ProposalId, Term)>,
    resolved: Seq<(ProposalId, P)>,
) -> Seq<Entry<P>> {
    overlay(store.log, store.commit as int, at, ready(names, resolved))
}

/// The index just past what was merged of the entries ready under `names`.
pub open spec fn merged_end<P>(
    store: StoreView<P>,
    at: int,
    names: Seq<(ProposalId, Term)>,
    resolved: Seq<(ProposalId, P)>,
) -> int {
    overlay_end(store.log, store.commit as int, at, ready(names, resolved))
}

/// Merges into the log, from position `at`, the entries that are ready under
/// `names`: the longest run of names from the first on whose payloads
/// `resolved` holds. Returns the index just past what was merged.
pub fn merge_resolved<P: Clone>(
    disk: &mut impl Persistor<P>,
    at: usize,
    names: &Vec<(ProposalId, Term)>,
    resolved: &Vec<(ProposalId, P)>,
) -> (end: usize)
    requires
        exact_clone::<P>(),
    ensures
        final(disk)@ == (StoreView { log: merged(old(disk)@, at as int, names@, resolved@), ..old(disk)@ }),
        end == merged_end(old(disk)@, at as int, names@, resolved@),
        end <= final(disk)@.log.len(),
{
    let patch = assemble(names, resolved);
    disk.append(at, patch)
}

/// Whether `resolved` names every proposal of `entries`.
pub open spec fn resolves<P>(resolved: Seq<(ProposalId, P)>, entries: Seq<Entry<P>>) -> bool {
    forall|j: int| 0 <= j < entries.len() ==> decoded(resolved).contains_key((#[trigger] entries[j]).1)
}

/// From codewords to entries. Let `source` hold the payload of every
/// proposal that codewords were made of, those of `suffix`, the leader's
/// entries past the boundary, among them; and let every codeword of a buffer
/// be true of `source`. Whatever is peeled off the buffer, the entries then
/// ready under the names of `suffix`, which are the entries merged, are the
/// first entries of `suffix` in their order; and they are all of `suffix`
/// where peeling resolves every proposal of it.
pub proof fn lemma_decoding_merges_prefix<P: BitXor<P, Output = P>>(
    source: Map<ProposalId, P>,
    suffix: Seq<Entry<P>>,
    buffer: Seq<CodewordView<P>>,
    resolved: Seq<(ProposalId, P)>,
)
    requires
        combines::<P>(),
        held_in(suffix, source),
        forall|c: int| 0 <= c < buffer.len() ==> (#[trigger] buffer[c]).holds_of(source),
        peeled_off(buffer, resolved),
    ensures
        ready(names_of(suffix), resolved).is_prefix_of(suffix),
        resolves(resolved, suffix) ==> ready(names_of(suffix), resolved) == suffix,
{
    lemma_peeling_is_true(buffer, resolved, source);
    lemma_ready_is_prefix(source, suffix, resolved);
    if resolves(resolved, suffix) {
        lemma_decoded(resolved);
        assert forall|j: int| 0 <= j < suffix.len() implies payload_of(resolved, (#[trigger] suffix[j]).1) is Some by {
            let id = suffix[j].1;
            assert(decoded(resolved).contains_key(id));
            let k = choose|k: int| 0 <= k < resolved.len() && #[trigger] resolved[k] == (id, decoded(resolved)[id]);
            lemma_payload_of(resolved, id);
            if payload_of(resolved, id) is None {
                assert(resolved[k].0 != id);
            }
        }
    }
}

/// From codewords into the log. Beyond what `lemma_decoding_merges_prefix`
/// asks for, let the follower's log reach the boundary `at`; let an entry of
/// the log that stands where an entry of `suffix` belongs, with the same
/// term, be that entry; and let the log hold nothing shielded by the commit
/// watermark that is of another term than `suffix` has it. Then merging
/// what peeling resolved leaves the log below the boundary as it was, puts
/// the first entries of `suffix`, as far as they are ready, in their places
/// from the boundary on, and ends just past them; where peeling resolves
/// every proposal of `suffix`, the log holds all of `suffix` from the boundary
/// on.
pub proof fn lemma_decoding_fills_log<P: BitXor<P, Output = P>>(
    store: StoreView<P>,
    at: int,
    source: Map<ProposalId, P>,
    suffix: Seq<Entry<P>>,
    buffer: Seq<CodewordView<P>>,
    resolved: Seq<(ProposalId, P)>,
)
    requires
        combines::<P>(),
        held_in(suffix, source),
        forall|c: int| 0 <= c < buffer.len() ==> (#[trigger] buffer[c]).holds_of(source),
        peeled_off(buffer, resolved),
        0 <= at <= store.log.len(),
        forall|j: int|
            0 <= j < suffix.len() && at + j < store.log.len() && (#[trigger] store.log[at + j]).2 == suffix[j].2
                ==> store.log[at + j] == suffix[j],
        forall|j: int|
            0 <= j < suffix.len() && at + j < shielded(store.log, store.commit as int) ==> (
            #[trigger] store.log[at + j]).2 == suffix[j].2,
    ensures
        ({
            let part = ready(names_of(suffix), resolved);
            let log = merged(store, at, names_of(suffix), resolved);
            let end = merged_end(store, at, names_of(suffix), resolved);
            &&& part.is_prefix_of(suffix)
            &&& end == at + part.len() && end <= log.len()
            &&& log.take(at) == store.log.take(at)
            &&& log.subrange(at, end) == part
            &&& resolves(resolved, suffix) ==> log.subrange(at, at + suffix.len()) == suffix
        }),
{
    lemma_decoding_merges_prefix(source, suffix, buffer, resolved);
    let part = ready(names_of(suffix), resolved);
    let commit = store.commit as int;
    lemma_overlay_shape(store.log, commit, at, part);
    let log = merged(store, at, names_of(suffix), resolved);
    let end = merged_end(store, at, names_of(suffix), resolved);
    let k = agreement(store.log, at, part) as int;
    lemma_agreement(store.log, at, part);
    assert forall|j: int| 0 <= j < part.len() implies #[trigger] part[j] == suffix[j] by {}
    if k < part.len() && at + k < shielded(store.log, commit) {
        assert(store.log[at + k].2 == suffix[k].2);
    }
    assert(!barred(store.log, commit, at, part));
    assert(log.take(at) =~= store.log.take(at));
    assert forall|j: int| 0 <= j < part.len() implies #[trigger] log.subrange(at, end)[j] == part[j] by {
        if j < k {
            assert(log[at + j] == store.log[at + j]);
            assert(store.log[at + j].2 == part[j].2);
        } else {
            assert(log[at + j] == part[j]);
        }
    }
    assert(log.subrange(at, end) =~= part);
}

} // verus!
