//! Codewords of the rateless dialect: payloads combined by XOR, tagged with
//! the proposals they combine, and the peeling that takes them apart.

use vstd::prelude::*;
use core::ops::BitXor;
use vstd::std_specs::ops::BitXorSpec;
use crate::nums::ProposalId;
use crate::log::{Entry, exact_clone};
use crate::lists::{lemma_without, lemma_without_once, without};

verus! {

/// Two payloads combined.
pub open spec fn mix<P: BitXor<P, Output = P>>(a: P, b: P) -> P {
    a.bitxor_spec(b)
}

/// Whether payloads combine as the dialect needs: any two can be combined,
/// in any order and grouping, and combining with the same payload twice
/// gives back what was there.
pub open spec fn combines<P: BitXor<P, Output = P>>() -> bool {
    &&& P::obeys_bitxor_spec()
    &&& forall|a: P, b: P| #[trigger] a.bitxor_req(b)
    &&& forall|a: P, b: P| #[trigger] mix(a, b) == mix(b, a)
    &&& forall|a: P, b: P, c: P| #[trigger] mix(mix(a, b), c) == mix(a, mix(b, c))
    &&& forall|a: P, b: P| #[trigger] mix(mix(a, b), b) == a
}

/// 64-bit words combine under XOR.
pub proof fn lemma_u64_combines()
    ensures
        combines::<u64>(),
{
    assert forall|a: u64, b: u64| #[trigger] mix(a, b) == mix(b, a) by {
        assert(a ^ b == b ^ a) by (bit_vector);
    }
    assert forall|a: u64, b: u64, c: u64| #[trigger] mix(mix(a, b), c) == mix(a, mix(b, c)) by {
        assert((a ^ b) ^ c == a ^ (b ^ c)) by (bit_vector);
    }
    assert forall|a: u64, b: u64| #[trigger] mix(mix(a, b), b) == a by {
        assert((a ^ b) ^ b == a) by (bit_vector);
    }
}

/// The payloads of `parts` combined, in their order. One payload stands for
/// itself.
pub open spec fn blend<P: BitXor<P, Output = P>>(parts: Seq<P>) -> P
    decreases parts.len(),
{
    if parts.len() <= 1 {
        parts[0]
    } else {
        mix(blend(parts.drop_last()), parts.last())
    }
}

/// A codeword as a mathematical value.
#[verifier::ext_equal]
pub struct CodewordView<P> {
    /// The combined payload.
    pub data: P,
    /// The proposals whose payloads are combined.
    pub symb: Seq<ProposalId>,
}

/// The payloads of some entries combined into one, and the identifiers of
/// the proposals that the entries carry.
#[derive(Debug, PartialEq, Eq, PartialOrd, Ord)]
pub struct Codeword<Proposal> {
    data: Proposal,
    symb: Vec<ProposalId>,
}

impl<Proposal> View for Codeword<Proposal> {
    type V = CodewordView<Proposal>;

    closed spec fn view(&self) -> CodewordView<Proposal> {
        CodewordView { data: self.data, symb: self.symb@ }
    }
}

/// The payloads that `source` holds for the proposals `symb`.
pub open spec fn drawn<P>(source: Map<ProposalId, P>, symb: Seq<ProposalId>) -> Seq<P> {
    Seq::new(symb.len(), |i: int| source[symb[i]])
}

impl<P: BitXor<P, Output = P>> CodewordView<P> {
    /// Whether the codeword is true of `source`: it names proposals of
    /// `source`, each once, and its payload is theirs combined.
    pub open spec fn holds_of(self, source: Map<ProposalId, P>) -> bool {
        &&& self.symb.no_duplicates()
        &&& forall|i: int| 0 <= i < self.symb.len() ==> source.contains_key(#[trigger] self.symb[i])
        &&& self.symb.len() > 0 ==> self.data == blend(drawn(source, self.symb))
    }

    /// The codeword after the proposal `id`, known to carry `payload`, was
    /// struck out of it.
    pub open spec fn struck(self, id: ProposalId, payload: P) -> Self {
        if self.symb.contains(id) {
            CodewordView { data: mix(self.data, payload), symb: without(self.symb, id) }
        } else {
            self
        }
    }

    /// The codeword after each of `resolved` was struck out of it, one after
    /// the other.
    pub open spec fn struck_all(self, resolved: Seq<(ProposalId, P)>) -> Self
        decreases resolved.len(),
    {
        if resolved.len() == 0 {
            self
        } else {
            self.struck_all(resolved.drop_last()).struck(resolved.last().0, resolved.last().1)
        }
    }
}

/// The codeword that combines the entries of `entries` at `picks`.
pub open spec fn combined<P: BitXor<P, Output = P>>(entries: Seq<Entry<P>>, picks: Seq<usize>) -> CodewordView<P> {
    CodewordView {
        data: blend(Seq::new(picks.len(), |i: int| entries[picks[i] as int].0)),
        symb: Seq::new(picks.len(), |i: int| entries[picks[i] as int].1),
    }
}

/// Taking one payload out of a combination of two or more and combining it
/// back in gives the combination.
pub proof fn lemma_blend_remove<P: BitXor<P, Output = P>>(parts: Seq<P>, at: int)
    requires
        combines::<P>(),
        parts.len() >= 2,
        0 <= at < parts.len(),
    ensures
        blend(parts) == mix(blend(parts.remove(at)), parts[at]),
    decreases parts.len(),
{
    let rest = parts.drop_last();
    let last = parts.last();
    if at == parts.len() - 1 {
        assert(parts.remove(at) =~= rest);
    } else if parts.len() == 2 {
        assert(parts.remove(at) =~= seq![last]);
        assert(rest =~= seq![parts[0]]);
        assert(blend(rest) == parts[0]);
        assert(blend(parts) == mix(parts[0], last));
        assert(blend(parts.remove(at)) == last);
    } else {
        lemma_blend_remove(rest, at);
        let inner = blend(rest.remove(at));
        assert(parts.remove(at) =~= rest.remove(at).push(last));
        assert(parts.remove(at).drop_last() =~= rest.remove(at));
        assert(blend(parts.remove(at)) == mix(inner, last));
        assert(blend(parts) == mix(mix(inner, parts[at]), last));
        assert(mix(mix(inner, parts[at]), last) == mix(inner, mix(parts[at], last)));
        assert(mix(parts[at], last) == mix(last, parts[at]));
        assert(mix(mix(inner, last), parts[at]) == mix(inner, mix(last, parts[at])));
    }
}

/// Striking a proposal out of a codeword that is true of `source`, with the
/// payload that `source` holds for it, leaves a codeword that is true of
/// `source`.
pub proof fn lemma_struck_true<P: BitXor<P, Output = P>>(
    word: CodewordView<P>,
    source: Map<ProposalId, P>,
    id: ProposalId,
)
    requires
        combines::<P>(),
        word.holds_of(source),
    ensures
        word.struck(id, source[id]).holds_of(source),
{
    if word.symb.contains(id) {
        let at = choose|i: int| 0 <= i < word.symb.len() && word.symb[i] == id;
        let left = without(word.symb, id);
        lemma_without_once(word.symb, id, at);
        assert(left == word.symb.remove(at));
        assert(left.no_duplicates()) by {
            assert forall|i: int, j: int| 0 <= i < left.len() && 0 <= j < left.len() && i != j implies left[i]
                != left[j] by {
                let a = if i < at { i } else { i + 1 };
                let b = if j < at { j } else { j + 1 };
                assert(left[i] == word.symb[a]);
                assert(left[j] == word.symb[b]);
            }
        }
        assert forall|i: int| 0 <= i < left.len() implies source.contains_key(#[trigger] left[i]) by {
            let a = if i < at { i } else { i + 1 };
            assert(left[i] == word.symb[a]);
        }
        if left.len() > 0 {
            let parts = drawn(source, word.symb);
            assert(drawn(source, left) =~= parts.remove(at));
            lemma_blend_remove(parts, at);
            assert(parts[at] == source[id]);
            assert(mix(word.data, source[id]) == blend(drawn(source, left)));
        }
    }
}

impl<Proposal: Clone + BitXor<Proposal, Output = Proposal>> Codeword<Proposal> {
    /// A codeword of `data` for the proposals `symb`.
    pub fn new(data: Proposal, symb: Vec<ProposalId>) -> (word: Self)
        ensures
            word@ == (CodewordView { data, symb: symb@ }),
    {
        Self { data, symb }
    }

    /// The combined payload.
    pub fn data(&self) -> (data: &Proposal)
        ensures
            *data == self@.data,
    {
        &self.data
    }

    /// The proposals whose payloads are combined.
    pub fn symb(&self) -> (symb: &Vec<ProposalId>)
        ensures
            symb@ == self@.symb,
    {
        &self.symb
    }

    /// Combines the entries of `entries` at `picks` into one codeword.
    pub fn encode(entries: &Vec<Entry<Proposal>>, picks: &Vec<usize>) -> (word: Self)
        requires
            combines::<Proposal>(),
            exact_clone::<Proposal>(),
            picks.len() > 0,
            forall|i: int| 0 <= i < picks.len() ==> picks[i] < entries.len(),
        ensures
            word@ == combined(entries@, picks@),
    {
        let ghost parts = Seq::new(picks@.len(), |i: int| entries@[picks@[i] as int].0);
        let ghost ids = Seq::new(picks@.len(), |i: int| entries@[picks@[i] as int].1);
        let mut data = entries[picks[0]].0.clone();
        assert(cloned::<Proposal>(entries@[picks@[0] as int].0, data));
        let mut symb: Vec<ProposalId> = Vec::new();
        symb.push(entries[picks[0]].1);
        assert(parts.take(1) =~= seq![parts[0]]);
        let mut i: usize = 1;
        while i < picks.len()
            invariant
                combines::<Proposal>(),
                exact_clone::<Proposal>(),
                1 <= i <= picks.len(),
                forall|i: int| 0 <= i < picks.len() ==> picks[i] < entries.len(),
                parts == Seq::new(picks@.len(), |i: int| entries@[picks@[i] as int].0),
                ids == Seq::new(picks@.len(), |i: int| entries@[picks@[i] as int].1),
                data == blend(parts.take(i as int)),
                symb@ == ids.take(i as int),
            decreases picks.len() - i,
        {
            let next = entries[picks[i]].0.clone();
            assert(cloned::<Proposal>(entries@[picks@[i as int] as int].0, next));
            assert(parts.take(i + 1).drop_last() =~= parts.take(i as int));
            assert(parts.take(i + 1).last() == next);
            data = data ^ next;
            symb.push(entries[picks[i]].1);
            assert(symb@ =~= ids.take(i + 1));
            i += 1;
        }
        assert(parts.take(picks.len() as int) =~= parts);
        assert(ids.take(picks.len() as int) =~= ids);
        Self { data, symb }
    }

    /// Strikes the proposal `id`, known to carry `payload`, out of the
    /// codeword: where the codeword names it, the payload is combined into
    /// the codeword's and the name is dropped.
    pub fn strike(&mut self, id: ProposalId, payload: &Proposal)
        requires
            combines::<Proposal>(),
            exact_clone::<Proposal>(),
        ensures
            final(self)@ == old(self)@.struck(id, *payload),
    {
        let mut kept: Vec<ProposalId> = Vec::new();
        let mut i: usize = 0;
        while i < self.symb.len()
            invariant
                i <= self.symb.len(),
                *self == *old(self),
                kept@ == without(self.symb@.take(i as int), id),
            decreases self.symb.len() - i,
        {
            assert(self.symb@.take(i + 1).drop_last() =~= self.symb@.take(i as int));
            if self.symb[i].0 != id.0 {
                kept.push(self.symb[i]);
            }
            i += 1;
        }
        assert(self.symb@.take(self.symb.len() as int) =~= self.symb@);
        proof {
            lemma_without(self.symb@, id);
        }
        if kept.len() < self.symb.len() {
            let mine = self.data.clone();
            let theirs = payload.clone();
            assert(cloned::<Proposal>(self.data, mine));
            assert(cloned::<Proposal>(*payload, theirs));
            self.data = mine ^ theirs;
            self.symb = kept;
        }
    }
}

impl<Proposal: Clone + BitXor<Proposal, Output = Proposal>> Clone for Codeword<Proposal> {
    /// A codeword with the same contents, where payloads clone exactly.
    fn clone(&self) -> (copy: Self)
        ensures
            exact_clone::<Proposal>() ==> copy@ == self@,
    {
        let data = self.data.clone();
        assert(cloned::<Proposal>(self.data, data));
        let mut symb: Vec<ProposalId> = Vec::new();
        let mut i: usize = 0;
        while i < self.symb.len()
            invariant
                i <= self.symb.len(),
                symb@ == self.symb@.take(i as int),
            decreases self.symb.len() - i,
        {
            symb.push(self.symb[i]);
            assert(symb@ =~= self.symb@.take(i + 1));
            i += 1;
        }
        assert(self.symb@.take(self.symb.len() as int) =~= self.symb@);
        Self { data, symb }
    }
}

/// The codewords of a buffer as mathematical values.
pub open spec fn views<P>(buffer: Seq<Codeword<P>>) -> Seq<CodewordView<P>> {
    Seq::new(buffer.len(), |i: int| buffer[i]@)
}

/// Each codeword of `buffer` after `resolved` was struck out of it.
pub open spec fn struck_each<P: BitXor<P, Output = P>>(
    buffer: Seq<CodewordView<P>>,
    resolved: Seq<(ProposalId, P)>,
) -> Seq<CodewordView<P>> {
    Seq::new(buffer.len(), |i: int| buffer[i].struck_all(resolved))
}

/// The codewords of `buffer` that still name a proposal, in their order.
pub open spec fn live<P>(buffer: Seq<CodewordView<P>>) -> Seq<CodewordView<P>>
    decreases buffer.len(),
{
    if buffer.len() == 0 {
        buffer
    } else if buffer.last().symb.len() == 0 {
        live(buffer.drop_last())
    } else {
        live(buffer.drop_last()).push(buffer.last())
    }
}

/// How many names the codewords of `buffer` hold, all told.
pub open spec fn weight<P>(buffer: Seq<CodewordView<P>>) -> nat
    decreases buffer.len(),
{
    if buffer.len() == 0 {
        0
    } else {
        weight(buffer.drop_last()) + buffer.last().symb.len()
    }
}

/// Whether the codeword `buffer[at]`, once the first `k` of `resolved` are
/// struck out of it, names the proposal of `resolved[k]` alone and holds its
/// payload.
pub open spec fn shown_by<P: BitXor<P, Output = P>>(
    buffer: Seq<CodewordView<P>>,
    at: int,
    resolved: Seq<(ProposalId, P)>,
    k: int,
) -> bool {
    &&& 0 <= at < buffer.len()
    &&& buffer[at].struck_all(resolved.take(k)) == (CodewordView {
        data: resolved[k].1,
        symb: seq![resolved[k].0],
    })
}

/// Whether some codeword of `buffer` shows `resolved[k]`, once the pairs
/// before it are struck out.
pub open spec fn read_off<P: BitXor<P, Output = P>>(
    buffer: Seq<CodewordView<P>>,
    resolved: Seq<(ProposalId, P)>,
    k: int,
) -> bool {
    exists|at: int| #[trigger] shown_by(buffer, at, resolved, k)
}

/// Whether `resolved` was peeled off `buffer`: each pair was read off a
/// codeword that named one proposal alone, once the pairs before it were
/// struck out.
pub open spec fn peeled_off<P: BitXor<P, Output = P>>(
    buffer: Seq<CodewordView<P>>,
    resolved: Seq<(ProposalId, P)>,
) -> bool {
    forall|k: int| 0 <= k < resolved.len() ==> #[trigger] read_off(buffer, resolved, k)
}

/// Codewords that lose names, one of them at least one, weigh less.
pub proof fn lemma_weight_falls<P>(before: Seq<CodewordView<P>>, after: Seq<CodewordView<P>>, at: int)
    requires
        before.len() == after.len(),
        forall|i: int| 0 <= i < before.len() ==> (#[trigger] after[i]).symb.len() <= before[i].symb.len(),
        0 <= at < before.len(),
        after[at].symb.len() < before[at].symb.len(),
    ensures
        weight(after) < weight(before),
    decreases before.len(),
{
    let top = before.len() - 1;
    if at < top {
        assert(after.drop_last()[at] == after[at]);
        assert forall|i: int| 0 <= i < top implies (#[trigger] after.drop_last()[i]).symb.len()
            <= before.drop_last()[i].symb.len() by {
            assert(after.drop_last()[i] == after[i]);
        }
        lemma_weight_falls(before.drop_last(), after.drop_last(), at);
        assert(after[top].symb.len() <= before[top].symb.len());
    } else {
        lemma_weight_never_rises(before.drop_last(), after.drop_last());
    }
}

/// Codewords that lose names weigh no more.
pub proof fn lemma_weight_never_rises<P>(before: Seq<CodewordView<P>>, after: Seq<CodewordView<P>>)
    requires
        before.len() == after.len(),
        forall|i: int| 0 <= i < before.len() ==> (#[trigger] after[i]).symb.len() <= before[i].symb.len(),
    ensures
        weight(after) <= weight(before),
    decreases before.len(),
{
    if before.len() > 0 {
        let top = before.len() - 1;
        assert forall|i: int| 0 <= i < top implies (#[trigger] after.drop_last()[i]).symb.len()
            <= before.drop_last()[i].symb.len() by {
            assert(after.drop_last()[i] == after[i]);
        }
        lemma_weight_never_rises(before.drop_last(), after.drop_last());
        assert(after[top].symb.len() <= before[top].symb.len());
    }
}

/// What is left after peeling holds no codeword without a name, and none
/// with one name where the struck buffer held none.
pub proof fn lemma_live<P>(buffer: Seq<CodewordView<P>>)
    ensures
        forall|i: int| 0 <= i < live(buffer).len() ==> (#[trigger] live(buffer)[i]).symb.len() > 0,
        forall|i: int| 0 <= i < live(buffer).len() ==> buffer.contains(#[trigger] live(buffer)[i]),
    decreases buffer.len(),
{
    if buffer.len() > 0 {
        let rest = buffer.drop_last();
        lemma_live(rest);
        assert forall|i: int| 0 <= i < live(buffer).len() implies buffer.contains(
            #[trigger] live(buffer)[i],
        ) by {
            if i < live(rest).len() {
                assert(rest.contains(live(rest)[i]));
                let j = choose|j: int| 0 <= j < rest.len() && rest[j] == live(rest)[i];
                assert(buffer[j] == live(buffer)[i]);
            } else {
                assert(buffer[buffer.len() - 1] == live(buffer)[i]);
            }
        }
    }
}

/// Peels a buffer of codewords. While a codeword names one proposal alone,
/// its payload is that proposal's: the pair is resolved and struck out of
/// every codeword. Returns the resolved pairs, in the order of resolving,
/// and the codewords that still name a proposal, each of them two or more.
pub fn peel<Proposal: Clone + BitXor<Proposal, Output = Proposal>>(buffer: Vec<Codeword<Proposal>>) -> (out: (
    Vec<(ProposalId, Proposal)>,
    Vec<Codeword<Proposal>>,
))
    requires
        combines::<Proposal>(),
        exact_clone::<Proposal>(),
    ensures
        peeled_off(views(buffer@), out.0@),
        views(out.1@) == live(struck_each(views(buffer@), out.0@)),
        forall|i: int| 0 <= i < out.1.len() ==> (#[trigger] out.1[i])@.symb.len() >= 2,
{
    let ghost start = views(buffer@);
    let mut work = buffer;
    let mut resolved: Vec<(ProposalId, Proposal)> = Vec::new();
    let mut more = true;
    while more
        invariant
            combines::<Proposal>(),
            exact_clone::<Proposal>(),
            views(work@) == struck_each(start, resolved@),
            peeled_off(start, resolved@),
            !more ==> forall|i: int| 0 <= i < work.len() ==> (#[trigger] work[i])@.symb.len() != 1,
        decreases weight(views(work@)), if more { 1nat } else { 0nat },
    {
        let mut at: usize = 0;
        while at < work.len() && work[at].symb.len() != 1
            invariant
                at <= work.len(),
                forall|i: int| 0 <= i < at ==> (#[trigger] work[i])@.symb.len() != 1,
            decreases work.len() - at,
        {
            at += 1;
        }
        if at == work.len() {
            more = false;
        } else {
            let id = work[at].symb[0];
            let payload = work[at].data.clone();
            let copy = payload.clone();
            assert(cloned::<Proposal>(work@[at as int]@.data, payload));
            assert(cloned::<Proposal>(payload, copy));
            let ghost before = views(work@);
            let ghost earlier = resolved@;
            resolved.push((id, copy));
            proof {
                assert(resolved@.drop_last() =~= earlier);
                assert(before[at as int] == start[at as int].struck_all(earlier));
                assert(before[at as int].symb =~= seq![id]);
                assert forall|k: int| 0 <= k < resolved@.len() implies #[trigger] read_off(
                    start,
                    resolved@,
                    k,
                ) by {
                    if k < earlier.len() {
                        assert(read_off(start, earlier, k));
                        let i = choose|i: int| #[trigger] shown_by(start, i, earlier, k);
                        assert(earlier.take(k) =~= resolved@.take(k));
                        assert(shown_by(start, i, resolved@, k));
                    } else {
                        assert(resolved@.take(k) =~= earlier);
                        assert(shown_by(start, at as int, resolved@, k));
                    }
                }
            }
            let mut j: usize = 0;
            while j < work.len()
                invariant
                    combines::<Proposal>(),
                    exact_clone::<Proposal>(),
                    j <= work.len(),
                    work.len() == before.len(),
                    before.len() == start.len(),
                    before == struck_each(start, earlier),
                    resolved@.drop_last() == earlier,
                    resolved@.len() == earlier.len() + 1,
                    resolved@.last() == (id, payload),
                    forall|i: int| 0 <= i < j ==> (#[trigger] work[i])@ == before[i].struck(id, payload),
                    forall|i: int| j <= i < work.len() ==> (#[trigger] work[i])@ == before[i],
                decreases work.len() - j,
            {
                work[j].strike(id, &payload);
                j += 1;
            }
            proof {
                let after = views(work@);
                assert(after =~= struck_each(start, resolved@));
                assert forall|i: int| 0 <= i < before.len() implies (#[trigger] after[i]).symb.len()
                    <= before[i].symb.len() by {
                    lemma_without(before[i].symb, id);
                }
                assert(before[at as int].symb[0] == id);
                lemma_without(before[at as int].symb, id);
                lemma_weight_falls(before, after, at as int);
            }
        }
    }
    let mut rest: Vec<Codeword<Proposal>> = Vec::new();
    let mut i: usize = 0;
    let ghost done = views(work@);
    while i < work.len()
        invariant
            exact_clone::<Proposal>(),
            i <= work.len(),
            done == views(work@),
            views(rest@) == live(done.take(i as int)),
        decreases work.len() - i,
    {
        assert(done.take(i + 1).drop_last() =~= done.take(i as int));
        if work[i].symb.len() > 0 {
            let word = work[i].clone();
            let ghost was = views(rest@);
            rest.push(word);
            assert(views(rest@) =~= was.push(work[i as int]@));
        }
        i += 1;
    }
    proof {
        assert(done.take(work.len() as int) =~= done);
        lemma_live(done);
        assert forall|i: int| 0 <= i < rest.len() implies (#[trigger] rest[i])@.symb.len() >= 2 by {
            assert(views(rest@)[i] == rest[i]@);
            assert(done.contains(live(done)[i]));
            let j = choose|j: int| 0 <= j < done.len() && done[j] == live(done)[i];
            assert(work[j]@ == done[j]);
        }
    }
    (resolved, rest)
}

/// Peeling tells the truth. Where every codeword of a buffer is true of
/// `source`, every pair peeled off it is a proposal of `source` with its
/// payload, and every codeword stays true of `source` with the pairs struck
/// out.
pub proof fn lemma_peeling_is_true<P: BitXor<P, Output = P>>(
    buffer: Seq<CodewordView<P>>,
    resolved: Seq<(ProposalId, P)>,
    source: Map<ProposalId, P>,
)
    requires
        combines::<P>(),
        forall|i: int| 0 <= i < buffer.len() ==> (#[trigger] buffer[i]).holds_of(source),
        peeled_off(buffer, resolved),
    ensures
        forall|k: int|
            0 <= k < resolved.len() ==> source.contains_key((#[trigger] resolved[k]).0) && source[resolved[k].0]
                == resolved[k].1,
        forall|i: int| 0 <= i < buffer.len() ==> (#[trigger] buffer[i]).struck_all(resolved).holds_of(source),
    decreases resolved.len(),
{
    if resolved.len() > 0 {
        let earlier = resolved.drop_last();
        let top = resolved.len() - 1;
        assert forall|k: int| 0 <= k < earlier.len() implies #[trigger] read_off(buffer, earlier, k) by {
            assert(read_off(buffer, resolved, k));
            let i = choose|i: int| #[trigger] shown_by(buffer, i, resolved, k);
            assert(earlier.take(k) =~= resolved.take(k));
            assert(shown_by(buffer, i, earlier, k));
        }
        lemma_peeling_is_true(buffer, earlier, source);
        assert(read_off(buffer, resolved, top));
        let at = choose|at: int| #[trigger] shown_by(buffer, at, resolved, top);
        assert(resolved.take(top) =~= earlier);
        let word = buffer[at].struck_all(earlier);
        assert(word.holds_of(source));
        assert(word.symb[0] == resolved[top].0);
        assert(drawn(source, word.symb) =~= seq![source[resolved[top].0]]);
        assert(source[resolved[top].0] == resolved[top].1);
        assert forall|k: int| 0 <= k < resolved.len() implies source.contains_key(
            (#[trigger] resolved[k]).0,
        ) && source[resolved[k].0] == resolved[k].1 by {
            if k < top {
                assert(earlier[k] == resolved[k]);
            }
        }
        assert forall|i: int| 0 <= i < buffer.len() implies (#[trigger] buffer[i]).struck_all(
            resolved,
        ).holds_of(source) by {
            lemma_struck_true(buffer[i].struck_all(earlier), source, resolved[top].0);
        }
    }
}

/// The payload of each proposal in `entries`.
pub open spec fn payloads<P>(entries: Seq<Entry<P>>) -> Map<ProposalId, P> {
    Map::new(
        |id: ProposalId| exists|i: int| 0 <= i < entries.len() && (#[trigger] entries[i]).1 == id,
        |id: ProposalId| entries[choose|i: int| 0 <= i < entries.len() && (#[trigger] entries[i]).1 == id].0,
    )
}

/// Whether every entry of `entries` carries a proposal of its own.
pub open spec fn distinct_proposals<P>(entries: Seq<Entry<P>>) -> bool {
    forall|i: int, j: int|
        0 <= i < entries.len() && 0 <= j < entries.len() && i != j ==> (#[trigger] entries[i]).1
            != (#[trigger] entries[j]).1
}

/// The proposals that `resolved` decodes, each with its payload; of two
/// pairs for one proposal the later counts.
pub open spec fn decoded<P>(resolved: Seq<(ProposalId, P)>) -> Map<ProposalId, P>
    decreases resolved.len(),
{
    if resolved.len() == 0 {
        Map::empty()
    } else {
        decoded(resolved.drop_last()).insert(resolved.last().0, resolved.last().1)
    }
}

/// What `decoded` holds: the proposals of `resolved`, and no other.
pub proof fn lemma_decoded<P>(resolved: Seq<(ProposalId, P)>)
    ensures
        forall|k: int| 0 <= k < resolved.len() ==> decoded(resolved).contains_key((#[trigger] resolved[k]).0),
        forall|id: ProposalId| #[trigger]
            decoded(resolved).contains_key(id) ==> exists|k: int|
                0 <= k < resolved.len() && #[trigger] resolved[k] == (id, decoded(resolved)[id]),
    decreases resolved.len(),
{
    if resolved.len() > 0 {
        let earlier = resolved.drop_last();
        let top = resolved.len() - 1;
        lemma_decoded(earlier);
        assert forall|k: int| 0 <= k < resolved.len() implies decoded(resolved).contains_key(
            (#[trigger] resolved[k]).0,
        ) by {
            if k < top {
                assert(earlier[k] == resolved[k]);
            }
        }
        assert forall|id: ProposalId| #[trigger] decoded(resolved).contains_key(id) implies exists|k: int|
            0 <= k < resolved.len() && #[trigger] resolved[k] == (id, decoded(resolved)[id]) by {
            if id == resolved[top].0 {
                assert(resolved[top] == (id, decoded(resolved)[id]));
            } else {
                let k = choose|k: int| 0 <= k < earlier.len() && #[trigger] earlier[k] == (id, decoded(earlier)[id]);
                assert(resolved[k] == (id, decoded(resolved)[id]));
            }
        }
    }
}

/// A codeword combined from entries with proposals of their own, each
/// picked once, is true of those entries.
pub proof fn lemma_combined_true<P: BitXor<P, Output = P>>(entries: Seq<Entry<P>>, picks: Seq<usize>)
    requires
        distinct_proposals(entries),
        picks.no_duplicates(),
        forall|i: int| 0 <= i < picks.len() ==> picks[i] < entries.len(),
    ensures
        combined(entries, picks).holds_of(payloads(entries)),
{
    let word = combined(entries, picks);
    let source = payloads(entries);
    assert forall|i: int| 0 <= i < word.symb.len() implies source.contains_key(#[trigger] word.symb[i])
        && source[word.symb[i]] == entries[picks[i] as int].0 by {
        assert(entries[picks[i] as int].1 == word.symb[i]);
    }
    assert(drawn(source, word.symb) =~= Seq::new(picks.len(), |i: int| entries[picks[i] as int].0));
}

/// The rateless round trip. Let a buffer hold codewords, each combined from
/// entries of `entries` picked once, where every entry carries a proposal of
/// its own. Whatever is peeled off the buffer decodes to entries of
/// `entries`; and where it decodes every proposal of `entries`, it decodes
/// exactly the payloads of `entries`.
pub proof fn lemma_round_trip<P: BitXor<P, Output = P>>(
    entries: Seq<Entry<P>>,
    picks: Seq<Seq<usize>>,
    buffer: Seq<CodewordView<P>>,
    resolved: Seq<(ProposalId, P)>,
)
    requires
        combines::<P>(),
        distinct_proposals(entries),
        buffer.len() == picks.len(),
        forall|c: int| 0 <= c < picks.len() ==> (#[trigger] picks[c]).no_duplicates(),
        forall|c: int, i: int|
            0 <= c < picks.len() && 0 <= i < picks[c].len() ==> (#[trigger] picks[c][i]) < entries.len(),
        forall|c: int| 0 <= c < buffer.len() ==> #[trigger] buffer[c] == combined(entries, picks[c]),
        peeled_off(buffer, resolved),
    ensures
        decoded(resolved).submap_of(payloads(entries)),
        payloads(entries).dom().subset_of(decoded(resolved).dom()) ==> decoded(resolved) == payloads(entries),
{
    let source = payloads(entries);
    assert forall|c: int| 0 <= c < buffer.len() implies (#[trigger] buffer[c]).holds_of(source) by {
        lemma_combined_true(entries, picks[c]);
    }
    lemma_peeling_is_true(buffer, resolved, source);
    lemma_decoded(resolved);
    assert forall|id: ProposalId| #[trigger] decoded(resolved).contains_key(id) implies source.contains_key(id)
        && decoded(resolved)[id] == source[id] by {
        let k = choose|k: int| 0 <= k < resolved.len() && #[trigger] resolved[k] == (id, decoded(resolved)[id]);
        assert(source.contains_key(resolved[k].0));
    }
    if source.dom().subset_of(decoded(resolved).dom()) {
        assert(decoded(resolved) =~= source);
    }
}

} // verus!
