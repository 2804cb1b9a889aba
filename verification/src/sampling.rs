//! The random choices of the rateless encoder, as functions of the numbers
//! drawn: the degree of a codeword, and the entries it combines.

use vstd::prelude::*;

verus! {

/// The sum of `weights`.
pub open spec fn total(weights: Seq<u64>) -> nat
    decreases weights.len(),
{
    if weights.len() == 0 {
        0
    } else {
        total(weights.drop_last()) + weights.last() as nat
    }
}

/// Whether `degree` is the degree that `draw` selects under `weights`:
/// degree `d` has the weight `weights[d - 1]`, and the draw, reduced to the
/// sum of the weights, falls into the share of `degree`.
pub open spec fn selects(weights: Seq<u64>, draw: u64, degree: int) -> bool {
    &&& 1 <= degree <= weights.len()
    &&& total(weights.take(degree - 1)) <= draw as nat % total(weights) < total(weights.take(degree))
}

/// A longer run of weights sums to no less.
pub proof fn lemma_total_grows(weights: Seq<u64>, i: int, j: int)
    requires
        0 <= i <= j <= weights.len(),
    ensures
        total(weights.take(i)) <= total(weights.take(j)),
    decreases j - i,
{
    if i < j {
        lemma_total_grows(weights, i, j - 1);
        assert(weights.take(j).drop_last() =~= weights.take(j - 1));
    }
}

/// The share a draw falls into is one and no other.
pub proof fn lemma_selects_one(weights: Seq<u64>, draw: u64, one: int, other: int)
    requires
        selects(weights, draw, one),
        selects(weights, draw, other),
    ensures
        one == other,
{
    if one < other {
        lemma_total_grows(weights, one, other - 1);
    }
    if other < one {
        lemma_total_grows(weights, other, one - 1);
    }
}

/// The degree that `draw` selects under `weights`; none where all weights
/// are zero.
pub fn degree_for(weights: &Vec<u64>, draw: u64) -> (degree: Option<usize>)
    ensures
        degree is None <==> total(weights@) == 0,
        degree matches Some(d) ==> selects(weights@, draw, d as int),
{
    let mut sum: u128 = 0;
    let mut i: usize = 0;
    while i < weights.len()
        invariant
            i <= weights.len(),
            sum == total(weights@.take(i as int)),
            sum <= i * 0xffff_ffff_ffff_ffff,
        decreases weights.len() - i,
    {
        assert(weights@.take(i + 1).drop_last() =~= weights@.take(i as int));
        sum = sum + weights[i] as u128;
        i += 1;
    }
    assert(weights@.take(weights.len() as int) =~= weights@);
    if sum == 0 {
        return None;
    }
    let target: u128 = draw as u128 % sum;
    let mut below: u128 = 0;
    let mut d: usize = 0;
    while d < weights.len() && below + weights[d] as u128 <= target
        invariant
            d <= weights.len(),
            below == total(weights@.take(d as int)),
            below <= target < sum,
            sum == total(weights@),
            below <= d * 0xffff_ffff_ffff_ffff,
        decreases weights.len() - d,
    {
        assert(weights@.take(d + 1).drop_last() =~= weights@.take(d as int));
        below = below + weights[d] as u128;
        d += 1;
    }
    assert(weights@.take(weights.len() as int) =~= weights@);
    assert(d < weights.len());
    assert(weights@.take(d + 1).drop_last() =~= weights@.take(d as int));
    Some(d + 1)
}

/// The numbers `0..count` after `rounds` rounds of dealing: round `k` swaps
/// the number at `k` with one at or after it, chosen by `draws[k]`.
pub open spec fn dealt(count: nat, draws: Seq<u64>, rounds: nat) -> Seq<usize>
    decreases rounds,
{
    if rounds == 0 {
        Seq::new(count, |i: int| i as usize)
    } else {
        let pool = dealt(count, draws, (rounds - 1) as nat);
        let at = rounds - 1;
        let pick = at + draws[at] as int % (count - at);
        pool.update(at, pool[pick]).update(pick, pool[at])
    }
}

/// Whether `pool` holds each of the numbers below its length once.
pub open spec fn shuffled(pool: Seq<usize>) -> bool {
    &&& pool.no_duplicates()
    &&& forall|i: int| 0 <= i < pool.len() ==> (#[trigger] pool[i]) < pool.len()
}

/// Dealing shuffles.
pub proof fn lemma_dealt(count: nat, draws: Seq<u64>, rounds: nat)
    requires
        rounds <= count <= usize::MAX,
        rounds <= draws.len(),
    ensures
        dealt(count, draws, rounds).len() == count,
        shuffled(dealt(count, draws, rounds)),
    decreases rounds,
{
    if rounds > 0 {
        lemma_dealt(count, draws, (rounds - 1) as nat);
        let pool = dealt(count, draws, (rounds - 1) as nat);
        let at = rounds - 1;
        let pick = at + draws[at] as int % (count - at);
        let next = dealt(count, draws, rounds);
        assert forall|i: int, j: int| 0 <= i < next.len() && 0 <= j < next.len() && i != j implies next[i]
            != next[j] by {
            let a = if i == at { pick } else if i == pick { at } else { i };
            let b = if j == at { pick } else if j == pick { at } else { j };
            assert(next[i] == pool[a]);
            assert(next[j] == pool[b]);
        }
        assert forall|i: int| 0 <= i < next.len() implies (#[trigger] next[i]) < next.len() by {
            let a = if i == at { pick } else if i == pick { at } else { i };
            assert(next[i] == pool[a]);
        }
    }
}

/// Picks `degree` of the numbers `0..count`, each at most once: the first
/// `degree` numbers after that many rounds of dealing by `draws`.
pub fn deal(count: usize, degree: usize, draws: &Vec<u64>) -> (picks: Vec<usize>)
    requires
        degree <= count,
        degree <= draws.len(),
    ensures
        picks@ == dealt(count as nat, draws@, degree as nat).take(degree as int),
        picks.len() == degree,
        picks@.no_duplicates(),
        forall|i: int| 0 <= i < picks.len() ==> picks[i] < count,
{
    let mut pool: Vec<usize> = Vec::new();
    let mut i: usize = 0;
    while i < count
        invariant
            i <= count,
            pool@ == Seq::new(i as nat, |j: int| j as usize),
        decreases count - i,
    {
        pool.push(i);
        assert(pool@ =~= Seq::new((i + 1) as nat, |j: int| j as usize));
        i += 1;
    }
    let mut k: usize = 0;
    while k < degree
        invariant
            k <= degree <= count,
            degree <= draws.len(),
            pool@ == dealt(count as nat, draws@, k as nat),
            pool.len() == count,
        decreases degree - k,
    {
        let room = (count - k) as u64;
        let pick = k + (draws[k] % room) as usize;
        let here = pool[k];
        let there = pool[pick];
        pool.set(k, there);
        pool.set(pick, here);
        k += 1;
    }
    proof {
        lemma_dealt(count as nat, draws@, degree as nat);
    }
    pool.truncate(degree);
    pool
}

} // verus!
