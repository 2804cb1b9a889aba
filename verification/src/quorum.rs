//! Majorities: the highest index that more than half of a cluster holds.

use vstd::prelude::*;

verus! {

/// How many of `acked` reach `n`.
pub open spec fn holders(acked: Seq<usize>, n: int) -> nat
    decreases acked.len(),
{
    if acked.len() == 0 {
        0
    } else {
        holders(acked.drop_last(), n) + if acked.last() >= n { 1nat } else { 0nat }
    }
}

/// Whether more than half of `acked` reach `n`.
pub open spec fn on_majority(acked: Seq<usize>, n: int) -> bool {
    2 * holders(acked, n) > acked.len()
}

/// Whether `n` is the highest index that more than half of `acked` reach.
pub open spec fn is_majority_index(acked: Seq<usize>, n: int) -> bool {
    on_majority(acked, n) && forall|m: int| m > n ==> !on_majority(acked, m)
}

/// The highest index that more than half of `acked` reach.
pub open spec fn majority_index(acked: Seq<usize>) -> int {
    choose|n: int| is_majority_index(acked, n)
}

/// No more of `acked` reach `n` than there are.
pub proof fn lemma_holders_bound(acked: Seq<usize>, n: int)
    ensures
        holders(acked, n) <= acked.len(),
    decreases acked.len(),
{
    if acked.len() > 0 {
        lemma_holders_bound(acked.drop_last(), n);
    }
}

/// Where all of `acked` reach `n`, all are counted.
pub proof fn lemma_holders_all(acked: Seq<usize>, n: int)
    requires
        forall|j: int| 0 <= j < acked.len() ==> acked[j] >= n,
    ensures
        holders(acked, n) == acked.len(),
    decreases acked.len(),
{
    if acked.len() > 0 {
        lemma_holders_all(acked.drop_last(), n);
    }
}

/// Where none is counted, none of `acked` reaches `n`.
pub proof fn lemma_holders_none(acked: Seq<usize>, n: int)
    requires
        holders(acked, n) == 0,
    ensures
        forall|j: int| 0 <= j < acked.len() ==> acked[j] < n,
    decreases acked.len(),
{
    if acked.len() > 0 {
        lemma_holders_none(acked.drop_last(), n);
        assert forall|j: int| 0 <= j < acked.len() implies acked[j] < n by {
            if j < acked.len() - 1 {
                assert(acked.drop_last()[j] == acked[j]);
            }
        }
    }
}

/// Two indices that the same members reach have the same count.
pub proof fn lemma_holders_same(acked: Seq<usize>, n: int, m: int)
    requires
        forall|j: int| 0 <= j < acked.len() ==> (acked[j] >= n <==> acked[j] >= m),
    ensures
        holders(acked, n) == holders(acked, m),
    decreases acked.len(),
{
    if acked.len() > 0 {
        let rest = acked.drop_last();
        assert forall|j: int| 0 <= j < rest.len() implies (rest[j] >= n <==> rest[j] >= m) by {
            assert(rest[j] == acked[j]);
        }
        lemma_holders_same(rest, n, m);
    }
}

/// Among the members that reach `n`, one holds the least.
pub proof fn lemma_lowest_holder(acked: Seq<usize>, n: int) -> (i: int)
    requires
        holders(acked, n) > 0,
    ensures
        0 <= i < acked.len(),
        acked[i] >= n,
        forall|j: int| 0 <= j < acked.len() && acked[j] >= n ==> acked[j] >= acked[i],
    decreases acked.len(),
{
    let rest = acked.drop_last();
    let top = acked.len() - 1;
    if holders(rest, n) > 0 {
        let k = lemma_lowest_holder(rest, n);
        let i = if acked[top] >= n && acked[top] < rest[k] { top } else { k };
        assert forall|j: int| 0 <= j < acked.len() && acked[j] >= n implies acked[j] >= acked[i] by {
            if j < top {
                assert(rest[j] == acked[j]);
            }
        }
        i
    } else {
        lemma_holders_none(rest, n);
        assert forall|j: int| 0 <= j < acked.len() && acked[j] >= n implies acked[j] >= acked[top] by {
            if j < top {
                assert(rest[j] == acked[j]);
            }
        }
        top
    }
}

/// There is one highest index that more than half reach, and no other.
pub proof fn lemma_majority_index_unique(acked: Seq<usize>, n: int)
    requires
        is_majority_index(acked, n),
    ensures
        majority_index(acked) == n,
{
    let c = majority_index(acked);
    assert(is_majority_index(acked, c));
}

/// How many of `acked` reach `n`.
pub fn count_holders(acked: &Vec<usize>, n: usize) -> (count: usize)
    ensures
        count == holders(acked@, n as int),
{
    let mut count: usize = 0;
    let mut i: usize = 0;
    while i < acked.len()
        invariant
            i <= acked.len(),
            count <= i,
            count == holders(acked@.take(i as int), n as int),
        decreases acked.len() - i,
    {
        assert(acked@.take(i + 1).drop_last() == acked@.take(i as int));
        if acked[i] >= n {
            count += 1;
        }
        i += 1;
    }
    assert(acked@.take(acked.len() as int) == acked@);
    count
}

/// The highest index that more than half of `acked` reach.
pub fn majority_match(acked: &Vec<usize>) -> (index: usize)
    requires
        acked.len() > 0,
    ensures
        is_majority_index(acked@, index as int),
        index == majority_index(acked@),
{
    let total = acked.len();
    let mut index: usize = 0;
    let mut i: usize = 0;
    proof {
        lemma_holders_all(acked@, 0);
    }
    while i < total
        invariant
            total == acked.len(),
            i <= total,
            on_majority(acked@, index as int),
            forall|j: int| 0 <= j < i && on_majority(acked@, acked@[j] as int) ==> acked@[j] <= index,
        decreases total - i,
    {
        let at = acked[i];
        let count = count_holders(acked, at);
        proof {
            lemma_holders_bound(acked@, at as int);
        }
        if count > total - count && at > index {
            index = at;
        }
        i += 1;
    }
    proof {
        assert forall|m: int| m > index implies !on_majority(acked@, m) by {
            if on_majority(acked@, m) {
                let k = lemma_lowest_holder(acked@, m);
                lemma_holders_same(acked@, m, acked@[k] as int);
            }
        }
        lemma_majority_index_unique(acked@, index as int);
    }
    index
}

} // verus!
