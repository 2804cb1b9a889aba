//! A list with one value taken out.

use vstd::prelude::*;

verus! {

/// The members of `list` other than `out`, in their order.
pub open spec fn without<T>(list: Seq<T>, out: T) -> Seq<T>
    decreases list.len(),
{
    if list.len() == 0 {
        list
    } else if list.last() == out {
        without(list.drop_last(), out)
    } else {
        without(list.drop_last(), out).push(list.last())
    }
}

/// `without` leaves a list that does not hold `out` as it is, and makes one
/// that holds it shorter.
pub proof fn lemma_without<T>(list: Seq<T>, out: T)
    ensures
        without(list, out).len() <= list.len(),
        !list.contains(out) ==> without(list, out) == list,
        list.contains(out) ==> without(list, out).len() < list.len(),
    decreases list.len(),
{
    if list.len() > 0 {
        let rest = list.drop_last();
        lemma_without(rest, out);
        if !list.contains(out) {
            if rest.contains(out) {
                let i = choose|i: int| 0 <= i < rest.len() && rest[i] == out;
                assert(list[i] == out);
            }
            assert(list[list.len() - 1] != out);
            assert(without(list, out) =~= list);
        }
        if list.contains(out) && list.last() != out {
            let i = choose|i: int| 0 <= i < list.len() && list[i] == out;
            assert(rest[i] == out);
        }
    }
}

/// In a list that holds `out` once, at `at`, `without` takes just that
/// place out.
pub proof fn lemma_without_once<T>(list: Seq<T>, out: T, at: int)
    requires
        list.no_duplicates(),
        0 <= at < list.len(),
        list[at] == out,
    ensures
        without(list, out) == list.remove(at),
    decreases list.len(),
{
    let rest = list.drop_last();
    if at == list.len() - 1 {
        assert(!rest.contains(out)) by {
            if rest.contains(out) {
                let i = choose|i: int| 0 <= i < rest.len() && rest[i] == out;
                assert(list[i] == out);
            }
        }
        lemma_without(rest, out);
        assert(list.remove(at) =~= rest);
    } else {
        assert(rest[at] == out);
        lemma_without_once(rest, out, at);
        assert(list.last() != out);
        assert(list.remove(at) =~= rest.remove(at).push(list.last()));
    }
}

} // verus!
