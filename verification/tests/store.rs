use raft_luby::log::copy_range;
use raft_luby::nums::{ProposalId, RaftId, Term};
use raft_luby::quorum::{count_holders, majority_match};
use raft_luby::store::{MockPersistor, Persistor};

fn entry(payload: u64, id: u64, term: u64) -> (u64, ProposalId, Term) {
    (payload, ProposalId(id), Term(term))
}

fn store_of(entries: &[(u64, ProposalId, Term)]) -> MockPersistor<u64> {
    let mut store = MockPersistor::new();
    for (payload, id, term) in entries {
        store.push(*payload, *id, *term);
    }
    store
}

#[test]
fn term_adds_steps() {
    assert_eq!(Term(4) + 1, Term(5));
    assert_eq!(Term(4) + 0, Term(4));
    assert!(Term(4) < Term(5));
}

#[test]
fn fresh_store_loads_term_zero_and_no_vote() {
    let mut store = MockPersistor::<u64>::new();
    assert_eq!(store.load(), (Term(0), None));
    assert_eq!(store.last(), (Term(0), 0));
    assert_eq!(store.commitable(), 0);
    assert_eq!(store.term(0), None);
    assert_eq!(store.slice(0..4), vec![]);
}

#[test]
fn persist_is_what_load_returns() {
    let mut store = MockPersistor::<u64>::new();
    store.persist(Term(7), Some(RaftId(2)));
    assert_eq!(store.load(), (Term(7), Some(RaftId(2))));
    store.persist(Term(8), None);
    assert_eq!(store.load(), (Term(8), None));
}

#[test]
fn last_and_term_follow_the_log() {
    let mut store = store_of(&[entry(10, 1, 1), entry(20, 2, 3)]);
    assert_eq!(store.last(), (Term(3), 2));
    assert_eq!(store.term(0), Some(Term(1)));
    assert_eq!(store.term(1), Some(Term(3)));
    assert_eq!(store.term(2), None);
    assert_eq!(store.slice(0..2), vec![entry(10, 1, 1), entry(20, 2, 3)]);
}

#[test]
fn slice_clamps_both_ends() {
    let mut store = store_of(&[entry(10, 1, 1), entry(20, 2, 1), entry(30, 3, 2)]);
    assert_eq!(store.slice(1..9), vec![entry(20, 2, 1), entry(30, 3, 2)]);
    assert_eq!(store.slice(2..3), vec![entry(30, 3, 2)]);
    assert_eq!(store.slice(5..9), vec![]);
    assert_eq!(store.slice(2..1), vec![]);
    assert_eq!(store.slice(0..0), vec![]);
}

#[test]
fn commit_watermark_never_falls() {
    let mut store = store_of(&[entry(10, 1, 1)]);
    store.commit(3);
    assert_eq!(store.commitable(), 3);
    store.commit(1);
    assert_eq!(store.commitable(), 3);
    store.commit(4);
    assert_eq!(store.commitable(), 4);
}

#[test]
fn append_extends_at_the_tail() {
    let mut store = store_of(&[entry(10, 1, 1)]);
    let end = store.append(1, vec![entry(20, 2, 1), entry(30, 3, 2)]);
    assert_eq!(end, 3);
    assert_eq!(store.slice(0..9), vec![entry(10, 1, 1), entry(20, 2, 1), entry(30, 3, 2)]);
}

#[test]
fn append_keeps_entries_of_the_same_term() {
    let mut store = store_of(&[entry(10, 1, 1), entry(20, 2, 1), entry(30, 3, 2)]);
    let end = store.append(1, vec![entry(21, 9, 1)]);
    assert_eq!(end, 2);
    assert_eq!(store.slice(0..9), vec![entry(10, 1, 1), entry(20, 2, 1), entry(30, 3, 2)]);
}

#[test]
fn append_cuts_at_the_first_other_term() {
    let mut store = store_of(&[entry(10, 1, 1), entry(20, 2, 1), entry(30, 3, 1)]);
    let end = store.append(0, vec![entry(11, 7, 1), entry(21, 8, 2), entry(31, 9, 2)]);
    assert_eq!(end, 3);
    assert_eq!(store.slice(0..9), vec![entry(10, 1, 1), entry(21, 8, 2), entry(31, 9, 2)]);
    let end = store.append(1, vec![entry(40, 4, 3)]);
    assert_eq!(end, 2);
    assert_eq!(store.slice(0..9), vec![entry(10, 1, 1), entry(40, 4, 3)]);
}

#[test]
fn append_past_the_end_changes_nothing() {
    let mut store = store_of(&[entry(10, 1, 1)]);
    let end = store.append(3, vec![entry(20, 2, 1)]);
    assert_eq!(end, 1);
    assert_eq!(store.slice(0..9), vec![entry(10, 1, 1)]);
    let end = store.append(1, vec![]);
    assert_eq!(end, 1);
    assert_eq!(store.last(), (Term(1), 1));
}

#[test]
fn append_twice_is_append_once() {
    let patch = vec![entry(21, 8, 2), entry(31, 9, 2)];
    let mut once = store_of(&[entry(10, 1, 1), entry(20, 2, 1)]);
    let first = once.append(1, patch.clone());
    let log = once.slice(0..9);
    let second = once.append(1, patch);
    assert_eq!(first, second);
    assert_eq!(once.slice(0..9), log);
    assert_eq!(log, vec![entry(10, 1, 1), entry(21, 8, 2), entry(31, 9, 2)]);
}

#[test]
fn copy_range_copies_the_run() {
    let log = vec![entry(10, 1, 1), entry(20, 2, 1), entry(30, 3, 2)];
    assert_eq!(copy_range(&log, 1, 3), vec![entry(20, 2, 1), entry(30, 3, 2)]);
    assert_eq!(copy_range(&log, 2, 2), vec![]);
}

#[test]
fn majority_match_is_the_highest_index_on_a_majority() {
    assert_eq!(majority_match(&vec![0, 0, 1]), 0);
    assert_eq!(majority_match(&vec![1, 0, 1]), 1);
    assert_eq!(majority_match(&vec![5, 3, 9, 1, 7]), 5);
    assert_eq!(majority_match(&vec![4, 4, 2, 9]), 4);
    assert_eq!(majority_match(&vec![2, 9, 4, 1]), 2);
    assert_eq!(majority_match(&vec![6]), 6);
    assert_eq!(majority_match(&vec![3, 8]), 3);
    assert_eq!(count_holders(&vec![5, 3, 9, 1, 7], 5), 3);
    assert_eq!(count_holders(&vec![5, 3, 9, 1, 7], 10), 0);
}

#[test]
fn append_cuts_only_beyond_the_commit_watermark() {
    let mut store = store_of(&[entry(10, 1, 1), entry(20, 2, 1), entry(30, 3, 1)]);
    store.commit(2);
    let end = store.append(0, vec![entry(11, 7, 2)]);
    assert_eq!(end, 0);
    assert_eq!(store.slice(0..9), vec![entry(10, 1, 1), entry(20, 2, 1), entry(30, 3, 1)]);
    let end = store.append(0, vec![entry(10, 1, 1), entry(21, 8, 2), entry(31, 9, 2)]);
    assert_eq!(end, 1);
    assert_eq!(store.slice(0..9), vec![entry(10, 1, 1), entry(20, 2, 1), entry(30, 3, 1)]);
    let end = store.append(1, vec![entry(20, 2, 1), entry(31, 9, 2), entry(41, 10, 2)]);
    assert_eq!(end, 4);
    assert_eq!(store.slice(0..9), vec![entry(10, 1, 1), entry(20, 2, 1), entry(31, 9, 2), entry(41, 10, 2)]);
    assert_eq!(store.commitable(), 2);
    store.commit(9);
    let end = store.append(4, vec![entry(50, 11, 3)]);
    assert_eq!(end, 5);
    assert_eq!(store.last(), (Term(3), 5));
    let end = store.append(4, vec![entry(51, 12, 4)]);
    assert_eq!(end, 4);
    assert_eq!(store.last(), (Term(3), 5));
}
