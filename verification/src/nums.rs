//! Terms and the opaque identifiers of replicas and proposals.

use vstd::prelude::*;
use vstd::std_specs::ops::AddSpecImpl;

verus! {

/// A logical clock phase. Terms are totally ordered by their counter.
#[derive(Debug, Clone, Copy, PartialEq, Eq, PartialOrd, Ord, Structural)]
pub struct Term(pub u64);

/// The stable, cluster-unique identifier of a replica.
#[derive(Debug, Clone, Copy, PartialEq, Eq, Hash, PartialOrd, Ord, Structural)]
pub struct RaftId(pub u64);

/// The identifier of one client submission.
#[derive(Debug, Clone, Copy, PartialEq, Eq, Hash, PartialOrd, Ord, Structural)]
pub struct ProposalId(pub u64);

/// The one error a caller can see.
#[derive(Debug, Clone, Copy, PartialEq, Eq, Structural)]
pub enum RaftErr {
    /// The replica asked does not know a leader to hand the proposal to.
    ProposalFailed { id: ProposalId },
}

impl core::ops::Add<u64> for Term {
    type Output = Term;

    /// The term `rhs` steps after `self`.
    fn add(self, rhs: u64) -> (next: Term) {
        Term(self.0 + rhs)
    }
}

impl AddSpecImpl<u64> for Term {
    open spec fn obeys_add_spec() -> bool {
        true
    }

    open spec fn add_req(self, rhs: u64) -> bool {
        self.0 + rhs <= u64::MAX
    }

    open spec fn add_spec(self, rhs: u64) -> Term {
        Term((self.0 + rhs) as u64)
    }
}


} // verus!
