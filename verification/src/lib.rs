//! A replicated-log consensus engine: the per-replica state machine of a
//! leader-based, term-structured protocol, its log store and its wire
//! messages, together with a rateless (XOR-coded) replication dialect.
//!
//! Executable code is verified against the rules of the protocol, which
//! `rules` states as functions on mathematical values. `laws` proves what
//! follows for one replica under any sequence of events, `cluster` and
//! `matching` what follows for a whole cluster on a network that hands each
//! message over at most once, `codeword` that peeling decodes what was
//! encoded, and `merge` that what is decoded enters the log as a prefix of
//! what the leader holds.

pub mod nums;
pub mod lists;
pub mod log;
pub mod store;
pub mod quorum;
pub mod sampling;
pub mod codeword;
pub mod merge;
pub mod message;
pub mod network;
pub mod rules;
pub mod replica;
pub mod election;
pub mod replication;
pub mod luby;
pub mod luby_election;
pub mod laws;
pub mod cluster;
pub mod matching;

pub use crate::codeword::Codeword;
pub use crate::luby::{LubyRole, RaftLubyImpl};
pub use crate::message::{RaftLubyMsg, RaftPaperMsg};
pub use crate::network::{Adaptor, BurstNetwork, MockAdaptor, MockFIFONetwork, MockNetwork, SharedFIFONetwork};
pub use crate::nums::{ProposalId, RaftErr, RaftId, Term};
pub use crate::replica::{PaperRole, RaftPaperImpl};
pub use crate::store::{MockPersistor, Persistor};
