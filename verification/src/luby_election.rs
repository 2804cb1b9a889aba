//! Elections in the rateless dialect: as in the classic dialect, but that a
//! new leader ships codewords.

use vstd::prelude::*;
use core::ops::BitXor;
use crate::nums::{RaftId, Term};
use crate::log::{exact_clone, last_of};
use crate::store::Persistor;
use crate::message::RaftLubyMsg;
use crate::network::Adaptor;
use crate::codeword::{combines, CodewordView};
use crate::election::books;
use crate::replica::{draw_u64, others};
use crate::luby::{LubyRole, RaftLubyImpl};

verus! {

impl<Proposal: Clone + BitXor<Proposal, Output = Proposal>> RaftLubyImpl<Proposal> {
    /// Starts a candidacy with a random election timer: see
    /// `coup_detat_with`.
    pub fn coup_detat(
        &mut self,
        adaptor: &mut impl Adaptor<RaftLubyMsg<Proposal>>,
        disk: &mut impl Persistor<Proposal>,
    )
        requires
            old(self)@.bound_elect > 0,
            old(self)@.role is Leader || old(self)@.term.0 < u64::MAX,
        ensures
            exists|draw: u64|
                (#[trigger] old(self)@.on_election_timeout(old(disk)@, draw)).lands(
                    final(self)@,
                    final(disk)@,
                    old(adaptor).sent(),
                    final(adaptor).sent(),
                ),
        final(adaptor).received() == old(adaptor).received(),
    {
        let draw = draw_u64();
        self.coup_detat_with(draw, adaptor, disk);
        assert(old(self)@.on_election_timeout(old(disk)@, draw).lands(
            self@,
            disk@,
            old(adaptor).sent(),
            adaptor.sent(),
        ));
    }

    /// Starts a candidacy, unless the replica leads: the next term begins,
    /// the replica votes for itself and records it, the election timer is set
    /// from `draw`, and every other member is asked for its vote.
    pub fn coup_detat_with(
        &mut self,
        draw: u64,
        adaptor: &mut impl Adaptor<RaftLubyMsg<Proposal>>,
        disk: &mut impl Persistor<Proposal>,
    )
        requires
            old(self)@.bound_elect > 0,
            old(self)@.role is Leader || old(self)@.term.0 < u64::MAX,
        ensures
            old(self)@.on_election_timeout(old(disk)@, draw).lands(
                final(self)@,
                final(disk)@,
                old(adaptor).sent(),
                final(adaptor).sent(),
            ),
        final(adaptor).received() == old(adaptor).received(),
    {
        if let LubyRole::Leader { .. } = self.role {
            return ;
        }
        self.term = Term(self.term.0 + 1);
        self.role = LubyRole::Candidate { count: 1 };
        self.vote = Some(self.id);
        disk.persist(self.term, self.vote);
        self.timeout_elect = draw % self.bound_elect;
        let last = disk.last();
        let rest = others(&self.peers, self.id);
        let ghost step = old(self)@.on_election_timeout(old(disk)@, draw);
        let mut i: usize = 0;
        while i < rest.len()
            invariant
                i <= rest.len(),
                rest@ == old(self)@.others(),
                self@ == step.replica,
                disk@ == step.store,
                last == last_of(disk@.log),
                step == old(self)@.on_election_timeout(old(disk)@, draw),
                !(old(self)@.role is Leader),
                adaptor.sent() == old(adaptor).sent() + step.out.take(i as int),
                adaptor.received() == old(adaptor).received(),
            decreases rest.len() - i,
        {
            adaptor.send(rest[i], RaftLubyMsg::VoteReq { candidate: (self.term, self.id), last });
            assert(step.out.take(i + 1) == step.out.take(i as int).push(step.out[i as int]));
            i += 1;
        }
        assert(step.out.take(rest.len() as int) == step.out);
    }

    /// Answers a vote request, as a replica of the classic dialect does.
    pub fn handle_vote_req(
        &mut self,
        candidate: (Term, RaftId),
        last: (Term, usize),
        adaptor: &mut impl Adaptor<RaftLubyMsg<Proposal>>,
        disk: &mut impl Persistor<Proposal>,
    )
        ensures
            old(self)@.on_vote_req(old(disk)@, candidate, last).lands(
                final(self)@,
                final(disk)@,
                old(adaptor).sent(),
                final(adaptor).sent(),
            ),
        final(adaptor).received() == old(adaptor).received(),
    {
        let (cand_term, cand_id) = candidate;
        let newer = cand_term.0 > self.term.0;
        if newer {
            self.term = cand_term;
            self.vote = None;
            self.role = LubyRole::Follower { leader: None };
        }
        let ours = disk.last();
        let free = match self.vote {
            None => true,
            Some(voted) => voted.0 == cand_id.0,
        };
        let fresh = last.0.0 > ours.0.0 || (last.0.0 == ours.0.0 && last.1 >= ours.1);
        if self.term.0 <= cand_term.0 && free && fresh {
            self.vote = Some(cand_id);
            disk.persist(self.term, self.vote);
            adaptor.send(cand_id, RaftLubyMsg::VoteAck { term: cand_term });
        } else {
            if newer {
                disk.persist(self.term, self.vote);
            }
            adaptor.send(cand_id, RaftLubyMsg::VoteRej { term: self.term });
        }
    }

    /// Counts a granted vote, as a replica of the classic dialect does; a
    /// candidate that becomes leader ships fresh codewords at once.
    ///
    /// Every grant of the term is counted, whoever sent it: a grant does not
    /// name its sender. The count is the number of voters only on a transport
    /// that hands each grant over at most once; a grant handed over twice is
    /// counted twice.
    pub fn handle_vote_ack(
        &mut self,
        term: Term,
        adaptor: &mut impl Adaptor<RaftLubyMsg<Proposal>>,
        disk: &mut impl Persistor<Proposal>,
    )
        requires
            combines::<Proposal>(),
            exact_clone::<Proposal>(),
        ensures
            exists|patches: Seq<Seq<CodewordView<Proposal>>>|
                old(self)@.ships(final(disk)@, patches) && (#[trigger] old(self)@.on_vote_ack(
                    old(disk)@,
                    term,
                    patches,
                )).lands(final(self)@, final(disk)@, old(adaptor).sent(), final(adaptor).sent()),
        final(adaptor).received() == old(adaptor).received(),
    {
        if term.0 > self.term.0 {
            self.term = term;
            self.vote = None;
            self.role = LubyRole::Follower { leader: None };
            disk.persist(self.term, self.vote);
            proof {
                old(self)@.lemma_stock_ships(disk@);
                assert(old(self)@.on_vote_ack(old(disk)@, term, old(self)@.stock(disk@)).lands(
                    self@,
                    disk@,
                    old(adaptor).sent(),
                    adaptor.sent(),
                ));
            }
            return ;
        }
        let count = match self.role {
            LubyRole::Candidate { count } => Some(count),
            _ => None,
        };
        let rest = others(&self.peers, self.id);
        let voters = rest.len();
        match count {
            Some(count) => {
                if term.0 == self.term.0 && count >= voters - voters / 2 {
                    self.role = LubyRole::Leader { matched: books(&rest, 0) };
                    let ghost crowned = self@;
                    self.replicate(adaptor, disk);
                    proof {
                        let shipped = choose|patches: Seq<Seq<CodewordView<Proposal>>>|
                            crowned.ships(old(disk)@, patches) && (#[trigger] crowned.on_heartbeat(
                                old(disk)@,
                                patches,
                            )).lands(self@, disk@, old(adaptor).sent(), adaptor.sent());
                        assert(old(self)@.ships(disk@, shipped));
                        assert(old(self)@.on_vote_ack(old(disk)@, term, shipped).lands(
                            self@,
                            disk@,
                            old(adaptor).sent(),
                            adaptor.sent(),
                        ));
                    }
                    return ;
                }
                if term.0 == self.term.0 {
                    self.role = LubyRole::Candidate { count: count + 1 };
                }
            },
            None => {},
        }
        proof {
            old(self)@.lemma_stock_ships(disk@);
            assert(old(self)@.on_vote_ack(old(disk)@, term, old(self)@.stock(disk@)).lands(
                self@,
                disk@,
                old(adaptor).sent(),
                adaptor.sent(),
            ));
        }
    }

    /// Takes a refused vote, as a replica of the classic dialect does.
    pub fn handle_vote_rej(&mut self, term: Term, disk: &mut impl Persistor<Proposal>)
        ensures
            final(self)@ == old(self)@.on_vote_rej(old(disk)@, term).replica,
            final(disk)@ == old(self)@.on_vote_rej(old(disk)@, term).store,
            old(self)@.on_vote_rej(old(disk)@, term).out.len() == 0,
    {
        if term.0 <= self.term.0 {
            assert(self@ =~= old(self)@.on_vote_rej(old(disk)@, term).replica);
            return ;
        }
        self.term = term;
        self.role = LubyRole::Candidate { count: 0 };
        self.vote = None;
        disk.persist(self.term, self.vote);
        assert(self@ =~= old(self)@.on_vote_rej(old(disk)@, term).replica);
    }
}

} // verus!
