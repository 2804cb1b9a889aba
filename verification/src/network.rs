//! The transport a replica talks through, and endpoints on a simulated
//! network.

use vstd::prelude::*;
use core::marker::PhantomData;
use std::collections::{HashMap, VecDeque};
use std::sync::Arc;
use vstd::rwlock::{RwLock, RwLockPredicate};
use crate::nums::RaftId;

verus! {

broadcast use vstd::std_specs::hash::group_hash_axioms;

/// One replica's endpoint on the transport. Delivery is best effort: what is
/// sent may be lost, repeated, delayed or reordered on its way.
pub trait Adaptor<Msg: View> {
    /// Every message handed to `send` so far, with its destination, oldest
    /// first.
    spec fn sent(&self) -> Seq<(RaftId, Msg::V)>;

    /// Every message that `receive` has taken from the transport so far,
    /// oldest first.
    spec fn received(&self) -> Seq<Msg::V>;

    /// Hands `msg` to the transport, addressed to `to`.
    fn send(&mut self, to: RaftId, msg: Msg)
        ensures
            final(self).sent() == old(self).sent().push((to, msg@)),
            final(self).received() == old(self).received(),
    ;

    /// Takes the next message that has arrived, if there is one. Whether
    /// there is one is the transport's to say; a message that is returned
    /// has been taken from the transport and is returned once.
    fn receive(&mut self) -> (msg: Option<Msg>)
        ensures
            final(self).sent() == old(self).sent(),
            final(self).received() == (match msg {
                Some(taken) => old(self).received().push(taken@),
                None => old(self).received(),
            }),
    ;
}

/// A simulated network that endpoints share.
pub trait MockNetwork<Msg> {
    /// Takes the next message waiting for `receiver`, if there is one.
    fn receive(&self, receiver: RaftId) -> Option<Msg>;

    /// Takes in `msg` from `sender`, addressed to `to`.
    fn send(&self, sender: RaftId, to: RaftId, msg: Msg);
}

/// The endpoint of replica `id` on a simulated network.
pub struct MockAdaptor<Msg: View, Net: MockNetwork<Msg>> {
    id: RaftId,
    ph: PhantomData<Msg>,
    net: Net,
    log: Ghost<Seq<(RaftId, Msg::V)>>,
    taken: Ghost<Seq<Msg::V>>,
}

impl<Msg: View, Net: MockNetwork<Msg>> MockAdaptor<Msg, Net> {
    /// An endpoint for `id` that has sent and received nothing yet.
    pub fn new(id: RaftId, net: Net) -> (adaptor: Self)
        ensures
            adaptor.sent() == Seq::<(RaftId, Msg::V)>::empty(),
            adaptor.received() == Seq::<Msg::V>::empty(),
            adaptor.id() == id,
    {
        Self { id, ph: PhantomData, net, log: Ghost(Seq::empty()), taken: Ghost(Seq::empty()) }
    }

    /// The replica this endpoint belongs to.
    pub closed spec fn id(&self) -> RaftId {
        self.id
    }
}

impl<Msg: View, Net: MockNetwork<Msg>> Adaptor<Msg> for MockAdaptor<Msg, Net> {
    closed spec fn sent(&self) -> Seq<(RaftId, Msg::V)> {
        self.log@
    }

    closed spec fn received(&self) -> Seq<Msg::V> {
        self.taken@
    }

    fn send(&mut self, to: RaftId, msg: Msg) {
        self.log = Ghost(self.log@.push((to, msg@)));
        self.net.send(self.id, to, msg);
    }

    fn receive(&mut self) -> (msg: Option<Msg>) {
        let msg = self.net.receive(self.id);
        match &msg {
            Some(taken) => {
                self.taken = Ghost(self.taken@.push(taken@));
            },
            None => {},
        }
        msg
    }
}

/// A simulated network that loses nothing and keeps the order of sending:
/// one queue for each of the replicas `0..peers`, by the replica's number.
pub struct MockFIFONetwork<Msg> {
    queue: HashMap<u64, VecDeque<Msg>>,
}

/// What a shared network keeps while it passes from hand to hand: the
/// replicas it serves.
pub struct Served {
    pub peers: nat,
}

impl<Msg> RwLockPredicate<MockFIFONetwork<Msg>> for Served {
    open spec fn inv(self, net: MockFIFONetwork<Msg>) -> bool {
        forall|k: u64| #[trigger] net@.contains_key(k) <==> k < self.peers
    }
}

/// A first-in-first-out network that several endpoints share.
pub type SharedFIFONetwork<Msg> = Arc<RwLock<MockFIFONetwork<Msg>, Served>>;

impl<Msg> MockFIFONetwork<Msg> {
    /// The messages waiting for each replica that the network serves, by the
    /// replica's number, oldest first.
    pub closed spec fn view(&self) -> Map<u64, Seq<Msg>> {
        Map::new(|k: u64| self.queue@.contains_key(k), |k: u64| self.queue@[k]@)
    }

    /// A network for the replicas `0..peers`, with nothing under way.
    pub fn new(peers: usize) -> (net: Self)
        ensures
            net@ == Map::new(|k: u64| k < peers, |k: u64| Seq::<Msg>::empty()),
    {
        let mut queue: HashMap<u64, VecDeque<Msg>> = HashMap::new();
        let mut i: usize = 0;
        while i < peers
            invariant
                i <= peers,
                forall|k: u64| #[trigger] queue@.contains_key(k) <==> k < i,
                forall|k: u64| k < i ==> (#[trigger] queue@[k])@ == Seq::<Msg>::empty(),
            decreases peers - i,
        {
            queue.insert(i as u64, VecDeque::new());
            i += 1;
        }
        let net = Self { queue };
        assert(net@ =~= Map::new(|k: u64| k < peers, |k: u64| Seq::<Msg>::empty()));
        net
    }

    /// A network for the replicas `0..peers` that endpoints can share.
    pub fn shared(peers: usize) -> (net: SharedFIFONetwork<Msg>)
        ensures
            net.pred().peers == peers,
    {
        Arc::new(RwLock::new(Self::new(peers), Ghost(Served { peers: peers as nat })))
    }

    /// Queues `msg` for `to`. A message to a replica the network does not
    /// serve is lost.
    pub fn push(&mut self, to: RaftId, msg: Msg)
        ensures
            old(self)@.contains_key(to.0) ==> final(self)@ == old(self)@.insert(to.0, old(self)@[to.0].push(msg)),
            !old(self)@.contains_key(to.0) ==> final(self)@ == old(self)@,
    {
        match self.queue.remove(&to.0) {
            Some(waiting) => {
                let mut waiting = waiting;
                waiting.push_back(msg);
                self.queue.insert(to.0, waiting);
                assert(self@ =~= old(self)@.insert(to.0, old(self)@[to.0].push(msg)));
            },
            None => {
                assert(self@ =~= old(self)@);
            },
        }
    }

    /// Takes the oldest message waiting for `receiver`, if there is one.
    pub fn pop(&mut self, receiver: RaftId) -> (msg: Option<Msg>)
        ensures
            old(self)@.contains_key(receiver.0) && old(self)@[receiver.0].len() > 0 ==> msg == Some(
                old(self)@[receiver.0].first(),
            ) && final(self)@ == old(self)@.insert(receiver.0, old(self)@[receiver.0].drop_first()),
            !old(self)@.contains_key(receiver.0) || old(self)@[receiver.0].len() == 0 ==> msg is None,
            !old(self)@.contains_key(receiver.0) || old(self)@[receiver.0].len() == 0 ==> final(self)@ == old(self)@,
    {
        match self.queue.remove(&receiver.0) {
            Some(waiting) => {
                let mut waiting = waiting;
                let msg = waiting.pop_front();
                self.queue.insert(receiver.0, waiting);
                proof {
                    if old(self)@[receiver.0].len() > 0 {
                        assert(self@ =~= old(self)@.insert(receiver.0, old(self)@[receiver.0].drop_first()));
                    } else {
                        assert(self@ =~= old(self)@);
                    }
                }
                msg
            },
            None => {
                assert(self@ =~= old(self)@);
                None
            },
        }
    }
}

impl<Msg> MockNetwork<Msg> for SharedFIFONetwork<Msg> {
    /// Takes the oldest message waiting for `receiver` at the moment the
    /// network is free. What waits depends on what the other endpoints have
    /// done; a replica that the network does not serve gets nothing.
    fn receive(&self, receiver: RaftId) -> (msg: Option<Msg>)
        ensures
            receiver.0 >= self.pred().peers ==> msg is None,
    {
        let (mut net, lock) = self.acquire_write();
        let msg = net.pop(receiver);
        lock.release_write(net);
        msg
    }

    fn send(&self, sender: RaftId, to: RaftId, msg: Msg) {
        let (mut net, lock) = self.acquire_write();
        net.push(to, msg);
        lock.release_write(net);
    }
}

/// A simulated network with bursts of loss. Each channel from one replica
/// to another is in one of two states, each with a rate of loss of its own,
/// and moves between them at random. What the dice say is handed in from
/// outside: whether the clock advances, whether the message is erased, and
/// whether the channel changes its state.
pub struct BurstNetwork<Msg> {
    state: HashMap<u64, HashMap<u64, bool>>,
    queue: HashMap<u64, VecDeque<(usize, Msg)>>,
    timestamp: usize,
}

/// A burst network as a mathematical value.
#[verifier::ext_equal]
pub struct BurstView<Msg> {
    /// The channels, each by the numbers of its sender and its receiver,
    /// and whether it is in its upper state.
    pub state: Map<(u64, u64), bool>,
    /// The messages waiting for each replica that the network serves, by the
    /// replica's number, each with the time it was taken in, oldest first.
    pub queue: Map<u64, Seq<(usize, Msg)>>,
    /// How often the clock has advanced.
    pub timestamp: usize,
}

impl<Msg> BurstView<Msg> {
    /// Whether there is a channel from `sender` to `to`.
    pub open spec fn has_channel(self, sender: RaftId, to: RaftId) -> bool {
        self.state.contains_key((sender.0, to.0))
    }

    /// Whether the channels are those between any two different replicas
    /// of `0..peers`, and no others: no replica has a channel to itself.
    pub open spec fn links(self, peers: nat) -> bool {
        forall|s: u64, t: u64| #[trigger] self.state.contains_key((s, t)) <==> s != t && s < peers && t < peers
    }

    /// Whether the channel from `sender` to `to` exists and is in its upper
    /// state. No replica has a channel to itself.
    pub open spec fn is_upper(self, sender: RaftId, to: RaftId) -> bool {
        self.has_channel(sender, to) && self.state[(sender.0, to.0)]
    }

    /// Whether time runs forward in the queues: in every queue a message
    /// taken in later does not bear an earlier time, and no time is ahead of
    /// the clock. The message at the head of a queue then bears the least
    /// time.
    pub open spec fn timely(self) -> bool {
        &&& forall|r: u64, i: int, j: int|
            self.queue.contains_key(r) && 0 <= i <= j < self.queue[r].len() ==> (#[trigger] self.queue[r][i]).0 <= (
            #[trigger] self.queue[r][j]).0
        &&& forall|r: u64, i: int|
            self.queue.contains_key(r) && 0 <= i < self.queue[r].len() ==> (#[trigger] self.queue[r][i]).0
                <= self.timestamp
    }

    /// The network after it took in `msg` from `sender` for `to`, with the
    /// dice as given: the clock advances first; a message that is not erased
    /// is queued for a replica the network knows, with the time; and the
    /// channel, where there is one, changes its state on a flip.
    pub open spec fn accepted(self, sender: RaftId, to: RaftId, msg: Msg, tick: bool, erase: bool, flip: bool) -> Self {
        let timestamp = if tick { (self.timestamp + 1) as usize } else { self.timestamp };
        let queue = if !erase && self.queue.contains_key(to.0) {
            self.queue.insert(to.0, self.queue[to.0].push((timestamp, msg)))
        } else {
            self.queue
        };
        let state = if flip && self.has_channel(sender, to) {
            self.state.insert((sender.0, to.0), !self.state[(sender.0, to.0)])
        } else {
            self.state
        };
        BurstView { state, queue, timestamp }
    }
}

impl<Msg> BurstView<Msg> {
    /// Taking a message in keeps time running forward in the queues.
    pub proof fn lemma_accepted_timely(self, sender: RaftId, to: RaftId, msg: Msg, tick: bool, erase: bool, flip: bool)
        requires
            self.timely(),
            tick ==> self.timestamp < usize::MAX,
        ensures
            self.accepted(sender, to, msg, tick, erase, flip).timely(),
    {
        let next = self.accepted(sender, to, msg, tick, erase, flip);
        assert forall|r: u64, i: int| next.queue.contains_key(r) && 0 <= i < next.queue[r].len() implies (
        #[trigger] next.queue[r][i]).0 <= next.timestamp by {
            if i < self.queue[r].len() {
                assert(self.queue[r][i].0 <= self.timestamp);
            }
        }
        assert forall|r: u64, i: int, j: int|
            next.queue.contains_key(r) && 0 <= i <= j < next.queue[r].len() implies (#[trigger] next.queue[r][i]).0 <= (
        #[trigger] next.queue[r][j]).0 by {
            if j < self.queue[r].len() {
                assert(self.queue[r][i].0 <= self.queue[r][j].0);
            } else if i < self.queue[r].len() {
                assert(self.queue[r][i].0 <= self.timestamp);
            }
        }
    }
}

impl<Msg> BurstNetwork<Msg> {
    /// The channels, the queues and the clock of the network.
    pub closed spec fn view(&self) -> BurstView<Msg> {
        BurstView {
            state: Map::new(
                |p: (u64, u64)| self.state@.contains_key(p.0) && self.state@[p.0]@.contains_key(p.1),
                |p: (u64, u64)| self.state@[p.0]@[p.1],
            ),
            queue: Map::new(|k: u64| self.queue@.contains_key(k), |k: u64| self.queue@[k]@),
            timestamp: self.timestamp,
        }
    }

    /// A network for the replicas `0..peers`: a channel between any two
    /// different replicas, each in its lower state, nothing under way, the
    /// clock at 0.
    pub fn new(peers: usize) -> (net: Self)
        ensures
            net@ == (BurstView {
                state: Map::new(|p: (u64, u64)| p.0 != p.1 && p.0 < peers && p.1 < peers, |p: (u64, u64)| false),
                queue: Map::new(|k: u64| k < peers, |k: u64| Seq::<(usize, Msg)>::empty()),
                timestamp: 0,
            }),
            net@.links(peers as nat),
            net@.timely(),
    {
        let mut state: HashMap<u64, HashMap<u64, bool>> = HashMap::new();
        let mut queue: HashMap<u64, VecDeque<(usize, Msg)>> = HashMap::new();
        let mut i: usize = 0;
        while i < peers
            invariant
                i <= peers,
                forall|k: u64| #[trigger] state@.contains_key(k) <==> k < i,
                forall|k: u64| #[trigger] queue@.contains_key(k) <==> k < i,
                forall|k: u64, t: u64| k < i ==> (#[trigger] state@[k]@.contains_key(t) <==> t != k && t < peers),
                forall|k: u64, t: u64| k < i && t != k && t < peers ==> !(#[trigger] state@[k]@[t]),
                forall|k: u64| k < i ==> (#[trigger] queue@[k])@ == Seq::<(usize, Msg)>::empty(),
            decreases peers - i,
        {
            let mut row: HashMap<u64, bool> = HashMap::new();
            let mut j: usize = 0;
            while j < peers
                invariant
                    j <= peers,
                    i < peers,
                    forall|t: u64| #[trigger] row@.contains_key(t) <==> t != i && t < j,
                    forall|t: u64| t != i && t < j ==> !(#[trigger] row@[t]),
                decreases peers - j,
            {
                if j != i {
                    row.insert(j as u64, false);
                }
                j += 1;
            }
            state.insert(i as u64, row);
            queue.insert(i as u64, VecDeque::new());
            i += 1;
        }
        let net = Self { state, queue, timestamp: 0 };
        assert(net@ =~= (BurstView {
            state: Map::new(|p: (u64, u64)| p.0 != p.1 && p.0 < peers && p.1 < peers, |p: (u64, u64)| false),
            queue: Map::new(|k: u64| k < peers, |k: u64| Seq::<(usize, Msg)>::empty()),
            timestamp: 0,
        }));
        net
    }

    /// Whether the channel from `sender` to `to` exists and is in its upper
    /// state.
    pub fn is_upper(&self, sender: RaftId, to: RaftId) -> (upper: bool)
        ensures
            upper == self@.is_upper(sender, to),
    {
        match self.state.get(&sender.0) {
            Some(row) => match row.get(&to.0) {
                Some(upper) => *upper,
                None => false,
            },
            None => false,
        }
    }

    /// How often the clock has advanced.
    pub fn timestamp(&self) -> (now: usize)
        ensures
            now == self@.timestamp,
    {
        self.timestamp
    }

    /// Takes in `msg` from `sender` for `to`, with the dice as given.
    pub fn accept(&mut self, sender: RaftId, to: RaftId, msg: Msg, tick: bool, erase: bool, flip: bool)
        requires
            tick ==> old(self)@.timestamp < usize::MAX,
        ensures
            final(self)@ == old(self)@.accepted(sender, to, msg, tick, erase, flip),
            old(self)@.timely() ==> final(self)@.timely(),
            forall|peers: nat| old(self)@.links(peers) ==> final(self)@.links(peers),
    {
        if tick {
            self.timestamp += 1;
        }
        if !erase {
            match self.queue.remove(&to.0) {
                Some(waiting) => {
                    let mut waiting = waiting;
                    waiting.push_back((self.timestamp, msg));
                    self.queue.insert(to.0, waiting);
                },
                None => {},
            }
        }
        if flip {
            match self.state.remove(&sender.0) {
                Some(row) => {
                    let mut row = row;
                    match row.remove(&to.0) {
                        Some(upper) => {
                            row.insert(to.0, !upper);
                        },
                        None => {},
                    }
                    assert(row@ =~= if old(self).state@[sender.0]@.contains_key(to.0) {
                        old(self).state@[sender.0]@.insert(to.0, !old(self).state@[sender.0]@[to.0])
                    } else {
                        old(self).state@[sender.0]@
                    });
                    self.state.insert(sender.0, row);
                },
                None => {},
            }
        }
        assert(self@ =~= old(self)@.accepted(sender, to, msg, tick, erase, flip));
        proof {
            if old(self)@.timely() {
                old(self)@.lemma_accepted_timely(sender, to, msg, tick, erase, flip);
            }
        }
    }

    /// Takes the oldest message waiting for `receiver`, if there is one:
    /// where time runs forward in the queues, the one that bears the least
    /// time.
    pub fn pop(&mut self, receiver: RaftId) -> (msg: Option<Msg>)
        ensures
            old(self)@.timely() ==> final(self)@.timely(),
            old(self)@.timely() && msg is Some ==> forall|k: int|
                0 <= k < old(self)@.queue[receiver.0].len() ==> old(self)@.queue[receiver.0][0].0 <= (
                #[trigger] old(self)@.queue[receiver.0][k]).0,
            old(self)@.queue.contains_key(receiver.0) && old(self)@.queue[receiver.0].len() > 0 ==> msg == Some(
                old(self)@.queue[receiver.0].first().1,
            ) && final(self)@ == (BurstView {
                queue: old(self)@.queue.insert(receiver.0, old(self)@.queue[receiver.0].drop_first()),
                ..old(self)@
            }),
            !old(self)@.queue.contains_key(receiver.0) || old(self)@.queue[receiver.0].len() == 0 ==> msg is None,
            !old(self)@.queue.contains_key(receiver.0) || old(self)@.queue[receiver.0].len() == 0 ==> final(self)@
                == old(self)@,
    {
        match self.queue.remove(&receiver.0) {
            Some(waiting) => {
                let mut waiting = waiting;
                let first = waiting.pop_front();
                self.queue.insert(receiver.0, waiting);
                proof {
                    let before = old(self)@.queue[receiver.0];
                    if before.len() > 0 {
                        assert(self@ =~= (BurstView {
                            queue: old(self)@.queue.insert(receiver.0, before.drop_first()),
                            ..old(self)@
                        }));
                        if old(self)@.timely() {
                            assert forall|r: u64, i: int, j: int|
                                self@.queue.contains_key(r) && 0 <= i <= j < self@.queue[r].len() implies (
                            #[trigger] self@.queue[r][i]).0 <= (#[trigger] self@.queue[r][j]).0 by {
                                if r == receiver.0 {
                                    assert(before[i + 1].0 <= before[j + 1].0);
                                } else {
                                    assert(old(self)@.queue[r][i].0 <= old(self)@.queue[r][j].0);
                                }
                            }
                            assert forall|r: u64, i: int|
                                self@.queue.contains_key(r) && 0 <= i < self@.queue[r].len() implies (
                            #[trigger] self@.queue[r][i]).0 <= self@.timestamp by {
                                if r == receiver.0 {
                                    assert(before[i + 1].0 <= old(self)@.timestamp);
                                } else {
                                    assert(old(self)@.queue[r][i].0 <= old(self)@.timestamp);
                                }
                            }
                            assert forall|k: int| 0 <= k < before.len() implies before[0].0 <= (#[trigger] before[k]).0 by {}
                        }
                    } else {
                        assert(self@ =~= old(self)@);
                    }
                }
                match first {
                    Some((_, msg)) => Some(msg),
                    None => None,
                }
            },
            None => {
                assert(self@ =~= old(self)@);
                None
            },
        }
    }
}

} // verus!
