//! The connection manager: one supervised link and one bounded outbound
//! queue per peer, and one inbound queue for the single consumer.
//!
//! The manager decides and keeps the queues. Whoever owns it moves the
//! bytes: it hands over what `next_outbound` gives to the peer's connection,
//! brings what a connection delivered to `deliver`, and reports what happened
//! to a link with `on_link_event`.
use std::collections::VecDeque;
use vstd::prelude::*;
use vstd::slice::slice_to_vec;

use crate::link::{Backoff, Link, LinkAction, LinkEvent, LinkState};
use crate::peer::{PeerId, Recipient};

verus! {

/// What the messages in a queue hold, oldest first.
pub open spec fn payloads(queue: Seq<Vec<u8>>) -> Seq<Seq<u8>> {
    queue.map_values(|message: Vec<u8>| message@)
}

/// What the deliveries in a queue hold, oldest first: who sent, and what.
pub open spec fn deliveries(queue: Seq<(PeerId, Vec<u8>)>) -> Seq<(PeerId, Seq<u8>)> {
    queue.map_values(|delivery: (PeerId, Vec<u8>)| (delivery.0, delivery.1@))
}

/// A queue after a message was offered to it: the message goes to the back
/// where the queue is `wanted` and holds fewer than `capacity`, and else the
/// queue stays as it is.
pub open spec fn offered(
    queue: Seq<Seq<u8>>,
    capacity: nat,
    wanted: bool,
    message: Seq<u8>,
) -> Seq<Seq<u8>> {
    if wanted && queue.len() < capacity {
        queue.push(message)
    } else {
        queue
    }
}

/// A copy of `message`.
pub fn copy_of(message: &Vec<u8>) -> (copy: Vec<u8>)
    ensures
        copy@ == message@,
{
    slice_to_vec(message.as_slice())
}

/// Whether `peer` is among `peers`.
pub fn is_among(peers: &[PeerId], peer: PeerId) -> (found: bool)
    ensures
        found == peers@.contains(peer),
{
    let mut i: usize = 0;
    while i < peers.len()
        invariant
            i <= peers.len(),
            forall|j: int| 0 <= j < i ==> peers@[j] != peer,
        decreases peers.len() - i,
    {
        if peers[i].id == peer.id {
            return true;
        }
        i = i + 1;
    }
    false
}

/// One peer's link and the messages waiting for it.
struct Slot {
    peer: PeerId,
    link: Link,
    outbound: VecDeque<Vec<u8>>,
}

/// Whether one of `slots` is for `peer`.
spec fn is_member(slots: Seq<Slot>, peer: PeerId) -> bool {
    exists|i: int| 0 <= i < slots.len() && (#[trigger] slots[i]).peer == peer
}

/// The place of the slot for `peer`.
spec fn slot_index(slots: Seq<Slot>, peer: PeerId) -> int {
    choose|i: int| 0 <= i < slots.len() && (#[trigger] slots[i]).peer == peer
}

/// No two of `slots` are for the same peer.
spec fn distinct_peers(slots: Seq<Slot>) -> bool {
    forall|i: int, j: int|
        0 <= i < j < slots.len() ==> (#[trigger] slots[i]).peer != (#[trigger] slots[j]).peer
}

/// The slot of a peer is found again by the peer.
proof fn lemma_slot_index(slots: Seq<Slot>, i: int)
    requires
        distinct_peers(slots),
        0 <= i < slots.len(),
    ensures
        is_member(slots, slots[i].peer),
        slot_index(slots, slots[i].peer) == i,
{
    let j = slot_index(slots, slots[i].peer);
    assert(0 <= j < slots.len() && slots[j].peer == slots[i].peer);
    if j < i {
        assert(slots[j].peer != slots[i].peer);
    } else if i < j {
        assert(slots[i].peer != slots[j].peer);
    }
}

/// The result of a send that waits for room.
#[derive(Debug, PartialEq, Eq)]
pub enum SendOutcome {
    /// The message is in the queue of every peer it was for.
    Queued,
    /// The queues of these peers were full and did not take the message.
    /// The sender waits until there is room and sends to them again.
    Waiting(Vec<PeerId>),
    /// Shutdown was requested: nothing was queued.
    Cancelled,
}

/// The result of asking for the next message.
#[derive(Debug, PartialEq, Eq)]
pub enum Received {
    /// The oldest message that was delivered, and who sent it.
    Message(PeerId, Vec<u8>),
    /// Nothing has arrived: the consumer waits.
    Pending,
    /// Shutdown was requested: no message will come.
    Shutdown,
}

/// What became of a message that a connection brought in.
#[derive(Clone, Copy, Debug, PartialEq, Eq, Structural)]
pub enum Delivery {
    /// The message waits for the consumer.
    Accepted,
    /// The inbound queue is full: the connection keeps the message and
    /// offers it again.
    Full,
    /// The sender is a stranger, or shutdown was requested: the message is
    /// gone.
    Dropped,
}

/// Connection manager that keeps a link to every peer of a fixed set.
pub struct PeerConnections {
    slots: Vec<Slot>,
    capacity: usize,
    inbound: VecDeque<(PeerId, Vec<u8>)>,
    inbound_capacity: usize,
    policy: Backoff,
    cancelled: bool,
}

impl PeerConnections {
    /// The peers of the manager, in the order in which they were given.
    pub closed spec fn members(&self) -> Seq<PeerId> {
        Seq::new(self.slots@.len(), |i: int| self.slots@[i].peer)
    }

    /// Whether `peer` is one of the manager's peers.
    pub closed spec fn has_peer(&self, peer: PeerId) -> bool {
        is_member(self.slots@, peer)
    }

    /// The manager's peers are those it was made for.
    pub proof fn has_peer_iff_member(&self, peer: PeerId)
        ensures
            self.has_peer(peer) <==> self.members().contains(peer),
    {
        if is_member(self.slots@, peer) {
            let i = slot_index(self.slots@, peer);
            assert(self.members()[i] == peer);
        }
        if self.members().contains(peer) {
            let i = choose|i: int| 0 <= i < self.members().len() && self.members()[i] == peer;
            assert(self.slots@[i].peer == peer);
        }
    }

    /// No queue holds more than its bound.
    pub proof fn queues_are_bounded(&self, peer: PeerId)
        requires
            self.wf(),
        ensures
            self.outbound(peer).len() <= self.capacity(),
            self.inbound().len() <= self.inbound_capacity(),
            1 <= self.capacity() <= usize::MAX,
            1 <= self.inbound_capacity() <= usize::MAX,
    {
        if is_member(self.slots@, peer) {
            let i = slot_index(self.slots@, peer);
            assert(self.slots@[i].outbound@.len() <= self.capacity);
        }
    }

    /// Once shutdown was requested every link is stopped, and whatever is
    /// reported to one, nothing is to be done: no attempt to connect starts.
    pub proof fn cancelled_links_are_stopped(&self, peer: PeerId, event: LinkEvent)
        requires
            self.wf(),
            self.is_cancelled(),
            self.has_peer(peer),
        ensures
            self.link(peer) matches Some(link) && link.state == LinkState::Stopped
                && link.after(event) == link && link.action(event, self.policy())
                == LinkAction::Nothing,
    {
        let i = slot_index(self.slots@, peer);
        assert(self.slots@[i].link.state == LinkState::Stopped);
    }

    /// The messages waiting to go to `peer`, oldest first; none for a
    /// stranger.
    pub closed spec fn outbound(&self, peer: PeerId) -> Seq<Seq<u8>> {
        if is_member(self.slots@, peer) {
            payloads(self.slots@[slot_index(self.slots@, peer)].outbound@)
        } else {
            Seq::empty()
        }
    }

    /// The link to `peer`; a stranger has none.
    pub closed spec fn link(&self, peer: PeerId) -> Option<Link> {
        if is_member(self.slots@, peer) {
            Some(self.slots@[slot_index(self.slots@, peer)].link)
        } else {
            None
        }
    }

    /// The messages that were delivered and not yet received, oldest first.
    pub closed spec fn inbound(&self) -> Seq<(PeerId, Seq<u8>)> {
        deliveries(self.inbound@)
    }

    /// How many messages the outbound queue of one peer holds at most.
    pub closed spec fn capacity(&self) -> nat {
        self.capacity as nat
    }

    /// How many delivered messages wait for the consumer at most.
    pub closed spec fn inbound_capacity(&self) -> nat {
        self.inbound_capacity as nat
    }

    /// The delays between attempts to connect.
    pub closed spec fn policy(&self) -> Backoff {
        self.policy
    }

    /// Whether shutdown was requested.
    pub closed spec fn is_cancelled(&self) -> bool {
        self.cancelled
    }

    /// The manager's invariant: no peer twice, no queue over its bound, and
    /// after shutdown every link stopped.
    pub closed spec fn wf(&self) -> bool {
        &&& distinct_peers(self.slots@)
        &&& self.capacity >= 1
        &&& self.inbound_capacity >= 1
        &&& self.inbound@.len() <= self.inbound_capacity
        &&& forall|i: int|
            0 <= i < self.slots@.len() ==> (#[trigger] self.slots@[i]).outbound@.len()
                <= self.capacity
        &&& self.cancelled ==> forall|i: int|
            0 <= i < self.slots@.len() ==> (#[trigger] self.slots@[i]).link.state
                == LinkState::Stopped
    }

    /// A manager for `peers` with empty queues and every link disconnected.
    /// There is none where a peer is named twice or a bound is zero.
    pub fn new(
        peers: &[PeerId],
        capacity: usize,
        inbound_capacity: usize,
        policy: Backoff,
    ) -> (made: Option<PeerConnections>)
        ensures
            made is Some <==> peers@.no_duplicates() && capacity >= 1 && inbound_capacity >= 1,
            match made {
                Some(manager) => {
                    &&& manager.wf()
                    &&& manager.members() == peers@
                    &&& forall|peer: PeerId|
                        #[trigger] manager.has_peer(peer) <==> peers@.contains(peer)
                    &&& manager.capacity() == capacity
                    &&& manager.inbound_capacity() == inbound_capacity
                    &&& manager.policy() == policy
                    &&& !manager.is_cancelled()
                    &&& manager.inbound() == Seq::<(PeerId, Seq<u8>)>::empty()
                    &&& forall|peer: PeerId|
                        manager.has_peer(peer) ==> #[trigger] manager.outbound(peer)
                            == Seq::<Seq<u8>>::empty() && manager.link(peer) == Some(
                            Link { state: LinkState::Disconnected, failures: 0 },
                        )
                },
                None => true,
            },
    {
        if capacity == 0 || inbound_capacity == 0 {
            return None;
        }
        let mut slots: Vec<Slot> = Vec::new();
        let mut i: usize = 0;
        while i < peers.len()
            invariant
                i <= peers.len(),
                slots@.len() == i,
                forall|k: int| 0 <= k < i ==> (#[trigger] slots@[k]).peer == peers@[k],
                forall|k: int|
                    0 <= k < i ==> (#[trigger] slots@[k]).outbound@.len() == 0 && slots@[k].link
                        == (Link { state: LinkState::Disconnected, failures: 0 }),
                forall|j: int, k: int| 0 <= j < k < i ==> peers@[j] != peers@[k],
            decreases peers.len() - i,
        {
            let peer = peers[i];
            if is_among(vstd::slice::slice_subrange(peers, 0, i), peer) {
                proof {
                    let j = choose|j: int| 0 <= j < i && peers@.subrange(0, i as int)[j] == peer;
                    assert(peers@[j] == peers@[i as int]);
                }
                return None;
            }
            proof {
                assert forall|j: int| 0 <= j < i implies peers@[j] != peer by {
                    assert(peers@.subrange(0, i as int)[j] == peers@[j]);
                }
            }
            slots.push(Slot { peer, link: Link::new(), outbound: VecDeque::new() });
            i = i + 1;
        }
        let manager = PeerConnections {
            slots,
            capacity,
            inbound: VecDeque::new(),
            inbound_capacity,
            policy,
            cancelled: false,
        };
        proof {
            assert(manager.members() =~= peers@);
            assert forall|peer: PeerId| #[trigger]
                manager.has_peer(peer) <==> peers@.contains(peer) by {
                manager.has_peer_iff_member(peer);
            }
            assert(manager.inbound() =~= Seq::<(PeerId, Seq<u8>)>::empty());
            assert forall|peer: PeerId| manager.has_peer(peer) implies #[trigger] manager.outbound(
                peer,
            ) == Seq::<Seq<u8>>::empty() && manager.link(peer) == Some(
                Link { state: LinkState::Disconnected, failures: 0 },
            ) by {
                let k = slot_index(manager.slots@, peer);
                assert(payloads(manager.slots@[k].outbound@) =~= Seq::<Seq<u8>>::empty());
            }
        }
        Some(manager)
    }

    /// Whether `other` has the same peers, bounds and delays.
    pub open spec fn same_setup(&self, other: &PeerConnections) -> bool {
        &&& self.members() == other.members()
        &&& self.capacity() == other.capacity()
        &&& self.inbound_capacity() == other.inbound_capacity()
        &&& self.policy() == other.policy()
        &&& forall|peer: PeerId| self.has_peer(peer) == other.has_peer(peer)
    }

    /// Whether every link of `other` stands as it does here.
    pub open spec fn same_links(&self, other: &PeerConnections) -> bool {
        forall|peer: PeerId| self.link(peer) == other.link(peer)
    }

    /// Whether every outbound queue of `other` holds what it holds here.
    pub open spec fn same_outbound(&self, other: &PeerConnections) -> bool {
        forall|peer: PeerId| self.outbound(peer) == other.outbound(peer)
    }

    /// Whether `after` is this manager once `message` was offered to the
    /// queues of the peers in `wanted`: each of those queues that had room
    /// holds it at the back, and nothing else differs. After shutdown no
    /// queue takes anything.
    pub open spec fn routes(
        &self,
        after: &PeerConnections,
        wanted: Set<PeerId>,
        message: Seq<u8>,
    ) -> bool {
        &&& after.same_setup(self)
        &&& after.same_links(self)
        &&& after.inbound() == self.inbound()
        &&& after.is_cancelled() == self.is_cancelled()
        &&& forall|peer: PeerId| #[trigger]
            after.outbound(peer) == offered(
                self.outbound(peer),
                self.capacity(),
                !self.is_cancelled() && self.has_peer(peer) && wanted.contains(peer),
                message,
            )
    }

    /// Whether a message for a peer that is `wanted` finds that peer's queue
    /// full.
    pub open spec fn is_blocked(&self, peer: PeerId, wanted: bool) -> bool {
        self.has_peer(peer) && wanted && self.outbound(peer).len() >= self.capacity()
    }

    /// Offers `message` to the queue of every peer that is wanted: all of
    /// them with `everyone`, else those among `peers`. Gives the peers whose
    /// queue was full.
    fn offer(&mut self, everyone: bool, peers: &[PeerId], message: &Vec<u8>) -> (waiting: Vec<
        PeerId,
    >)
        requires
            old(self).wf(),
        ensures
            final(self).wf(),
            final(self).same_setup(old(self)),
            final(self).same_links(old(self)),
            final(self).inbound() == old(self).inbound(),
            final(self).is_cancelled() == old(self).is_cancelled(),
            forall|peer: PeerId| #[trigger]
                final(self).outbound(peer) == offered(
                    old(self).outbound(peer),
                    old(self).capacity(),
                    old(self).has_peer(peer) && (everyone || peers@.contains(peer)),
                    message@,
                ),
            forall|peer: PeerId| #[trigger]
                waiting@.contains(peer) <==> old(self).is_blocked(
                    peer,
                    everyone || peers@.contains(peer),
                ),
            waiting@.no_duplicates(),
    {
        let mut waiting: Vec<PeerId> = Vec::new();
        let mut i: usize = 0;
        while i < self.slots.len()
            invariant
                i <= self.slots@.len(),
                old(self).wf(),
                self.slots@.len() == old(self).slots@.len(),
                self.capacity == old(self).capacity,
                self.inbound_capacity == old(self).inbound_capacity,
                self.inbound == old(self).inbound,
                self.policy == old(self).policy,
                self.cancelled == old(self).cancelled,
                forall|k: int|
                    0 <= k < self.slots@.len() ==> (#[trigger] self.slots@[k]).peer == old(self).slots@[k].peer && self.slots@[k].link == old(self).slots@[k].link,
                forall|k: int|
                    i <= k < self.slots@.len() ==> (#[trigger] self.slots@[k]).outbound@ == old(self).slots@[k].outbound@,
                forall|k: int|
                    0 <= k < i ==> payloads((#[trigger] self.slots@[k]).outbound@) == offered(
                        payloads(old(self).slots@[k].outbound@),
                        self.capacity as nat,
                        everyone || peers@.contains(old(self).slots@[k].peer),
                        message@,
                    ),
                forall|k: int|
                    0 <= k < self.slots@.len() ==> (#[trigger] self.slots@[k]).outbound@.len()
                        <= self.capacity,
                forall|peer: PeerId| #[trigger]
                    waiting@.contains(peer) <==> exists|k: int|
                        0 <= k < i && (#[trigger] old(self).slots@[k]).peer == peer && (everyone
                            || peers@.contains(peer)) && old(self).slots@[k].outbound@.len()
                            >= self.capacity,
                waiting@.no_duplicates(),
            decreases self.slots@.len() - i,
        {
            let peer = self.slots[i].peer;
            let wanted = everyone || is_among(peers, peer);
            let ghost before = self.slots@[i as int].outbound@;
            let ghost waiting_before = waiting@;
            if wanted {
                if self.slots[i].outbound.len() < self.capacity {
                    let copy = copy_of(message);
                    self.slots[i].outbound.push_back(copy);
                    proof {
                        assert(payloads(before.push(copy)) =~= payloads(before).push(message@));
                    }
                } else {
                    proof {
                        assert forall|j: int| 0 <= j < waiting@.len() implies waiting@[j]
                            != peer by {
                            assert(waiting@.contains(waiting@[j]));
                            let k = choose|k: int|
                                0 <= k < i && (#[trigger] old(self).slots@[k]).peer == waiting@[j];
                            assert(old(self).slots@[k].peer != old(self).slots@[i as int].peer);
                        }
                    }
                    waiting.push(peer);
                    proof {
                        assert forall|other: PeerId| #[trigger]
                            waiting@.contains(other) <==> exists|k: int|
                                0 <= k < i + 1 && (#[trigger] old(self).slots@[k]).peer == other
                                    && (everyone || peers@.contains(other)) && old(self).slots@[k].outbound@.len() >= self.capacity by {
                            if waiting@.contains(other) {
                                let j = choose|j: int|
                                    0 <= j < waiting@.len() && waiting@[j] == other;
                                if j < waiting_before.len() {
                                    assert(waiting_before[j] == other);
                                    assert(waiting_before.contains(other));
                                } else {
                                    assert(old(self).slots@[i as int].peer == other);
                                }
                            }
                            if exists|k: int|
                                0 <= k < i + 1 && (#[trigger] old(self).slots@[k]).peer == other
                                    && (everyone || peers@.contains(other)) && old(self).slots@[k].outbound@.len() >= self.capacity {
                                let k = choose|k: int|
                                    0 <= k < i + 1 && (#[trigger] old(self).slots@[k]).peer
                                        == other && (everyone || peers@.contains(other)) && old(self).slots@[k].outbound@.len() >= self.capacity;
                                if k < i {
                                    assert(waiting_before.contains(other));
                                    let j = choose|j: int|
                                        0 <= j < waiting_before.len() && waiting_before[j]
                                            == other;
                                    assert(waiting@[j] == other);
                                } else {
                                    assert(waiting@[waiting_before.len() as int] == other);
                                }
                            }
                        }
                    }
                }
            }
            i = i + 1;
        }
        proof {
            assert(self.members() =~= old(self).members());
            assert forall|peer: PeerId| self.has_peer(peer) == old(self).has_peer(peer) by {
                if is_member(self.slots@, peer) {
                    let k = slot_index(self.slots@, peer);
                    assert(old(self).slots@[k].peer == peer);
                }
                if is_member(old(self).slots@, peer) {
                    let k = slot_index(old(self).slots@, peer);
                    assert(self.slots@[k].peer == peer);
                }
            }
            assert(distinct_peers(self.slots@)) by {
                assert forall|a: int, b: int| 0 <= a < b < self.slots@.len() implies (
                #[trigger] self.slots@[a]).peer != (#[trigger] self.slots@[b]).peer by {
                    assert(old(self).slots@[a].peer != old(self).slots@[b].peer);
                }
            }
            assert forall|peer: PeerId| self.link(peer) == old(self).link(peer) by {
                if is_member(old(self).slots@, peer) {
                    let k = slot_index(old(self).slots@, peer);
                    lemma_slot_index(old(self).slots@, k);
                    assert(self.slots@[k].peer == peer);
                    lemma_slot_index(self.slots@, k);
                }
            }
            assert forall|peer: PeerId| #[trigger]
                self.outbound(peer) == offered(
                    old(self).outbound(peer),
                    old(self).capacity(),
                    old(self).has_peer(peer) && (everyone || peers@.contains(peer)),
                    message@,
                ) by {
                if is_member(old(self).slots@, peer) {
                    let k = slot_index(old(self).slots@, peer);
                    lemma_slot_index(old(self).slots@, k);
                    assert(self.slots@[k].peer == peer);
                    lemma_slot_index(self.slots@, k);
                }
            }
            assert forall|peer: PeerId| #[trigger]
                waiting@.contains(peer) <==> old(self).is_blocked(
                    peer,
                    everyone || peers@.contains(peer),
                ) by {
                if waiting@.contains(peer) {
                    let k = choose|k: int|
                        0 <= k < i && (#[trigger] old(self).slots@[k]).peer == peer && (everyone
                            || peers@.contains(peer)) && old(self).slots@[k].outbound@.len()
                            >= self.capacity;
                    lemma_slot_index(old(self).slots@, k);
                }
                if old(self).is_blocked(peer, everyone || peers@.contains(peer)) {
                    let k = slot_index(old(self).slots@, peer);
                    assert(old(self).slots@[k].peer == peer);
                }
            }
        }
        waiting
    }

    /// The place of the slot for `peer`, if it is one of the manager's.
    fn find(&self, peer: PeerId) -> (at: Option<usize>)
        requires
            self.wf(),
        ensures
            match at {
                Some(k) => k < self.slots@.len() && self.slots@[k as int].peer == peer
                    && self.has_peer(peer) && slot_index(self.slots@, peer) == k,
                None => !self.has_peer(peer),
            },
    {
        let mut i: usize = 0;
        while i < self.slots.len()
            invariant
                self.wf(),
                i <= self.slots@.len(),
                forall|k: int| 0 <= k < i ==> (#[trigger] self.slots@[k]).peer != peer,
            decreases self.slots@.len() - i,
        {
            if self.slots[i].peer.id == peer.id {
                proof {
                    lemma_slot_index(self.slots@, i as int);
                }
                return Some(i);
            }
            i = i + 1;
        }
        None
    }

    /// What changing one slot, and not its peer, does to the manager as a
    /// whole.
    proof fn lemma_one_slot_changed(&self, after: &PeerConnections, k: int)
        requires
            self.wf(),
            0 <= k < self.slots@.len(),
            after.slots@.len() == self.slots@.len(),
            after.slots@[k].peer == self.slots@[k].peer,
            forall|j: int|
                0 <= j < self.slots@.len() && j != k ==> (#[trigger] after.slots@[j]).peer
                    == self.slots@[j].peer && after.slots@[j].link == self.slots@[j].link
                    && after.slots@[j].outbound@ == self.slots@[j].outbound@,
        ensures
            distinct_peers(after.slots@),
            after.members() == self.members(),
            forall|peer: PeerId| after.has_peer(peer) == self.has_peer(peer),
            self.has_peer(self.slots@[k].peer),
            self.outbound(self.slots@[k].peer) == payloads(self.slots@[k].outbound@),
            after.outbound(self.slots@[k].peer) == payloads(after.slots@[k].outbound@),
            self.link(self.slots@[k].peer) == Some(self.slots@[k].link),
            after.link(self.slots@[k].peer) == Some(after.slots@[k].link),
            forall|peer: PeerId|
                peer != self.slots@[k].peer ==> #[trigger] after.outbound(peer) == self.outbound(
                    peer,
                ),
            forall|peer: PeerId|
                peer != self.slots@[k].peer ==> #[trigger] after.link(peer) == self.link(peer),
    {
        assert(after.members() =~= self.members());
        assert forall|a: int, b: int| 0 <= a < b < after.slots@.len() implies (
        #[trigger] after.slots@[a]).peer != (#[trigger] after.slots@[b]).peer by {
            assert(self.slots@[a].peer != self.slots@[b].peer);
        }
        assert forall|peer: PeerId| after.has_peer(peer) == self.has_peer(peer) by {
            if is_member(after.slots@, peer) {
                let j = slot_index(after.slots@, peer);
                assert(self.slots@[j].peer == peer);
            }
            if is_member(self.slots@, peer) {
                let j = slot_index(self.slots@, peer);
                assert(after.slots@[j].peer == peer);
            }
        }
        lemma_slot_index(self.slots@, k);
        lemma_slot_index(after.slots@, k);
        assert forall|peer: PeerId| peer != self.slots@[k].peer implies #[trigger] after.outbound(
            peer,
        ) == self.outbound(peer) by {
            if is_member(self.slots@, peer) {
                let j = slot_index(self.slots@, peer);
                lemma_slot_index(self.slots@, j);
                assert(after.slots@[j].peer == peer);
                lemma_slot_index(after.slots@, j);
            }
        }
        assert forall|peer: PeerId| peer != self.slots@[k].peer implies #[trigger] after.link(peer)
            == self.link(peer) by {
            if is_member(self.slots@, peer) {
                let j = slot_index(self.slots@, peer);
                lemma_slot_index(self.slots@, j);
                assert(after.slots@[j].peer == peer);
                lemma_slot_index(after.slots@, j);
            }
        }
    }



    /// Send `message` to each of the manager's peers that is among `peers`,
    /// once. Where a queue is full the message does not go into it: the
    /// sender learns which peers it has to wait for.
    pub fn send_to(&mut self, peers: &[PeerId], message: &Vec<u8>) -> (outcome: SendOutcome)
        requires
            old(self).wf(),
        ensures
            final(self).wf(),
            old(self).routes(final(self), peers@.to_set(), message@),
            outcome is Cancelled <==> old(self).is_cancelled(),
            outcome is Queued <==> !old(self).is_cancelled() && forall|peer: PeerId|
                !#[trigger] old(self).is_blocked(peer, peers@.contains(peer)),
            match outcome {
                SendOutcome::Cancelled => old(self).is_cancelled(),
                SendOutcome::Queued => !old(self).is_cancelled() && forall|peer: PeerId|
                    !#[trigger] old(self).is_blocked(peer, peers@.contains(peer)),
                SendOutcome::Waiting(waiting) => !old(self).is_cancelled() && waiting@.len() > 0
                    && waiting@.no_duplicates() && forall|peer: PeerId| #[trigger]
                    waiting@.contains(peer) <==> old(self).is_blocked(peer, peers@.contains(peer)),
            },
    {
        if self.cancelled {
            return SendOutcome::Cancelled;
        }
        let waiting = self.offer(false, peers, message);
        if waiting.len() == 0 {
            proof {
                assert forall|peer: PeerId| !#[trigger] old(self).is_blocked(
                    peer,
                    peers@.contains(peer),
                ) by {
                    assert(!waiting@.contains(peer));
                }
            }
            SendOutcome::Queued
        } else {
            proof {
                assert(waiting@.contains(waiting@[0]));
                assert(old(self).is_blocked(waiting@[0], peers@.contains(waiting@[0])));
            }
            SendOutcome::Waiting(waiting)
        }
    }

    /// Takes in a message that the connection to `peer` brought.
    pub fn deliver(&mut self, peer: PeerId, message: Vec<u8>) -> (delivery: Delivery)
        requires
            old(self).wf(),
        ensures
            final(self).wf(),
            final(self).same_setup(old(self)),
            final(self).same_links(old(self)),
            final(self).same_outbound(old(self)),
            final(self).is_cancelled() == old(self).is_cancelled(),
            delivery == if old(self).is_cancelled() || !old(self).has_peer(peer) {
                Delivery::Dropped
            } else if old(self).inbound().len() >= old(self).inbound_capacity() {
                Delivery::Full
            } else {
                Delivery::Accepted
            },
            final(self).inbound() == if delivery == Delivery::Accepted {
                old(self).inbound().push((peer, message@))
            } else {
                old(self).inbound()
            },
    {
        if self.cancelled {
            return Delivery::Dropped;
        }
        match self.find(peer) {
            None => Delivery::Dropped,
            Some(_) => {
                if self.inbound.len() >= self.inbound_capacity {
                    Delivery::Full
                } else {
                    let ghost before = self.inbound@;
                    self.inbound.push_back((peer, message));
                    proof {
                        assert(deliveries(before.push((peer, message))) =~= deliveries(
                            before,
                        ).push((peer, message@)));
                    }
                    Delivery::Accepted
                }
            },
        }
    }


    /// The next message to hand to the connection to `peer`: the oldest one
    /// waiting, while the link is connected.
    pub fn next_outbound(&mut self, peer: PeerId) -> (next: Option<Vec<u8>>)
        requires
            old(self).wf(),
        ensures
            final(self).wf(),
            final(self).same_setup(old(self)),
            final(self).same_links(old(self)),
            final(self).inbound() == old(self).inbound(),
            final(self).is_cancelled() == old(self).is_cancelled(),
            forall|other: PeerId|
                other != peer ==> #[trigger] final(self).outbound(other) == old(self).outbound(
                    other,
                ),
            match next {
                Some(message) => old(self).is_ready(peer) && message@ == old(self).outbound(
                    peer,
                )[0] && final(self).outbound(peer) == old(self).outbound(peer).subrange(
                    1,
                    old(self).outbound(peer).len() as int,
                ),
                None => !old(self).is_ready(peer) && final(self).outbound(peer) == old(self).outbound(peer),
            },
    {
        let at = self.find(peer);
        match at {
            None => None,
            Some(k) => {
                if !matches!(self.slots[k].link.state, LinkState::Connected) {
                    return None;
                }
                let ghost before = self.slots@[k as int].outbound@;
                let next = self.slots[k].outbound.pop_front();
                proof {
                    old(self).lemma_one_slot_changed(self, k as int);
                    if before.len() > 0 {
                        assert(payloads(before.subrange(1, before.len() as int)) =~= payloads(
                            before,
                        ).subrange(1, before.len() as int));
                    }
                }
                next
            },
        }
    }

    /// Whether a message for `peer` can go out now: the peer is one of the
    /// manager's, its link is connected and its queue is not empty.
    pub open spec fn is_ready(&self, peer: PeerId) -> bool {
        &&& self.link(peer) matches Some(link)
        &&& link.state == LinkState::Connected
        &&& self.outbound(peer).len() > 0
    }

    /// Reports to the link of `peer` what happened and says what to do. A
    /// stranger has no link, and nothing is to be done for one.
    pub fn on_link_event(&mut self, peer: PeerId, event: LinkEvent) -> (action: LinkAction)
        requires
            old(self).wf(),
        ensures
            final(self).wf(),
            final(self).same_setup(old(self)),
            final(self).same_outbound(old(self)),
            final(self).inbound() == old(self).inbound(),
            final(self).is_cancelled() == old(self).is_cancelled(),
            forall|other: PeerId|
                other != peer ==> #[trigger] final(self).link(other) == old(self).link(other),
            match old(self).link(peer) {
                Some(link) => final(self).link(peer) == Some(link.after(event)) && action
                    == link.action(event, old(self).policy()),
                None => final(self).link(peer) == None::<Link> && action == LinkAction::Nothing,
            },
    {
        let at = self.find(peer);
        match at {
            None => LinkAction::Nothing,
            Some(k) => {
                let policy = self.policy;
                let action = self.slots[k].link.on_event(event, &policy);
                proof {
                    old(self).lemma_one_slot_changed(self, k as int);
                    assert forall|other: PeerId| #[trigger]
                        self.outbound(other) == old(self).outbound(other) by {}
                }
                action
            },
        }
    }

    /// Requests shutdown: every link stops, and from now on nothing is
    /// queued and nothing is received.
    pub fn cancel(&mut self)
        requires
            old(self).wf(),
        ensures
            final(self).wf(),
            final(self).is_cancelled(),
            final(self).same_setup(old(self)),
            final(self).same_outbound(old(self)),
            final(self).inbound() == old(self).inbound(),
            forall|peer: PeerId| #[trigger]
                final(self).link(peer) == match old(self).link(peer) {
                    Some(link) => Some(link.after(LinkEvent::Cancelled)),
                    None => None,
                },
    {
        let policy = self.policy;
        let mut i: usize = 0;
        while i < self.slots.len()
            invariant
                i <= self.slots@.len(),
                old(self).wf(),
                self.slots@.len() == old(self).slots@.len(),
                self.capacity == old(self).capacity,
                self.inbound_capacity == old(self).inbound_capacity,
                self.inbound == old(self).inbound,
                self.policy == old(self).policy,
                self.cancelled == old(self).cancelled,
                forall|k: int|
                    0 <= k < self.slots@.len() ==> (#[trigger] self.slots@[k]).peer == old(self).slots@[k].peer && self.slots@[k].outbound@ == old(self).slots@[k].outbound@,
                forall|k: int|
                    i <= k < self.slots@.len() ==> (#[trigger] self.slots@[k]).link == old(self).slots@[k].link,
                forall|k: int|
                    0 <= k < i ==> (#[trigger] self.slots@[k]).link == old(self).slots@[k].link.after(LinkEvent::Cancelled),
            decreases self.slots@.len() - i,
        {
            let _ = self.slots[i].link.on_event(LinkEvent::Cancelled, &policy);
            i = i + 1;
        }
        self.cancelled = true;
        proof {
            assert(self.members() =~= old(self).members());
            assert forall|a: int, b: int| 0 <= a < b < self.slots@.len() implies (
            #[trigger] self.slots@[a]).peer != (#[trigger] self.slots@[b]).peer by {
                assert(old(self).slots@[a].peer != old(self).slots@[b].peer);
            }
            assert forall|peer: PeerId| self.has_peer(peer) == old(self).has_peer(peer) by {
                if is_member(self.slots@, peer) {
                    let j = slot_index(self.slots@, peer);
                    assert(old(self).slots@[j].peer == peer);
                }
                if is_member(old(self).slots@, peer) {
                    let j = slot_index(old(self).slots@, peer);
                    assert(self.slots@[j].peer == peer);
                }
            }
            assert forall|peer: PeerId| #[trigger]
                self.outbound(peer) == old(self).outbound(peer) by {
                if is_member(old(self).slots@, peer) {
                    let j = slot_index(old(self).slots@, peer);
                    lemma_slot_index(old(self).slots@, j);
                    assert(self.slots@[j].peer == peer);
                    lemma_slot_index(self.slots@, j);
                }
            }
            assert forall|peer: PeerId| #[trigger]
                self.link(peer) == match old(self).link(peer) {
                    Some(link) => Some(link.after(LinkEvent::Cancelled)),
                    None => None,
                } by {
                if is_member(old(self).slots@, peer) {
                    let j = slot_index(old(self).slots@, peer);
                    lemma_slot_index(old(self).slots@, j);
                    assert(self.slots@[j].peer == peer);
                    lemma_slot_index(self.slots@, j);
                }
            }
        }
    }

    /// The manager's peers, in the order in which they were given.
    pub fn peers(&self) -> (peers: Vec<PeerId>)
        ensures
            peers@ == self.members(),
    {
        let mut peers: Vec<PeerId> = Vec::new();
        let mut i: usize = 0;
        while i < self.slots.len()
            invariant
                i <= self.slots@.len(),
                peers@.len() == i,
                forall|k: int| 0 <= k < i ==> peers@[k] == self.slots@[k].peer,
            decreases self.slots@.len() - i,
        {
            peers.push(self.slots[i].peer);
            i = i + 1;
        }
        assert(peers@ =~= self.members());
        peers
    }

    /// How many messages wait to go to `peer`.
    pub fn queued(&self, peer: PeerId) -> (count: usize)
        requires
            self.wf(),
        ensures
            count == self.outbound(peer).len(),
    {
        match self.find(peer) {
            None => 0,
            Some(k) => self.slots[k].outbound.len(),
        }
    }

    /// How many delivered messages wait for the consumer.
    pub fn delivered(&self) -> (count: usize)
        ensures
            count == self.inbound().len(),
    {
        self.inbound.len()
    }

    /// Where the link to `peer` stands; a stranger has none.
    pub fn link_state(&self, peer: PeerId) -> (state: Option<LinkState>)
        requires
            self.wf(),
        ensures
            state == match self.link(peer) {
                Some(link) => Some(link.state),
                None => None,
            },
    {
        match self.find(peer) {
            None => None,
            Some(k) => Some(self.slots[k].link.state),
        }
    }

    /// Whether shutdown was requested.
    pub fn is_shut_down(&self) -> (cancelled: bool)
        ensures
            cancelled == self.is_cancelled(),
    {
        self.cancelled
    }
}

/// Connection manager that tries to keep connections open to all peers.
pub trait IPeerConnections {
    /// The manager's invariant.
    spec fn usable(&self) -> bool;

    /// Whether `peer` is one of the peers that the manager serves.
    spec fn serves(&self, peer: PeerId) -> bool;

    /// The messages waiting to go to `peer`, oldest first.
    spec fn pending(&self, peer: PeerId) -> Seq<Seq<u8>>;

    /// How many messages wait for one peer at most.
    spec fn room(&self) -> nat;

    /// The messages that peers sent and the consumer has not received yet,
    /// oldest first.
    spec fn arrived(&self) -> Seq<(PeerId, Seq<u8>)>;

    /// Whether shutdown was requested.
    spec fn stopping(&self) -> bool;

    /// Send `message` to `recipient`; where a queue is full, the sender has
    /// to wait for room.
    fn send(&mut self, recipient: Recipient, message: Vec<u8>) -> (outcome: SendOutcome)
        requires
            old(self).usable(),
        ensures
            final(self).usable(),
            final(self).stopping() == old(self).stopping(),
            final(self).room() == old(self).room(),
            final(self).arrived() == old(self).arrived(),
            forall|peer: PeerId| final(self).serves(peer) == old(self).serves(peer),
            forall|peer: PeerId| #[trigger]
                final(self).pending(peer) == offered(
                    old(self).pending(peer),
                    old(self).room(),
                    !old(self).stopping() && old(self).serves(peer) && recipient.includes(peer),
                    message@,
                ),
            outcome is Cancelled <==> old(self).stopping(),
            outcome is Queued <==> !old(self).stopping() && forall|peer: PeerId|
                !(old(self).serves(peer) && recipient.includes(peer) && (#[trigger] old(self).pending(peer)).len() >= old(self).room()),
    ;

    /// Try to send `message` to `recipient`; where a queue is full, the
    /// message is dropped.
    fn try_send(&mut self, recipient: Recipient, message: Vec<u8>)
        requires
            old(self).usable(),
        ensures
            final(self).usable(),
            final(self).stopping() == old(self).stopping(),
            final(self).room() == old(self).room(),
            final(self).arrived() == old(self).arrived(),
            forall|peer: PeerId| final(self).serves(peer) == old(self).serves(peer),
            forall|peer: PeerId| #[trigger]
                final(self).pending(peer) == offered(
                    old(self).pending(peer),
                    old(self).room(),
                    !old(self).stopping() && old(self).serves(peer) && recipient.includes(peer),
                    message@,
                ),
    ;

    /// The next message that a peer sent, if one has arrived, or the news
    /// that shutdown is under way.
    fn receive(&mut self) -> (received: Received)
        requires
            old(self).usable(),
        ensures
            final(self).usable(),
            final(self).stopping() == old(self).stopping(),
            final(self).room() == old(self).room(),
            forall|peer: PeerId| final(self).serves(peer) == old(self).serves(peer),
            forall|peer: PeerId| #[trigger] final(self).pending(peer) == old(self).pending(peer),
            match received {
                Received::Shutdown => old(self).stopping() && final(self).arrived() == old(self).arrived(),
                Received::Pending => !old(self).stopping() && old(self).arrived().len() == 0
                    && final(self).arrived() == old(self).arrived(),
                Received::Message(from, message) => !old(self).stopping() && old(self).arrived().len() > 0 && (from, message@) == old(self).arrived()[0] && final(self).arrived() == old(self).arrived().subrange(
                    1,
                    old(self).arrived().len() as int,
                ),
            },
    ;
}

impl IPeerConnections for PeerConnections {
    open spec fn usable(&self) -> bool {
        self.wf()
    }

    open spec fn serves(&self, peer: PeerId) -> bool {
        self.has_peer(peer)
    }

    open spec fn pending(&self, peer: PeerId) -> Seq<Seq<u8>> {
        self.outbound(peer)
    }

    open spec fn room(&self) -> nat {
        self.capacity()
    }

    open spec fn arrived(&self) -> Seq<(PeerId, Seq<u8>)> {
        self.inbound()
    }

    open spec fn stopping(&self) -> bool {
        self.is_cancelled()
    }

    /// Send `message` to `recipient`. Where a queue is full the message does
    /// not go into it: the sender learns which peers it has to wait for.
    fn send(&mut self, recipient: Recipient, message: Vec<u8>) -> (outcome: SendOutcome)
        ensures
            final(self).wf(),
            old(self).routes(final(self), recipient.targets(), message@),
            outcome is Cancelled <==> old(self).is_cancelled(),
            outcome is Queued <==> !old(self).is_cancelled() && forall|peer: PeerId|
                !#[trigger] old(self).is_blocked(peer, recipient.includes(peer)),
            match outcome {
                SendOutcome::Cancelled => old(self).is_cancelled(),
                SendOutcome::Queued => !old(self).is_cancelled() && forall|peer: PeerId|
                    !#[trigger] old(self).is_blocked(peer, recipient.includes(peer)),
                SendOutcome::Waiting(waiting) => !old(self).is_cancelled() && waiting@.len() > 0
                    && waiting@.no_duplicates() && forall|peer: PeerId| #[trigger]
                    waiting@.contains(peer) <==> old(self).is_blocked(peer, recipient.includes(peer)),
            },
    {
        if self.cancelled {
            return SendOutcome::Cancelled;
        }
        let waiting = match recipient {
            Recipient::Everyone => {
                let nobody: Vec<PeerId> = Vec::new();
                self.offer(true, nobody.as_slice(), &message)
            },
            Recipient::Peer(target) => {
                let one: Vec<PeerId> = vec![target];
                proof {
                    assert forall|peer: PeerId| one@.contains(peer) == (target == peer) by {
                        if target == peer {
                            assert(one@[0] == peer);
                        }
                    }
                }
                self.offer(false, one.as_slice(), &message)
            },
        };
        if waiting.len() == 0 {
            proof {
                assert forall|peer: PeerId| !#[trigger] old(self).is_blocked(
                    peer,
                    recipient.includes(peer),
                ) by {
                    assert(!waiting@.contains(peer));
                }
                assert forall|peer: PeerId|
                    !(old(self).serves(peer) && recipient.includes(peer) && (#[trigger] old(self).pending(peer)).len() >= old(self).room()) by {
                    assert(!old(self).is_blocked(peer, recipient.includes(peer)));
                }
            }
            SendOutcome::Queued
        } else {
            proof {
                assert(waiting@.contains(waiting@[0]));
                assert(old(self).is_blocked(waiting@[0], recipient.includes(waiting@[0])));
                assert(old(self).serves(waiting@[0]) && old(self).pending(waiting@[0]).len()
                    >= old(self).room());
            }
            SendOutcome::Waiting(waiting)
        }
    }

    /// Try to send `message` to `recipient`: where a queue is full, the
    /// message for that peer is dropped.
    fn try_send(&mut self, recipient: Recipient, message: Vec<u8>)
        ensures
            final(self).wf(),
            old(self).routes(final(self), recipient.targets(), message@),
    {
        let _ = self.send(recipient, message);
    }

    /// The oldest message that was delivered, if any. After shutdown there
    /// is none.
    fn receive(&mut self) -> (received: Received)
        ensures
            final(self).wf(),
            final(self).same_setup(old(self)),
            final(self).same_links(old(self)),
            final(self).same_outbound(old(self)),
            final(self).is_cancelled() == old(self).is_cancelled(),
            match received {
                Received::Shutdown => old(self).is_cancelled() && final(self).inbound() == old(self).inbound(),
                Received::Pending => !old(self).is_cancelled() && old(self).inbound().len() == 0
                    && final(self).inbound() == old(self).inbound(),
                Received::Message(from, message) => !old(self).is_cancelled() && old(self).inbound().len() > 0 && (from, message@) == old(self).inbound()[0] && final(self).inbound() == old(self).inbound().subrange(
                    1,
                    old(self).inbound().len() as int,
                ),
            },
    {
        if self.cancelled {
            return Received::Shutdown;
        }
        let ghost before = self.inbound@;
        match self.inbound.pop_front() {
            None => Received::Pending,
            Some((from, message)) => {
                proof {
                    assert(deliveries(before.subrange(1, before.len() as int)) =~= deliveries(
                        before,
                    ).subrange(1, before.len() as int));
                }
                Received::Message(from, message)
            },
        }
    }
}

/// What a queue holds after each of `messages` was offered to it in turn.
pub open spec fn offered_all(queue: Seq<Seq<u8>>, capacity: nat, messages: Seq<Seq<u8>>) -> Seq<
    Seq<u8>,
>
    decreases messages.len(),
{
    if messages.len() == 0 {
        queue
    } else {
        offered_all(
            offered(queue, capacity, true, messages[0]),
            capacity,
            messages.subrange(1, messages.len() as int),
        )
    }
}

/// A queue hands its messages on in the order in which they came: what was
/// offered while there was room stands behind what was there, first come
/// first, and what was offered to the full queue is not in it.
pub proof fn queue_keeps_order(queue: Seq<Seq<u8>>, capacity: nat, messages: Seq<Seq<u8>>)
    requires
        queue.len() <= capacity,
    ensures
        offered_all(queue, capacity, messages) == (queue + messages).take(
            least_len(queue.len() + messages.len(), capacity) as int,
        ),
    decreases messages.len(),
{
    if messages.len() == 0 {
        assert(queue + messages =~= queue);
        assert(queue.take(queue.len() as int) =~= queue);
    } else {
        let rest = messages.subrange(1, messages.len() as int);
        let next = offered(queue, capacity, true, messages[0]);
        queue_keeps_order(next, capacity, rest);
        if queue.len() < capacity {
            assert(next + rest =~= queue + messages);
        } else {
            assert((next + rest).take(capacity as int) =~= (queue + messages).take(
                capacity as int,
            ));
        }
    }
}

/// The smaller of two lengths.
pub open spec fn least_len(a: nat, b: nat) -> nat {
    if a <= b {
        a
    } else {
        b
    }
}

/// Two messages sent to one peer one after the other stand in its queue in
/// that order, behind what was waiting, and the queue is emptied from the
/// front: the peer gets the first before the second.
pub proof fn sends_keep_order(
    before: PeerConnections,
    between: PeerConnections,
    after: PeerConnections,
    peer: PeerId,
    first: Seq<u8>,
    second: Seq<u8>,
)
    requires
        before.routes(&between, Recipient::Peer(peer).targets(), first),
        between.routes(&after, Recipient::Peer(peer).targets(), second),
        before.has_peer(peer),
        !before.is_cancelled(),
        before.outbound(peer).len() + 2 <= before.capacity(),
    ensures
        after.outbound(peer) == before.outbound(peer).push(first).push(second),
{
}

/// A message for everyone goes to the back of the queue of each peer that
/// has room, once, whatever the state of the other queues.
pub proof fn broadcast_reaches_each_peer(
    before: PeerConnections,
    after: PeerConnections,
    message: Seq<u8>,
)
    requires
        before.routes(&after, Recipient::Everyone.targets(), message),
        !before.is_cancelled(),
    ensures
        forall|peer: PeerId|
            before.has_peer(peer) && before.outbound(peer).len() < before.capacity()
                ==> #[trigger] after.outbound(peer) == before.outbound(peer).push(message),
        forall|peer: PeerId|
            !(before.has_peer(peer) && before.outbound(peer).len() < before.capacity())
                ==> #[trigger] after.outbound(peer) == before.outbound(peer),
{
}

/// A message for one peer leaves the queues of all others alone.
pub proof fn unicast_touches_one_queue(
    before: PeerConnections,
    after: PeerConnections,
    peer: PeerId,
    message: Seq<u8>,
)
    requires
        before.routes(&after, Recipient::Peer(peer).targets(), message),
    ensures
        forall|other: PeerId|
            other != peer ==> #[trigger] after.outbound(other) == before.outbound(other),
{
}

/// A message for a peer whose queue is full changes nothing: a sender that
/// does not wait has dropped it.
pub proof fn full_queue_takes_nothing(
    before: PeerConnections,
    after: PeerConnections,
    peer: PeerId,
    message: Seq<u8>,
)
    requires
        before.routes(&after, Recipient::Peer(peer).targets(), message),
        before.outbound(peer).len() >= before.capacity(),
    ensures
        after.same_outbound(&before),
        before.has_peer(peer) ==> before.is_blocked(peer, true),
{
}

/// After shutdown no send queues anything.
pub proof fn cancelled_manager_queues_nothing(
    before: PeerConnections,
    after: PeerConnections,
    wanted: Set<PeerId>,
    message: Seq<u8>,
)
    requires
        before.routes(&after, wanted, message),
        before.is_cancelled(),
    ensures
        after.same_outbound(&before),
{
}

} // verus!
