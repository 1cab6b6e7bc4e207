//! The multiplexer: many logical channels, told apart by a key, over the one
//! connection per peer that the manager keeps.
//!
//! On the way out a message is tagged with its key and goes to the manager.
//! On the way in each message that the manager received is untagged and put
//! into the queue of its key, where the consumer of that key finds it.
use std::collections::VecDeque;
use vstd::prelude::*;
use vstd::slice::{slice_subrange, slice_to_vec};

use crate::manager::{
    deliveries, offered, IPeerConnections, PeerConnections, Received, SendOutcome,
};
use crate::peer::PeerId;
use crate::wire::{get_le64, le64, le64_value, lemma_le64_round_trip, put_le64};

verus! {

/// Shutdown is under way: the operation was not carried out, and nothing is
/// wrong.
#[derive(Clone, Copy, Debug, PartialEq, Eq, Structural)]
pub struct Cancelled;

/// What gives way when a message arrives for a key whose queue is full.
#[derive(Clone, Copy, Debug, PartialEq, Eq, Structural)]
pub enum Overflow {
    /// The message that arrived is dropped.
    DropNewest,
    /// The oldest message in the queue is dropped.
    DropOldest,
}

/// What became of the message that was routed.
#[derive(Clone, Copy, Debug, PartialEq, Eq, Structural)]
pub enum Routed {
    /// There was nothing to route.
    Idle,
    /// The message was too short to hold a key, and was dropped.
    Malformed,
    /// The message waits in the queue of this key.
    Buffered(u64),
    /// The queue of this key was full, and a message gave way.
    Overflowed(u64),
}

/// A message tagged with its key: the key in eight bytes, least significant
/// first, then the message.
pub open spec fn tagged(key: u64, message: Seq<u8>) -> Seq<u8> {
    le64(key) + message
}

/// The key and the message that `bytes` holds; none where `bytes` is too
/// short for a key.
pub open spec fn untagged(bytes: Seq<u8>) -> Option<(u64, Seq<u8>)> {
    if bytes.len() < 8 {
        None
    } else {
        Some((le64_value(bytes.subrange(0, 8)), bytes.subrange(8, bytes.len() as int)))
    }
}

/// A queue after `item` arrived for it: at the back while there is room; in a
/// full queue either the item or the oldest entry gives way.
pub open spec fn buffered(
    queue: Seq<(PeerId, Seq<u8>)>,
    bound: nat,
    overflow: Overflow,
    item: (PeerId, Seq<u8>),
) -> Seq<(PeerId, Seq<u8>)> {
    if queue.len() < bound {
        queue.push(item)
    } else {
        match overflow {
            Overflow::DropNewest => queue,
            Overflow::DropOldest => queue.subrange(1, queue.len() as int).push(item),
        }
    }
}

/// Untagging a tagged message gives the key and the message back.
pub proof fn tag_round_trip(key: u64, message: Seq<u8>)
    ensures
        untagged(tagged(key, message)) == Some((key, message)),
{
    let b = tagged(key, message);
    lemma_le64_round_trip(key);
    assert(b.subrange(0, 8) =~= le64(key));
    assert(b.subrange(8, b.len() as int) =~= message);
}

/// Tags `message` with `key`.
pub fn tag_message(key: u64, message: &Vec<u8>) -> (bytes: Vec<u8>)
    ensures
        bytes@ == tagged(key, message@),
{
    let mut out: Vec<u8> = Vec::new();
    put_le64(&mut out, key);
    let ghost head = out@;
    out.extend_from_slice(message.as_slice());
    assert(out@ =~= head + message@);
    out
}

/// Splits a tagged message into its key and the message.
pub fn untag_message(bytes: &Vec<u8>) -> (r: Option<(u64, Vec<u8>)>)
    ensures
        match r {
            Some((key, message)) => untagged(bytes@) == Some((key, message@)),
            None => untagged(bytes@) is None,
        },
{
    if bytes.len() < 8 {
        return None;
    }
    let key: u64 = get_le64(bytes.as_slice(), 0);
    let message = slice_to_vec(slice_subrange(bytes.as_slice(), 8, bytes.len()));
    Some((key, message))
}

/// The messages that wait for the consumer of one key.
struct Channel {
    key: u64,
    queue: VecDeque<(PeerId, Vec<u8>)>,
}

spec fn has_channel(channels: Seq<Channel>, key: u64) -> bool {
    exists|i: int| 0 <= i < channels.len() && (#[trigger] channels[i]).key == key
}

spec fn channel_index(channels: Seq<Channel>, key: u64) -> int {
    choose|i: int| 0 <= i < channels.len() && (#[trigger] channels[i]).key == key
}

spec fn distinct_keys(channels: Seq<Channel>) -> bool {
    forall|i: int, j: int|
        0 <= i < j < channels.len() ==> (#[trigger] channels[i]).key != (
        #[trigger] channels[j]).key
}

spec fn queue_of(channels: Seq<Channel>, key: u64) -> Seq<(PeerId, Seq<u8>)> {
    if has_channel(channels, key) {
        deliveries(channels[channel_index(channels, key)].queue@)
    } else {
        Seq::empty()
    }
}

proof fn lemma_channel_index(channels: Seq<Channel>, i: int)
    requires
        distinct_keys(channels),
        0 <= i < channels.len(),
    ensures
        has_channel(channels, channels[i].key),
        channel_index(channels, channels[i].key) == i,
{
    let j = channel_index(channels, channels[i].key);
    assert(0 <= j < channels.len() && channels[j].key == channels[i].key);
    if j < i {
        assert(channels[j].key != channels[i].key);
    } else if i < j {
        assert(channels[i].key != channels[j].key);
    }
}

/// Changing the queue of one channel leaves the others as they were.
proof fn lemma_one_channel_changed(before: Seq<Channel>, after: Seq<Channel>, k: int)
    requires
        distinct_keys(before),
        0 <= k < before.len(),
        after.len() == before.len(),
        after[k].key == before[k].key,
        forall|j: int|
            0 <= j < before.len() && j != k ==> (#[trigger] after[j]).key == before[j].key
                && after[j].queue@ == before[j].queue@,
    ensures
        distinct_keys(after),
        queue_of(after, before[k].key) == deliveries(after[k].queue@),
        queue_of(before, before[k].key) == deliveries(before[k].queue@),
        forall|key: u64|
            key != before[k].key ==> #[trigger] queue_of(after, key) == queue_of(before, key),
{
    assert forall|a: int, b: int| 0 <= a < b < after.len() implies (#[trigger] after[a]).key != (
    #[trigger] after[b]).key by {
        assert(before[a].key != before[b].key);
    }
    lemma_channel_index(before, k);
    lemma_channel_index(after, k);
    assert forall|key: u64| key != before[k].key implies #[trigger] queue_of(after, key)
        == queue_of(before, key) by {
        if has_channel(before, key) {
            let j = channel_index(before, key);
            lemma_channel_index(before, j);
            assert(after[j].key == key);
            lemma_channel_index(after, j);
        } else if has_channel(after, key) {
            let j = channel_index(after, key);
            assert(before[j].key == key);
        }
    }
}

/// A new channel at the end leaves the others as they were.
proof fn lemma_channel_added(before: Seq<Channel>, after: Seq<Channel>)
    requires
        distinct_keys(before),
        after.len() == before.len() + 1,
        !has_channel(before, after[before.len() as int].key),
        forall|j: int|
            0 <= j < before.len() ==> (#[trigger] after[j]).key == before[j].key
                && after[j].queue@ == before[j].queue@,
    ensures
        distinct_keys(after),
        queue_of(after, after[before.len() as int].key) == deliveries(
            after[before.len() as int].queue@,
        ),
        forall|key: u64|
            key != after[before.len() as int].key ==> #[trigger] queue_of(after, key)
                == queue_of(before, key),
{
    let n = before.len() as int;
    assert forall|a: int, b: int| 0 <= a < b < after.len() implies (#[trigger] after[a]).key != (
    #[trigger] after[b]).key by {
        if b < n {
            assert(before[a].key != before[b].key);
        } else {
            assert(before[a].key == after[a].key);
        }
    }
    lemma_channel_index(after, n);
    assert forall|key: u64| key != after[n].key implies #[trigger] queue_of(after, key)
        == queue_of(before, key) by {
        if has_channel(before, key) {
            let j = channel_index(before, key);
            lemma_channel_index(before, j);
            assert(after[j].key == key);
            lemma_channel_index(after, j);
        } else if has_channel(after, key) {
            let j = channel_index(after, key);
            assert(j < n);
            assert(before[j].key == key);
        }
    }
}

/// Peer connections shared by many consumers, each with a key of its own.
pub struct MuxPeerConnections {
    connections: PeerConnections,
    channels: Vec<Channel>,
    bound: usize,
    overflow: Overflow,
}

impl MuxPeerConnections {
    /// The manager underneath.
    pub closed spec fn manager(&self) -> PeerConnections {
        self.connections
    }

    /// The messages that wait for the consumer of `key`, oldest first, each
    /// with its sender.
    pub closed spec fn channel(&self, key: u64) -> Seq<(PeerId, Seq<u8>)> {
        queue_of(self.channels@, key)
    }

    /// How many messages wait for one key at most.
    pub closed spec fn bound(&self) -> nat {
        self.bound as nat
    }

    /// What gives way in a full queue.
    pub closed spec fn overflow(&self) -> Overflow {
        self.overflow
    }

    /// The invariant of the channels: no key twice, no queue over the bound.
    pub closed spec fn channels_wf(&self) -> bool {
        &&& distinct_keys(self.channels@)
        &&& self.bound >= 1
        &&& forall|i: int|
            0 <= i < self.channels@.len() ==> (#[trigger] self.channels@[i]).queue@.len()
                <= self.bound
    }

    /// No key has more messages waiting than the bound.
    pub proof fn channels_are_bounded(&self, key: u64)
        requires
            self.channels_wf(),
        ensures
            self.channel(key).len() <= self.bound(),
            self.bound() >= 1,
    {
        if has_channel(self.channels@, key) {
            let i = channel_index(self.channels@, key);
            assert(self.channels@[i].queue@.len() <= self.bound);
        }
    }

    /// The multiplexer's invariant: that of the manager and that of the
    /// channels.
    pub open spec fn wf(&self) -> bool {
        self.manager().wf() && self.channels_wf()
    }

    /// Whether `other` has the same channels with the same messages, the
    /// same bound and the same way to overflow.
    pub open spec fn same_channels(&self, other: &MuxPeerConnections) -> bool {
        &&& self.bound() == other.bound()
        &&& self.overflow() == other.overflow()
        &&& forall|key: u64| self.channel(key) == other.channel(key)
    }

    /// Whether `other` has the same manager underneath, in the same state.
    pub open spec fn same_connections(&self, other: &MuxPeerConnections) -> bool {
        &&& self.manager().same_setup(&other.manager())
        &&& self.manager().same_links(&other.manager())
        &&& self.manager().same_outbound(&other.manager())
        &&& self.manager().inbound() == other.manager().inbound()
        &&& self.manager().is_cancelled() == other.manager().is_cancelled()
    }

    /// A multiplexer over `connections` with no message waiting. There is
    /// none where the bound is zero.
    pub fn new(connections: PeerConnections, bound: usize, overflow: Overflow) -> (made: Option<
        MuxPeerConnections,
    >)
        requires
            connections.wf(),
        ensures
            made is Some <==> bound >= 1,
            match made {
                Some(mux) => {
                    &&& mux.wf()
                    &&& mux.manager() == connections
                    &&& mux.bound() == bound
                    &&& mux.overflow() == overflow
                    &&& forall|key: u64| #[trigger]
                        mux.channel(key) == Seq::<(PeerId, Seq<u8>)>::empty()
                },
                None => true,
            },
    {
        if bound == 0 {
            return None;
        }
        Some(MuxPeerConnections { connections, channels: Vec::new(), bound, overflow })
    }

    /// The place of the channel for `key`, if there is one.
    fn find(&self, key: u64) -> (at: Option<usize>)
        requires
            self.channels_wf(),
        ensures
            match at {
                Some(k) => k < self.channels@.len() && self.channels@[k as int].key == key
                    && has_channel(self.channels@, key) && channel_index(self.channels@, key)
                    == k,
                None => !has_channel(self.channels@, key),
            },
    {
        let mut i: usize = 0;
        while i < self.channels.len()
            invariant
                self.channels_wf(),
                i <= self.channels@.len(),
                forall|k: int| 0 <= k < i ==> (#[trigger] self.channels@[k]).key != key,
            decreases self.channels@.len() - i,
        {
            if self.channels[i].key == key {
                proof {
                    lemma_channel_index(self.channels@, i as int);
                }
                return Some(i);
            }
            i = i + 1;
        }
        None
    }



    /// Puts `message` from `from` into the queue of `key`. Gives whether
    /// the queue was full.
    fn buffer(&mut self, key: u64, from: PeerId, message: Vec<u8>) -> (full: bool)
        requires
            old(self).channels_wf(),
        ensures
            final(self).channels_wf(),
            final(self).manager() == old(self).manager(),
            final(self).bound() == old(self).bound(),
            final(self).overflow() == old(self).overflow(),
            full == (old(self).channel(key).len() >= old(self).bound()),
            final(self).channel(key) == buffered(
                old(self).channel(key),
                old(self).bound(),
                old(self).overflow(),
                (from, message@),
            ),
            forall|other: u64|
                other != key ==> #[trigger] final(self).channel(other) == old(self).channel(
                    other,
                ),
    {
        match self.find(key) {
            None => {
                let mut queue: VecDeque<(PeerId, Vec<u8>)> = VecDeque::new();
                queue.push_back((from, message));
                proof {
                    assert(deliveries(queue@) =~= Seq::<(PeerId, Seq<u8>)>::empty().push(
                        (from, message@),
                    ));
                }
                self.channels.push(Channel { key, queue });
                proof {
                    lemma_channel_added(old(self).channels@, self.channels@);
                }
                false
            },
            Some(k) => {
                let ghost before = self.channels@[k as int].queue@;
                let full = self.channels[k].queue.len() >= self.bound;
                if !full {
                    self.channels[k].queue.push_back((from, message));
                    proof {
                        assert(deliveries(before.push((from, message))) =~= deliveries(
                            before,
                        ).push((from, message@)));
                    }
                } else {
                    match self.overflow {
                        Overflow::DropNewest => {},
                        Overflow::DropOldest => {
                            let _ = self.channels[k].queue.pop_front();
                            let ghost shorter = self.channels@[k as int].queue@;
                            self.channels[k].queue.push_back((from, message));
                            proof {
                                assert(shorter == before.subrange(1, before.len() as int));
                                assert(deliveries(shorter.push((from, message))) =~= deliveries(
                                    before,
                                ).subrange(1, before.len() as int).push((from, message@)));
                            }
                        },
                    }
                }
                proof {
                    lemma_one_channel_changed(old(self).channels@, self.channels@, k as int);
                }
                full
            },
        }
    }

    /// Takes the oldest message that the manager received and puts it into
    /// the queue of the key that it is tagged with. Gives what became of it
    /// and who sent it, so that the sender of a message without a key can be
    /// held to account.
    pub fn route_next_from(&mut self) -> (r: (Routed, Option<PeerId>))
        requires
            old(self).wf(),
        ensures
            final(self).wf(),
            final(self).bound() == old(self).bound(),
            final(self).overflow() == old(self).overflow(),
            final(self).manager().same_setup(&old(self).manager()),
            final(self).manager().same_links(&old(self).manager()),
            final(self).manager().same_outbound(&old(self).manager()),
            final(self).manager().is_cancelled() == old(self).manager().is_cancelled(),
            old(self).routes_next(final(self), r.0),
            r.1 == old(self).next_sender(),
    {
        match self.connections.receive() {
            Received::Shutdown => (Routed::Idle, None),
            Received::Pending => (Routed::Idle, None),
            Received::Message(from, bytes) => match untag_message(&bytes) {
                None => (Routed::Malformed, Some(from)),
                Some((key, message)) => {
                    if self.buffer(key, from, message) {
                        (Routed::Overflowed(key), Some(from))
                    } else {
                        (Routed::Buffered(key), Some(from))
                    }
                },
            },
        }
    }

    /// Takes the oldest message that the manager received and puts it into
    /// the queue of the key that it is tagged with.
    pub fn route_next(&mut self) -> (routed: Routed)
        requires
            old(self).wf(),
        ensures
            final(self).wf(),
            final(self).bound() == old(self).bound(),
            final(self).overflow() == old(self).overflow(),
            final(self).manager().same_setup(&old(self).manager()),
            final(self).manager().same_links(&old(self).manager()),
            final(self).manager().same_outbound(&old(self).manager()),
            final(self).manager().is_cancelled() == old(self).manager().is_cancelled(),
            old(self).routes_next(final(self), routed),
    {
        self.route_next_from().0
    }

    /// The sender of the message that is routed next; none where nothing is
    /// there to route.
    pub open spec fn next_sender(&self) -> Option<PeerId> {
        if self.manager().is_cancelled() || self.manager().inbound().len() == 0 {
            None
        } else {
            Some(self.manager().inbound()[0].0)
        }
    }

    /// Routes every message that the manager received, oldest first. Gives
    /// their number, and the senders of those that held no key, oldest
    /// first. After shutdown nothing is routed.
    pub fn route_all(&mut self) -> (r: (usize, Vec<PeerId>))
        requires
            old(self).wf(),
        ensures
            final(self).wf(),
            final(self).bound() == old(self).bound(),
            final(self).overflow() == old(self).overflow(),
            final(self).manager().same_setup(&old(self).manager()),
            final(self).manager().same_links(&old(self).manager()),
            final(self).manager().same_outbound(&old(self).manager()),
            final(self).manager().is_cancelled() == old(self).manager().is_cancelled(),
            old(self).manager().is_cancelled() ==> r.0 == 0 && r.1@.len() == 0 && final(self).manager().inbound() == old(self).manager().inbound() && final(self).same_channels(
                old(self),
            ),
            !old(self).manager().is_cancelled() ==> r.0 == old(self).manager().inbound().len()
                && r.1@ == senders_without_key(old(self).manager().inbound()) && final(self).manager().inbound().len() == 0 && forall|key: u64| #[trigger]
                final(self).channel(key) == channel_after_all(
                    old(self).channel(key),
                    key,
                    old(self).bound(),
                    old(self).overflow(),
                    old(self).manager().inbound(),
                ),
    {
        let ghost received = self.manager().inbound();
        let ghost stopped = self.manager().is_cancelled();
        let mut count: usize = 0;
        let mut offenders: Vec<PeerId> = Vec::new();
        let mut more = true;
        proof {
            self.manager().queues_are_bounded(PeerId { id: 0 });
            assert(received.subrange(0, received.len() as int) =~= received);
        }
        while more
            invariant
                self.wf(),
                self.bound() == old(self).bound(),
                self.overflow() == old(self).overflow(),
                self.manager().same_setup(&old(self).manager()),
                self.manager().same_links(&old(self).manager()),
                self.manager().same_outbound(&old(self).manager()),
                self.manager().is_cancelled() == stopped,
                stopped == old(self).manager().is_cancelled(),
                received == old(self).manager().inbound(),
                received.len() <= usize::MAX,
                count <= received.len(),
                stopped ==> count == 0 && offenders@.len() == 0 && self.manager().inbound()
                    == received && self.same_channels(old(self)),
                !stopped ==> self.manager().inbound() == received.subrange(
                    count as int,
                    received.len() as int,
                ),
                !stopped ==> offenders@ == senders_without_key(
                    received.subrange(0, count as int),
                ),
                !stopped ==> forall|key: u64| #[trigger]
                    self.channel(key) == channel_after_all(
                        old(self).channel(key),
                        key,
                        old(self).bound(),
                        old(self).overflow(),
                        received.subrange(0, count as int),
                    ),
                !more ==> stopped || count == received.len(),
            decreases received.len() - count + (if more { 1int } else { 0int }),
        {
            let ghost before = *self;
            let (routed, sender) = self.route_next_from();
            match sender {
                None => {
                    more = false;
                },
                Some(from) => {
                    proof {
                        let next = received[count as int];
                        let shorter = received.subrange(0, count as int);
                        let longer = received.subrange(0, count + 1);
                        assert(before.manager().inbound()[0] == next);
                        assert(longer =~= shorter.push(next));
                        assert(longer.drop_last() =~= shorter);
                        assert(self.manager().inbound() =~= received.subrange(
                            count + 1,
                            received.len() as int,
                        ));
                        assert forall|key: u64| #[trigger]
                            self.channel(key) == channel_after_all(
                                old(self).channel(key),
                                key,
                                old(self).bound(),
                                old(self).overflow(),
                                longer,
                            ) by {
                            routing_is_per_key(before, *self, routed, key);
                            lemma_routed_one_more(
                                old(self).channel(key),
                                key,
                                old(self).bound(),
                                old(self).overflow(),
                                shorter,
                                next,
                            );
                        }
                    }
                    if let Routed::Malformed = routed {
                        offenders.push(from);
                    }
                    count = count + 1;
                },
            }
        }
        proof {
            if !stopped {
                assert(received.subrange(0, count as int) =~= received);
            }
        }
        (count, offenders)
    }

    /// Whether `after` is this multiplexer once the oldest message that the
    /// manager received was routed, with `routed` as the outcome.
    pub open spec fn routes_next(&self, after: &MuxPeerConnections, routed: Routed) -> bool {
        let inbound = self.manager().inbound();
        if self.manager().is_cancelled() || inbound.len() == 0 {
            &&& routed == Routed::Idle
            &&& after.manager().inbound() == inbound
            &&& forall|key: u64| #[trigger] after.channel(key) == self.channel(key)
        } else {
            &&& after.manager().inbound() == inbound.subrange(1, inbound.len() as int)
            &&& match untagged(inbound[0].1) {
                None => {
                    &&& routed == Routed::Malformed
                    &&& forall|key: u64| #[trigger] after.channel(key) == self.channel(key)
                },
                Some((to, message)) => {
                    &&& routed == if self.channel(to).len() >= self.bound() {
                        Routed::Overflowed(to)
                    } else {
                        Routed::Buffered(to)
                    }
                    &&& after.channel(to) == buffered(
                        self.channel(to),
                        self.bound(),
                        self.overflow(),
                        (inbound[0].0, message),
                    )
                    &&& forall|key: u64|
                        key != to ==> #[trigger] after.channel(key) == self.channel(key)
                },
            }
        }
    }

    /// The manager underneath, for its owner to drive the links and move the
    /// bytes through it.
    pub fn connections_mut(&mut self) -> (inner: &mut PeerConnections)
        ensures
            *inner == old(self).manager(),
            final(self).manager() == *final(inner),
            final(self).same_channels(old(self)),
            final(self).channels_wf() == old(self).channels_wf(),
    {
        &mut self.connections
    }

    /// The manager underneath.
    pub fn connections(&self) -> (inner: &PeerConnections)
        ensures
            *inner == self.manager(),
    {
        &self.connections
    }

    /// How many messages wait under `key`.
    pub fn waiting(&self, key: u64) -> (count: usize)
        requires
            self.wf(),
        ensures
            count == self.channel(key).len(),
    {
        match self.find(key) {
            None => 0,
            Some(k) => self.channels[k].queue.len(),
        }
    }
}

/// Like `IPeerConnections`, but with many destinations per peer, each with
/// a key of its own.
pub trait IMuxPeerConnections {
    /// The multiplexer's invariant.
    spec fn usable(&self) -> bool;

    /// Whether `peer` is one of the peers that the multiplexer serves.
    spec fn serves(&self, peer: PeerId) -> bool;

    /// The tagged messages waiting to go to `peer`, oldest first.
    spec fn pending(&self, peer: PeerId) -> Seq<Seq<u8>>;

    /// How many messages wait for one peer at most.
    spec fn room(&self) -> nat;

    /// The messages that wait for the consumer of `key`, oldest first.
    spec fn arrived(&self, key: u64) -> Seq<(PeerId, Seq<u8>)>;

    /// Whether shutdown was requested.
    spec fn stopping(&self) -> bool;

    /// Send `message` under `key` to each of `peers`.
    fn send(&mut self, peers: &[PeerId], key: u64, message: Vec<u8>) -> (r: Result<
        Vec<PeerId>,
        Cancelled,
    >)
        requires
            old(self).usable(),
        ensures
            final(self).usable(),
            final(self).stopping() == old(self).stopping(),
            final(self).room() == old(self).room(),
            forall|peer: PeerId| final(self).serves(peer) == old(self).serves(peer),
            forall|other: u64| #[trigger] final(self).arrived(other) == old(self).arrived(other),
            forall|peer: PeerId| #[trigger]
                final(self).pending(peer) == offered(
                    old(self).pending(peer),
                    old(self).room(),
                    !old(self).stopping() && old(self).serves(peer) && peers@.contains(peer),
                    tagged(key, message@),
                ),
            match r {
                Err(_) => old(self).stopping(),
                Ok(waiting) => !old(self).stopping() && waiting@.no_duplicates()
                    && forall|peer: PeerId| #[trigger]
                    waiting@.contains(peer) <==> old(self).serves(peer) && peers@.contains(peer)
                        && old(self).pending(peer).len() >= old(self).room(),
            },
    ;

    /// The next message that any peer sent under `key`, if one has arrived.
    fn receive(&mut self, key: u64) -> (r: Result<Option<(PeerId, Vec<u8>)>, Cancelled>)
        requires
            old(self).usable(),
        ensures
            final(self).usable(),
            final(self).stopping() == old(self).stopping(),
            final(self).room() == old(self).room(),
            forall|peer: PeerId| final(self).serves(peer) == old(self).serves(peer),
            forall|peer: PeerId| #[trigger] final(self).pending(peer) == old(self).pending(peer),
            forall|other: u64|
                other != key ==> #[trigger] final(self).arrived(other) == old(self).arrived(
                    other,
                ),
            match r {
                Err(_) => old(self).stopping() && final(self).arrived(key) == old(self).arrived(
                    key,
                ),
                Ok(None) => !old(self).stopping() && old(self).arrived(key).len() == 0 && final(self).arrived(key) == old(self).arrived(key),
                Ok(Some((from, message))) => !old(self).stopping() && old(self).arrived(
                    key,
                ).len() > 0 && (from, message@) == old(self).arrived(key)[0] && final(self).arrived(key) == old(self).arrived(key).subrange(
                    1,
                    old(self).arrived(key).len() as int,
                ),
            },
    ;
}

impl IMuxPeerConnections for MuxPeerConnections {
    open spec fn usable(&self) -> bool {
        self.wf()
    }

    open spec fn serves(&self, peer: PeerId) -> bool {
        self.manager().has_peer(peer)
    }

    open spec fn pending(&self, peer: PeerId) -> Seq<Seq<u8>> {
        self.manager().outbound(peer)
    }

    open spec fn room(&self) -> nat {
        self.manager().capacity()
    }

    open spec fn arrived(&self, key: u64) -> Seq<(PeerId, Seq<u8>)> {
        self.channel(key)
    }

    open spec fn stopping(&self) -> bool {
        self.manager().is_cancelled()
    }

    /// Send `message` under `key` to each of `peers`. Where a queue is full
    /// the message does not go into it: the sender learns which peers it
    /// has to wait for.
    fn send(&mut self, peers: &[PeerId], key: u64, message: Vec<u8>) -> (r: Result<
        Vec<PeerId>,
        Cancelled,
    >)
        ensures
            final(self).wf(),
            final(self).same_channels(old(self)),
            old(self).manager().routes(
                &final(self).manager(),
                peers@.to_set(),
                tagged(key, message@),
            ),
            match r {
                Err(_) => old(self).manager().is_cancelled(),
                Ok(waiting) => !old(self).manager().is_cancelled() && waiting@.no_duplicates()
                    && forall|peer: PeerId| #[trigger]
                    waiting@.contains(peer) <==> old(self).manager().is_blocked(
                        peer,
                        peers@.contains(peer),
                    ),
            },
    {
        let bytes = tag_message(key, &message);
        match self.connections.send_to(peers, &bytes) {
            SendOutcome::Cancelled => Err(Cancelled),
            SendOutcome::Queued => {
                let nobody: Vec<PeerId> = Vec::new();
                proof {
                    assert forall|peer: PeerId| #[trigger]
                        nobody@.contains(peer) <==> old(self).serves(peer) && peers@.contains(
                            peer,
                        ) && old(self).pending(peer).len() >= old(self).room() by {
                        assert(!old(self).manager().is_blocked(peer, peers@.contains(peer)));
                    }
                }
                Ok(nobody)
            },
            SendOutcome::Waiting(waiting) => {
                proof {
                    assert forall|peer: PeerId| #[trigger]
                        waiting@.contains(peer) <==> old(self).serves(peer) && peers@.contains(
                            peer,
                        ) && old(self).pending(peer).len() >= old(self).room() by {
                        assert(waiting@.contains(peer) <==> old(self).manager().is_blocked(
                            peer,
                            peers@.contains(peer),
                        ));
                    }
                }
                Ok(waiting)
            },
        }
    }

    /// The oldest message that waits under `key`, if any.
    fn receive(&mut self, key: u64) -> (r: Result<Option<(PeerId, Vec<u8>)>, Cancelled>)
        ensures
            final(self).wf(),
            final(self).same_connections(old(self)),
            final(self).bound() == old(self).bound(),
            final(self).overflow() == old(self).overflow(),
            forall|other: u64|
                other != key ==> #[trigger] final(self).channel(other) == old(self).channel(
                    other,
                ),
            match r {
                Err(_) => old(self).manager().is_cancelled() && final(self).channel(key) == old(self).channel(key),
                Ok(None) => !old(self).manager().is_cancelled() && old(self).channel(key).len()
                    == 0 && final(self).channel(key) == old(self).channel(key),
                Ok(Some((from, message))) => !old(self).manager().is_cancelled() && old(self).channel(key).len() > 0 && (from, message@) == old(self).channel(key)[0]
                    && final(self).channel(key) == old(self).channel(key).subrange(
                    1,
                    old(self).channel(key).len() as int,
                ),
            },
    {
        if self.connections.is_shut_down() {
            return Err(Cancelled);
        }
        match self.find(key) {
            None => Ok(None),
            Some(k) => {
                let ghost before = self.channels@[k as int].queue@;
                let next = self.channels[k].queue.pop_front();
                proof {
                    lemma_one_channel_changed(old(self).channels@, self.channels@, k as int);
                    if before.len() > 0 {
                        assert(deliveries(before.subrange(1, before.len() as int)) =~= deliveries(
                            before,
                        ).subrange(1, before.len() as int));
                    }
                }
                Ok(next)
            },
        }
    }
}

/// The queue of `key` after one message that the manager received was
/// routed: the message arrives there where it is tagged with `key`, and else
/// the queue stays as it is.
pub open spec fn channel_after(
    queue: Seq<(PeerId, Seq<u8>)>,
    key: u64,
    bound: nat,
    overflow: Overflow,
    received: (PeerId, Seq<u8>),
) -> Seq<(PeerId, Seq<u8>)> {
    match untagged(received.1) {
        Some((to, message)) => if to == key {
            buffered(queue, bound, overflow, (received.0, message))
        } else {
            queue
        },
        None => queue,
    }
}

/// The queue of `key` after each of `received` was routed in turn.
pub open spec fn channel_after_all(
    queue: Seq<(PeerId, Seq<u8>)>,
    key: u64,
    bound: nat,
    overflow: Overflow,
    received: Seq<(PeerId, Seq<u8>)>,
) -> Seq<(PeerId, Seq<u8>)>
    decreases received.len(),
{
    if received.len() == 0 {
        queue
    } else {
        channel_after_all(
            channel_after(queue, key, bound, overflow, received[0]),
            key,
            bound,
            overflow,
            received.subrange(1, received.len() as int),
        )
    }
}

/// Those of `received` that are tagged with `key`, in the order in which
/// they came, without the tag.
pub open spec fn tagged_with(key: u64, received: Seq<(PeerId, Seq<u8>)>) -> Seq<
    (PeerId, Seq<u8>),
>
    decreases received.len(),
{
    if received.len() == 0 {
        Seq::empty()
    } else {
        let rest = tagged_with(key, received.subrange(1, received.len() as int));
        match untagged(received[0].1) {
            Some((to, message)) => if to == key {
                seq![(received[0].0, message)] + rest
            } else {
                rest
            },
            None => rest,
        }
    }
}

/// A queue after each of `items` arrived for it in turn.
pub open spec fn buffered_all(
    queue: Seq<(PeerId, Seq<u8>)>,
    bound: nat,
    overflow: Overflow,
    items: Seq<(PeerId, Seq<u8>)>,
) -> Seq<(PeerId, Seq<u8>)>
    decreases items.len(),
{
    if items.len() == 0 {
        queue
    } else {
        buffered_all(
            buffered(queue, bound, overflow, items[0]),
            bound,
            overflow,
            items.subrange(1, items.len() as int),
        )
    }
}

/// The senders of those of `received` that hold no key, in the order in
/// which the messages came.
pub open spec fn senders_without_key(received: Seq<(PeerId, Seq<u8>)>) -> Seq<PeerId>
    decreases received.len(),
{
    if received.len() == 0 {
        Seq::empty()
    } else {
        let earlier = senders_without_key(received.drop_last());
        if untagged(received.last().1) is None {
            earlier.push(received.last().0)
        } else {
            earlier
        }
    }
}

/// Routing one message more comes to routing it last.
proof fn lemma_routed_one_more(
    queue: Seq<(PeerId, Seq<u8>)>,
    key: u64,
    bound: nat,
    overflow: Overflow,
    received: Seq<(PeerId, Seq<u8>)>,
    next: (PeerId, Seq<u8>),
)
    ensures
        channel_after_all(queue, key, bound, overflow, received.push(next)) == channel_after(
            channel_after_all(queue, key, bound, overflow, received),
            key,
            bound,
            overflow,
            next,
        ),
    decreases received.len(),
{
    let longer = received.push(next);
    if received.len() == 0 {
        let tail = longer.subrange(1, longer.len() as int);
        let first = channel_after(queue, key, bound, overflow, next);
        assert(longer[0] == next);
        assert(tail.len() == 0);
        assert(channel_after_all(first, key, bound, overflow, tail) == first);
        assert(channel_after_all(queue, key, bound, overflow, longer) == channel_after_all(
            first,
            key,
            bound,
            overflow,
            tail,
        ));
        assert(channel_after_all(queue, key, bound, overflow, received) == queue);
    } else {
        let rest = received.subrange(1, received.len() as int);
        lemma_routed_one_more(
            channel_after(queue, key, bound, overflow, received[0]),
            key,
            bound,
            overflow,
            rest,
            next,
        );
        assert(longer.subrange(1, longer.len() as int) =~= rest.push(next));
        assert(longer[0] == received[0]);
        assert(channel_after_all(queue, key, bound, overflow, longer) == channel_after_all(
            channel_after(queue, key, bound, overflow, received[0]),
            key,
            bound,
            overflow,
            rest.push(next),
        ));
    }
}

/// Routing one message changes the queue of each key as `channel_after`
/// says: that of the key it is tagged with, and no other.
pub proof fn routing_is_per_key(
    before: MuxPeerConnections,
    after: MuxPeerConnections,
    routed: Routed,
    key: u64,
)
    requires
        before.routes_next(&after, routed),
        !before.manager().is_cancelled(),
        before.manager().inbound().len() > 0,
    ensures
        after.channel(key) == channel_after(
            before.channel(key),
            key,
            before.bound(),
            before.overflow(),
            before.manager().inbound()[0],
        ),
{
}

/// The consumer of a key sees the messages tagged with that key, in the
/// order in which they came, and nothing else: whatever came in between
/// for other keys, or without a key, makes no difference to its queue.
pub proof fn channels_are_isolated(
    queue: Seq<(PeerId, Seq<u8>)>,
    key: u64,
    bound: nat,
    overflow: Overflow,
    received: Seq<(PeerId, Seq<u8>)>,
)
    ensures
        channel_after_all(queue, key, bound, overflow, received) == buffered_all(
            queue,
            bound,
            overflow,
            tagged_with(key, received),
        ),
    decreases received.len(),
{
    if received.len() > 0 {
        let rest = received.subrange(1, received.len() as int);
        let next = channel_after(queue, key, bound, overflow, received[0]);
        channels_are_isolated(next, key, bound, overflow, rest);
        let mine = tagged_with(key, received);
        let later = tagged_with(key, rest);
        match untagged(received[0].1) {
            Some((to, message)) => {
                if to == key {
                    assert(mine[0] == (received[0].0, message));
                    assert(mine.subrange(1, mine.len() as int) =~= later);
                }
            },
            None => {},
        }
    }
}

/// While there is room, the queue of a key grows by the messages that
/// arrive for it, oldest first.
pub proof fn channel_keeps_order(
    queue: Seq<(PeerId, Seq<u8>)>,
    bound: nat,
    overflow: Overflow,
    items: Seq<(PeerId, Seq<u8>)>,
)
    requires
        queue.len() + items.len() <= bound,
    ensures
        buffered_all(queue, bound, overflow, items) == queue + items,
    decreases items.len(),
{
    if items.len() == 0 {
        assert(queue + items =~= queue);
    } else {
        let rest = items.subrange(1, items.len() as int);
        channel_keeps_order(buffered(queue, bound, overflow, items[0]), bound, overflow, rest);
        assert(queue.push(items[0]) + rest =~= queue + items);
    }
}

} // verus!
