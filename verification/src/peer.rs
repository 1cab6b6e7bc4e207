//! Peer identities and message recipients.
use vstd::prelude::*;
use vstd::std_specs::convert::FromSpecImpl;

verus! {

/// Identity of one member of the federation.
#[derive(Clone, Copy, Debug, PartialEq, Eq, Structural, Hash, PartialOrd, Ord)]
pub struct PeerId {
    pub id: u16,
}

impl PeerId {
    /// The peer with the given number.
    pub fn new(id: u16) -> (peer: PeerId)
        ensures
            peer.id == id,
    {
        PeerId { id }
    }

    /// The peer's number as an index.
    pub fn to_usize(self) -> (index: usize)
        ensures
            index == self.id,
    {
        self.id as usize
    }
}

impl From<u16> for PeerId {
    fn from(id: u16) -> (peer: PeerId) {
        PeerId { id }
    }
}

impl FromSpecImpl<u16> for PeerId {
    open spec fn obeys_from_spec() -> bool {
        true
    }

    open spec fn from_spec(id: u16) -> PeerId {
        PeerId { id }
    }
}

/// The intended recipient of a message.
#[derive(Clone, Copy, Debug, PartialEq, Eq, Structural)]
pub enum Recipient {
    Everyone,
    Peer(PeerId),
}

impl Recipient {
    /// Whether a message for this recipient is meant for `peer`.
    pub open spec fn includes(self, peer: PeerId) -> bool {
        match self {
            Recipient::Everyone => true,
            Recipient::Peer(target) => target == peer,
        }
    }

    /// The peers that a message for this recipient is meant for.
    pub open spec fn targets(self) -> Set<PeerId> {
        Set::new(|peer: PeerId| self.includes(peer))
    }

    /// Whether a message for this recipient is meant for `peer`.
    pub fn addresses(&self, peer: PeerId) -> (hit: bool)
        ensures
            hit == self.includes(peer),
    {
        match self {
            Recipient::Everyone => true,
            Recipient::Peer(target) => target.id == peer.id,
        }
    }
}

} // verus!
