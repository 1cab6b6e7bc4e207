use peer_net::link::{Backoff, LinkEvent};
use peer_net::manager::{Delivery, PeerConnections};
use peer_net::mux::{
    tag_message, untag_message, Cancelled, IMuxPeerConnections, MuxPeerConnections, Overflow,
    Routed,
};
use peer_net::peer::PeerId;

const POLICY: Backoff = Backoff { base_ms: 10, max_ms: 80 };

fn peer(id: u16) -> PeerId {
    PeerId::new(id)
}

fn mux(bound: usize, overflow: Overflow) -> MuxPeerConnections {
    let connections = PeerConnections::new(&[peer(1), peer(2)], 2, 16, POLICY).unwrap();
    MuxPeerConnections::new(connections, bound, overflow).unwrap()
}

fn arrive(mux: &mut MuxPeerConnections, from: u16, key: u64, message: Vec<u8>) {
    let bytes = tag_message(key, &message);
    assert_eq!(mux.connections_mut().deliver(peer(from), bytes), Delivery::Accepted);
}

#[test]
fn tag_is_the_key_in_eight_bytes_then_the_message() {
    assert_eq!(tag_message(1, &vec![9, 9]), vec![1, 0, 0, 0, 0, 0, 0, 0, 9, 9]);
    assert_eq!(
        tag_message(0x0102_0304_0506_0708, &vec![]),
        vec![8, 7, 6, 5, 4, 3, 2, 1]
    );
}

#[test]
fn tag_round_trip() {
    for key in [0u64, 1, 255, 256, 0xFFFF_FFFF, 0x1_0000_0000, u64::MAX] {
        for message in [vec![], vec![1u8], vec![7u8; 40]] {
            assert_eq!(untag_message(&tag_message(key, &message)), Some((key, message)));
        }
    }
}

#[test]
fn too_short_for_a_key() {
    assert_eq!(untag_message(&vec![]), None);
    assert_eq!(untag_message(&vec![1, 2, 3, 4, 5, 6, 7]), None);
    assert_eq!(untag_message(&vec![1, 0, 0, 0, 0, 0, 0, 0]), Some((1, vec![])));
}

#[test]
fn bound_of_zero_is_refused() {
    let connections = PeerConnections::new(&[peer(1)], 1, 1, POLICY).unwrap();
    assert!(MuxPeerConnections::new(connections, 0, Overflow::DropNewest).is_none());
}

#[test]
fn send_tags_the_message_for_each_peer() {
    let mut mux = mux(4, Overflow::DropNewest);
    assert_eq!(mux.send(&[peer(1), peer(2)], 7, vec![5, 6]), Ok(vec![]));
    for id in 1..=2 {
        let connections = mux.connections_mut();
        connections.on_link_event(peer(id), LinkEvent::RetryDue);
        connections.on_link_event(peer(id), LinkEvent::DialSucceeded);
        assert_eq!(connections.next_outbound(peer(id)), Some(tag_message(7, &vec![5, 6])));
        assert_eq!(connections.next_outbound(peer(id)), None);
    }
}

#[test]
fn send_says_whom_to_wait_for() {
    let mut mux = mux(4, Overflow::DropNewest);
    assert_eq!(mux.send(&[peer(1)], 1, vec![1]), Ok(vec![]));
    assert_eq!(mux.send(&[peer(1)], 2, vec![2]), Ok(vec![]));
    assert_eq!(mux.send(&[peer(1), peer(2)], 3, vec![3]), Ok(vec![peer(1)]));
    assert_eq!(mux.connections().queued(peer(1)), 2);
    assert_eq!(mux.connections().queued(peer(2)), 1);
}

#[test]
fn each_key_sees_its_own_messages_in_order() {
    let mut mux = mux(8, Overflow::DropNewest);
    arrive(&mut mux, 1, 10, vec![1]);
    arrive(&mut mux, 2, 20, vec![2]);
    arrive(&mut mux, 1, 10, vec![3]);
    arrive(&mut mux, 1, 20, vec![4]);
    arrive(&mut mux, 2, 10, vec![5]);
    assert_eq!(mux.route_next(), Routed::Buffered(10));
    assert_eq!(mux.route_next(), Routed::Buffered(20));
    assert_eq!(mux.route_next(), Routed::Buffered(10));
    assert_eq!(mux.route_next(), Routed::Buffered(20));
    assert_eq!(mux.route_next(), Routed::Buffered(10));
    assert_eq!(mux.route_next(), Routed::Idle);
    assert_eq!(mux.waiting(10), 3);
    assert_eq!(mux.waiting(20), 2);
    assert_eq!(mux.waiting(30), 0);
    assert_eq!(mux.receive(20), Ok(Some((peer(2), vec![2]))));
    assert_eq!(mux.receive(20), Ok(Some((peer(1), vec![4]))));
    assert_eq!(mux.receive(20), Ok(None));
    assert_eq!(mux.waiting(10), 3);
    assert_eq!(mux.receive(10), Ok(Some((peer(1), vec![1]))));
    assert_eq!(mux.receive(10), Ok(Some((peer(1), vec![3]))));
    assert_eq!(mux.receive(10), Ok(Some((peer(2), vec![5]))));
    assert_eq!(mux.receive(10), Ok(None));
    assert_eq!(mux.receive(30), Ok(None));
}

#[test]
fn a_slow_key_does_not_hold_up_another() {
    let mut mux = mux(2, Overflow::DropNewest);
    for n in 0..5u8 {
        arrive(&mut mux, 1, 1, vec![n]);
        arrive(&mut mux, 1, 2, vec![100 + n]);
    }
    let mut seen = Vec::new();
    loop {
        match mux.route_next() {
            Routed::Idle => break,
            _ => {
                if let Ok(Some((_, message))) = mux.receive(2) {
                    seen.push(message[0]);
                }
            }
        }
    }
    assert_eq!(seen, vec![100, 101, 102, 103, 104]);
    assert_eq!(mux.receive(1), Ok(Some((peer(1), vec![0]))));
    assert_eq!(mux.receive(1), Ok(Some((peer(1), vec![1]))));
    assert_eq!(mux.receive(1), Ok(None));
}

#[test]
fn a_full_queue_drops_the_newest() {
    let mut mux = mux(2, Overflow::DropNewest);
    for n in 0..3u8 {
        arrive(&mut mux, 1, 5, vec![n]);
    }
    assert_eq!(mux.route_next(), Routed::Buffered(5));
    assert_eq!(mux.route_next(), Routed::Buffered(5));
    assert_eq!(mux.route_next(), Routed::Overflowed(5));
    assert_eq!(mux.receive(5), Ok(Some((peer(1), vec![0]))));
    assert_eq!(mux.receive(5), Ok(Some((peer(1), vec![1]))));
    assert_eq!(mux.receive(5), Ok(None));
}

#[test]
fn a_full_queue_drops_the_oldest() {
    let mut mux = mux(2, Overflow::DropOldest);
    for n in 0..3u8 {
        arrive(&mut mux, 1, 5, vec![n]);
    }
    assert_eq!(mux.route_next(), Routed::Buffered(5));
    assert_eq!(mux.route_next(), Routed::Buffered(5));
    assert_eq!(mux.route_next(), Routed::Overflowed(5));
    assert_eq!(mux.receive(5), Ok(Some((peer(1), vec![1]))));
    assert_eq!(mux.receive(5), Ok(Some((peer(1), vec![2]))));
    assert_eq!(mux.receive(5), Ok(None));
}

#[test]
fn a_message_without_a_key_is_dropped() {
    let mut mux = mux(2, Overflow::DropNewest);
    assert_eq!(mux.connections_mut().deliver(peer(1), vec![1, 2, 3]), Delivery::Accepted);
    arrive(&mut mux, 1, 5, vec![9]);
    assert_eq!(mux.route_next(), Routed::Malformed);
    assert_eq!(mux.route_next(), Routed::Buffered(5));
    assert_eq!(mux.receive(5), Ok(Some((peer(1), vec![9]))));
}

#[test]
fn shutdown_is_told_apart_from_nothing_there() {
    let mut mux = mux(2, Overflow::DropNewest);
    arrive(&mut mux, 1, 5, vec![9]);
    assert_eq!(mux.route_next(), Routed::Buffered(5));
    arrive(&mut mux, 1, 5, vec![10]);
    assert_eq!(mux.receive(6), Ok(None));
    mux.connections_mut().cancel();
    assert_eq!(mux.receive(5), Err(Cancelled));
    assert_eq!(mux.receive(6), Err(Cancelled));
    assert_eq!(mux.send(&[peer(1)], 5, vec![1]), Err(Cancelled));
    assert_eq!(mux.route_next(), Routed::Idle);
    assert_eq!(mux.waiting(5), 1);
    assert_eq!(mux.connections().queued(peer(1)), 0);
}

#[test]
fn route_all_sorts_everything_that_arrived() {
    let mut mux = mux(2, Overflow::DropOldest);
    assert_eq!(mux.route_all(), (0, vec![]));
    arrive(&mut mux, 1, 1, vec![1]);
    arrive(&mut mux, 2, 2, vec![2]);
    assert_eq!(mux.connections_mut().deliver(peer(2), vec![0; 3]), Delivery::Accepted);
    arrive(&mut mux, 1, 1, vec![3]);
    assert_eq!(mux.connections_mut().deliver(peer(1), vec![]), Delivery::Accepted);
    arrive(&mut mux, 2, 1, vec![4]);
    assert_eq!(mux.route_all(), (6, vec![peer(2), peer(1)]));
    assert_eq!(mux.connections().delivered(), 0);
    assert_eq!(mux.waiting(1), 2);
    assert_eq!(mux.waiting(2), 1);
    assert_eq!(mux.receive(1), Ok(Some((peer(1), vec![3]))));
    assert_eq!(mux.receive(1), Ok(Some((peer(2), vec![4]))));
    assert_eq!(mux.receive(2), Ok(Some((peer(2), vec![2]))));
    arrive(&mut mux, 1, 1, vec![5]);
    mux.connections_mut().cancel();
    assert_eq!(mux.route_all(), (0, vec![]));
    assert_eq!(mux.connections().delivered(), 1);
}

#[test]
fn routing_names_the_sender() {
    let mut mux = mux(1, Overflow::DropNewest);
    assert_eq!(mux.route_next_from(), (Routed::Idle, None));
    arrive(&mut mux, 2, 9, vec![1]);
    assert_eq!(mux.connections_mut().deliver(peer(1), vec![1, 2]), Delivery::Accepted);
    arrive(&mut mux, 1, 9, vec![2]);
    assert_eq!(mux.route_next_from(), (Routed::Buffered(9), Some(peer(2))));
    assert_eq!(mux.route_next_from(), (Routed::Malformed, Some(peer(1))));
    assert_eq!(mux.route_next_from(), (Routed::Overflowed(9), Some(peer(1))));
    assert_eq!(mux.route_next_from(), (Routed::Idle, None));
    arrive(&mut mux, 2, 9, vec![3]);
    mux.connections_mut().cancel();
    assert_eq!(mux.route_next_from(), (Routed::Idle, None));
}
