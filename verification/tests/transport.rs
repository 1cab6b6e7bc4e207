use peer_net::codec::MAX_FRAME_LEN;
use peer_net::transport::{
    ConnectionError, DatagramConnection, IP2PConnection, StreamConnection,
};
use peer_net::wire::CodecError;

#[test]
fn stream_send_writes_a_frame_per_message() {
    let mut connection = StreamConnection::new();
    assert_eq!(connection.send(vec![1, 2]), Ok(()));
    assert_eq!(connection.send(vec![]), Ok(()));
    assert_eq!(
        connection.take_unsent(),
        vec![
            0, 0, 0, 10, 2, 0, 0, 0, 0, 0, 0, 0, 1, 2, //
            0, 0, 0, 8, 0, 0, 0, 0, 0, 0, 0, 0,
        ]
    );
    assert_eq!(connection.take_unsent(), Vec::<u8>::new());
}

#[test]
fn stream_carries_messages_in_order() {
    let mut here = StreamConnection::new();
    let mut there = StreamConnection::new();
    for message in [vec![1u8], vec![], vec![2u8; 1000]] {
        assert_eq!(here.send(message), Ok(()));
    }
    there.feed(&here.take_unsent());
    assert_eq!(there.receive(), Ok(Some(vec![1])));
    assert_eq!(there.receive(), Ok(Some(vec![])));
    assert_eq!(there.receive(), Ok(Some(vec![2u8; 1000])));
    assert_eq!(there.receive(), Ok(None));
}

#[test]
fn stream_waits_for_the_rest_of_a_frame() {
    let mut here = StreamConnection::new();
    let mut there = StreamConnection::new();
    assert_eq!(here.send(vec![4, 5, 6]), Ok(()));
    let bytes = here.take_unsent();
    for byte in &bytes[..bytes.len() - 1] {
        there.feed(&[*byte]);
        assert_eq!(there.receive(), Ok(None));
    }
    there.feed(&bytes[bytes.len() - 1..]);
    assert_eq!(there.receive(), Ok(Some(vec![4, 5, 6])));
}

#[test]
fn stream_closed_inside_a_frame_is_closed_not_malformed() {
    let mut here = StreamConnection::new();
    let mut there = StreamConnection::new();
    assert_eq!(here.send(vec![4, 5, 6]), Ok(()));
    let bytes = here.take_unsent();
    there.feed(&bytes[..5]);
    there.close();
    assert_eq!(there.receive(), Err(ConnectionError::Closed));
    let mut idle = StreamConnection::new();
    idle.close();
    assert_eq!(idle.receive(), Err(ConnectionError::Closed));
}

#[test]
fn stream_hands_out_what_arrived_before_the_close() {
    let mut here = StreamConnection::new();
    let mut there = StreamConnection::new();
    assert_eq!(here.send(vec![1]), Ok(()));
    there.feed(&here.take_unsent());
    there.close();
    assert_eq!(there.receive(), Ok(Some(vec![1])));
    assert_eq!(there.receive(), Err(ConnectionError::Closed));
}

#[test]
fn stream_refuses_to_write_once_closed() {
    let mut connection = StreamConnection::new();
    connection.close();
    assert_eq!(connection.send(vec![1]), Err(ConnectionError::Closed));
    assert_eq!(connection.take_unsent(), Vec::<u8>::new());
}

#[test]
fn stream_refuses_a_message_too_long_for_a_frame() {
    let mut connection = StreamConnection::new();
    assert_eq!(connection.send(vec![0u8; MAX_FRAME_LEN - 8]), Ok(()));
    assert_eq!(connection.take_unsent().len(), 4 + MAX_FRAME_LEN);
    assert_eq!(
        connection.send(vec![0u8; MAX_FRAME_LEN - 7]),
        Err(ConnectionError::Codec(CodecError::TooLarge))
    );
    assert_eq!(connection.take_unsent(), Vec::<u8>::new());
}

#[test]
fn stream_reports_bad_frames() {
    let mut oversized = StreamConnection::new();
    oversized.feed(&[0xFF, 0xFF, 0xFF, 0xFF]);
    assert_eq!(oversized.receive(), Err(ConnectionError::Codec(CodecError::TooLarge)));
    let mut short_payload = StreamConnection::new();
    short_payload.feed(&[0, 0, 0, 3, 1, 2, 3, 0, 0, 0, 8, 0, 0, 0, 0, 0, 0, 0, 0]);
    assert_eq!(short_payload.receive(), Err(ConnectionError::Codec(CodecError::Truncated)));
    assert_eq!(short_payload.receive(), Ok(Some(vec![])));
    let mut overstated = StreamConnection::new();
    overstated.feed(&[0, 0, 0, 9, 2, 0, 0, 0, 0, 0, 0, 0, 1]);
    assert_eq!(overstated.receive(), Err(ConnectionError::Codec(CodecError::Truncated)));
}

#[test]
fn datagram_send_writes_a_stream_per_message() {
    let mut connection = DatagramConnection::new();
    assert_eq!(connection.send(vec![1, 2]), Ok(()));
    assert_eq!(connection.send(vec![]), Ok(()));
    assert_eq!(connection.take_unsent(), Some(vec![2, 1, 2]));
    assert_eq!(connection.take_unsent(), Some(vec![0]));
    assert_eq!(connection.take_unsent(), None);
}

#[test]
fn datagram_carries_messages_in_order() {
    let mut here = DatagramConnection::new();
    let mut there = DatagramConnection::new();
    for message in [vec![1u8], vec![], vec![2u8; 1000]] {
        assert_eq!(here.send(message), Ok(()));
    }
    while let Some(stream) = here.take_unsent() {
        there.accept(stream);
    }
    assert_eq!(there.receive(), Ok(Some(vec![1])));
    assert_eq!(there.receive(), Ok(Some(vec![])));
    assert_eq!(there.receive(), Ok(Some(vec![2u8; 1000])));
    assert_eq!(there.receive(), Ok(None));
}

#[test]
fn datagram_reports_bad_streams_and_goes_on() {
    let mut connection = DatagramConnection::new();
    connection.accept(vec![3, 1, 2]);
    connection.accept(vec![1, 1, 2]);
    connection.accept(vec![0xFD, 0, 1, 9]);
    connection.accept(vec![]);
    connection.accept(vec![1, 7]);
    assert_eq!(connection.receive(), Err(ConnectionError::Codec(CodecError::Truncated)));
    assert_eq!(connection.receive(), Err(ConnectionError::Codec(CodecError::TrailingBytes)));
    assert_eq!(connection.receive(), Err(ConnectionError::Codec(CodecError::NonCanonical)));
    assert_eq!(connection.receive(), Err(ConnectionError::Codec(CodecError::Truncated)));
    assert_eq!(connection.receive(), Ok(Some(vec![7])));
    assert_eq!(connection.receive(), Ok(None));
}

#[test]
fn datagram_close() {
    let mut connection = DatagramConnection::new();
    connection.accept(vec![1, 7]);
    connection.close();
    assert_eq!(connection.send(vec![1]), Err(ConnectionError::Closed));
    assert_eq!(connection.take_unsent(), None);
    assert_eq!(connection.receive(), Ok(Some(vec![7])));
    assert_eq!(connection.receive(), Err(ConnectionError::Closed));
}

#[test]
fn stream_refuses_a_frame_with_bytes_behind_the_message() {
    let mut connection = StreamConnection::new();
    connection.feed(&[0, 0, 0, 10, 1, 0, 0, 0, 0, 0, 0, 0, 7, 9]);
    connection.feed(&[0, 0, 0, 9, 1, 0, 0, 0, 0, 0, 0, 0, 7]);
    assert_eq!(connection.receive(), Err(ConnectionError::Codec(CodecError::TrailingBytes)));
    assert_eq!(connection.receive(), Ok(Some(vec![7])));
    assert_eq!(connection.receive(), Ok(None));
}
