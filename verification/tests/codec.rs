use peer_net::codec::{
    decode_binary, decode_frame, decode_structural, encode_binary, encode_frame,
    encode_structural, MAX_FRAME_LEN, MAX_STREAM_LEN,
};
use peer_net::wire::{get_size_prefix, put_size_prefix, CodecError};

fn prefix(n: u64) -> Vec<u8> {
    let mut out = Vec::new();
    put_size_prefix(&mut out, n);
    out
}

#[test]
fn binary_encoding_is_length_then_bytes() {
    assert_eq!(encode_binary(&vec![1, 2, 3]), vec![3, 0, 0, 0, 0, 0, 0, 0, 1, 2, 3]);
    assert_eq!(encode_binary(&vec![]), vec![0, 0, 0, 0, 0, 0, 0, 0]);
}

#[test]
fn binary_encoding_of_a_long_message() {
    let message = vec![7u8; 0x1_02_03];
    let bytes = encode_binary(&message);
    assert_eq!(&bytes[..8], &[0x03, 0x02, 0x01, 0, 0, 0, 0, 0]);
    assert_eq!(&bytes[8..], &message[..]);
}

#[test]
fn binary_round_trip() {
    for message in [vec![], vec![0u8], vec![255u8; 300], (0..=255u8).collect::<Vec<u8>>()] {
        assert_eq!(decode_binary(&encode_binary(&message)), Ok(message));
    }
}

#[test]
fn binary_decoding_refuses_bytes_behind_the_message() {
    let mut bytes = encode_binary(&vec![9, 8]);
    bytes.push(1);
    assert_eq!(decode_binary(&bytes), Err(CodecError::TrailingBytes));
    bytes.extend_from_slice(&[1, 1]);
    assert_eq!(decode_binary(&bytes), Err(CodecError::TrailingBytes));
    let mut empty = encode_binary(&vec![]);
    empty.push(0);
    assert_eq!(decode_binary(&empty), Err(CodecError::TrailingBytes));
}

#[test]
fn a_changed_byte_in_a_binary_encoding_fails_or_gives_the_message_it_encodes() {
    let bytes = encode_binary(&vec![7, 7, 7]);
    for at in 0..bytes.len() {
        let mut changed = bytes.clone();
        changed[at] ^= 0x01;
        match decode_binary(&changed) {
            Ok(message) => assert_eq!(encode_binary(&message), changed),
            Err(error) => assert!(matches!(error, CodecError::Truncated | CodecError::TrailingBytes)),
        }
    }
}

#[test]
fn binary_decoding_of_every_strict_prefix_fails() {
    let bytes = encode_binary(&vec![5, 6, 7, 8]);
    for keep in 0..bytes.len() {
        assert_eq!(decode_binary(&bytes[..keep].to_vec()), Err(CodecError::Truncated));
    }
}

#[test]
fn binary_decoding_of_an_overstated_length_fails() {
    let mut bytes = vec![0xFF; 8];
    bytes.extend_from_slice(&[1, 2, 3]);
    assert_eq!(decode_binary(&bytes), Err(CodecError::Truncated));
}

#[test]
fn frame_is_big_endian_length_then_payload() {
    assert_eq!(encode_frame(&vec![0xAA, 0xBB]), Ok(vec![0, 0, 0, 2, 0xAA, 0xBB]));
    assert_eq!(encode_frame(&vec![]), Ok(vec![0, 0, 0, 0]));
    let frame = encode_frame(&vec![1u8; 0x01_02_03]).unwrap();
    assert_eq!(&frame[..4], &[0, 1, 2, 3]);
    assert_eq!(frame.len(), 4 + 0x01_02_03);
}

#[test]
fn frame_of_the_longest_payload_and_one_more() {
    let longest = vec![0u8; MAX_FRAME_LEN];
    let frame = encode_frame(&longest).unwrap();
    assert_eq!(&frame[..4], &[0, 0x80, 0, 0]);
    assert_eq!(decode_frame(&frame), Ok(Some((longest, 4 + MAX_FRAME_LEN))));
    assert_eq!(encode_frame(&vec![0u8; MAX_FRAME_LEN + 1]), Err(CodecError::TooLarge));
}

#[test]
fn frame_round_trip_with_bytes_behind() {
    let mut bytes = encode_frame(&vec![1, 2, 3]).unwrap();
    bytes.extend_from_slice(&[0, 0]);
    assert_eq!(decode_frame(&bytes), Ok(Some((vec![1, 2, 3], 7))));
}

#[test]
fn frame_cut_short_waits_for_more() {
    let bytes = encode_frame(&vec![1, 2, 3]).unwrap();
    for keep in 0..bytes.len() {
        assert_eq!(decode_frame(&bytes[..keep].to_vec()), Ok(None));
    }
}

#[test]
fn frame_that_announces_too_much_is_refused() {
    assert_eq!(decode_frame(&vec![0, 0x80, 0, 1]), Err(CodecError::TooLarge));
    assert_eq!(decode_frame(&vec![0xFF, 0xFF, 0xFF, 0xFF, 1, 2]), Err(CodecError::TooLarge));
    assert_eq!(decode_frame(&vec![0, 0x80, 0, 0]), Ok(None));
}

#[test]
fn size_prefix_takes_the_shortest_form() {
    assert_eq!(prefix(0), vec![0]);
    assert_eq!(prefix(0xFC), vec![0xFC]);
    assert_eq!(prefix(0xFD), vec![0xFD, 0x00, 0xFD]);
    assert_eq!(prefix(0xFFFF), vec![0xFD, 0xFF, 0xFF]);
    assert_eq!(prefix(0x1_0000), vec![0xFE, 0x00, 0x01, 0x00, 0x00]);
    assert_eq!(prefix(0xFFFF_FFFF), vec![0xFE, 0xFF, 0xFF, 0xFF, 0xFF]);
    assert_eq!(prefix(0x1_0000_0000), vec![0xFF, 0, 0, 0, 1, 0, 0, 0, 0]);
    assert_eq!(
        prefix(0x0102_0304_0506_0708),
        vec![0xFF, 0x01, 0x02, 0x03, 0x04, 0x05, 0x06, 0x07, 0x08]
    );
    assert_eq!(prefix(u64::MAX), vec![0xFF; 9]);
}

#[test]
fn size_prefix_round_trip() {
    for n in [0u64, 1, 0xFC, 0xFD, 0xFE, 0xFF, 0x100, 0xFFFF, 0x1_0000, 0xFFFF_FFFF, 0x1_0000_0000, u64::MAX]
    {
        let mut bytes = prefix(n);
        let used = bytes.len();
        bytes.push(0x55);
        assert_eq!(get_size_prefix(&bytes), Ok((n, used)));
    }
}

#[test]
fn size_prefix_in_a_longer_form_is_refused() {
    assert_eq!(get_size_prefix(&[0xFD, 0x00, 0xFC]), Err(CodecError::NonCanonical));
    assert_eq!(get_size_prefix(&[0xFE, 0x00, 0x00, 0xFF, 0xFF]), Err(CodecError::NonCanonical));
    assert_eq!(
        get_size_prefix(&[0xFF, 0, 0, 0, 0, 0xFF, 0xFF, 0xFF, 0xFF]),
        Err(CodecError::NonCanonical)
    );
}

#[test]
fn size_prefix_cut_short_is_truncated() {
    assert_eq!(get_size_prefix(&[]), Err(CodecError::Truncated));
    assert_eq!(get_size_prefix(&[0xFD, 0x01]), Err(CodecError::Truncated));
    assert_eq!(get_size_prefix(&[0xFE, 0x01, 0x02, 0x03]), Err(CodecError::Truncated));
    assert_eq!(get_size_prefix(&[0xFF, 1, 2, 3, 4, 5, 6, 7]), Err(CodecError::Truncated));
}

#[test]
fn structural_encoding_is_prefix_then_bytes() {
    assert_eq!(encode_structural(&vec![]), vec![0]);
    assert_eq!(encode_structural(&vec![7, 8, 9]), vec![3, 7, 8, 9]);
    let long = vec![1u8; 0xFD];
    let bytes = encode_structural(&long);
    assert_eq!(&bytes[..3], &[0xFD, 0x00, 0xFD]);
    assert_eq!(&bytes[3..], &long[..]);
}

#[test]
fn structural_round_trip() {
    for message in [vec![], vec![0u8], vec![3u8; 0xFC], vec![4u8; 0xFD], vec![5u8; 0x1_0000]] {
        assert_eq!(decode_structural(&encode_structural(&message)), Ok(message));
    }
}

#[test]
fn structural_decoding_of_every_strict_prefix_fails() {
    let bytes = encode_structural(&vec![6u8; 300]);
    for keep in 0..bytes.len() {
        assert_eq!(decode_structural(&bytes[..keep].to_vec()), Err(CodecError::Truncated));
    }
}

#[test]
fn structural_decoding_refuses_bytes_behind_the_message() {
    let mut bytes = encode_structural(&vec![1, 2]);
    bytes.push(0);
    assert_eq!(decode_structural(&bytes), Err(CodecError::TrailingBytes));
}

#[test]
fn structural_decoding_refuses_a_long_form_prefix() {
    assert_eq!(decode_structural(&vec![0xFD, 0x00, 0x01, 0xAA]), Err(CodecError::NonCanonical));
}

#[test]
fn structural_decoding_refuses_a_stream_over_the_limit() {
    let stream = vec![0u8; MAX_STREAM_LEN + 1];
    assert_eq!(decode_structural(&stream), Err(CodecError::TooLarge));
}

#[test]
fn a_changed_byte_fails_or_gives_the_message_it_encodes() {
    let bytes = encode_structural(&vec![7, 7, 7]);
    for at in 0..bytes.len() {
        let mut changed = bytes.clone();
        changed[at] ^= 0x01;
        match decode_structural(&changed) {
            Ok(message) => assert_eq!(encode_structural(&message), changed),
            Err(error) => assert!(matches!(error, CodecError::Truncated | CodecError::TrailingBytes)),
        }
    }
    assert_eq!(decode_structural(&vec![1, 8]), Ok(vec![8]));
}
