//! The two wire codecs and the frame of the stream transport.
//!
//! A message is a string of bytes. The binary codec, for the stream
//! transport, writes its length in eight bytes and then the bytes; on the wire
//! that encoding travels inside a frame with a four-byte length. The
//! structural codec, for the transport that carries one message per stream,
//! writes a size prefix and then the bytes. Both read back the whole of what
//! they are given: bytes that are the encoding of no message are refused.
use bytes::{Bytes, BytesMut};
use tokio_util::codec::{Decoder, Encoder, LengthDelimitedCodec};
use vstd::prelude::*;
use vstd::slice::{slice_subrange, slice_to_vec};

use crate::wire::{
    be32, be32_value, get_size_prefix, le64, le64_value, lemma_be32_of_value,
    lemma_be32_round_trip, lemma_le64_of_value, lemma_le64_round_trip,
    lemma_size_prefix_is_canonical, lemma_size_prefix_round_trip, lemma_size_prefix_truncated,
    put_size_prefix, size_prefix, size_prefix_parse, CodecError,
};

verus! {

/// The longest payload that a frame of the stream transport carries.
pub const MAX_FRAME_LEN: usize = 8_388_608;

/// The longest stream that the structural codec reads.
pub const MAX_STREAM_LEN: usize = 1_000_000_000;

/// The binary encoding of a message: its length in eight bytes, least
/// significant first, then its bytes.
pub open spec fn binary_bytes(message: Seq<u8>) -> Seq<u8> {
    le64(message.len() as u64) + message
}

/// The message at the start of `b` in the binary encoding, whatever follows
/// it.
pub open spec fn binary_prefix_parse(b: Seq<u8>) -> Result<Seq<u8>, CodecError> {
    if b.len() < 8 {
        Err(CodecError::Truncated)
    } else {
        let n = le64_value(b.subrange(0, 8));
        if b.len() - 8 < n {
            Err(CodecError::Truncated)
        } else {
            Ok(b.subrange(8, 8 + n))
        }
    }
}

/// The message that the whole of `b` is the binary encoding of.
pub open spec fn binary_parse(b: Seq<u8>) -> Result<Seq<u8>, CodecError> {
    if b.len() < 8 {
        Err(CodecError::Truncated)
    } else {
        let n = le64_value(b.subrange(0, 8));
        if b.len() - 8 < n {
            Err(CodecError::Truncated)
        } else if b.len() - 8 > n {
            Err(CodecError::TrailingBytes)
        } else {
            Ok(b.subrange(8, b.len() as int))
        }
    }
}

/// A frame of the stream transport: the payload's length in four bytes, most
/// significant first, then the payload.
pub open spec fn frame_bytes(payload: Seq<u8>) -> Seq<u8> {
    be32(payload.len() as u32) + payload
}

/// The first frame in `b`: its payload and the bytes that the frame takes;
/// `None` while the frame has not arrived in full; an error where the frame
/// announces more than `MAX_FRAME_LEN` bytes.
pub open spec fn frame_parse(b: Seq<u8>) -> Result<Option<(Seq<u8>, int)>, CodecError> {
    if b.len() < 4 {
        Ok(None)
    } else {
        let n = be32_value(b.subrange(0, 4));
        if n > MAX_FRAME_LEN {
            Err(CodecError::TooLarge)
        } else if b.len() - 4 < n {
            Ok(None)
        } else {
            Ok(Some((b.subrange(4, 4 + n), 4 + n)))
        }
    }
}

/// The structural encoding of a message: the size prefix of its length, then
/// its bytes.
pub open spec fn structural_bytes(message: Seq<u8>) -> Seq<u8> {
    size_prefix(message.len() as u64) + message
}

/// The message that the whole of `b` is the structural encoding of.
pub open spec fn structural_parse(b: Seq<u8>) -> Result<Seq<u8>, CodecError> {
    if b.len() > MAX_STREAM_LEN {
        Err(CodecError::TooLarge)
    } else {
        match size_prefix_parse(b) {
            Err(e) => Err(e),
            Ok((n, used)) => {
                if b.len() - used < n {
                    Err(CodecError::Truncated)
                } else if b.len() - used > n {
                    Err(CodecError::TrailingBytes)
                } else {
                    Ok(b.subrange(used, b.len() as int))
                }
            },
        }
    }
}

/// Calls `bincode::serialize` on a byte vector. With bincode's default
/// options that is the length as a 64-bit number in fixed width, little
/// endian, followed by the elements; no size limit is set, so the call does
/// not fail.
#[verifier::external_body]
fn bincode_serialize(message: &Vec<u8>) -> (r: Option<Vec<u8>>)
    ensures
        match r {
            Some(bytes) => bytes@ == binary_bytes(message@),
            None => false,
        },
{
    match bincode::serialize(message) {
        Ok(bytes) => Some(bytes),
        Err(_) => None,
    }
}

/// Calls `bincode::deserialize` for a byte vector. It reads the length from
/// the first eight bytes and then that many elements, fails where the input
/// ends before that, and passes over what is left behind them.
#[verifier::external_body]
fn bincode_deserialize(bytes: &Vec<u8>) -> (r: Option<Vec<u8>>)
    ensures
        match r {
            Some(found) => binary_prefix_parse(bytes@) == Ok::<Seq<u8>, CodecError>(found@),
            None => binary_prefix_parse(bytes@) is Err,
        },
{
    match bincode::deserialize::<Vec<u8>>(&bytes[..]) {
        Ok(message) => Some(message),
        Err(_) => None,
    }
}

/// Calls `encode` of tokio-util's `LengthDelimitedCodec` in its default
/// configuration on an empty buffer. It refuses a payload of more than
/// `MAX_FRAME_LEN` bytes, and else writes the length in four bytes, big
/// endian, and the payload.
#[verifier::external_body]
fn length_delimited_encode(payload: &Vec<u8>) -> (r: Option<Vec<u8>>)
    ensures
        match r {
            Some(frame) => payload.len() <= MAX_FRAME_LEN && frame@ == frame_bytes(payload@),
            None => payload.len() > MAX_FRAME_LEN,
        },
{
    let mut dst = BytesMut::new();
    match LengthDelimitedCodec::new().encode(Bytes::copy_from_slice(&payload[..]), &mut dst) {
        Ok(()) => Some(dst.to_vec()),
        Err(_) => None,
    }
}

/// Calls `decode` of tokio-util's `LengthDelimitedCodec` in its default
/// configuration, once, on a copy of `buf`. It gives nothing while the four
/// bytes of the length or the payload they announce are not all there, fails
/// where the length is over `MAX_FRAME_LEN`, and else hands out the payload;
/// the second part of the result is the number of bytes left behind the
/// frame.
#[verifier::external_body]
fn length_delimited_decode(buf: &Vec<u8>) -> (r: Result<Option<(Vec<u8>, usize)>, ()>)
    ensures
        match r {
            Ok(Some((found, left))) => left <= buf.len() && frame_parse(buf@) == Ok::<
                Option<(Seq<u8>, int)>,
                CodecError,
            >(Some((found@, buf.len() - left))),
            Ok(None) => frame_parse(buf@) == Ok::<Option<(Seq<u8>, int)>, CodecError>(None),
            Err(_) => frame_parse(buf@) is Err,
        },
{
    let mut src = BytesMut::from(&buf[..]);
    match LengthDelimitedCodec::new().decode(&mut src) {
        Ok(Some(payload)) => Ok(Some((payload.to_vec(), src.len()))),
        Ok(None) => Ok(None),
        Err(_) => Err(()),
    }
}

/// Encodes a message with the binary codec.
pub fn encode_binary(message: &Vec<u8>) -> (bytes: Vec<u8>)
    ensures
        bytes@ == binary_bytes(message@),
{
    match bincode_serialize(message) {
        Some(bytes) => bytes,
        None => Vec::new(),
    }
}

/// Decodes the message that the whole of `bytes` holds with the binary codec.
/// Bytes behind the message are refused.
pub fn decode_binary(bytes: &Vec<u8>) -> (r: Result<Vec<u8>, CodecError>)
    ensures
        match r {
            Ok(found) => binary_parse(bytes@) == Ok::<Seq<u8>, CodecError>(found@),
            Err(e) => binary_parse(bytes@) == Err::<Seq<u8>, CodecError>(e),
        },
{
    match bincode_deserialize(bytes) {
        Some(message) => {
            if bytes.len() - 8 > message.len() {
                Err(CodecError::TrailingBytes)
            } else {
                assert(bytes@.subrange(8, bytes@.len() as int) =~= message@);
                Ok(message)
            }
        },
        None => Err(CodecError::Truncated),
    }
}

/// Wraps a payload into a frame of the stream transport.
pub fn encode_frame(payload: &Vec<u8>) -> (r: Result<Vec<u8>, CodecError>)
    ensures
        match r {
            Ok(frame) => payload.len() <= MAX_FRAME_LEN && frame@ == frame_bytes(payload@),
            Err(e) => payload.len() > MAX_FRAME_LEN && e == CodecError::TooLarge,
        },
{
    match length_delimited_encode(payload) {
        Some(frame) => Ok(frame),
        None => Err(CodecError::TooLarge),
    }
}

/// Takes the first frame off the bytes received so far: its payload and the
/// number of bytes to drop from the front of `buf`; `None` while more bytes
/// are needed.
pub fn decode_frame(buf: &Vec<u8>) -> (r: Result<Option<(Vec<u8>, usize)>, CodecError>)
    ensures
        match r {
            Ok(Some((found, taken))) => frame_parse(buf@) == Ok::<
                Option<(Seq<u8>, int)>,
                CodecError,
            >(Some((found@, taken as int))),
            Ok(None) => frame_parse(buf@) == Ok::<Option<(Seq<u8>, int)>, CodecError>(None),
            Err(e) => frame_parse(buf@) == Err::<Option<(Seq<u8>, int)>, CodecError>(e),
        },
{
    match length_delimited_decode(buf) {
        Ok(Some((payload, left))) => Ok(Some((payload, buf.len() - left))),
        Ok(None) => Ok(None),
        Err(_) => Err(CodecError::TooLarge),
    }
}

/// Encodes a message with the structural codec.
pub fn encode_structural(message: &Vec<u8>) -> (bytes: Vec<u8>)
    ensures
        bytes@ == structural_bytes(message@),
{
    let mut out: Vec<u8> = Vec::new();
    put_size_prefix(&mut out, message.len() as u64);
    let ghost head = out@;
    out.extend_from_slice(message.as_slice());
    assert(out@ =~= head + message@);
    out
}

/// Decodes a whole stream with the structural codec.
pub fn decode_structural(bytes: &Vec<u8>) -> (r: Result<Vec<u8>, CodecError>)
    ensures
        match r {
            Ok(found) => structural_parse(bytes@) == Ok::<Seq<u8>, CodecError>(found@),
            Err(e) => structural_parse(bytes@) == Err::<Seq<u8>, CodecError>(e),
        },
{
    if bytes.len() > MAX_STREAM_LEN {
        return Err(CodecError::TooLarge);
    }
    match get_size_prefix(bytes.as_slice()) {
        Err(e) => Err(e),
        Ok((n, used)) => {
            let left: usize = bytes.len() - used;
            if (left as u64) < n {
                Err(CodecError::Truncated)
            } else if (left as u64) > n {
                Err(CodecError::TrailingBytes)
            } else {
                Ok(slice_to_vec(slice_subrange(bytes.as_slice(), used, bytes.len())))
            }
        },
    }
}

/// Decoding the binary encoding of a message gives the message back.
pub proof fn binary_round_trip(message: Seq<u8>)
    requires
        message.len() <= u64::MAX,
    ensures
        binary_parse(binary_bytes(message)) == Ok::<Seq<u8>, CodecError>(message),
{
    let n = message.len() as u64;
    let b = binary_bytes(message);
    lemma_le64_round_trip(n);
    assert(b.subrange(0, 8) =~= le64(n));
    assert(b.subrange(8, b.len() as int) =~= message);
}

/// Bytes behind a binary encoding are refused.
pub proof fn binary_trailing_bytes_fail(message: Seq<u8>, extra: Seq<u8>)
    requires
        message.len() <= u64::MAX,
        extra.len() > 0,
    ensures
        binary_parse(binary_bytes(message) + extra) == Err::<Seq<u8>, CodecError>(
            CodecError::TrailingBytes,
        ),
{
    let n = message.len() as u64;
    let b = binary_bytes(message) + extra;
    lemma_le64_round_trip(n);
    assert(b.subrange(0, 8) =~= le64(n));
}

/// A binary encoding that was cut short does not decode.
pub proof fn binary_cut_short_fails(message: Seq<u8>, keep: int)
    requires
        message.len() <= u64::MAX,
        0 <= keep < binary_bytes(message).len(),
    ensures
        binary_parse(binary_bytes(message).take(keep)) == Err::<Seq<u8>, CodecError>(
            CodecError::Truncated,
        ),
{
    let n = message.len() as u64;
    let b = binary_bytes(message).take(keep);
    lemma_le64_round_trip(n);
    if keep >= 8 {
        assert(b.subrange(0, 8) =~= le64(n));
    }
}

/// The frame of a payload, followed by anything, gives the payload back and
/// takes four bytes more than the payload.
pub proof fn frame_round_trip(payload: Seq<u8>, rest: Seq<u8>)
    requires
        payload.len() <= MAX_FRAME_LEN,
    ensures
        frame_bytes(payload).len() == 4 + payload.len(),
        frame_parse(frame_bytes(payload) + rest) == Ok::<Option<(Seq<u8>, int)>, CodecError>(
            Some((payload, 4 + payload.len() as int)),
        ),
{
    let n = payload.len() as u32;
    let b = frame_bytes(payload) + rest;
    lemma_be32_round_trip(n);
    assert(b.subrange(0, 4) =~= be32(n));
    assert(b.subrange(4, 4 + n) =~= payload);
}

/// A frame that was cut short gives no payload: the reader waits for more.
pub proof fn frame_cut_short_waits(payload: Seq<u8>, keep: int)
    requires
        payload.len() <= MAX_FRAME_LEN,
        0 <= keep < frame_bytes(payload).len(),
    ensures
        frame_parse(frame_bytes(payload).take(keep)) == Ok::<Option<(Seq<u8>, int)>, CodecError>(
            None,
        ),
{
    let n = payload.len() as u32;
    let b = frame_bytes(payload).take(keep);
    lemma_be32_round_trip(n);
    if keep >= 4 {
        assert(b.subrange(0, 4) =~= be32(n));
    }
}

/// Decoding the structural encoding of a message gives the message back.
pub proof fn structural_round_trip(message: Seq<u8>)
    requires
        structural_bytes(message).len() <= MAX_STREAM_LEN,
    ensures
        structural_parse(structural_bytes(message)) == Ok::<Seq<u8>, CodecError>(message),
{
    let n = message.len() as u64;
    let b = structural_bytes(message);
    lemma_size_prefix_round_trip(n, message);
    assert(b.subrange(size_prefix(n).len() as int, b.len() as int) =~= message);
}

/// A structural encoding that was cut short does not decode.
pub proof fn structural_cut_short_fails(message: Seq<u8>, keep: int)
    requires
        structural_bytes(message).len() <= MAX_STREAM_LEN,
        0 <= keep < structural_bytes(message).len(),
    ensures
        structural_parse(structural_bytes(message).take(keep)) == Err::<Seq<u8>, CodecError>(
            CodecError::Truncated,
        ),
{
    let n = message.len() as u64;
    let head = size_prefix(n);
    let b = structural_bytes(message).take(keep);
    if keep < head.len() {
        lemma_size_prefix_truncated(n, keep);
        assert(b =~= head.take(keep));
    } else {
        let tail = message.take(keep - head.len());
        lemma_size_prefix_round_trip(n, tail);
        assert(b =~= head + tail);
    }
}

/// Bytes behind a structural encoding are refused.
pub proof fn structural_trailing_bytes_fail(message: Seq<u8>, extra: Seq<u8>)
    requires
        extra.len() > 0,
        structural_bytes(message).len() + extra.len() <= MAX_STREAM_LEN,
    ensures
        structural_parse(structural_bytes(message) + extra) == Err::<Seq<u8>, CodecError>(
            CodecError::TrailingBytes,
        ),
{
    let n = message.len() as u64;
    lemma_size_prefix_round_trip(n, message + extra);
    assert(structural_bytes(message) + extra =~= size_prefix(n) + (message + extra));
}

/// Bytes that the binary codec decodes are the encoding of the message that
/// comes out, and of no other: what was changed on the way either fails to
/// decode or is the encoding of another message.
pub proof fn binary_decodes_only_encodings(b: Seq<u8>)
    ensures
        match binary_parse(b) {
            Ok(message) => b == binary_bytes(message),
            Err(_) => true,
        },
{
    match binary_parse(b) {
        Ok(message) => {
            lemma_le64_of_value(b.subrange(0, 8));
            assert(b =~= b.subrange(0, 8) + message);
        },
        Err(_) => {},
    }
}

/// Bytes that hold a frame start with the frame of the payload that comes
/// out.
pub proof fn frame_decodes_only_frames(b: Seq<u8>)
    ensures
        match frame_parse(b) {
            Ok(Some((payload, used))) => used == frame_bytes(payload).len() && used <= b.len()
                && b.subrange(0, used) == frame_bytes(payload),
            _ => true,
        },
{
    match frame_parse(b) {
        Ok(Some((payload, used))) => {
            lemma_be32_of_value(b.subrange(0, 4));
            let n = be32_value(b.subrange(0, 4));
            assert(payload.len() == n);
            assert(b.subrange(0, 4 + n) =~= b.subrange(0, 4) + payload);
        },
        _ => {},
    }
}

/// Bytes that the structural codec decodes are the encoding of the message
/// that comes out, and of no other: what was changed on the way either fails
/// to decode or is the encoding of another message.
pub proof fn structural_decodes_only_encodings(b: Seq<u8>)
    ensures
        match structural_parse(b) {
            Ok(message) => b == structural_bytes(message),
            Err(_) => true,
        },
{
    match structural_parse(b) {
        Ok(message) => {
            lemma_size_prefix_is_canonical(b);
            match size_prefix_parse(b) {
                Ok((n, used)) => {
                    assert(message.len() == n);
                    assert(b =~= b.subrange(0, used) + message);
                },
                Err(_) => {},
            }
        },
        Err(_) => {},
    }
}

} // verus!
