//! One connection to one peer, without its socket.
//!
//! A connection here is the part between messages and bytes. Its owner
//! carries the bytes: what `send` wrote is taken out and put on the wire, and
//! what came off the wire is fed in for `receive` to read.
use std::collections::VecDeque;
use vstd::prelude::*;

use crate::codec::{
    binary_bytes, binary_parse, binary_round_trip, binary_trailing_bytes_fail, decode_binary,
    decode_frame,
    decode_structural, encode_binary, encode_frame, encode_structural, frame_bytes,
    frame_cut_short_waits, frame_parse, frame_round_trip, structural_bytes, structural_parse,
    structural_round_trip, MAX_FRAME_LEN, MAX_STREAM_LEN,
};
use crate::manager::payloads;
use crate::wire::CodecError;

verus! {

/// Why a connection is of no more use.
#[derive(Clone, Copy, Debug, PartialEq, Eq, Structural)]
pub enum ConnectionError {
    /// The other side has closed the connection.
    Closed,
    /// What was to be sent or what arrived is not a message.
    Codec(CodecError),
}

/// A connection that carries one message at a time.
pub trait IP2PConnection {
    /// Whether the other side has closed the connection.
    spec fn shut(&self) -> bool;

    /// Whether this kind of connection can carry `message`.
    spec fn takes(message: Seq<u8>) -> bool;

    /// The bytes that carry `message` on this kind of connection.
    spec fn carried(message: Seq<u8>) -> Seq<u8>;

    /// The bytes that were written and not yet taken out, in the order in
    /// which they were written.
    spec fn written(&self) -> Seq<u8>;

    /// What reading finds in what has come in.
    spec fn readable(&self) -> Result<Option<Seq<u8>>, ConnectionError>;

    /// Writes `message` for the peer, behind what is already written. A
    /// connection that was closed takes nothing, and neither is a message
    /// written that the connection cannot carry.
    fn send(&mut self, message: Vec<u8>) -> (r: Result<(), ConnectionError>)
        ensures
            final(self).shut() == old(self).shut(),
            final(self).readable() == old(self).readable(),
            r == if old(self).shut() {
                Err::<(), ConnectionError>(ConnectionError::Closed)
            } else if !Self::takes(message@) {
                Err::<(), ConnectionError>(ConnectionError::Codec(CodecError::TooLarge))
            } else {
                Ok::<(), ConnectionError>(())
            },
            final(self).written() == if r is Ok {
                old(self).written() + Self::carried(message@)
            } else {
                old(self).written()
            },
    ;

    /// The next message from the peer; `None` while it has not arrived in
    /// full.
    fn receive(&mut self) -> (r: Result<Option<Vec<u8>>, ConnectionError>)
        ensures
            final(self).shut() == old(self).shut(),
            final(self).written() == old(self).written(),
            seen(r) == old(self).readable(),
    ;
}

/// The bytes of `streams` one after the other.
pub open spec fn joined(streams: Seq<Seq<u8>>) -> Seq<u8>
    decreases streams.len(),
{
    if streams.len() == 0 {
        Seq::empty()
    } else {
        joined(streams.drop_last()) + streams.last()
    }
}

/// What a message looks like on the stream transport: its binary encoding in
/// a frame.
pub open spec fn stream_bytes(message: Seq<u8>) -> Seq<u8> {
    frame_bytes(binary_bytes(message))
}

/// What `receive` finds at the front of the bytes that came in over the
/// stream transport: a message and the bytes it took, nothing yet, or an
/// error.
pub open spec fn stream_parse(b: Seq<u8>) -> Result<Option<(Seq<u8>, int)>, CodecError> {
    match frame_parse(b) {
        Err(e) => Err(e),
        Ok(None) => Ok(None),
        Ok(Some((payload, used))) => match binary_parse(payload) {
            Err(e) => Err(e),
            Ok(message) => Ok(Some((message, used))),
        },
    }
}

/// What a result holds: the message as the bytes it is made of.
pub open spec fn seen(r: Result<Option<Vec<u8>>, ConnectionError>) -> Result<
    Option<Seq<u8>>,
    ConnectionError,
> {
    match r {
        Ok(Some(message)) => Ok(Some(message@)),
        Ok(None) => Ok(None),
        Err(e) => Err(e),
    }
}

/// What reading gives on a stream connection that holds `unread`.
pub open spec fn stream_read(unread: Seq<u8>, closed: bool) -> Result<
    Option<Seq<u8>>,
    ConnectionError,
> {
    match stream_parse(unread) {
        Err(e) => Err(ConnectionError::Codec(e)),
        Ok(None) => if closed {
            Err(ConnectionError::Closed)
        } else {
            Ok(None)
        },
        Ok(Some((message, _))) => Ok(Some(message)),
    }
}

/// What is left of `unread` after reading: a frame that was there in full is
/// gone, whether or not it held a message.
pub open spec fn stream_rest(unread: Seq<u8>) -> Seq<u8> {
    match frame_parse(unread) {
        Ok(Some((_, used))) => unread.subrange(used, unread.len() as int),
        _ => unread,
    }
}

/// What reading gives on a connection whose oldest unread stream, if any, is
/// the first of `unread`.
pub open spec fn datagram_read(unread: Seq<Seq<u8>>, closed: bool) -> Result<
    Option<Seq<u8>>,
    ConnectionError,
> {
    if unread.len() == 0 {
        if closed {
            Err(ConnectionError::Closed)
        } else {
            Ok(None)
        }
    } else {
        match structural_parse(unread[0]) {
            Err(e) => Err(ConnectionError::Codec(e)),
            Ok(message) => Ok(Some(message)),
        }
    }
}

/// What one side wrote for a message, the other side reads as that message,
/// whatever follows it on the stream.
pub proof fn stream_round_trip(message: Seq<u8>, rest: Seq<u8>, closed: bool)
    requires
        binary_bytes(message).len() <= MAX_FRAME_LEN,
    ensures
        stream_read(stream_bytes(message) + rest, closed) == Ok::<
            Option<Seq<u8>>,
            ConnectionError,
        >(Some(message)),
        stream_rest(stream_bytes(message) + rest) == rest,
{
    let payload = binary_bytes(message);
    let frame = frame_bytes(payload);
    let all = frame + rest;
    assert(frame_parse(all) == Ok::<Option<(Seq<u8>, int)>, CodecError>(
        Some((payload, frame.len() as int)),
    ) && frame.len() == 4 + payload.len()) by {
        frame_round_trip(payload, rest);
    }
    assert(binary_parse(payload) == Ok::<Seq<u8>, CodecError>(message)) by {
        binary_round_trip(message);
    }
    assert(all.subrange(frame.len() as int, all.len() as int) =~= rest);
}

/// A frame whose payload is the encoding of a message with more bytes behind
/// it gives no message: it is refused.
pub proof fn stream_payload_with_more_fails(
    message: Seq<u8>,
    extra: Seq<u8>,
    rest: Seq<u8>,
    closed: bool,
)
    requires
        extra.len() > 0,
        binary_bytes(message).len() + extra.len() <= MAX_FRAME_LEN,
    ensures
        stream_read(frame_bytes(binary_bytes(message) + extra) + rest, closed) == Err::<
            Option<Seq<u8>>,
            ConnectionError,
        >(ConnectionError::Codec(CodecError::TrailingBytes)),
{
    let payload = binary_bytes(message) + extra;
    assert(frame_parse(frame_bytes(payload) + rest) == Ok::<Option<(Seq<u8>, int)>, CodecError>(
        Some((payload, 4 + payload.len() as int)),
    )) by {
        frame_round_trip(payload, rest);
    }
    assert(binary_parse(payload) == Err::<Seq<u8>, CodecError>(CodecError::TrailingBytes)) by {
        binary_trailing_bytes_fail(message, extra);
    }
}

/// A stream that ends inside a frame gives no message: the reader waits
/// while the connection is open, and learns that it is closed once it is.
pub proof fn stream_cut_short_gives_nothing(message: Seq<u8>, keep: int, closed: bool)
    requires
        binary_bytes(message).len() <= MAX_FRAME_LEN,
        0 <= keep < stream_bytes(message).len(),
    ensures
        stream_read(stream_bytes(message).take(keep), closed) == if closed {
            Err::<Option<Seq<u8>>, ConnectionError>(ConnectionError::Closed)
        } else {
            Ok::<Option<Seq<u8>>, ConnectionError>(None)
        },
{
    frame_cut_short_waits(binary_bytes(message), keep);
}

/// What one side wrote as a stream for a message, the other side reads as
/// that message.
pub proof fn datagram_round_trip(message: Seq<u8>, later: Seq<Seq<u8>>, closed: bool)
    requires
        structural_bytes(message).len() <= MAX_STREAM_LEN,
    ensures
        datagram_read(seq![structural_bytes(message)] + later, closed) == Ok::<
            Option<Seq<u8>>,
            ConnectionError,
        >(Some(message)),
{
    structural_round_trip(message);
}

/// A connection over a stream of bytes, where each message travels in a
/// frame that says how long it is.
pub struct StreamConnection {
    inbound: Vec<u8>,
    outbound: Vec<u8>,
    closed: bool,
}

impl StreamConnection {
    /// The bytes that came in and were not read yet.
    pub closed spec fn unread(&self) -> Seq<u8> {
        self.inbound@
    }

    /// The bytes that were written and not yet taken out.
    pub closed spec fn unsent(&self) -> Seq<u8> {
        self.outbound@
    }

    /// Whether the other side has closed the connection.
    pub closed spec fn is_closed(&self) -> bool {
        self.closed
    }

    /// A connection with nothing read and nothing written.
    pub fn new() -> (connection: StreamConnection)
        ensures
            connection.unread() == Seq::<u8>::empty(),
            connection.unsent() == Seq::<u8>::empty(),
            !connection.is_closed(),
    {
        StreamConnection { inbound: Vec::new(), outbound: Vec::new(), closed: false }
    }

    /// Takes in bytes that came off the wire.
    pub fn feed(&mut self, bytes: &[u8])
        ensures
            final(self).unread() == old(self).unread() + bytes@,
            final(self).unsent() == old(self).unsent(),
            final(self).is_closed() == old(self).is_closed(),
    {
        let ghost before = self.inbound@;
        self.inbound.extend_from_slice(bytes);
        assert(self.inbound@ =~= before + bytes@);
    }

    /// Notes that the other side has closed the connection.
    pub fn close(&mut self)
        ensures
            final(self).is_closed(),
            final(self).unread() == old(self).unread(),
            final(self).unsent() == old(self).unsent(),
    {
        self.closed = true;
    }

    /// Takes out the bytes that are to go on the wire.
    pub fn take_unsent(&mut self) -> (bytes: Vec<u8>)
        ensures
            bytes@ == old(self).unsent(),
            final(self).unsent() == Seq::<u8>::empty(),
            final(self).unread() == old(self).unread(),
            final(self).is_closed() == old(self).is_closed(),
    {
        let mut bytes: Vec<u8> = Vec::new();
        std::mem::swap(&mut bytes, &mut self.outbound);
        bytes
    }
}

impl IP2PConnection for StreamConnection {
    open spec fn shut(&self) -> bool {
        self.is_closed()
    }

    open spec fn takes(message: Seq<u8>) -> bool {
        binary_bytes(message).len() <= MAX_FRAME_LEN
    }

    open spec fn carried(message: Seq<u8>) -> Seq<u8> {
        stream_bytes(message)
    }

    open spec fn written(&self) -> Seq<u8> {
        self.unsent()
    }

    open spec fn readable(&self) -> Result<Option<Seq<u8>>, ConnectionError> {
        stream_read(self.unread(), self.is_closed())
    }

    /// Writes the frame of `message` behind what is already written. A
    /// closed connection takes nothing, and neither does the frame take a
    /// message whose encoding is longer than `MAX_FRAME_LEN`.
    fn send(&mut self, message: Vec<u8>) -> (r: Result<(), ConnectionError>)
        ensures
            final(self).unread() == old(self).unread(),
            final(self).is_closed() == old(self).is_closed(),
            r == if old(self).is_closed() {
                Err::<(), ConnectionError>(ConnectionError::Closed)
            } else if binary_bytes(message@).len() > MAX_FRAME_LEN {
                Err::<(), ConnectionError>(ConnectionError::Codec(CodecError::TooLarge))
            } else {
                Ok::<(), ConnectionError>(())
            },
            final(self).unsent() == if r is Ok {
                old(self).unsent() + stream_bytes(message@)
            } else {
                old(self).unsent()
            },
    {
        if self.closed {
            return Err(ConnectionError::Closed);
        }
        let payload = encode_binary(&message);
        match encode_frame(&payload) {
            Err(e) => Err(ConnectionError::Codec(e)),
            Ok(frame) => {
                let ghost before = self.outbound@;
                self.outbound.extend_from_slice(frame.as_slice());
                assert(self.outbound@ =~= before + frame@);
                Ok(())
            },
        }
    }

    /// Reads the first frame of what came in and decodes the message in it.
    /// While the frame is not there in full, there is no message yet; once
    /// the other side has closed, none will come.
    fn receive(&mut self) -> (r: Result<Option<Vec<u8>>, ConnectionError>)
        ensures
            final(self).unsent() == old(self).unsent(),
            final(self).is_closed() == old(self).is_closed(),
            final(self).unread() == stream_rest(old(self).unread()),
            seen(r) == stream_read(old(self).unread(), old(self).is_closed()),
    {
        match decode_frame(&self.inbound) {
            Err(e) => Err(ConnectionError::Codec(e)),
            Ok(None) => {
                if self.closed {
                    Err(ConnectionError::Closed)
                } else {
                    Ok(None)
                }
            },
            Ok(Some((payload, used))) => {
                let rest = self.inbound.split_off(used);
                self.inbound = rest;
                match decode_binary(&payload) {
                    Err(e) => Err(ConnectionError::Codec(e)),
                    Ok(message) => Ok(Some(message)),
                }
            },
        }
    }
}

/// A connection where each message travels in a stream of its own, which
/// ends where the message ends.
pub struct DatagramConnection {
    inbound: VecDeque<Vec<u8>>,
    outbound: VecDeque<Vec<u8>>,
    closed: bool,
}

impl DatagramConnection {
    /// The streams that came in and were not read yet, oldest first.
    pub closed spec fn unread(&self) -> Seq<Seq<u8>> {
        payloads(self.inbound@)
    }

    /// The streams that were written and not yet taken out, oldest first.
    pub closed spec fn unsent(&self) -> Seq<Seq<u8>> {
        payloads(self.outbound@)
    }

    /// Whether the other side has closed the connection.
    pub closed spec fn is_closed(&self) -> bool {
        self.closed
    }

    /// A connection with nothing read and nothing written.
    pub fn new() -> (connection: DatagramConnection)
        ensures
            connection.unread() == Seq::<Seq<u8>>::empty(),
            connection.unsent() == Seq::<Seq<u8>>::empty(),
            !connection.is_closed(),
    {
        let connection = DatagramConnection {
            inbound: VecDeque::new(),
            outbound: VecDeque::new(),
            closed: false,
        };
        assert(connection.unread() =~= Seq::<Seq<u8>>::empty());
        assert(connection.unsent() =~= Seq::<Seq<u8>>::empty());
        connection
    }

    /// Takes in a stream that the peer opened, read to its end.
    pub fn accept(&mut self, stream: Vec<u8>)
        ensures
            final(self).unread() == old(self).unread().push(stream@),
            final(self).unsent() == old(self).unsent(),
            final(self).is_closed() == old(self).is_closed(),
    {
        let ghost before = self.inbound@;
        self.inbound.push_back(stream);
        assert(payloads(before.push(stream)) =~= payloads(before).push(stream@));
    }

    /// Notes that the other side has closed the connection.
    pub fn close(&mut self)
        ensures
            final(self).is_closed(),
            final(self).unread() == old(self).unread(),
            final(self).unsent() == old(self).unsent(),
    {
        self.closed = true;
    }

    /// Takes out the oldest stream that is to go on the wire. Its owner
    /// opens a stream, writes all of it and finishes the stream.
    pub fn take_unsent(&mut self) -> (stream: Option<Vec<u8>>)
        ensures
            final(self).unread() == old(self).unread(),
            final(self).is_closed() == old(self).is_closed(),
            match stream {
                Some(bytes) => old(self).unsent().len() > 0 && bytes@ == old(self).unsent()[0]
                    && final(self).unsent() == old(self).unsent().subrange(
                    1,
                    old(self).unsent().len() as int,
                ),
                None => old(self).unsent().len() == 0 && final(self).unsent() == old(
                    self,
                ).unsent(),
            },
    {
        let ghost before = self.outbound@;
        let stream = self.outbound.pop_front();
        proof {
            if before.len() > 0 {
                assert(payloads(before.subrange(1, before.len() as int)) =~= payloads(
                    before,
                ).subrange(1, before.len() as int));
            }
        }
        stream
    }
}

impl IP2PConnection for DatagramConnection {
    open spec fn shut(&self) -> bool {
        self.is_closed()
    }

    open spec fn takes(message: Seq<u8>) -> bool {
        true
    }

    open spec fn carried(message: Seq<u8>) -> Seq<u8> {
        structural_bytes(message)
    }

    open spec fn written(&self) -> Seq<u8> {
        joined(self.unsent())
    }

    open spec fn readable(&self) -> Result<Option<Seq<u8>>, ConnectionError> {
        datagram_read(self.unread(), self.is_closed())
    }

    /// Writes the structural encoding of `message` as a stream of its own.
    /// A closed connection takes nothing.
    fn send(&mut self, message: Vec<u8>) -> (r: Result<(), ConnectionError>)
        ensures
            final(self).unread() == old(self).unread(),
            final(self).is_closed() == old(self).is_closed(),
            r == if old(self).is_closed() {
                Err::<(), ConnectionError>(ConnectionError::Closed)
            } else {
                Ok::<(), ConnectionError>(())
            },
            final(self).unsent() == if r is Ok {
                old(self).unsent().push(structural_bytes(message@))
            } else {
                old(self).unsent()
            },
    {
        if self.closed {
            return Err(ConnectionError::Closed);
        }
        let stream = encode_structural(&message);
        let ghost before = self.outbound@;
        self.outbound.push_back(stream);
        assert(payloads(before.push(stream)) =~= payloads(before).push(stream@));
        assert(payloads(before).push(stream@).drop_last() =~= payloads(before));
        Ok(())
    }

    /// Reads the oldest stream that came in and decodes the message that
    /// the whole of it holds. While no stream is there, there is no message
    /// yet; once the other side has closed, none will come.
    fn receive(&mut self) -> (r: Result<Option<Vec<u8>>, ConnectionError>)
        ensures
            final(self).unsent() == old(self).unsent(),
            final(self).is_closed() == old(self).is_closed(),
            final(self).unread() == if old(self).unread().len() > 0 {
                old(self).unread().subrange(1, old(self).unread().len() as int)
            } else {
                old(self).unread()
            },
            seen(r) == datagram_read(old(self).unread(), old(self).is_closed()),
    {
        let ghost before = self.inbound@;
        match self.inbound.pop_front() {
            None => {
                if self.closed {
                    Err(ConnectionError::Closed)
                } else {
                    Ok(None)
                }
            },
            Some(stream) => {
                proof {
                    assert(payloads(before.subrange(1, before.len() as int)) =~= payloads(
                        before,
                    ).subrange(1, before.len() as int));
                }
                match decode_structural(&stream) {
                    Err(e) => Err(ConnectionError::Codec(e)),
                    Ok(message) => Ok(Some(message)),
                }
            },
        }
    }
}

} // verus!
