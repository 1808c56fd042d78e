//! Communication over fixed interval transports (like USB HID)
//!
//! A transport packet starts with a header byte (see [`header`]). Messages and their
//! acknowledgements carry the message bytes after the header; stream packets carry their
//! stream data.
pub mod header;
pub mod stream;

use header::{header_byte, parse_header, valid_header, PacketHeader, PacketHeaderParseError, ID};
use stream::StreamPacket;
use vstd::prelude::*;

verus! {

/// Milliseconds to wait for the acknowledgement of a message.
pub const ACK_TIMEOUT_MS: u32 = 10_000;

/// Milliseconds to wait for the next stream packet.
pub const STREAM_RECV_TIMEOUT_MS: u32 = 10_000;

/// Message with its identifier and its `MTU` bytes.
#[derive(PartialEq, Eq, Clone, Debug)]
pub struct SerializedMessage {
    pub id: ID,
    pub bytes: Vec<u8>,
}

impl SerializedMessage {
    /// The messages have the same identifier and bytes.
    pub fn same_as(&self, other: &SerializedMessage) -> (r: bool)
        ensures
            r == (self.id == other.id && self.bytes@ == other.bytes@),
    {
        if self.id.into_u8() != other.id.into_u8() {
            proof {
                header::ID::lemma_value(self.id, 0);
                header::ID::lemma_value(other.id, 0);
            }
            return false;
        }
        proof {
            header::ID::lemma_value(self.id, 0);
            header::ID::lemma_value(other.id, 0);
        }
        if self.bytes.len() != other.bytes.len() {
            return false;
        }
        let mut i: usize = 0;
        while i < self.bytes.len()
            invariant
                i <= self.bytes@.len() == other.bytes@.len(),
                forall|j: int| 0 <= j < i ==> self.bytes@[j] == other.bytes@[j],
            decreases self.bytes@.len() - i,
        {
            if self.bytes[i] != other.bytes[i] {
                return false;
            }
            i += 1;
        }
        assert(self.bytes@ =~= other.bytes@);
        true
    }
}

#[derive(Debug)]
pub enum NetworkError<E> {
    FormatError(E),
    InvalidPacketHeader(PacketHeaderParseError),
    TimedOut,
    UnexpectedAck,
}

/// Incoming transport packet, routed by its header.
pub enum Incoming {
    Message(SerializedMessage),
    Acknowledgement(SerializedMessage),
    Stream(StreamPacket),
    Invalid(PacketHeaderParseError),
}

/// The transport, protocol and stream MTUs fit together: one header byte per transport
/// packet and two sequence bytes per stream packet.
pub open spec fn mtus_fit(tmtu: usize, pmtu: usize, smtu: usize) -> bool {
    tmtu == pmtu + 1 && pmtu == smtu + 2
}

/// Transport packet with the header byte followed by the bytes.
pub open spec fn framed(header: PacketHeader, bytes: Seq<u8>) -> Seq<u8> {
    seq![header_byte(header)] + bytes
}

/// Builds a transport packet from a header and the bytes after it.
pub fn frame(header: PacketHeader, bytes: &Vec<u8>) -> (r: Vec<u8>)
    requires
        valid_header(header),
    ensures
        r@ == framed(header, bytes@),
{
    let mut data: Vec<u8> = vec![header.into_u8()];
    let mut i: usize = 0;
    while i < bytes.len()
        invariant
            i <= bytes@.len(),
            data@ == seq![header_byte(header)] + bytes@.take(i as int),
        decreases bytes@.len() - i,
    {
        data.push(bytes[i]);
        i += 1;
        assert(data@ =~= seq![header_byte(header)] + bytes@.take(i as int));
    }
    assert(bytes@.take(bytes@.len() as int) =~= bytes@);
    data
}

/// Routes an incoming transport packet by its header.
pub fn classify(data: &Vec<u8>) -> (r: Incoming)
    requires
        data@.len() >= 1,
    ensures
        match parse_header(data@[0]) {
            Some(PacketHeader::Message(id)) => r matches Incoming::Message(m) && m.id == id && m.bytes@ == data@.skip(1),
            Some(PacketHeader::MessageAck(id)) => r matches Incoming::Acknowledgement(m) && m.id == id && m.bytes@
                == data@.skip(1),
            Some(PacketHeader::StreamPacket(header)) => r matches Incoming::Stream(p) && p.header == header && p.bytes@
                == data@.skip(1),
            None => r matches Incoming::Invalid(e) && e == PacketHeaderParseError::UnknownPacketType,
        },
{
    let mut bytes: Vec<u8> = Vec::new();
    let mut i: usize = 1;
    while i < data.len()
        invariant
            1 <= i <= data@.len(),
            bytes@ == data@.subrange(1, i as int),
        decreases data@.len() - i,
    {
        bytes.push(data[i]);
        i += 1;
        assert(bytes@ =~= data@.subrange(1, i as int));
    }
    assert(bytes@ =~= data@.skip(1));
    match PacketHeader::try_from(data[0]) {
        Ok(PacketHeader::Message(id)) => Incoming::Message(SerializedMessage { id, bytes }),
        Ok(PacketHeader::MessageAck(id)) => Incoming::Acknowledgement(SerializedMessage { id, bytes }),
        Ok(PacketHeader::StreamPacket(header)) => Incoming::Stream(StreamPacket { header, bytes }),
        Err(e) => Incoming::Invalid(e),
    }
}

/// Turns messages into serialized messages of `MTU` bytes and back.
pub trait WireFormat<const MTU: usize> {
    type Message;
    type Error;

    /// `r` is the outcome of serializing the message in this format.
    spec fn serializes(&self, message: Self::Message, r: Result<SerializedMessage, Self::Error>) -> bool;

    /// `r` is the outcome of deserializing the packet in this format.
    spec fn deserializes(&self, packet: SerializedMessage, r: Result<Self::Message, Self::Error>) -> bool;

    /// Serialized form of the message.
    fn serialize(&self, message: Self::Message) -> (r: Result<SerializedMessage, Self::Error>)
        ensures
            self.serializes(message, r),
    ;

    /// Message carried by a serialized message.
    fn deserialize(&self, packet: SerializedMessage) -> (r: Result<Self::Message, Self::Error>)
        ensures
            self.deserializes(packet, r),
    ;
}

/// Message side of the protocol over a transport with packets of `TMTU` bytes, messages of
/// `PMTU` bytes and stream sections of `SMTU` bytes, with a wire format for messages.
pub struct Network<const TMTU: usize, const PMTU: usize, const SMTU: usize, T, F> {
    pub transport: T,
    pub format: F,
}

impl<const TMTU: usize, const PMTU: usize, const SMTU: usize, T, F> Network<TMTU, PMTU, SMTU, T, F> {
    pub fn new(transport: T, format: F) -> (r: Self)
        requires
            mtus_fit(TMTU, PMTU, SMTU),
        ensures
            r.transport == transport,
            r.format == format,
    {
        Self { transport, format }
    }

    /// Transport packet sending a message.
    pub fn message_packet(&self, message: &SerializedMessage) -> (r: Vec<u8>)
        requires
            message.id.value() < 64,
        ensures
            r@ == framed(PacketHeader::Message(message.id), message.bytes@),
    {
        frame(PacketHeader::Message(message.id), &message.bytes)
    }

    /// Transport packet acknowledging a message.
    pub fn acknowledgement_packet(&self, message: &SerializedMessage) -> (r: Vec<u8>)
        requires
            message.id.value() < 64,
        ensures
            r@ == framed(PacketHeader::MessageAck(message.id), message.bytes@),
    {
        frame(PacketHeader::MessageAck(message.id), &message.bytes)
    }

    /// Outcome of sending a message given the acknowledgement received in time, if any: the
    /// acknowledgement has to repeat the message.
    pub fn check_acknowledgement<E>(&self, sent: &SerializedMessage, acknowledgement: Option<SerializedMessage>) -> (r: Result<
        (),
        NetworkError<E>,
    >)
        ensures
            match acknowledgement {
                Some(ack) => if ack.id == sent.id && ack.bytes@ == sent.bytes@ {
                    r is Ok
                } else {
                    r matches Err(NetworkError::UnexpectedAck)
                },
                None => r matches Err(NetworkError::TimedOut),
            },
    {
        match acknowledgement {
            Some(ack) => {
                if ack.same_as(sent) {
                    Ok(())
                } else {
                    Err(NetworkError::UnexpectedAck)
                }
            },
            None => Err(NetworkError::TimedOut),
        }
    }
}

/// A message framed for sending is routed back as that message.
pub proof fn lemma_message_frame_roundtrip(id: ID, bytes: Seq<u8>)
    requires
        id.value() < 64,
    ensures
        parse_header(framed(PacketHeader::Message(id), bytes)[0]) == Some(PacketHeader::Message(id)),
        framed(PacketHeader::Message(id), bytes).skip(1) == bytes,
        parse_header(framed(PacketHeader::MessageAck(id), bytes)[0]) == Some(PacketHeader::MessageAck(id)),
        framed(PacketHeader::MessageAck(id), bytes).skip(1) == bytes,
{
    header::lemma_header_roundtrip(PacketHeader::Message(id));
    header::lemma_header_roundtrip(PacketHeader::MessageAck(id));
    assert(framed(PacketHeader::Message(id), bytes).skip(1) =~= bytes);
    assert(framed(PacketHeader::MessageAck(id), bytes).skip(1) =~= bytes);
}

} // verus!
