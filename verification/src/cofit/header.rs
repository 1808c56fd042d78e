//! Packet headers of the communication protocol: the first byte of every transport packet.
//!
//! `00iiiiii` is a message with ID `i`, `01iiiiii` acknowledges message `i`, `10ssssss` is
//! stream content whose sequence ID starts with the bits `s`, `11000000` asks a stream to revert
//! and `11000001` closes a stream.
use vstd::prelude::*;

verus! {

/// 6-bit identifier
#[derive(PartialEq, Eq, Clone, Copy, Debug, Structural)]
pub struct ID(u8);

#[derive(Debug, PartialEq, Eq, Clone, Copy, Structural)]
pub enum PacketHeaderParseError {
    UnknownPacketType,
}

#[derive(PartialEq, Eq, Clone, Copy, Debug, Structural)]
pub enum PacketHeader {
    Message(ID),
    MessageAck(ID),
    StreamPacket(StreamPacketHeader),
}

#[derive(PartialEq, Eq, Clone, Copy, Debug, Structural)]
pub enum StreamPacketHeader {
    Content(u8),
    Revert,
    Closed,
}

impl ID {
    /// Value of the identifier.
    pub closed spec fn value(self) -> u8 {
        self.0
    }

    /// Identifier with the given value.
    pub closed spec fn with_value(value: u8) -> ID {
        ID(value)
    }

    /// An identifier is determined by its value.
    pub proof fn lemma_value(id: ID, value: u8)
        ensures
            ID::with_value(value).value() == value,
            ID::with_value(id.value()) == id,
    {
    }

    /// Creates an identifier; it has six bits.
    pub fn from(src: u8) -> (r: Self)
        requires
            src < 64,
        ensures
            r.value() == src,
    {
        Self(src)
    }

    /// Value of the identifier.
    pub fn into_u8(self) -> (r: u8)
        ensures
            r == self.value(),
    {
        self.0
    }
}

/// The header can be written as a byte: identifiers and content sequence bits have six bits.
pub open spec fn valid_header(header: PacketHeader) -> bool {
    match header {
        PacketHeader::Message(id) => id.value() < 64,
        PacketHeader::MessageAck(id) => id.value() < 64,
        PacketHeader::StreamPacket(StreamPacketHeader::Content(bits)) => bits < 64,
        PacketHeader::StreamPacket(_) => true,
    }
}

/// Byte of a header.
pub open spec fn header_byte(header: PacketHeader) -> u8 {
    match header {
        PacketHeader::Message(id) => id.value(),
        PacketHeader::MessageAck(id) => (64 + id.value()) as u8,
        PacketHeader::StreamPacket(StreamPacketHeader::Content(bits)) => (128 + bits) as u8,
        PacketHeader::StreamPacket(StreamPacketHeader::Revert) => 192,
        PacketHeader::StreamPacket(StreamPacketHeader::Closed) => 193,
    }
}

/// Header denoted by a byte, if any.
pub open spec fn parse_header(byte: u8) -> Option<PacketHeader> {
    if byte < 64 {
        Some(PacketHeader::Message(ID::with_value(byte)))
    } else if byte < 128 {
        Some(PacketHeader::MessageAck(ID::with_value((byte - 64) as u8)))
    } else if byte < 192 {
        Some(PacketHeader::StreamPacket(StreamPacketHeader::Content((byte - 128) as u8)))
    } else if byte == 192 {
        Some(PacketHeader::StreamPacket(StreamPacketHeader::Revert))
    } else if byte == 193 {
        Some(PacketHeader::StreamPacket(StreamPacketHeader::Closed))
    } else {
        None
    }
}

impl PacketHeader {
    /// Reads a header from its byte.
    pub fn try_from(src: u8) -> (r: Result<Self, PacketHeaderParseError>)
        ensures
            match parse_header(src) {
                Some(header) => r == Ok::<PacketHeader, PacketHeaderParseError>(header),
                None => r == Err::<PacketHeader, PacketHeaderParseError>(PacketHeaderParseError::UnknownPacketType),
            },
    {
        let kind = src & 0b11_000000;
        proof {
            assert(kind == 0 <==> src < 64) by (bit_vector)
                requires
                    kind == src & 0b11_000000,
            ;
            assert(kind == 0b01_000000 <==> 64 <= src < 128) by (bit_vector)
                requires
                    kind == src & 0b11_000000,
            ;
            assert(kind == 0b10_000000 <==> 128 <= src < 192) by (bit_vector)
                requires
                    kind == src & 0b11_000000,
            ;
            assert(64 <= src < 192 ==> src & 0b111111 == src % 64) by (bit_vector);
        }
        proof {
            ID::lemma_value(ID::with_value(src), src);
            ID::lemma_value(ID::with_value(src & 0b111111), src & 0b111111);
        }
        let header = if kind == 0 {
            PacketHeader::Message(ID::from(src))
        } else if kind == 0b01_000000 {
            PacketHeader::MessageAck(ID::from(src & 0b111111))
        } else if kind == 0b10_000000 {
            PacketHeader::StreamPacket(StreamPacketHeader::Content(src & 0b111111))
        } else if src == 0b11000000 {
            PacketHeader::StreamPacket(StreamPacketHeader::Revert)
        } else if src == 0b11000001 {
            PacketHeader::StreamPacket(StreamPacketHeader::Closed)
        } else {
            return Err(PacketHeaderParseError::UnknownPacketType);
        };
        Ok(header)
    }

    /// Byte of the header.
    pub fn into_u8(self) -> (r: u8)
        requires
            valid_header(self),
        ensures
            r == header_byte(self),
    {
        match self {
            PacketHeader::Message(id) => id.into_u8(),
            PacketHeader::MessageAck(id) => {
                let value = id.into_u8();
                assert(0b01_000000 | value == 64 + value) by (bit_vector)
                    requires
                        value < 64,
                ;
                0b01_000000 | value
            },
            PacketHeader::StreamPacket(StreamPacketHeader::Content(bits)) => {
                assert(0b10_000000 | bits == 128 + bits) by (bit_vector)
                    requires
                        bits < 64,
                ;
                0b10_000000 | bits
            },
            PacketHeader::StreamPacket(StreamPacketHeader::Revert) => 0b11000000,
            PacketHeader::StreamPacket(StreamPacketHeader::Closed) => 0b11000001,
        }
    }
}

/// Writing a valid header and reading the byte back gives the header.
pub proof fn lemma_header_roundtrip(header: PacketHeader)
    requires
        valid_header(header),
    ensures
        parse_header(header_byte(header)) == Some(header),
{
    match header {
        PacketHeader::Message(id) => ID::lemma_value(id, id.value()),
        PacketHeader::MessageAck(id) => ID::lemma_value(id, id.value()),
        _ => {},
    }
}

/// Every byte that reads as a header is the byte of that header, which is valid.
pub proof fn lemma_byte_roundtrip(byte: u8)
    requires
        parse_header(byte) is Some,
    ensures
        valid_header(parse_header(byte)->0),
        header_byte(parse_header(byte)->0) == byte,
{
    ID::lemma_value(ID::with_value(byte), byte);
    if byte >= 64 {
        ID::lemma_value(ID::with_value((byte - 64) as u8), (byte - 64) as u8);
    }
}

} // verus!
