//! Messages of the test protocol between a host and the keyboard: reading, writing and erasing
//! ranges of flash memory.
//!
//! A message travels as its encoding (produced by the host's serializer) padded with zeros to
//! the protocol MTU, under the message identifier 42. Writes arrive as a stream of chunks that
//! are written one after another from the start of the range; reads send chunks read from the
//! flash for increasing stream offsets.
use crate::cofit::header::ID;
use crate::cofit::{SerializedMessage, WireFormat};
use vstd::prelude::*;

verus! {

/// Identifier of every message of the test protocol.
pub const TEST_MESSAGE_ID: u8 = 42;

/// Range of flash memory.
#[derive(Debug, Clone, Copy, PartialEq, Eq)]
pub struct DataRange {
    pub offset: u64,
    pub length: u64,
}

/// Request of the test protocol.
#[derive(Debug, Clone, Copy, PartialEq, Eq)]
pub enum Message {
    WriteFlash(DataRange),
    ReadFlash(DataRange),
    EraseFlash(DataRange),
}

/// Reasons for which a message cannot be framed or unframed.
#[derive(Debug, Clone, Copy, PartialEq, Eq, Structural)]
pub enum MessageFormatError {
    /// The encoded message does not fit into the protocol MTU
    BufferFull,
    /// The message does not carry the identifier of the test protocol
    UnknownMessage,
}

/// Wire format of the test protocol.
pub struct TestFormat;

impl TestFormat {
    /// Frames an encoded message into `MTU` bytes, padded with zeros, under the test
    /// protocol's identifier.
    pub fn serialize<const MTU: usize>(&self, encoded: &Vec<u8>) -> (r: Result<SerializedMessage, MessageFormatError>)
        ensures
            encoded@.len() > MTU <==> r == Err::<SerializedMessage, MessageFormatError>(MessageFormatError::BufferFull),
            encoded@.len() <= MTU <==> r is Ok,
            r matches Ok(message) ==> {
                &&& message.id.value() == TEST_MESSAGE_ID
                &&& message.bytes@ == encoded@ + Seq::new((MTU - encoded@.len()) as nat, |i: int| 0u8)
            },
    {
        if encoded.len() > MTU {
            return Err(MessageFormatError::BufferFull);
        }
        let mut bytes: Vec<u8> = Vec::new();
        let mut i: usize = 0;
        while i < encoded.len()
            invariant
                i <= encoded@.len(),
                bytes@ == encoded@.take(i as int),
            decreases encoded@.len() - i,
        {
            bytes.push(encoded[i]);
            i += 1;
            assert(bytes@ =~= encoded@.take(i as int));
        }
        assert(encoded@.take(encoded@.len() as int) =~= encoded@);
        while bytes.len() < MTU
            invariant
                encoded@.len() <= bytes@.len() <= MTU,
                bytes@ == encoded@ + Seq::new((bytes@.len() - encoded@.len()) as nat, |i: int| 0u8),
            decreases MTU - bytes@.len(),
        {
            bytes.push(0);
            assert(bytes@ =~= encoded@ + Seq::new((bytes@.len() - encoded@.len()) as nat, |i: int| 0u8));
        }
        Ok(SerializedMessage { id: ID::from(TEST_MESSAGE_ID), bytes })
    }

    /// The encoded message carried by a serialized message of the test protocol.
    pub fn deserialize(&self, packet: &SerializedMessage) -> (r: Result<Vec<u8>, MessageFormatError>)
        ensures
            packet.id.value() != TEST_MESSAGE_ID <==> r == Err::<Vec<u8>, MessageFormatError>(MessageFormatError::UnknownMessage),
            packet.id.value() == TEST_MESSAGE_ID <==> r is Ok,
            r matches Ok(bytes) ==> bytes@ == packet.bytes@,
    {
        if packet.id.into_u8() != TEST_MESSAGE_ID {
            return Err(MessageFormatError::UnknownMessage);
        }
        let mut bytes: Vec<u8> = Vec::new();
        let mut i: usize = 0;
        while i < packet.bytes.len()
            invariant
                i <= packet.bytes@.len(),
                bytes@ == packet.bytes@.take(i as int),
            decreases packet.bytes@.len() - i,
        {
            bytes.push(packet.bytes[i]);
            i += 1;
            assert(bytes@ =~= packet.bytes@.take(i as int));
        }
        assert(packet.bytes@.take(packet.bytes@.len() as int) =~= packet.bytes@);
        Ok(bytes)
    }
}

/// Messages of the test protocol travel as their encoding, as produced by the host's
/// serializer.
impl<const MTU: usize> WireFormat<MTU> for TestFormat {
    type Message = Vec<u8>;
    type Error = MessageFormatError;

    /// Framing fails exactly when the encoding is longer than the MTU; otherwise the message
    /// carries the test protocol's identifier and the encoding padded with zeros.
    open spec fn serializes(&self, message: Vec<u8>, r: Result<SerializedMessage, MessageFormatError>) -> bool {
        if message@.len() > MTU {
            r == Err::<SerializedMessage, MessageFormatError>(MessageFormatError::BufferFull)
        } else {
            r matches Ok(framed) && framed.id.value() == TEST_MESSAGE_ID && framed.bytes@ == message@ + Seq::new(
                (MTU - message@.len()) as nat,
                |i: int| 0u8,
            )
        }
    }

    /// Unframing fails exactly on another identifier; otherwise it gives the packet's bytes.
    open spec fn deserializes(&self, packet: SerializedMessage, r: Result<Vec<u8>, MessageFormatError>) -> bool {
        if packet.id.value() != TEST_MESSAGE_ID {
            r == Err::<Vec<u8>, MessageFormatError>(MessageFormatError::UnknownMessage)
        } else {
            r matches Ok(bytes) && bytes@ == packet.bytes@
        }
    }

    fn serialize(&self, message: Vec<u8>) -> Result<SerializedMessage, MessageFormatError> {
        TestFormat::serialize::<MTU>(self, &message)
    }

    fn deserialize(&self, packet: SerializedMessage) -> Result<Vec<u8>, MessageFormatError> {
        TestFormat::deserialize(self, &packet)
    }
}

/// A framed message holds the encoding followed by zeros up to the MTU.
pub proof fn lemma_framed_message(encoded: Seq<u8>, mtu: nat, message: SerializedMessage)
    requires
        encoded.len() <= mtu,
        message.id.value() == TEST_MESSAGE_ID,
        message.bytes@ == encoded + Seq::new((mtu - encoded.len()) as nat, |i: int| 0u8),
    ensures
        message.bytes@.take(encoded.len() as int) == encoded,
        message.bytes@.len() == mtu,
        forall|i: int| encoded.len() <= i < mtu ==> message.bytes@[i] == 0,
{
    assert(message.bytes@.take(encoded.len() as int) =~= encoded);
}

/// Progress of a flash write: chunks are written one after another from the start of the
/// range until its end is reached.
pub struct FlashWrite {
    offset: u32,
    end_offset: u32,
}

impl FlashWrite {
    /// Address at which the next chunk is written.
    pub closed spec fn spec_offset(&self) -> u32 {
        self.offset
    }

    /// Address at which the range ends.
    pub closed spec fn spec_end_offset(&self) -> u32 {
        self.end_offset
    }

    /// Starts writing the range; addresses are taken modulo 2^32.
    pub fn new(range: &DataRange) -> (r: Self)
        requires
            range.offset + range.length <= u64::MAX,
        ensures
            r.spec_offset() == range.offset as u32,
            r.spec_end_offset() == (range.offset + range.length) as u32,
    {
        FlashWrite { offset: range.offset as u32, end_offset: (range.offset + range.length) as u32 }
    }

    /// Where a received chunk of `len` bytes is written, or `None` once the end of the range
    /// was reached, which ends the write.
    pub fn next_chunk(&mut self, len: usize) -> (r: Option<u32>)
        requires
            old(self).spec_offset() < old(self).spec_end_offset() ==> old(self).spec_offset() + len <= u32::MAX,
        ensures
            old(self).spec_offset() >= old(self).spec_end_offset() ==> r is None && *final(self) == *old(self),
            old(self).spec_offset() < old(self).spec_end_offset() ==> {
                &&& r == Some(old(self).spec_offset())
                &&& final(self).spec_offset() == old(self).spec_offset() + len
                &&& final(self).spec_end_offset() == old(self).spec_end_offset()
            },
    {
        if self.offset >= self.end_offset {
            return None;
        }
        let location = self.offset;
        self.offset = self.offset + len as u32;
        Some(location)
    }
}

/// Address of the flash chunk sent for a stream offset while reading the range, or `None`
/// when the stream offset reaches the end address of the range, which ends the stream.
/// Addresses are taken modulo 2^32.
pub fn read_chunk_location(range: &DataRange, read_offset: u64) -> (r: Option<u32>)
    requires
        range.offset + range.length <= u64::MAX,
        read_offset < range.offset + range.length ==> range.offset + read_offset <= u64::MAX,
    ensures
        read_offset >= range.offset + range.length <==> r is None,
        r matches Some(location) ==> location == (range.offset + read_offset) as u32,
{
    if read_offset >= range.offset + range.length {
        None
    } else {
        Some((range.offset + read_offset) as u32)
    }
}

/// Start and end addresses of the flash erased for a range, modulo 2^32.
pub fn erase_bounds(range: &DataRange) -> (r: (u32, u32))
    requires
        range.offset + range.length <= u64::MAX,
    ensures
        r == (range.offset as u32, (range.offset + range.length) as u32),
{
    (range.offset as u32, (range.offset + range.length) as u32)
}

} // verus!
