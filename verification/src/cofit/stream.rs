//! Streams of data sections sent over the transport in order, with retransmission on request.
//!
//! Content packets carry a 22-bit sequence ID (the low six bits of the header, then two bytes)
//! followed by the data. A close packet and a revert packet carry a sequence ID encoded as a
//! postcard varint. The reader asks for a revert when it sees a sequence ID from the future,
//! and acknowledges the close packet that names the next expected sequence ID.
use super::header::{header_byte, PacketHeader, StreamPacketHeader};
use vstd::prelude::*;

verus! {

/// Sequence IDs are below this value (22 bits).
pub const SEQUENCE_ID_LIMIT: u32 = 0x40_0000;

/// 22-bit stream section identifier
#[derive(PartialEq, Eq, Clone, Copy, PartialOrd, Ord, Debug, Structural)]
pub struct StreamSequenceID(u32);

/// Bytes of the canonical varint (LEB128) encoding of a value, as postcard writes integers.
pub open spec fn varint_bytes(value: nat) -> Seq<u8>
    decreases value,
{
    if value < 128 {
        seq![value as u8]
    } else {
        seq![(value % 128 + 128) as u8] + varint_bytes(value / 128)
    }
}

/// Value of the varint for a `u32` starting at index `i`, as postcard reads it: seven bits per
/// byte, least significant first, a set high bit announcing another byte, at most five bytes,
/// the fifth holding at most four bits.
pub open spec fn varint_from(bytes: Seq<u8>, i: nat) -> Option<nat>
    decreases 5 - i,
{
    if i >= 5 || i >= bytes.len() {
        None
    } else if bytes[i as int] < 128 {
        if i == 4 && bytes[i as int] > 15 {
            None
        } else {
            Some(bytes[i as int] as nat)
        }
    } else {
        match varint_from(bytes, i + 1) {
            Some(rest) => Some(((bytes[i as int] - 128) + 128 * rest) as nat),
            None => None,
        }
    }
}

/// Writes a `u32` in postcard's encoding at the start of the buffer.
///
/// Trusted wrapper around `postcard::to_slice` for a `u32`: postcard writes the canonical
/// varint of the value (at most five bytes) at the start of the slice, leaving the rest
/// untouched, and fails only when the slice is too short.
#[verifier::external_body]
fn postcard_write_u32(value: u32, buffer: &mut [u8]) -> (r: bool)
    requires
        old(buffer)@.len() >= 5,
    ensures
        r,
        final(buffer)@ == varint_bytes(value as nat) + old(buffer)@.skip(varint_bytes(value as nat).len() as int),
{
    postcard::to_slice(&value, buffer).is_ok()
}

/// Reads a `u32` in postcard's encoding from the start of the bytes.
///
/// Trusted wrapper around `postcard::from_bytes` for a `u32`: postcard reads the varint at the
/// start of the slice (see `varint_from`) and ignores the bytes after it.
#[verifier::external_body]
fn postcard_read_u32(bytes: &[u8]) -> (r: Option<u32>)
    ensures
        match varint_from(bytes@, 0) {
            Some(value) => r == Some(value as u32),
            None => r is None,
        },
{
    postcard::from_bytes::<u32>(bytes).ok()
}

/// Big-endian value of three bytes.
pub open spec fn be24(bytes: Seq<u8>) -> int {
    bytes[0] * 65536 + bytes[1] * 256 + bytes[2]
}

impl StreamSequenceID {
    /// Value of the identifier.
    pub closed spec fn value(self) -> u32 {
        self.0
    }

    pub fn from(src: u32) -> (r: Self)
        requires
            src < SEQUENCE_ID_LIMIT,
        ensures
            r.value() == src,
    {
        Self(src)
    }

    /// Value of the identifier.
    pub fn into_u32(self) -> (r: u32)
        ensures
            r == self.value(),
    {
        self.0
    }

    /// Moves on to the next section.
    pub fn increment(&mut self)
        requires
            old(self).value() + 1 < SEQUENCE_ID_LIMIT,
        ensures
            final(self).value() == old(self).value() + 1,
    {
        self.0 = self.0 + 1;
    }

    /// Offset of the section in the streamed data, sections having `smtu` bytes.
    pub fn into_offset(self, smtu: usize) -> (r: u64)
        requires
            self.value() * smtu <= u64::MAX,
        ensures
            r == self.value() * smtu,
    {
        self.0 as u64 * smtu as u64
    }

    /// Big-endian bytes of the low 24 bits.
    pub fn into_bytes(self) -> (r: [u8; 3])
        ensures
            r@ == seq![((self.value() / 65536) % 256) as u8, ((self.value() / 256) % 256) as u8, (self.value() % 256) as u8],
            self.value() < 0x100_0000 ==> be24(r@) == self.value(),
    {
        let value = self.0;
        let r = [((value / 65536) % 256) as u8, ((value / 256) % 256) as u8, (value % 256) as u8];
        r
    }

    /// Identifier with the given big-endian bytes.
    pub fn from_bytes(bytes: [u8; 3]) -> (r: Self)
        requires
            bytes[0] < 64,
        ensures
            r.value() == be24(bytes@),
    {
        let value = (bytes[0] as u32) * 65536 + (bytes[1] as u32) * 256 + (bytes[2] as u32);
        Self::from(value)
    }
}

/// Reading the bytes of an identifier gives it back.
pub proof fn lemma_sequence_id_bytes(value: u32)
    requires
        value < SEQUENCE_ID_LIMIT,
    ensures
        (value / 65536) % 256 < 64,
        be24(seq![((value / 65536) % 256) as u8, ((value / 256) % 256) as u8, (value % 256) as u8]) == value,
{
}

/// Stream packet as received: its header and the bytes after it.
#[derive(PartialEq, Eq, Clone, Debug)]
pub struct StreamPacket {
    pub header: StreamPacketHeader,
    pub bytes: Vec<u8>,
}

/// Transport packet carrying a stream control header and a sequence ID in postcard's
/// encoding, padded with zeros to `length` bytes.
pub open spec fn control_frame(header: StreamPacketHeader, sequence_id: u32, length: nat) -> Seq<u8> {
    let encoded = varint_bytes(sequence_id as nat);
    seq![header_byte(PacketHeader::StreamPacket(header))] + encoded + Seq::new(
        (length - 1 - encoded.len()) as nat,
        |i: int| 0u8,
    )
}

/// Transport packet carrying stream content: the header with the high six bits of the
/// sequence ID, its two low bytes, then the payload.
pub open spec fn content_frame(sequence_id: u32, payload: Seq<u8>) -> Seq<u8> {
    seq![(128 + sequence_id / 65536) as u8, ((sequence_id / 256) % 256) as u8, (sequence_id % 256) as u8] + payload
}

proof fn lemma_varint_len_bound(value: nat, n: nat)
    requires
        value < pow128(n),
        n >= 1,
    ensures
        varint_bytes(value).len() <= n,
    decreases n,
{
    if value >= 128 {
        assert(n >= 2) by {
            if n == 1 {
                assert(pow128(1) == 128 * pow128(0));
            }
        }
        assert(value / 128 < pow128((n - 1) as nat)) by {
            assert(pow128(n) == 128 * pow128((n - 1) as nat));
        }
        lemma_varint_len_bound(value / 128, (n - 1) as nat);
    }
}

proof fn lemma_pow128_five()
    ensures
        pow128(4) == 0x1000_0000,
        pow128(5) == 0x8_0000_0000,
{
    assert(pow128(0) == 1);
    assert(pow128(1) == 128);
    assert(pow128(2) == 0x4000);
    assert(pow128(3) == 0x20_0000);
    assert(pow128(4) == 0x1000_0000);
    assert(pow128(5) == 0x8_0000_0000);
}

proof fn lemma_pow128_positive(n: nat)
    ensures
        pow128(n) >= 1,
    decreases n,
{
    if n > 0 {
        lemma_pow128_positive((n - 1) as nat);
    }
}

spec fn pow128(n: nat) -> nat
    decreases n,
{
    if n == 0 { 1 } else { 128 * pow128((n - 1) as nat) }
}

/// Builds a stream control packet of `length` bytes.
fn control_packet(header: StreamPacketHeader, sequence_id: u32, length: usize) -> (r: Vec<u8>)
    requires
        length >= 6,
        !(header is Content),
    ensures
        r@ == control_frame(header, sequence_id, length as nat),
{
    let byte = PacketHeader::StreamPacket(header).into_u8();
    let mut data: Vec<u8> = vec![0u8; length];
    let ghost zeros = data@;
    let mut payload: Vec<u8> = vec![0u8; length - 1];
    postcard_write_u32(sequence_id, payload.as_mut_slice());
    proof {
        lemma_pow128_five();
        lemma_varint_len_bound(sequence_id as nat, 5);
    }
    data.set(0, byte);
    let mut i: usize = 0;
    while i < payload.len()
        invariant
            i <= payload@.len() == length - 1,
            data@.len() == length,
            data@[0] == byte,
            forall|j: int| 0 <= j < i ==> data@[j + 1] == payload@[j],
        decreases payload@.len() - i,
    {
        data.set(i + 1, payload[i]);
        i += 1;
    }
    proof {
        let expected = control_frame(header, sequence_id, length as nat);
        let encoded = varint_bytes(sequence_id as nat);
        assert forall|j: int| 0 <= j < length implies data@[j] == expected[j] by {
            if j > 0 {
                assert(data@[j] == payload@[j - 1]);
                if j - 1 >= encoded.len() {
                    assert(payload@[j - 1] == 0u8);
                }
            }
        }
        assert(data@ =~= expected);
    }
    data
}

/// What the reader does with a packet.
pub enum ReadAction {
    /// Data of the next section, to be handed out.
    Deliver(Vec<u8>),
    /// A packet to send to the writer.
    Send(Vec<u8>),
    /// Nothing to do.
    Ignore,
}

/// The action sends the packet.
pub open spec fn sends(action: ReadAction, packet: Seq<u8>) -> bool {
    action matches ReadAction::Send(p) && p@ == packet
}

/// The action delivers the data.
pub open spec fn delivers(action: ReadAction, data: Seq<u8>) -> bool {
    action matches ReadAction::Deliver(d) && d@ == data
}

/// Receiving end of a stream: which section comes next and whether the stream was closed.
pub struct StreamReadHandle<const TMTU: usize, const PMTU: usize, const SMTU: usize> {
    sequence_id: StreamSequenceID,
    reached_end: bool,
}

impl<const TMTU: usize, const PMTU: usize, const SMTU: usize> StreamReadHandle<TMTU, PMTU, SMTU> {
    /// Sequence ID of the next expected section.
    pub closed spec fn next_id(&self) -> u32 {
        self.sequence_id.value()
    }

    /// The writer's close was acknowledged.
    pub closed spec fn spec_reached_end(&self) -> bool {
        self.reached_end
    }

    pub fn new() -> (r: Self)
        requires
            TMTU == PMTU + 1,
            PMTU == SMTU + 2,
        ensures
            r.next_id() == 0,
            !r.spec_reached_end(),
    {
        Self { sequence_id: StreamSequenceID::from(0), reached_end: false }
    }

    /// The stream was closed by the writer.
    pub fn reached_end(&self) -> (r: bool)
        ensures
            r == self.spec_reached_end(),
    {
        self.reached_end
    }

    /// The next section can be accepted without running out of sequence IDs.
    pub fn can_accept(&self) -> (r: bool)
        ensures
            r == (self.next_id() + 1 < SEQUENCE_ID_LIMIT),
    {
        self.sequence_id.into_u32() < SEQUENCE_ID_LIMIT - 1
    }

    /// Handles a content packet: the expected section is delivered, a section from the
    /// future asks the writer to revert to the expected one, an old section is dropped.
    pub fn handle_content(&mut self, seq_id_byte: u8, bytes: &Vec<u8>) -> (r: ReadAction)
        requires
            seq_id_byte < 64,
            bytes@.len() == PMTU,
            PMTU == SMTU + 2,
            TMTU == PMTU + 1,
            TMTU >= 6,
            old(self).next_id() + 1 < SEQUENCE_ID_LIMIT,
        ensures
            ({
                let id = be24(seq![seq_id_byte, bytes@[0], bytes@[1]]);
                let expected = old(self).next_id();
                &&& final(self).spec_reached_end() == old(self).spec_reached_end()
                &&& id > expected ==> final(self).next_id() == expected && sends(
                    r,
                    control_frame(StreamPacketHeader::Revert, expected, TMTU as nat),
                )
                &&& id < expected ==> final(self).next_id() == expected && r is Ignore
                &&& id == expected ==> final(self).next_id() == expected + 1 && delivers(r, bytes@.skip(2))
            }),
    {
        let seq_id = StreamSequenceID::from_bytes([seq_id_byte, bytes[0], bytes[1]]);
        assert(seq![seq_id_byte, bytes@[0], bytes@[1]] =~= [seq_id_byte, bytes[0], bytes[1]]@);
        let id = seq_id.into_u32();
        let expected = self.sequence_id.into_u32();
        if id > expected {
            return ReadAction::Send(control_packet(StreamPacketHeader::Revert, expected, TMTU));
        } else if id < expected {
            return ReadAction::Ignore;
        }
        self.sequence_id.increment();
        let mut data: Vec<u8> = Vec::new();
        let mut i: usize = 2;
        while i < bytes.len()
            invariant
                2 <= i <= bytes@.len(),
                data@ == bytes@.subrange(2, i as int),
            decreases bytes@.len() - i,
        {
            data.push(bytes[i]);
            i += 1;
            assert(data@ =~= bytes@.subrange(2, i as int));
        }
        assert(data@ =~= bytes@.skip(2));
        ReadAction::Deliver(data)
    }

    /// Handles a close packet: closing at the expected section ends the stream and is
    /// acknowledged, closing at a later one asks the writer to revert, anything else is
    /// dropped.
    pub fn handle_close(&mut self, bytes: &Vec<u8>) -> (r: ReadAction)
        requires
            TMTU >= 6,
        ensures
            final(self).next_id() == old(self).next_id(),
            match varint_from(bytes@, 0) {
                Some(id) => {
                    let expected = old(self).next_id();
                    let id = id as u32;
                    &&& id == expected ==> final(self).spec_reached_end() && sends(
                        r,
                        control_frame(StreamPacketHeader::Closed, expected, TMTU as nat),
                    )
                    &&& id < expected ==> final(self).spec_reached_end() == old(self).spec_reached_end() && r is Ignore
                    &&& id > expected ==> final(self).spec_reached_end() == old(self).spec_reached_end() && sends(
                        r,
                        control_frame(StreamPacketHeader::Revert, expected, TMTU as nat),
                    )
                },
                None => final(self).spec_reached_end() == old(self).spec_reached_end() && r is Ignore,
            },
    {
        let expected = self.sequence_id.into_u32();
        match postcard_read_u32(bytes.as_slice()) {
            Some(id) => {
                if id == expected {
                    self.reached_end = true;
                    ReadAction::Send(control_packet(StreamPacketHeader::Closed, expected, TMTU))
                } else if id < expected {
                    ReadAction::Ignore
                } else {
                    ReadAction::Send(control_packet(StreamPacketHeader::Revert, expected, TMTU))
                }
            },
            None => ReadAction::Ignore,
        }
    }

    /// Handles a revert packet, which only a writer expects: it is dropped.
    pub fn handle_revert(&mut self) -> (r: ReadAction)
        ensures
            *final(self) == *old(self),
            r is Ignore,
    {
        ReadAction::Ignore
    }
}

/// Progress of a stream writer.
#[derive(PartialEq, Eq, Clone, Copy, Debug, Structural)]
pub enum StreamState {
    Transmitting,
    ReachedEnd,
    Closed,
}

/// Sending end of a stream: which section is sent next and how far the stream is.
pub struct StreamWriteHandle<const TMTU: usize, const PMTU: usize, const SMTU: usize> {
    sequence_id: StreamSequenceID,
    state: StreamState,
}

impl<const TMTU: usize, const PMTU: usize, const SMTU: usize> StreamWriteHandle<TMTU, PMTU, SMTU> {
    /// Sequence ID of the next section to send.
    pub closed spec fn next_id(&self) -> u32 {
        self.sequence_id.value()
    }

    /// Progress of the stream.
    pub closed spec fn spec_state(&self) -> StreamState {
        self.state
    }

    pub fn new() -> (r: Self)
        requires
            TMTU == PMTU + 1,
            PMTU == SMTU + 2,
        ensures
            r.next_id() == 0,
            r.spec_state() == StreamState::Transmitting,
    {
        Self { sequence_id: StreamSequenceID::from(0), state: StreamState::Transmitting }
    }

    /// Progress of the stream.
    pub fn state(&self) -> (r: StreamState)
        ensures
            r == self.spec_state(),
    {
        self.state
    }

    /// The stream was closed (acknowledged or timed out).
    pub fn is_closed(&self) -> (r: bool)
        ensures
            r == (self.spec_state() == StreamState::Closed),
    {
        self.state == StreamState::Closed
    }

    /// Everything was sent and the writer waits for the reader's acknowledgement.
    pub fn waits_for_acknowledgement(&self) -> (r: bool)
        ensures
            r == (self.spec_state() == StreamState::ReachedEnd),
    {
        self.state == StreamState::ReachedEnd
    }

    /// Offset in the streamed data of the next section.
    pub fn data_offset(&self) -> (r: u64)
        requires
            self.next_id() * SMTU <= u64::MAX,
        ensures
            r == self.next_id() * SMTU,
    {
        self.sequence_id.into_offset(SMTU)
    }

    /// The next section can be sent without running out of sequence IDs.
    pub fn can_send(&self) -> (r: bool)
        ensures
            r == (self.next_id() + 1 < SEQUENCE_ID_LIMIT),
    {
        self.sequence_id.into_u32() < SEQUENCE_ID_LIMIT - 1
    }

    /// Packet for the next section: its content, or the close packet when there is no more
    /// data, after which the writer waits for the acknowledgement.
    pub fn next_packet(&mut self, payload: Option<Vec<u8>>) -> (r: Vec<u8>)
        requires
            old(self).spec_state() == StreamState::Transmitting,
            TMTU == PMTU + 1,
            PMTU == SMTU + 2,
            TMTU >= 6,
            payload matches Some(data) ==> data@.len() == SMTU && old(self).next_id() + 1 < SEQUENCE_ID_LIMIT,
        ensures
            match payload {
                Some(data) => {
                    &&& r@ == content_frame(old(self).next_id(), data@)
                    &&& final(self).next_id() == old(self).next_id() + 1
                    &&& final(self).spec_state() == StreamState::Transmitting
                },
                None => {
                    &&& r@ == control_frame(StreamPacketHeader::Closed, old(self).next_id(), TMTU as nat)
                    &&& final(self).next_id() == old(self).next_id()
                    &&& final(self).spec_state() == StreamState::ReachedEnd
                },
            },
    {
        match payload {
            Some(data) => {
                let id = self.sequence_id.into_u32();
                let bytes = self.sequence_id.into_bytes();
                proof {
                    lemma_sequence_id_bytes(id);
                }
                let header = PacketHeader::StreamPacket(StreamPacketHeader::Content(bytes[0])).into_u8();
                let mut packet: Vec<u8> = vec![header, bytes[1], bytes[2]];
                let mut data = data;
                let ghost payload_view = data@;
                packet.append(&mut data);
                assert(packet@ =~= content_frame(id, payload_view));
                self.sequence_id.increment();
                packet
            },
            None => {
                let packet = control_packet(StreamPacketHeader::Closed, self.sequence_id.into_u32(), TMTU);
                self.state = StreamState::ReachedEnd;
                packet
            },
        }
    }

    /// Handles a packet from the reader: a revert moves back to the section it names, a close
    /// naming the next section closes a stream waiting for it, content is dropped.
    pub fn handle_message(&mut self, packet: &StreamPacket)
        requires
            old(self).spec_state() != StreamState::Closed,
        ensures
            match packet.header {
                StreamPacketHeader::Content(_) => *final(self) == *old(self),
                StreamPacketHeader::Revert => {
                    &&& final(self).spec_state() == old(self).spec_state()
                    &&& match varint_from(packet.bytes@, 0) {
                        Some(id) => final(self).next_id() == id as u32,
                        None => final(self).next_id() == old(self).next_id(),
                    }
                },
                StreamPacketHeader::Closed => {
                    &&& final(self).next_id() == old(self).next_id()
                    &&& final(self).spec_state() == if old(self).spec_state() == StreamState::ReachedEnd
                        && varint_from(packet.bytes@, 0) == Some(old(self).next_id() as nat) {
                        StreamState::Closed
                    } else {
                        old(self).spec_state()
                    }
                },
            },
    {
        match packet.header {
            StreamPacketHeader::Content(_) => {},
            StreamPacketHeader::Closed => {
                if self.state != StreamState::ReachedEnd {
                    return;
                }
                proof {
                    lemma_varint_from_bound(packet.bytes@, 0);
                    lemma_pow128_five();
                }
                match postcard_read_u32(packet.bytes.as_slice()) {
                    Some(id) => {
                        if id == self.sequence_id.into_u32() {
                            self.state = StreamState::Closed;
                        }
                    },
                    None => {},
                }
            },
            StreamPacketHeader::Revert => {
                match postcard_read_u32(packet.bytes.as_slice()) {
                    Some(id) => {
                        self.sequence_id = StreamSequenceID(id);
                    },
                    None => {},
                }
            },
        }
    }

    /// No acknowledgement arrived in time while waiting for one: the stream is closed.
    pub fn handle_timeout(&mut self)
        requires
            old(self).spec_state() == StreamState::ReachedEnd,
        ensures
            final(self).spec_state() == StreamState::Closed,
            final(self).next_id() == old(self).next_id(),
    {
        self.state = StreamState::Closed;
    }
}

/// A varint value read by postcard fits into 32 bits.
proof fn lemma_varint_from_bound(bytes: Seq<u8>, i: nat)
    requires
        i <= 4,
    ensures
        varint_from(bytes, i) matches Some(v) ==> v < 16 * pow128((4 - i) as nat),
    decreases 5 - i,
{
    if i < 4 {
        lemma_varint_from_bound(bytes, i + 1);
        let p = pow128((4 - (i + 1)) as nat);
        assert(pow128((4 - i) as nat) == 128 * p);
        lemma_pow128_positive((4 - (i + 1)) as nat);
        if let Some(v) = varint_from(bytes, i) {
            if i < bytes.len() && bytes[i as int] >= 128 {
                let rest = varint_from(bytes, i + 1)->0;
                assert(v == (bytes[i as int] - 128) + 128 * rest);
                assert(v < 16 * (128 * p)) by (nonlinear_arith)
                    requires
                        v == (bytes[i as int] - 128) + 128 * rest,
                        rest < 16 * p,
                        bytes[i as int] < 256,
                        p >= 1,
                ;
            } else {
                assert(v < 128);
                assert(16 * (128 * p) >= 128) by (nonlinear_arith)
                    requires
                        p >= 1,
                ;
            }
        }
    } else {
        assert(pow128(0) == 1);
    }
}

/// A varint written for a value that fits below the fifth byte's limit reads back as that value,
/// whatever follows it.
proof fn lemma_varint_at(value: nat, bytes: Seq<u8>, i: nat)
    requires
        i <= 4,
        value < 16 * pow128((4 - i) as nat),
        i + varint_bytes(value).len() <= bytes.len(),
        bytes.subrange(i as int, i + varint_bytes(value).len() as int) == varint_bytes(value),
    ensures
        varint_from(bytes, i) == Some(value),
    decreases value,
{
    let encoded = varint_bytes(value);
    assert(bytes[i as int] == encoded[0]);
    if value < 128 {
        if i == 4 {
            assert(pow128(0) == 1);
        }
    } else {
        if i == 4 {
            assert(pow128(0) == 1);
            assert(false);
        }
        let p = pow128((4 - (i + 1)) as nat);
        assert(pow128((4 - i) as nat) == 128 * p);
        assert(value / 128 < 16 * p) by (nonlinear_arith)
            requires
                value < 16 * (128 * p),
        ;
        let rest = varint_bytes(value / 128);
        assert(encoded == seq![(value % 128 + 128) as u8] + rest);
        assert(bytes.subrange(i as int + 1, i as int + 1 + rest.len() as int) =~= rest) by {
            assert forall|k: int| 0 <= k < rest.len() implies bytes.subrange(i as int + 1, i as int + 1 + rest.len() as int)[k] == rest[k] by {
                assert(bytes.subrange(i as int, i as int + encoded.len() as int)[k + 1] == encoded[k + 1]);
            }
        }
        lemma_varint_at(value / 128, bytes, i + 1);
    }
}

/// Reading the varint of a `u32` gives the value back, whatever follows it.
pub proof fn lemma_varint_roundtrip(value: u32, rest: Seq<u8>)
    ensures
        varint_from(varint_bytes(value as nat) + rest, 0) == Some(value as nat),
{
    lemma_pow128_five();
    let bytes = varint_bytes(value as nat) + rest;
    assert(bytes.subrange(0, varint_bytes(value as nat).len() as int) =~= varint_bytes(value as nat));
    lemma_varint_at(value as nat, bytes, 0);
}

/// A control packet names its sequence ID: the varint after its header reads as the ID.
pub proof fn lemma_control_frame_id(header: StreamPacketHeader, sequence_id: u32, length: nat)
    requires
        length >= 6,
    ensures
        control_frame(header, sequence_id, length).len() == length,
        varint_from(control_frame(header, sequence_id, length).skip(1), 0) == Some(sequence_id as nat),
{
    lemma_pow128_five();
    lemma_varint_len_bound(sequence_id as nat, 5);
    let encoded = varint_bytes(sequence_id as nat);
    let padding = Seq::new((length - 1 - encoded.len()) as nat, |i: int| 0u8);
    assert(control_frame(header, sequence_id, length).skip(1) =~= encoded + padding);
    lemma_varint_roundtrip(sequence_id, padding);
}

/// A content packet carries its section: its header byte is a content header with the high
/// bits of the sequence ID, the sequence ID reads back from that header and the two bytes
/// after it, and the payload follows.
pub proof fn lemma_content_frame(sequence_id: u32, payload: Seq<u8>)
    requires
        sequence_id < SEQUENCE_ID_LIMIT,
    ensures
        content_frame(sequence_id, payload)[0] == header_byte(
            PacketHeader::StreamPacket(StreamPacketHeader::Content((sequence_id / 65536) as u8)),
        ),
        be24(seq![(sequence_id / 65536) as u8, content_frame(sequence_id, payload)[1], content_frame(sequence_id, payload)[2]]) == sequence_id,
        content_frame(sequence_id, payload).skip(3) == payload,
{
    let frame = content_frame(sequence_id, payload);
    assert(frame.skip(3) =~= payload);
}
} // verus!
