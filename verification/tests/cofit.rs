use stembed::cofit::header::{PacketHeader, PacketHeaderParseError, StreamPacketHeader, ID};
use stembed::cofit::stream::{ReadAction, StreamPacket, StreamReadHandle, StreamSequenceID, StreamState, StreamWriteHandle};
use stembed::cofit::{classify, frame, Incoming, Network, NetworkError, SerializedMessage};

#[test]
fn parse_packet_headers() {
    assert_eq!(PacketHeader::try_from(5).ok(), Some(PacketHeader::Message(ID::from(5))));
    assert_eq!(PacketHeader::try_from(0b01_000011).ok(), Some(PacketHeader::MessageAck(ID::from(3))));
    assert_eq!(
        PacketHeader::try_from(0b10_000111).ok(),
        Some(PacketHeader::StreamPacket(StreamPacketHeader::Content(7)))
    );
    assert_eq!(PacketHeader::try_from(0b11000000).ok(), Some(PacketHeader::StreamPacket(StreamPacketHeader::Revert)));
    assert_eq!(PacketHeader::try_from(0b11000001).ok(), Some(PacketHeader::StreamPacket(StreamPacketHeader::Closed)));
    assert_eq!(PacketHeader::try_from(0b11000010).err(), Some(PacketHeaderParseError::UnknownPacketType));
}

#[test]
fn header_bytes_round_trip() {
    for byte in 0u8..=193 {
        let header = PacketHeader::try_from(byte).ok().unwrap();
        assert_eq!(header.into_u8(), byte);
    }
    for byte in 194u8..=255 {
        assert!(PacketHeader::try_from(byte).is_err());
    }
}

#[test]
fn sequence_id_bytes_round_trip() {
    let id = StreamSequenceID::from(0x12_3456);
    assert_eq!(id.into_bytes(), [0x12, 0x34, 0x56]);
    assert_eq!(StreamSequenceID::from_bytes([0x12, 0x34, 0x56]).into_u32(), 0x12_3456);
    assert_eq!(id.into_offset(61), 0x12_3456 * 61);
    let mut next = StreamSequenceID::from(41);
    next.increment();
    assert_eq!(next.into_u32(), 42);
}

#[test]
fn route_incoming_packets() {
    let message = frame(PacketHeader::Message(ID::from(42)), &vec![1, 2, 3]);
    assert_eq!(message, vec![42, 1, 2, 3]);
    match classify(&message) {
        Incoming::Message(m) => {
            assert_eq!(m.id, ID::from(42));
            assert_eq!(m.bytes, vec![1, 2, 3]);
        }
        _ => panic!(),
    }
    match classify(&vec![0b10_000001, 9, 8]) {
        Incoming::Stream(p) => {
            assert_eq!(p.header, StreamPacketHeader::Content(1));
            assert_eq!(p.bytes, vec![9, 8]);
        }
        _ => panic!(),
    }
    assert!(matches!(classify(&vec![255]), Incoming::Invalid(PacketHeaderParseError::UnknownPacketType)));
}

#[test]
fn check_acknowledgements() {
    let network = Network::<6, 5, 3, (), ()>::new((), ());
    let sent = SerializedMessage { id: ID::from(42), bytes: vec![1, 2, 3, 4, 5] };
    assert_eq!(network.message_packet(&sent), vec![42, 1, 2, 3, 4, 5]);
    assert_eq!(network.acknowledgement_packet(&sent), vec![0b01_101010, 1, 2, 3, 4, 5]);
    assert!(network.check_acknowledgement::<()>(&sent, Some(sent.clone())).is_ok());
    let other = SerializedMessage { id: ID::from(42), bytes: vec![1, 2, 3, 4, 6] };
    assert!(matches!(network.check_acknowledgement::<()>(&sent, Some(other)), Err(NetworkError::UnexpectedAck)));
    assert!(matches!(network.check_acknowledgement::<()>(&sent, None), Err(NetworkError::TimedOut)));
}

#[test]
fn stream_reader_delivers_in_order() {
    let mut reader = StreamReadHandle::<8, 7, 5>::new();
    // Section 0 is expected and delivered.
    match reader.handle_content(0, &vec![0, 0, 1, 2, 3, 4, 5]) {
        ReadAction::Deliver(data) => assert_eq!(data, vec![1, 2, 3, 4, 5]),
        _ => panic!(),
    }
    // Section 0 again is dropped.
    assert!(matches!(reader.handle_content(0, &vec![0, 0, 1, 1, 1, 1, 1]), ReadAction::Ignore));
    // Section 2 is from the future: ask to revert to section 1.
    match reader.handle_content(0, &vec![0, 2, 1, 1, 1, 1, 1]) {
        ReadAction::Send(packet) => assert_eq!(packet, vec![0b11000000, 1, 0, 0, 0, 0, 0, 0]),
        _ => panic!(),
    }
    // Closing at section 1 ends the stream and is acknowledged.
    match reader.handle_close(&vec![1, 0, 0, 0, 0, 0, 0]) {
        ReadAction::Send(packet) => assert_eq!(packet, vec![0b11000001, 1, 0, 0, 0, 0, 0, 0]),
        _ => panic!(),
    }
    assert!(reader.reached_end());
}

#[test]
fn stream_writer_sends_and_closes() {
    let mut writer = StreamWriteHandle::<8, 7, 5>::new();
    assert_eq!(writer.data_offset(), 0);
    let packet = writer.next_packet(Some(vec![1, 2, 3, 4, 5]));
    assert_eq!(packet, vec![0b10_000000, 0, 0, 1, 2, 3, 4, 5]);
    assert_eq!(writer.data_offset(), 5);
    // A revert to section 0 moves back.
    writer.handle_message(&StreamPacket { header: StreamPacketHeader::Revert, bytes: vec![0, 0, 0, 0, 0, 0, 0] });
    assert_eq!(writer.data_offset(), 0);
    writer.next_packet(Some(vec![1, 2, 3, 4, 5]));
    let close = writer.next_packet(None);
    assert_eq!(close, vec![0b11000001, 1, 0, 0, 0, 0, 0, 0]);
    assert!(writer.waits_for_acknowledgement());
    // A close acknowledgement for another section is ignored, the right one closes.
    writer.handle_message(&StreamPacket { header: StreamPacketHeader::Closed, bytes: vec![0, 0, 0, 0, 0, 0, 0] });
    assert_eq!(writer.state(), StreamState::ReachedEnd);
    writer.handle_message(&StreamPacket { header: StreamPacketHeader::Closed, bytes: vec![1, 0, 0, 0, 0, 0, 0] });
    assert!(writer.is_closed());
}

#[test]
fn stream_writer_times_out() {
    let mut writer = StreamWriteHandle::<8, 7, 5>::new();
    writer.next_packet(None);
    writer.handle_timeout();
    assert!(writer.is_closed());
}

#[test]
fn varint_sequence_ids_use_several_bytes() {
    let mut reader = StreamReadHandle::<8, 7, 5>::new();
    // A close naming section 300 (varint 0xAC 0x02) asks to revert to section 0.
    match reader.handle_close(&vec![0xAC, 0x02, 0, 0, 0, 0, 0]) {
        ReadAction::Send(packet) => assert_eq!(packet, vec![0b11000000, 0, 0, 0, 0, 0, 0, 0]),
        _ => panic!(),
    }
    assert!(!reader.reached_end());
    // An unreadable close packet is ignored.
    assert!(matches!(reader.handle_close(&vec![0xFF, 0xFF, 0xFF, 0xFF, 0xFF, 0xFF, 0]), ReadAction::Ignore));
}

#[test]
fn stream_roundtrip_between_writer_and_reader() {
    let mut writer = StreamWriteHandle::<8, 7, 5>::new();
    let mut reader = StreamReadHandle::<8, 7, 5>::new();
    let mut delivered = Vec::new();
    for chunk in [vec![1, 2, 3, 4, 5], vec![6, 7, 8, 9, 10]] {
        let packet = writer.next_packet(Some(chunk));
        match reader.handle_content(packet[0] & 0b0011_1111, &packet[1..].to_vec()) {
            ReadAction::Deliver(data) => delivered.extend(data),
            _ => panic!(),
        }
    }
    assert_eq!(delivered, vec![1, 2, 3, 4, 5, 6, 7, 8, 9, 10]);
    let close = writer.next_packet(None);
    let ack = match reader.handle_close(&close[1..].to_vec()) {
        ReadAction::Send(packet) => packet,
        _ => panic!(),
    };
    writer.handle_message(&StreamPacket { header: StreamPacketHeader::Closed, bytes: ack[1..].to_vec() });
    assert!(writer.is_closed());
    assert!(reader.reached_end());
}
