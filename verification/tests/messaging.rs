use stembed::cofit::header::ID;
use stembed::cofit::{SerializedMessage, WireFormat};
use stembed::messaging::{erase_bounds, read_chunk_location, DataRange, FlashWrite, MessageFormatError, TestFormat};

#[test]
fn frame_pads_encoding() {
    let message = TestFormat.serialize::<8>(&vec![1, 2, 3]).ok().unwrap();
    assert_eq!(message.id.into_u8(), 42);
    assert_eq!(message.bytes, vec![1, 2, 3, 0, 0, 0, 0, 0]);
    assert_eq!(TestFormat.deserialize(&message).ok().unwrap(), vec![1, 2, 3, 0, 0, 0, 0, 0]);
}

#[test]
fn frame_rejects_oversized_encoding() {
    assert_eq!(TestFormat.serialize::<2>(&vec![1, 2, 3]).err(), Some(MessageFormatError::BufferFull));
    assert!(TestFormat.serialize::<3>(&vec![1, 2, 3]).is_ok());
}

#[test]
fn unframe_rejects_other_identifiers() {
    let message = SerializedMessage { id: ID::from(7), bytes: vec![0; 4] };
    assert_eq!(TestFormat.deserialize(&message).err(), Some(MessageFormatError::UnknownMessage));
}

#[test]
fn write_chunks_until_end_of_range() {
    let mut write = FlashWrite::new(&DataRange { offset: 100, length: 10 });
    assert_eq!(write.next_chunk(4), Some(100));
    assert_eq!(write.next_chunk(4), Some(104));
    assert_eq!(write.next_chunk(4), Some(108));
    assert_eq!(write.next_chunk(4), None);
    assert_eq!(write.next_chunk(4), None);
}

#[test]
fn read_chunks_until_end_address() {
    let range = DataRange { offset: 8, length: 4 };
    assert_eq!(read_chunk_location(&range, 0), Some(8));
    assert_eq!(read_chunk_location(&range, 11), Some(19));
    assert_eq!(read_chunk_location(&range, 12), None);
}

#[test]
fn erase_whole_range() {
    assert_eq!(erase_bounds(&DataRange { offset: 4096, length: 8192 }), (4096, 12288));
    assert_eq!(erase_bounds(&DataRange { offset: 1 << 32, length: 1 }), (0, 1));
}

#[test]
fn wire_format_frames_like_the_test_format() {
    let message = <TestFormat as WireFormat<4>>::serialize(&TestFormat, vec![9]).ok().unwrap();
    assert_eq!(message.id.into_u8(), 42);
    assert_eq!(message.bytes, vec![9, 0, 0, 0]);
    assert_eq!(<TestFormat as WireFormat<4>>::deserialize(&TestFormat, message).ok().unwrap(), vec![9, 0, 0, 0]);
    assert_eq!(<TestFormat as WireFormat<0>>::serialize(&TestFormat, vec![9]).err(), Some(MessageFormatError::BufferFull));
}
