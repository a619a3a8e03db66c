use uavcan::frame_id::{AnonymousHeader, Frame, FrameIdError, MessageHeader, ServiceHeader};

#[test]
fn test_uavcan_frame() {
    let log_message: (u8, Vec<u8>, Vec<u8>) = (3, b"node".to_vec(), b"hello".to_vec());
    let frame = Frame::from_message(log_message, 16383, 0xd654a48e0c049d75, 16, 42);
    assert_eq!(frame.data_type_signature, 0xd654a48e0c049d75);
}

#[test]
fn message_frame_id() {
    let h = MessageHeader { priority: 16, type_id: 341, source_node: 42 };
    assert_eq!(h.id(), 0x1001552A);
    let frame = Frame::from_message((), 341, 0, 16, 42);
    assert_eq!(frame.id, 0x1001552A);
    assert_eq!(MessageHeader::from_id(0x1001552A, 341), Ok(h));
    assert_eq!(MessageHeader::from_id(0x1001552A, 340), Err(FrameIdError::WrongTypeId));
}

#[test]
fn service_request_frame_id() {
    let h = ServiceHeader { priority: 0, type_id: 1, source_node: 1, destination_node: 2 };
    assert_eq!(h.id(), 0x018201);
    let frame = Frame::from_request((), 1, 0, 0, 1, 2);
    assert_eq!(frame.id, 0x018201);
    let response = Frame::from_response((), 1, 0, 0, 1, 2);
    assert_eq!(response.id, 0x018201);
    assert_eq!(ServiceHeader::from_id(0x018201, 1), Ok(h));
    assert_eq!(ServiceHeader::from_id(0x018201, 2), Err(FrameIdError::WrongTypeId));
    assert_eq!(ServiceHeader::from_id(0x010201, 1), Err(FrameIdError::WrongTypeId));
}

#[test]
fn anonymous_frame_id() {
    let h = AnonymousHeader { priority: 0, type_id: 1, discriminator: 0x2AAA };
    assert_eq!(h.id(), 0x00AAA900);
    let frame = Frame::from_anonymous_message((), 1, 0, 0, 0x2AAA);
    assert_eq!(frame.id, 0x00AAA900);
    assert_eq!(AnonymousHeader::from_id(0x00AAA900, 1), Ok(h));
    assert_eq!(AnonymousHeader::from_id(0x00AAA900, 2), Err(FrameIdError::WrongTypeId));
}

#[test]
fn frame_id_round_trip_at_limits() {
    let h = MessageHeader { priority: 31, type_id: 0xFFFF, source_node: 127 };
    assert_eq!(h.id(), 0x1FFF_FF7F);
    assert_eq!(MessageHeader::from_id(h.id(), 0xFFFF), Ok(h));
    let s = ServiceHeader { priority: 31, type_id: 0xFF, source_node: 127, destination_node: 127 };
    assert_eq!(ServiceHeader::from_id(s.id(), 0xFF), Ok(s));
    let a = AnonymousHeader { priority: 31, type_id: 3, discriminator: 0x3FFF };
    assert_eq!(AnonymousHeader::from_id(a.id(), 3), Ok(a));
}

#[test]
fn frame_parts() {
    let frame = Frame::from_parts(7, 9, 11u8);
    assert_eq!(frame.into_parts(), (7, 11));
}

#[test]
fn priority_accessors_keep_five_bits() {
    let mut h = MessageHeader { priority: 3, type_id: 341, source_node: 42 };
    h.set_priority(16);
    assert_eq!(h.get_priority(), 16);
    assert_eq!(h, MessageHeader { priority: 16, type_id: 341, source_node: 42 });
    let mut a = AnonymousHeader { priority: 0xE1, type_id: 1, discriminator: 5 };
    assert_eq!(a.get_priority(), 1);
    a.set_priority(2);
    assert_eq!(a.priority, 0xE2);
    let mut s = ServiceHeader { priority: 31, type_id: 1, source_node: 1, destination_node: 2 };
    s.set_priority(0);
    assert_eq!(s.get_priority(), 0);
}
