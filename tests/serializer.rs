use uavcan::deserializer::Deserializer;
use uavcan::buffer::DeserializationBuffer;
use uavcan::serializer::{serialize, SerializationResult, Serializer};

#[test]
fn byte_aligned_structure_bytes() {
    let bytes = serialize(&vec![8, 32, 16, 8], &vec![17, 19, 21, 23]);
    assert_eq!(bytes, vec![17, 19, 0, 0, 0, 21, 0, 23]);
}

#[test]
fn misaligned_structure_bytes() {
    let bytes = serialize(&vec![32, 2, 3, 3, 16], &vec![1, 2, 3, 4, 5]);
    assert_eq!(bytes, vec![1, 0, 0, 0, 0b10001110, 5, 0]);
}

#[test]
fn empty_array_length_prefix() {
    let bytes = serialize(&vec![2], &vec![0]);
    assert_eq!(bytes, vec![0x00]);
}

#[test]
fn partial_last_byte_is_zero_padded() {
    let bytes = serialize(&vec![3, 7], &vec![0b101, 0b1111111]);
    assert_eq!(bytes, vec![0b1111_1101, 0b11]);
    assert_eq!(serialize(&vec![], &vec![]), Vec::<u8>::new());
}

#[test]
fn serialized_bytes_decode_to_the_values() {
    let layout = vec![1, 7, 64, 13, 2, 32];
    let values = vec![1, 100, 0xDEAD_BEEF_0123_4567, 0x1ABC, 3, 0xFFFF_FFFF];
    let bytes = serialize(&layout, &values);
    assert_eq!(bytes.len(), 15);
    let d = Deserializer::new(layout).deserialize(&bytes).unwrap();
    assert_eq!(d.into_structure().unwrap(), values);
}

#[test]
fn serializer_writes_into_buffer() {
    let mut s = Serializer::new(vec![32, 2, 3, 3, 16], vec![1, 2, 3, 4, 5]);
    let mut b = DeserializationBuffer::new();
    assert!(matches!(s.serialize(&mut b), SerializationResult::Finished(56)));
    let mut bytes = Vec::new();
    while b.bit_length() >= 8 {
        bytes.push(b.pop_bits(8) as u8);
    }
    assert_eq!(bytes, vec![1, 0, 0, 0, 0b10001110, 5, 0]);
}

#[test]
fn serializer_pauses_when_buffer_is_full() {
    let mut s = Serializer::new(vec![64, 64], vec![0x0123_4567_89AB_CDEF, 0xFEDC_BA98_7654_3210]);
    let mut b = DeserializationBuffer::new();
    assert!(matches!(s.serialize(&mut b), SerializationResult::BufferFull(120)));
    assert_eq!(b.pop_bits(64), 0x0123_4567_89AB_CDEF);
    assert!(matches!(s.serialize(&mut b), SerializationResult::Finished(8)));
    assert_eq!(b.bit_length(), 64);
    assert_eq!(b.pop_bits(64), 0xFEDC_BA98_7654_3210);
    assert!(matches!(s.serialize(&mut b), SerializationResult::Finished(0)));
}
