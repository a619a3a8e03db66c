use uavcan::buffer::DeserializationBuffer;
use uavcan::deserializer::{bit_length_min, Deserializer, DeserializerError};
use uavcan::primitive::{DeserializationResult, Deserialize, PrimitiveField};

fn decode(layout: Vec<u8>, chunks: &[&[u8]]) -> Result<Vec<u64>, DeserializerError> {
    let mut d = Deserializer::new(layout);
    for chunk in chunks {
        d = d.deserialize(chunk)?;
    }
    d.into_structure()
}

#[test]
fn uavcan_parse_test_byte_aligned() {
    let parsed = decode(vec![8, 32, 16, 8], &[&[17, 19, 0, 0, 0, 21, 0, 23]]).unwrap();
    assert_eq!(parsed[0], 17);
    assert_eq!(parsed[1], 19);
    assert_eq!(parsed[2], 21);
    assert_eq!(parsed[3], 23);
}

#[test]
fn uavcan_parse_test_misaligned() {
    let parsed = decode(vec![32, 2, 3, 3, 16], &[&[1, 0, 0, 0, 0b10001110, 5, 0]]).unwrap();
    assert_eq!(parsed[0], 1);
    assert_eq!(parsed[1], 2);
    assert_eq!(parsed[2], 3);
    assert_eq!(parsed[3], 4);
    assert_eq!(parsed[4], 5);
}

#[test]
fn split_stream_decodes_as_whole() {
    let whole = decode(vec![32, 2, 3, 3, 16], &[&[1, 0, 0, 0, 0b10001110, 5, 0]]).unwrap();
    for cut in 0..=7 {
        let bytes = [1u8, 0, 0, 0, 0b10001110, 5, 0];
        let split = decode(vec![32, 2, 3, 3, 16], &[&bytes[..cut], &bytes[cut..]]).unwrap();
        assert_eq!(split, whole);
    }
}

#[test]
fn empty_input_changes_nothing() {
    let d = Deserializer::new(vec![8, 8]);
    let d = d.deserialize(&[5]).unwrap();
    let d = d.deserialize(&[]).unwrap();
    let d = d.deserialize(&[6]).unwrap();
    assert_eq!(d.into_structure().unwrap(), vec![5, 6]);
}

#[test]
fn excess_byte_is_structure_exhausted() {
    let d = Deserializer::new(vec![8]);
    let r = d.deserialize(&[1, 2]);
    assert!(matches!(r, Err(DeserializerError::StructureExhausted)));
}

#[test]
fn padding_bits_are_not_exhaustion() {
    let parsed = decode(vec![4], &[&[0xF1]]).unwrap();
    assert_eq!(parsed, vec![1]);
}

#[test]
fn missing_bits_are_not_finished() {
    let d = Deserializer::new(vec![16]).deserialize(&[1]).unwrap();
    assert!(matches!(d.into_structure(), Err(DeserializerError::NotFinished)));
}

#[test]
fn wide_field_across_pieces() {
    let parsed = decode(
        vec![64, 8],
        &[&[0x01, 0x23, 0x45], &[0x67, 0x89, 0xAB, 0xCD, 0xEF], &[0x7F]],
    )
    .unwrap();
    assert_eq!(parsed, vec![0xEFCD_AB89_6745_2301, 0x7F]);
}

#[test]
fn empty_structure_takes_no_byte() {
    assert_eq!(decode(vec![], &[&[]]).unwrap(), Vec::<u64>::new());
    assert!(matches!(
        Deserializer::new(vec![]).deserialize(&[0]),
        Err(DeserializerError::StructureExhausted)
    ));
}

#[test]
fn buffer_pops_low_bits_first() {
    let mut b = DeserializationBuffer::new();
    b.push(&[0xAB, 0xCD]);
    assert_eq!(b.bit_length(), 16);
    assert_eq!(b.pop_bits(4), 0xB);
    assert_eq!(b.bit_length(), 12);
    assert_eq!(b.pop_bits(12), 0xCDA);
    assert_eq!(b.bit_length(), 0);
}

#[test]
fn buffer_holds_fifteen_bytes() {
    let mut b = DeserializationBuffer::new();
    b.push(&[0xFF; 7]);
    b.push(&[0x00; 7]);
    b.push_byte(0x81);
    assert_eq!(b.bit_length(), 120);
    assert_eq!(b.pop_bits(56), 0x00FF_FFFF_FFFF_FFFF);
    assert_eq!(b.pop_bits(56), 0);
    assert_eq!(b.pop_bits(8), 0x81);
}

#[test]
fn primitive_field_resumes_mid_field() {
    let mut b = DeserializationBuffer::new();
    b.push(&[0b1011_0110]);
    let mut f = PrimitiveField { bit_length: 12, bits: 0b101 };
    assert!(matches!(
        f.deserialize(3, &mut b),
        DeserializationResult::BufferInsufficient(0)
    ));
    assert_eq!(f.bits, 0b101);
    assert_eq!(b.bit_length(), 8);
    b.push(&[0x01]);
    assert!(matches!(f.deserialize(3, &mut b), DeserializationResult::Finished(9)));
    assert_eq!(f.bits, 0b1_1011_0110_101);
    assert_eq!(b.bit_length(), 7);
}

#[test]
fn signed_fields_are_sign_extended() {
    assert_eq!(PrimitiveField { bit_length: 3, bits: 0b111 }.as_signed(), -1);
    assert_eq!(PrimitiveField { bit_length: 3, bits: 0b100 }.as_signed(), -4);
    assert_eq!(PrimitiveField { bit_length: 3, bits: 0b011 }.as_signed(), 3);
    assert_eq!(PrimitiveField { bit_length: 8, bits: 0 }.as_signed(), 0);
    assert_eq!(
        PrimitiveField { bit_length: 64, bits: 0x8000_0000_0000_0000 }.as_signed(),
        i64::MIN
    );
    assert_eq!(
        PrimitiveField { bit_length: 64, bits: 0x7FFF_FFFF_FFFF_FFFF }.as_signed(),
        i64::MAX
    );
}

#[test]
fn signed_fields_of_a_structure() {
    let d = Deserializer::new(vec![3, 5, 8]).deserialize(&[0b0010_0111, 0x7F]).unwrap();
    let v = d.into_signed_structure(&vec![true, false, true]).unwrap();
    assert_eq!(v, vec![-1, 4, 127]);
}

#[test]
fn signed_structure_needs_every_field() {
    let d = Deserializer::new(vec![8, 8]).deserialize(&[1]).unwrap();
    assert!(matches!(
        d.into_signed_structure(&vec![true, true]),
        Err(DeserializerError::NotFinished)
    ));
}

#[test]
fn tail_array_length_from_transfer() {
    // a u8 field, then a tail array of up to three u8 elements
    let d = Deserializer::new(vec![8, 8, 8, 8]).deserialize(&[9, 0x11, 0x22]).unwrap();
    let (v, n) = d.into_structure_with_tail(1).unwrap();
    assert_eq!(n, 2);
    assert_eq!(v[0], 9);
    assert_eq!(v[1], 0x11);
    assert_eq!(v[2], 0x22);
    assert_eq!(v[3], 0);
}

#[test]
fn empty_tail_array() {
    let d = Deserializer::new(vec![8, 8, 8]).deserialize(&[9]).unwrap();
    let (v, n) = d.into_structure_with_tail(1).unwrap();
    assert_eq!(n, 0);
    assert_eq!(v[0], 9);
}

#[test]
fn tail_array_of_small_elements_counts_padding() {
    // a 4-bit field, then up to two 2-bit elements: 4 bits remain, 2 elements
    let d = Deserializer::new(vec![4, 2, 2]).deserialize(&[0b1001_0101]).unwrap();
    let (v, n) = d.into_structure_with_tail(1).unwrap();
    assert_eq!(n, 2);
    assert_eq!(v, vec![0b0101, 0b01, 0b10]);
}

#[test]
fn tail_array_over_capacity_in_transfer() {
    // a 4-bit field, then one 2-bit element at most: 4 bits hold two
    let d = Deserializer::new(vec![4, 2]).deserialize(&[0b1001_0101]).unwrap();
    assert!(matches!(
        d.into_structure_with_tail(1),
        Err(DeserializerError::LengthOverflow)
    ));
}

#[test]
fn tail_array_before_fixed_fields_complete() {
    let d = Deserializer::new(vec![16, 8, 8]).deserialize(&[1]).unwrap();
    assert!(matches!(
        d.into_structure_with_tail(1),
        Err(DeserializerError::NotFinished)
    ));
}

#[test]
fn minimum_bit_length_of_layouts() {
    // u2, four i62, and a dynamic array of capacity 3 (length field 2 bits)
    assert_eq!(bit_length_min(&vec![2, 62, 62, 62, 62, 2]), 2 + 62 * 4 + 2);
    assert_eq!(bit_length_min(&vec![]), 0);
}
