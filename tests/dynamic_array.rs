use uavcan::buffer::DeserializationBuffer;
use uavcan::primitive::{
    DeserializationResult, Deserialize, DynamicArray, DynamicArrayLength, PrimitiveField,
};

fn array3_u8() -> DynamicArray {
    DynamicArray {
        length: DynamicArrayLength { bit_length: 2, current_length: 0 },
        element_bit_length: 8,
        elements: vec![PrimitiveField { bit_length: 8, bits: 0 }; 3],
    }
}

#[test]
fn array_length_then_elements() {
    let mut a = array3_u8();
    let mut b = DeserializationBuffer::new();
    b.push(&[0xAA, 0x56, 0x01]);
    assert!(matches!(a.deserialize(0, &mut b), DeserializationResult::Finished(18)));
    assert_eq!(a.length.current_length, 2);
    assert_eq!(a.elements[0].bits, 0xAA);
    assert_eq!(a.elements[1].bits, 0x55);
    assert_eq!(a.elements[2].bits, 0);
    assert_eq!(b.bit_length(), 6);
}

#[test]
fn array_resumes_at_element() {
    let mut a = array3_u8();
    let mut b = DeserializationBuffer::new();
    b.push(&[0xAA]);
    assert!(matches!(
        a.deserialize(0, &mut b),
        DeserializationResult::BufferInsufficient(2)
    ));
    assert_eq!(a.length.current_length, 2);
    b.push(&[0x56, 0x01]);
    assert!(matches!(a.deserialize(2, &mut b), DeserializationResult::Finished(16)));
    assert_eq!(a.elements[0].bits, 0xAA);
    assert_eq!(a.elements[1].bits, 0x55);
}

#[test]
fn array_waits_for_length_field() {
    let mut a = DynamicArray {
        length: DynamicArrayLength { bit_length: 7, current_length: 0 },
        element_bit_length: 8,
        elements: vec![PrimitiveField { bit_length: 8, bits: 0 }; 90],
    };
    let mut b = DeserializationBuffer::new();
    assert!(matches!(
        a.deserialize(0, &mut b),
        DeserializationResult::BufferInsufficient(0)
    ));
}

#[test]
fn empty_array_takes_its_length_field() {
    let mut a = array3_u8();
    let mut b = DeserializationBuffer::new();
    b.push(&[0x00]);
    assert!(matches!(a.deserialize(0, &mut b), DeserializationResult::Finished(2)));
    assert_eq!(a.length.current_length, 0);
    assert_eq!(b.bit_length(), 6);
}

#[test]
fn array_longer_than_capacity() {
    let mut a = DynamicArray {
        length: DynamicArrayLength { bit_length: 2, current_length: 0 },
        element_bit_length: 8,
        elements: vec![PrimitiveField { bit_length: 8, bits: 0 }; 2],
    };
    let mut b = DeserializationBuffer::new();
    b.push(&[0x03]);
    assert!(matches!(a.deserialize(0, &mut b), DeserializationResult::LengthOverflow));
}

#[test]
fn length_field_resumes_mid_field() {
    let mut l = DynamicArrayLength { bit_length: 5, current_length: 0b1 };
    let mut b = DeserializationBuffer::new();
    b.push(&[0b1111_0110]);
    assert!(matches!(l.deserialize(1, &mut b), DeserializationResult::Finished(4)));
    assert_eq!(l.current_length, 0b01101);
}

#[test]
fn tail_array_takes_length_from_remaining_bits() {
    let mut a = array3_u8();
    let mut b = DeserializationBuffer::new();
    b.push(&[0x11, 0x22]);
    assert!(matches!(a.deserialize_tail(&mut b), DeserializationResult::Finished(16)));
    assert_eq!(a.length.current_length, 2);
    assert_eq!(a.elements[0].bits, 0x11);
    assert_eq!(a.elements[1].bits, 0x22);
    assert_eq!(b.bit_length(), 0);
}

#[test]
fn empty_tail_array_has_no_bits() {
    let mut a = array3_u8();
    let mut b = DeserializationBuffer::new();
    assert!(matches!(a.deserialize_tail(&mut b), DeserializationResult::Finished(0)));
    assert_eq!(a.length.current_length, 0);
}

#[test]
fn tail_array_leaves_partial_element() {
    let mut a = DynamicArray {
        length: DynamicArrayLength { bit_length: 3, current_length: 0 },
        element_bit_length: 3,
        elements: vec![PrimitiveField { bit_length: 3, bits: 0 }; 7],
    };
    let mut b = DeserializationBuffer::new();
    b.push(&[0b1101_0101]);
    assert!(matches!(a.deserialize_tail(&mut b), DeserializationResult::Finished(6)));
    assert_eq!(a.length.current_length, 2);
    assert_eq!(a.elements[0].bits, 0b101);
    assert_eq!(a.elements[1].bits, 0b010);
    assert_eq!(b.bit_length(), 2);
}

#[test]
fn tail_array_over_capacity() {
    let mut a = array3_u8();
    let mut b = DeserializationBuffer::new();
    b.push(&[1, 2, 3, 4]);
    assert!(matches!(a.deserialize_tail(&mut b), DeserializationResult::LengthOverflow));
    assert_eq!(b.bit_length(), 32);
}

#[test]
fn array_minimum_is_its_length_field() {
    assert_eq!(array3_u8().bit_length_min(), 2);
}
