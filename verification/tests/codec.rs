use vecfile::{de_from, ser_to, Element, Error};

#[test]
fn integers_are_stored_least_significant_byte_first() {
    assert_eq!(ser_to(&0xabu8), vec![0xab]);
    assert_eq!(ser_to(&0x1234u16), vec![0x34, 0x12]);
    assert_eq!(ser_to(&0x1234_5678u32), vec![0x78, 0x56, 0x34, 0x12]);
    assert_eq!(
        ser_to(&0x0102_0304_0506_0708u64),
        vec![0x08, 0x07, 0x06, 0x05, 0x04, 0x03, 0x02, 0x01]
    );
}

#[test]
fn bytes_are_read_least_significant_byte_first() {
    assert_eq!(de_from::<u8>(&[0xab]), Ok(0xab));
    assert_eq!(de_from::<u16>(&[0x34, 0x12]), Ok(0x1234));
    assert_eq!(de_from::<u32>(&[0x78, 0x56, 0x34, 0x12]), Ok(0x1234_5678));
    assert_eq!(
        de_from::<u64>(&[0x08, 0x07, 0x06, 0x05, 0x04, 0x03, 0x02, 0x01]),
        Ok(0x0102_0304_0506_0708)
    );
}

#[test]
fn decoding_undoes_encoding() {
    for value in [0u16, 1, 255, 256, 0x8000, u16::MAX] {
        assert_eq!(de_from::<u16>(&ser_to(&value)), Ok(value));
    }
    for value in [0u64, 1, 0xff00ff50, u64::MAX - 1, u64::MAX] {
        assert_eq!(de_from::<u64>(&ser_to(&value)), Ok(value));
    }
    for value in [0u32, 7, 0x8000_0000, u32::MAX] {
        assert_eq!(de_from::<u32>(&ser_to(&value)), Ok(value));
    }
    for value in [0u8, 7, 0x80, u8::MAX] {
        assert_eq!(de_from::<u8>(&ser_to(&value)), Ok(value));
    }
}

#[test]
fn a_buffer_of_the_wrong_size_is_not_decoded() {
    assert_eq!(de_from::<u16>(&[1, 2, 3]), Err(Error::InequalSizeForDe(3, 2)));
    assert_eq!(de_from::<u64>(&[]), Err(Error::InequalSizeForDe(0, 8)));
    assert_eq!(de_from::<u8>(&[1, 2]), Err(Error::InequalSizeForDe(2, 1)));
    assert_eq!(de_from::<u32>(&[1, 2]), Err(Error::InequalSizeForDe(2, 4)));
}

#[test]
fn widths_are_those_of_the_types() {
    assert_eq!(<u8 as Element>::size(), 1);
    assert_eq!(<u16 as Element>::size(), 2);
    assert_eq!(<u32 as Element>::size(), 4);
    assert_eq!(<u64 as Element>::size(), 8);
}

#[test]
fn same_tells_values_apart() {
    assert!(5u16.same(&5));
    assert!(!5u16.same(&6));
    assert!(u64::MAX.same(&u64::MAX));
    assert!(!0u8.same(&1));
    assert!(!0x1_0000u32.same(&0));
}
