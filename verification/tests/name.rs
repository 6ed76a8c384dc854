use lsdj::name::{FromBytesError, Name};

#[test]
fn name_from_bytes() {
    const HELLO: &str = "HELLO";

    let name = Name::<8>::from_str(HELLO).expect("bytes rejected");
    assert_eq!(name.len(), 5);
    assert!(!name.is_empty());
    assert_eq!(name.as_str(), HELLO);
    assert_eq!(name.capacity(), 8);
    assert_eq!(name.bytes(), b"HELLO\0\0\0");

    assert_eq!(
        Name::<8>::from_str("123456789"),
        Err(FromBytesError::TooLong)
    );

    assert_eq!(
        Name::<8>::from_str("A!"),
        Err(FromBytesError::InvalidByte {
            byte: 33, // '!'
            index: 1
        })
    );

    assert_eq!(
        Name::<8>::from_bytes(b"A!"),
        Err(FromBytesError::InvalidByte { byte: 33, index: 1 })
    );
    assert_eq!(
        Name::<8>::from_bytes(b"123456789"),
        Err(FromBytesError::TooLong)
    );
}

#[test]
fn name_default() {
    let name = Name::<8>::default();
    assert_eq!(name.len(), 0);
    assert!(name.is_empty());
    assert_eq!(name.as_str(), "");
}

#[test]
fn name_stops_at_the_first_zero() {
    let name = Name::<8>::from_bytes(b"AB\0!!").unwrap();
    assert_eq!(name.len(), 2);
    assert_eq!(name.bytes(), b"AB\0\0\0\0\0\0");
    assert_eq!(name.as_str(), "AB");
}

#[test]
fn name_of_full_length_has_no_zero() {
    let name = Name::<8>::from_bytes(b"ABCDEFGH").unwrap();
    assert_eq!(name.len(), 8);
    assert_eq!(name.as_str(), "ABCDEFGH");
}

#[test]
fn allowed_bytes() {
    for byte in 0..=255u8 {
        let expected = byte.is_ascii_uppercase() || byte.is_ascii_digit() || byte == b' ' || byte == b'x';
        assert_eq!(Name::<8>::is_byte_allowed(byte), expected);
    }
    assert_eq!(Name::<8>::from_bytes(b"A Z09x").unwrap().as_str(), "A Z09x");
    assert_eq!(
        Name::<8>::from_bytes(b"Aa"),
        Err(FromBytesError::InvalidByte { byte: b'a', index: 1 })
    );
}
