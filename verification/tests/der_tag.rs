use asn1_der::{Asn1DerError, DerTag};

#[test]
fn der_tag_test_ok() {
    // Every byte is a tag, and the tag gives the byte back
    let mut count = 0;
    for value in u8::MIN..=u8::MAX {
        let tag = DerTag::from(value);
        assert_eq!(tag, DerTag { byte: value });
        assert_eq!(value, u8::from(tag));
        count += 1;
    }
    assert_eq!(count, 256);

    // Test coding
    let mut buf_slice = [0u8];
    for value in u8::MIN..=u8::MAX {
        let tag = DerTag::from(value);
        buf_slice[0] = value;

        // Test deserialization
        let deserialized = DerTag::deserialize(&buf_slice).unwrap();
        assert_eq!(deserialized, tag);

        // Test length prediction
        assert_eq!(tag.serialized_len(), 1);

        // Test serialization
        buf_slice[0] = !value;
        deserialized.serialize(&mut buf_slice).unwrap();
        assert_eq!(value, buf_slice[0]);
    }
}

#[test]
fn der_tag_test_err() {
    let empty_slice: [u8; 0] = [];
    assert_eq!(DerTag::deserialize(&empty_slice).unwrap_err(), Asn1DerError::LengthMismatch)
}

#[test]
fn der_tag_serialize_into_nothing() {
    let mut empty_slice: [u8; 0] = [];
    assert_eq!(
        DerTag::from(5).serialize(&mut empty_slice).unwrap_err(),
        Asn1DerError::LengthMismatch
    );
    assert_eq!(DerTag::compute_serialized_len(), 1);
}
