use asn1_der::{Asn1DerError, FromDerObject, IntoDerObject};

#[test]
fn types_boolean_test_ok() {
    let vectors: Vec<(&[u8], bool)> =
        vec![(b"\x01\x01\x00".as_ref(), false), (b"\x01\x01\xff".as_ref(), true)];
    for (bytes, boolean) in vectors {
        // Test deserialization
        let deserialized = bool::deserialize(bytes).unwrap();
        assert_eq!(boolean, deserialized);

        // Test length prediction
        assert_eq!(deserialized.serialized_len(), bytes.len());

        // Test serialization
        let mut target = [0u8; 3];
        deserialized.serialize(&mut target).unwrap();
        assert_eq!(bytes, &target);
    }
}

#[test]
fn types_boolean_test_err() {
    let vectors: Vec<(&[u8], Asn1DerError)> = vec![
        // Invalid tag
        (b"\x02\x01\x00".as_ref(), Asn1DerError::InvalidTag),
        // Invalid value
        (b"\x01\x01\x01".as_ref(), Asn1DerError::InvalidEncoding),
        // One byte too much
        (b"\x01\x02\x00\x00".as_ref(), Asn1DerError::InvalidEncoding),
        // Length mismatch
        (b"\x01\x02\x00".as_ref(), Asn1DerError::LengthMismatch),
    ];
    for (bytes, error) in vectors {
        assert_eq!(bool::deserialize(bytes).unwrap_err(), error);
    }
}

#[test]
fn boolean_objects() {
    let object = true.into_der_object();
    assert_eq!(object.tag.byte, 0x01);
    assert_eq!(object.value.data, vec![0xff]);
    let object = false.into_der_object();
    assert_eq!(object.value.data, vec![0x00]);
    assert_eq!(bool::from_der_object(true.into_der_object()), Ok(true));
    assert_eq!(bool::from_der_object(false.into_der_object()), Ok(false));
}

#[test]
fn boolean_serialize_short_buffer() {
    let mut target = [7u8; 2];
    assert_eq!(true.serialize(&mut target), Err(Asn1DerError::LengthMismatch));
    assert_eq!(target, [7u8; 2]);
}
