use asn1_der::{Asn1DerError, FromDerObject, IntoDerObject};

#[test]
fn types_null_test_ok() {
    let vectors: Vec<&[u8]> = vec![b"\x05\x00".as_ref()];
    for bytes in vectors {
        // Test deserialization
        let deserialized: () = <()>::deserialize(bytes).unwrap();

        // Test length prediction
        assert_eq!(deserialized.serialized_len(), bytes.len());

        // Test serialization
        let mut target = [0u8; 2];
        deserialized.serialize(&mut target).unwrap();
        assert_eq!(bytes, &target);
    }
}

#[test]
fn types_null_test_err() {
    let vectors: Vec<(&[u8], Asn1DerError)> = vec![
        // Invalid tag
        (b"\x06\x00".as_ref(), Asn1DerError::InvalidTag),
        // Invalid encoding
        (b"\x05\x01\x00".as_ref(), Asn1DerError::InvalidEncoding),
        // Length mismatch
        (b"\x05\x02\x00".as_ref(), Asn1DerError::LengthMismatch),
    ];
    for (bytes, error) in vectors {
        assert_eq!(<()>::deserialize(bytes).unwrap_err(), error);
    }
}
