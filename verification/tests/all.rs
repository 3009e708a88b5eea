use asn1_der::{Asn1DerError, DerObject, DerTag, FromDer, IntoDerObject};

fn hex_to_vec(hex: &str) -> Vec<u8> {
    // Prepare and validate hex-string
    let clean_hex_string = hex.replace(" ", "").to_lowercase();
    if clean_hex_string.len() % 2 != 0 {
        panic!("Hex-string must contain an even number of chars")
    }

    // Decode hex-string
    let hex_chars = b"0123456789abcdef";
    let mut decoded = Vec::<u8>::with_capacity(hex.len() / 2);

    let mut iter = clean_hex_string.bytes();
    while let (Some(n0), Some(n1)) = (iter.next(), iter.next()) {
        decoded.push(
            (hex_chars.binary_search(&n0).expect("Invalid hex-char") << 4
                | hex_chars.binary_search(&n1).expect("Invalid hex-char")) as u8,
        )
    }
    decoded
}

const SHORT: &str = "330e8db91b33215c0e533fd28e34cc8b09a808877dc7d82741930431bd09d0d6f31a687d4060126f0ce0360acf95de812fa42f62f67197e049603b65748fd257e3c1611db454a496a6b3f43b27aa5aebc92358921b275479e67cb17983005b085b852f0c2f8d34472ca470dfb0a39b61336dd391848197686754b2ee57fd84";
const LONG: &str = "e74bfaed07201437effc07f1bd1ac37cb999fe4db8267b6a6f03dd08af0fb84ca279d2e596decdad1f4d41cf4a3a0343a68dca20ec073c8d0016a073145f2ff96e137d9a4ae681d0d98f267c1dd17d47db49c30d03c33dc906f31a229cab5c2f3d1c4b732d319e8f4ae0afaa99eeea73484e01947e57d71f2d82ba0ab2430fd3";
const LONG_ELEMENT: &str = "72330e8db91b33215c0e533fd28e34cc8b09a808877dc7d82741930431bd09d0d6f31a687d4060126f0ce0360acf95de812fa42f62f67197e049603b65748fd257e3c1611db454a496a6b3f43b27aa5aebc92358921b275479e67cb17983005b085b852f0c2f8d34472ca470dfb0a39b61336dd391848197686754b2ee57fd84";

#[test]
fn generics_ok() {
    let generics: Vec<(String, (u8, String))> = vec![
        // Some valid generic-objects
        ("05 00".to_string(), (0x05, "".to_string())), // Null-object
        ("04 02 37e4".to_string(), (0x04, "37e4".to_string())),
        (format!("04 7F {}", SHORT), (0x04, SHORT.to_string())),
        (format!("04 8180 {}", LONG), (0x04, LONG.to_string())),
    ];
    for (encoded, (tag, payload)) in generics {
        // Test decoding
        let decoded = DerObject::from_encoded(hex_to_vec(&encoded))
            .expect("Failed to decode valid DER-object");
        assert_eq!(decoded.tag, DerTag::from(tag));
        assert_eq!(decoded.value.data, hex_to_vec(&payload));
        // Test encoding
        let reencoded = decoded.into_encoded();
        assert_eq!(reencoded, hex_to_vec(&encoded));
    }
}

#[test]
fn generics_err() {
    let generics: Vec<(&str, Asn1DerError)> = vec![
        ("04 82ff", Asn1DerError::LengthMismatch), // Length is too short
        ("04 8101 7e", Asn1DerError::InvalidEncoding), // Complex length-encoding for < 128
        ("04", Asn1DerError::LengthMismatch),      // There is no length
        ("", Asn1DerError::LengthMismatch),        // No data present
        ("04 02 ff", Asn1DerError::LengthMismatch), // Payload is too short
    ];
    for (encoded, error) in generics {
        let decoding_err = DerObject::from_encoded(hex_to_vec(encoded))
            .expect_err("Decoded invalid DER-object without error");
        assert_eq!(decoding_err, error);
        assert_eq!(DerObject::with_encoded(&hex_to_vec(encoded)), Err(error));
    }
}

#[test]
fn octet_strings_ok() {
    let octet_strings: Vec<(String, String)> = vec![
        ("04 02 37e4".to_string(), "37e4".to_string()),
        (format!("04 7F {}", SHORT), SHORT.to_string()),
        (format!("04 8180 {}", LONG), LONG.to_string()),
    ];
    for (encoded, data) in octet_strings {
        // From generic-object
        let decoded = DerObject::from_encoded(hex_to_vec(&encoded))
            .expect("Failed to decode valid DER-object");
        let octet_string =
            Vec::<u8>::from_der(decoded.clone()).expect("Failed to parse valid octet-string");
        assert_eq!(octet_string, hex_to_vec(&data));
        // To generic-object
        assert_eq!(DerObject::from(octet_string), decoded);
    }
}

#[test]
fn octet_strings_err() {
    let octet_strings: Vec<(&str, Asn1DerError)> = vec![("05 02 37e4", Asn1DerError::InvalidTag)];
    for (encoded, error) in octet_strings {
        let decoded = DerObject::from_encoded(hex_to_vec(encoded))
            .expect("Failed to decode valid DER-object");
        let decoding_err = Vec::<u8>::from_der(decoded).expect_err("Parsed invalid octet-string");
        assert_eq!(decoding_err, error);
    }
}

#[test]
fn utf8_strings_ok() {
    let utf8_strings: Vec<(&str, &str)> = vec![(
        "0c 19 536f6d65205554462d3820456d6f6a6920f09f9696f09f8fbd",
        "Some UTF-8 Emoji \u{1f596}\u{1f3fd}",
    )];
    for (encoded, string) in utf8_strings {
        // From generic-object
        let decoded = DerObject::from_encoded(hex_to_vec(encoded))
            .expect("Failed to decode valid DER-object");
        let utf8_string =
            String::from_der(decoded.clone()).expect("Failed to parse valid UTF-8-string");
        assert_eq!(utf8_string, string);
        // To generic-object
        assert_eq!(DerObject::from(utf8_string), decoded);
    }
}

#[test]
fn utf8_strings_err() {
    let utf8_strings: Vec<(&str, Asn1DerError)> = vec![
        ("0d 19 536f6d65205554462d3820456d6f6a6920f09f9696f09f8fbd", Asn1DerError::InvalidTag),
        ("0c 04 f0288c28", Asn1DerError::InvalidEncoding),
    ];
    for (encoded, error) in utf8_strings {
        let decoded = DerObject::from_encoded(hex_to_vec(encoded))
            .expect("Failed to decode valid DER-object");
        let decoding_err = String::from_der(decoded).expect_err("Parsed invalid UTF-8-string");
        assert_eq!(decoding_err, error);
    }
}

#[test]
fn integers_ok() {
    let integers: Vec<(&str, u64)> = vec![
        ("02 01 07", 7u64),
        ("02 08 7ff7d317cef1a726", 9221070861274031910u64),
        ("02 09 0080a54c7fe50d84a0", 9269899520199460000u64),
        ("02 09 00ffffffffffffffff", 18446744073709551615u64),
    ];
    for (encoded, value) in integers {
        // From generic-object
        let decoded = DerObject::from_encoded(hex_to_vec(encoded))
            .expect("Failed to decode valid DER-object");
        let integer = u64::from_der(decoded.clone()).expect("Failed to parse valid integer");
        assert_eq!(integer, value);
        // To generic-object
        assert_eq!(DerObject::from(integer), decoded);
    }
}

#[test]
fn integers_err() {
    let integers: Vec<(&str, Asn1DerError)> = vec![
        ("03 01 07", Asn1DerError::InvalidTag),
        ("02 00", Asn1DerError::InvalidEncoding),
        ("02 01 87", Asn1DerError::Unsupported),
        ("02 09 01e3a54c7fe50d84a0", Asn1DerError::Unsupported),
    ];
    for (encoded, error) in integers {
        let decoded = DerObject::from_encoded(hex_to_vec(encoded))
            .expect("Failed to decode valid DER-object");
        let decoding_err = u64::from_der(decoded).expect_err("Parsed invalid integer");
        assert_eq!(decoding_err, error);
    }
}

#[test]
fn sequences_ok() {
    let sequences: Vec<(String, Vec<String>)> = vec![
        ("30 00".to_string(), vec![]),
        ("30 04  04 02 37e4".to_string(), vec!["04 02 37e4".to_string()]),
        (
            format!("30 81 87  04 02 37e4  04 8180 {}", LONG_ELEMENT),
            vec!["04 02 37e4".to_string(), format!("04 8180 {}", LONG_ELEMENT)],
        ),
    ];
    for (encoded, sequence_elements) in sequences {
        // From generic-object
        let decoded = DerObject::from_encoded(hex_to_vec(&encoded))
            .expect("Failed to decode valid DER-object");
        let sequence =
            Vec::<DerObject>::from_der(decoded.clone()).expect("Failed to parse valid sequence");
        // Parse reference-elements
        let reference_elements = sequence_elements
            .iter()
            .map(|x| {
                DerObject::from_encoded(hex_to_vec(x)).expect("Failed to parse reference-element")
            })
            .collect::<Vec<DerObject>>();
        assert_eq!(sequence, reference_elements);
        // To generic-object
        assert_eq!(sequence.into_der_object(), decoded);
    }
}

#[test]
fn sequences_err() {
    let sequences: Vec<(&str, Asn1DerError)> = vec![
        ("31 00", Asn1DerError::InvalidTag),
        ("30 04  05 03 37e4", Asn1DerError::LengthMismatch),
    ];
    for (encoded, error) in sequences {
        let decoded = DerObject::from_encoded(hex_to_vec(encoded))
            .expect("Failed to decode valid DER-object");
        let decoding_err =
            Vec::<DerObject>::from_der(decoded).expect_err("Parsed invalid sequence");
        assert_eq!(decoding_err, error);
    }
}

#[test]
fn objects_from_values() {
    let object = DerObject::from(255u64);
    assert_eq!(object.tag, DerTag::from(0x02));
    assert_eq!(object.value.data, vec![0x00, 0xff]);
    assert_eq!(DerObject::from(0u64).value.data, vec![0x00]);
    assert_eq!(DerObject::from(b"AB".to_vec()), DerObject::from_raw(0x04, b"AB".to_vec()));
    assert_eq!(
        DerObject::from("T\u{e9}".to_string()),
        DerObject::from_raw(0x0c, vec![0x54, 0xc3, 0xa9])
    );
}
