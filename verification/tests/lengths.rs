use asn1_der::big_endian;
use asn1_der::der::{
    decode_length, encode_length, length_field_size, try_decode_length, try_deserialize_length,
};
use asn1_der::der_length;
use asn1_der::{Asn1DerError, U128Ext};

#[test]
fn big_endian_decode() {
    assert_eq!(big_endian::decode(b""), 0);
    assert_eq!(big_endian::decode(b"\x01"), 1);
    assert_eq!(big_endian::decode(b"\x01\x02"), 0x0102);
    assert_eq!(big_endian::decode(b"\x00\x00\xff"), 0xff);
    assert_eq!(big_endian::decode(b"\x01\x02\x03\x04\x05\x06\x07\x08"), 0x0102_0304_0506_0708);
    // Only the first eight bytes count
    assert_eq!(
        big_endian::decode(b"\xff\xfe\xfd\xfc\xfb\xfa\xf9\xf8\x01\x02"),
        0xfffe_fdfc_fbfa_f9f8
    );
}

#[test]
fn big_endian_encode() {
    let mut buffer = [0xaau8; 2];
    big_endian::encode(&mut buffer, 0x0102);
    assert_eq!(buffer, [1, 2]);

    // Only the low-order bytes fit
    let mut buffer = [0xaau8; 2];
    big_endian::encode(&mut buffer, 0x0a0b_0c0d);
    assert_eq!(buffer, [0x0c, 0x0d]);

    // Only the first eight bytes are written
    let mut buffer = [0xaau8; 10];
    big_endian::encode(&mut buffer, 0x0102);
    assert_eq!(buffer, [0, 0, 0, 0, 0, 0, 1, 2, 0xaa, 0xaa]);

    let mut buffer: [u8; 0] = [];
    big_endian::encode(&mut buffer, 7);

    assert_eq!(big_endian::byte_len(0), 0);
    assert_eq!(big_endian::byte_len(255), 1);
    assert_eq!(big_endian::byte_len(256), 2);
    assert_eq!(big_endian::byte_len(u64::MAX), 8);
    assert!(!big_endian::top_bit(0));
    assert!(!big_endian::top_bit(0x7f));
    assert!(big_endian::top_bit(0x80));
    assert!(!big_endian::top_bit(0x100));
    assert!(big_endian::top_bit(0x8000));
    assert!(big_endian::top_bit(u64::MAX));
}

#[test]
fn length_decode_both_ways() {
    let vectors: Vec<(&[u8], Result<(usize, usize), Asn1DerError>)> = vec![
        (b"\x00".as_ref(), Ok((0, 1))),
        (b"\x7f\xff".as_ref(), Ok((127, 1))),
        (b"\x81\x80".as_ref(), Ok((128, 2))),
        (b"\x82\x01\x00\xff".as_ref(), Ok((256, 3))),
        (b"\x83\x01\x00\x00".as_ref(), Ok((65_536, 4))),
        // A long form with a zero byte in front is not the shortest form
        (b"\x82\x00\x80".as_ref(), Err(Asn1DerError::InvalidEncoding)),
        (b"\x83\x00\x01\x00".as_ref(), Err(Asn1DerError::InvalidEncoding)),
        (b"\x82\x00".as_ref(), Err(Asn1DerError::LengthMismatch)),
        (b"".as_ref(), Err(Asn1DerError::LengthMismatch)),
        (b"\x80".as_ref(), Err(Asn1DerError::InvalidEncoding)),
        (b"\x81\x7f".as_ref(), Err(Asn1DerError::InvalidEncoding)),
        (b"\x82\x00\x7f".as_ref(), Err(Asn1DerError::InvalidEncoding)),
        (b"\x81".as_ref(), Err(Asn1DerError::LengthMismatch)),
        (b"\x84\x01\x00\x00".as_ref(), Err(Asn1DerError::LengthMismatch)),
        (b"\x89\x01\x00\x00\x00\x00\x00\x00\x00\x00".as_ref(), Err(Asn1DerError::Unsupported)),
        // The count is the low seven bits of the first byte
        (b"\x91\x80".as_ref(), Err(Asn1DerError::Unsupported)),
    ];
    for (bytes, expected) in vectors {
        assert_eq!(der_length::decode(bytes), expected);
        assert_eq!(decode_length(bytes), expected);
    }
}

#[test]
fn length_sizes() {
    let vectors: Vec<(usize, usize)> = vec![
        (0, 1),
        (1, 1),
        (127, 1),
        (128, 2),
        (255, 2),
        (256, 3),
        (65_535, 3),
        (65_536, 4),
        (16_777_215, 4),
        (16_777_216, 5),
        (4_294_967_295, 5),
        (usize::MAX, 1 + (usize::BITS / 8) as usize),
    ];
    for (length, size) in vectors {
        assert_eq!(der_length::get_encoded_length(length), size);
        assert_eq!(length_field_size(length), size);
    }
}

#[test]
fn length_encode_both_ways() {
    let vectors: Vec<(usize, &[u8])> = vec![
        (0, b"\x00".as_ref()),
        (71, b"\x47".as_ref()),
        (127, b"\x7f".as_ref()),
        (128, b"\x81\x80".as_ref()),
        (247, b"\x81\xf7".as_ref()),
        (63_479, b"\x82\xf7\xf7".as_ref()),
        (65_536, b"\x83\x01\x00\x00".as_ref()),
        (4_152_312_833, b"\x84\xf7\x7f\x44\x01".as_ref()),
    ];
    for (length, bytes) in vectors {
        // Into a buffer that is longer than the field
        let mut buffer = [0xaau8; 12];
        der_length::encode(length, &mut buffer);
        assert_eq!(&buffer[..bytes.len()], bytes);
        assert_eq!(&buffer[bytes.len()..], &[0xaau8; 12][bytes.len()..]);

        // Into a buffer of the size of the field
        let mut buffer = vec![0xaau8; bytes.len()];
        der_length::encode(length, &mut buffer);
        assert_eq!(buffer.as_slice(), bytes);
        let mut buffer = vec![0xaau8; bytes.len()];
        encode_length(&mut buffer, length);
        assert_eq!(buffer.as_slice(), bytes);

        assert_eq!(der_length::decode(bytes), Ok((length, bytes.len())));
    }
    // The bytes behind the field stay as they are
    let mut buffer = [0xaau8; 10];
    encode_length(&mut buffer, 256);
    assert_eq!(buffer, [0x82, 0x01, 0x00, 0xaa, 0xaa, 0xaa, 0xaa, 0xaa, 0xaa, 0xaa]);
    assert_eq!(decode_length(&buffer), Ok((256, 3)));
    let mut buffer = [0xaau8; 3];
    encode_length(&mut buffer, 5);
    assert_eq!(buffer, [5, 0xaa, 0xaa]);
    // A buffer that is shorter than the field takes the low-order bytes
    let mut buffer = [0xaau8; 2];
    encode_length(&mut buffer, 0x0102);
    assert_eq!(buffer, [0x82, 0x02]);
}

#[test]
fn length_of_a_beginning() {
    // Nothing to go by yet
    assert_eq!(try_decode_length(b""), Ok(None));
    assert_eq!(try_decode_length(b"\x04"), Ok(None));
    assert_eq!(try_decode_length(b"\x04\x82"), Ok(None));
    assert_eq!(try_decode_length(b"\x04\x82\x01"), Ok(None));
    // The header is enough
    assert_eq!(try_decode_length(b"\x04\x82\x01\x00"), Ok(Some((260, 256))));
    assert_eq!(try_decode_length(b"\x04\x02"), Ok(Some((4, 2))));
    assert_eq!(try_decode_length(b"\x04\x02\x37\xe4\x05"), Ok(Some((4, 2))));
    // A header that no further byte can mend
    assert_eq!(try_decode_length(b"\x04\x81\x7f"), Err(Asn1DerError::InvalidEncoding));
    assert_eq!(try_decode_length(b"\x04\x82\x00\x80"), Err(Asn1DerError::InvalidEncoding));
    assert_eq!(try_decode_length(b"\x04\x89\x01"), Err(Asn1DerError::Unsupported));
    // The whole record would be longer than any buffer
    if usize::BITS == 64 {
        assert_eq!(
            try_decode_length(b"\x04\x88\xff\xff\xff\xff\xff\xff\xff\xff"),
            Err(Asn1DerError::Unsupported)
        );
        assert_eq!(
            try_decode_length(b"\x04\x88\xff\xff\xff\xff\xff\xff\xff\xf5"),
            Ok(Some((usize::MAX, usize::MAX - 10)))
        );
    }
}

#[test]
fn length_of_a_beginning_as_objects_are_read() {
    assert_eq!(try_deserialize_length(b""), Ok(None));
    assert_eq!(try_deserialize_length(b"\x04"), Ok(None));
    assert_eq!(try_deserialize_length(b"\x04\x82\x01"), Ok(None));
    assert_eq!(try_deserialize_length(b"\x04\x82\x01\x00"), Ok(Some((260, 256))));
    assert_eq!(try_deserialize_length(b"\x04\x02\x37\xe4\x05"), Ok(Some((4, 2))));
    assert_eq!(try_deserialize_length(b"\x04\x81\x7f"), Err(Asn1DerError::InvalidEncoding));
    assert_eq!(try_deserialize_length(b"\x04\x82\x00\x80"), Err(Asn1DerError::InvalidEncoding));
    assert_eq!(try_deserialize_length(b"\x04\x89\x01"), Err(Asn1DerError::Unsupported));
    // The count is the low four bits of the first length byte
    assert_eq!(try_deserialize_length(b"\x04\x91\x80"), Ok(Some((131, 128))));
    assert_eq!(try_decode_length(b"\x04\x91\x80"), Err(Asn1DerError::Unsupported));
}

#[test]
fn narrowing() {
    assert_eq!(255u128.u8(), Ok(255));
    assert_eq!(256u128.u8(), Err(Asn1DerError::Unsupported));
    assert_eq!(65_535u128.u16(), Ok(65_535));
    assert_eq!(65_536u128.u16(), Err(Asn1DerError::Unsupported));
    assert_eq!(4_294_967_295u128.u32(), Ok(4_294_967_295));
    assert_eq!(4_294_967_296u128.u32(), Err(Asn1DerError::Unsupported));
    assert_eq!((u64::MAX as u128).u64(), Ok(u64::MAX));
    assert_eq!((u64::MAX as u128 + 1).u64(), Err(Asn1DerError::Unsupported));
    assert_eq!((usize::MAX as u128).usize(), Ok(usize::MAX));
    assert_eq!((usize::MAX as u128 + 1).usize(), Err(Asn1DerError::Unsupported));
    assert_eq!(0u128.usize(), Ok(0));
}
