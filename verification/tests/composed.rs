use asn1_der::der::DerModel;
use asn1_der::types::parse_next;
use asn1_der::{Asn1DerError, DerObject, FromDerObject, IntoDerObject};

#[derive(Debug, Clone, Eq, PartialEq)]
struct Inner {
    integer: u128,
    boolean: bool,
    octet_string: Vec<u8>,
    utf8_string: String,
    null: (),
    sequence: Vec<Inner>,
    der_object: DerObject,
}

impl Inner {
    pub fn new(num: u128) -> Self {
        Inner {
            integer: num,
            boolean: num % 2 == 0,
            octet_string: b"Testolope (octet_string)".to_vec(),
            utf8_string: format!("Inner {}", num),
            null: (),
            sequence: vec![],
            der_object: DerObject::from_raw(0x14, b"Testolope (der_object)".to_vec()),
        }
    }
}

impl FromDerObject for Inner {
    // Contracts alone speak of the next two; compiled code never calls them
    fn refusal(_: DerModel) -> Option<Asn1DerError> {
        unreachable!()
    }

    fn decoded_from(&self, _: DerModel) -> bool {
        unreachable!()
    }

    fn from_der_object(der_object: DerObject) -> Result<Self, Asn1DerError> {
        let mut fields = Vec::<DerObject>::from_der_object(der_object)?;
        let decoded = Inner {
            integer: parse_next(&mut fields)?,
            boolean: parse_next(&mut fields)?,
            octet_string: parse_next(&mut fields)?,
            utf8_string: parse_next(&mut fields)?,
            null: parse_next(&mut fields)?,
            sequence: parse_next(&mut fields)?,
            der_object: parse_next(&mut fields)?,
        };
        if fields.is_empty() {
            Ok(decoded)
        } else {
            Err(Asn1DerError::LengthMismatch)
        }
    }
}

impl IntoDerObject for Inner {
    // Contracts alone speak of the next four; compiled code never calls them
    fn der_model(&self) -> DerModel {
        unreachable!()
    }

    fn has_object(&self) -> bool {
        unreachable!()
    }

    fn encodable(&self) -> bool {
        unreachable!()
    }

    fn lemma_encodable(&self) {
        unreachable!()
    }

    fn into_der_object(self) -> DerObject {
        let objects: Vec<DerObject> = vec![
            self.integer.into_der_object(),
            self.boolean.into_der_object(),
            self.octet_string.into_der_object(),
            self.utf8_string.into_der_object(),
            self.null.into_der_object(),
            self.sequence.into_der_object(),
            self.der_object.into_der_object(),
        ];
        objects.into_der_object()
    }

    fn serialized_len(&self) -> usize {
        self.checked_serialized_len().unwrap()
    }

    fn checked_serialized_len(&self) -> Option<usize> {
        let len = self
            .integer
            .checked_serialized_len()?
            .checked_add(self.boolean.checked_serialized_len()?)?
            .checked_add(self.octet_string.checked_serialized_len()?)?
            .checked_add(self.utf8_string.checked_serialized_len()?)?
            .checked_add(self.null.checked_serialized_len()?)?
            .checked_add(self.sequence.checked_serialized_len()?)?
            .checked_add(IntoDerObject::checked_serialized_len(&self.der_object)?)?;
        DerObject::checked_serialized_len(len)
    }
}

#[derive(Debug, Clone, Eq, PartialEq)]
struct Outer {
    utf8_string: String,
    inner: Inner,
}

impl FromDerObject for Outer {
    // Contracts alone speak of the next two; compiled code never calls them
    fn refusal(_: DerModel) -> Option<Asn1DerError> {
        unreachable!()
    }

    fn decoded_from(&self, _: DerModel) -> bool {
        unreachable!()
    }

    fn from_der_object(der_object: DerObject) -> Result<Self, Asn1DerError> {
        let mut fields = Vec::<DerObject>::from_der_object(der_object)?;
        let decoded =
            Outer { utf8_string: parse_next(&mut fields)?, inner: parse_next(&mut fields)? };
        if fields.is_empty() {
            Ok(decoded)
        } else {
            Err(Asn1DerError::LengthMismatch)
        }
    }
}

impl IntoDerObject for Outer {
    // Contracts alone speak of the next four; compiled code never calls them
    fn der_model(&self) -> DerModel {
        unreachable!()
    }

    fn has_object(&self) -> bool {
        unreachable!()
    }

    fn encodable(&self) -> bool {
        unreachable!()
    }

    fn lemma_encodable(&self) {
        unreachable!()
    }

    fn into_der_object(self) -> DerObject {
        let objects: Vec<DerObject> =
            vec![self.utf8_string.into_der_object(), self.inner.into_der_object()];
        objects.into_der_object()
    }

    fn serialized_len(&self) -> usize {
        self.checked_serialized_len().unwrap()
    }

    fn checked_serialized_len(&self) -> Option<usize> {
        let len = self
            .utf8_string
            .checked_serialized_len()?
            .checked_add(self.inner.checked_serialized_len()?)?;
        DerObject::checked_serialized_len(len)
    }
}

fn outer() -> Outer {
    let inner = {
        let mut inner_0 = Inner::new(0);
        inner_0.sequence.push(Inner::new(1));
        inner_0.sequence.push(Inner::new(2));
        inner_0
    };
    Outer { utf8_string: "Testolope".to_string(), inner }
}

#[test]
fn test() {
    // Create inner and outer
    let outer = outer();

    // Encode and compare
    let encoded = {
        let mut encoded = vec![0u8; outer.serialized_len()];
        outer.clone().serialize(&mut encoded).unwrap();
        encoded
    };
    let expected = b"\x30\x81\xe2\x0c\x09\x54\x65\x73\x74\x6f\x6c\x6f\x70\x65\x30\x81\xd4\x02\x01\x00\x01\x01\xff\x04\x18\x54\x65\x73\x74\x6f\x6c\x6f\x70\x65\x20\x28\x6f\x63\x74\x65\x74\x5f\x73\x74\x72\x69\x6e\x67\x29\x0c\x07\x49\x6e\x6e\x65\x72\x20\x30\x05\x00\x30\x81\x8e\x30\x45\x02\x01\x01\x01\x01\x00\x04\x18\x54\x65\x73\x74\x6f\x6c\x6f\x70\x65\x20\x28\x6f\x63\x74\x65\x74\x5f\x73\x74\x72\x69\x6e\x67\x29\x0c\x07\x49\x6e\x6e\x65\x72\x20\x31\x05\x00\x30\x00\x14\x16\x54\x65\x73\x74\x6f\x6c\x6f\x70\x65\x20\x28\x64\x65\x72\x5f\x6f\x62\x6a\x65\x63\x74\x29\x30\x45\x02\x01\x02\x01\x01\xff\x04\x18\x54\x65\x73\x74\x6f\x6c\x6f\x70\x65\x20\x28\x6f\x63\x74\x65\x74\x5f\x73\x74\x72\x69\x6e\x67\x29\x0c\x07\x49\x6e\x6e\x65\x72\x20\x32\x05\x00\x30\x00\x14\x16\x54\x65\x73\x74\x6f\x6c\x6f\x70\x65\x20\x28\x64\x65\x72\x5f\x6f\x62\x6a\x65\x63\x74\x29\x14\x16\x54\x65\x73\x74\x6f\x6c\x6f\x70\x65\x20\x28\x64\x65\x72\x5f\x6f\x62\x6a\x65\x63\x74\x29".as_ref();
    assert_eq!(encoded, expected);

    // Decode
    let decoded = Outer::deserialize(&encoded).unwrap();
    assert_eq!(decoded, outer);
}

#[test]
fn composed_field_missing_or_left_over() {
    // One object where two fields are asked for
    let short: Vec<DerObject> = vec!["Testolope".to_string().into_der_object()];
    assert_eq!(
        Outer::from_der_object(short.into_der_object()),
        Err(Asn1DerError::LengthMismatch)
    );
    // Three objects where two fields are asked for
    let long: Vec<DerObject> = vec![
        "Testolope".to_string().into_der_object(),
        Inner::new(3).into_der_object(),
        ().into_der_object(),
    ];
    assert_eq!(Outer::from_der_object(long.into_der_object()), Err(Asn1DerError::LengthMismatch));
}
