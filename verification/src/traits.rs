//! Conversions between native values and whole encodings.

use vstd::prelude::*;
use crate::der::{encoding, parsed_encoded, DerObject};
use crate::error::Asn1DerError;
use crate::types::{FromDerObject, IntoDerObject};

verus! {

/// A trait to parse DER-encoded data into a typed representation
///
/// The record at the start of the data is read with the count of a long
/// length form being the low seven bits of its first byte, and is then
/// converted. The error is that of the record, or else that of the
/// conversion. Bytes behind the record are left alone.
pub trait FromDerEncoded: FromDerObject {
    /// Decodes some DER-encoded data and converts them into `Self`; the
    /// buffer of `data` is kept for the payload.
    fn from_der_encoded(data: Vec<u8>) -> (r: Result<Self, Asn1DerError>)
        ensures
            match r {
                Ok(value) => parsed_encoded(data@) is Ok && Self::refusal(
                    parsed_encoded(data@)->Ok_0.0,
                ) is None && value.decoded_from(parsed_encoded(data@)->Ok_0.0),
                Err(e) => match parsed_encoded(data@) {
                    Err(f) => e == f,
                    Ok((object, _)) => Self::refusal(object) == Some(e),
                },
            },
    {
        match DerObject::from_encoded(data) {
            Ok(object) => Self::from_der_object(object),
            Err(e) => Err(e),
        }
    }

    /// Decodes some DER-encoded data and converts them into `Self`; the
    /// payload is copied.
    fn with_der_encoded(data: &[u8]) -> (r: Result<Self, Asn1DerError>)
        ensures
            match r {
                Ok(value) => parsed_encoded(data@) is Ok && Self::refusal(
                    parsed_encoded(data@)->Ok_0.0,
                ) is None && value.decoded_from(parsed_encoded(data@)->Ok_0.0),
                Err(e) => match parsed_encoded(data@) {
                    Err(f) => e == f,
                    Ok((object, _)) => Self::refusal(object) == Some(e),
                },
            },
    {
        match DerObject::with_encoded(data) {
            Ok(object) => Self::from_der_object(object),
            Err(e) => Err(e),
        }
    }
}

impl<T: FromDerObject> FromDerEncoded for T {

}

/// A trait to convert native types into their DER-encoded representation
pub trait IntoDerEncoded: IntoDerObject {
    /// Converts `self` into its encoding
    fn into_der_encoded(self) -> (encoded: Vec<u8>)
        requires
            self.encodable(),
        ensures
            encoded@ == encoding(self.der_model()),
    {
        proof {
            self.lemma_encodable();
        }
        let object = self.into_der_object();
        DerObject::into_encoded(object)
    }
}

impl<T: IntoDerObject> IntoDerEncoded for T {

}

} // verus!
