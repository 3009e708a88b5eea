//! The ASN.1 type UTF8String as `String`.

use vstd::prelude::*;
use vstd::slice::slice_to_vec;
use vstd::utf8::{decode_utf8, encode_utf8, valid_utf8};
use vstd::utf8::{decode_utf8_encode_utf8, encode_utf8_decode_utf8, encode_utf8_valid_utf8};
use crate::der::lemma_encoding_len;
use crate::der::tag::UTF8_STRING;
use crate::der::{encoding_len, DerModel, DerObject};
use crate::error::Asn1DerError;
use crate::types::{FromDerObject, IntoDerObject};

verus! {

/// The object that stands for a string: the UTF8String tag and the UTF-8
/// encoding of its characters.
pub open spec fn utf8_string_model(chars: Seq<char>) -> DerModel {
    DerModel { tag: UTF8_STRING, payload: encode_utf8(chars) }
}

/// The error with which an object is refused as a string, if it is:
/// `InvalidTag` for another tag, `InvalidEncoding` for a payload that is no
/// UTF-8.
pub open spec fn utf8_string_refusal(object: DerModel) -> Option<Asn1DerError> {
    if object.tag != UTF8_STRING {
        Some(Asn1DerError::InvalidTag)
    } else if !valid_utf8(object.payload) {
        Some(Asn1DerError::InvalidEncoding)
    } else {
        None
    }
}

/// Calls `String::from_utf8`, which checks that the bytes are valid UTF-8 and
/// then makes a string of them. The contract claims that a string comes back
/// exactly for valid UTF-8, and that its characters are those that the bytes
/// encode.
#[verifier::external_body]
fn string_from_utf8(bytes: Vec<u8>) -> (r: Option<String>)
    ensures
        r is Some <==> valid_utf8(bytes@),
        r is Some ==> r->Some_0@ == decode_utf8(bytes@),
{
    String::from_utf8(bytes).ok()
}

/// Every string has a payload that is accepted and that decodes to it.
pub proof fn lemma_utf8_string_accepted(chars: Seq<char>)
    ensures
        utf8_string_refusal(utf8_string_model(chars)) is None,
        decode_utf8(utf8_string_model(chars).payload) == chars,
{
    encode_utf8_valid_utf8(chars);
    encode_utf8_decode_utf8(chars);
}

/// A payload that is accepted is the payload of the string it decodes to.
pub proof fn lemma_utf8_string_canonical(object: DerModel)
    requires
        utf8_string_refusal(object) is None,
    ensures
        object == utf8_string_model(decode_utf8(object.payload)),
{
    decode_utf8_encode_utf8(object.payload);
}

impl FromDerObject for String {
    open spec fn refusal(object: DerModel) -> Option<Asn1DerError> {
        utf8_string_refusal(object)
    }

    open spec fn decoded_from(&self, object: DerModel) -> bool {
        self@ == decode_utf8(object.payload)
    }

    fn from_der_object(der_object: DerObject) -> (r: Result<Self, Asn1DerError>) {
        if der_object.tag.byte != UTF8_STRING {
            return Err(Asn1DerError::InvalidTag);
        }
        // Parse data to string
        match string_from_utf8(der_object.value.data) {
            Some(string) => Ok(string),
            None => Err(Asn1DerError::InvalidEncoding),
        }
    }
}

impl IntoDerObject for String {
    open spec fn der_model(&self) -> DerModel {
        utf8_string_model(self@)
    }

    open spec fn has_object(&self) -> bool {
        true
    }

    open spec fn encodable(&self) -> bool {
        encoding_len(encode_utf8(self@).len()) <= usize::MAX
    }

    proof fn lemma_encodable(&self) {
    }

    fn into_der_object(self) -> (object: DerObject) {
        let bytes: Vec<u8> = slice_to_vec(self.as_str().as_bytes());
        DerObject::from_raw(UTF8_STRING, bytes)
    }

    fn serialized_len(&self) -> (len: usize) {
        proof {
            lemma_encoding_len(self.der_model());
        }
        DerObject::compute_serialized_len(self.as_str().len())
    }

    fn checked_serialized_len(&self) -> (len: Option<usize>) {
        DerObject::checked_serialized_len(self.as_str().as_bytes().len())
    }
}

} // verus!
