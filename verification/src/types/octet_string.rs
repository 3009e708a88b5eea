//! The ASN.1 type OCTET STRING as `Vec<u8>`.

use vstd::prelude::*;
use crate::der::tag::OCTET_STRING;
use crate::der::lemma_encoding_len;
use crate::der::{encoding_len, DerModel, DerObject};
use crate::error::Asn1DerError;
use crate::types::{FromDerObject, IntoDerObject};

verus! {

/// The object that stands for a byte string: the OCTET STRING tag and the
/// bytes themselves.
pub open spec fn octet_string_model(bytes: Seq<u8>) -> DerModel {
    DerModel { tag: OCTET_STRING, payload: bytes }
}

impl FromDerObject for Vec<u8> {
    open spec fn refusal(object: DerModel) -> Option<Asn1DerError> {
        if object.tag != OCTET_STRING {
            Some(Asn1DerError::InvalidTag)
        } else {
            None
        }
    }

    open spec fn decoded_from(&self, object: DerModel) -> bool {
        object == octet_string_model(self@)
    }

    fn from_der_object(der_object: DerObject) -> (r: Result<Self, Asn1DerError>) {
        if der_object.tag.byte != OCTET_STRING {
            return Err(Asn1DerError::InvalidTag);
        }
        Ok(der_object.value.data)
    }
}

impl IntoDerObject for Vec<u8> {
    open spec fn der_model(&self) -> DerModel {
        octet_string_model(self@)
    }

    open spec fn has_object(&self) -> bool {
        true
    }

    open spec fn encodable(&self) -> bool {
        encoding_len(self@.len()) <= usize::MAX
    }

    proof fn lemma_encodable(&self) {
    }

    fn into_der_object(self) -> (object: DerObject) {
        DerObject::from_raw(OCTET_STRING, self)
    }

    fn serialized_len(&self) -> (len: usize) {
        proof {
            lemma_encoding_len(self.der_model());
        }
        DerObject::compute_serialized_len(self.len())
    }

    fn checked_serialized_len(&self) -> (len: Option<usize>) {
        DerObject::checked_serialized_len(self.len())
    }
}

} // verus!
