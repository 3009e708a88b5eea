//! The ASN.1 type BOOLEAN as `bool`.

use vstd::prelude::*;
use crate::der::tag::BOOLEAN;
use crate::der::{DerModel, DerObject};
use crate::error::Asn1DerError;
use crate::types::{FromDerObject, IntoDerObject};

verus! {

/// The object that stands for a truth value: the BOOLEAN tag and one byte,
/// `0xff` for true and `0x00` for false.
pub open spec fn boolean_model(value: bool) -> DerModel {
    DerModel { tag: BOOLEAN, payload: seq![if value { 0xffu8 } else { 0x00u8 }] }
}

impl FromDerObject for bool {
    open spec fn refusal(object: DerModel) -> Option<Asn1DerError> {
        if object.tag != BOOLEAN {
            Some(Asn1DerError::InvalidTag)
        } else if object.payload.len() != 1 || (object.payload[0] != 0x00 && object.payload[0]
            != 0xff) {
            Some(Asn1DerError::InvalidEncoding)
        } else {
            None
        }
    }

    open spec fn decoded_from(&self, object: DerModel) -> bool {
        object == boolean_model(*self)
    }

    fn from_der_object(der_object: DerObject) -> (r: Result<Self, Asn1DerError>) {
        if der_object.tag.byte != BOOLEAN {
            return Err(Asn1DerError::InvalidTag);
        }
        if der_object.value.data.len() != 1 {
            return Err(Asn1DerError::InvalidEncoding);
        }
        let byte: u8 = der_object.value.data[0];
        if byte == 0x00 {
            assert(der_object@.payload =~= boolean_model(false).payload);
            Ok(false)
        } else if byte == 0xff {
            assert(der_object@.payload =~= boolean_model(true).payload);
            Ok(true)
        } else {
            Err(Asn1DerError::InvalidEncoding)
        }
    }
}

impl IntoDerObject for bool {
    open spec fn der_model(&self) -> DerModel {
        boolean_model(*self)
    }

    open spec fn has_object(&self) -> bool {
        true
    }

    open spec fn encodable(&self) -> bool {
        true
    }

    proof fn lemma_encodable(&self) {
        crate::der_length::lemma_length_field_len(1);
    }

    fn into_der_object(self) -> (object: DerObject) {
        let mut payload: Vec<u8> = Vec::new();
        payload.push(if self { 0xffu8 } else { 0x00u8 });
        assert(payload@ =~= boolean_model(self).payload);
        DerObject::from_raw(BOOLEAN, payload)
    }

    fn serialized_len(&self) -> (len: usize) {
        proof {
            crate::der_length::lemma_length_field_len(1);
        }
        DerObject::compute_serialized_len(1)
    }

    fn checked_serialized_len(&self) -> (len: Option<usize>) {
        Some(self.serialized_len())
    }
}

} // verus!
