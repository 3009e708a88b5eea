//! The ASN.1 type NULL as the unit type.

use vstd::prelude::*;
use crate::der::tag::NULL;
use crate::der::{DerModel, DerObject};
use crate::error::Asn1DerError;
use crate::types::{FromDerObject, IntoDerObject};

verus! {

/// The object that stands for the unit value: the NULL tag and no payload.
pub open spec fn null_model() -> DerModel {
    DerModel { tag: NULL, payload: Seq::empty() }
}

impl FromDerObject for () {
    open spec fn refusal(object: DerModel) -> Option<Asn1DerError> {
        if object.tag != NULL {
            Some(Asn1DerError::InvalidTag)
        } else if object.payload.len() != 0 {
            Some(Asn1DerError::InvalidEncoding)
        } else {
            None
        }
    }

    open spec fn decoded_from(&self, object: DerModel) -> bool {
        object == null_model()
    }

    fn from_der_object(der_object: DerObject) -> (r: Result<Self, Asn1DerError>) {
        if der_object.tag.byte != NULL {
            return Err(Asn1DerError::InvalidTag);
        }
        if der_object.value.data.len() != 0 {
            Err(Asn1DerError::InvalidEncoding)
        } else {
            assert(der_object@.payload =~= Seq::<u8>::empty());
            Ok(())
        }
    }
}

impl IntoDerObject for () {
    open spec fn der_model(&self) -> DerModel {
        null_model()
    }

    open spec fn has_object(&self) -> bool {
        true
    }

    open spec fn encodable(&self) -> bool {
        true
    }

    proof fn lemma_encodable(&self) {
        crate::der_length::lemma_length_field_len(0);
    }

    fn into_der_object(self) -> (object: DerObject) {
        DerObject::from_raw(NULL, Vec::new())
    }

    fn serialized_len(&self) -> (len: usize) {
        proof {
            crate::der_length::lemma_length_field_len(0);
        }
        DerObject::compute_serialized_len(0)
    }

    fn checked_serialized_len(&self) -> (len: Option<usize>) {
        Some(self.serialized_len())
    }
}

} // verus!
