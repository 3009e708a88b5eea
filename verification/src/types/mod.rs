//! The typed conversions between DER objects and native values.
//!
//! `IntoDerObject` says which object stands for a value, `FromDerObject`
//! which objects a type refuses and which value an accepted object gives.

pub mod boolean;
pub mod integer;
pub mod null;
pub mod octet_string;
pub mod sequence;
pub mod utf8_string;

use vstd::prelude::*;
use crate::der::{encoding, encoding_len, parsed_object, DerModel, DerObject};
use crate::error::Asn1DerError;

verus! {

/// A trait for converting a DER object into a native element
pub trait FromDerObject: Sized {
    /// The error with which the type refuses `object`, if it refuses it.
    spec fn refusal(object: DerModel) -> Option<Asn1DerError>;

    /// Whether `self` is the value that `object` holds.
    spec fn decoded_from(&self, object: DerModel) -> bool;

    /// Converts `der_object` into `Self`
    fn from_der_object(der_object: DerObject) -> (r: Result<Self, Asn1DerError>)
        ensures
            match r {
                Ok(value) => Self::refusal(der_object@) is None && value.decoded_from(
                    der_object@,
                ),
                Err(e) => Self::refusal(der_object@) == Some(e),
            },
    ;

    /// Reads the record at the start of `source` and converts it into `Self`
    fn deserialize(source: &[u8]) -> (r: Result<Self, Asn1DerError>)
        ensures
            match r {
                Ok(value) => parsed_object(source@) is Ok && Self::refusal(
                    parsed_object(source@)->Ok_0.0,
                ) is None && value.decoded_from(parsed_object(source@)->Ok_0.0),
                Err(e) => match parsed_object(source@) {
                    Err(f) => e == f,
                    Ok((object, _)) => Self::refusal(object) == Some(e),
                },
            },
    {
        match DerObject::deserialize(source) {
            Ok(object) => Self::from_der_object(object),
            Err(e) => Err(e),
        }
    }
}

/// A trait for converting native elements into a DER object
pub trait IntoDerObject: Sized {
    /// The DER object that stands for `self`.
    spec fn der_model(&self) -> DerModel;

    /// Whether `self` can be made into an object on this machine: whether
    /// the length of its payload fits a `usize`, and each value inside it can
    /// be encoded.
    spec fn has_object(&self) -> bool;

    /// Whether `self` can be encoded on this machine: whether the length of
    /// its encoding fits a `usize`, and each value inside it can be encoded.
    spec fn encodable(&self) -> bool;

    /// A value that can be encoded can be made into an object, and its
    /// encoding has a length that fits a `usize`.
    proof fn lemma_encodable(&self)
        requires
            self.encodable(),
        ensures
            self.has_object(),
            encoding_len(self.der_model().payload.len()) <= usize::MAX,
    ;

    /// Converts `self` into a DER object
    fn into_der_object(self) -> (object: DerObject)
        requires
            self.has_object(),
        ensures
            object@ == self.der_model(),
    ;

    /// Computes the length of the encoding of `self` without encoding it
    fn serialized_len(&self) -> (len: usize)
        requires
            self.encodable(),
        ensures
            len == encoding_len(self.der_model().payload.len()),
            len == encoding(self.der_model()).len(),
    ;

    /// Computes the length of the encoding of `self` where `self` can be
    /// encoded on this machine, and tells where it cannot
    fn checked_serialized_len(&self) -> (len: Option<usize>)
        ensures
            len is Some <==> self.encodable(),
            len is Some ==> len->Some_0 == encoding_len(self.der_model().payload.len()),
    ;

    /// Writes the encoding of `self` to the start of `buf` and returns the
    /// number of bytes written; `LengthMismatch`, and `buf` as it was, where
    /// `buf` is shorter than the encoding.
    fn serialize(self, buf: &mut [u8]) -> (r: Result<usize, Asn1DerError>)
        requires
            self.has_object(),
        ensures
            match r {
                Ok(len) => len == encoding(self.der_model()).len() && len <= old(buf)@.len()
                    && final(buf)@ == encoding(self.der_model()) + old(buf)@.skip(len as int),
                Err(e) => e == Asn1DerError::LengthMismatch && old(buf)@.len() < encoding(
                    self.der_model(),
                ).len() && final(buf)@ == old(buf)@,
            },
    {
        let object = self.into_der_object();
        DerObject::serialize(&object, buf)
    }
}

/// Takes the first of `objects` and converts it into `T`.
///
/// Where there is none, `objects` stays empty and the error is
/// `LengthMismatch`; else the first object leaves `objects`, whether or not
/// `T` accepts it.
pub fn parse_next<T: FromDerObject>(objects: &mut Vec<DerObject>) -> (r: Result<T, Asn1DerError>)
    ensures
        old(objects)@.len() == 0 ==> r == Err::<T, Asn1DerError>(Asn1DerError::LengthMismatch)
            && final(objects)@ == old(objects)@,
        old(objects)@.len() > 0 ==> final(objects)@ == old(objects)@.skip(1) && match r {
            Ok(value) => T::refusal(old(objects)@[0]@) is None && value.decoded_from(
                old(objects)@[0]@,
            ),
            Err(e) => T::refusal(old(objects)@[0]@) == Some(e),
        },
{
    if objects.len() == 0 {
        return Err(Asn1DerError::LengthMismatch);
    }
    let der_object = objects.remove(0);
    assert(objects@ =~= old(objects)@.skip(1));
    T::from_der_object(der_object)
}

impl FromDerObject for DerObject {
    open spec fn refusal(object: DerModel) -> Option<Asn1DerError> {
        None
    }

    open spec fn decoded_from(&self, object: DerModel) -> bool {
        self@ == object
    }

    fn from_der_object(der_object: DerObject) -> (r: Result<Self, Asn1DerError>) {
        Ok(der_object)
    }
}

impl IntoDerObject for DerObject {
    open spec fn der_model(&self) -> DerModel {
        self@
    }

    open spec fn has_object(&self) -> bool {
        true
    }

    open spec fn encodable(&self) -> bool {
        encoding_len(self@.payload.len()) <= usize::MAX
    }

    proof fn lemma_encodable(&self) {
    }

    fn into_der_object(self) -> (object: DerObject) {
        self
    }

    fn serialized_len(&self) -> (len: usize) {
        DerObject::serialized_len(self)
    }

    fn checked_serialized_len(&self) -> (len: Option<usize>) {
        DerObject::checked_serialized_len(self.value.data.len())
    }
}

} // verus!
