//! The conversion from an element that is at hand into a native value, and
//! the conversions of native values into objects by `From`.

use vstd::prelude::*;
use vstd::std_specs::convert::FromSpecImpl;
use crate::der::tag::OCTET_STRING;
use crate::der::{DerObject, DerTag, DerValue};
use crate::error::Asn1DerError;
use crate::types::{FromDerObject, IntoDerObject};

verus! {

/// A trait to parse DER-elements into their corresponding native types
pub trait FromDer<T>: Sized {
    /// The error with which the type refuses `element`, if it refuses it.
    spec fn element_refusal(element: T) -> Option<Asn1DerError>;

    /// Whether `self` is the value that `element` holds.
    spec fn holds(&self, element: T) -> bool;

    /// Tries to parse `element` into `Self`
    fn from_der(element: T) -> (r: Result<Self, Asn1DerError>)
        ensures
            match r {
                Ok(value) => Self::element_refusal(element) is None && value.holds(element),
                Err(e) => Self::element_refusal(element) == Some(e),
            },
    ;
}

impl<V: FromDerObject> FromDer<DerObject> for V {
    open spec fn element_refusal(element: DerObject) -> Option<Asn1DerError> {
        V::refusal(element@)
    }

    open spec fn holds(&self, element: DerObject) -> bool {
        self.decoded_from(element@)
    }

    fn from_der(element: DerObject) -> (r: Result<Self, Asn1DerError>) {
        V::from_der_object(element)
    }
}

impl From<Vec<u8>> for DerObject {
    /// Makes the octet string that holds the bytes `octet_string`.
    fn from(octet_string: Vec<u8>) -> (object: DerObject)
        ensures
            object@ == octet_string.der_model(),
            object.value.data == octet_string,
    {
        DerObject::from_raw(OCTET_STRING, octet_string)
    }
}

impl FromSpecImpl<Vec<u8>> for DerObject {
    open spec fn obeys_from_spec() -> bool {
        true
    }

    open spec fn from_spec(octet_string: Vec<u8>) -> DerObject {
        DerObject { tag: DerTag { byte: OCTET_STRING }, value: DerValue { data: octet_string } }
    }
}

impl From<String> for DerObject {
    /// Makes the UTF-8 string object that holds `utf8_string`.
    fn from(utf8_string: String) -> (object: DerObject)
        ensures
            object@ == utf8_string.der_model(),
    {
        utf8_string.into_der_object()
    }
}

/// The payload of the object is a buffer of its own, which its bytes do not
/// tell from another that holds the same: so `from` states the tag and the
/// payload of its result, and nothing is claimed through `from_spec`.
impl FromSpecImpl<String> for DerObject {
    open spec fn obeys_from_spec() -> bool {
        false
    }

    open spec fn from_spec(utf8_string: String) -> DerObject {
        choose|object: DerObject| object@ == utf8_string.der_model()
    }
}

impl From<u64> for DerObject {
    /// Makes the integer object that holds `integer`.
    fn from(integer: u64) -> (object: DerObject)
        ensures
            object@ == integer.der_model(),
    {
        integer.into_der_object()
    }
}

/// As for a string: `from` states the tag and the payload of its result, and
/// nothing is claimed through `from_spec`.
impl FromSpecImpl<u64> for DerObject {
    open spec fn obeys_from_spec() -> bool {
        false
    }

    open spec fn from_spec(integer: u64) -> DerObject {
        choose|object: DerObject| object@ == integer.der_model()
    }
}

} // verus!
