//! The tag byte of a DER record.

use vstd::prelude::*;
use vstd::std_specs::convert::FromSpecImpl;
use crate::error::Asn1DerError;

verus! {

/// The tag of the ASN.1 type BOOLEAN.
pub const BOOLEAN: u8 = 0x01;

/// The tag of the ASN.1 type INTEGER.
pub const INTEGER: u8 = 0x02;

/// The tag of the ASN.1 type OCTET STRING.
pub const OCTET_STRING: u8 = 0x04;

/// The tag of the ASN.1 type NULL.
pub const NULL: u8 = 0x05;

/// The tag of the ASN.1 type UTF8String.
pub const UTF8_STRING: u8 = 0x0c;

/// The tag of the ASN.1 type SEQUENCE.
pub const SEQUENCE: u8 = 0x30;

/// A DER tag: one byte that names the type of a record.
///
/// Every byte is a tag, and two tags are equal exactly when their bytes are.
#[derive(Debug, Clone, Copy, PartialEq, Eq, Structural)]
pub struct DerTag {
    /// The tag byte.
    pub byte: u8,
}

impl DerTag {
    /// Reads the tag at the start of `source`; `LengthMismatch` where
    /// `source` is empty.
    pub fn deserialize(source: &[u8]) -> (r: Result<DerTag, Asn1DerError>)
        ensures
            r == if source@.len() == 0 {
                Err::<DerTag, Asn1DerError>(Asn1DerError::LengthMismatch)
            } else {
                Ok::<DerTag, Asn1DerError>(DerTag { byte: source@[0] })
            },
    {
        if source.len() == 0 {
            Err(Asn1DerError::LengthMismatch)
        } else {
            Ok(DerTag { byte: source[0] })
        }
    }

    /// The length of the serialized tag: one byte.
    pub fn serialized_len(&self) -> (len: usize)
        ensures
            len == 1,
    {
        1
    }

    /// Writes the tag to the start of `buf` and returns the number of bytes
    /// written; `LengthMismatch`, and `buf` as it was, where `buf` is empty.
    pub fn serialize(&self, buf: &mut [u8]) -> (r: Result<usize, Asn1DerError>)
        ensures
            r == if old(buf)@.len() == 0 {
                Err::<usize, Asn1DerError>(Asn1DerError::LengthMismatch)
            } else {
                Ok::<usize, Asn1DerError>(1)
            },
            final(buf)@ == if old(buf)@.len() == 0 {
                old(buf)@
            } else {
                old(buf)@.update(0, self.byte)
            },
    {
        if buf.len() == 0 {
            Err(Asn1DerError::LengthMismatch)
        } else {
            buf[0] = self.byte;
            Ok(1)
        }
    }

    /// The length of any serialized tag: one byte.
    pub fn compute_serialized_len() -> (len: usize)
        ensures
            len == 1,
    {
        1
    }
}

impl From<u8> for DerTag {
    fn from(byte: u8) -> (tag: DerTag) {
        DerTag { byte }
    }
}

impl FromSpecImpl<u8> for DerTag {
    open spec fn obeys_from_spec() -> bool {
        true
    }

    open spec fn from_spec(byte: u8) -> DerTag {
        DerTag { byte }
    }
}

impl From<DerTag> for u8 {
    fn from(tag: DerTag) -> (byte: u8) {
        tag.byte
    }
}

impl FromSpecImpl<DerTag> for u8 {
    open spec fn obeys_from_spec() -> bool {
        true
    }

    open spec fn from_spec(tag: DerTag) -> u8 {
        tag.byte
    }
}

} // verus!
