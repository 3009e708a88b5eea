//! The length of a DER payload, as a value of its own.

use vstd::prelude::*;
use vstd::std_specs::convert::FromSpecImpl;
use crate::der_length::{encode, get_encoded_length, read_long_form};
use crate::der_length::{length_field, length_field_len, long_form};
use crate::error::Asn1DerError;

verus! {

/// The length of a DER payload.
#[derive(Debug, Copy, Clone, Eq, PartialEq, Structural)]
pub struct DerLength {
    /// The length
    pub len: usize,
}

impl DerLength {
    /// What the length field at the start of `src` holds, the count of a
    /// long form being the low four bits of the first byte: the length and
    /// the size of the field, or the reason for which the field is refused.
    pub open spec fn parsed(src: Seq<u8>) -> Result<(nat, nat), Asn1DerError> {
        if src.len() == 0 {
            Err(Asn1DerError::LengthMismatch)
        } else if src[0] < 128 {
            Ok((src[0] as nat, 1))
        } else {
            long_form(src, (src[0] % 16) as nat)
        }
    }

    /// Reads the length field at the start of `source`, and returns the
    /// length with the number of bytes that the field takes.
    ///
    /// The field is refused with `LengthMismatch` where it is cut short,
    /// with `Unsupported` where it announces more bytes than a machine word
    /// has, and with `InvalidEncoding` where a long form starts with a zero
    /// byte or holds a length below 128.
    pub fn deserialize_prefix(source: &[u8]) -> (r: Result<(DerLength, usize), Asn1DerError>)
        ensures
            match r {
                Ok((length, size)) => Self::parsed(source@) == Ok::<(nat, nat), Asn1DerError>(
                    (length.len as nat, size as nat),
                ),
                Err(e) => Self::parsed(source@) == Err::<(nat, nat), Asn1DerError>(e),
            },
    {
        if source.len() == 0 {
            return Err(Asn1DerError::LengthMismatch);
        }
        let first: u8 = source[0];
        if first <= 127 {
            return Ok((DerLength { len: first as usize }, 1));
        }
        match read_long_form(source, (first % 16) as usize) {
            Ok((len, size)) => Ok((DerLength { len }, size)),
            Err(e) => Err(e),
        }
    }

    /// Reads the length field at the start of `source`.
    ///
    /// It is refused as `deserialize_prefix` refuses it.
    pub fn deserialize(source: &[u8]) -> (r: Result<DerLength, Asn1DerError>)
        ensures
            match r {
                Ok(length) => Self::parsed(source@) is Ok && Self::parsed(source@)->Ok_0.0
                    == length.len,
                Err(e) => Self::parsed(source@) == Err::<(nat, nat), Asn1DerError>(e),
            },
    {
        match Self::deserialize_prefix(source) {
            Ok((length, _)) => Ok(length),
            Err(e) => Err(e),
        }
    }

    /// The number of bytes that the serialized length takes.
    pub fn serialized_len(&self) -> (size: usize)
        ensures
            size == length_field_len(self.len as nat),
            1 <= size <= 9,
    {
        get_encoded_length(self.len)
    }

    /// Writes the canonical length field to the start of `buf` and returns
    /// the number of bytes written; `LengthMismatch`, and `buf` as it was,
    /// where `buf` is shorter than the field.
    pub fn serialize(&self, buf: &mut [u8]) -> (r: Result<usize, Asn1DerError>)
        ensures
            match r {
                Ok(size) => size == length_field_len(self.len as nat) && size <= old(buf)@.len()
                    && final(buf)@ == length_field(self.len as nat) + old(buf)@.skip(size as int),
                Err(e) => e == Asn1DerError::LengthMismatch && old(buf)@.len() < length_field_len(
                    self.len as nat,
                ) && final(buf)@ == old(buf)@,
            },
    {
        let size: usize = self.serialized_len();
        if buf.len() < size {
            return Err(Asn1DerError::LengthMismatch);
        }
        encode(self.len, buf);
        Ok(size)
    }

    /// The number of bytes that the length field of `len` takes.
    pub fn compute_serialized_len(len: usize) -> (size: usize)
        ensures
            size == length_field_len(len as nat),
            1 <= size <= 9,
    {
        DerLength { len }.serialized_len()
    }
}

impl From<usize> for DerLength {
    fn from(len: usize) -> (length: DerLength) {
        DerLength { len }
    }
}

impl FromSpecImpl<usize> for DerLength {
    open spec fn obeys_from_spec() -> bool {
        true
    }

    open spec fn from_spec(len: usize) -> DerLength {
        DerLength { len }
    }
}

impl From<DerLength> for usize {
    fn from(length: DerLength) -> (len: usize) {
        length.len
    }
}

impl FromSpecImpl<DerLength> for usize {
    open spec fn obeys_from_spec() -> bool {
        true
    }

    open spec fn from_spec(length: DerLength) -> usize {
        length.len
    }
}

} // verus!
