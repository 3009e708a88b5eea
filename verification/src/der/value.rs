//! The payload of a DER record.

use vstd::prelude::*;
use vstd::slice::slice_subrange;
use vstd::slice::slice_to_vec;
use vstd::std_specs::cmp::PartialEqSpecImpl;
use vstd::std_specs::convert::FromSpecImpl;
use crate::error::Asn1DerError;

verus! {

/// The payload of a DER record: the bytes behind the length field.
///
/// Two payloads are equal exactly when their bytes are.
#[derive(Debug, Clone, Eq)]
pub struct DerValue {
    /// The value
    pub data: Vec<u8>,
}

impl View for DerValue {
    type V = Seq<u8>;

    open spec fn view(&self) -> Seq<u8> {
        self.data@
    }
}

impl PartialEq for DerValue {
    fn eq(&self, other: &Self) -> (r: bool) {
        let len: usize = self.data.len();
        if other.data.len() != len {
            return false;
        }
        let mut i: usize = 0;
        while i < len
            invariant
                i <= len,
                len == self.data@.len(),
                len == other.data@.len(),
                self.data@.take(i as int) == other.data@.take(i as int),
            decreases len - i,
        {
            if self.data[i] != other.data[i] {
                return false;
            }
            proof {
                assert(self.data@.take(i + 1) =~= self.data@.take(i as int).push(
                    self.data@[i as int],
                ));
                assert(other.data@.take(i + 1) =~= other.data@.take(i as int).push(
                    other.data@[i as int],
                ));
            }
            i += 1;
        }
        proof {
            assert(self.data@.take(len as int) =~= self.data@);
            assert(other.data@.take(len as int) =~= other.data@);
        }
        true
    }
}

impl PartialEqSpecImpl for DerValue {
    open spec fn obeys_eq_spec() -> bool {
        true
    }

    open spec fn eq_spec(&self, other: &Self) -> bool {
        self@ == other@
    }
}

impl DerValue {
    /// Reads a payload of `len` bytes from the start of `source`;
    /// `LengthMismatch` where `source` is shorter than that.
    pub fn deserialize(source: &[u8], len: usize) -> (r: Result<DerValue, Asn1DerError>)
        ensures
            match r {
                Ok(value) => len <= source@.len() && value@ == source@.take(len as int),
                Err(e) => e == Asn1DerError::LengthMismatch && source@.len() < len,
            },
    {
        if source.len() < len {
            return Err(Asn1DerError::LengthMismatch);
        }
        let data: Vec<u8> = slice_to_vec(slice_subrange(source, 0, len));
        Ok(DerValue { data })
    }

    /// The length of the serialized payload.
    pub fn serialized_len(&self) -> (len: usize)
        ensures
            len == self@.len(),
    {
        self.data.len()
    }

    /// Copies the payload to the start of `buf` and returns the number of
    /// bytes written; `LengthMismatch`, and `buf` as it was, where `buf` is
    /// shorter than the payload.
    pub fn serialize(&self, buf: &mut [u8]) -> (r: Result<usize, Asn1DerError>)
        ensures
            match r {
                Ok(len) => len == self@.len() && len <= old(buf)@.len() && final(buf)@ == self@
                    + old(buf)@.skip(len as int),
                Err(e) => e == Asn1DerError::LengthMismatch && old(buf)@.len() < self@.len()
                    && final(buf)@ == old(buf)@,
            },
    {
        let len: usize = self.data.len();
        if buf.len() < len {
            return Err(Asn1DerError::LengthMismatch);
        }
        let mut i: usize = 0;
        while i < len
            invariant
                i <= len,
                len == self.data@.len(),
                len <= buf@.len(),
                buf@.len() == old(buf)@.len(),
                buf@.take(i as int) == self.data@.take(i as int),
                buf@.skip(i as int) == old(buf)@.skip(i as int),
            decreases len - i,
        {
            let ghost before = buf@;
            buf[i] = self.data[i];
            proof {
                assert(buf@.take(i + 1) =~= before.take(i as int).push(self.data@[i as int]));
                assert(self.data@.take(i + 1) =~= self.data@.take(i as int).push(
                    self.data@[i as int],
                ));
                assert(buf@.skip(i + 1) =~= before.skip(i as int).skip(1));
                assert(old(buf)@.skip(i + 1) =~= old(buf)@.skip(i as int).skip(1));
            }
            i += 1;
        }
        proof {
            assert(self.data@.take(len as int) =~= self.data@);
            assert(buf@ =~= buf@.take(len as int) + buf@.skip(len as int));
        }
        Ok(len)
    }

    /// The length of a serialized payload of `payload_len` bytes.
    pub fn compute_serialized_len(payload_len: usize) -> (len: usize)
        ensures
            len == payload_len,
    {
        payload_len
    }
}

impl From<Vec<u8>> for DerValue {
    fn from(data: Vec<u8>) -> (value: DerValue) {
        DerValue { data }
    }
}

impl FromSpecImpl<Vec<u8>> for DerValue {
    open spec fn obeys_from_spec() -> bool {
        true
    }

    open spec fn from_spec(data: Vec<u8>) -> DerValue {
        DerValue { data }
    }
}

impl From<DerValue> for Vec<u8> {
    fn from(value: DerValue) -> (data: Vec<u8>) {
        value.data
    }
}

impl FromSpecImpl<DerValue> for Vec<u8> {
    open spec fn obeys_from_spec() -> bool {
        true
    }

    open spec fn from_spec(value: DerValue) -> Vec<u8> {
        value.data
    }
}

} // verus!
