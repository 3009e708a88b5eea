//! The tag-length-value object model.
//!
//! A DER record is a tag byte, the canonical length field of its payload, and
//! the payload. `DerModel` is the record as a mathematical value, `encoding`
//! its wire form, and `parsed_object` what reading a byte string gives.

pub mod tag;
pub mod length;
pub mod value;

pub use self::length::DerLength;
pub use self::tag::DerTag;
pub use self::value::DerValue;

use vstd::prelude::*;
use vstd::std_specs::cmp::PartialEqSpecImpl;
use vstd::slice::slice_subrange;
use vstd::slice::slice_to_vec;
use crate::big_endian::{be_bytes, be_len, be_value, shorter};
use crate::big_endian::{lemma_be_len_bound, lemma_be_value_bound};
use crate::der_length::{get_encoded_length, is_length_result, length_field, length_field_len,
    parsed_length, word_len};
use crate::der_length::{lemma_length_field_len, lemma_parse_length_field,
    lemma_parsed_length_canonical, lemma_word_len};
use crate::error::Asn1DerError;

verus! {

/// A DER record as a mathematical value: its tag and its payload.
pub struct DerModel {
    /// The tag byte.
    pub tag: u8,
    /// The payload bytes.
    pub payload: Seq<u8>,
}

/// The number of bytes in the encoding of a record with `payload_len`
/// payload bytes.
pub open spec fn encoding_len(payload_len: nat) -> nat {
    1 + length_field_len(payload_len) + payload_len
}

/// The encoding of a record: tag, canonical length field, payload.
pub open spec fn encoding(object: DerModel) -> Seq<u8> {
    seq![object.tag] + length_field(object.payload.len()) + object.payload
}

/// The record at the start of `src`, where `field` is what the length field
/// behind the tag byte holds: the record and the number of bytes it takes, or
/// the reason for which it is refused.
pub open spec fn framed(src: Seq<u8>, field: Result<(nat, nat), Asn1DerError>) -> Result<
    (DerModel, nat),
    Asn1DerError,
> {
    match field {
        Err(e) => Err(e),
        Ok((length, size)) => if src.len() < 1 + size + length {
            Err(Asn1DerError::LengthMismatch)
        } else {
            Ok(
                (
                    DerModel {
                        tag: src[0],
                        payload: src.subrange(1 + size as int, (1 + size + length) as int),
                    },
                    1 + size + length,
                ),
            )
        },
    }
}

/// What reading a record from the start of `src` gives, the count of a long
/// length form being the low four bits of its first byte.
pub open spec fn parsed_object(src: Seq<u8>) -> Result<(DerModel, nat), Asn1DerError> {
    if src.len() == 0 {
        Err(Asn1DerError::LengthMismatch)
    } else {
        framed(src, DerLength::parsed(src.skip(1)))
    }
}

/// What reading a record from the start of `src` gives, the count of a long
/// length form being the low seven bits of its first byte.
pub open spec fn parsed_encoded(src: Seq<u8>) -> Result<(DerModel, nat), Asn1DerError> {
    if src.len() == 0 {
        Err(Asn1DerError::LengthMismatch)
    } else {
        framed(src, parsed_length(src.skip(1)))
    }
}

/// Whether the first byte of the length field of the record at the start of
/// `src` is that of a canonical field: a short form, or a long form that
/// announces at most a machine word of bytes.
pub open spec fn canonical_header(src: Seq<u8>) -> bool {
    src.len() >= 2 && (src[1] < 128 || src[1] - 128 <= word_len())
}

/// A generic DER object: a tag and a payload.
///
/// Two objects are equal exactly when their tags and their payloads are.
#[derive(Debug, Clone, Eq)]
pub struct DerObject {
    /// A DER tag that represents this object's type
    pub tag: DerTag,
    /// The DER object's payload
    pub value: DerValue,
}

impl View for DerObject {
    type V = DerModel;

    open spec fn view(&self) -> DerModel {
        DerModel { tag: self.tag.byte, payload: self.value.data@ }
    }
}

impl PartialEq for DerObject {
    fn eq(&self, other: &Self) -> (r: bool) {
        self.tag.byte == other.tag.byte && self.value == other.value
    }
}

impl PartialEqSpecImpl for DerObject {
    open spec fn obeys_eq_spec() -> bool {
        true
    }

    open spec fn eq_spec(&self, other: &Self) -> bool {
        self@ == other@
    }
}

impl DerObject {
    /// Creates a new DER object from `tag` and `value`.
    pub fn new(tag: DerTag, value: DerValue) -> (object: DerObject)
        ensures
            object.tag == tag,
            object.value == value,
    {
        DerObject { tag, value }
    }

    /// Creates a new DER object from a tag byte and the payload bytes.
    pub fn from_raw(tag: u8, bytes: Vec<u8>) -> (object: DerObject)
        ensures
            object@ == (DerModel { tag, payload: bytes@ }),
            object.value.data == bytes,
    {
        DerObject { tag: DerTag { byte: tag }, value: DerValue { data: bytes } }
    }

    /// Finds the record at the start of `source` without copying it, and
    /// returns its tag with the places in `source` where its payload starts
    /// and ends; the record ends where its payload does.
    ///
    /// The record is refused with the error of its length field, or with
    /// `LengthMismatch` where `source` ends before the tag or before the end
    /// of the payload.
    pub fn locate(source: &[u8]) -> (r: Result<(DerTag, usize, usize), Asn1DerError>)
        ensures
            match r {
                Ok((tag, start, end)) => start <= end <= source@.len() && parsed_object(source@)
                    == Ok::<(DerModel, nat), Asn1DerError>(
                    (
                        DerModel {
                            tag: tag.byte,
                            payload: source@.subrange(start as int, end as int),
                        },
                        end as nat,
                    ),
                ),
                Err(e) => parsed_object(source@) == Err::<(DerModel, nat), Asn1DerError>(e),
            },
    {
        let tag = match DerTag::deserialize(source) {
            Ok(tag) => tag,
            Err(e) => { return Err(e); },
        };
        let behind_tag = slice_subrange(source, 1, source.len());
        assert(behind_tag@ =~= source@.skip(1));
        let (length, size) = match DerLength::deserialize_prefix(behind_tag) {
            Ok(found) => found,
            Err(e) => { return Err(e); },
        };
        if source.len() - 1 - size < length.len {
            return Err(Asn1DerError::LengthMismatch);
        }
        Ok((tag, 1 + size, 1 + size + length.len))
    }

    /// Reads the record at the start of `source`, and returns it with the
    /// number of bytes that it takes.
    ///
    /// The record is refused as `locate` refuses it.
    pub fn deserialize_prefix(source: &[u8]) -> (r: Result<(DerObject, usize), Asn1DerError>)
        ensures
            match r {
                Ok((object, size)) => parsed_object(source@) == Ok::<(DerModel, nat), Asn1DerError>(
                    (object@, size as nat),
                ),
                Err(e) => parsed_object(source@) == Err::<(DerModel, nat), Asn1DerError>(e),
            },
    {
        let (tag, start, end) = match Self::locate(source) {
            Ok(found) => found,
            Err(e) => { return Err(e); },
        };
        let value = match DerValue::deserialize(slice_subrange(source, start, end), end - start) {
            Ok(value) => value,
            Err(e) => { return Err(e); },
        };
        assert(value@ =~= source@.subrange(start as int, end as int));
        Ok((DerObject { tag, value }, end))
    }

    /// Reads the record at the start of `source`.
    ///
    /// It is refused as `deserialize_prefix` refuses it.
    pub fn deserialize(source: &[u8]) -> (r: Result<DerObject, Asn1DerError>)
        ensures
            match r {
                Ok(object) => parsed_object(source@) is Ok && parsed_object(source@)->Ok_0.0
                    == object@,
                Err(e) => parsed_object(source@) == Err::<(DerModel, nat), Asn1DerError>(e),
            },
    {
        match Self::deserialize_prefix(source) {
            Ok((object, _)) => Ok(object),
            Err(e) => Err(e),
        }
    }

    /// The length of the encoding of `self`.
    pub fn serialized_len(&self) -> (len: usize)
        requires
            encoding_len(self@.payload.len()) <= usize::MAX,
        ensures
            len == encoding_len(self@.payload.len()),
            len == encoding(self@).len(),
    {
        proof {
            lemma_length_field_len(self@.payload.len());
        }
        Self::compute_serialized_len(self.value.data.len())
    }

    /// The length of the encoding of `self`; the same as `serialized_len`.
    pub fn encoded_length(&self) -> (len: usize)
        requires
            encoding_len(self@.payload.len()) <= usize::MAX,
        ensures
            len == encoding_len(self@.payload.len()),
            len == encoding(self@).len(),
    {
        self.serialized_len()
    }

    /// Writes the encoding of `self` to the start of `buf` and returns the
    /// number of bytes written; `LengthMismatch`, and `buf` as it was, where
    /// `buf` is shorter than the encoding.
    pub fn serialize(&self, buf: &mut [u8]) -> (r: Result<usize, Asn1DerError>)
        ensures
            match r {
                Ok(len) => len == encoding(self@).len() && len <= old(buf)@.len() && final(buf)@
                    == encoding(self@) + old(buf)@.skip(len as int),
                Err(e) => e == Asn1DerError::LengthMismatch && old(buf)@.len() < encoding(
                    self@,
                ).len() && final(buf)@ == old(buf)@,
            },
    {
        let payload_len: usize = self.value.serialized_len();
        let field_len: usize = DerLength::compute_serialized_len(payload_len);
        proof {
            lemma_length_field_len(payload_len as nat);
        }
        if buf.len() < 1 + field_len || buf.len() - 1 - field_len < payload_len {
            return Err(Asn1DerError::LengthMismatch);
        }
        let (tag_part, behind_tag) = buf.split_at_mut(1);
        let (length_part, value_part) = behind_tag.split_at_mut(field_len);
        let _ = self.tag.serialize(tag_part);
        let _ = DerLength { len: payload_len }.serialize(length_part);
        let _ = self.value.serialize(value_part);
        proof {
            assert(final(tag_part)@ =~= seq![self@.tag]);
            assert(final(length_part)@ =~= length_field(payload_len as nat));
            assert(final(buf)@ =~= encoding(self@) + old(buf)@.skip(1 + field_len + payload_len));
        }
        Ok(1 + field_len + payload_len)
    }

    /// Reads the record at the start of `data`, the count of a long length
    /// form being the low seven bits of its first byte.
    ///
    /// The record is refused with the error of its length field, or with
    /// `LengthMismatch` where `data` ends before the tag or before the end of
    /// the payload. Bytes behind the record are left alone.
    pub fn with_encoded(data: &[u8]) -> (r: Result<DerObject, Asn1DerError>)
        ensures
            match r {
                Ok(object) => parsed_encoded(data@) is Ok && parsed_encoded(data@)->Ok_0.0
                    == object@,
                Err(e) => parsed_encoded(data@) == Err::<(DerModel, nat), Asn1DerError>(e),
            },
    {
        // Validate minimum-length
        if data.len() < 1 {
            return Err(Asn1DerError::LengthMismatch);
        }
        // Decode and validate lengths
        let behind_tag = slice_subrange(data, 1, data.len());
        assert(behind_tag@ =~= data@.skip(1));
        let (payload_length, der_length_size) = match decode_length(behind_tag) {
            Ok(found) => found,
            Err(e) => { return Err(e); },
        };
        if data.len() - 1 - der_length_size < payload_length {
            return Err(Asn1DerError::LengthMismatch);
        }
        let payload = slice_to_vec(
            slice_subrange(data, 1 + der_length_size, 1 + der_length_size + payload_length),
        );
        Ok(DerObject { tag: DerTag { byte: data[0] }, value: DerValue { data: payload } })
    }

    /// Reads the record at the start of `data` as `with_encoded` does, and
    /// keeps the buffer of `data` for the payload.
    pub fn from_encoded(data: Vec<u8>) -> (r: Result<DerObject, Asn1DerError>)
        ensures
            match r {
                Ok(object) => parsed_encoded(data@) is Ok && parsed_encoded(data@)->Ok_0.0
                    == object@,
                Err(e) => parsed_encoded(data@) == Err::<(DerModel, nat), Asn1DerError>(e),
            },
    {
        let ghost bytes = data@;
        let mut data = data;
        // Validate minimum-length
        if data.len() < 1 {
            return Err(Asn1DerError::LengthMismatch);
        }
        // Get `tag` and lengths and validate length
        let tag: u8 = data[0];
        let behind_tag = slice_subrange(data.as_slice(), 1, data.len());
        assert(behind_tag@ =~= bytes.skip(1));
        let (payload_length, der_length_size) = match decode_length(behind_tag) {
            Ok(found) => found,
            Err(e) => { return Err(e); },
        };
        if data.len() - 1 - der_length_size < payload_length {
            return Err(Asn1DerError::LengthMismatch);
        }
        // Move the payload to the front of `data`, and cut off what is behind it
        let header: usize = 1 + der_length_size;
        let mut i: usize = 0;
        while i < payload_length
            invariant
                i <= payload_length,
                header + payload_length <= bytes.len() <= usize::MAX,
                header >= 2,
                data@.len() == bytes.len(),
                forall|j: int| 0 <= j < i ==> data@[j] == bytes[header + j],
                forall|j: int| i <= j < bytes.len() ==> data@[j] == bytes[j],
            decreases payload_length - i,
        {
            let byte: u8 = data[header + i];
            data.set(i, byte);
            i += 1;
        }
        data.truncate(payload_length);
        assert(data@ =~= bytes.subrange(header as int, header + payload_length));
        Ok(DerObject { tag: DerTag { byte: tag }, value: DerValue { data } })
    }

    /// Encodes `self`, and keeps the buffer of the payload for the encoding.
    pub fn into_encoded(self) -> (encoded: Vec<u8>)
        requires
            encoding_len(self@.payload.len()) <= usize::MAX,
        ensures
            encoded@ == encoding(self@),
    {
        let ghost object = self@;
        let tag: u8 = self.tag.byte;
        let mut buffer: Vec<u8> = self.value.data;
        // Compute and store lengths
        let payload_length: usize = buffer.len();
        let der_length_size: usize = length_field_size(payload_length);
        let header: usize = 1 + der_length_size;
        // Resize the buffer and move the payload to the back
        buffer.resize(header + payload_length, 0);
        let mut i: usize = payload_length;
        while i > 0
            invariant
                i <= payload_length,
                payload_length == object.payload.len(),
                header + payload_length <= usize::MAX,
                header >= 2,
                buffer@.len() == header + payload_length,
                forall|j: int| 0 <= j < i ==> buffer@[j] == object.payload[j],
                forall|j: int| i <= j < payload_length ==> buffer@[header + j] == object.payload[j],
            decreases i,
        {
            i -= 1;
            let byte: u8 = buffer[i];
            buffer.set(header + i, byte);
        }
        // Set tag and encode length
        let (tag_part, behind_tag) = buffer.as_mut_slice().split_at_mut(1);
        let (length_part, payload_part) = behind_tag.split_at_mut(der_length_size);
        tag_part[0] = tag;
        encode_length(length_part, payload_length);
        proof {
            assert(final(tag_part)@ =~= seq![tag]);
            assert(final(payload_part)@ =~= object.payload);
            assert(buffer@ =~= encoding(object));
        }
        buffer
    }

    /// The length of the encoding of an object with `payload_len` payload
    /// bytes, where that length fits a `usize`; `None` where it does not.
    pub fn checked_serialized_len(payload_len: usize) -> (len: Option<usize>)
        ensures
            len == if encoding_len(payload_len as nat) <= usize::MAX {
                Some(encoding_len(payload_len as nat) as usize)
            } else {
                None::<usize>
            },
    {
        let field_len: usize = DerLength::compute_serialized_len(payload_len);
        if payload_len > usize::MAX - 1 - field_len {
            None
        } else {
            Some(1 + field_len + payload_len)
        }
    }

    /// The length of the encoding of an object with `payload_len` payload
    /// bytes.
    pub fn compute_serialized_len(payload_len: usize) -> (len: usize)
        requires
            encoding_len(payload_len as nat) <= usize::MAX,
        ensures
            len == encoding_len(payload_len as nat),
    {
        DerTag::compute_serialized_len() + DerLength::compute_serialized_len(payload_len)
            + DerValue::compute_serialized_len(payload_len)
    }
}

/// The encoding of an object has the length that `encoding_len` gives.
pub proof fn lemma_encoding_len(object: DerModel)
    requires
        object.payload.len() <= usize::MAX,
    ensures
        encoding(object).len() == encoding_len(object.payload.len()),
        encoding_len(object.payload.len()) <= object.payload.len() + 10,
{
    lemma_length_field_len(object.payload.len());
}

/// Reading the encoding of an object gives the object back and takes exactly
/// the encoding, whatever bytes follow it.
pub proof fn lemma_parse_encoding(object: DerModel, rest: Seq<u8>)
    requires
        object.payload.len() <= usize::MAX,
    ensures
        encoding(object).len() == encoding_len(object.payload.len()),
        parsed_object(encoding(object) + rest) == Ok::<(DerModel, nat), Asn1DerError>(
            (object, encoding_len(object.payload.len())),
        ),
        parsed_encoded(encoding(object) + rest) == Ok::<(DerModel, nat), Asn1DerError>(
            (object, encoding_len(object.payload.len())),
        ),
        canonical_header(encoding(object) + rest),
{
    let length = object.payload.len();
    let field = length_field(length);
    let src = encoding(object) + rest;
    lemma_length_field_len(length);
    lemma_parse_length_field(length, object.payload + rest);
    assert(src.skip(1) =~= field + (object.payload + rest));
    assert(src.subrange(1 + field.len() as int, (1 + field.len() + length) as int) =~= object.payload);
    if length >= 128 {
        assert(field[0] == (128 + be_len(length)) as u8);
        assert(src.skip(1)[0] == field[0]);
    } else {
        assert(src.skip(1)[0] == field[0]);
    }
}

/// A byte string that is read as an object, and whose length field has a
/// canonical first byte, starts with the encoding of that object: encoding
/// the object again reproduces the bytes that were read.
pub proof fn lemma_encode_parsed(src: Seq<u8>)
    requires
        parsed_object(src) is Ok,
        canonical_header(src),
    ensures
        parsed_encoded(src) == parsed_object(src),
        encoding(parsed_object(src)->Ok_0.0) == src.take(parsed_object(src)->Ok_0.1 as int),
{
    let behind_tag = src.skip(1);
    assert(behind_tag[0] == src[1]);
    if src[1] >= 128 {
        lemma_word_len();
        assert((src[1] % 16) as nat == (src[1] - 128) as nat);
    }
    assert(DerLength::parsed(behind_tag) == parsed_length(behind_tag));
    lemma_parsed_length_canonical(behind_tag);
    let (object, size) = parsed_object(src)->Ok_0;
    let (length, field_len) = parsed_length(behind_tag)->Ok_0;
    assert(behind_tag.take(field_len as int) =~= src.subrange(1, 1 + field_len as int));
    assert(encoding(object) =~= src.take(size as int));
}

/// Decodes the length field at the start of `length_bytes`.
///
/// Returns the length and the number of bytes that the field takes. The field
/// is refused with `LengthMismatch` where it is cut short, with `Unsupported`
/// where it announces more bytes than a machine word has, and with
/// `InvalidEncoding` where a long form starts with a zero byte or holds a
/// length below 128.
pub fn decode_length(length_bytes: &[u8]) -> (r: Result<(usize, usize), Asn1DerError>)
    ensures
        is_length_result(r, parsed_length(length_bytes@)),
{
    if length_bytes.len() < 1 {
        return Err(Asn1DerError::LengthMismatch);
    }
    let first: u8 = length_bytes[0];
    if first <= 0x7f {
        return Ok((first as usize, 1));
    }
    let count: usize = (first % 128) as usize;
    proof {
        lemma_word_len();
    }
    if count > core::mem::size_of::<usize>() {
        return Err(Asn1DerError::Unsupported);
    }
    if count + 1 > length_bytes.len() {
        return Err(Asn1DerError::LengthMismatch);
    }
    // The shortest form of a length starts with no zero byte
    if count >= 1 && length_bytes[1] == 0 {
        return Err(Asn1DerError::InvalidEncoding);
    }
    let digits = slice_subrange(length_bytes, 1, count + 1);
    let length: u64 = crate::big_endian::decode(digits);
    proof {
        assert(digits@.take(shorter(digits@.len(), 8) as int) =~= digits@);
        lemma_be_value_bound(digits@);
        lemma_be_len_bound(be_value(digits@), digits@.len());
        lemma_be_len_bound(be_value(digits@), word_len());
    }
    if length < 0x80 {
        return Err(Asn1DerError::InvalidEncoding);
    }
    Ok((length as usize, count + 1))
}

/// What a stream that starts with `data` announces, where `field` is what
/// the length field behind the tag byte holds: nothing yet, or the length of
/// the whole record and that of its payload.
pub open spec fn announced_by(data: Seq<u8>, field: Result<(nat, nat), Asn1DerError>) -> Result<
    Option<(nat, nat)>,
    Asn1DerError,
> {
    if data.len() < 2 {
        Ok(None)
    } else {
        match field {
            Ok((length, size)) => if 1 + size + length > usize::MAX {
                Err(Asn1DerError::Unsupported)
            } else {
                Ok(Some((1 + size + length, length)))
            },
            Err(Asn1DerError::LengthMismatch) => Ok(None),
            Err(e) => Err(e),
        }
    }
}

/// What a stream that starts with `data` announces, the count of a long
/// length form being the low seven bits of its first byte.
pub open spec fn announced(data: Seq<u8>) -> Result<Option<(nat, nat)>, Asn1DerError> {
    announced_by(data, parsed_length(data.skip(1)))
}

/// What a stream that starts with `data` announces, the count of a long
/// length form being the low four bits of its first byte.
pub open spec fn announced_object(data: Seq<u8>) -> Result<Option<(nat, nat)>, Asn1DerError> {
    announced_by(data, DerLength::parsed(data.skip(1)))
}

/// Tries to decode the length of a record of which only the beginning,
/// `data`, is at hand.
///
/// Returns `None` where `data` ends before the end of the length field,
/// else the length of the whole record and the length of its payload. The
/// field is refused with `InvalidEncoding` and `Unsupported` as
/// `decode_length` refuses it, and with `Unsupported` where the length of
/// the whole record is above `usize::MAX`.
pub fn try_decode_length(data: &[u8]) -> (r: Result<Option<(usize, usize)>, Asn1DerError>)
    ensures
        match r {
            Ok(Some((total, length))) => announced(data@) == Ok::<
                Option<(nat, nat)>,
                Asn1DerError,
            >(Some((total as nat, length as nat))),
            Ok(None) => announced(data@) == Ok::<Option<(nat, nat)>, Asn1DerError>(None),
            Err(e) => announced(data@) == Err::<Option<(nat, nat)>, Asn1DerError>(e),
        },
{
    if data.len() < 2 {
        return Ok(None);
    }
    let behind_tag = slice_subrange(data, 1, data.len());
    assert(behind_tag@ =~= data@.skip(1));
    match decode_length(behind_tag) {
        Ok((length, size)) => {
            if length > usize::MAX - 1 - size {
                Err(Asn1DerError::Unsupported)
            } else {
                Ok(Some((1 + size + length, length)))
            }
        },
        Err(Asn1DerError::LengthMismatch) => Ok(None),
        Err(e) => Err(e),
    }
}

/// Tries to read the length of a record of which only the beginning,
/// `data`, is at hand, the count of a long length form being the low four
/// bits of its first byte, as `DerObject::deserialize` reads it.
///
/// Returns `None` where `data` ends before the end of the length field,
/// else the length of the whole record and the length of its payload. The
/// field is refused with `InvalidEncoding` and `Unsupported` as
/// `DerLength::deserialize` refuses it, and with `Unsupported` where the
/// length of the whole record is above `usize::MAX`.
pub fn try_deserialize_length(data: &[u8]) -> (r: Result<Option<(usize, usize)>, Asn1DerError>)
    ensures
        match r {
            Ok(Some((total, length))) => announced_object(data@) == Ok::<
                Option<(nat, nat)>,
                Asn1DerError,
            >(Some((total as nat, length as nat))),
            Ok(None) => announced_object(data@) == Ok::<Option<(nat, nat)>, Asn1DerError>(None),
            Err(e) => announced_object(data@) == Err::<Option<(nat, nat)>, Asn1DerError>(e),
        },
{
    if data.len() < 2 {
        return Ok(None);
    }
    let behind_tag = slice_subrange(data, 1, data.len());
    assert(behind_tag@ =~= data@.skip(1));
    match DerLength::deserialize_prefix(behind_tag) {
        Ok((length, size)) => {
            if length.len > usize::MAX - 1 - size {
                Err(Asn1DerError::Unsupported)
            } else {
                Ok(Some((1 + size + length.len, length.len)))
            }
        },
        Err(Asn1DerError::LengthMismatch) => Ok(None),
        Err(e) => Err(e),
    }
}

/// Writes the canonical length field of `length` to the start of `buffer`;
/// the bytes behind the field stay as they are.
///
/// Where `buffer` is shorter than the field, no field can be written: the
/// first byte announces the long form, and the low-order bytes of `length`
/// fill what is left of `buffer`.
pub fn encode_length(buffer: &mut [u8], length: usize)
    requires
        old(buffer)@.len() >= 1,
    ensures
        final(buffer)@.len() == old(buffer)@.len(),
        old(buffer)@.len() >= length_field_len(length as nat) ==> final(buffer)@ == length_field(
            length as nat,
        ) + old(buffer)@.skip(length_field_len(length as nat) as int),
        old(buffer)@.len() < length_field_len(length as nat) ==> final(buffer)@ == seq![
            (128 + be_len(length as nat)) as u8,
        ] + be_bytes(length as nat, (old(buffer)@.len() - 1) as nat),
{
    let byte_count: usize = length_field_size(length);
    if byte_count > 1 {
        let digits: usize = byte_count - 1;
        let (head, tail) = buffer.split_at_mut(1);
        head[0] = (0x80 + digits) as u8;
        proof {
            assert(final(head)@ =~= seq![(128 + be_len(length as nat)) as u8]);
        }
        if tail.len() >= digits {
            let (field, behind) = tail.split_at_mut(digits);
            crate::big_endian::encode(field, length as u64);
            proof {
                assert(final(field)@ =~= be_bytes(length as nat, digits as nat));
                assert(final(behind)@ =~= old(buffer)@.skip(byte_count as int));
                assert(final(buffer)@ =~= length_field(length as nat) + old(buffer)@.skip(
                    byte_count as int,
                ));
            }
        } else {
            crate::big_endian::encode(tail, length as u64);
            proof {
                assert(final(tail)@ =~= be_bytes(length as nat, (old(buffer)@.len() - 1) as nat));
            }
        }
    } else {
        buffer[0] = length as u8;
        proof {
            assert(final(buffer)@ =~= length_field(length as nat) + old(buffer)@.skip(1));
        }
    }
}

/// Computes the size that the length field of a payload of `length` bytes
/// has.
pub fn length_field_size(length: usize) -> (size: usize)
    ensures
        size == length_field_len(length as nat),
        1 <= size <= 9,
{
    get_encoded_length(length)
}

} // verus!
