//! The ASN.1 type INTEGER as `u128`.
//!
//! An unsigned number is encoded in its shortest big-endian form, with one
//! zero byte in front where the top bit of that form is set, and for zero:
//! so the first bit of the payload is always clear, and every number has
//! exactly one payload.

use vstd::prelude::*;
use crate::big_endian::{be_bytes, be_len, be_value, pow256, top_byte};
use crate::big_endian::{byte_len, top_bit};
use crate::big_endian::{lemma_be_bytes_len, lemma_be_bytes_of_value, lemma_be_len_bound,
    lemma_be_len_of_value, lemma_be_value_bound, lemma_be_value_leading_zero,
    lemma_be_value_of_bytes, lemma_high_part, lemma_top_byte, lemma_top_byte_of_value};
use crate::der::lemma_encoding_len;
use crate::der::tag::INTEGER;
use crate::der::{DerModel, DerObject};
use crate::error::Asn1DerError;
use crate::types::{FromDerObject, IntoDerObject};

verus! {

/// Whether the payload of `value` starts with a zero byte that is not part
/// of the number: it does for zero, and where the top bit would else be set.
pub open spec fn has_zero_prefix(value: nat) -> bool {
    value == 0 || top_byte(value) >= 128
}

/// The payload of the integer `value`.
pub open spec fn integer_payload(value: nat) -> Seq<u8> {
    if has_zero_prefix(value) {
        seq![0u8] + be_bytes(value, be_len(value))
    } else {
        be_bytes(value, be_len(value))
    }
}

/// The number of bytes in the payload of the integer `value`.
pub open spec fn integer_payload_len(value: nat) -> nat {
    if has_zero_prefix(value) {
        1 + be_len(value)
    } else {
        be_len(value)
    }
}

/// The object that stands for the integer `value`.
pub open spec fn integer_model(value: nat) -> DerModel {
    DerModel { tag: INTEGER, payload: integer_payload(value) }
}

/// The error with which an object is refused as a `u128`, if it is.
///
/// `InvalidTag` for another tag; `InvalidEncoding` for an empty payload, and
/// for a zero byte in front of a byte whose top bit is clear; `Unsupported`
/// for a payload whose first bit is set, a negative number, and for a number
/// of more than sixteen bytes.
pub open spec fn integer_refusal(object: DerModel) -> Option<Asn1DerError> {
    let payload = object.payload;
    if object.tag != INTEGER {
        Some(Asn1DerError::InvalidTag)
    } else if payload.len() == 0 {
        Some(Asn1DerError::InvalidEncoding)
    } else if payload[0] >= 128 {
        Some(Asn1DerError::Unsupported)
    } else if payload[0] == 0 && payload.len() >= 2 && payload[1] < 128 {
        Some(Asn1DerError::InvalidEncoding)
    } else if payload.len() - (if payload[0] == 0 { 1int } else { 0int }) > 16 {
        Some(Asn1DerError::Unsupported)
    } else {
        None
    }
}

/// The payload of an integer has the length that `integer_payload_len`
/// gives, at most seventeen bytes for a `u128`.
pub proof fn lemma_integer_payload_len(value: nat)
    ensures
        integer_payload(value).len() == integer_payload_len(value),
        integer_payload_len(value) >= 1,
        value <= u128::MAX ==> integer_payload_len(value) <= 17 && be_len(value) <= 16,
{
    lemma_be_bytes_len(value, be_len(value));
    if value <= u128::MAX {
        assert(pow256(16) == u128::MAX + 1) by {
            reveal_with_fuel(pow256, 17);
        }
        lemma_be_len_bound(value, 16);
    }
    if value > 0 {
        lemma_top_byte(value);
    }
}

/// Every `u128` has a payload that is accepted and that denotes it.
pub proof fn lemma_integer_accepted(value: nat)
    requires
        value <= u128::MAX,
    ensures
        integer_refusal(integer_model(value)) is None,
        be_value(integer_payload(value)) == value,
{
    let digits = be_bytes(value, be_len(value));
    let payload = integer_payload(value);
    lemma_integer_payload_len(value);
    lemma_be_bytes_len(value, be_len(value));
    lemma_be_len_bound(value, be_len(value));
    lemma_be_value_of_bytes(value, be_len(value));
    lemma_be_value_leading_zero(digits);
    if value > 0 {
        lemma_top_byte(value);
        if has_zero_prefix(value) {
            assert(payload[0] == 0);
            assert(payload[1] == digits[0]);
            assert(payload.len() == 1 + digits.len());
        } else {
            assert(payload[0] == digits[0]);
            assert(payload.len() == digits.len());
        }
    } else {
        assert(digits.len() == 0);
        assert(payload =~= seq![0u8]);
        assert(payload[0] == 0);
        assert(payload.len() == 1);
    }
    assert(integer_model(value).payload == payload);
    assert(integer_model(value).tag == INTEGER);
}

/// A payload that is accepted is the payload of the number it denotes,
/// which is a `u128`: no number has two payloads.
pub proof fn lemma_integer_canonical(object: DerModel)
    requires
        integer_refusal(object) is None,
    ensures
        be_value(object.payload) <= u128::MAX,
        object == integer_model(be_value(object.payload)),
{
    let payload = object.payload;
    assert(pow256(16) == u128::MAX + 1) by {
        reveal_with_fuel(pow256, 17);
    }
    if payload[0] == 0 {
        let digits = payload.skip(1);
        assert(payload =~= seq![0u8] + digits);
        lemma_be_value_leading_zero(digits);
        lemma_be_value_bound(digits);
        lemma_be_len_bound(be_value(digits), digits.len());
        lemma_be_len_bound(be_value(digits), 16);
        if digits.len() > 0 {
            assert(digits[0] == payload[1]);
            lemma_be_len_of_value(digits);
            lemma_be_bytes_of_value(digits);
            lemma_top_byte_of_value(digits);
            assert(be_value(digits) > 0) by {
                if be_value(digits) == 0 {
                    assert(be_len(be_value(digits)) == 0);
                }
            }
            assert(integer_payload(be_value(payload)) =~= payload);
        } else {
            assert(be_value(digits) == 0);
            assert(integer_payload(0) =~= payload);
        }
    } else {
        lemma_be_value_bound(payload);
        lemma_be_len_bound(be_value(payload), payload.len());
        lemma_be_len_bound(be_value(payload), 16);
        lemma_be_len_of_value(payload);
        lemma_be_bytes_of_value(payload);
        lemma_top_byte_of_value(payload);
        assert(be_value(payload) > 0) by {
            if be_value(payload) == 0 {
                assert(be_len(be_value(payload)) == 0);
            }
        }
        assert(integer_payload(be_value(payload)) =~= payload);
    }
}

/// Computes the number of bytes in the shortest big-endian form of `value`.
pub fn integer_byte_len(value: u128) -> (len: usize)
    ensures
        len == be_len(value as nat),
        len <= 16,
{
    let high: u64 = (value / 0x1_0000_0000_0000_0000) as u64;
    let low: u64 = (value % 0x1_0000_0000_0000_0000) as u64;
    if high != 0 {
        proof {
            lemma_high_part(value as nat);
        }
        8 + byte_len(high)
    } else {
        byte_len(low)
    }
}

/// Tells whether the payload of `value` starts with a zero byte that is not
/// part of the number.
pub fn integer_has_zero_prefix(value: u128) -> (prefix: bool)
    ensures
        prefix == has_zero_prefix(value as nat),
{
    let high: u64 = (value / 0x1_0000_0000_0000_0000) as u64;
    let low: u64 = (value % 0x1_0000_0000_0000_0000) as u64;
    if high != 0 {
        proof {
            lemma_high_part(value as nat);
        }
        top_bit(high)
    } else {
        value == 0 || top_bit(low)
    }
}

impl FromDerObject for u128 {
    open spec fn refusal(object: DerModel) -> Option<Asn1DerError> {
        integer_refusal(object)
    }

    open spec fn decoded_from(&self, object: DerModel) -> bool {
        *self as nat == be_value(object.payload)
    }

    fn from_der_object(der_object: DerObject) -> (r: Result<Self, Asn1DerError>) {
        // Validate the tag and check that we have at least one byte
        if der_object.tag.byte != INTEGER {
            return Err(Asn1DerError::InvalidTag);
        }
        let len: usize = der_object.value.data.len();
        if len == 0 {
            return Err(Asn1DerError::InvalidEncoding);
        }
        // Check the first byte
        let first: u8 = der_object.value.data[0];
        if first > 0x7f {
            return Err(Asn1DerError::Unsupported);
        }
        let skip: usize = if first == 0x00 { 1 } else { 0 };
        // A number must only have a leading zero byte in front of a set bit
        if skip == 1 && len >= 2 && der_object.value.data[1] < 0x80 {
            return Err(Asn1DerError::InvalidEncoding);
        }
        // Check if the number fits in a `u128`
        if len - skip > 16 {
            return Err(Asn1DerError::Unsupported);
        }
        // Decode the number
        let ghost payload = der_object.value.data@;
        let mut value: u128 = 0;
        let mut i: usize = skip;
        proof {
            assert(pow256(16) == u128::MAX + 1) by {
                reveal_with_fuel(pow256, 17);
            }
        }
        while i < len
            invariant
                skip <= i <= len,
                len - skip <= 16,
                len == payload.len(),
                payload == der_object.value.data@,
                pow256(16) == u128::MAX + 1,
                value == be_value(payload.subrange(skip as int, i as int)),
            decreases len - i,
        {
            proof {
                let seen = payload.subrange(skip as int, i as int);
                lemma_be_value_bound(seen);
                lemma_be_len_bound(be_value(seen), seen.len());
                lemma_be_len_bound(be_value(seen), 15);
                assert(payload.subrange(skip as int, i + 1).drop_last() =~= seen);
            }
            value = value * 256 + der_object.value.data[i] as u128;
            i += 1;
        }
        proof {
            assert(payload.subrange(skip as int, len as int) =~= payload.skip(skip as int));
            if skip == 1 {
                assert(payload =~= seq![0u8] + payload.skip(1));
                lemma_be_value_leading_zero(payload.skip(1));
            } else {
                assert(payload.skip(0) =~= payload);
            }
        }
        Ok(value)
    }
}

impl IntoDerObject for u128 {
    open spec fn der_model(&self) -> DerModel {
        integer_model(*self as nat)
    }

    open spec fn has_object(&self) -> bool {
        true
    }

    open spec fn encodable(&self) -> bool {
        true
    }

    proof fn lemma_encodable(&self) {
        lemma_integer_payload_len(*self as nat);
        lemma_encoding_len(self.der_model());
    }

    fn into_der_object(self) -> (object: DerObject) {
        proof {
            lemma_integer_payload_len(self as nat);
        }
        // Compute the payload length
        let num_len: usize = integer_byte_len(self);
        let prefix: usize = if integer_has_zero_prefix(self) { 1 } else { 0 };
        let total: usize = prefix + num_len;
        // Encode the number behind the leading zero, where there is one
        let mut payload: Vec<u8> = vec![0u8; total];
        let mut rest: u128 = self;
        let mut i: usize = total;
        proof {
            assert(be_bytes(self as nat, num_len as nat) =~= be_bytes(rest as nat, num_len as nat)
                + payload@.subrange(i as int, total as int));
        }
        while i > prefix
            invariant
                prefix <= i <= total,
                total == prefix + num_len,
                prefix <= 1,
                payload@.len() == total,
                prefix == 1 ==> payload@[0] == 0,
                be_bytes(self as nat, num_len as nat) == be_bytes(rest as nat, (i - prefix) as nat)
                    + payload@.subrange(i as int, total as int),
            decreases i,
        {
            let ghost before = payload@;
            i -= 1;
            payload.set(i, (rest % 256) as u8);
            proof {
                assert(payload@.subrange(i as int, total as int) =~= seq![(rest % 256) as u8]
                    + before.subrange(i + 1, total as int));
                assert(be_bytes(rest as nat, (i + 1 - prefix) as nat) + before.subrange(
                    i + 1,
                    total as int,
                ) =~= be_bytes((rest / 256) as nat, (i - prefix) as nat) + payload@.subrange(
                    i as int,
                    total as int,
                ));
            }
            rest = rest / 256;
        }
        proof {
            assert(be_bytes(rest as nat, 0) =~= Seq::<u8>::empty());
            assert(payload@ =~= integer_payload(self as nat));
        }
        DerObject::from_raw(INTEGER, payload)
    }

    fn serialized_len(&self) -> (len: usize) {
        proof {
            lemma_integer_payload_len(*self as nat);
            lemma_encoding_len(self.der_model());
        }
        let mut num_len: usize = integer_byte_len(*self);
        if integer_has_zero_prefix(*self) {
            num_len += 1;
        }
        DerObject::compute_serialized_len(num_len)
    }

    fn checked_serialized_len(&self) -> (len: Option<usize>) {
        Some(self.serialized_len())
    }
}

/// The error with which an object is refused as an unsigned integer of at
/// most `max`, if it is: that with which it is refused as a `u128`, or else
/// `Unsupported` for a number above `max`.
pub open spec fn bounded_integer_refusal(object: DerModel, max: nat) -> Option<Asn1DerError> {
    if integer_refusal(object) is Some {
        integer_refusal(object)
    } else if be_value(object.payload) > max {
        Some(Asn1DerError::Unsupported)
    } else {
        None
    }
}

impl FromDerObject for usize {
    open spec fn refusal(object: DerModel) -> Option<Asn1DerError> {
        bounded_integer_refusal(object, usize::MAX as nat)
    }

    open spec fn decoded_from(&self, object: DerModel) -> bool {
        *self as nat == be_value(object.payload)
    }

    fn from_der_object(der_object: DerObject) -> (r: Result<Self, Asn1DerError>) {
        match u128::from_der_object(der_object) {
            Ok(number) => number.usize(),
            Err(e) => Err(e),
        }
    }
}

impl IntoDerObject for usize {
    open spec fn der_model(&self) -> DerModel {
        integer_model(*self as nat)
    }

    open spec fn has_object(&self) -> bool {
        true
    }

    open spec fn encodable(&self) -> bool {
        true
    }

    proof fn lemma_encodable(&self) {
        lemma_integer_payload_len(*self as nat);
        lemma_encoding_len(self.der_model());
    }

    fn into_der_object(self) -> (object: DerObject) {
        (self as u128).into_der_object()
    }

    fn serialized_len(&self) -> (len: usize) {
        (*self as u128).serialized_len()
    }

    fn checked_serialized_len(&self) -> (len: Option<usize>) {
        Some(self.serialized_len())
    }
}

impl FromDerObject for u64 {
    open spec fn refusal(object: DerModel) -> Option<Asn1DerError> {
        bounded_integer_refusal(object, u64::MAX as nat)
    }

    open spec fn decoded_from(&self, object: DerModel) -> bool {
        *self as nat == be_value(object.payload)
    }

    fn from_der_object(der_object: DerObject) -> (r: Result<Self, Asn1DerError>) {
        match u128::from_der_object(der_object) {
            Ok(number) => number.u64(),
            Err(e) => Err(e),
        }
    }
}

impl IntoDerObject for u64 {
    open spec fn der_model(&self) -> DerModel {
        integer_model(*self as nat)
    }

    open spec fn has_object(&self) -> bool {
        true
    }

    open spec fn encodable(&self) -> bool {
        true
    }

    proof fn lemma_encodable(&self) {
        lemma_integer_payload_len(*self as nat);
        lemma_encoding_len(self.der_model());
    }

    fn into_der_object(self) -> (object: DerObject) {
        (self as u128).into_der_object()
    }

    fn serialized_len(&self) -> (len: usize) {
        (*self as u128).serialized_len()
    }

    fn checked_serialized_len(&self) -> (len: Option<usize>) {
        Some(self.serialized_len())
    }
}

impl FromDerObject for u32 {
    open spec fn refusal(object: DerModel) -> Option<Asn1DerError> {
        bounded_integer_refusal(object, u32::MAX as nat)
    }

    open spec fn decoded_from(&self, object: DerModel) -> bool {
        *self as nat == be_value(object.payload)
    }

    fn from_der_object(der_object: DerObject) -> (r: Result<Self, Asn1DerError>) {
        match u128::from_der_object(der_object) {
            Ok(number) => number.u32(),
            Err(e) => Err(e),
        }
    }
}

impl IntoDerObject for u32 {
    open spec fn der_model(&self) -> DerModel {
        integer_model(*self as nat)
    }

    open spec fn has_object(&self) -> bool {
        true
    }

    open spec fn encodable(&self) -> bool {
        true
    }

    proof fn lemma_encodable(&self) {
        lemma_integer_payload_len(*self as nat);
        lemma_encoding_len(self.der_model());
    }

    fn into_der_object(self) -> (object: DerObject) {
        (self as u128).into_der_object()
    }

    fn serialized_len(&self) -> (len: usize) {
        (*self as u128).serialized_len()
    }

    fn checked_serialized_len(&self) -> (len: Option<usize>) {
        Some(self.serialized_len())
    }
}

impl FromDerObject for u16 {
    open spec fn refusal(object: DerModel) -> Option<Asn1DerError> {
        bounded_integer_refusal(object, u16::MAX as nat)
    }

    open spec fn decoded_from(&self, object: DerModel) -> bool {
        *self as nat == be_value(object.payload)
    }

    fn from_der_object(der_object: DerObject) -> (r: Result<Self, Asn1DerError>) {
        match u128::from_der_object(der_object) {
            Ok(number) => number.u16(),
            Err(e) => Err(e),
        }
    }
}

impl IntoDerObject for u16 {
    open spec fn der_model(&self) -> DerModel {
        integer_model(*self as nat)
    }

    open spec fn has_object(&self) -> bool {
        true
    }

    open spec fn encodable(&self) -> bool {
        true
    }

    proof fn lemma_encodable(&self) {
        lemma_integer_payload_len(*self as nat);
        lemma_encoding_len(self.der_model());
    }

    fn into_der_object(self) -> (object: DerObject) {
        (self as u128).into_der_object()
    }

    fn serialized_len(&self) -> (len: usize) {
        (*self as u128).serialized_len()
    }

    fn checked_serialized_len(&self) -> (len: Option<usize>) {
        Some(self.serialized_len())
    }
}

/// An extension that allows you to safely convert a `u128` to a smaller type
pub trait U128Ext: Sized {
    /// The number that `self` is.
    spec fn number(self) -> nat;

    /// Converts `self` or returns `Asn1DerError::Unsupported` if `self` is too large
    fn usize(self) -> (r: Result<usize, Asn1DerError>)
        ensures
            match r {
                Ok(small) => small == self.number(),
                Err(e) => e == Asn1DerError::Unsupported && self.number() > usize::MAX,
            },
    ;

    /// Converts `self` or returns `Asn1DerError::Unsupported` if `self` is too large
    fn u64(self) -> (r: Result<u64, Asn1DerError>)
        ensures
            match r {
                Ok(small) => small == self.number(),
                Err(e) => e == Asn1DerError::Unsupported && self.number() > u64::MAX,
            },
    ;

    /// Converts `self` or returns `Asn1DerError::Unsupported` if `self` is too large
    fn u32(self) -> (r: Result<u32, Asn1DerError>)
        ensures
            match r {
                Ok(small) => small == self.number(),
                Err(e) => e == Asn1DerError::Unsupported && self.number() > u32::MAX,
            },
    ;

    /// Converts `self` or returns `Asn1DerError::Unsupported` if `self` is too large
    fn u16(self) -> (r: Result<u16, Asn1DerError>)
        ensures
            match r {
                Ok(small) => small == self.number(),
                Err(e) => e == Asn1DerError::Unsupported && self.number() > u16::MAX,
            },
    ;

    /// Converts `self` or returns `Asn1DerError::Unsupported` if `self` is too large
    fn u8(self) -> (r: Result<u8, Asn1DerError>)
        ensures
            match r {
                Ok(small) => small == self.number(),
                Err(e) => e == Asn1DerError::Unsupported && self.number() > u8::MAX,
            },
    ;
}

impl U128Ext for u128 {
    open spec fn number(self) -> nat {
        self as nat
    }

    fn usize(self) -> (r: Result<usize, Asn1DerError>) {
        if self > usize::MAX as u128 {
            Err(Asn1DerError::Unsupported)
        } else {
            let small: usize = self as usize;
            assert(small == self.number());
            Ok(small)
        }
    }

    fn u64(self) -> (r: Result<u64, Asn1DerError>) {
        if self > u64::MAX as u128 {
            Err(Asn1DerError::Unsupported)
        } else {
            let small: u64 = self as u64;
            assert(small == self.number());
            Ok(small)
        }
    }

    fn u32(self) -> (r: Result<u32, Asn1DerError>) {
        if self > u32::MAX as u128 {
            Err(Asn1DerError::Unsupported)
        } else {
            let small: u32 = self as u32;
            assert(small == self.number());
            Ok(small)
        }
    }

    fn u16(self) -> (r: Result<u16, Asn1DerError>) {
        if self > u16::MAX as u128 {
            Err(Asn1DerError::Unsupported)
        } else {
            let small: u16 = self as u16;
            assert(small == self.number());
            Ok(small)
        }
    }

    fn u8(self) -> (r: Result<u8, Asn1DerError>) {
        if self > u8::MAX as u128 {
            Err(Asn1DerError::Unsupported)
        } else {
            let small: u8 = self as u8;
            assert(small == self.number());
            Ok(small)
        }
    }
}

} // verus!
