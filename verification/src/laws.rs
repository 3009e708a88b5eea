//! What holds of the typed conversions taken together.
//!
//! For each native type two laws are proved. The first: the object that
//! stands for a value is accepted, and the value that it is decoded to is the
//! value itself. The second: an object that is accepted is the object that
//! stands for the value it is decoded to, so that no value has two objects.

use vstd::prelude::*;
use crate::big_endian::be_value;
use crate::der::tag::{BOOLEAN, INTEGER, NULL, OCTET_STRING, SEQUENCE, UTF8_STRING};
use crate::der::{lemma_encode_parsed, lemma_encoding_len, lemma_parse_encoding};
use crate::der::{encoding, parsed_encoded, parsed_object, DerLength, DerModel, DerObject};
use crate::der_length::{lemma_parsed_length_canonical, lemma_word_len};
use crate::der_length::{length_field, parsed_length, word_len};
use crate::error::Asn1DerError;
use crate::types::integer::integer_refusal;
use crate::types::integer::{lemma_integer_accepted, lemma_integer_canonical,
    lemma_integer_payload_len};
use crate::types::sequence::{concat_encodings, models, records};
use crate::types::sequence::{lemma_concat_accepted, lemma_concat_bound, lemma_records_of_concat};
use crate::types::utf8_string::{lemma_utf8_string_accepted, lemma_utf8_string_canonical};
use crate::types::{FromDerObject, IntoDerObject};

verus! {

/// Reading the encoding of a value that can be encoded gives the object of
/// the value back and takes exactly the encoding, whatever bytes follow it.
pub proof fn law_encoding_is_read_back<T: IntoDerObject>(value: T, rest: Seq<u8>)
    requires
        value.encodable(),
    ensures
        parsed_object(encoding(value.der_model()) + rest) == Ok::<(DerModel, nat), Asn1DerError>(
            (value.der_model(), encoding(value.der_model()).len()),
        ),
{
    value.lemma_encodable();
    lemma_parse_encoding(value.der_model(), rest);
}

/// The object of the unit value is accepted as a unit value.
pub proof fn law_null_round_trip()
    ensures
        <() as FromDerObject>::refusal(().der_model()) is None,
        ().decoded_from(().der_model()),
{
}

/// An object that is accepted as a unit value is the object of the unit
/// value.
pub proof fn law_null_unique(object: DerModel, decoded: ())
    requires
        <() as FromDerObject>::refusal(object) is None,
        decoded.decoded_from(object),
    ensures
        decoded.der_model() == object,
{
}

/// The object of a truth value is accepted as a truth value, and is decoded
/// to that value and to no other.
pub proof fn law_boolean_round_trip(value: bool, decoded: bool)
    ensures
        <bool as FromDerObject>::refusal(value.der_model()) is None,
        decoded.decoded_from(value.der_model()) <==> decoded == value,
{
    assert(value.der_model().payload[0] == if value { 0xffu8 } else { 0x00u8 });
    if decoded.decoded_from(value.der_model()) {
        assert(decoded.der_model().payload[0] == value.der_model().payload[0]);
    }
}

/// An object that is accepted as a truth value is the object of the value
/// it is decoded to.
pub proof fn law_boolean_unique(object: DerModel, decoded: bool)
    requires
        <bool as FromDerObject>::refusal(object) is None,
        decoded.decoded_from(object),
    ensures
        decoded.der_model() == object,
{
}

/// The object of an integer is accepted as an integer, and is decoded to
/// that integer and to no other.
pub proof fn law_integer_round_trip(value: u128, decoded: u128)
    ensures
        <u128 as FromDerObject>::refusal(value.der_model()) is None,
        decoded.decoded_from(value.der_model()) <==> decoded == value,
{
    lemma_integer_accepted(value as nat);
}

/// An object that is accepted as an integer is the object of the integer it
/// is decoded to: every integer has exactly one encoding.
pub proof fn law_integer_unique(object: DerModel, decoded: u128)
    requires
        <u128 as FromDerObject>::refusal(object) is None,
        decoded.decoded_from(object),
    ensures
        decoded.der_model() == object,
{
    lemma_integer_canonical(object);
}

/// The object of a byte string is accepted as a byte string, and is decoded
/// to those bytes and to no others.
pub proof fn law_octet_string_round_trip(value: Vec<u8>, decoded: Vec<u8>)
    ensures
        <Vec<u8> as FromDerObject>::refusal(value.der_model()) is None,
        decoded.decoded_from(value.der_model()) <==> decoded@ == value@,
{
}

/// An object that is accepted as a byte string is the object of the bytes
/// it is decoded to.
pub proof fn law_octet_string_unique(object: DerModel, decoded: Vec<u8>)
    requires
        <Vec<u8> as FromDerObject>::refusal(object) is None,
        decoded.decoded_from(object),
    ensures
        decoded.der_model() == object,
{
}

/// The object of a string is accepted as a string, and is decoded to those
/// characters and to no others.
pub proof fn law_utf8_string_round_trip(value: String, decoded: String)
    ensures
        <String as FromDerObject>::refusal(value.der_model()) is None,
        decoded.decoded_from(value.der_model()) <==> decoded@ == value@,
{
    lemma_utf8_string_accepted(value@);
}

/// An object that is accepted as a string is the object of the string it is
/// decoded to.
pub proof fn law_utf8_string_unique(object: DerModel, decoded: String)
    requires
        <String as FromDerObject>::refusal(object) is None,
        decoded.decoded_from(object),
    ensures
        decoded.der_model() == object,
{
    lemma_utf8_string_canonical(object);
}

/// Every object is accepted as a generic object, and is decoded to itself.
pub proof fn law_object_round_trip(value: DerObject, decoded: DerObject)
    ensures
        <DerObject as FromDerObject>::refusal(value.der_model()) is None,
        decoded.decoded_from(value.der_model()) <==> decoded@ == value@,
        decoded.decoded_from(value.der_model()) <==> decoded.der_model() == value.der_model(),
{
}

/// The object of a sequence whose elements' objects `T` accepts is accepted
/// as a sequence of `T`, and is decoded to as many elements, each decoded
/// from the object of the element in its place.
pub proof fn law_sequence_round_trip<T: FromDerObject + IntoDerObject>(
    value: Vec<T>,
    decoded: Vec<T>,
)
    requires
        forall|i: int|
            0 <= i < value@.len() ==> (#[trigger] value@[i]).der_model().payload.len()
                <= usize::MAX,
        forall|i: int|
            0 <= i < value@.len() ==> <T as FromDerObject>::refusal(
                (#[trigger] value@[i]).der_model(),
            ) is None,
    ensures
        <Vec<T> as FromDerObject>::refusal(value.der_model()) is None,
        records(value.der_model().payload) == models(value@),
        decoded.decoded_from(value.der_model()) <==> (decoded@.len() == value@.len() && forall|
            i: int,
        |
            0 <= i < decoded@.len() ==> (#[trigger] decoded@[i]).decoded_from(
                value@[i].der_model(),
            )),
{
    let objects = models(value@);
    assert forall|i: int| 0 <= i < objects.len() implies (#[trigger] objects[i]).payload.len()
        <= usize::MAX && <T as FromDerObject>::refusal(objects[i]) is None by {
        assert(objects[i] == value@[i].der_model());
    }
    lemma_records_of_concat(objects);
    lemma_concat_accepted::<T>(objects);
    assert forall|i: int| 0 <= i < objects.len() implies #[trigger] objects[i]
        == value@[i].der_model() by {}
}

/// An object that is accepted as a sequence of generic objects is the
/// object of the sequence it is decoded to.
pub proof fn law_sequence_unique(object: DerModel, decoded: Vec<DerObject>)
    requires
        <Vec<DerObject> as FromDerObject>::refusal(object) is None,
        decoded.decoded_from(object),
        canonical_records(object.payload),
    ensures
        decoded.der_model() == object,
{
    assert(models(decoded@) =~= records(object.payload)) by {
        assert forall|i: int| 0 <= i < decoded@.len() implies models(decoded@)[i] == records(
            object.payload,
        )[i] by {
            assert(decoded@[i].decoded_from(records(object.payload)[i]));
        }
    }
    lemma_concat_of_records(object.payload);
}

/// Whether every record in `payload` has a length field with a canonical
/// first byte.
pub open spec fn canonical_records(payload: Seq<u8>) -> bool
    decreases payload.len(),
{
    if payload.len() == 0 {
        true
    } else {
        match parsed_object(payload) {
            Ok((_, size)) => crate::der::canonical_header(payload) && if 0 < size
                <= payload.len() {
                canonical_records(payload.skip(size as int))
            } else {
                true
            },
            Err(_) => true,
        }
    }
}

/// A payload that holds nothing but records with canonical length fields is
/// the encodings of those records, one behind the other.
pub proof fn lemma_concat_of_records(payload: Seq<u8>)
    requires
        crate::types::sequence::elements_refusal::<DerObject>(payload) is None,
        canonical_records(payload),
    ensures
        concat_encodings(records(payload)) == payload,
    decreases payload.len(),
{
    if payload.len() > 0 {
        let (object, size) = parsed_object(payload)->Ok_0;
        crate::types::sequence::lemma_parsed_size(payload);
        lemma_encode_parsed(payload);
        lemma_concat_of_records(payload.skip(size as int));
        let all = records(payload);
        assert(all.skip(1) =~= records(payload.skip(size as int)));
        assert(all[0] == object);
        assert(payload =~= payload.take(size as int) + payload.skip(size as int));
    } else {
        assert(concat_encodings(records(payload)) =~= payload);
    }
}

/// The object of a sequence of integers is accepted as a sequence of
/// integers, and is decoded to those integers and to no others.
pub proof fn law_sequence_of_integers_round_trip(value: Vec<u128>, decoded: Vec<u128>)
    ensures
        <Vec<u128> as FromDerObject>::refusal(value.der_model()) is None,
        decoded.decoded_from(value.der_model()) <==> decoded@ == value@,
{
    assert forall|i: int| 0 <= i < value@.len() implies (#[trigger] value@[i])
        .der_model().payload.len() <= usize::MAX && <u128 as FromDerObject>::refusal(
        value@[i].der_model(),
    ) is None by {
        lemma_integer_payload_len(value@[i] as nat);
        lemma_integer_accepted(value@[i] as nat);
    }
    law_sequence_round_trip(value, decoded);
    if decoded.decoded_from(value.der_model()) {
        assert forall|i: int| 0 <= i < decoded@.len() implies decoded@[i] == value@[i] by {
            law_integer_round_trip(value@[i], decoded@[i]);
        }
        assert(decoded@ =~= value@);
    }
    if decoded@ == value@ {
        assert forall|i: int| 0 <= i < decoded@.len() implies (#[trigger] decoded@[i])
            .decoded_from(value@[i].der_model()) by {
            law_integer_round_trip(value@[i], decoded@[i]);
        }
    }
}

/// A sequence of integers can be encoded where nineteen bytes for each of
/// them, and ten for the header, fit a `usize`.
pub proof fn law_sequence_of_integers_encodable(value: Vec<u128>)
    requires
        value@.len() * 19 + 10 <= usize::MAX,
    ensures
        value.encodable(),
        value.has_object(),
{
    let objects = models(value@);
    assert forall|i: int| 0 <= i < objects.len() implies encoding(#[trigger] objects[i]).len()
        <= 19 by {
        assert(objects[i] == value@[i].der_model());
        lemma_integer_payload_len(value@[i] as nat);
        lemma_encoding_len(objects[i]);
        crate::der_length::lemma_length_field_len(objects[i].payload.len());
    }
    lemma_concat_bound(objects, 19);
    lemma_encoding_len(value.der_model());
}

/// The object of a sequence of generic objects is accepted as such a
/// sequence, and is decoded to as many objects, each with the tag and the
/// payload of the object in its place.
pub proof fn law_sequence_of_objects_round_trip(value: Vec<DerObject>, decoded: Vec<DerObject>)
    ensures
        <Vec<DerObject> as FromDerObject>::refusal(value.der_model()) is None,
        decoded.decoded_from(value.der_model()) <==> (decoded@.len() == value@.len() && forall|
            i: int,
        |
            0 <= i < decoded@.len() ==> (#[trigger] decoded@[i])@ == value@[i]@),
{
    assert forall|i: int| 0 <= i < value@.len() implies (#[trigger] value@[i])
        .der_model().payload.len() <= usize::MAX by {
        assert(value@[i].value.data.len() == value@[i].der_model().payload.len());
    }
    law_sequence_round_trip(value, decoded);
    if decoded.decoded_from(value.der_model()) {
        assert forall|i: int| 0 <= i < decoded@.len() implies (#[trigger] decoded@[i])@
            == value@[i]@ by {
            assert(decoded@[i].decoded_from(value@[i].der_model()));
        }
    }
    if decoded@.len() == value@.len() && forall|i: int|
        0 <= i < decoded@.len() ==> (#[trigger] decoded@[i])@ == value@[i]@ {
        assert forall|i: int| 0 <= i < decoded@.len() implies (#[trigger] decoded@[i])
            .decoded_from(value@[i].der_model()) by {
            assert(decoded@[i]@ == value@[i]@);
        }
    }
}

/// The object of an integer of one of the smaller types is accepted as an
/// integer of that type, and is decoded to that integer and to no other.
pub proof fn law_small_integer_round_trip(
    value64: u64,
    decoded64: u64,
    value32: u32,
    decoded32: u32,
    value16: u16,
    decoded16: u16,
    value: usize,
    decoded: usize,
)
    ensures
        <u64 as FromDerObject>::refusal(value64.der_model()) is None,
        decoded64.decoded_from(value64.der_model()) <==> decoded64 == value64,
        <u32 as FromDerObject>::refusal(value32.der_model()) is None,
        decoded32.decoded_from(value32.der_model()) <==> decoded32 == value32,
        <u16 as FromDerObject>::refusal(value16.der_model()) is None,
        decoded16.decoded_from(value16.der_model()) <==> decoded16 == value16,
        <usize as FromDerObject>::refusal(value.der_model()) is None,
        decoded.decoded_from(value.der_model()) <==> decoded == value,
{
    lemma_integer_accepted(value64 as nat);
    lemma_integer_accepted(value32 as nat);
    lemma_integer_accepted(value16 as nat);
    lemma_integer_accepted(value as nat);
}

/// An object that is accepted as an integer of one of the smaller types is
/// the object of the integer it is decoded to.
pub proof fn law_small_integer_unique(
    object: DerModel,
    decoded64: u64,
    decoded32: u32,
    decoded16: u16,
    decoded: usize,
)
    ensures
        <u64 as FromDerObject>::refusal(object) is None && decoded64.decoded_from(object)
            ==> decoded64.der_model() == object,
        <u32 as FromDerObject>::refusal(object) is None && decoded32.decoded_from(object)
            ==> decoded32.der_model() == object,
        <u16 as FromDerObject>::refusal(object) is None && decoded16.decoded_from(object)
            ==> decoded16.der_model() == object,
        <usize as FromDerObject>::refusal(object) is None && decoded.decoded_from(object)
            ==> decoded.der_model() == object,
{
    if integer_refusal(object) is None {
        lemma_integer_canonical(object);
    }
}

/// No built-in type accepts an object with the tag of another type: each
/// refuses it with `InvalidTag`, whatever its payload.
pub proof fn law_tag_mismatch(object: DerModel)
    ensures
        object.tag != NULL ==> <() as FromDerObject>::refusal(object) == Some(
            Asn1DerError::InvalidTag,
        ),
        object.tag != BOOLEAN ==> <bool as FromDerObject>::refusal(object) == Some(
            Asn1DerError::InvalidTag,
        ),
        object.tag != INTEGER ==> <u128 as FromDerObject>::refusal(object) == Some(
            Asn1DerError::InvalidTag,
        ),
        object.tag != INTEGER ==> <u64 as FromDerObject>::refusal(object) == Some(
            Asn1DerError::InvalidTag,
        ),
        object.tag != INTEGER ==> <u32 as FromDerObject>::refusal(object) == Some(
            Asn1DerError::InvalidTag,
        ),
        object.tag != INTEGER ==> <u16 as FromDerObject>::refusal(object) == Some(
            Asn1DerError::InvalidTag,
        ),
        object.tag != INTEGER ==> <usize as FromDerObject>::refusal(object) == Some(
            Asn1DerError::InvalidTag,
        ),
        object.tag != OCTET_STRING ==> <Vec<u8> as FromDerObject>::refusal(object) == Some(
            Asn1DerError::InvalidTag,
        ),
        object.tag != UTF8_STRING ==> <String as FromDerObject>::refusal(object) == Some(
            Asn1DerError::InvalidTag,
        ),
        object.tag != SEQUENCE ==> <Vec<DerObject> as FromDerObject>::refusal(object) == Some(
            Asn1DerError::InvalidTag,
        ),
{
}

/// A record whose length field announces more payload bytes than follow it
/// is refused with `LengthMismatch`.
pub proof fn law_truncated_record(src: Seq<u8>)
    requires
        src.len() > 0,
        DerLength::parsed(src.skip(1)) is Ok,
        src.len() < 1 + DerLength::parsed(src.skip(1))->Ok_0.1 + DerLength::parsed(
            src.skip(1),
        )->Ok_0.0,
    ensures
        parsed_object(src) == Err::<(DerModel, nat), Asn1DerError>(Asn1DerError::LengthMismatch),
{
}

/// A byte string that is read as an object, the count of a long length form
/// being the low seven bits of its first byte, starts with the encoding of
/// that object: encoding the object again reproduces the bytes that were
/// read, and no object has two byte strings.
pub proof fn law_encoded_is_canonical(src: Seq<u8>)
    requires
        parsed_encoded(src) is Ok,
    ensures
        encoding(parsed_encoded(src)->Ok_0.0) == src.take(parsed_encoded(src)->Ok_0.1 as int),
{
    let behind_tag = src.skip(1);
    assert(behind_tag[0] == src[1]);
    if src[1] >= 128 {
        lemma_word_len();
        assert((src[1] % 16) as nat == (src[1] - 128) as nat);
    }
    assert(DerLength::parsed(behind_tag) == parsed_length(behind_tag));
    lemma_encode_parsed(src);
}

/// A long-form length field that starts with a zero byte is refused as not
/// canonical, whatever length it holds.
pub proof fn law_long_form_leading_zero(src: Seq<u8>)
    requires
        src.len() > 0,
        src[0] > 128,
        src[0] - 128 <= word_len(),
        src.len() >= 1 + (src[0] - 128),
        src[1] == 0,
    ensures
        parsed_length(src) == Err::<(nat, nat), Asn1DerError>(Asn1DerError::InvalidEncoding),
        DerLength::parsed(src) == Err::<(nat, nat), Asn1DerError>(Asn1DerError::InvalidEncoding),
{
    lemma_word_len();
    assert((src[0] % 16) as nat == (src[0] - 128) as nat);
}

/// A length field that is accepted is the canonical field of its length, so
/// that writing the length again gives the bytes that were read.
pub proof fn law_length_field_unique(src: Seq<u8>)
    requires
        parsed_length(src) is Ok,
    ensures
        src.take(parsed_length(src)->Ok_0.1 as int) == length_field(parsed_length(src)->Ok_0.0),
{
    lemma_parsed_length_canonical(src);
}

/// A long-form length field that holds a length below 128 is refused as not
/// canonical, however many bytes it spends on it.
pub proof fn law_long_form_below_128(src: Seq<u8>)
    requires
        src.len() > 0,
        src[0] >= 128,
        src[0] - 128 <= word_len(),
        src.len() >= 1 + (src[0] - 128),
        be_value(src.subrange(1, 1 + (src[0] - 128))) < 128,
    ensures
        parsed_length(src) == Err::<(nat, nat), Asn1DerError>(Asn1DerError::InvalidEncoding),
{
}

} // verus!
