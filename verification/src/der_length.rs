//! The DER length field: its canonical form, and a codec over byte slices.
//!
//! A length below 128 is one byte, the length itself. Any other length is a
//! byte `0x80 | n` followed by the `n` bytes of its shortest big-endian form.
//! No other form is read: a long form that holds a length below 128, or that
//! starts with a zero byte, is refused.

use vstd::prelude::*;
use vstd::layout::size_of;
use vstd::layout::layout_of_primitives;
use crate::big_endian::byte_len;
use crate::big_endian::{be_bytes, be_len, be_value, pow256};
use crate::big_endian::{lemma_be_bytes_len, lemma_be_bytes_minimal, lemma_be_bytes_of_value,
    lemma_be_len_bound, lemma_be_len_of_value, lemma_be_value_bound, lemma_be_value_of_bytes};
use crate::error::Asn1DerError;

verus! {

/// The number of bytes in a machine word.
pub open spec fn word_len() -> nat {
    size_of::<usize>()
}

/// The number of bytes that the length field of `length` takes.
pub open spec fn length_field_len(length: nat) -> nat {
    if length < 128 {
        1
    } else {
        1 + be_len(length)
    }
}

/// The canonical length field of `length`.
pub open spec fn length_field(length: nat) -> Seq<u8> {
    if length < 128 {
        seq![length as u8]
    } else {
        seq![(128 + be_len(length)) as u8] + be_bytes(length, be_len(length))
    }
}

/// What a long-form length field at the start of `src` holds, where its first
/// byte announces `count` length bytes: the length and the size of the field,
/// or the reason for which the field is refused.
///
/// A field that announces more bytes than a machine word has is
/// `Unsupported`; one that is cut short is a `LengthMismatch`; one whose
/// length bytes start with a zero byte, or hold a length below 128, is not
/// the shortest form of its length and so an `InvalidEncoding`.
pub open spec fn long_form(src: Seq<u8>, count: nat) -> Result<(nat, nat), Asn1DerError> {
    if count > word_len() {
        Err(Asn1DerError::Unsupported)
    } else if src.len() < 1 + count {
        Err(Asn1DerError::LengthMismatch)
    } else if count >= 1 && src[1] == 0 {
        Err(Asn1DerError::InvalidEncoding)
    } else if be_value(src.subrange(1, 1 + count as int)) < 128 {
        Err(Asn1DerError::InvalidEncoding)
    } else {
        Ok((be_value(src.subrange(1, 1 + count as int)), 1 + count))
    }
}

/// What the length field at the start of `src` holds, the count of a long
/// form being the low seven bits of the first byte.
pub open spec fn parsed_length(src: Seq<u8>) -> Result<(nat, nat), Asn1DerError> {
    if src.len() == 0 {
        Err(Asn1DerError::LengthMismatch)
    } else if src[0] < 128 {
        Ok((src[0] as nat, 1))
    } else {
        long_form(src, (src[0] - 128) as nat)
    }
}

/// Whether an executable result is the result `model`.
pub open spec fn is_length_result(
    r: Result<(usize, usize), Asn1DerError>,
    model: Result<(nat, nat), Asn1DerError>,
) -> bool {
    match r {
        Ok((length, size)) => model == Ok::<(nat, nat), Asn1DerError>((length as nat, size as nat)),
        Err(e) => model == Err::<(nat, nat), Asn1DerError>(e),
    }
}

/// A machine word has four or eight bytes, and holds the numbers below
/// `256` to the power of that.
pub proof fn lemma_word_len()
    ensures
        word_len() == 4 || word_len() == 8,
        pow256(word_len()) == usize::MAX + 1,
{
    broadcast use layout_of_primitives;

    reveal_with_fuel(pow256, 9);
}

/// Every length that fits a machine word has a field of at most nine bytes.
pub proof fn lemma_length_field_len(length: nat)
    requires
        length <= usize::MAX,
    ensures
        1 <= length_field_len(length) <= 1 + word_len() <= 9,
        length_field(length).len() == length_field_len(length),
        length >= 128 ==> be_len(length) >= 1,
{
    lemma_word_len();
    lemma_be_len_bound(length, word_len());
    lemma_be_bytes_len(length, be_len(length));
}

/// Reading a canonical length field gives the length back, whatever follows.
pub proof fn lemma_parse_length_field(length: nat, rest: Seq<u8>)
    requires
        length <= usize::MAX,
    ensures
        parsed_length(length_field(length) + rest) == Ok::<(nat, nat), Asn1DerError>(
            (length, length_field_len(length)),
        ),
{
    let src = length_field(length) + rest;
    lemma_length_field_len(length);
    if length >= 128 {
        let n = be_len(length);
        assert(src[0] == (128 + n) as u8);
        assert(src.subrange(1, 1 + n as int) =~= be_bytes(length, n));
        lemma_be_len_bound(length, n);
        lemma_be_value_of_bytes(length, n);
        lemma_be_bytes_minimal(length);
        assert(src[1] == be_bytes(length, n)[0]);
    } else {
        assert(src[0] == length as u8);
    }
}

/// A length field that is accepted is the canonical field of its length: no
/// length has two fields.
pub proof fn lemma_parsed_length_canonical(src: Seq<u8>)
    requires
        parsed_length(src) is Ok,
    ensures
        src.take(parsed_length(src)->Ok_0.1 as int) == length_field(parsed_length(src)->Ok_0.0),
{
    let (length, size) = parsed_length(src)->Ok_0;
    if src[0] < 128 {
        assert(src.take(1) =~= length_field(length));
    } else {
        let count = (src[0] - 128) as nat;
        let digits = src.subrange(1, 1 + count as int);
        assert(count > 0) by {
            if count == 0 {
                assert(be_value(digits) == 0);
            }
        }
        assert(digits[0] == src[1]);
        lemma_be_len_of_value(digits);
        lemma_be_bytes_of_value(digits);
        assert(src.take(size as int) =~= length_field(length));
    }
}

/// Decodes the length field at the start of `length_bytes`.
///
/// Returns the length and the number of bytes that the field takes. The field
/// is refused with `LengthMismatch` where it is cut short, with `Unsupported`
/// where it announces more bytes than a machine word has, and with
/// `InvalidEncoding` where a long form starts with a zero byte or holds a
/// length below 128.
pub fn decode(length_bytes: &[u8]) -> (r: Result<(usize, usize), Asn1DerError>)
    ensures
        is_length_result(r, parsed_length(length_bytes@)),
{
    if length_bytes.len() < 1 {
        return Err(Asn1DerError::LengthMismatch);
    }
    let first: u8 = length_bytes[0];
    if first <= 0x7f {
        return Ok((first as usize, 1));
    }
    let count: usize = (first % 128) as usize;
    read_long_form(length_bytes, count)
}

/// Reads the `count` length bytes behind the first byte of a long form.
pub fn read_long_form(length_bytes: &[u8], count: usize) -> (r: Result<
    (usize, usize),
    Asn1DerError,
>)
    ensures
        is_length_result(r, long_form(length_bytes@, count as nat)),
{
    proof {
        lemma_word_len();
    }
    if count > core::mem::size_of::<usize>() {
        return Err(Asn1DerError::Unsupported);
    }
    if count >= length_bytes.len() {
        return Err(Asn1DerError::LengthMismatch);
    }
    // The shortest form of a length starts with no zero byte
    if count >= 1 && length_bytes[1] == 0 {
        return Err(Asn1DerError::InvalidEncoding);
    }
    let mut length: usize = 0;
    let mut index: usize = 1;
    while index < count + 1
        invariant
            1 <= index <= count + 1 <= length_bytes@.len(),
            count <= word_len(),
            pow256(word_len()) == usize::MAX + 1,
            length == be_value(length_bytes@.subrange(1, index as int)),
        decreases count + 1 - index,
    {
        proof {
            let seen = length_bytes@.subrange(1, index as int);
            lemma_be_value_bound(seen);
            lemma_be_len_bound(be_value(seen), seen.len());
            lemma_be_len_bound(be_value(seen), (word_len() - 1) as nat);
            assert(length_bytes@.subrange(1, index + 1).drop_last() =~= seen);
        }
        length = length * 256 + length_bytes[index] as usize;
        index += 1;
    }
    if length < 0x80 {
        return Err(Asn1DerError::InvalidEncoding);
    }
    Ok((length, count + 1))
}

/// Computes the number of bytes that the length field of `length` takes,
/// without encoding it.
pub fn get_encoded_length(length: usize) -> (size: usize)
    ensures
        size == length_field_len(length as nat),
        1 <= size <= 9,
{
    proof {
        lemma_length_field_len(length as nat);
    }
    if length > 0x7f {
        byte_len(length as u64) + 1
    } else {
        1
    }
}

/// Writes the canonical length field of `length` to the start of `buffer`;
/// the bytes behind the field stay as they are.
pub fn encode(length: usize, buffer: &mut [u8])
    requires
        old(buffer)@.len() >= length_field_len(length as nat),
    ensures
        final(buffer)@.len() == old(buffer)@.len(),
        final(buffer)@ == length_field(length as nat) + old(buffer)@.skip(
            length_field_len(length as nat) as int,
        ),
{
    let byte_count: usize = get_encoded_length(length);
    proof {
        lemma_length_field_len(length as nat);
    }
    if byte_count > 1 {
        let digits: usize = byte_count - 1;
        buffer[0] = (0x80 + digits) as u8;
        let mut rest: usize = length;
        let mut index: usize = byte_count;
        proof {
            assert(be_bytes(length as nat, digits as nat) =~= be_bytes(rest as nat, digits as nat)
                + buffer@.subrange(index as int, byte_count as int));
        }
        while index > 1
            invariant
                1 <= index <= byte_count <= buffer@.len(),
                digits == byte_count - 1,
                buffer@.len() == old(buffer)@.len(),
                buffer@[0] == (0x80 + digits) as u8,
                buffer@.skip(byte_count as int) == old(buffer)@.skip(byte_count as int),
                be_bytes(length as nat, digits as nat) == be_bytes(rest as nat, (index - 1) as nat)
                    + buffer@.subrange(index as int, byte_count as int),
            decreases index,
        {
            let ghost before = buffer@;
            index -= 1;
            buffer[index] = (rest % 256) as u8;
            proof {
                assert(buffer@.skip(byte_count as int) =~= before.skip(byte_count as int));
                assert(buffer@.subrange(index as int, byte_count as int) =~= seq![
                    (rest % 256) as u8,
                ] + before.subrange(index + 1, byte_count as int));
                assert(be_bytes(rest as nat, index as nat) + before.subrange(
                    index + 1,
                    byte_count as int,
                ) =~= be_bytes((rest / 256) as nat, (index - 1) as nat) + buffer@.subrange(
                    index as int,
                    byte_count as int,
                ));
            }
            rest = rest / 256;
        }
        proof {
            assert(be_bytes(rest as nat, 0) =~= Seq::<u8>::empty());
            assert(buffer@ =~= length_field(length as nat) + old(buffer)@.skip(byte_count as int));
        }
    } else {
        buffer[0] = length as u8;
        proof {
            assert(buffer@ =~= length_field(length as nat) + old(buffer)@.skip(1));
        }
    }
}

} // verus!
