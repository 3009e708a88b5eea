//! Big-endian unsigned integers: the model and the two conversions.

use vstd::prelude::*;
use vstd::std_specs::bits::u64_leading_zeros;

verus! {

/// The number that a big-endian byte string denotes.
pub open spec fn be_value(bytes: Seq<u8>) -> nat
    decreases bytes.len(),
{
    if bytes.len() == 0 {
        0
    } else {
        be_value(bytes.drop_last()) * 256 + bytes.last() as nat
    }
}

/// 256 to the power `n`.
pub open spec fn pow256(n: nat) -> nat
    decreases n,
{
    if n == 0 {
        1
    } else {
        256 * pow256((n - 1) as nat)
    }
}

/// The `n` low-order bytes of `value`, most significant first.
pub open spec fn be_bytes(value: nat, n: nat) -> Seq<u8>
    decreases n,
{
    if n == 0 {
        Seq::empty()
    } else {
        be_bytes(value / 256, (n - 1) as nat).push((value % 256) as u8)
    }
}

/// The number of bytes in the shortest big-endian form of `value`; none for zero.
pub open spec fn be_len(value: nat) -> nat
    decreases value,
{
    if value == 0 {
        0
    } else {
        1 + be_len(value / 256)
    }
}

/// The smaller of two lengths.
pub open spec fn shorter(a: nat, b: nat) -> nat {
    if a < b {
        a
    } else {
        b
    }
}

/// A byte string of `n` bytes denotes a number below `256^n`.
pub proof fn lemma_be_value_bound(bytes: Seq<u8>)
    ensures
        be_value(bytes) < pow256(bytes.len()),
    decreases bytes.len(),
{
    if bytes.len() > 0 {
        lemma_be_value_bound(bytes.drop_last());
    }
}

/// `be_bytes` yields exactly `n` bytes.
pub proof fn lemma_be_bytes_len(value: nat, n: nat)
    ensures
        be_bytes(value, n).len() == n,
    decreases n,
{
    if n > 0 {
        lemma_be_bytes_len(value / 256, (n - 1) as nat);
    }
}

/// Writing a number that fits into `n` bytes and reading it back gives the number.
pub proof fn lemma_be_value_of_bytes(value: nat, n: nat)
    requires
        value < pow256(n),
    ensures
        be_value(be_bytes(value, n)) == value,
    decreases n,
{
    if n > 0 {
        let rest = be_bytes(value / 256, (n - 1) as nat);
        lemma_be_value_of_bytes(value / 256, (n - 1) as nat);
        assert(be_bytes(value, n).drop_last() =~= rest);
    }
}

/// Reading a byte string and writing the number back in as many bytes gives the string.
pub proof fn lemma_be_bytes_of_value(bytes: Seq<u8>)
    ensures
        be_bytes(be_value(bytes), bytes.len()) == bytes,
    decreases bytes.len(),
{
    if bytes.len() > 0 {
        lemma_be_bytes_of_value(bytes.drop_last());
        assert(be_value(bytes) / 256 == be_value(bytes.drop_last()));
        assert(be_bytes(be_value(bytes), bytes.len()) =~= bytes);
    } else {
        assert(be_bytes(be_value(bytes), bytes.len()) =~= bytes);
    }
}

/// A number lies below `256^n` exactly when its shortest form has at most `n` bytes.
pub proof fn lemma_be_len_bound(value: nat, n: nat)
    ensures
        value < pow256(n) <==> be_len(value) <= n,
    decreases n,
{
    if n > 0 {
        lemma_be_len_bound(value / 256, (n - 1) as nat);
    }
}

/// A byte string without a leading zero byte is the shortest form of its number.
pub proof fn lemma_be_len_of_value(bytes: Seq<u8>)
    requires
        bytes.len() > 0,
        bytes[0] != 0,
    ensures
        be_len(be_value(bytes)) == bytes.len(),
    decreases bytes.len(),
{
    if bytes.len() == 1 {
        assert(bytes.drop_last().len() == 0);
        assert(be_value(bytes) == bytes[0] as nat);
        assert(be_len(be_value(bytes) / 256) == 0);
    } else {
        lemma_be_len_of_value(bytes.drop_last());
        assert(be_value(bytes) / 256 == be_value(bytes.drop_last()));
        assert(be_value(bytes.drop_last()) > 0);
    }
}

/// The shortest form of a number above zero has no leading zero byte.
pub proof fn lemma_be_bytes_minimal(value: nat)
    requires
        value > 0,
    ensures
        be_bytes(value, be_len(value)).len() == be_len(value),
        be_bytes(value, be_len(value))[0] != 0,
    decreases value,
{
    lemma_be_bytes_len(value, be_len(value));
    if value >= 256 {
        lemma_be_bytes_minimal(value / 256);
        lemma_be_bytes_len(value / 256, be_len(value / 256));
    } else {
        assert(be_len(value / 256) == 0);
        assert(be_bytes(value / 256, 0).len() == 0);
    }
}

/// The leading byte of the shortest big-endian form of `value`; zero for zero.
pub open spec fn top_byte(value: nat) -> nat
    decreases value,
{
    if value < 256 {
        value
    } else {
        top_byte(value / 256)
    }
}

/// The shortest form of a number above zero starts with its top byte, which
/// is not zero.
pub proof fn lemma_top_byte(value: nat)
    requires
        value > 0,
    ensures
        0 < top_byte(value) < 256,
        be_bytes(value, be_len(value)).len() == be_len(value),
        be_bytes(value, be_len(value))[0] == top_byte(value),
    decreases value,
{
    lemma_be_bytes_len(value, be_len(value));
    if value >= 256 {
        lemma_top_byte(value / 256);
    } else {
        assert(be_len(value / 256) == 0);
        assert(be_bytes(value / 256, 0).len() == 0);
    }
}

/// A byte string that starts with a byte other than zero has that byte as
/// the top byte of its number.
pub proof fn lemma_top_byte_of_value(bytes: Seq<u8>)
    requires
        bytes.len() > 0,
        bytes[0] != 0,
    ensures
        top_byte(be_value(bytes)) == bytes[0],
{
    lemma_be_len_of_value(bytes);
    lemma_be_bytes_of_value(bytes);
    lemma_be_value_bound(bytes);
    assert(be_value(bytes) > 0) by {
        if be_value(bytes) == 0 {
            assert(be_len(be_value(bytes)) == 0);
        }
    }
    lemma_top_byte(be_value(bytes));
}

/// A zero byte in front of a byte string does not change its number.
pub proof fn lemma_be_value_leading_zero(bytes: Seq<u8>)
    ensures
        be_value(seq![0u8] + bytes) == be_value(bytes),
    decreases bytes.len(),
{
    let padded = seq![0u8] + bytes;
    if bytes.len() == 0 {
        assert(padded.drop_last().len() == 0);
        assert(be_value(padded.drop_last()) == 0);
        assert(padded.last() == 0);
    } else {
        lemma_be_value_leading_zero(bytes.drop_last());
        assert(padded.drop_last() =~= seq![0u8] + bytes.drop_last());
        assert(padded.last() == bytes.last());
    }
}

/// A number of more than eight bytes has eight bytes more than its part
/// above them, and the same top byte.
pub proof fn lemma_high_part(value: nat)
    requires
        value >= 0x1_0000_0000_0000_0000,
    ensures
        be_len(value) == 8 + be_len(value / 0x1_0000_0000_0000_0000),
        top_byte(value) == top_byte(value / 0x1_0000_0000_0000_0000),
{
    reveal_with_fuel(be_len, 9);
    reveal_with_fuel(top_byte, 9);
    assert(value / 256 / 256 / 256 / 256 / 256 / 256 / 256 / 256 == value
        / 0x1_0000_0000_0000_0000);
}

/// The bytes of a number and the top bit of its top byte, from the count of
/// its leading zero bits.
pub proof fn lemma_leading_zeros(value: u64)
    ensures
        0 <= u64_leading_zeros(value) <= 64,
        8 - u64_leading_zeros(value) / 8 == be_len(value as nat),
        value > 0 ==> (u64_leading_zeros(value) % 8 == 0 <==> top_byte(value as nat) >= 128),
    decreases value,
{
    reveal_with_fuel(u64_leading_zeros, 9);
    if value >= 256 {
        lemma_leading_zeros(value / 256);
        assert(value / 2 / 2 / 2 / 2 / 2 / 2 / 2 / 2 == value / 256);
        assert(u64_leading_zeros(value) == u64_leading_zeros(value / 256) - 8);
    } else if value > 0 {
        assert(be_len(value as nat / 256) == 0);
    }
}

/// Computes the number of bytes in the shortest big-endian form of `value`
/// from the position of its highest set bit.
pub fn byte_len(value: u64) -> (len: usize)
    ensures
        len == be_len(value as nat),
        len <= 8,
{
    proof {
        lemma_leading_zeros(value);
    }
    let zeros: u32 = value.leading_zeros();
    8 - (zeros / 8) as usize
}

/// Tells whether the top bit of the top byte of `value` is set.
pub fn top_bit(value: u64) -> (set: bool)
    ensures
        set == (top_byte(value as nat) >= 128),
{
    proof {
        lemma_leading_zeros(value);
    }
    value != 0 && value.leading_zeros() % 8 == 0
}

/// Decodes a big-endian unsigned integer from the first eight bytes of `data`,
/// or from all of them where there are fewer.
pub fn decode(data: &[u8]) -> (value: u64)
    ensures
        value == be_value(data@.take(shorter(data@.len(), 8) as int)),
{
    let count: usize = if data.len() < 8 { data.len() } else { 8 };
    let mut value: u64 = 0;
    let mut i: usize = 0;
    while i < count
        invariant
            i <= count <= 8,
            count <= data@.len(),
            value == be_value(data@.take(i as int)),
        decreases count - i,
    {
        proof {
            lemma_be_value_bound(data@.take(i as int));
            lemma_be_len_bound(be_value(data@.take(i as int)), 7);
            lemma_be_len_bound(be_value(data@.take(i as int)), i as nat);
            reveal_with_fuel(pow256, 8);
            assert(data@.take(i + 1).drop_last() =~= data@.take(i as int));
        }
        value = value * 256 + data[i] as u64;
        i += 1;
    }
    value
}

/// Encodes `value` big-endian into the first eight bytes of `buffer`, or into
/// all of them where there are fewer; the bytes behind them stay as they are.
pub fn encode(buffer: &mut [u8], value: u64)
    ensures
        final(buffer)@.len() == old(buffer)@.len(),
        final(buffer)@ == be_bytes(value as nat, shorter(old(buffer)@.len(), 8)) + old(buffer)@.skip(
            shorter(old(buffer)@.len(), 8) as int,
        ),
{
    let count: usize = if buffer.len() < 8 { buffer.len() } else { 8 };
    let mut rest: u64 = value;
    let mut i: usize = count;
    proof {
        lemma_be_bytes_len(value as nat, count as nat);
        assert(be_bytes(value as nat, count as nat) =~= be_bytes(rest as nat, i as nat)
            + buffer@.subrange(i as int, count as int));
    }
    while i > 0
        invariant
            i <= count <= 8,
            count == shorter(old(buffer)@.len(), 8),
            buffer@.len() == old(buffer)@.len(),
            buffer@.skip(count as int) == old(buffer)@.skip(count as int),
            be_bytes(value as nat, count as nat) == be_bytes(rest as nat, i as nat) + buffer@.subrange(
                i as int,
                count as int,
            ),
        decreases i,
    {
        let ghost before = buffer@;
        i -= 1;
        buffer[i] = (rest % 256) as u8;
        proof {
            assert(buffer@.skip(count as int) =~= before.skip(count as int));
            assert(buffer@.subrange(i as int, count as int) =~= seq![(rest % 256) as u8]
                + before.subrange(i + 1, count as int));
            assert(be_bytes(rest as nat, (i + 1) as nat) + before.subrange(i + 1, count as int)
                =~= be_bytes((rest / 256) as nat, i as nat) + buffer@.subrange(
                i as int,
                count as int,
            ));
        }
        rest = rest / 256;
    }
    proof {
        assert(buffer@ =~= be_bytes(value as nat, count as nat) + old(buffer)@.skip(count as int)) by {
            assert(be_bytes(rest as nat, 0) =~= Seq::<u8>::empty());
            assert(buffer@ =~= buffer@.subrange(0, count as int) + buffer@.skip(count as int));
        }
    }
}

} // verus!
