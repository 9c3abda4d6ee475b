//! Bit streams: the most-significant-bit-first view of byte strings, and the
//! packing of a bit stream back into bytes.
use vstd::prelude::*;

verus! {

/// Bit `t` (0 = most significant) of the byte `b`.
pub open spec fn bit_of(b: u8, t: int) -> bool {
    (b >> ((7 - t) as u8)) & 1u8 == 1u8
}

/// The bits of a byte string, eight per byte, most significant bit first.
pub open spec fn bits_of_bytes(bytes: Seq<u8>) -> Seq<bool> {
    Seq::new(bytes.len() * 8, |i: int| bit_of(bytes[i / 8], i % 8))
}

/// Bit `j` of a stream as a number; positions outside the stream read as 0.
pub open spec fn bit_value(bits: Seq<bool>, j: int) -> int {
    if 0 <= j < bits.len() && bits[j] {
        1
    } else {
        0
    }
}

/// The number whose binary digits are the `t` stream bits starting at `start`.
pub open spec fn digits(bits: Seq<bool>, start: int, t: nat) -> int
    decreases t,
{
    if t == 0 {
        0
    } else {
        2 * digits(bits, start, (t - 1) as nat) + bit_value(bits, start + t - 1)
    }
}

/// Byte `k` of a stream packed eight bits per byte (missing bits are zero).
pub open spec fn byte_of_bits(bits: Seq<bool>, k: int) -> u8 {
    digits(bits, 8 * k, 8) as u8
}

/// Number of bytes needed to hold `n` bits.
pub open spec fn bytes_for_bits(n: nat) -> nat {
    (n + 7) / 8
}

/// A bit stream packed into bytes, the last byte padded with zero bits.
pub open spec fn bytes_of_bits(bits: Seq<bool>) -> Seq<u8> {
    Seq::new(bytes_for_bits(bits.len()), |k: int| byte_of_bits(bits, k))
}

/// `2^t`.
pub open spec fn two_pow(t: nat) -> int
    decreases t,
{
    if t == 0 {
        1
    } else {
        2 * two_pow((t - 1) as nat)
    }
}

/// `t` bits read as a number are below `2^t`.
pub proof fn lemma_digits_bound(bits: Seq<bool>, start: int, t: nat)
    ensures
        0 <= digits(bits, start, t) < two_pow(t),
    decreases t,
{
    if t > 0 {
        lemma_digits_bound(bits, start, (t - 1) as nat);
    }
}

proof fn lemma_u8_from_bits(b: u8)
    by (bit_vector)
    ensures
        b == ((b >> 7u8) & 1u8) * 128 + ((b >> 6u8) & 1u8) * 64 + ((b >> 5u8) & 1u8) * 32 + ((b >> 4u8)
            & 1u8) * 16 + ((b >> 3u8) & 1u8) * 8 + ((b >> 2u8) & 1u8) * 4 + ((b >> 1u8) & 1u8) * 2 + ((b
            >> 0u8) & 1u8),
        (b >> 7u8) & 1u8 <= 1,
        (b >> 6u8) & 1u8 <= 1,
        (b >> 5u8) & 1u8 <= 1,
        (b >> 4u8) & 1u8 <= 1,
        (b >> 3u8) & 1u8 <= 1,
        (b >> 2u8) & 1u8 <= 1,
        (b >> 1u8) & 1u8 <= 1,
        (b >> 0u8) & 1u8 <= 1,
{
}

proof fn lemma_bits_to_u8(x: u8, b0: u8, b1: u8, b2: u8, b3: u8, b4: u8, b5: u8, b6: u8, b7: u8)
    by (bit_vector)
    requires
        b0 <= 1 && b1 <= 1 && b2 <= 1 && b3 <= 1 && b4 <= 1 && b5 <= 1 && b6 <= 1 && b7 <= 1,
        x == b0 * 128 + b1 * 64 + b2 * 32 + b3 * 16 + b4 * 8 + b5 * 4 + b6 * 2 + b7,
    ensures
        (x >> 7u8) & 1u8 == b0,
        (x >> 6u8) & 1u8 == b1,
        (x >> 5u8) & 1u8 == b2,
        (x >> 4u8) & 1u8 == b3,
        (x >> 3u8) & 1u8 == b4,
        (x >> 2u8) & 1u8 == b5,
        (x >> 1u8) & 1u8 == b6,
        (x >> 0u8) & 1u8 == b7,
{
}

/// The eight digits starting at `start` spelled out.
proof fn lemma_digits_8(bits: Seq<bool>, start: int)
    ensures
        digits(bits, start, 8) == bit_value(bits, start) * 128 + bit_value(bits, start + 1) * 64
            + bit_value(bits, start + 2) * 32 + bit_value(bits, start + 3) * 16 + bit_value(
            bits,
            start + 4,
        ) * 8 + bit_value(bits, start + 5) * 4 + bit_value(bits, start + 6) * 2 + bit_value(
            bits,
            start + 7,
        ),
{
    reveal_with_fuel(digits, 9);
}

/// Eight stream bits that spell out the bits of `b` pack back into `b`.
pub proof fn lemma_byte_of_bits_of_byte(bits: Seq<bool>, k: int, b: u8)
    requires
        forall|t: int| 0 <= t < 8 ==> 0 <= #[trigger] (8 * k + t) < bits.len(),
        forall|t: int| 0 <= t < 8 ==> bits[8 * k + t] == bit_of(b, t),
    ensures
        byte_of_bits(bits, k) == b,
{
    lemma_digits_8(bits, 8 * k);
    lemma_u8_from_bits(b);
    assert(0 <= 8 * k + 0 < bits.len());
    assert(0 <= 8 * k + 1 < bits.len());
    assert(0 <= 8 * k + 2 < bits.len());
    assert(0 <= 8 * k + 3 < bits.len());
    assert(0 <= 8 * k + 4 < bits.len());
    assert(0 <= 8 * k + 5 < bits.len());
    assert(0 <= 8 * k + 6 < bits.len());
    assert(0 <= 8 * k + 7 < bits.len());
    assert(bits[8 * k + 0] == bit_of(b, 0));
    assert(bits[8 * k + 1] == bit_of(b, 1));
    assert(bits[8 * k + 2] == bit_of(b, 2));
    assert(bits[8 * k + 3] == bit_of(b, 3));
    assert(bits[8 * k + 4] == bit_of(b, 4));
    assert(bits[8 * k + 5] == bit_of(b, 5));
    assert(bits[8 * k + 6] == bit_of(b, 6));
    assert(bits[8 * k + 7] == bit_of(b, 7));
}

/// Bit `t` of a packed byte is the stream bit it was packed from.
pub proof fn lemma_bit_of_byte_of_bits(bits: Seq<bool>, k: int, t: int)
    requires
        0 <= t < 8,
    ensures
        bit_of(byte_of_bits(bits, k), t) == (bit_value(bits, 8 * k + t) == 1),
{
    lemma_digits_8(bits, 8 * k);
    let x = byte_of_bits(bits, k);
    let b0 = bit_value(bits, 8 * k) as u8;
    let b1 = bit_value(bits, 8 * k + 1) as u8;
    let b2 = bit_value(bits, 8 * k + 2) as u8;
    let b3 = bit_value(bits, 8 * k + 3) as u8;
    let b4 = bit_value(bits, 8 * k + 4) as u8;
    let b5 = bit_value(bits, 8 * k + 5) as u8;
    let b6 = bit_value(bits, 8 * k + 6) as u8;
    let b7 = bit_value(bits, 8 * k + 7) as u8;
    lemma_bits_to_u8(x, b0, b1, b2, b3, b4, b5, b6, b7);
}

/// Packing the bits of a byte string gives the byte string back.
pub proof fn lemma_bytes_bits_roundtrip(bytes: Seq<u8>)
    ensures
        bytes_of_bits(bits_of_bytes(bytes)) == bytes,
{
    let bits = bits_of_bytes(bytes);
    assert forall|k: int| 0 <= k < bytes.len() implies byte_of_bits(bits, k) == bytes[k] by {
        assert forall|t: int| 0 <= t < 8 implies 0 <= #[trigger] (8 * k + t) < bits.len() by {}
        assert forall|t: int| 0 <= t < 8 implies bits[8 * k + t] == bit_of(bytes[k], t) by {
            assert((8 * k + t) / 8 == k);
            assert((8 * k + t) % 8 == t);
        }
        lemma_byte_of_bits_of_byte(bits, k, bytes[k]);
    }
    assert(bytes_of_bits(bits) =~= bytes);
}

/// Unpacking packed bits gives the stream back, padded with zero bits.
pub proof fn lemma_bits_bytes_roundtrip(bits: Seq<bool>)
    ensures
        bits_of_bytes(bytes_of_bits(bits)).len() == 8 * bytes_for_bits(bits.len()),
        forall|i: int|
            0 <= i < 8 * bytes_for_bits(bits.len()) ==> #[trigger] bits_of_bytes(
                bytes_of_bits(bits),
            )[i] == (i < bits.len() && bits[i]),
{
    let bytes = bytes_of_bits(bits);
    assert forall|i: int| 0 <= i < 8 * bytes_for_bits(bits.len()) implies #[trigger] bits_of_bytes(
        bytes,
    )[i] == (i < bits.len() && bits[i]) by {
        lemma_bit_of_byte_of_bits(bits, i / 8, i % 8);
    }
}

} // verus!
