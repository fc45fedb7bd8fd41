//! Embedding one binary digit per byte in the byte's parity.

use vstd::prelude::*;

use crate::bits::is_bit_char;

verus! {

/// The digit a byte carries: `'0'` when the byte is even, `'1'` when odd.
pub open spec fn parity_bit(b: u8) -> char {
    if b % 2 == 0 {
        '0'
    } else {
        '1'
    }
}

/// The byte that carries `bit` in place of `b`: `b` itself when its parity
/// already matches, otherwise the neighbouring byte of the requested parity.
/// `b + 1` serves except for 255, where only `254` keeps the change inside
/// `u8`; either way the result differs from `b` by at most one.
pub open spec fn spec_encode_bit(b: u8, bit: char) -> u8 {
    if parity_bit(b) == bit {
        b
    } else if b == 255 {
        254
    } else {
        (b + 1) as u8
    }
}

/// The digits the bytes of `s` carry, in order.
pub open spec fn parity_bits(s: Seq<u8>) -> Seq<char> {
    Seq::new(s.len(), |i: int| parity_bit(s[i]))
}

/// Forces the parity of `byte` to carry `bit`, changing its value by at most one.
pub fn encode_bit(byte: &u8, bit: char) -> (r: u8)
    requires
        is_bit_char(bit),
    ensures
        r == spec_encode_bit(*byte, bit),
        parity_bit(r) == bit,
        *byte - 1 <= r <= *byte + 1,
{
    let b = *byte;
    if bit == '0' {
        if b % 2 == 0 {
            b
        } else if b == 255 {
            254
        } else {
            b + 1
        }
    } else {
        if b % 2 == 0 {
            b + 1
        } else {
            b
        }
    }
}

/// Reads the embedded digit back out of a byte's parity.
pub fn decode_bit(byte: u8) -> (r: char)
    ensures
        r == parity_bit(byte),
{
    if byte % 2 == 0 {
        '0'
    } else {
        '1'
    }
}

/// Every byte the embedder produces hands the same digit back to the reader.
pub proof fn lemma_parity_round_trip(b: u8, bit: char)
    requires
        is_bit_char(bit),
    ensures
        parity_bit(spec_encode_bit(b, bit)) == bit,
{
}

} // verus!
