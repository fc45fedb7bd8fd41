//! The fixed 32-digit descriptor at the start of the pixel payload: a 16-bit
//! big-endian message bit length followed by a 16-bit big-endian body offset.

use vstd::prelude::*;

use crate::bits::bits_of;
use crate::bits::bits_value;
use crate::bits::is_bit_string;
use crate::bits::lemma_bits_of_len;
use crate::bits::lemma_bits_value_of_bits;
use crate::bits::lemma_two_pow_values;
use crate::bits::push_bits;
use crate::bits::parse_bits;

verus! {

/// The header's digit string for a message bit length and a body offset.
pub open spec fn header_bits(msg_bit_len: nat, body_offset: nat) -> Seq<char> {
    bits_of(msg_bit_len, 16) + bits_of(body_offset, 16)
}

/// A header holds 32 binary digits.
pub proof fn lemma_header_bits_len(msg_bit_len: nat, body_offset: nat)
    ensures
        header_bits(msg_bit_len, body_offset).len() == 32,
        is_bit_string(header_bits(msg_bit_len, body_offset)),
{
    lemma_bits_of_len(msg_bit_len, 16);
    lemma_bits_of_len(body_offset, 16);
}

/// Parsing a built header hands both fields back unchanged.
pub proof fn lemma_header_round_trip(msg_bit_len: nat, body_offset: nat)
    requires
        msg_bit_len <= 65535,
        body_offset <= 65535,
    ensures
        bits_value(header_bits(msg_bit_len, body_offset).subrange(0, 16)) == msg_bit_len,
        bits_value(header_bits(msg_bit_len, body_offset).subrange(16, 32)) == body_offset,
{
    lemma_bits_of_len(msg_bit_len, 16);
    lemma_bits_of_len(body_offset, 16);
    lemma_two_pow_values();
    lemma_bits_value_of_bits(msg_bit_len, 16);
    lemma_bits_value_of_bits(body_offset, 16);
    assert(header_bits(msg_bit_len, body_offset).subrange(0, 16) =~= bits_of(msg_bit_len, 16));
    assert(header_bits(msg_bit_len, body_offset).subrange(16, 32) =~= bits_of(body_offset, 16));
}

/// Builds the 32-digit header: 16 big-endian digits for the message bit
/// length, then 16 for the body offset.
pub fn create_msg_header(length: &u16, body_offset: &u16) -> (r: String)
    ensures
        r@ == header_bits(*length as nat, *body_offset as nat),
        r@.len() == 32,
        is_bit_string(r@),
{
    let mut r = String::new();
    push_bits(&mut r, *length, 16);
    push_bits(&mut r, *body_offset, 16);
    proof {
        assert(r@ =~= header_bits(*length as nat, *body_offset as nat));
        lemma_header_bits_len(*length as nat, *body_offset as nat);
    }
    r
}

/// Splits a 32-digit header at digit 16 and reads both fields.
pub fn parse_msg_header(bits: &String) -> (r: (u16, u16))
    requires
        bits@.len() == 32,
        is_bit_string(bits@),
    ensures
        r.0 as nat == bits_value(bits@.subrange(0, 16)),
        r.1 as nat == bits_value(bits@.subrange(16, 32)),
{
    let msg_bit_len = parse_bits(bits, 0, 16);
    let body_offset = parse_bits(bits, 16, 16);
    (msg_bit_len, body_offset)
}

} // verus!
