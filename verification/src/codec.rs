//! Hiding a message in a pixel payload and recovering it: the header's 32
//! digits go into payload bytes `[0, 32)` by parity, the message's digits into
//! the bytes from the body offset on, and every other byte is left untouched.

use vstd::prelude::*;
use vstd::slice::slice_index_get;
use vstd::slice::slice_subrange;
use vstd::string::StrSliceExecFns;
use vstd::string::StringExecFns;
use vstd::utf8::decode_utf8;
use vstd::utf8::encode_utf8;
use vstd::utf8::valid_utf8;

use crate::bits::bin_string_to_ascii;
use crate::bits::bits_of_bytes;
use crate::bits::bits_value;
use crate::bits::bytes_of_bits;
use crate::bits::is_bit_string;
use crate::bits::lemma_bits_of_bytes_len;
use crate::bits::lemma_bytes_of_bits_of_bytes;
use crate::bits::string_to_binary;
use crate::error::StegoError;
use crate::header::create_msg_header;
use crate::header::header_bits;
use crate::header::lemma_header_bits_len;
use crate::header::lemma_header_round_trip;
use crate::header::parse_msg_header;
use crate::locator::lemma_payload_start_append;
use crate::locator::lemma_payload_start_bounds;
use crate::locator::lemma_payload_start_take;
use crate::locator::lf_free;
use crate::locator::locate_payload;
use crate::locator::payload_start;
use crate::locator::spec_payload;
use crate::parity::encode_bit;
use crate::parity::lemma_parity_round_trip;
use crate::parity::parity_bit;
use crate::parity::parity_bits;
use crate::parity::spec_encode_bit;

verus! {

/// The digit string a message embeds as: the digits of its UTF-8 bytes.
pub open spec fn msg_bits(msg: Seq<char>) -> Seq<char> {
    bits_of_bytes(encode_utf8(msg))
}

/// The transformed pixel payload: header digits carried by bytes `[0, 32)`,
/// message digits by bytes `[bo, bo + m.len())`, all other bytes unchanged.
pub open spec fn spec_encode_payload(p: Seq<u8>, hdr: Seq<char>, m: Seq<char>, bo: int) -> Seq<
    u8,
> {
    Seq::new(
        p.len(),
        |i: int|
            if 0 <= i < 32 {
                spec_encode_bit(p[i], hdr[i])
            } else if bo <= i < bo + m.len() {
                spec_encode_bit(p[i], m[i - bo])
            } else {
                p[i]
            },
    )
}

/// What encoding a whole file yields: the header lines unchanged, then the
/// transformed payload — or the exact error. The body offset is `32 + depth`;
/// `Overflow` when the message's bit length or that offset does not fit 16
/// bits, `Range` when the payload cannot hold header and message.
pub open spec fn spec_encode_image(bytes: Seq<u8>, msg: Seq<char>, depth: int) -> Result<
    Seq<u8>,
    StegoError,
> {
    let bits = msg_bits(msg);
    let bo = 32 + depth;
    let ps = payload_start(bytes);
    let p = bytes.skip(ps);
    if bits.len() > 65535 || bo > 65535 {
        Err(StegoError::Overflow)
    } else if p.len() < bo + bits.len() {
        Err(StegoError::Range)
    } else {
        Ok(bytes.take(ps) + spec_encode_payload(p, header_bits(bits.len(), bo as nat), bits, bo))
    }
}

/// What decoding a whole file yields: the bytes regrouped from the parities
/// at the body offset the header names — or the exact error.
pub open spec fn spec_decode_image(bytes: Seq<u8>) -> Result<Seq<u8>, StegoError> {
    let p = spec_payload(bytes);
    if p.len() < 32 {
        Err(StegoError::Range)
    } else {
        let hdr = parity_bits(p.take(32));
        let l = bits_value(hdr.subrange(0, 16));
        let bo = bits_value(hdr.subrange(16, 32));
        if p.len() < bo + l {
            Err(StegoError::Range)
        } else if l % 8 != 0 {
            Err(StegoError::Parse)
        } else {
            Ok(bytes_of_bits(parity_bits(p.subrange(bo as int, (bo + l) as int))))
        }
    }
}

/// Transforms a pixel payload: the first 32 bytes take the header's digits,
/// the `msg.len()` bytes from the body offset on take the message's digits,
/// and every other byte is copied unchanged.
pub fn encode_msg(pixels: &[u8], header: &String, msg: &String, body_offset: &usize) -> (r: Vec<
    u8,
>)
    requires
        header@.len() == 32,
        is_bit_string(header@),
        is_bit_string(msg@),
        *body_offset >= 32,
        pixels@.len() >= *body_offset + msg@.len(),
    ensures
        r@ == spec_encode_payload(pixels@, header@, msg@, *body_offset as int),
{
    let ghost target = spec_encode_payload(pixels@, header@, msg@, *body_offset as int);
    let n = pixels.len();
    let bo = *body_offset;
    let mlen = msg.as_str().unicode_len();
    let mut out: Vec<u8> = Vec::new();
    let mut i: usize = 0;
    while i < n
        invariant
            i <= n,
            n == pixels@.len(),
            mlen == msg@.len(),
            bo == *body_offset,
            bo >= 32,
            pixels@.len() >= bo + mlen,
            header@.len() == 32,
            is_bit_string(header@),
            is_bit_string(msg@),
            target == spec_encode_payload(pixels@, header@, msg@, bo as int),
            out@.len() == i,
            forall|k: int| 0 <= k < i ==> out@[k] == target[k],
        decreases n - i,
    {
        let b = *slice_index_get(pixels, i);
        let nb: u8 = if i < 32 {
            encode_bit(&b, header.as_str().get_char(i))
        } else if bo <= i && i < bo + mlen {
            encode_bit(&b, msg.as_str().get_char(i - bo))
        } else {
            b
        };
        out.push(nb);
        i = i + 1;
    }
    proof {
        assert(out@ =~= target);
    }
    out
}

/// Hides `msg` in the image bytes and returns the whole new file contents.
/// The message body is placed `depth` bytes beyond the 32-byte header, at
/// absolute payload offset `32 + depth`. Fails with `Overflow` when the
/// message's bit length or that offset does not fit 16 bits, and with `Range`
/// when the payload is shorter than offset plus bit length; either failure
/// leaves nothing written anywhere.
pub fn encode_image(bytes: &Vec<u8>, msg: &String, depth: usize) -> (r: Result<
    Vec<u8>,
    StegoError,
>)
    ensures
        match r {
            Ok(v) => spec_encode_image(bytes@, msg@, depth as int) == Ok::<Seq<u8>, StegoError>(
                v@,
            ),
            Err(e) => spec_encode_image(bytes@, msg@, depth as int) == Err::<Seq<u8>, StegoError>(
                e,
            ),
        },
{
    let bits = string_to_binary(msg);
    let nbits = bits.as_str().unicode_len();
    if nbits > 65535 {
        return Err(StegoError::Overflow);
    }
    if depth > 65535 - 32 {
        return Err(StegoError::Overflow);
    }
    let bo = 32 + depth;
    let ps = locate_payload(bytes);
    let plen = bytes.len() - ps;
    if plen < bo + nbits {
        return Err(StegoError::Range);
    }
    let header = create_msg_header(&(nbits as u16), &(bo as u16));
    let payload = slice_subrange(bytes.as_slice(), ps, bytes.len());
    let new_payload = encode_msg(payload, &header, &bits, &bo);
    let mut out: Vec<u8> = Vec::new();
    let prefix = slice_subrange(bytes.as_slice(), 0, ps);
    out.extend_from_slice(prefix);
    let mut tail = new_payload;
    out.append(&mut tail);
    proof {
        assert(out@ =~= bytes@.take(ps as int) + spec_encode_payload(
            bytes@.skip(ps as int),
            header_bits(nbits as nat, bo as nat),
            bits@,
            bo as int,
        ));
    }
    Ok(out)
}

/// Reads the digits carried by payload bytes `[from, from + count)`.
fn extract_bits(p: &[u8], from: usize, count: usize) -> (r: String)
    requires
        from + count <= p@.len(),
    ensures
        r@ == parity_bits(p@.subrange(from as int, from + count)),
        r@.len() == count,
        is_bit_string(r@),
{
    let mut r = String::new();
    let mut i: usize = 0;
    let plen = p.len();
    proof {
        assert(r@ =~= parity_bits(p@.subrange(from as int, from as int)));
    }
    while i < count
        invariant
            i <= count,
            plen == p@.len(),
            from + count <= plen,
            r@ == parity_bits(p@.subrange(from as int, from + i)),
        decreases count - i,
    {
        let b = *slice_index_get(p, from + i);
        if b % 2 == 0 {
            r.append("0");
        } else {
            r.append("1");
        }
        proof {
            reveal_strlit("0");
            reveal_strlit("1");
            assert("0"@ =~= seq!['0']);
            assert("1"@ =~= seq!['1']);
            assert(r@ =~= parity_bits(p@.subrange(from as int, from + i + 1)));
        }
        i = i + 1;
    }
    proof {
        assert forall|j: int| 0 <= j < r@.len() implies crate::bits::is_bit_char(
            #[trigger] r@[j],
        ) by {
            assert(r@[j] == crate::parity::parity_bit(p@.subrange(from as int, from + count)[j]));
        }
    }
    r
}

/// Recovers the hidden message's bytes: the header is read from the first 32
/// payload bytes' parities, the message digits from `msg_bit_len` bytes at
/// the body offset, and the digits are regrouped into bytes. Fails with
/// `Range` when the payload is shorter than 32, or than offset plus length;
/// with `Parse` when the length is not a whole number of 8-digit groups.
pub fn decode_image(bytes: &Vec<u8>) -> (r: Result<Vec<u8>, StegoError>)
    ensures
        match r {
            Ok(v) => spec_decode_image(bytes@) == Ok::<Seq<u8>, StegoError>(v@),
            Err(e) => spec_decode_image(bytes@) == Err::<Seq<u8>, StegoError>(e),
        },
{
    let ps = locate_payload(bytes);
    let payload = slice_subrange(bytes.as_slice(), ps, bytes.len());
    if payload.len() < 32 {
        return Err(StegoError::Range);
    }
    let hdr = extract_bits(payload, 0, 32);
    proof {
        assert(payload@.subrange(0, 32) =~= payload@.take(32));
    }
    let (l, bo) = parse_msg_header(&hdr);
    let l_us = l as usize;
    let bo_us = bo as usize;
    if payload.len() < bo_us + l_us {
        return Err(StegoError::Range);
    }
    if l_us % 8 != 0 {
        return Err(StegoError::Parse);
    }
    let mbits = extract_bits(payload, bo_us, l_us);
    match bin_string_to_ascii(&mbits) {
        Ok(v) => Ok(v),
        Err(_) => Err(StegoError::Parse),
    }
}

/// Relies on String::from_utf8: it succeeds exactly on valid UTF-8 input and
/// yields the text those bytes encode.
#[verifier::external_body]
fn bytes_to_text(bytes: Vec<u8>) -> (r: Option<String>)
    ensures
        r is Some <==> valid_utf8(bytes@),
        r matches Some(s) ==> s@ == decode_utf8(bytes@),
{
    match String::from_utf8(bytes) {
        Ok(s) => Some(s),
        Err(_) => None,
    }
}

/// Recovers the hidden message as text: the decoded bytes read as UTF-8.
/// Fails with `Utf8` when those bytes are not valid UTF-8, and otherwise
/// exactly as `decode_image` fails.
pub fn decode_image_text(bytes: &Vec<u8>) -> (r: Result<String, StegoError>)
    ensures
        match r {
            Ok(s) => (spec_decode_image(bytes@) matches Ok(m) && valid_utf8(m) && s@
                == decode_utf8(m)),
            Err(e) => if e == StegoError::Utf8 {
                spec_decode_image(bytes@) matches Ok(m) && !valid_utf8(m)
            } else {
                spec_decode_image(bytes@) == Err::<Seq<u8>, StegoError>(e)
            },
        },
{
    match decode_image(bytes) {
        Ok(v) => match bytes_to_text(v) {
            Some(s) => Ok(s),
            None => Err(StegoError::Utf8),
        },
        Err(e) => Err(e),
    }
}

/// Overflow rejection: a message whose bit length does not fit the header's
/// 16-bit field is refused outright, whatever the image and depth.
pub proof fn lemma_overflow_rejection(bytes: Seq<u8>, msg: Seq<char>, depth: int)
    requires
        msg_bits(msg).len() > 65535,
    ensures
        spec_encode_image(bytes, msg, depth) == Err::<Seq<u8>, StegoError>(StegoError::Overflow),
{
}

/// Header isolation: each of the first 32 payload bytes of the output differs
/// from the source byte at the same offset by at most one in magnitude, and
/// the parity pattern there spells out exactly the header built from the
/// message's bit length and the body offset `32 + depth`.
pub proof fn lemma_header_isolation(bytes: Seq<u8>, msg: Seq<char>, depth: int)
    requires
        0 <= depth,
        spec_encode_image(bytes, msg, depth) is Ok,
    ensures
        ({
            let out = spec_encode_image(bytes, msg, depth)->Ok_0;
            let ps = payload_start(bytes);
            &&& out.len() == bytes.len()
            &&& forall|i: int|
                0 <= i < 32 ==> -1 <= (#[trigger] out[ps + i] as int) - (bytes[ps + i] as int)
                    <= 1
            &&& parity_bits(out.subrange(ps, ps + 32)) == header_bits(
                msg_bits(msg).len(),
                (32 + depth) as nat,
            )
        }),
{
    let ps = payload_start(bytes);
    let p = bytes.skip(ps);
    let bits = msg_bits(msg);
    let bo = 32 + depth;
    let hdr = header_bits(bits.len(), bo as nat);
    let encp = spec_encode_payload(p, hdr, bits, bo);
    let out = spec_encode_image(bytes, msg, depth)->Ok_0;
    lemma_payload_start_bounds(bytes);
    lemma_header_bits_len(bits.len(), bo as nat);
    assert(out =~= bytes.take(ps) + encp);
    assert forall|i: int|
        0 <= i < 32 implies -1 <= (#[trigger] out[ps + i] as int) - (bytes[ps + i] as int) <= 1 by {
        assert(out[ps + i] == encp[i]);
        assert(bytes[ps + i] == p[i]);
    }
    assert(out.subrange(ps, ps + 32) =~= encp.subrange(0, 32));
    assert forall|i: int| 0 <= i < 32 implies parity_bit(encp.subrange(0, 32)[i]) == hdr[i] by {
        lemma_parity_round_trip(p[i], hdr[i]);
    }
    assert(parity_bits(out.subrange(ps, ps + 32)) =~= hdr);
}

/// Non-overlap and offset correctness: the header lines and the payload bytes
/// outside `[0, 32)` and `[32 + depth, 32 + depth + bit length)` are
/// byte-identical between source and output, and the message's digits stand by
/// parity at exactly the payload bytes from `32 + depth` on.
pub proof fn lemma_non_overlap(bytes: Seq<u8>, msg: Seq<char>, depth: int)
    requires
        0 <= depth,
        spec_encode_image(bytes, msg, depth) is Ok,
    ensures
        ({
            let out = spec_encode_image(bytes, msg, depth)->Ok_0;
            let ps = payload_start(bytes);
            let bo = 32 + depth;
            let len = msg_bits(msg).len();
            &&& out.len() == bytes.len()
            &&& forall|i: int| 0 <= i < ps ==> out[i] == bytes[i]
            &&& forall|i: int| 32 <= i < bo ==> #[trigger] out[ps + i] == bytes[ps + i]
            &&& forall|i: int|
                bo + len <= i < bytes.len() - ps ==> #[trigger] out[ps + i] == bytes[ps + i]
            &&& parity_bits(out.subrange(ps + bo, ps + bo + len)) == msg_bits(msg)
        }),
{
    let ps = payload_start(bytes);
    let p = bytes.skip(ps);
    let bits = msg_bits(msg);
    let bo = 32 + depth;
    let hdr = header_bits(bits.len(), bo as nat);
    let encp = spec_encode_payload(p, hdr, bits, bo);
    let out = spec_encode_image(bytes, msg, depth)->Ok_0;
    lemma_payload_start_bounds(bytes);
    lemma_bits_of_bytes_len(encode_utf8(msg));
    assert(out =~= bytes.take(ps) + encp);
    assert forall|i: int| 32 <= i < bo implies #[trigger] out[ps + i] == bytes[ps + i] by {
        assert(out[ps + i] == encp[i]);
        assert(bytes[ps + i] == p[i]);
    }
    assert forall|i: int|
        bo + bits.len() <= i < bytes.len() - ps implies #[trigger] out[ps + i] == bytes[ps
        + i] by {
        assert(out[ps + i] == encp[i]);
        assert(bytes[ps + i] == p[i]);
    }
    assert(out.subrange(ps + bo, ps + bo + bits.len()) =~= encp.subrange(bo, bo + bits.len()));
    assert forall|j: int|
        0 <= j < bits.len() implies parity_bit(encp.subrange(bo, bo + bits.len())[j])
        == bits[j] by {
        assert(encp[bo + j] == spec_encode_bit(p[bo + j], bits[j]));
        lemma_parity_round_trip(p[bo + j], bits[j]);
    }
    assert(parity_bits(out.subrange(ps + bo, ps + bo + bits.len())) =~= bits);
}

/// Round trip: whenever the message and depth fit the header's 16-bit fields,
/// the payload is long enough, and no transformed payload byte becomes the
/// line-feed byte, decoding the encoder's output recovers exactly the
/// message's UTF-8 bytes — and they read back as the original text.
pub proof fn lemma_round_trip(bytes: Seq<u8>, msg: Seq<char>, depth: int)
    requires
        0 <= depth,
        32 + depth <= 65535,
        msg_bits(msg).len() <= 65535,
        bytes.len() - payload_start(bytes) >= 32 + depth + msg_bits(msg).len(),
        lf_free(spec_encode_image(bytes, msg, depth)->Ok_0.skip(payload_start(bytes))),
    ensures
        spec_encode_image(bytes, msg, depth) is Ok,
        spec_decode_image(spec_encode_image(bytes, msg, depth)->Ok_0) == Ok::<
            Seq<u8>,
            StegoError,
        >(encode_utf8(msg)),
        valid_utf8(encode_utf8(msg)),
        decode_utf8(encode_utf8(msg)) == msg,
{
    let ps = payload_start(bytes);
    let p = bytes.skip(ps);
    let bits = msg_bits(msg);
    let bo = 32 + depth;
    let hdr = header_bits(bits.len(), bo as nat);
    lemma_payload_start_bounds(bytes);
    lemma_bits_of_bytes_len(encode_utf8(msg));
    lemma_header_bits_len(bits.len(), bo as nat);
    assert(p.len() == bytes.len() - ps);
    assert(spec_encode_image(bytes, msg, depth) is Ok);
    let encp = spec_encode_payload(p, hdr, bits, bo);
    let out = spec_encode_image(bytes, msg, depth)->Ok_0;
    assert(out =~= bytes.take(ps) + encp);
    assert(out.skip(ps) =~= encp);
    lemma_payload_start_take(bytes);
    lemma_payload_start_append(bytes.take(ps), encp);
    assert(payload_start(out) == ps);
    let p2 = spec_payload(out);
    assert(p2 =~= encp);
    assert(p2.len() >= 32);
    assert forall|i: int| 0 <= i < 32 implies parity_bit(p2.take(32)[i]) == hdr[i] by {
        assert(p2.take(32)[i] == encp[i]);
        assert(encp[i] == spec_encode_bit(p[i], hdr[i]));
        lemma_parity_round_trip(p[i], hdr[i]);
    }
    assert(parity_bits(p2.take(32)) =~= hdr);
    lemma_header_round_trip(bits.len(), bo as nat);
    assert(bits_value(parity_bits(p2.take(32)).subrange(0, 16)) == bits.len());
    assert(bits_value(parity_bits(p2.take(32)).subrange(16, 32)) == bo);
    assert(bits.len() % 8 == 0);
    assert forall|j: int|
        0 <= j < bits.len() implies parity_bit(p2.subrange(bo, bo + bits.len())[j])
        == bits[j] by {
        assert(p2.subrange(bo, bo + bits.len())[j] == encp[bo + j]);
        assert(encp[bo + j] == spec_encode_bit(p[bo + j], bits[j]));
        lemma_parity_round_trip(p[bo + j], bits[j]);
    }
    assert(parity_bits(p2.subrange(bo, bo + bits.len())) =~= bits);
    lemma_bytes_of_bits_of_bytes(encode_utf8(msg));
    assert(spec_decode_image(out) == Ok::<Seq<u8>, StegoError>(encode_utf8(msg)));
    vstd::utf8::encode_utf8_valid_utf8(msg);
    vstd::utf8::encode_utf8_decode_utf8(msg);
}

} // verus!
