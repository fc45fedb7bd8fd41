//! The binary-digit-string model: text is carried as `'0'`/`'1'` characters,
//! eight digits per byte, most significant digit first.

use vstd::prelude::*;
use vstd::string::StrSliceExecFns;
use vstd::string::StringExecFns;

use crate::error::StegoError;

verus! {

/// A binary digit character.
pub open spec fn is_bit_char(c: char) -> bool {
    c == '0' || c == '1'
}

/// Every character of `s` is a binary digit.
pub open spec fn is_bit_string(s: Seq<char>) -> bool {
    forall|i: int| 0 <= i < s.len() ==> is_bit_char(#[trigger] s[i])
}

/// The digit character for a one-bit value.
pub open spec fn bit_char_of(b: nat) -> char {
    if b % 2 == 1 {
        '1'
    } else {
        '0'
    }
}

/// The one-bit value of a digit character.
pub open spec fn bit_value(c: char) -> nat {
    if c == '1' {
        1
    } else {
        0
    }
}

/// The number a digit string denotes, read big-endian.
pub open spec fn bits_value(s: Seq<char>) -> nat
    decreases s.len(),
{
    if s.len() == 0 {
        0
    } else {
        2 * bits_value(s.drop_last()) + bit_value(s.last())
    }
}

/// The width-`w` big-endian digit string of `n` (of its low `w` bits).
pub open spec fn bits_of(n: nat, w: nat) -> Seq<char>
    decreases w,
{
    if w == 0 {
        Seq::empty()
    } else {
        bits_of(n / 2, (w - 1) as nat).push(bit_char_of(n % 2))
    }
}

/// Two raised to `w`.
pub open spec fn two_pow(w: nat) -> nat
    decreases w,
{
    if w == 0 {
        1nat
    } else {
        2 * two_pow((w - 1) as nat)
    }
}

/// The digit string of a byte sequence: eight digits per byte, in order.
pub open spec fn bits_of_bytes(bs: Seq<u8>) -> Seq<char>
    decreases bs.len(),
{
    if bs.len() == 0 {
        Seq::empty()
    } else {
        bits_of(bs.first() as nat, 8) + bits_of_bytes(bs.drop_first())
    }
}

/// The byte sequence a digit string denotes: one byte per whole 8-digit group,
/// in order (digits past the last whole group are ignored).
pub open spec fn bytes_of_bits(s: Seq<char>) -> Seq<u8>
    decreases s.len(),
{
    if s.len() < 8 {
        Seq::empty()
    } else {
        seq![bits_value(s.take(8)) as u8] + bytes_of_bits(s.skip(8))
    }
}

pub proof fn lemma_two_pow_pos(w: nat)
    ensures
        two_pow(w) >= 1,
    decreases w,
{
    if w > 0 {
        lemma_two_pow_pos((w - 1) as nat);
    }
}

pub proof fn lemma_two_pow_mono(a: nat, b: nat)
    requires
        a <= b,
    ensures
        two_pow(a) <= two_pow(b),
    decreases b,
{
    if a < b {
        lemma_two_pow_mono(a, (b - 1) as nat);
        lemma_two_pow_pos((b - 1) as nat);
    }
}

pub proof fn lemma_two_pow_values()
    ensures
        two_pow(8) == 256,
        two_pow(15) == 32768,
        two_pow(16) == 65536,
{
    reveal_with_fuel(two_pow, 17);
}

/// A width-`w` digit string has `w` digits, all binary.
pub proof fn lemma_bits_of_len(n: nat, w: nat)
    ensures
        bits_of(n, w).len() == w,
        is_bit_string(bits_of(n, w)),
    decreases w,
{
    if w > 0 {
        lemma_bits_of_len(n / 2, (w - 1) as nat);
    }
}

/// A digit string of length `w` denotes a number below `two_pow(w)`.
pub proof fn lemma_bits_value_bound(s: Seq<char>)
    ensures
        bits_value(s) < two_pow(s.len()),
    decreases s.len(),
{
    if s.len() > 0 {
        lemma_bits_value_bound(s.drop_last());
    }
}

/// Reading the width-`w` digit string of `n` gives `n` back, whenever `n` fits.
pub proof fn lemma_bits_value_of_bits(n: nat, w: nat)
    requires
        n < two_pow(w),
    ensures
        bits_value(bits_of(n, w)) == n,
    decreases w,
{
    if w > 0 {
        lemma_bits_value_of_bits(n / 2, (w - 1) as nat);
        let s = bits_of(n, w);
        assert(s.drop_last() =~= bits_of(n / 2, (w - 1) as nat));
        assert(s.last() == bit_char_of(n % 2));
    }
}

/// The digit string of a byte sequence: eight binary digits per byte.
pub proof fn lemma_bits_of_bytes_len(bs: Seq<u8>)
    ensures
        bits_of_bytes(bs).len() == 8 * bs.len(),
        is_bit_string(bits_of_bytes(bs)),
    decreases bs.len(),
{
    if bs.len() > 0 {
        lemma_bits_of_len(bs.first() as nat, 8);
        lemma_bits_of_bytes_len(bs.drop_first());
    }
}

/// Appending one byte appends its eight digits.
pub proof fn lemma_bits_of_bytes_push(bs: Seq<u8>, b: u8)
    ensures
        bits_of_bytes(bs.push(b)) == bits_of_bytes(bs) + bits_of(b as nat, 8),
    decreases bs.len(),
{
    if bs.len() == 0 {
        assert(bs.push(b).drop_first() =~= Seq::<u8>::empty());
        assert(bs.push(b).first() == b);
        assert(bits_of_bytes(Seq::<u8>::empty()) =~= Seq::<char>::empty());
        assert(bits_of_bytes(bs) =~= Seq::<char>::empty());
        assert(bits_of_bytes(bs.push(b)) =~= bits_of_bytes(bs) + bits_of(b as nat, 8));
    } else {
        lemma_bits_of_bytes_push(bs.drop_first(), b);
        assert(bs.push(b).drop_first() =~= bs.drop_first().push(b));
        assert(bs.push(b).first() == bs.first());
        assert(bits_of_bytes(bs.push(b)) == bits_of(bs.first() as nat, 8) + (bits_of_bytes(
            bs.drop_first(),
        ) + bits_of(b as nat, 8)));
        assert(bits_of_bytes(bs.push(b)) =~= bits_of_bytes(bs) + bits_of(b as nat, 8));
    }
}

/// A byte sequence's digit string reads back as the same bytes.
pub proof fn lemma_bytes_of_bits_of_bytes(bs: Seq<u8>)
    ensures
        bytes_of_bits(bits_of_bytes(bs)) == bs,
    decreases bs.len(),
{
    if bs.len() == 0 {
        assert(bytes_of_bits(bits_of_bytes(bs)) =~= bs);
    } else {
        let s = bits_of_bytes(bs);
        lemma_bits_of_len(bs.first() as nat, 8);
        lemma_bits_of_bytes_len(bs.drop_first());
        assert(s.take(8) =~= bits_of(bs.first() as nat, 8));
        assert(s.skip(8) =~= bits_of_bytes(bs.drop_first()));
        lemma_two_pow_values();
        lemma_bits_value_of_bits(bs.first() as nat, 8);
        lemma_bytes_of_bits_of_bytes(bs.drop_first());
        assert(bytes_of_bits(s) =~= bs);
    }
}

/// The bytes a digit string denotes: count and one position at a time.
pub proof fn lemma_bytes_of_bits_index(s: Seq<char>, k: int)
    requires
        0 <= k,
        8 * k + 8 <= s.len(),
    ensures
        bytes_of_bits(s).len() == s.len() / 8,
        bytes_of_bits(s)[k] == bits_value(s.subrange(8 * k, 8 * k + 8)) as u8,
    decreases s.len(),
{
    lemma_bytes_of_bits_len(s);
    if k == 0 {
        assert(s.take(8) =~= s.subrange(0, 8));
    } else {
        lemma_bytes_of_bits_index(s.skip(8), k - 1);
        assert(s.skip(8).subrange(8 * (k - 1), 8 * (k - 1) + 8) =~= s.subrange(8 * k, 8 * k + 8));
        assert(bytes_of_bits(s)[k] == bytes_of_bits(s.skip(8))[k - 1]);
    }
}

/// A digit string denotes one byte per whole 8-digit group.
pub proof fn lemma_bytes_of_bits_len(s: Seq<char>)
    ensures
        bytes_of_bits(s).len() == s.len() / 8,
    decreases s.len(),
{
    if s.len() >= 8 {
        lemma_bytes_of_bits_len(s.skip(8));
    }
}

/// Appends the width-`w` big-endian digit string of `n` to `out`.
pub fn push_bits(out: &mut String, n: u16, w: usize)
    ensures
        final(out)@ == old(out)@ + bits_of(n as nat, w as nat),
    decreases w,
{
    if w == 0 {
        proof {
            assert(out@ =~= out@ + bits_of(n as nat, 0));
        }
    } else {
        push_bits(out, n / 2, w - 1);
        if n % 2 == 1 {
            out.append("1");
            proof {
                reveal_strlit("1");
                assert("1"@ =~= seq!['1']);
            }
        } else {
            out.append("0");
            proof {
                reveal_strlit("0");
                assert("0"@ =~= seq!['0']);
            }
        }
        proof {
            assert(out@ =~= old(out)@ + bits_of(n as nat, w as nat));
        }
    }
}

/// Reads `count` digits of `s` beginning at `from` as a big-endian number.
pub fn parse_bits(s: &String, from: usize, count: usize) -> (r: u16)
    requires
        from + count <= s@.len(),
        from + count <= usize::MAX,
        count <= 16,
        forall|i: int| from <= i < from + count ==> is_bit_char(#[trigger] s@[i]),
    ensures
        r as nat == bits_value(s@.subrange(from as int, (from + count) as int)),
{
    let mut v: u16 = 0;
    let mut i: usize = 0;
    proof {
        assert(s@.subrange(from as int, from as int) =~= Seq::<char>::empty());
    }
    while i < count
        invariant
            i <= count,
            count <= 16,
            from + count <= s@.len(),
            from + count <= usize::MAX,
            forall|j: int| from <= j < from + count ==> is_bit_char(#[trigger] s@[j]),
            v as nat == bits_value(s@.subrange(from as int, (from + i) as int)),
            (v as nat) < two_pow(i as nat),
        decreases count - i,
    {
        let c = s.as_str().get_char(from + i);
        let b: u16 = if c == '1' {
            1
        } else {
            0
        };
        proof {
            let prefix = s@.subrange(from as int, (from + i) as int);
            let next = s@.subrange(from as int, (from + i + 1) as int);
            assert(next.drop_last() =~= prefix);
            assert(bit_value(next.last()) == b as nat);
            lemma_two_pow_mono((i + 1) as nat, 16);
            lemma_two_pow_values();
        }
        v = 2 * v + b;
        i = i + 1;
    }
    v
}

/// Converts text into its binary digit string: the UTF-8 bytes of `s`, eight
/// digits per byte, most significant first, zero-padded.
pub fn string_to_binary(s: &String) -> (r: String)
    ensures
        r@ == bits_of_bytes(vstd::utf8::encode_utf8(s@)),
        r@.len() == 8 * vstd::utf8::encode_utf8(s@).len(),
        is_bit_string(r@),
{
    let bytes = s.as_str().as_bytes_vec();
    let mut r = String::new();
    let mut i: usize = 0;
    proof {
        assert(bytes@.take(0) =~= Seq::<u8>::empty());
        assert(r@ =~= bits_of_bytes(bytes@.take(0)));
    }
    while i < bytes.len()
        invariant
            i <= bytes@.len(),
            bytes@ == vstd::utf8::encode_utf8(s@),
            r@ == bits_of_bytes(bytes@.take(i as int)),
        decreases bytes@.len() - i,
    {
        let b = bytes[i];
        push_bits(&mut r, b as u16, 8);
        proof {
            lemma_bits_of_bytes_push(bytes@.take(i as int), b);
            assert(bytes@.take(i as int).push(b) =~= bytes@.take(i + 1));
        }
        i = i + 1;
    }
    proof {
        assert(bytes@.take(bytes@.len() as int) =~= bytes@);
        lemma_bits_of_bytes_len(bytes@);
    }
    r
}

/// Converts a binary digit string back into bytes: one byte per consecutive
/// 8-digit group. Fails with `StegoError::Parse` when the length is not a
/// multiple of eight or some character is not a binary digit.
pub fn bin_string_to_ascii(bin_str: &String) -> (r: Result<Vec<u8>, StegoError>)
    ensures
        bin_str@.len() % 8 == 0 && is_bit_string(bin_str@) ==> (r matches Ok(v)
            && v@ == bytes_of_bits(bin_str@)),
        !(bin_str@.len() % 8 == 0 && is_bit_string(bin_str@)) ==> r == Err::<
            Vec<u8>,
            StegoError,
        >(StegoError::Parse),
{
    let n = bin_str.as_str().unicode_len();
    let mut i: usize = 0;
    while i < n
        invariant
            i <= n,
            n == bin_str@.len(),
            forall|j: int| 0 <= j < i ==> is_bit_char(#[trigger] bin_str@[j]),
        decreases n - i,
    {
        let c = bin_str.as_str().get_char(i);
        if c != '0' && c != '1' {
            return Err(StegoError::Parse);
        }
        i = i + 1;
    }
    if n % 8 != 0 {
        return Err(StegoError::Parse);
    }
    let groups = n / 8;
    let mut out: Vec<u8> = Vec::new();
    let mut j: usize = 0;
    while j < groups
        invariant
            j <= groups,
            groups == bin_str@.len() / 8,
            n == bin_str@.len(),
            n % 8 == 0,
            is_bit_string(bin_str@),
            out@.len() == j,
            forall|k: int| 0 <= k < j ==> out@[k] == bytes_of_bits(bin_str@)[k],
        decreases groups - j,
    {
        let v = parse_bits(bin_str, 8 * j, 8);
        proof {
            lemma_bits_value_bound(bin_str@.subrange(8 * j as int, 8 * j as int + 8));
            lemma_two_pow_values();
            lemma_bytes_of_bits_index(bin_str@, j as int);
        }
        out.push(v as u8);
        j = j + 1;
    }
    proof {
        lemma_bytes_of_bits_len(bin_str@);
        assert(out@ =~= bytes_of_bits(bin_str@));
    }
    Ok(out)
}

} // verus!
