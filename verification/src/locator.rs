//! Locating the pixel payload: an image file is zero or more header lines,
//! each ending in the line-feed byte 0x0A, followed by one trailing run of
//! pixel bytes with no line feed in it.

use vstd::prelude::*;

verus! {

/// The index at which the pixel payload begins: one past the last line-feed
/// byte, or zero when the file holds no line feed at all.
pub open spec fn payload_start(s: Seq<u8>) -> int
    decreases s.len(),
{
    if s.len() == 0 {
        0
    } else if s.last() == 10 {
        s.len() as int
    } else {
        payload_start(s.drop_last())
    }
}

/// The pixel payload of a file: everything after the last line-feed byte.
pub open spec fn spec_payload(s: Seq<u8>) -> Seq<u8> {
    s.skip(payload_start(s))
}

/// No byte of `s` is the line-feed byte.
pub open spec fn lf_free(s: Seq<u8>) -> bool {
    forall|i: int| 0 <= i < s.len() ==> s[i] != 10
}

/// The payload begins inside the file, right after a line feed, and holds none itself.
pub proof fn lemma_payload_start_bounds(s: Seq<u8>)
    ensures
        0 <= payload_start(s) <= s.len(),
        forall|i: int| payload_start(s) <= i < s.len() ==> s[i] != 10,
        payload_start(s) > 0 ==> s[payload_start(s) - 1] == 10,
    decreases s.len(),
{
    if s.len() > 0 && s.last() != 10 {
        lemma_payload_start_bounds(s.drop_last());
        assert forall|i: int| payload_start(s) <= i < s.len() implies s[i] != 10 by {
            if i < s.len() - 1 {
                assert(s.drop_last()[i] != 10);
            }
        }
        if payload_start(s) > 0 {
            assert(s.drop_last()[payload_start(s) - 1] == 10);
        }
    }
}

/// Bytes appended without a line feed leave the payload's start where it was.
pub proof fn lemma_payload_start_append(a: Seq<u8>, b: Seq<u8>)
    requires
        lf_free(b),
    ensures
        payload_start(a + b) == payload_start(a),
    decreases b.len(),
{
    if b.len() == 0 {
        assert(a + b =~= a);
    } else {
        assert((a + b).last() == b.last());
        assert((a + b).drop_last() =~= a + b.drop_last());
        lemma_payload_start_append(a, b.drop_last());
    }
}

/// Cutting a file at its payload's start leaves that start in place.
pub proof fn lemma_payload_start_take(s: Seq<u8>)
    ensures
        payload_start(s.take(payload_start(s))) == payload_start(s),
{
    lemma_payload_start_bounds(s);
    let p = payload_start(s);
    if p > 0 {
        assert(s.take(p).last() == s[p - 1]);
    } else {
        assert(s.take(0) =~= Seq::<u8>::empty());
    }
}

/// Finds where the pixel payload begins: one past the last line-feed byte.
pub fn locate_payload(bytes: &Vec<u8>) -> (r: usize)
    ensures
        r as int == payload_start(bytes@),
        r <= bytes@.len(),
{
    let mut j = bytes.len();
    proof {
        assert(bytes@.take(bytes@.len() as int) =~= bytes@);
    }
    while j > 0
        invariant
            j <= bytes@.len(),
            payload_start(bytes@) == payload_start(bytes@.take(j as int)),
        decreases j,
    {
        if bytes[j - 1] == 10 {
            proof {
                assert(bytes@.take(j as int).last() == bytes@[j - 1]);
            }
            return j;
        }
        proof {
            assert(bytes@.take(j as int).last() == bytes@[j - 1]);
            assert(bytes@.take(j as int).drop_last() =~= bytes@.take(j - 1));
        }
        j = j - 1;
    }
    proof {
        assert(bytes@.take(0) =~= Seq::<u8>::empty());
    }
    0
}

} // verus!
