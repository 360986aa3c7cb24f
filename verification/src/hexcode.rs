//! Lowercase hexadecimal encoding of byte strings, with the outside
//! encoder and decoder held to an exact, closed-form specification.

use vstd::prelude::*;

verus! {

/// The lowercase hex digit for a value below 16.
pub open spec fn hex_digit(n: u8) -> u8 {
    if n < 10 {
        (48 + n) as u8
    } else {
        (87 + n) as u8
    }
}

/// Lowercase hex encoding: two digits for each byte, high nibble first.
pub open spec fn hex_of(s: Seq<u8>) -> Seq<u8>
    decreases s.len(),
{
    if s.len() == 0 {
        Seq::empty()
    } else {
        seq![hex_digit(s[0] / 16), hex_digit(s[0] % 16)] + hex_of(s.drop_first())
    }
}

pub proof fn lemma_hex_of_len(s: Seq<u8>)
    ensures
        hex_of(s).len() == 2 * s.len(),
    decreases s.len(),
{
    if s.len() > 0 {
        lemma_hex_of_len(s.drop_first());
    }
}

/// Is `c` a lowercase hex digit?
pub open spec fn is_hex_digit(c: u8) -> bool {
    (48 <= c <= 57) || (97 <= c <= 102)
}

/// The value of a lowercase hex digit.
pub open spec fn hex_val(c: u8) -> u8 {
    if 48 <= c <= 57 {
        (c - 48) as u8
    } else if 97 <= c <= 102 {
        (c - 87) as u8
    } else {
        0
    }
}

/// A well-formed lowercase hex string: even length, digits only.
pub open spec fn is_hex_lower(s: Seq<u8>) -> bool {
    s.len() % 2 == 0 && forall|i: int| 0 <= i < s.len() ==> is_hex_digit(#[trigger] s[i])
}

/// The bytes denoted by a lowercase hex string of even length.
pub open spec fn unhex(s: Seq<u8>) -> Seq<u8>
    decreases s.len(),
{
    if s.len() < 2 {
        Seq::empty()
    } else {
        seq![(hex_val(s[0]) * 16 + hex_val(s[1])) as u8] + unhex(s.skip(2))
    }
}

/// Hex encoding round-trips: decoding the encoding of `s` gives `s` back,
/// and the encoding is a well-formed lowercase hex string.
pub proof fn lemma_unhex_hex_of(s: Seq<u8>)
    ensures
        is_hex_lower(hex_of(s)),
        unhex(hex_of(s)) == s,
    decreases s.len(),
{
    if s.len() == 0 {
        assert(unhex(hex_of(s)) =~= s);
    } else {
        let t = s.drop_first();
        lemma_unhex_hex_of(t);
        lemma_hex_of_len(t);
        let h = hex_of(s);
        assert(h == seq![hex_digit(s[0] / 16), hex_digit(s[0] % 16)] + hex_of(t));
        assert(h.len() == 2 + hex_of(t).len());
        assert forall|i: int| 0 <= i < h.len() implies is_hex_digit(#[trigger] h[i]) by {
            if i >= 2 {
                assert(h[i] == hex_of(t)[i - 2]);
            }
        }
        assert(h.skip(2) =~= hex_of(t));
        assert(hex_val(hex_digit(s[0] / 16)) == s[0] / 16) by {
            assert(s[0] / 16 < 16);
        }
        assert(hex_val(hex_digit(s[0] % 16)) == s[0] % 16);
        assert(hex_val(h[0]) * 16 + hex_val(h[1]) == s[0]);
        assert(unhex(h) =~= s);
    }
}

/// The bytes a lowercase hex string of even length denotes number half
/// as many as its digits.
pub proof fn lemma_unhex_len(s: Seq<u8>)
    requires
        s.len() % 2 == 0,
    ensures
        unhex(s).len() == s.len() / 2,
    decreases s.len(),
{
    if s.len() >= 2 {
        lemma_unhex_len(s.skip(2));
    }
}

/// Decoding then re-encoding a well-formed lowercase hex string gives
/// it back.
pub proof fn lemma_hex_of_unhex(s: Seq<u8>)
    requires
        is_hex_lower(s),
    ensures
        hex_of(unhex(s)) == s,
    decreases s.len(),
{
    if s.len() == 0 {
        assert(hex_of(unhex(s)) =~= s);
    } else {
        let t = s.skip(2);
        assert(is_hex_lower(t)) by {
            assert forall|i: int| 0 <= i < t.len() implies is_hex_digit(#[trigger] t[i]) by {
                assert(t[i] == s[i + 2]);
            }
        }
        lemma_hex_of_unhex(t);
        let v = (hex_val(s[0]) * 16 + hex_val(s[1])) as u8;
        assert(unhex(s) == seq![v] + unhex(t));
        assert(unhex(s)[0] == v);
        assert(unhex(s).drop_first() =~= unhex(t));
        assert(hex_digit(v / 16) == s[0] && hex_digit(v % 16) == s[1]) by {
            assert(is_hex_digit(s[0]) && is_hex_digit(s[1]));
        }
        assert(hex_of(unhex(s)) =~= s);
    }
}

/// Relies on `hex::encode`: lowercase hex, two digits for each byte,
/// high nibble first.
#[verifier::external_body]
pub fn hex_encode(data: &[u8]) -> (r: Vec<u8>)
    ensures
        r@ == hex_of(data@),
{
    hex::encode(data).into_bytes()
}

/// Relies on `hex::decode`: inverse of lowercase hex encoding. The input
/// is required to be well-formed, on which the decoder cannot fail.
#[verifier::external_body]
pub fn hex_decode(data: &[u8]) -> (r: Vec<u8>)
    requires
        is_hex_lower(data@),
    ensures
        r@ == unhex(data@),
{
    match hex::decode(data) {
        Ok(v) => v,
        Err(_) => Vec::new(),
    }
}

/// Runtime check that `data` is a well-formed lowercase hex string.
pub fn check_hex_lower(data: &[u8]) -> (r: bool)
    ensures
        r == is_hex_lower(data@),
{
    if data.len() % 2 != 0 {
        return false;
    }
    let mut i: usize = 0;
    while i < data.len()
        invariant
            i <= data.len(),
            data.len() % 2 == 0,
            forall|j: int| 0 <= j < i ==> is_hex_digit(#[trigger] data@[j]),
        decreases data.len() - i,
    {
        let c = data[i];
        if !((48 <= c && c <= 57) || (97 <= c && c <= 102)) {
            return false;
        }
        i = i + 1;
    }
    true
}

} // verus!
