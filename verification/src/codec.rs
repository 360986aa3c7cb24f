//! The object codec: framing a payload as `TYPE SP LEN NUL PAYLOAD`,
//! hashing the framed bytes to a 40-character lowercase hex object id,
//! and parsing a frame back, with parsing exact: it succeeds on
//! precisely the byte strings that some (type, payload) pair frames to.

use crate::bytes::{append_bytes, bytes_eq, find_byte, find_pos, lemma_find_pos, subvec};
use crate::hexcode::{hex_encode, hex_of, lemma_hex_of_len};
use crate::sha::{sha1_digest, sha1_of};
use vstd::prelude::*;

verus! {

/// The four object kinds of the store.
#[derive(Clone, Copy, Debug, PartialEq, Eq, Structural)]
pub enum ObjType {
    Blob,
    Tree,
    Commit,
    Tag,
}

/// The name under which an object kind appears in a frame header.
pub open spec fn kind_name(t: ObjType) -> Seq<u8> {
    match t {
        ObjType::Blob => seq![98u8, 108u8, 111u8, 98u8],
        ObjType::Tree => seq![116u8, 114u8, 101u8, 101u8],
        ObjType::Commit => seq![99u8, 111u8, 109u8, 109u8, 105u8, 116u8],
        ObjType::Tag => seq![116u8, 97u8, 103u8],
    }
}

/// The canonical decimal digits of `n`, without leading zeros.
pub open spec fn dec_digits(n: nat) -> Seq<u8>
    decreases n,
{
    if n < 10 {
        seq![(48 + n) as u8]
    } else {
        dec_digits(n / 10) + seq![(48 + n % 10) as u8]
    }
}

/// The frame header: `TYPE SP LEN`.
pub open spec fn header_spec(t: ObjType, payload: Seq<u8>) -> Seq<u8> {
    kind_name(t) + seq![32u8] + dec_digits(payload.len())
}

/// The framed bytes of an object: `TYPE SP LEN NUL PAYLOAD`.
pub open spec fn frame_spec(t: ObjType, payload: Seq<u8>) -> Seq<u8> {
    header_spec(t, payload) + seq![0u8] + payload
}

/// The object id: lowercase hex of the SHA-1 of the framed bytes.
pub open spec fn oid_spec(t: ObjType, payload: Seq<u8>) -> Seq<u8> {
    hex_of(sha1_of(frame_spec(t, payload)))
}

/// The name bytes of an object kind.
pub fn kind_name_bytes(t: ObjType) -> (r: Vec<u8>)
    ensures
        r@ == kind_name(t),
{
    let r: Vec<u8> = match t {
        ObjType::Blob => vec![98u8, 108u8, 111u8, 98u8],
        ObjType::Tree => vec![116u8, 114u8, 101u8, 101u8],
        ObjType::Commit => vec![99u8, 111u8, 109u8, 109u8, 105u8, 116u8],
        ObjType::Tag => vec![116u8, 97u8, 103u8],
    };
    proof {
        assert(r@ =~= kind_name(t));
    }
    r
}

/// The canonical decimal digits of `n`.
pub fn u64_to_dec(n: u64) -> (r: Vec<u8>)
    ensures
        r@ == dec_digits(n as nat),
    decreases n,
{
    if n < 10 {
        let r = vec![48 + n as u8];
        proof {
            assert(r@ =~= dec_digits(n as nat));
        }
        r
    } else {
        let mut r = u64_to_dec(n / 10);
        r.push(48 + (n % 10) as u8);
        proof {
            assert(r@ =~= dec_digits(n as nat));
        }
        r
    }
}

pub proof fn lemma_dec_digits_props(n: nat)
    ensures
        dec_digits(n).len() >= 1,
        forall|i: int| 0 <= i < dec_digits(n).len() ==> 48 <= #[trigger] dec_digits(n)[i] <= 57,
    decreases n,
{
    if n >= 10 {
        lemma_dec_digits_props(n / 10);
    }
}

pub proof fn lemma_kind_name_props(t: ObjType)
    ensures
        3 <= kind_name(t).len() <= 6,
        forall|i: int| 0 <= i < kind_name(t).len() ==> #[trigger] kind_name(t)[i] != 0
            && kind_name(t)[i] != 32,
{
}

/// Two equal frames come from the same kind and payload.
pub proof fn lemma_frame_injective(t1: ObjType, p1: Seq<u8>, t2: ObjType, p2: Seq<u8>)
    requires
        frame_spec(t1, p1) == frame_spec(t2, p2),
    ensures
        t1 == t2,
        p1 == p2,
{
    let f = frame_spec(t1, p1);
    lemma_frame_shape(t1, p1);
    lemma_frame_shape(t2, p2);
    lemma_find_pos_unique(f, 32, kind_name(t1).len() as int);
    lemma_find_pos_unique(f, 32, kind_name(t2).len() as int);
    assert(kind_name(t1).len() == kind_name(t2).len());
    assert(kind_name(t1) =~= kind_name(t2)) by {
        assert forall|i: int| 0 <= i < kind_name(t1).len() implies kind_name(t1)[i] == kind_name(
            t2,
        )[i] by {
            assert(f[i] == kind_name(t1)[i]);
            assert(f[i] == kind_name(t2)[i]);
        }
    }
    assert(t1 == t2) by {
        if t1 != t2 {
            assert(kind_name(t1)[0] != kind_name(t2)[0] || kind_name(t1).len() != kind_name(
                t2,
            ).len());
        }
    }
    lemma_find_pos_unique(f, 0, header_spec(t1, p1).len() as int);
    lemma_find_pos_unique(f, 0, header_spec(t2, p2).len() as int);
    assert(header_spec(t1, p1).len() == header_spec(t2, p2).len());
    assert(p1.len() == p2.len());
    assert(p1 =~= p2) by {
        let h = header_spec(t1, p1).len() as int;
        assert forall|i: int| 0 <= i < p1.len() implies p1[i] == p2[i] by {
            assert(f[h + 1 + i] == p1[i]);
            assert(f[h + 1 + i] == p2[i]);
        }
    }
}

/// If `c` first occurs at `i`, then `find_pos` returns `i`.
pub proof fn lemma_find_pos_unique(s: Seq<u8>, c: u8, i: int)
    requires
        0 <= i < s.len(),
        s[i] == c,
        forall|j: int| 0 <= j < i ==> s[j] != c,
    ensures
        find_pos(s, c) == i,
{
    lemma_find_pos(s, c);
    let r = find_pos(s, c);
    if r == -1 {
        assert(s[i] != c);
    } else if r < i {
        assert(s[r] != c);
    } else if r > i {
        assert(s[i] != c);
    }
}

/// The shape of a frame: where its first space and first NUL stand, and
/// what its parts are.
pub proof fn lemma_frame_shape(t: ObjType, p: Seq<u8>)
    ensures
        ({
            let f = frame_spec(t, p);
            let h = header_spec(t, p);
            let tn = kind_name(t).len() as int;
            &&& f.len() == h.len() + 1 + p.len()
            &&& h.len() == tn + 1 + dec_digits(p.len()).len()
            &&& f[h.len() as int] == 0
            &&& (forall|j: int| 0 <= j < h.len() ==> f[j] != 0)
            &&& f[tn] == 32
            &&& (forall|j: int| 0 <= j < tn ==> f[j] != 32)
            &&& f.subrange(0, tn) == kind_name(t)
            &&& f.subrange(tn + 1, h.len() as int) == dec_digits(p.len())
            &&& f.subrange(h.len() as int + 1, f.len() as int) == p
        }),
{
    let f = frame_spec(t, p);
    let h = header_spec(t, p);
    let tn = kind_name(t).len() as int;
    lemma_kind_name_props(t);
    lemma_dec_digits_props(p.len());
    assert forall|j: int| 0 <= j < h.len() implies f[j] != 0 by {
        if j < tn {
            assert(f[j] == kind_name(t)[j]);
        } else if j == tn {
            assert(f[j] == 32);
        } else {
            assert(f[j] == dec_digits(p.len())[j - tn - 1]);
        }
    }
    assert forall|j: int| 0 <= j < tn implies f[j] != 32 by {
        assert(f[j] == kind_name(t)[j]);
    }
    assert(f.subrange(0, tn) =~= kind_name(t));
    assert(f.subrange(tn + 1, h.len() as int) =~= dec_digits(p.len()));
    assert(f.subrange(h.len() as int + 1, f.len() as int) =~= p);
}

/// Hash an object: the id is the lowercase hex SHA-1 of the framed bytes.
pub fn hash_object(data: &[u8], object_type: ObjType) -> (r: Vec<u8>)
    ensures
        r@ == oid_spec(object_type, data@),
        r@.len() == 40,
{
    let framed = frame(data, object_type);
    let digest = sha1_digest(framed.as_slice());
    proof {
        lemma_hex_of_len(digest@);
    }
    hex_encode(digest.as_slice())
}

/// Frame a payload as `TYPE SP LEN NUL PAYLOAD`.
pub fn frame(data: &[u8], object_type: ObjType) -> (r: Vec<u8>)
    ensures
        r@ == frame_spec(object_type, data@),
{
    let mut r = kind_name_bytes(object_type);
    r.push(32);
    let digits = u64_to_dec(data.len() as u64);
    append_bytes(&mut r, digits.as_slice());
    r.push(0);
    append_bytes(&mut r, data);
    proof {
        assert(r@ =~= frame_spec(object_type, data@));
    }
    r
}

/// Parse a frame back into its kind and payload. Succeeds exactly on
/// byte strings that `frame_spec` produces.
pub fn parse_frame(bytes: &[u8]) -> (r: Option<(ObjType, Vec<u8>)>)
    ensures
        match r {
            Some((t, d)) => bytes@ == frame_spec(t, d@),
            None => forall|t: ObjType, p: Seq<u8>| bytes@ != frame_spec(t, p),
        },
{
    let nul = match find_byte(bytes, 0, 0) {
        Some(i) => i,
        None => {
            proof {
                assert forall|t: ObjType, p: Seq<u8>| bytes@ != frame_spec(t, p) by {
                    lemma_frame_shape(t, p);
                    if bytes@ == frame_spec(t, p) {
                        assert(bytes@[header_spec(t, p).len() as int] == 0);
                    }
                }
            }
            return None;
        },
    };
    let sp = match find_byte(bytes, 0, 32) {
        Some(j) => j,
        None => {
            proof {
                assert forall|t: ObjType, p: Seq<u8>| bytes@ != frame_spec(t, p) by {
                    lemma_frame_shape(t, p);
                    if bytes@ == frame_spec(t, p) {
                        assert(bytes@[kind_name(t).len() as int] == 32);
                    }
                }
            }
            return None;
        },
    };
    if sp >= nul {
        proof {
            assert forall|t: ObjType, p: Seq<u8>| bytes@ != frame_spec(t, p) by {
                lemma_frame_shape(t, p);
                if bytes@ == frame_spec(t, p) {
                    let tn = kind_name(t).len() as int;
                    let hl = header_spec(t, p).len() as int;
                    assert(bytes@[tn] == 32 && forall|j: int| 0 <= j < tn ==> bytes@[j] != 32);
                    assert(sp == tn);
                    assert(bytes@[hl] == 0 && forall|j: int| 0 <= j < hl ==> bytes@[j] != 0);
                    assert(nul == hl);
                    assert(tn < hl);
                }
            }
        }
        return None;
    }
    let type_part = subvec(bytes, 0, sp);
    let digits_part = subvec(bytes, sp + 1, nul);
    let payload = subvec(bytes, nul + 1, bytes.len());
    let expect_digits = u64_to_dec(payload.len() as u64);
    let candidates: [ObjType; 4] = [ObjType::Blob, ObjType::Tree, ObjType::Commit, ObjType::Tag];
    let mut k: usize = 0;
    while k < 4
        invariant
            k <= 4,
            candidates@ =~= seq![ObjType::Blob, ObjType::Tree, ObjType::Commit, ObjType::Tag],
            type_part@ == bytes@.subrange(0, sp as int),
            digits_part@ == bytes@.subrange(sp + 1, nul as int),
            payload@ == bytes@.subrange(nul + 1, bytes@.len() as int),
            expect_digits@ == dec_digits(payload@.len()),
            0 <= sp < nul < bytes@.len(),
            bytes@[sp as int] == 32 && forall|j: int| 0 <= j < sp ==> bytes@[j] != 32,
            bytes@[nul as int] == 0 && forall|j: int| 0 <= j < nul ==> bytes@[j] != 0,
            forall|j: int| 0 <= j < k ==> kind_name(candidates@[j]) != type_part@,
        decreases 4 - k,
    {
        let t = candidates[k];
        let name = kind_name_bytes(t);
        if bytes_eq(type_part.as_slice(), name.as_slice()) {
            if bytes_eq(digits_part.as_slice(), expect_digits.as_slice()) {
                proof {
                    assert(bytes@ =~= frame_spec(t, payload@));
                }
                return Some((t, payload));
            } else {
                proof {
                    assert forall|t2: ObjType, p: Seq<u8>| bytes@ != frame_spec(t2, p) by {
                        lemma_frame_shape(t2, p);
                        if bytes@ == frame_spec(t2, p) {
                            let tn = kind_name(t2).len() as int;
                            let hl = header_spec(t2, p).len() as int;
                            assert(sp == tn);
                            assert(nul == hl);
                            assert(payload@ =~= p);
                            assert(digits_part@ =~= dec_digits(p.len()));
                        }
                    }
                }
                return None;
            }
        }
        k = k + 1;
    }
    proof {
        assert forall|t2: ObjType, p: Seq<u8>| bytes@ != frame_spec(t2, p) by {
            lemma_frame_shape(t2, p);
            if bytes@ == frame_spec(t2, p) {
                let tn = kind_name(t2).len() as int;
                assert(sp == tn);
                assert(type_part@ =~= kind_name(t2));
                assert(exists|j: int|
                    0 <= j < 4 && candidates@[j] == t2) by {
                    match t2 {
                        ObjType::Blob => assert(candidates@[0] == t2),
                        ObjType::Tree => assert(candidates@[1] == t2),
                        ObjType::Commit => assert(candidates@[2] == t2),
                        ObjType::Tag => assert(candidates@[3] == t2),
                    }
                }
            }
        }
    }
    None
}

} // verus!
