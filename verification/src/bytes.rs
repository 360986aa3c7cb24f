//! Byte-sequence helpers shared by the codecs: comparison, searching,
//! slicing and a strict lexicographic order on unsigned bytes.

use vstd::prelude::*;

verus! {

/// Strict lexicographic order on byte sequences, comparing bytes unsigned.
pub open spec fn lex_lt(a: Seq<u8>, b: Seq<u8>) -> bool
    decreases a.len(),
{
    if b.len() == 0 {
        false
    } else if a.len() == 0 {
        true
    } else if a[0] < b[0] {
        true
    } else if a[0] > b[0] {
        false
    } else {
        lex_lt(a.drop_first(), b.drop_first())
    }
}

/// Equality test on byte slices, settled element by element.
pub fn bytes_eq(a: &[u8], b: &[u8]) -> (r: bool)
    ensures
        r == (a@ == b@),
{
    if a.len() != b.len() {
        return false;
    }
    let mut i: usize = 0;
    while i < a.len()
        invariant
            i <= a.len(),
            a.len() == b.len(),
            forall|j: int| 0 <= j < i ==> a@[j] == b@[j],
        decreases a.len() - i,
    {
        if a[i] != b[i] {
            return false;
        }
        i = i + 1;
    }
    proof {
        assert(a@ =~= b@);
    }
    true
}

fn bytes_lt_from(a: &[u8], b: &[u8], i: usize) -> (r: bool)
    requires
        i <= a.len(),
        i <= b.len(),
    ensures
        r == lex_lt(a@.skip(i as int), b@.skip(i as int)),
    decreases a.len() - i,
{
    if i == b.len() {
        false
    } else if i == a.len() {
        true
    } else if a[i] < b[i] {
        true
    } else if a[i] > b[i] {
        false
    } else {
        proof {
            assert(a@.skip(i as int).drop_first() =~= a@.skip(i + 1));
            assert(b@.skip(i as int).drop_first() =~= b@.skip(i + 1));
        }
        bytes_lt_from(a, b, i + 1)
    }
}

/// Strict lexicographic comparison of byte slices.
pub fn bytes_lt(a: &[u8], b: &[u8]) -> (r: bool)
    ensures
        r == lex_lt(a@, b@),
{
    proof {
        assert(a@.skip(0) =~= a@);
        assert(b@.skip(0) =~= b@);
    }
    bytes_lt_from(a, b, 0)
}

/// First occurrence of `c` in `s`, as a spec value: the index, or -1.
pub open spec fn find_pos(s: Seq<u8>, c: u8) -> int
    decreases s.len(),
{
    if s.len() == 0 {
        -1
    } else if s[0] == c {
        0
    } else {
        let r = find_pos(s.drop_first(), c);
        if r < 0 {
            -1
        } else {
            r + 1
        }
    }
}

pub proof fn lemma_find_pos(s: Seq<u8>, c: u8)
    ensures
        find_pos(s, c) == -1 ==> forall|j: int| 0 <= j < s.len() ==> s[j] != c,
        find_pos(s, c) != -1 ==> {
            let i = find_pos(s, c);
            &&& 0 <= i < s.len()
            &&& s[i] == c
            &&& forall|j: int| 0 <= j < i ==> s[j] != c
        },
    decreases s.len(),
{
    if s.len() > 0 && s[0] != c {
        let t = s.drop_first();
        lemma_find_pos(t, c);
        assert(forall|j: int| 0 <= j < t.len() ==> t[j] == s[j + 1]);
        if find_pos(t, c) == -1 {
            assert forall|j: int| 0 <= j < s.len() implies s[j] != c by {
                if j > 0 {
                    assert(t[j - 1] == s[j]);
                }
            }
        } else {
            let i = find_pos(t, c);
            assert(s[i + 1] == t[i]);
            assert forall|j: int| 0 <= j < i + 1 implies s[j] != c by {
                if j > 0 {
                    assert(t[j - 1] == s[j]);
                }
            }
        }
    }
}

/// First index `>= from` holding `c` in `s`, or `None`.
pub fn find_byte(s: &[u8], from: usize, c: u8) -> (r: Option<usize>)
    requires
        from <= s.len(),
    ensures
        match r {
            Some(i) => from <= i < s.len() && s@[i as int] == c && forall|j: int|
                from <= j < i ==> s@[j] != c,
            None => forall|j: int| from <= j < s.len() ==> s@[j] != c,
        },
{
    let mut i: usize = from;
    while i < s.len()
        invariant
            from <= i <= s.len(),
            forall|j: int| from <= j < i ==> s@[j] != c,
        decreases s.len() - i,
    {
        if s[i] == c {
            return Some(i);
        }
        i = i + 1;
    }
    None
}

/// Copy of the byte range `[i, j)` of `s`.
pub fn subvec(s: &[u8], i: usize, j: usize) -> (r: Vec<u8>)
    requires
        i <= j <= s.len(),
    ensures
        r@ == s@.subrange(i as int, j as int),
{
    let mut r: Vec<u8> = Vec::new();
    let mut k: usize = i;
    while k < j
        invariant
            i <= k <= j <= s.len(),
            r@ =~= s@.subrange(i as int, k as int),
        decreases j - k,
    {
        r.push(s[k]);
        proof {
            assert(r@ =~= s@.subrange(i as int, k + 1));
        }
        k = k + 1;
    }
    r
}

/// Does `s` start with `p`?
pub fn starts_with(s: &[u8], p: &[u8]) -> (r: bool)
    ensures
        r == (p@.len() <= s@.len() && s@.subrange(0, p@.len() as int) == p@),
{
    if p.len() > s.len() {
        return false;
    }
    let mut i: usize = 0;
    while i < p.len()
        invariant
            i <= p.len() <= s.len(),
            forall|j: int| 0 <= j < i ==> s@[j] == p@[j],
        decreases p.len() - i,
    {
        if s[i] != p[i] {
            proof {
                assert(s@.subrange(0, p@.len() as int)[i as int] == s@[i as int]);
            }
            return false;
        }
        i = i + 1;
    }
    proof {
        assert(s@.subrange(0, p@.len() as int) =~= p@);
    }
    true
}

/// The lines of `s`, split at each newline; a last segment without a
/// trailing newline is kept, an empty one is not.
pub open spec fn lines_of(s: Seq<u8>) -> Seq<Seq<u8>>
    decreases s.len(),
{
    if s.len() == 0 {
        Seq::empty()
    } else {
        let i = find_pos(s, 10);
        if 0 <= i < s.len() {
            seq![s.take(i)] + lines_of(s.skip(i + 1))
        } else {
            seq![s]
        }
    }
}

fn lines_from(s: &[u8], pos: usize) -> (r: Vec<Vec<u8>>)
    requires
        pos <= s.len(),
    ensures
        r@.map_values(|v: Vec<u8>| v@) == lines_of(s@.skip(pos as int)),
    decreases s.len() - pos,
{
    let ghost t = s@.skip(pos as int);
    if pos == s.len() {
        let r: Vec<Vec<u8>> = Vec::new();
        proof {
            assert(t =~= Seq::<u8>::empty());
            assert(r@.map_values(|v: Vec<u8>| v@) =~= Seq::<Seq<u8>>::empty());
        }
        return r;
    }
    match find_byte(s, pos, 10) {
        Some(i) => {
            let line = subvec(s, pos, i);
            let mut rest = lines_from(s, i + 1);
            proof {
                lemma_find_pos_from(s@, 10, pos as int, i as int);
                assert(t.take(i - pos) =~= s@.subrange(pos as int, i as int));
                assert(t.skip(i - pos + 1) =~= s@.skip(i as int + 1));
            }
            let ghost restm = rest@.map_values(|v: Vec<u8>| v@);
            rest.insert(0, line);
            proof {
                assert(rest@.map_values(|v: Vec<u8>| v@) =~= seq![line@] + restm);
            }
            rest
        },
        None => {
            let line = subvec(s, pos, s.len());
            let r = vec![line];
            proof {
                lemma_find_pos_none(s@, 10, pos as int);
                assert(t =~= s@.subrange(pos as int, s@.len() as int));
                assert(r@.map_values(|v: Vec<u8>| v@) =~= seq![t]);
            }
            r
        },
    }
}

/// If `c` first occurs at `i` at or after `from`, the suffix's first
/// occurrence is at `i - from`.
pub proof fn lemma_find_pos_from(s: Seq<u8>, c: u8, from: int, i: int)
    requires
        0 <= from <= i < s.len(),
        s[i] == c,
        forall|j: int| from <= j < i ==> s[j] != c,
    ensures
        find_pos(s.skip(from), c) == i - from,
{
    let t = s.skip(from);
    assert(t[i - from] == c);
    assert forall|j: int| 0 <= j < i - from implies t[j] != c by {
        assert(t[j] == s[from + j]);
    }
    crate::codec::lemma_find_pos_unique(t, c, i - from);
}

/// If `c` does not occur at or after `from`, the suffix holds no `c`.
pub proof fn lemma_find_pos_none(s: Seq<u8>, c: u8, from: int)
    requires
        0 <= from <= s.len(),
        forall|j: int| from <= j < s.len() ==> s[j] != c,
    ensures
        !(0 <= find_pos(s.skip(from), c) < s.skip(from).len()),
{
    let t = s.skip(from);
    lemma_find_pos(t, c);
    if 0 <= find_pos(t, c) < t.len() {
        assert(t[find_pos(t, c)] == c);
        assert(t[find_pos(t, c)] == s[from + find_pos(t, c)]);
    }
}

/// Split a byte string into its lines.
pub fn split_lines(s: &[u8]) -> (r: Vec<Vec<u8>>)
    ensures
        r@.map_values(|v: Vec<u8>| v@) == lines_of(s@),
{
    let r = lines_from(s, 0);
    proof {
        assert(s@.skip(0) =~= s@);
    }
    r
}

/// Concatenation of `b` onto the end of `a`.
pub fn append_bytes(a: &mut Vec<u8>, b: &[u8])
    ensures
        final(a)@ == old(a)@ + b@,
{
    let mut i: usize = 0;
    while i < b.len()
        invariant
            i <= b.len(),
            a@ =~= old(a)@ + b@.subrange(0, i as int),
        decreases b.len() - i,
    {
        a.push(b[i]);
        proof {
            assert(a@ =~= old(a)@ + b@.subrange(0, i + 1));
        }
        i = i + 1;
    }
    proof {
        assert(b@.subrange(0, b@.len() as int) =~= b@);
    }
}

} // verus!
