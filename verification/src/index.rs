//! The staging index: a map from repository-relative paths to blob
//! object ids, kept strictly sorted by path. Persistence is a
//! deterministic binary serialization whose parser is the specification:
//! saving then loading recovers the entries exactly.

use crate::bytes::{append_bytes, bytes_eq, bytes_lt, lex_lt, subvec};
use crate::errors::GitError;
use crate::hexcode::{check_hex_lower, is_hex_lower};
use crate::refs::{lemma_lex_irrefl, lemma_lex_total, lemma_lex_trans};
use crate::store::copy_bytes;
use vstd::pervasive::VecAdditionalExecFns;
use vstd::prelude::*;

verus! {

/// One staged file: its path, mtime seconds, blob object id, and mode.
pub struct IndexEntry {
    pub path: Vec<u8>,
    pub mtime: u64,
    pub object_id: Vec<u8>,
    pub mode: u32,
}

/// The mathematical value of an index entry.
pub ghost struct IndexEntryV {
    pub path: Seq<u8>,
    pub mtime: u64,
    pub object_id: Seq<u8>,
    pub mode: u32,
}

impl View for IndexEntry {
    type V = IndexEntryV;

    open spec fn view(&self) -> IndexEntryV {
        IndexEntryV {
            path: self.path@,
            mtime: self.mtime,
            object_id: self.object_id@,
            mode: self.mode,
        }
    }
}

/// The staging index.
pub struct Index {
    pub entries: Vec<IndexEntry>,
}

/// The value stored under `path`, if any.
pub open spec fn find_path(entries: Seq<IndexEntryV>, path: Seq<u8>) -> Option<IndexEntryV>
    decreases entries.len(),
{
    if entries.len() == 0 {
        None
    } else if entries[0].path == path {
        Some(entries[0])
    } else {
        find_path(entries.drop_first(), path)
    }
}

impl Index {
    pub open spec fn view(&self) -> Seq<IndexEntryV> {
        self.entries@.map_values(|e: IndexEntry| e@)
    }

    /// Paths strictly sorted (hence unique); ids 40 bytes; paths short
    /// enough for the length-prefixed serialization.
    pub open spec fn wf(self) -> bool {
        entries_wf(self@)
    }

    /// A fresh, empty index.
    pub fn new() -> (r: Index)
        ensures
            r.wf(),
            r@.len() == 0,
    {
        Index { entries: Vec::new() }
    }

    /// The staged entries, in path order.
    pub fn get_entries(&self) -> (r: &Vec<IndexEntry>)
        ensures
            r@.map_values(|e: IndexEntry| e@) == self@,
    {
        &self.entries
    }

    /// Is nothing staged?
    pub fn is_empty(&self) -> (r: bool)
        ensures
            r == (self@.len() == 0),
    {
        self.entries.len() == 0
    }

    /// Stage a file: insert or overwrite the entry under `path`, with
    /// mode `0o100644`. Every other entry is untouched.
    pub fn add_file(&mut self, path: &[u8], mtime: u64, object_id: &[u8])
        requires
            old(self).wf(),
            object_id@.len() == 40,
            is_hex_lower(object_id@),
            path_no_nul(path@),
        ensures
            final(self).wf(),
            find_path(final(self)@, path@) == Some(
                IndexEntryV { path: path@, mtime, object_id: object_id@, mode: 0o100644 },
            ),
            forall|p: Seq<u8>|
                p != path@ ==> find_path(final(self)@, p) == find_path(old(self)@, p),
    {
        let ghost v0 = self@;
        let mut i: usize = 0;
        while i < self.entries.len() && bytes_lt(
            self.entries[i].path.as_slice(),
            path,
        )
            invariant
                i <= self.entries@.len(),
                self@ == v0,
                forall|j: int| 0 <= j < i ==> lex_lt((#[trigger] v0[j]).path, path@),
            decreases self.entries@.len() - i,
        {
            i = i + 1;
        }
        proof {
            assert forall|j: int| 0 <= j < i implies (#[trigger] v0[j]).path != path@ by {
                lemma_lex_irrefl(path@);
            }
        }
        let e = IndexEntry {
            path: copy_bytes(path),
            mtime,
            object_id: copy_bytes(object_id),
            mode: 0o100644,
        };
        let ghost ev = e@;
        if i < self.entries.len() && bytes_eq(self.entries[i].path.as_slice(), path) {
            proof {
                lemma_find_path_update_self(v0, i as int, ev);
                assert forall|p: Seq<u8>| p != path@ implies find_path(v0.update(i as int, ev), p)
                    == find_path(v0, p) by {
                    lemma_find_path_update_other(v0, i as int, ev, p);
                }
            }
            self.entries.set(i, e);
            proof {
                assert(self@ =~= v0.update(i as int, ev));
                assert(ev.path == v0[i as int].path);
                assert forall|x: int, y: int| 0 <= x < y < self@.len() implies lex_lt(
                    (#[trigger] self@[x]).path,
                    (#[trigger] self@[y]).path,
                ) by {
                    assert(self@[x].path == v0[x].path);
                    assert(self@[y].path == v0[y].path);
                }
            }
        } else {
            proof {
                lemma_find_path_insert_self(v0, i as int, ev);
                assert forall|p: Seq<u8>| p != path@ implies find_path(v0.insert(i as int, ev), p)
                    == find_path(v0, p) by {
                    lemma_find_path_insert_other(v0, i as int, ev, p);
                }
                if i < v0.len() {
                    lemma_lex_total(v0[i as int].path, path@);
                }
                let s = v0.insert(i as int, ev);
                assert forall|x: int, y: int| 0 <= x < y < s.len() implies lex_lt(
                    (#[trigger] s[x]).path,
                    (#[trigger] s[y]).path,
                ) by {
                    if x == i && y > i {
                        assert(s[y] == v0[y - 1]);
                        if y - 1 > i {
                            lemma_lex_trans(ev.path, v0[i as int].path, v0[y - 1].path);
                        }
                    } else if x < i && y > i {
                        assert(s[x] == v0[x]);
                        assert(s[y] == v0[y - 1]);
                    }
                }
            }
            self.entries.insert(i, e);
            proof {
                assert(self@ =~= v0.insert(i as int, ev));
            }
        }
    }

    /// Unstage a path: remove the entry under `path` itself and every
    /// entry whose path lies under the directory `path`. Returns the
    /// removed paths, in index order.
    pub fn remove_path(&mut self, path: &[u8]) -> (r: Vec<Vec<u8>>)
        requires
            old(self).wf(),
        ensures
            final(self).wf(),
            final(self)@ == kept_after_removal(old(self)@, path@),
            r@.map_values(|v: Vec<u8>| v@) == removed_by_removal(old(self)@, path@),
    {
        let ghost v0 = self@;
        let mut kept: Vec<IndexEntry> = Vec::new();
        let mut removed: Vec<Vec<u8>> = Vec::new();
        let mut i: usize = 0;
        proof {
            assert(v0.take(0) =~= Seq::<IndexEntryV>::empty());
            assert(kept@.map_values(|e: IndexEntry| e@) =~= kept_after_removal(
                v0.take(0),
                path@,
            ));
            assert(removed@.map_values(|v: Vec<u8>| v@) =~= removed_by_removal(
                v0.take(0),
                path@,
            ));
        }
        while i < self.entries.len()
            invariant
                i <= self.entries@.len(),
                self@ == v0,
                kept@.map_values(|e: IndexEntry| e@) == kept_after_removal(
                    v0.take(i as int),
                    path@,
                ),
                removed@.map_values(|v: Vec<u8>| v@) == removed_by_removal(
                    v0.take(i as int),
                    path@,
                ),
            decreases self.entries@.len() - i,
        {
            let ep = &self.entries[i];
            let is_exact = bytes_eq(ep.path.as_slice(), path);
            let is_under = if path.len() < ep.path.len() {
                let pfx = subvec(ep.path.as_slice(), 0, path.len());
                if bytes_eq(pfx.as_slice(), path) {
                    ep.path[path.len()] == 47
                } else {
                    false
                }
            } else {
                false
            };
            proof {
                assert(is_exact == (v0[i as int].path == path@));
                assert(is_under == path_is_under(v0[i as int].path, path@));
            }
            if is_exact || is_under {
                removed.push(copy_bytes(self.entries[i].path.as_slice()));
            } else {
                let e = IndexEntry {
                    path: copy_bytes(self.entries[i].path.as_slice()),
                    mtime: self.entries[i].mtime,
                    object_id: copy_bytes(self.entries[i].object_id.as_slice()),
                    mode: self.entries[i].mode,
                };
                proof {
                    assert(e@ == v0[i as int]);
                }
                kept.push(e);
            }
            proof {
                let t1 = v0.take(i + 1);
                assert(t1.drop_last() =~= v0.take(i as int));
                assert(t1.last() == v0[i as int]);
                assert(kept@.map_values(|e: IndexEntry| e@) =~= kept_after_removal(t1, path@));
                assert(removed@.map_values(|v: Vec<u8>| v@) =~= removed_by_removal(t1, path@));
            }
            i = i + 1;
        }
        proof {
            assert(v0.take(v0.len() as int) =~= v0);
            lemma_kept_subseq(v0, path@);
        }
        self.entries = kept;
        removed
    }
}

/// Does `p` lie strictly under the directory `dir`?
pub open spec fn path_is_under(p: Seq<u8>, dir: Seq<u8>) -> bool {
    p.len() > dir.len() && p.subrange(0, dir.len() as int) == dir && p[dir.len() as int] == 47
}

/// Whether removal of `path` takes this entry out.
pub open spec fn removal_hits(e: IndexEntryV, path: Seq<u8>) -> bool {
    e.path == path || path_is_under(e.path, path)
}

/// The entries surviving a removal, in order.
pub open spec fn kept_after_removal(entries: Seq<IndexEntryV>, path: Seq<u8>) -> Seq<IndexEntryV>
    decreases entries.len(),
{
    if entries.len() == 0 {
        Seq::empty()
    } else {
        kept_after_removal(entries.drop_last(), path) + if removal_hits(entries.last(), path) {
            Seq::<IndexEntryV>::empty()
        } else {
            seq![entries.last()]
        }
    }
}

/// The paths a removal takes out, in order.
pub open spec fn removed_by_removal(entries: Seq<IndexEntryV>, path: Seq<u8>) -> Seq<Seq<u8>>
    decreases entries.len(),
{
    if entries.len() == 0 {
        Seq::empty()
    } else {
        removed_by_removal(entries.drop_last(), path) + if removal_hits(entries.last(), path) {
            seq![entries.last().path]
        } else {
            Seq::<Seq<u8>>::empty()
        }
    }
}

/// What survives a removal is a subsequence: sortedness and the field
/// bounds carry over.
pub proof fn lemma_kept_subseq(entries: Seq<IndexEntryV>, path: Seq<u8>)
    ensures
        forall|i: int|
            0 <= i < kept_after_removal(entries, path).len() ==> exists|m: int|
                0 <= m < entries.len() && #[trigger] kept_after_removal(entries, path)[i]
                    == entries[m],
        (forall|i: int, j: int|
            0 <= i < j < entries.len() ==> lex_lt(
                (#[trigger] entries[i]).path,
                (#[trigger] entries[j]).path,
            )) ==> (forall|i: int, j: int|
            0 <= i < j < kept_after_removal(entries, path).len() ==> lex_lt(
                (#[trigger] kept_after_removal(entries, path)[i]).path,
                (#[trigger] kept_after_removal(entries, path)[j]).path,
            )),
    decreases entries.len(),
{
    if entries.len() > 0 {
        let prior = entries.drop_last();
        lemma_kept_subseq(prior, path);
        let k = kept_after_removal(entries, path);
        let kp = kept_after_removal(prior, path);
        assert forall|i: int| 0 <= i < k.len() implies exists|m: int|
            0 <= m < entries.len() && #[trigger] k[i] == entries[m] by {
            if i < kp.len() {
                assert(k[i] == kp[i]);
                let m = choose|m: int| 0 <= m < prior.len() && #[trigger] kp[i] == prior[m];
                assert(entries[m] == prior[m]);
            } else {
                assert(k[i] == entries[entries.len() - 1]);
            }
        }
        if forall|i: int, j: int|
            0 <= i < j < entries.len() ==> lex_lt(
                (#[trigger] entries[i]).path,
                (#[trigger] entries[j]).path,
            ) {
            assert forall|i: int, j: int| 0 <= i < j < prior.len() implies lex_lt(
                (#[trigger] prior[i]).path,
                (#[trigger] prior[j]).path,
            ) by {
                assert(prior[i] == entries[i] && prior[j] == entries[j]);
            }
            assert forall|i: int, j: int| 0 <= i < j < k.len() implies lex_lt(
                (#[trigger] k[i]).path,
                (#[trigger] k[j]).path,
            ) by {
                if j < kp.len() {
                    assert(k[i] == kp[i] && k[j] == kp[j]);
                } else {
                    assert(k[j] == entries[entries.len() - 1]);
                    assert(k[i] == kp[i]);
                    let m = choose|m: int| 0 <= m < prior.len() && #[trigger] kp[i] == prior[m];
                    assert(entries[m] == prior[m]);
                }
            }
        }
    }
}

proof fn lemma_find_path_insert_self(entries: Seq<IndexEntryV>, pos: int, e: IndexEntryV)
    requires
        0 <= pos <= entries.len(),
        forall|j: int| 0 <= j < pos ==> (#[trigger] entries[j]).path != e.path,
    ensures
        find_path(entries.insert(pos, e), e.path) == Some(e),
    decreases pos,
{
    let s = entries.insert(pos, e);
    if pos == 0 {
        assert(s[0] == e);
    } else {
        assert(s[0] == entries[0]);
        assert(s.drop_first() =~= entries.drop_first().insert(pos - 1, e));
        lemma_find_path_insert_self(entries.drop_first(), pos - 1, e);
    }
}

proof fn lemma_find_path_insert_other(
    entries: Seq<IndexEntryV>,
    pos: int,
    e: IndexEntryV,
    p: Seq<u8>,
)
    requires
        0 <= pos <= entries.len(),
        p != e.path,
    ensures
        find_path(entries.insert(pos, e), p) == find_path(entries, p),
    decreases pos,
{
    let s = entries.insert(pos, e);
    if pos == 0 {
        assert(s[0] == e);
        assert(s.drop_first() =~= entries);
    } else {
        assert(s[0] == entries[0]);
        assert(s.drop_first() =~= entries.drop_first().insert(pos - 1, e));
        lemma_find_path_insert_other(entries.drop_first(), pos - 1, e, p);
    }
}

proof fn lemma_find_path_update_self(entries: Seq<IndexEntryV>, i: int, e: IndexEntryV)
    requires
        0 <= i < entries.len(),
        forall|j: int| 0 <= j < i ==> (#[trigger] entries[j]).path != e.path,
    ensures
        find_path(entries.update(i, e), e.path) == Some(e),
    decreases i,
{
    let s = entries.update(i, e);
    if i == 0 {
        assert(s[0] == e);
    } else {
        assert(s[0] == entries[0]);
        assert(s.drop_first() =~= entries.drop_first().update(i - 1, e));
        lemma_find_path_update_self(entries.drop_first(), i - 1, e);
    }
}

proof fn lemma_find_path_update_other(
    entries: Seq<IndexEntryV>,
    i: int,
    e: IndexEntryV,
    p: Seq<u8>,
)
    requires
        0 <= i < entries.len(),
        p != e.path,
        entries[i].path == e.path,
    ensures
        find_path(entries.update(i, e), p) == find_path(entries, p),
    decreases i,
{
    let s = entries.update(i, e);
    if i == 0 {
        assert(s[0] == e);
        assert(s.drop_first() =~= entries.drop_first());
    } else {
        assert(s[0] == entries[0]);
        assert(s.drop_first() =~= entries.drop_first().update(i - 1, e));
        lemma_find_path_update_other(entries.drop_first(), i - 1, e, p);
    }
}

/// A path fit for a tree entry name: no NUL byte, so the entry can be
/// parsed back out of the tree payload.
pub open spec fn path_no_nul(p: Seq<u8>) -> bool {
    forall|j: int| 0 <= j < p.len() ==> p[j] != 0
}

/// Entries strictly sorted by path, ids 40 bytes of lowercase hex,
/// paths free of NUL bytes.
pub open spec fn entries_wf(s: Seq<IndexEntryV>) -> bool {
    &&& forall|i: int, j: int|
        0 <= i < j < s.len() ==> lex_lt((#[trigger] s[i]).path, (#[trigger] s[j]).path)
    &&& forall|i: int|
        0 <= i < s.len() ==> (#[trigger] s[i]).object_id.len() == 40 && is_hex_lower(
            s[i].object_id,
        ) && path_no_nul(s[i].path)
}

/// The big-endian 32-bit value of four bytes.
pub open spec fn from_be32(s: Seq<u8>) -> u32 {
    (((s[0] as u32) << 24) | ((s[1] as u32) << 16) | ((s[2] as u32) << 8) | (s[3] as u32)) as u32
}

/// The big-endian 64-bit value of eight bytes.
pub open spec fn from_be64(s: Seq<u8>) -> u64 {
    (((s[0] as u64) << 56) | ((s[1] as u64) << 48) | ((s[2] as u64) << 40) | ((s[3] as u64) << 32)
        | ((s[4] as u64) << 24) | ((s[5] as u64) << 16) | ((s[6] as u64) << 8) | (s[7] as u64)) as u64
}

/// The big-endian bytes of `n`: the four bytes whose `from_be32` is `n`.
pub fn be32_bytes(n: u32) -> (r: Vec<u8>)
    ensures
        r@.len() == 4,
        from_be32(r@) == n,
{
    let b0 = ((n >> 24) & 0xff) as u8;
    let b1 = ((n >> 16) & 0xff) as u8;
    let b2 = ((n >> 8) & 0xff) as u8;
    let b3 = (n & 0xff) as u8;
    let r = vec![b0, b1, b2, b3];
    proof {
        assert(((((((n >> 24) & 0xff) as u8) as u32) << 24) | (((((n >> 16) & 0xff) as u8) as u32)
            << 16) | (((((n >> 8) & 0xff) as u8) as u32) << 8) | (((n & 0xff) as u8) as u32)) as u32
            == n) by (bit_vector);
        assert(r@[0] == b0 && r@[1] == b1 && r@[2] == b2 && r@[3] == b3);
    }
    r
}

/// The big-endian bytes of `n`: the eight bytes whose `from_be64` is `n`.
pub fn be64_bytes(n: u64) -> (r: Vec<u8>)
    ensures
        r@.len() == 8,
        from_be64(r@) == n,
{
    let b0 = ((n >> 56) & 0xff) as u8;
    let b1 = ((n >> 48) & 0xff) as u8;
    let b2 = ((n >> 40) & 0xff) as u8;
    let b3 = ((n >> 32) & 0xff) as u8;
    let b4 = ((n >> 24) & 0xff) as u8;
    let b5 = ((n >> 16) & 0xff) as u8;
    let b6 = ((n >> 8) & 0xff) as u8;
    let b7 = (n & 0xff) as u8;
    let r = vec![b0, b1, b2, b3, b4, b5, b6, b7];
    proof {
        assert(((((((n >> 56) & 0xff) as u8) as u64) << 56) | (((((n >> 48) & 0xff) as u8) as u64)
            << 48) | (((((n >> 40) & 0xff) as u8) as u64) << 40) | (((((n >> 32) & 0xff) as u8)
            as u64) << 32) | (((((n >> 24) & 0xff) as u8) as u64) << 24) | (((((n >> 16) & 0xff)
            as u8) as u64) << 16) | (((((n >> 8) & 0xff) as u8) as u64) << 8) | (((n & 0xff) as u8)
            as u64)) as u64 == n) by (bit_vector);
        assert(r@[0] == b0 && r@[1] == b1 && r@[2] == b2 && r@[3] == b3 && r@[4] == b4 && r@[5]
            == b5 && r@[6] == b6 && r@[7] == b7);
    }
    r
}

/// What the index file format denotes: a run of records, each a
/// length-prefixed path, mtime, mode, and a 40-byte object id.
pub open spec fn parse_index(s: Seq<u8>) -> Option<Seq<IndexEntryV>>
    decreases s.len(),
{
    if s.len() == 0 {
        Some(Seq::empty())
    } else if s.len() < 8 {
        None
    } else {
        let n = from_be64(s.subrange(0, 8)) as int;
        if s.len() < 60 + n {
            None
        } else {
            let e = IndexEntryV {
                path: s.subrange(8, 8 + n),
                mtime: from_be64(s.subrange(8 + n, 16 + n)),
                mode: from_be32(s.subrange(16 + n, 20 + n)),
                object_id: s.subrange(20 + n, 60 + n),
            };
            match parse_index(s.skip(60 + n)) {
                Some(rest) => Some(seq![e] + rest),
                None => None,
            }
        }
    }
}

fn ser_from(entries: &Vec<IndexEntry>, i: usize) -> (r: Vec<u8>)
    requires
        i <= entries@.len(),
        entries_wf(entries@.map_values(|e: IndexEntry| e@)),
    ensures
        parse_index(r@) == Some(entries@.map_values(|e: IndexEntry| e@).skip(i as int)),
    decreases entries@.len() - i,
{
    let ghost m = entries@.map_values(|e: IndexEntry| e@);
    if i == entries.len() {
        let r: Vec<u8> = Vec::new();
        proof {
            assert(m.skip(i as int) =~= Seq::<IndexEntryV>::empty());
        }
        r
    } else {
        let plen = entries[i].path.len();
        let mut out = be64_bytes(plen as u64);
        let ghost b4 = out@;
        append_bytes(&mut out, entries[i].path.as_slice());
        let b8 = be64_bytes(entries[i].mtime);
        append_bytes(&mut out, b8.as_slice());
        let m4 = be32_bytes(entries[i].mode);
        append_bytes(&mut out, m4.as_slice());
        append_bytes(&mut out, entries[i].object_id.as_slice());
        let rest = ser_from(entries, i + 1);
        append_bytes(&mut out, rest.as_slice());
        proof {
            let s = out@;
            let ev = m[i as int];
            let n = ev.path.len() as int;
            assert(s.len() == 60 + n + rest@.len());
            assert(s.subrange(0, 8) =~= b4);
            assert(from_be64(s.subrange(0, 8)) == plen as u64);
            assert(s.subrange(8, 8 + n) =~= ev.path);
            assert(s.subrange(8 + n, 16 + n) =~= b8@);
            assert(s.subrange(16 + n, 20 + n) =~= m4@);
            assert(s.subrange(20 + n, 60 + n) =~= ev.object_id);
            assert(s.skip(60 + n) =~= rest@);
            assert(parse_index(s) == Some(seq![ev] + m.skip(i as int + 1)));
            assert(m.skip(i as int) =~= seq![ev] + m.skip(i as int + 1));
        }
        out
    }
}

fn read_be32(data: &[u8], pos: usize) -> (r: u32)
    requires
        pos + 4 <= data@.len(),
    ensures
        r == from_be32(data@.subrange(pos as int, pos as int + 4)),
{
    ((data[pos] as u32) << 24) | ((data[pos + 1] as u32) << 16) | ((data[pos + 2] as u32) << 8) | (
    data[pos + 3] as u32)
}

fn read_be64(data: &[u8], pos: usize) -> (r: u64)
    requires
        pos + 8 <= data@.len(),
    ensures
        r == from_be64(data@.subrange(pos as int, pos as int + 8)),
{
    ((data[pos] as u64) << 56) | ((data[pos + 1] as u64) << 48) | ((data[pos + 2] as u64) << 40) | (
    (data[pos + 3] as u64) << 32) | ((data[pos + 4] as u64) << 24) | ((data[pos + 5] as u64) << 16)
        | ((data[pos + 6] as u64) << 8) | (data[pos + 7] as u64)
}

fn load_from(data: &[u8], pos: usize) -> (r: Option<Vec<IndexEntry>>)
    requires
        pos <= data@.len(),
    ensures
        match r {
            Some(v) => parse_index(data@.skip(pos as int)) == Some(
                v@.map_values(|e: IndexEntry| e@),
            ),
            None => parse_index(data@.skip(pos as int)) is None,
        },
    decreases data@.len() - pos,
{
    let ghost s = data@.skip(pos as int);
    if pos == data.len() {
        let v: Vec<IndexEntry> = Vec::new();
        proof {
            assert(s =~= Seq::<u8>::empty());
            assert(v@.map_values(|e: IndexEntry| e@) =~= Seq::<IndexEntryV>::empty());
        }
        return Some(v);
    }
    if data.len() - pos < 8 {
        return None;
    }
    proof {
        assert(s.subrange(0, 8) =~= data@.subrange(pos as int, pos as int + 8));
    }
    let n64 = read_be64(data, pos);
    if data.len() - pos < 60 {
        return None;
    }
    if ((data.len() - pos - 60) as u64) < n64 {
        return None;
    }
    let n = n64 as usize;
    let path = subvec(data, pos + 8, pos + 8 + n);
    proof {
        assert(s.subrange(8, 8 + n as int) =~= data@.subrange(
            pos as int + 8,
            pos as int + 8 + n as int,
        ));
        assert(s.subrange(8 + n as int, 16 + n as int) =~= data@.subrange(
            pos as int + 8 + n as int,
            pos as int + 16 + n as int,
        ));
        assert(s.subrange(16 + n as int, 20 + n as int) =~= data@.subrange(
            pos as int + 16 + n as int,
            pos as int + 20 + n as int,
        ));
        assert(s.subrange(20 + n as int, 60 + n as int) =~= data@.subrange(
            pos as int + 20 + n as int,
            pos as int + 60 + n as int,
        ));
        assert(s.skip(60 + n as int) =~= data@.skip(pos as int + 60 + n as int));
    }
    let mtime = read_be64(data, pos + 8 + n);
    let mode = read_be32(data, pos + 16 + n);
    let oid = subvec(data, pos + 20 + n, pos + 60 + n);
    match load_from(data, pos + 60 + n) {
        Some(mut rest) => {
            let e = IndexEntry { path, mtime, object_id: oid, mode };
            let ghost restm = rest@.map_values(|x: IndexEntry| x@);
            rest.insert(0, e);
            proof {
                assert(rest@.map_values(|x: IndexEntry| x@) =~= seq![e@] + restm);
            }
            Some(rest)
        },
        None => None,
    }
}

proof fn lemma_sorted_pair(s: Seq<IndexEntryV>, i: int, j: int)
    requires
        forall|k: int| 0 <= k < s.len() - 1 ==> lex_lt((#[trigger] s[k]).path, s[k + 1].path),
        0 <= i < j < s.len(),
    ensures
        lex_lt(s[i].path, s[j].path),
    decreases j - i,
{
    if j > i + 1 {
        lemma_sorted_pair(s, i, j - 1);
        lemma_lex_trans(s[i].path, s[j - 1].path, s[j].path);
    }
}

impl Index {
    /// Serialize the index; loading the result recovers the entries
    /// exactly (`parse_index` is the format's meaning).
    pub fn save(&self) -> (r: Vec<u8>)
        requires
            self.wf(),
        ensures
            parse_index(r@) == Some(self@),
    {
        let r = ser_from(&self.entries, 0);
        proof {
            assert(self@.skip(0) =~= self@);
        }
        r
    }

    /// Load an index from file bytes; empty bytes give an empty index.
    /// `Corrupt` exactly when the bytes parse to no well-formed index.
    pub fn load(data: &[u8]) -> (r: Result<Index, GitError>)
        ensures
            match r {
                Ok(ix) => parse_index(data@) == Some(ix@) && ix.wf(),
                Err(e) => e == GitError::Corrupt && (parse_index(data@) is None || !entries_wf(
                    parse_index(data@).unwrap(),
                )),
            },
    {
        proof {
            assert(data@.skip(0) =~= data@);
        }
        match load_from(data, 0) {
            Some(entries) => {
                let ix = Index { entries };
                let ghost m = ix@;
                let mut k: usize = 1;
                while k < ix.entries.len()
                    invariant
                        ix@ == m,
                        parse_index(data@) == Some(m),
                        k >= 1,
                        ix.entries@.len() > 0 ==> k <= ix.entries@.len(),
                        forall|x: int|
                            0 <= x < k - 1 ==> lex_lt((#[trigger] m[x]).path, m[x + 1].path),
                    decreases ix.entries@.len() - k,
                {
                    if !bytes_lt(ix.entries[k - 1].path.as_slice(), ix.entries[k].path.as_slice()) {
                        proof {
                            assert(!lex_lt(m[k - 1].path, m[k as int].path));
                            assert(!entries_wf(m));
                        }
                        return Err(GitError::Corrupt);
                    }
                    k = k + 1;
                }
                let mut x: usize = 0;
                while x < ix.entries.len()
                    invariant
                        ix@ == m,
                        parse_index(data@) == Some(m),
                        x <= ix.entries@.len(),
                        forall|i: int|
                            0 <= i < x ==> (#[trigger] m[i]).object_id.len() == 40 && is_hex_lower(
                                m[i].object_id,
                            ) && path_no_nul(m[i].path),
                    decreases ix.entries@.len() - x,
                {
                    if ix.entries[x].object_id.len() != 40 {
                        proof {
                            assert(m[x as int] == ix.entries@[x as int]@);
                            assert(m[x as int].object_id.len() != 40);
                            assert(!entries_wf(m));
                        }
                        return Err(GitError::Corrupt);
                    }
                    if !check_hex_lower(ix.entries[x].object_id.as_slice()) {
                        proof {
                            assert(m[x as int] == ix.entries@[x as int]@);
                            assert(!is_hex_lower(m[x as int].object_id));
                            assert(!entries_wf(m));
                        }
                        return Err(GitError::Corrupt);
                    }
                    if crate::bytes::find_byte(ix.entries[x].path.as_slice(), 0, 0).is_some() {
                        proof {
                            assert(m[x as int] == ix.entries@[x as int]@);
                            assert(!path_no_nul(m[x as int].path));
                            assert(!entries_wf(m));
                        }
                        return Err(GitError::Corrupt);
                    }
                    x = x + 1;
                }
                proof {
                    assert forall|i: int, j: int| 0 <= i < j < m.len() implies lex_lt(
                        (#[trigger] m[i]).path,
                        (#[trigger] m[j]).path,
                    ) by {
                        lemma_sorted_pair(m, i, j);
                    }
                }
                Ok(ix)
            },
            None => Err(GitError::Corrupt),
        }
    }
}

/// Normalize a path: strip one leading `./`.
pub fn normalize_path(path: &[u8]) -> (r: Vec<u8>)
    ensures
        r@ == if path@.len() >= 2 && path@[0] == 46 && path@[1] == 47 {
            path@.skip(2)
        } else {
            path@
        },
{
    if path.len() >= 2 && path[0] == 46 && path[1] == 47 {
        let r = subvec(path, 2, path.len());
        proof {
            assert(path@.subrange(2, path@.len() as int) =~= path@.skip(2));
        }
        r
    } else {
        copy_bytes(path)
    }
}


proof fn lemma_find_path_absent(entries: Seq<IndexEntryV>, p: Seq<u8>)
    requires
        forall|j: int| 0 <= j < entries.len() ==> (#[trigger] entries[j]).path != p,
    ensures
        find_path(entries, p) is None,
    decreases entries.len(),
{
    if entries.len() > 0 {
        lemma_find_path_absent(entries.drop_first(), p);
    }
}

proof fn lemma_find_path_remove(entries: Seq<IndexEntryV>, i: int, p: Seq<u8>)
    requires
        0 <= i < entries.len(),
        forall|j: int|
            0 <= j < entries.len() && j != i ==> (#[trigger] entries[j]).path != entries[i].path,
    ensures
        find_path(entries.remove(i), entries[i].path) is None,
        p != entries[i].path ==> find_path(entries.remove(i), p) == find_path(entries, p),
    decreases i,
{
    let s = entries.remove(i);
    if i == 0 {
        assert(s =~= entries.drop_first());
        lemma_find_path_absent(entries.drop_first(), entries[0].path);
    } else {
        assert(s[0] == entries[0]);
        assert(s.drop_first() =~= entries.drop_first().remove(i - 1));
        lemma_find_path_remove(entries.drop_first(), i - 1, p);
    }
}

/// What `find_path` returns comes from some element of the entries.
pub proof fn lemma_find_path_index(entries: Seq<IndexEntryV>, p: Seq<u8>)
    requires
        find_path(entries, p) is Some,
    ensures
        exists|i: int|
            0 <= i < entries.len() && (#[trigger] entries[i]).path == p && find_path(entries, p)
                == Some(entries[i]),
    decreases entries.len(),
{
    if entries.len() > 0 && entries[0].path != p {
        lemma_find_path_index(entries.drop_first(), p);
        let i = choose|i: int|
            0 <= i < entries.drop_first().len() && (#[trigger] entries.drop_first()[i]).path == p
                && find_path(entries.drop_first(), p) == Some(entries.drop_first()[i]);
        assert(entries[i + 1] == entries.drop_first()[i]);
    }
}

impl Index {
    /// Drop the entry under `path` exactly, leaving every other entry
    /// (a no-op when the path is not staged).
    pub fn remove_entry(&mut self, path: &[u8])
        requires
            old(self).wf(),
        ensures
            final(self).wf(),
            find_path(final(self)@, path@) is None,
            forall|p: Seq<u8>|
                p != path@ ==> find_path(final(self)@, p) == find_path(old(self)@, p),
    {
        let ghost v0 = self@;
        let mut i: usize = 0;
        proof {
            assert(v0.skip(0) =~= v0);
        }
        while i < self.entries.len()
            invariant
                i <= self.entries@.len(),
                self@ == v0,
                v0 == old(self)@,
                entries_wf(v0),
                forall|j: int| 0 <= j < i ==> (#[trigger] v0[j]).path != path@,
                find_path(v0, path@) == find_path(v0.skip(i as int), path@),
            decreases self.entries@.len() - i,
        {
            proof {
                assert(v0[i as int] == self.entries@[i as int]@);
            }
            if bytes_eq(self.entries[i].path.as_slice(), path) {
                proof {
                    assert forall|j: int|
                        0 <= j < v0.len() && j != i implies (#[trigger] v0[j]).path != v0[
                        i as int
                    ].path by {
                        lemma_lex_irrefl(v0[i as int].path);
                    }
                    let s = v0.remove(i as int);
                    assert forall|x: int, y: int| 0 <= x < y < s.len() implies lex_lt(
                        (#[trigger] s[x]).path,
                        (#[trigger] s[y]).path,
                    ) by {
                        if y < i {
                        } else if x < i {
                            assert(s[y] == v0[y + 1]);
                        } else {
                            assert(s[x] == v0[x + 1]);
                            assert(s[y] == v0[y + 1]);
                        }
                    }
                }
                let ghost e0 = self.entries@;
                self.entries.remove(i);
                proof {
                    assert(self.entries@ == e0.remove(i as int));
                    assert forall|x: int| 0 <= x < self@.len() implies self@[x] == v0.remove(
                        i as int,
                    )[x] by {
                        if x < i {
                            assert(self.entries@[x] == e0[x]);
                        } else {
                            assert(self.entries@[x] == e0[x + 1]);
                        }
                    }
                    assert(self@ =~= v0.remove(i as int));
                    assert(v0[i as int].path == path@);
                    assert forall|p: Seq<u8>| p != path@ implies find_path(self@, p) == find_path(
                        v0,
                        p,
                    ) by {
                        lemma_find_path_remove(v0, i as int, p);
                    }
                    assert(find_path(self@, path@) is None) by {
                        lemma_find_path_remove(v0, i as int, path@);
                    }
                }
                return ;
            }
            proof {
                assert(v0.skip(i as int).drop_first() =~= v0.skip(i as int + 1));
                assert(v0.skip(i as int)[0] == v0[i as int]);
            }
            i = i + 1;
        }
        proof {
            assert(find_path(v0, path@) is None);
        }
    }
}


/// In a well-formed index each entry answers for its own path.
pub proof fn lemma_find_path_self(entries: Seq<IndexEntryV>, i: int)
    requires
        entries_wf(entries),
        0 <= i < entries.len(),
    ensures
        find_path(entries, entries[i].path) == Some(entries[i]),
    decreases i,
{
    if i > 0 {
        assert(lex_lt(entries[0].path, entries[i].path));
        lemma_lex_irrefl(entries[i].path);
        assert(entries[0].path != entries[i].path);
        let t = entries.drop_first();
        assert(entries_wf(t)) by {
            assert forall|x: int, y: int| 0 <= x < y < t.len() implies lex_lt(
                (#[trigger] t[x]).path,
                (#[trigger] t[y]).path,
            ) by {
                assert(t[x] == entries[x + 1] && t[y] == entries[y + 1]);
            }
            assert forall|x: int|
                0 <= x < t.len() implies (#[trigger] t[x]).object_id.len() == 40
                && crate::hexcode::is_hex_lower(t[x].object_id) && path_no_nul(t[x].path) by {
                assert(t[x] == entries[x + 1]);
            }
        }
        assert(t[i - 1] == entries[i]);
        lemma_find_path_self(t, i - 1);
    }
}

} // verus!
