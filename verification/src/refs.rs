//! Refs: named mutable pointers into the object graph, plus the
//! symbolic HEAD. The model holds the ref entries strictly sorted by
//! name, so names are unique and branch listings come out ordered.

use crate::bytes::{bytes_eq, bytes_lt, lex_lt, starts_with, subvec};
use crate::errors::GitError;
use crate::lits::{
    head_name, head_name_bytes, heads_prefix, heads_prefix_bytes, refs_prefix, refs_prefix_bytes,
    remotes_prefix, remotes_prefix_bytes, symref_prefix, symref_prefix_bytes, tags_prefix,
    tags_prefix_bytes,
};
use crate::store::copy_bytes;
use vstd::pervasive::VecAdditionalExecFns;
use vstd::prelude::*;

verus! {

/// One ref: a full name such as `refs/heads/master`, and the hex object
/// id it points to.
pub struct RefEntry {
    pub name: Vec<u8>,
    pub oid: Vec<u8>,
}

/// The oid stored under `name`, if any.
pub open spec fn find_ref(entries: Seq<RefEntry>, name: Seq<u8>) -> Option<Seq<u8>>
    decreases entries.len(),
{
    if entries.len() == 0 {
        None
    } else if entries[0].name@ == name {
        Some(entries[0].oid@)
    } else {
        find_ref(entries.drop_first(), name)
    }
}

/// Entries strictly sorted by name.
pub open spec fn sorted_refs(entries: Seq<RefEntry>) -> bool {
    forall|i: int, j: int|
        0 <= i < j < entries.len() ==> lex_lt(
            (#[trigger] entries[i]).name@,
            (#[trigger] entries[j]).name@,
        )
}

/// The refs of a repository, with the content of the HEAD file
/// (without its trailing newline): either `ref: <refname>` or a hex id.
pub struct RefStore {
    pub entries: Vec<RefEntry>,
    pub head: Vec<u8>,
}

impl RefStore {
    pub open spec fn wf(self) -> bool {
        sorted_refs(self.entries@)
    }
}

/// Lexicographic order is irreflexive.
pub proof fn lemma_lex_irrefl(a: Seq<u8>)
    ensures
        !lex_lt(a, a),
    decreases a.len(),
{
    if a.len() > 0 {
        lemma_lex_irrefl(a.drop_first());
    }
}

/// Lexicographic order is total.
pub proof fn lemma_lex_total(a: Seq<u8>, b: Seq<u8>)
    ensures
        a == b || lex_lt(a, b) || lex_lt(b, a),
    decreases a.len(),
{
    if a.len() > 0 && b.len() > 0 && a[0] == b[0] {
        lemma_lex_total(a.drop_first(), b.drop_first());
        if a.drop_first() == b.drop_first() {
            assert(a.drop_first().len() == b.drop_first().len());
            assert(a.drop_first().len() == a.len() - 1);
            assert(b.drop_first().len() == b.len() - 1);
            assert(a.len() == b.len());
            assert forall|i: int| 0 <= i < a.len() implies a[i] == b[i] by {
                if i >= 1 {
                    assert(a[i] == a.drop_first()[i - 1]);
                    assert(b[i] == b.drop_first()[i - 1]);
                }
            }
            assert(a =~= b);
        }
    }
}

/// Lexicographic order is transitive.
pub proof fn lemma_lex_trans(a: Seq<u8>, b: Seq<u8>, c: Seq<u8>)
    requires
        lex_lt(a, b),
        lex_lt(b, c),
    ensures
        lex_lt(a, c),
    decreases a.len(),
{
    if c.len() > 0 && a.len() > 0 && b.len() > 0 && a[0] == b[0] && b[0] == c[0] {
        lemma_lex_trans(a.drop_first(), b.drop_first(), c.drop_first());
    }
}

/// Appending a common prefix keeps the order.
pub proof fn lemma_lex_prefix(p: Seq<u8>, a: Seq<u8>, b: Seq<u8>)
    ensures
        lex_lt(p + a, p + b) == lex_lt(a, b),
    decreases p.len(),
{
    if p.len() == 0 {
        assert(p + a =~= a);
        assert(p + b =~= b);
    } else {
        assert((p + a).drop_first() =~= p.drop_first() + a);
        assert((p + b).drop_first() =~= p.drop_first() + b);
        lemma_lex_prefix(p.drop_first(), a, b);
    }
}

fn find_ref_in(entries: &Vec<RefEntry>, name: &[u8]) -> (r: Option<usize>)
    ensures
        match r {
            Some(i) => i < entries@.len() && entries@[i as int].name@ == name@ && find_ref(
                entries@,
                name@,
            ) == Some(entries@[i as int].oid@),
            None => find_ref(entries@, name@) is None,
        },
{
    let mut i: usize = 0;
    proof {
        assert(entries@.skip(0) =~= entries@);
    }
    while i < entries.len()
        invariant
            i <= entries@.len(),
            forall|j: int| 0 <= j < i ==> (#[trigger] entries@[j]).name@ != name@,
            find_ref(entries@, name@) == find_ref(entries@.skip(i as int), name@),
        decreases entries@.len() - i,
    {
        if bytes_eq(entries[i].name.as_slice(), name) {
            proof {
                assert(entries@.skip(i as int)[0] == entries@[i as int]);
            }
            return Some(i);
        }
        proof {
            assert(entries@.skip(i as int).drop_first() =~= entries@.skip(i as int + 1));
            assert(entries@.skip(i as int)[0] == entries@[i as int]);
        }
        i = i + 1;
    }
    None
}

/// Concatenation of two byte slices.
pub fn concat2(a: &[u8], b: &[u8]) -> (r: Vec<u8>)
    ensures
        r@ == a@ + b@,
{
    let mut r = copy_bytes(a);
    crate::bytes::append_bytes(&mut r, b);
    r
}

/// Where a ref name resolves: `refs/...` verbatim; `HEAD` itself;
/// otherwise the first of `refs/heads/`, `refs/tags/`, `refs/remotes/`
/// under which the name exists, falling back to `refs/heads/`.
pub open spec fn resolve_spec(entries: Seq<RefEntry>, name: Seq<u8>) -> Seq<u8> {
    if name.len() >= 5 && name.subrange(0, 5) == refs_prefix() {
        name
    } else if name == head_name() {
        head_name()
    } else if find_ref(entries, heads_prefix() + name) is Some {
        heads_prefix() + name
    } else if find_ref(entries, tags_prefix() + name) is Some {
        tags_prefix() + name
    } else if find_ref(entries, remotes_prefix() + name) is Some {
        remotes_prefix() + name
    } else {
        heads_prefix() + name
    }
}

/// Resolve a ref name to the full name of the ref file it denotes.
pub fn resolve_ref_path(refs: &RefStore, name: &[u8]) -> (r: Vec<u8>)
    ensures
        r@ == resolve_spec(refs.entries@, name@),
{
    let rp = refs_prefix_bytes();
    if starts_with(name, rp.as_slice()) {
        return copy_bytes(name);
    }
    let hn = head_name_bytes();
    if bytes_eq(name, hn.as_slice()) {
        return hn;
    }
    let heads = concat2(heads_prefix_bytes().as_slice(), name);
    if find_ref_in(&refs.entries, heads.as_slice()).is_some() {
        return heads;
    }
    let tags = concat2(tags_prefix_bytes().as_slice(), name);
    if find_ref_in(&refs.entries, tags.as_slice()).is_some() {
        return tags;
    }
    let remotes = concat2(remotes_prefix_bytes().as_slice(), name);
    if find_ref_in(&refs.entries, remotes.as_slice()).is_some() {
        return remotes;
    }
    heads
}

/// What reading a ref name returns: the HEAD content for `HEAD`, else
/// the oid stored under the resolved name.
pub open spec fn read_ref_spec(refs: RefStore, name: Seq<u8>) -> Option<Seq<u8>> {
    let resolved = resolve_spec(refs.entries@, name);
    if resolved == head_name() {
        Some(refs.head@)
    } else {
        find_ref(refs.entries@, resolved)
    }
}

/// Read the oid a ref points to; `NotFound` exactly when the resolved
/// ref does not exist.
pub fn read_ref(refs: &RefStore, name: &[u8]) -> (r: Result<Vec<u8>, GitError>)
    ensures
        match r {
            Ok(v) => read_ref_spec(*refs, name@) == Some(v@),
            Err(e) => e == GitError::NotFound && read_ref_spec(*refs, name@) is None,
        },
{
    let resolved = resolve_ref_path(refs, name);
    let hn = head_name_bytes();
    if bytes_eq(resolved.as_slice(), hn.as_slice()) {
        return Ok(copy_bytes(refs.head.as_slice()));
    }
    match find_ref_in(&refs.entries, resolved.as_slice()) {
        Some(i) => Ok(copy_bytes(refs.entries[i].oid.as_slice())),
        None => Err(GitError::NotFound),
    }
}

proof fn lemma_find_ref_insert_self(entries: Seq<RefEntry>, pos: int, e: RefEntry)
    requires
        0 <= pos <= entries.len(),
        forall|j: int| 0 <= j < pos ==> (#[trigger] entries[j]).name@ != e.name@,
    ensures
        find_ref(entries.insert(pos, e), e.name@) == Some(e.oid@),
    decreases pos,
{
    let s = entries.insert(pos, e);
    if pos == 0 {
        assert(s[0] == e);
    } else {
        assert(s[0] == entries[0]);
        assert(s.drop_first() =~= entries.drop_first().insert(pos - 1, e));
        lemma_find_ref_insert_self(entries.drop_first(), pos - 1, e);
    }
}

proof fn lemma_find_ref_insert_other(entries: Seq<RefEntry>, pos: int, e: RefEntry, n: Seq<u8>)
    requires
        0 <= pos <= entries.len(),
        n != e.name@,
    ensures
        find_ref(entries.insert(pos, e), n) == find_ref(entries, n),
    decreases pos,
{
    let s = entries.insert(pos, e);
    if pos == 0 {
        assert(s[0] == e);
        assert(s.drop_first() =~= entries);
    } else {
        assert(s[0] == entries[0]);
        assert(s.drop_first() =~= entries.drop_first().insert(pos - 1, e));
        lemma_find_ref_insert_other(entries.drop_first(), pos - 1, e, n);
    }
}

proof fn lemma_find_ref_update_self(entries: Seq<RefEntry>, i: int, e: RefEntry)
    requires
        0 <= i < entries.len(),
        forall|j: int| 0 <= j < i ==> (#[trigger] entries[j]).name@ != e.name@,
    ensures
        find_ref(entries.update(i, e), e.name@) == Some(e.oid@),
    decreases i,
{
    let s = entries.update(i, e);
    if i == 0 {
        assert(s[0] == e);
    } else {
        assert(s[0] == entries[0]);
        assert(s.drop_first() =~= entries.drop_first().update(i - 1, e));
        lemma_find_ref_update_self(entries.drop_first(), i - 1, e);
    }
}

proof fn lemma_find_ref_update_other(entries: Seq<RefEntry>, i: int, e: RefEntry, n: Seq<u8>)
    requires
        0 <= i < entries.len(),
        n != e.name@,
        entries[i].name@ == e.name@,
    ensures
        find_ref(entries.update(i, e), n) == find_ref(entries, n),
    decreases i,
{
    let s = entries.update(i, e);
    if i == 0 {
        assert(s[0] == e);
        assert(s.drop_first() =~= entries.drop_first());
    } else {
        assert(s[0] == entries[0]);
        assert(s.drop_first() =~= entries.drop_first().update(i - 1, e));
        lemma_find_ref_update_other(entries.drop_first(), i - 1, e, n);
    }
}

proof fn lemma_find_ref_remove(entries: Seq<RefEntry>, i: int, n: Seq<u8>)
    requires
        0 <= i < entries.len(),
        forall|j: int|
            0 <= j < entries.len() && j != i ==> (#[trigger] entries[j]).name@
                != entries[i].name@,
    ensures
        find_ref(entries.remove(i), entries[i].name@) is None,
        n != entries[i].name@ ==> find_ref(entries.remove(i), n) == find_ref(entries, n),
    decreases i,
{
    let s = entries.remove(i);
    if i == 0 {
        assert(s =~= entries.drop_first());
        lemma_find_ref_absent(entries.drop_first(), entries[0].name@);
    } else {
        assert(s[0] == entries[0]);
        assert(s.drop_first() =~= entries.drop_first().remove(i - 1));
        lemma_find_ref_remove(entries.drop_first(), i - 1, n);
    }
}

proof fn lemma_find_ref_absent(entries: Seq<RefEntry>, n: Seq<u8>)
    requires
        forall|j: int| 0 <= j < entries.len() ==> (#[trigger] entries[j]).name@ != n,
    ensures
        find_ref(entries, n) is None,
    decreases entries.len(),
{
    if entries.len() > 0 {
        lemma_find_ref_absent(entries.drop_first(), n);
    }
}

/// Set a ref to an oid: the resolved ref now holds `commit_id`, every
/// other ref is untouched. Resolving to `HEAD` sets the HEAD content
/// itself (a detached HEAD).
pub fn update_ref(refs: &mut RefStore, name: &[u8], commit_id: &[u8])
    requires
        old(refs).wf(),
    ensures
        final(refs).wf(),
        ({
            let resolved = resolve_spec(old(refs).entries@, name@);
            if resolved == head_name() {
                final(refs).head@ == commit_id@ && final(refs).entries@ == old(refs).entries@
            } else {
                &&& final(refs).head@ == old(refs).head@
                &&& find_ref(final(refs).entries@, resolved) == Some(commit_id@)
                &&& forall|n: Seq<u8>|
                    n != resolved ==> find_ref(final(refs).entries@, n) == find_ref(
                        old(refs).entries@,
                        n,
                    )
            }
        }),
{
    let resolved = resolve_ref_path(refs, name);
    let hn = head_name_bytes();
    if bytes_eq(resolved.as_slice(), hn.as_slice()) {
        refs.head = copy_bytes(commit_id);
        return ;
    }
    let ghost entries0 = refs.entries@;
    let mut i: usize = 0;
    while i < refs.entries.len() && bytes_lt(refs.entries[i].name.as_slice(), resolved.as_slice())
        invariant
            i <= refs.entries@.len(),
            refs.entries@ == entries0,
            forall|j: int| 0 <= j < i ==> lex_lt((#[trigger] entries0[j]).name@, resolved@),
        decreases refs.entries@.len() - i,
    {
        i = i + 1;
    }
    proof {
        assert forall|j: int| 0 <= j < i implies (#[trigger] entries0[j]).name@ != resolved@ by {
            lemma_lex_irrefl(resolved@);
        }
    }
    let e = RefEntry { name: resolved, oid: copy_bytes(commit_id) };
    if i < refs.entries.len() && bytes_eq(refs.entries[i].name.as_slice(), e.name.as_slice()) {
        proof {
            lemma_find_ref_update_self(entries0, i as int, e);
            assert forall|n: Seq<u8>| n != e.name@ implies find_ref(
                entries0.update(i as int, e),
                n,
            ) == find_ref(entries0, n) by {
                lemma_find_ref_update_other(entries0, i as int, e, n);
            }
        }
        refs.entries.set(i, e);
    } else {
        proof {
            lemma_find_ref_insert_self(entries0, i as int, e);
            assert forall|n: Seq<u8>| n != e.name@ implies find_ref(
                entries0.insert(i as int, e),
                n,
            ) == find_ref(entries0, n) by {
                lemma_find_ref_insert_other(entries0, i as int, e, n);
            }
            if i < entries0.len() {
                lemma_lex_total(entries0[i as int].name@, e.name@);
            }
            let s = entries0.insert(i as int, e);
            assert forall|x: int, y: int| 0 <= x < y < s.len() implies lex_lt(
                (#[trigger] s[x]).name@,
                (#[trigger] s[y]).name@,
            ) by {
                if x == i && y > i {
                    assert(s[y] == entries0[y - 1]);
                    if y - 1 > i {
                        lemma_lex_trans(e.name@, entries0[i as int].name@, entries0[y - 1].name@);
                    }
                } else if x < i && y > i {
                    assert(s[x] == entries0[x]);
                    assert(s[y] == entries0[y - 1]);
                }
            }
        }
        refs.entries.insert(i, e);
    }
}

/// Create (or advance) the branch `branch_name` to `commit_id`.
pub fn create_branch(refs: &mut RefStore, branch_name: &[u8], commit_id: &[u8])
    requires
        old(refs).wf(),
    ensures
        final(refs).wf(),
        final(refs).head@ == old(refs).head@,
        find_ref(final(refs).entries@, heads_prefix() + branch_name@) == Some(commit_id@),
        forall|n: Seq<u8>|
            n != heads_prefix() + branch_name@ ==> find_ref(final(refs).entries@, n) == find_ref(
                old(refs).entries@,
                n,
            ),
{
    let full = concat2(heads_prefix_bytes().as_slice(), branch_name);
    proof {
        assert((heads_prefix() + branch_name@).subrange(0, 5) =~= refs_prefix());
    }
    update_ref(refs, full.as_slice(), commit_id);
}

/// Delete the branch `branch_name`; `UnknownBranch` when it is missing.
pub fn delete_branch(refs: &mut RefStore, branch_name: &[u8]) -> (r: Result<(), GitError>)
    requires
        old(refs).wf(),
    ensures
        final(refs).wf(),
        final(refs).head@ == old(refs).head@,
        match r {
            Ok(()) => ({
                &&& find_ref(old(refs).entries@, heads_prefix() + branch_name@) is Some
                &&& find_ref(final(refs).entries@, heads_prefix() + branch_name@) is None
                &&& forall|n: Seq<u8>|
                    n != heads_prefix() + branch_name@ ==> find_ref(final(refs).entries@, n)
                        == find_ref(old(refs).entries@, n)
            }),
            Err(e) => e == GitError::UnknownBranch && final(refs).entries@ == old(refs).entries@
                && find_ref(old(refs).entries@, heads_prefix() + branch_name@) is None,
        },
{
    let full = concat2(heads_prefix_bytes().as_slice(), branch_name);
    match find_ref_in(&refs.entries, full.as_slice()) {
        Some(i) => {
            proof {
                let entries0 = refs.entries@;
                assert forall|j: int|
                    0 <= j < entries0.len() && j != i implies (#[trigger] entries0[j]).name@
                    != entries0[i as int].name@ by {
                    lemma_lex_irrefl(entries0[i as int].name@);
                }
                assert forall|n: Seq<u8>| true implies (n != entries0[i as int].name@ ==> find_ref(
                    entries0.remove(i as int),
                    n,
                ) == find_ref(entries0, n)) && find_ref(
                    entries0.remove(i as int),
                    entries0[i as int].name@,
                ) is None by {
                    lemma_find_ref_remove(entries0, i as int, n);
                }
            }
            refs.entries.remove(i);
            Ok(())
        },
        None => Err(GitError::UnknownBranch),
    }
}

/// What HEAD dereferences to: the target of the symbolic ref when HEAD
/// is attached, else the HEAD content itself.
pub open spec fn head_commit_spec(refs: RefStore) -> Option<Seq<u8>> {
    if refs.head@.len() >= 5 && refs.head@.subrange(0, 5) == symref_prefix() {
        read_ref_spec(refs, refs.head@.skip(5))
    } else {
        Some(refs.head@)
    }
}

/// The commit HEAD points at, dereferencing an attached HEAD once.
pub fn get_head_commit(refs: &RefStore) -> (r: Result<Vec<u8>, GitError>)
    ensures
        match r {
            Ok(v) => head_commit_spec(*refs) == Some(v@),
            Err(e) => e == GitError::NotFound && head_commit_spec(*refs) is None,
        },
{
    let sp = symref_prefix_bytes();
    if starts_with(refs.head.as_slice(), sp.as_slice()) {
        let name = subvec(refs.head.as_slice(), 5, refs.head.len());
        proof {
            assert(refs.head@.subrange(5, refs.head@.len() as int) =~= refs.head@.skip(5));
        }
        read_ref(refs, name.as_slice())
    } else {
        Ok(copy_bytes(refs.head.as_slice()))
    }
}

/// The branch HEAD is attached to: the part of the HEAD content after
/// `ref: refs/heads/`; `DetachedHead` when HEAD is not of that form.
pub fn current_branch(refs: &RefStore) -> (r: Result<Vec<u8>, GitError>)
    ensures
        match r {
            Ok(v) => refs.head@.len() >= 16 && refs.head@.subrange(0, 16) == symref_prefix()
                + heads_prefix() && v@ == refs.head@.skip(16),
            Err(e) => e == GitError::DetachedHead && !(refs.head@.len() >= 16 && refs.head@
                .subrange(0, 16) == symref_prefix() + heads_prefix()),
        },
{
    let pre = concat2(symref_prefix_bytes().as_slice(), heads_prefix_bytes().as_slice());
    if starts_with(refs.head.as_slice(), pre.as_slice()) {
        let v = subvec(refs.head.as_slice(), 16, refs.head.len());
        proof {
            assert(refs.head@.subrange(16, refs.head@.len() as int) =~= refs.head@.skip(16));
        }
        Ok(v)
    } else {
        Err(GitError::DetachedHead)
    }
}

/// The suffixes after `refs/heads/` of the entry names that carry
/// that prefix, in entry order.
pub open spec fn branches_of(entries: Seq<RefEntry>) -> Seq<Seq<u8>>
    decreases entries.len(),
{
    if entries.len() == 0 {
        Seq::empty()
    } else {
        let nm = entries.last().name@;
        branches_of(entries.drop_last()) + if nm.len() >= 11 && nm.subrange(0, 11)
            == heads_prefix() {
            seq![nm.skip(11)]
        } else {
            Seq::<Seq<u8>>::empty()
        }
    }
}

/// Every listed branch is the suffix of some `refs/heads/` entry.
pub proof fn lemma_branches_mem(entries: Seq<RefEntry>)
    ensures
        forall|i: int|
            0 <= i < branches_of(entries).len() ==> exists|m: int|
                0 <= m < entries.len() && (#[trigger] branches_of(entries)[i]) == entries[
                    m
                ].name@.skip(11) && entries[m].name@.len() >= 11 && entries[m].name@.subrange(
                    0,
                    11,
                ) == heads_prefix(),
    decreases entries.len(),
{
    if entries.len() > 0 {
        lemma_branches_mem(entries.drop_last());
        let b = branches_of(entries);
        let bp = branches_of(entries.drop_last());
        assert forall|i: int| 0 <= i < b.len() implies exists|m: int|
            0 <= m < entries.len() && (#[trigger] b[i]) == entries[m].name@.skip(11) && entries[
                m
            ].name@.len() >= 11 && entries[m].name@.subrange(0, 11) == heads_prefix() by {
            if i < bp.len() {
                let m = choose|m: int|
                    0 <= m < entries.drop_last().len() && (#[trigger] bp[i]) == entries.drop_last()[
                        m
                    ].name@.skip(11) && entries.drop_last()[m].name@.len() >= 11
                        && entries.drop_last()[m].name@.subrange(0, 11) == heads_prefix();
                assert(entries.drop_last()[m] == entries[m]);
                assert(b[i] == bp[i]);
            } else {
                let m = entries.len() - 1;
                assert(b[i] == entries[m].name@.skip(11));
            }
        }
    }
}

/// On a sorted ref store the listed branches are in ascending order.
pub proof fn lemma_branches_sorted(entries: Seq<RefEntry>)
    requires
        sorted_refs(entries),
    ensures
        forall|i: int, j: int|
            0 <= i < j < branches_of(entries).len() ==> lex_lt(
                #[trigger] branches_of(entries)[i],
                #[trigger] branches_of(entries)[j],
            ),
    decreases entries.len(),
{
    if entries.len() > 0 {
        let prior = entries.drop_last();
        assert(sorted_refs(prior)) by {
            assert forall|i: int, j: int| 0 <= i < j < prior.len() implies lex_lt(
                (#[trigger] prior[i]).name@,
                (#[trigger] prior[j]).name@,
            ) by {
                assert(prior[i] == entries[i] && prior[j] == entries[j]);
            }
        }
        lemma_branches_sorted(prior);
        lemma_branches_mem(prior);
        let b = branches_of(entries);
        let bp = branches_of(prior);
        assert forall|i: int, j: int| 0 <= i < j < b.len() implies lex_lt(
            #[trigger] b[i],
            #[trigger] b[j],
        ) by {
            if j < bp.len() {
                assert(b[i] == bp[i] && b[j] == bp[j]);
            } else {
                let nm = entries.last().name@;
                assert(b[j] == nm.skip(11));
                assert(b[i] == bp[i]);
                let m = choose|m: int|
                    0 <= m < prior.len() && (#[trigger] bp[i]) == prior[m].name@.skip(11) && prior[
                        m
                    ].name@.len() >= 11 && prior[m].name@.subrange(0, 11) == heads_prefix();
                let a = prior[m].name@;
                assert(prior[m] == entries[m]);
                assert(lex_lt(a, nm));
                assert(a =~= heads_prefix() + a.skip(11));
                assert(nm =~= heads_prefix() + nm.skip(11));
                lemma_lex_prefix(heads_prefix(), a.skip(11), nm.skip(11));
            }
        }
    }
}

/// The branch names under `refs/heads/`: with a well-formed ref store
/// they come out in ascending byte order (`lemma_branches_sorted`).
pub fn list_branches(refs: &RefStore) -> (r: Vec<Vec<u8>>)
    ensures
        r@.map_values(|v: Vec<u8>| v@) == branches_of(refs.entries@),
{
    let hp = heads_prefix_bytes();
    let mut r: Vec<Vec<u8>> = Vec::new();
    let mut k: usize = 0;
    proof {
        assert(refs.entries@.take(0) =~= Seq::<RefEntry>::empty());
        assert(r@.map_values(|v: Vec<u8>| v@) =~= branches_of(refs.entries@.take(0)));
    }
    while k < refs.entries.len()
        invariant
            hp@ == heads_prefix(),
            k <= refs.entries@.len(),
            r@.map_values(|v: Vec<u8>| v@) == branches_of(refs.entries@.take(k as int)),
        decreases refs.entries@.len() - k,
    {
        let ghost r0 = r@;
        let name_ref = &refs.entries[k].name;
        if starts_with(name_ref.as_slice(), hp.as_slice()) {
            let suffix = subvec(name_ref.as_slice(), 11, name_ref.len());
            proof {
                let nm = refs.entries@[k as int].name@;
                assert(nm.subrange(11, nm.len() as int) =~= nm.skip(11));
            }
            r.push(suffix);
        }
        proof {
            let t1 = refs.entries@.take(k + 1);
            assert(t1.drop_last() =~= refs.entries@.take(k as int));
            assert(t1.last() == refs.entries@[k as int]);
            assert(r@.map_values(|v: Vec<u8>| v@) =~= branches_of(t1));
        }
        k = k + 1;
    }
    proof {
        assert(refs.entries@.take(refs.entries@.len() as int) =~= refs.entries@);
    }
    r
}

proof fn lemma_find_ref_present(entries: Seq<RefEntry>, i: int)
    requires
        0 <= i < entries.len(),
    ensures
        find_ref(entries, entries[i].name@) is Some,
    decreases i,
{
    if entries.len() > 0 && entries[0].name@ != entries[i].name@ {
        assert(entries.drop_first()[i - 1] == entries[i]);
        lemma_find_ref_present(entries.drop_first(), i - 1);
    }
}

} // verus!
