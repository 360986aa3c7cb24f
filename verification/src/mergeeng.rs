//! The three-way merge engine: reconciling the file sets of two
//! commits against their merge base, path by path, and locating the
//! conflicting line ranges of an edit/edit conflict.

use crate::bytes::{bytes_eq, lines_of, split_lines};
use crate::codec::ObjType;
use crate::commitobj::commit_tree;
use crate::errors::GitError;
use crate::store::{copy_bytes, read_object, ObjectStore};
use crate::tree::{files_of_tree, get_tree_files, TreeFile, TreeFileV};
use vstd::prelude::*;

verus! {

/// The views of a list of flattened tree files.
pub open spec fn views_of(files: Seq<TreeFile>) -> Seq<TreeFileV> {
    files.map_values(|f: TreeFile| f@)
}

/// The oid stored under `name`, if any.
pub open spec fn file_at(files: Seq<TreeFileV>, name: Seq<u8>) -> Option<Seq<u8>>
    decreases files.len(),
{
    if files.len() == 0 {
        None
    } else if files[0].name == name {
        Some(files[0].oid)
    } else {
        file_at(files.drop_first(), name)
    }
}

pub fn find_file_pub(files: &Vec<TreeFile>, name: &[u8]) -> (r: Option<Vec<u8>>)
    ensures
        match r {
            Some(v) => file_at(files@.map_values(|f: TreeFile| f@), name@) == Some(v@),
            None => file_at(files@.map_values(|f: TreeFile| f@), name@) is None,
        },
{
    let ghost m = files@.map_values(|f: TreeFile| f@);
    let mut i: usize = 0;
    proof {
        assert(m.skip(0) =~= m);
    }
    while i < files.len()
        invariant
            i <= files@.len(),
            m == files@.map_values(|f: TreeFile| f@),
            file_at(m, name@) == file_at(m.skip(i as int), name@),
        decreases files@.len() - i,
    {
        if bytes_eq(files[i].name.as_slice(), name) {
            proof {
                assert(m.skip(i as int)[0] == m[i as int]);
            }
            return Some(copy_bytes(files[i].oid.as_slice()));
        }
        proof {
            assert(m.skip(i as int).drop_first() =~= m.skip(i as int + 1));
            assert(m.skip(i as int)[0] == m[i as int]);
        }
        i = i + 1;
    }
    None
}

/// The oid a three-way reconciliation keeps for one path, given what
/// the base, ours, and theirs hold there. On a conflict, ours wins
/// where ours still exists, else theirs.
pub open spec fn merge_value(
    b: Option<Seq<u8>>,
    o: Option<Seq<u8>>,
    t: Option<Seq<u8>>,
) -> Option<Seq<u8>> {
    match (b, o, t) {
        (None, None, None) => None,
        (None, Some(ov), None) => Some(ov),
        (None, None, Some(tv)) => Some(tv),
        (None, Some(ov), Some(tv)) => Some(ov),
        (Some(bv), None, None) => None,
        (Some(bv), Some(ov), None) => if bv == ov {
            None
        } else {
            Some(ov)
        },
        (Some(bv), None, Some(tv)) => if bv == tv {
            None
        } else {
            Some(tv)
        },
        (Some(bv), Some(ov), Some(tv)) => if bv == ov {
            Some(tv)
        } else if bv == tv {
            Some(ov)
        } else {
            Some(ov)
        },
    }
}

/// Whether one path conflicts: both sides changed it against the base
/// in different ways.
pub open spec fn merge_conflict(b: Option<Seq<u8>>, o: Option<Seq<u8>>, t: Option<Seq<u8>>) -> bool {
    match (b, o, t) {
        (None, Some(ov), Some(tv)) => ov != tv,
        (Some(bv), Some(ov), None) => bv != ov,
        (Some(bv), None, Some(tv)) => bv != tv,
        (Some(bv), Some(ov), Some(tv)) => bv != ov && bv != tv && ov != tv,
        _ => false,
    }
}

proof fn lemma_file_at_absent(files: Seq<TreeFileV>, name: Seq<u8>)
    requires
        forall|i: int| 0 <= i < files.len() ==> (#[trigger] files[i]).name != name,
    ensures
        file_at(files, name) is None,
    decreases files.len(),
{
    if files.len() > 0 {
        lemma_file_at_absent(files.drop_first(), name);
    }
}

proof fn lemma_file_at_push(files: Seq<TreeFileV>, f: TreeFileV, name: Seq<u8>)
    ensures
        file_at(files, f.name) is None ==> file_at(files.push(f), f.name) == Some(f.oid),
        name != f.name ==> file_at(files.push(f), name) == file_at(files, name),
    decreases files.len(),
{
    if files.len() == 0 {
        assert(files.push(f)[0] == f);
        assert(files.push(f).drop_first() =~= files);
    } else {
        assert(files.push(f)[0] == files[0]);
        assert(files.push(f).drop_first() =~= files.drop_first().push(f));
        lemma_file_at_push(files.drop_first(), f, name);
    }
}

/// The line at `i`, or nothing past the end.
pub open spec fn opt_line(a: Seq<Seq<u8>>, i: int) -> Option<Seq<u8>> {
    if 0 <= i < a.len() {
        Some(a[i])
    } else {
        None
    }
}

/// Do the two line lists disagree at `i`?
pub open spec fn lines_differ(a: Seq<Seq<u8>>, b: Seq<Seq<u8>>, i: int) -> bool {
    opt_line(a, i) != opt_line(b, i)
}

/// The longer of the two lengths.
pub open spec fn max_len(a: Seq<Seq<u8>>, b: Seq<Seq<u8>>) -> int {
    if a.len() >= b.len() {
        a.len() as int
    } else {
        b.len() as int
    }
}

/// The maximal runs of disagreeing lines from `i` on, as 1-based
/// `[start, end]` intervals; `cur` is the 0-based start of an open run.
pub open spec fn ranges_go(
    a: Seq<Seq<u8>>,
    b: Seq<Seq<u8>>,
    i: int,
    cur: Option<int>,
) -> Seq<(int, int)>
    decreases max_len(a, b) - i,
{
    if i < 0 || i >= max_len(a, b) {
        match cur {
            Some(s) => seq![(s + 1, i)],
            None => Seq::empty(),
        }
    } else if lines_differ(a, b, i) {
        ranges_go(
            a,
            b,
            i + 1,
            Some(
                match cur {
                    Some(s) => s,
                    None => i,
                },
            ),
        )
    } else {
        match cur {
            Some(s) => seq![(s + 1, i)] + ranges_go(a, b, i + 1, None),
            None => ranges_go(a, b, i + 1, None),
        }
    }
}

/// The conflicting line ranges of two blob contents: split both into
/// lines, zip them, and report each maximal run of disagreement as a
/// 1-based `[start, end]` interval.
pub fn conflict_ranges(ours: &[u8], theirs: &[u8]) -> (r: Vec<(usize, usize)>)
    ensures
        r@.map_values(|p: (usize, usize)| (p.0 as int, p.1 as int)) == ranges_go(
            lines_of(ours@),
            lines_of(theirs@),
            0,
            None,
        ),
{
    let a = split_lines(ours);
    let b = split_lines(theirs);
    let ghost av = a@.map_values(|v: Vec<u8>| v@);
    let ghost bv = b@.map_values(|v: Vec<u8>| v@);
    let maxn = if a.len() >= b.len() {
        a.len()
    } else {
        b.len()
    };
    let mut r: Vec<(usize, usize)> = Vec::new();
    let mut start: usize = 0;
    let mut open = false;
    let mut i: usize = 0;
    while i < maxn
        invariant
            i <= maxn,
            maxn == max_len(av, bv),
            av == a@.map_values(|v: Vec<u8>| v@),
            bv == b@.map_values(|v: Vec<u8>| v@),
            open ==> start < i,
            ranges_go(av, bv, 0, None) == r@.map_values(|p: (usize, usize)| (p.0 as int, p.1 as int))
                + ranges_go(
                av,
                bv,
                i as int,
                if open {
                    Some(start as int)
                } else {
                    None
                },
            ),
        decreases maxn - i,
    {
        let differ: bool = if i < a.len() && i < b.len() {
            !bytes_eq(a[i].as_slice(), b[i].as_slice())
        } else {
            true
        };
        proof {
            if i < a.len() && i < b.len() {
                assert(av[i as int] == a@[i as int]@ && bv[i as int] == b@[i as int]@);
            }
            assert(differ == lines_differ(av, bv, i as int));
        }
        if differ {
            if !open {
                start = i;
                open = true;
            }
        } else {
            if open {
                let ghost r0 = r@;
                r.push((start + 1, i));
                proof {
                    assert(r@.map_values(|p: (usize, usize)| (p.0 as int, p.1 as int)) =~= r0
                        .map_values(|p: (usize, usize)| (p.0 as int, p.1 as int)) + seq![
                        (start as int + 1, i as int),
                    ]);
                }
                open = false;
            }
        }
        i = i + 1;
    }
    if open {
        let ghost r0 = r@;
        r.push((start + 1, maxn));
        proof {
            assert(r@.map_values(|p: (usize, usize)| (p.0 as int, p.1 as int)) =~= r0.map_values(
                |p: (usize, usize)| (p.0 as int, p.1 as int),
            ) + seq![(start as int + 1, maxn as int)]);
        }
    }
    proof {
        assert(r@.map_values(|p: (usize, usize)| (p.0 as int, p.1 as int)) =~= ranges_go(
            av,
            bv,
            0,
            None,
        ));
    }
    r
}

/// What flattening the tree of the commit under `commit_id` yields.
pub open spec fn files_of_commit(store: ObjectStore, commit_id: Seq<u8>) -> Option<
    Seq<TreeFileV>,
> {
    match store.find(commit_id) {
        Some((t, d)) => if t == ObjType::Commit {
            match commit_tree(d) {
                Some(tid) => files_of_tree(store, tid),
                None => None,
            }
        } else {
            None
        },
        None => None,
    }
}

/// The file set of a commit: read it, take its `tree` header, and
/// flatten that tree. `NotFound` exactly when the commit id is absent.
pub fn get_files_from_commit(store: &ObjectStore, commit_id: &[u8]) -> (r: Result<
    Vec<TreeFile>,
    GitError,
>)
    ensures
        match r {
            Ok(v) => files_of_commit(*store, commit_id@) == Some(views_of(v@)),
            Err(e) => files_of_commit(*store, commit_id@) is None && (e == GitError::NotFound
                <==> store.find(commit_id@) is None) && (e == GitError::NotFound || e
                == GitError::InvalidArgument),
        },
{
    match read_object(store, commit_id) {
        Ok((t, d)) => {
            match t {
                ObjType::Commit => {
                    match crate::commitobj::parse_commit_tree(d.as_slice()) {
                        Some(tid) => {
                            match get_tree_files(store, tid.as_slice()) {
                                Ok(v) => Ok(v),
                                Err(GitError::NotFound) => Err(GitError::InvalidArgument),
                                Err(_) => Err(GitError::InvalidArgument),
                            }
                        },
                        None => Err(GitError::InvalidArgument),
                    }
                },
                _ => Err(GitError::InvalidArgument),
            }
        },
        Err(_) => Err(GitError::NotFound),
    }
}

/// The result of a three-way reconciliation: the merged file set and
/// the conflicting paths.
pub struct MergePlan {
    pub merged: Vec<TreeFile>,
    pub conflicts: Vec<Vec<u8>>,
}

/// Reconcile three file sets path by path. For every path, the merged
/// set holds exactly `merge_value` of what the three sets hold there,
/// and the conflict list names exactly the paths `merge_conflict`
/// selects.
pub fn reconcile(base: &Vec<TreeFile>, ours: &Vec<TreeFile>, theirs: &Vec<TreeFile>) -> (r:
    MergePlan)
    ensures
        forall|p: Seq<u8>|
            #[trigger] file_at(views_of(r.merged@), p) == merge_value(
                file_at(views_of(base@), p),
                file_at(views_of(ours@), p),
                file_at(views_of(theirs@), p),
            ),
        forall|p: Seq<u8>|
            #![trigger file_at(views_of(base@), p), file_at(views_of(ours@), p)]
            crate::ancestry::in_seq(r.conflicts@, p) == merge_conflict(
                file_at(views_of(base@), p),
                file_at(views_of(ours@), p),
                file_at(views_of(theirs@), p),
            ),
        forall|x: int, y: int|
            0 <= x < y < r.merged@.len() ==> (#[trigger] r.merged@[x])@.name != (
            #[trigger] r.merged@[y])@.name,
{
    let ghost bm = base@.map_values(|f: TreeFile| f@);
    let ghost om = ours@.map_values(|f: TreeFile| f@);
    let ghost tm = theirs@.map_values(|f: TreeFile| f@);
    let mut keys: Vec<Vec<u8>> = Vec::new();
    let mut i: usize = 0;
    while i < ours.len()
        invariant
            i <= ours@.len(),
            om == ours@.map_values(|f: TreeFile| f@),
            keys@.len() == i,
            forall|j: int| 0 <= j < i ==> (#[trigger] keys@[j])@ == om[j].name,
        decreases ours@.len() - i,
    {
        keys.push(copy_bytes(ours[i].name.as_slice()));
        i = i + 1;
    }
    let ghost klen1 = keys@.len();
    let mut i2: usize = 0;
    while i2 < theirs.len()
        invariant
            i2 <= theirs@.len(),
            tm == theirs@.map_values(|f: TreeFile| f@),
            keys@.len() == klen1 + i2,
            klen1 == om.len(),
            forall|j: int| 0 <= j < klen1 ==> (#[trigger] keys@[j])@ == om[j].name,
            forall|j: int| 0 <= j < i2 ==> (#[trigger] keys@[klen1 + j])@ == tm[j].name,
        decreases theirs@.len() - i2,
    {
        keys.push(copy_bytes(theirs[i2].name.as_slice()));
        i2 = i2 + 1;
    }
    let ghost klen2 = keys@.len();
    let mut i3: usize = 0;
    while i3 < base.len()
        invariant
            i3 <= base@.len(),
            bm == base@.map_values(|f: TreeFile| f@),
            keys@.len() == klen2 + i3,
            klen1 == om.len(),
            klen2 == klen1 + tm.len(),
            forall|j: int| 0 <= j < klen1 ==> (#[trigger] keys@[j])@ == om[j].name,
            forall|j: int| 0 <= j < klen2 - klen1 ==> (#[trigger] keys@[klen1 + j])@ == tm[
                j
            ].name,
            forall|j: int| 0 <= j < i3 ==> (#[trigger] keys@[klen2 + j])@ == bm[j].name,
        decreases base@.len() - i3,
    {
        keys.push(copy_bytes(base[i3].name.as_slice()));
        i3 = i3 + 1;
    }
    proof {
        assert(klen1 == om.len());
        assert(klen2 - klen1 == tm.len());
        assert(keys@.len() - klen2 == bm.len());
    }
    // every name of the three sets stands in keys, and every key is
    // such a name
    let ghost kv = keys@;
    let mut merged: Vec<TreeFile> = Vec::new();
    let mut conflicts: Vec<Vec<u8>> = Vec::new();
    let mut idx: usize = 0;
    while idx < keys.len()
        invariant
            idx <= keys@.len(),
            keys@ == kv,
            bm == base@.map_values(|f: TreeFile| f@),
            om == ours@.map_values(|f: TreeFile| f@),
            tm == theirs@.map_values(|f: TreeFile| f@),
            forall|j: int|
                0 <= j < idx ==> file_at(
                    merged@.map_values(|f: TreeFile| f@),
                    (#[trigger] kv[j])@,
                ) == merge_value(
                    file_at(bm, kv[j]@),
                    file_at(om, kv[j]@),
                    file_at(tm, kv[j]@),
                ),
            forall|j: int|
                0 <= j < idx ==> crate::ancestry::in_seq(conflicts@, (#[trigger] kv[j])@)
                    == merge_conflict(
                    file_at(bm, kv[j]@),
                    file_at(om, kv[j]@),
                    file_at(tm, kv[j]@),
                ),
            forall|m: int|
                0 <= m < merged@.len() ==> exists|j: int|
                    0 <= j < idx && (#[trigger] merged@[m])@.name == kv[j]@,
            forall|m: int|
                0 <= m < conflicts@.len() ==> exists|j: int|
                    0 <= j < idx && (#[trigger] conflicts@[m])@ == kv[j]@,
            forall|x: int, y: int|
                0 <= x < y < merged@.len() ==> (#[trigger] merged@[x])@.name != (
                #[trigger] merged@[y])@.name,
        decreases keys@.len() - idx,
    {
        let name = &keys[idx];
        let mut seen = false;
        let mut j: usize = 0;
        while j < idx
            invariant
                j <= idx < keys@.len(),
                keys@ == kv,
                seen ==> exists|x: int| 0 <= x < idx && (#[trigger] kv[x])@ == kv[idx as int]@,
                !seen ==> forall|x: int| 0 <= x < j ==> (#[trigger] kv[x])@ != kv[idx as int]@,
            decreases idx - j,
        {
            if bytes_eq(keys[j].as_slice(), keys[idx].as_slice()) {
                seen = true;
                proof {
                    assert(kv[j as int]@ == kv[idx as int]@);
                }
            }
            j = j + 1;
        }
        if !seen {
            let bv = find_file_pub(base, name.as_slice());
            let ov = find_file_pub(ours, name.as_slice());
            let tv = find_file_pub(theirs, name.as_slice());
            let ghost p = kv[idx as int]@;
            let ghost want = merge_value(file_at(bm, p), file_at(om, p), file_at(tm, p));
            let ghost is_conf = merge_conflict(file_at(bm, p), file_at(om, p), file_at(tm, p));
            let keep: Option<Vec<u8>> = match (&bv, &ov, &tv) {
                (None, None, None) => None,
                (None, Some(o), None) => Some(copy_bytes(o.as_slice())),
                (None, None, Some(t)) => Some(copy_bytes(t.as_slice())),
                (None, Some(o), Some(t)) => Some(copy_bytes(o.as_slice())),
                (Some(b), None, None) => None,
                (Some(b), Some(o), None) => {
                    if bytes_eq(b.as_slice(), o.as_slice()) {
                        None
                    } else {
                        Some(copy_bytes(o.as_slice()))
                    }
                },
                (Some(b), None, Some(t)) => {
                    if bytes_eq(b.as_slice(), t.as_slice()) {
                        None
                    } else {
                        Some(copy_bytes(t.as_slice()))
                    }
                },
                (Some(b), Some(o), Some(t)) => {
                    if bytes_eq(b.as_slice(), o.as_slice()) {
                        Some(copy_bytes(t.as_slice()))
                    } else {
                        Some(copy_bytes(o.as_slice()))
                    }
                },
            };
            let conf: bool = match (&bv, &ov, &tv) {
                (None, Some(o), Some(t)) => !bytes_eq(o.as_slice(), t.as_slice()),
                (Some(b), Some(o), None) => !bytes_eq(b.as_slice(), o.as_slice()),
                (Some(b), None, Some(t)) => !bytes_eq(b.as_slice(), t.as_slice()),
                (Some(b), Some(o), Some(t)) => !bytes_eq(b.as_slice(), o.as_slice()) && !bytes_eq(
                    b.as_slice(),
                    t.as_slice(),
                ) && !bytes_eq(o.as_slice(), t.as_slice()),
                _ => false,
            };
            let ghost mm0 = merged@.map_values(|f: TreeFile| f@);
            proof {
                assert forall|m: int| 0 <= m < mm0.len() implies (#[trigger] mm0[m]).name != p by {
                    assert(mm0[m] == merged@[m]@);
                    let jj = choose|jj: int|
                        0 <= jj < idx && (#[trigger] merged@[m])@.name == kv[jj]@;
                    assert(kv[jj]@ != p);
                }
                lemma_file_at_absent(mm0, p);
                assert forall|m: int| 0 <= m < conflicts@.len() implies (
                #[trigger] conflicts@[m])@ != p by {
                    let jj = choose|jj: int|
                        0 <= jj < idx && (#[trigger] conflicts@[m])@ == kv[jj]@;
                }
                assert(!crate::ancestry::in_seq(conflicts@, p));
            }
            match keep {
                Some(oid) => {
                    let f = TreeFile { name: copy_bytes(name.as_slice()), oid };
                    proof {
                        assert(f@.name == p && Some(f@.oid) == want);
                        lemma_file_at_push(mm0, f@, p);
                        assert forall|q: Seq<u8>| q != p implies file_at(mm0.push(f@), q)
                            == file_at(mm0, q) by {
                            lemma_file_at_push(mm0, f@, q);
                        }
                    }
                    let ghost mg0 = merged@;
                    merged.push(f);
                    proof {
                        assert(merged@.map_values(|f2: TreeFile| f2@) =~= mm0.push(
                            TreeFileV { name: p, oid: want.unwrap() },
                        ));
                        assert forall|x: int, y: int|
                            0 <= x < y < merged@.len() implies (#[trigger] merged@[x])@.name != (
                        #[trigger] merged@[y])@.name by {
                            if y == merged@.len() - 1 {
                                assert(merged@[x] == mg0[x]);
                                assert(mm0[x].name != p);
                            } else {
                                assert(merged@[x] == mg0[x]);
                                assert(merged@[y] == mg0[y]);
                            }
                        }
                    }
                },
                None => {
                    proof {
                        assert(want is None);
                    }
                },
            }
            if conf {
                let ghost c0 = conflicts@;
                conflicts.push(copy_bytes(name.as_slice()));
                proof {
                    assert(conflicts@[c0.len() as int]@ == p);
                    assert forall|q: Seq<u8>| true implies crate::ancestry::in_seq(conflicts@, q)
                        == (crate::ancestry::in_seq(c0, q) || q == p) by {
                        if crate::ancestry::in_seq(conflicts@, q) {
                            let x = choose|x: int|
                                0 <= x < conflicts@.len() && (#[trigger] conflicts@[x])@ == q;
                            if x < c0.len() {
                                assert(c0[x]@ == q);
                            }
                        }
                        if crate::ancestry::in_seq(c0, q) {
                            let x = choose|x: int|
                                0 <= x < c0.len() && (#[trigger] c0[x])@ == q;
                            assert(conflicts@[x]@ == q);
                        }
                        if q == p {
                            assert(conflicts@[c0.len() as int]@ == q);
                        }
                    }
                }
            }
        }
        idx = idx + 1;
    }
    proof {
        // a path in none of the three sets has no entry and no conflict
        assert forall|p: Seq<u8>| true implies file_at(
            merged@.map_values(|f: TreeFile| f@),
            p,
        ) == merge_value(file_at(bm, p), file_at(om, p), file_at(tm, p)) by {
            if exists|j: int| 0 <= j < kv.len() && (#[trigger] kv[j])@ == p {
                let j = choose|j: int| 0 <= j < kv.len() && (#[trigger] kv[j])@ == p;
            } else {
                assert forall|m: int| 0 <= m < om.len() implies (#[trigger] om[m]).name != p by {
                    assert(kv[m]@ == om[m].name);
                }
                assert forall|m: int| 0 <= m < tm.len() implies (#[trigger] tm[m]).name != p by {
                    assert(kv[klen1 + m]@ == tm[m].name);
                }
                assert forall|m: int| 0 <= m < bm.len() implies (#[trigger] bm[m]).name != p by {
                    assert(kv[klen2 + m]@ == bm[m].name);
                }
                lemma_file_at_absent(om, p);
                lemma_file_at_absent(tm, p);
                lemma_file_at_absent(bm, p);
                let mm = merged@.map_values(|f: TreeFile| f@);
                assert forall|m: int| 0 <= m < mm.len() implies (#[trigger] mm[m]).name != p by {
                    let jj = choose|jj: int|
                        0 <= jj < idx && (#[trigger] merged@[m])@.name == kv[jj]@;
                }
                lemma_file_at_absent(mm, p);
            }
        }
        assert forall|p: Seq<u8>| true implies crate::ancestry::in_seq(conflicts@, p)
            == merge_conflict(file_at(bm, p), file_at(om, p), file_at(tm, p)) by {
            if exists|j: int| 0 <= j < kv.len() && (#[trigger] kv[j])@ == p {
                let j = choose|j: int| 0 <= j < kv.len() && (#[trigger] kv[j])@ == p;
            } else {
                assert forall|m: int| 0 <= m < om.len() implies (#[trigger] om[m]).name != p by {
                    assert(kv[m]@ == om[m].name);
                }
                assert forall|m: int| 0 <= m < tm.len() implies (#[trigger] tm[m]).name != p by {
                    assert(kv[klen1 + m]@ == tm[m].name);
                }
                assert forall|m: int| 0 <= m < bm.len() implies (#[trigger] bm[m]).name != p by {
                    assert(kv[klen2 + m]@ == bm[m].name);
                }
                lemma_file_at_absent(om, p);
                lemma_file_at_absent(tm, p);
                lemma_file_at_absent(bm, p);
                assert forall|m: int| 0 <= m < conflicts@.len() implies (
                #[trigger] conflicts@[m])@ != p by {
                    let jj = choose|jj: int|
                        0 <= jj < idx && (#[trigger] conflicts@[m])@ == kv[jj]@;
                }
                assert(!crate::ancestry::in_seq(conflicts@, p));
            }
        }
    }
    MergePlan { merged, conflicts }
}


/// What `file_at` returns comes from some element of the list.
pub proof fn lemma_file_at_index_pub(files: Seq<TreeFileV>, name: Seq<u8>)
    requires
        file_at(files, name) is Some,
    ensures
        exists|i: int|
            0 <= i < files.len() && (#[trigger] files[i]).name == name && Some(files[i].oid)
                == file_at(files, name),
{
    lemma_file_at_index(files, name);
}

/// What `file_at` returns comes from some element of the list.
pub proof fn lemma_file_at_index(files: Seq<TreeFileV>, name: Seq<u8>)
    requires
        file_at(files, name) is Some,
    ensures
        exists|i: int|
            0 <= i < files.len() && (#[trigger] files[i]).name == name && Some(files[i].oid)
                == file_at(files, name),
    decreases files.len(),
{
    if files.len() > 0 && files[0].name != name {
        lemma_file_at_index(files.drop_first(), name);
        let i = choose|i: int|
            0 <= i < files.drop_first().len() && (#[trigger] files.drop_first()[i]).name == name
                && Some(files.drop_first()[i].oid) == file_at(files.drop_first(), name);
        assert(files[i + 1] == files.drop_first()[i]);
    }
}


/// A name absent from every element is not found.
pub proof fn lemma_file_at_absent_pub(files: Seq<TreeFileV>, name: Seq<u8>)
    requires
        forall|i: int| 0 <= i < files.len() ==> (#[trigger] files[i]).name != name,
    ensures
        file_at(files, name) is None,
{
    lemma_file_at_absent(files, name);
}

/// Looking up after a push: the pushed entry answers for its own name
/// when it was absent; every other name is unaffected.
pub proof fn lemma_file_at_push_pub(files: Seq<TreeFileV>, f: TreeFileV, name: Seq<u8>)
    ensures
        file_at(files, f.name) is None ==> file_at(files.push(f), f.name) == Some(f.oid),
        name != f.name ==> file_at(files.push(f), name) == file_at(files, name),
{
    lemma_file_at_push(files, f, name);
}


/// A name `file_at` does not find belongs to no element.
pub proof fn lemma_file_at_none(files: Seq<TreeFileV>, name: Seq<u8>)
    requires
        file_at(files, name) is None,
    ensures
        forall|i: int| 0 <= i < files.len() ==> (#[trigger] files[i]).name != name,
    decreases files.len(),
{
    if files.len() > 0 {
        lemma_file_at_none(files.drop_first(), name);
        assert forall|i: int| 0 <= i < files.len() implies (#[trigger] files[i]).name != name by {
            if i > 0 {
                assert(files.drop_first()[i - 1] == files[i]);
            }
        }
    }
}

} // verus!
