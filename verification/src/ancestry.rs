//! Ancestry queries over the commit graph: whether one commit is an
//! ancestor of another, and a merge base of two commits. The walk
//! follows `parent` edges read from commit payloads in the store, and
//! treats a missing or non-commit object as having no parents.

use crate::bytes::bytes_eq;
use crate::codec::ObjType;
use crate::commitobj::commit_parents;
use crate::store::{copy_bytes, find_rec, read_object, ObjRecord, ObjectStore};
use vstd::prelude::*;
use vstd::seq_lib::*;
use vstd::set_lib::lemma_len_subset;

verus! {

/// The parent ids of the object stored under `oid`: the `parent`
/// headers of a commit, and nothing for a blob, tree, tag or missing
/// object.
pub open spec fn parents_of(store: ObjectStore, oid: Seq<u8>) -> Seq<Seq<u8>> {
    match store.find(oid) {
        Some((t, d)) => if t == ObjType::Commit {
            commit_parents(d)
        } else {
            Seq::empty()
        },
        None => Seq::empty(),
    }
}

/// A parent path of length at most `n` leads from `from` to `to`.
pub open spec fn reach_n(store: ObjectStore, from: Seq<u8>, to: Seq<u8>, n: nat) -> bool
    decreases n,
{
    from == to || (n > 0 && exists|k: int|
        0 <= k < parents_of(store, from).len() && reach_n(
            store,
            #[trigger] parents_of(store, from)[k],
            to,
            (n - 1) as nat,
        ))
}

/// `to` lies on the ancestry of `from` (reflexively).
pub open spec fn reachable(store: ObjectStore, from: Seq<u8>, to: Seq<u8>) -> bool {
    exists|n: nat| reach_n(store, from, to, n)
}

/// Every commit reaches itself.
pub proof fn lemma_reach_refl(store: ObjectStore, a: Seq<u8>)
    ensures
        reachable(store, a, a),
{
    assert(reach_n(store, a, a, 0));
}

proof fn lemma_reach_extend(store: ObjectStore, b: Seq<u8>, x: Seq<u8>, n: nat, k: int)
    requires
        reach_n(store, b, x, n),
        0 <= k < parents_of(store, x).len(),
    ensures
        reach_n(store, b, parents_of(store, x)[k], (n + 1) as nat),
    decreases n,
{
    let p = parents_of(store, x)[k];
    if b == x {
        assert(reach_n(store, p, p, n));
        assert(0 <= k < parents_of(store, b).len() && reach_n(
            store,
            parents_of(store, b)[k],
            p,
            n,
        ));
    } else {
        let k2 = choose|k2: int|
            0 <= k2 < parents_of(store, b).len() && reach_n(
                store,
                #[trigger] parents_of(store, b)[k2],
                x,
                (n - 1) as nat,
            );
        lemma_reach_extend(store, parents_of(store, b)[k2], x, (n - 1) as nat, k);
        assert(0 <= k2 < parents_of(store, b).len() && reach_n(
            store,
            parents_of(store, b)[k2],
            p,
            n,
        ));
    }
}

/// A parent of a reachable commit is reachable.
pub proof fn lemma_reachable_parent(store: ObjectStore, b: Seq<u8>, x: Seq<u8>, k: int)
    requires
        reachable(store, b, x),
        0 <= k < parents_of(store, x).len(),
    ensures
        reachable(store, b, parents_of(store, x)[k]),
{
    let n = choose|n: nat| reach_n(store, b, x, n);
    lemma_reach_extend(store, b, x, n, k);
    assert(reach_n(store, b, parents_of(store, x)[k], (n + 1) as nat));
}

/// Is `x` the view of some element of `v`?
pub open spec fn in_seq(v: Seq<Vec<u8>>, x: Seq<u8>) -> bool {
    exists|i: int| 0 <= i < v.len() && (#[trigger] v[i])@ == x
}

fn vecs_contains(v: &Vec<Vec<u8>>, x: &[u8]) -> (r: bool)
    ensures
        r == in_seq(v@, x@),
{
    let mut i: usize = 0;
    while i < v.len()
        invariant
            i <= v@.len(),
            forall|j: int| 0 <= j < i ==> (#[trigger] v@[j])@ != x@,
        decreases v@.len() - i,
    {
        if bytes_eq(v[i].as_slice(), x) {
            return true;
        }
        i = i + 1;
    }
    false
}

/// Every parent id named by any record of `entries`.
pub open spec fn parent_pool(entries: Seq<ObjRecord>) -> Set<Seq<u8>>
    decreases entries.len(),
{
    if entries.len() == 0 {
        Set::empty()
    } else {
        parent_pool(entries.drop_last()).union(commit_parents(entries.last().data@).to_set())
    }
}

proof fn lemma_parent_pool_finite(entries: Seq<ObjRecord>)
    ensures
        parent_pool(entries).finite(),
    decreases entries.len(),
{
    broadcast use seq_to_set_is_finite;

    if entries.len() > 0 {
        lemma_parent_pool_finite(entries.drop_last());
    }
}

proof fn lemma_pool_index(entries: Seq<ObjRecord>, i: int, k: int)
    requires
        0 <= i < entries.len(),
        0 <= k < commit_parents(entries[i].data@).len(),
    ensures
        parent_pool(entries).contains(commit_parents(entries[i].data@)[k]),
    decreases entries.len(),
{
    broadcast use seq_to_set_is_finite;

    if i == entries.len() - 1 {
        assert(commit_parents(entries[i].data@).to_set().contains(
            commit_parents(entries[i].data@)[k],
        ));
    } else {
        assert(entries.drop_last()[i] == entries[i]);
        lemma_pool_index(entries.drop_last(), i, k);
    }
}

/// Every id a walk from `start` can ever touch.
pub open spec fn candidates(store: ObjectStore, start: Seq<u8>) -> Set<Seq<u8>> {
    parent_pool(store.loose@).union(parent_pool(store.packed@)).insert(start)
}

proof fn lemma_parents_in_candidates(store: ObjectStore, start: Seq<u8>, oid: Seq<u8>, k: int)
    requires
        0 <= k < parents_of(store, oid).len(),
    ensures
        candidates(store, start).contains(parents_of(store, oid)[k]),
{
    if find_rec(store.loose@, oid) is Some {
        crate::store::lemma_find_rec_index(store.loose@, oid);
        let i = choose|i: int|
            0 <= i < store.loose@.len() && (#[trigger] store.loose@[i]).oid@ == oid && find_rec(
                store.loose@,
                oid,
            ) == Some((store.loose@[i].otype, store.loose@[i].data@));
        lemma_pool_index(store.loose@, i, k);
    } else {
        crate::store::lemma_find_rec_index(store.packed@, oid);
        let i = choose|i: int|
            0 <= i < store.packed@.len() && (#[trigger] store.packed@[i]).oid@ == oid && find_rec(
                store.packed@,
                oid,
            ) == Some((store.packed@[i].otype, store.packed@[i].data@));
        lemma_pool_index(store.packed@, i, k);
    }
}

proof fn lemma_candidates_finite(store: ObjectStore, start: Seq<u8>)
    ensures
        candidates(store, start).finite(),
{
    lemma_parent_pool_finite(store.loose@);
    lemma_parent_pool_finite(store.packed@);
}

/// With no frontier left, a visited set closed under parents holds
/// everything reachable from any of its members.
proof fn lemma_closed_visited(
    store: ObjectStore,
    visited: Seq<Vec<u8>>,
    x: Seq<u8>,
    y: Seq<u8>,
    n: nat,
)
    requires
        in_seq(visited, x),
        forall|i: int, k: int|
            0 <= i < visited.len() && 0 <= k < parents_of(store, (#[trigger] visited[i])@).len()
                ==> in_seq(visited, #[trigger] parents_of(store, visited[i]@)[k]),
        reach_n(store, x, y, n),
    ensures
        in_seq(visited, y),
    decreases n,
{
    if x != y {
        let k = choose|k: int|
            0 <= k < parents_of(store, x).len() && reach_n(
                store,
                #[trigger] parents_of(store, x)[k],
                y,
                (n - 1) as nat,
            );
        let i = choose|i: int| 0 <= i < visited.len() && (#[trigger] visited[i])@ == x;
        assert(in_seq(visited, parents_of(store, visited[i]@)[k]));
        lemma_closed_visited(store, visited, parents_of(store, x)[k], y, (n - 1) as nat);
    }
}

/// Walk the parent graph from `start` and return every reachable id:
/// an id is in the result exactly when a parent path leads to it.
pub fn collect_ancestors(store: &ObjectStore, start: &[u8]) -> (r: Vec<Vec<u8>>)
    ensures
        forall|i: int| 0 <= i < r@.len() ==> reachable(*store, start@, (#[trigger] r@[i])@),
        forall|x: Seq<u8>| reachable(*store, start@, x) ==> in_seq(r@, x),
{
    let mut queue: Vec<Vec<u8>> = Vec::new();
    queue.push(copy_bytes(start));
    let mut visited: Vec<Vec<u8>> = Vec::new();
    proof {
        lemma_candidates_finite(*store, start@);
        lemma_reach_refl(*store, start@);
        assert(queue@[0]@ == start@);
        assert(in_seq(queue@, start@));
    }
    loop
        invariant
            forall|i: int|
                0 <= i < queue@.len() ==> reachable(*store, start@, (#[trigger] queue@[i])@),
            forall|i: int|
                0 <= i < visited@.len() ==> reachable(*store, start@, (#[trigger] visited@[i])@),
            forall|i: int, k: int|
                0 <= i < visited@.len() && 0 <= k < parents_of(
                    *store,
                    (#[trigger] visited@[i])@,
                ).len() ==> in_seq(visited@, #[trigger] parents_of(*store, visited@[i]@)[k])
                    || in_seq(queue@, parents_of(*store, visited@[i]@)[k]),
            in_seq(visited@, start@) || in_seq(queue@, start@),
            forall|i: int|
                0 <= i < queue@.len() ==> candidates(*store, start@).contains(
                    (#[trigger] queue@[i])@,
                ),
            forall|i: int|
                0 <= i < visited@.len() ==> candidates(*store, start@).contains(
                    (#[trigger] visited@[i])@,
                ),
            forall|i: int, j: int|
                0 <= i < j < visited@.len() ==> (#[trigger] visited@[i])@ != (
                #[trigger] visited@[j])@,
            candidates(*store, start@).finite(),
        ensures
            queue@.len() == 0,
            forall|i: int|
                0 <= i < visited@.len() ==> reachable(*store, start@, (#[trigger] visited@[i])@),
            forall|i: int, k: int|
                0 <= i < visited@.len() && 0 <= k < parents_of(
                    *store,
                    (#[trigger] visited@[i])@,
                ).len() ==> in_seq(visited@, #[trigger] parents_of(*store, visited@[i]@)[k])
                    || in_seq(queue@, parents_of(*store, visited@[i]@)[k]),
            in_seq(visited@, start@) || in_seq(queue@, start@),
        decreases candidates(*store, start@).len() - visited@.len(), queue@.len(),
    {
        proof {
            let vs = visited@.map_values(|v: Vec<u8>| v@);
            assert(vs.no_duplicates());
            vs.unique_seq_to_set();
            assert(vs.to_set().subset_of(candidates(*store, start@))) by {
                assert forall|x: Seq<u8>| vs.to_set().contains(x) implies candidates(
                    *store,
                    start@,
                ).contains(x) by {
                    let i = choose|i: int| 0 <= i < vs.len() && vs[i] == x;
                    assert(visited@[i]@ == x);
                }
            }
            lemma_len_subset(vs.to_set(), candidates(*store, start@));
        }
        if queue.len() == 0 {
            break ;
        }
        let ghost q0 = queue@;
        let cur = match queue.pop() {
            Some(c) => c,
            None => {
                proof {
                    assert(false);
                }
                Vec::new()
            },
        };
        proof {
            assert(q0.last() == cur);
            assert(queue@ =~= q0.drop_last());
            assert forall|i: int| 0 <= i < queue@.len() implies q0[i] == queue@[i] by {}
        }
        if vecs_contains(&visited, cur.as_slice()) {
            proof {
                assert forall|i: int, k: int|
                    0 <= i < visited@.len() && 0 <= k < parents_of(
                        *store,
                        (#[trigger] visited@[i])@,
                    ).len() implies in_seq(visited@, #[trigger] parents_of(
                    *store,
                    visited@[i]@,
                )[k]) || in_seq(queue@, parents_of(*store, visited@[i]@)[k]) by {
                    let p = parents_of(*store, visited@[i]@)[k];
                    if !in_seq(visited@, p) {
                        let j = choose|j: int| 0 <= j < q0.len() && (#[trigger] q0[j])@ == p;
                        if j == q0.len() - 1 {
                            assert(cur@ == p);
                            assert(in_seq(visited@, p));
                        } else {
                            assert(queue@[j]@ == p);
                        }
                    }
                }
                if !in_seq(visited@, start@) {
                    let j = choose|j: int| 0 <= j < q0.len() && (#[trigger] q0[j])@ == start@;
                    if j == q0.len() - 1 {
                        assert(in_seq(visited@, start@));
                    } else {
                        assert(queue@[j]@ == start@);
                    }
                }
            }
            continue ;
        }
        let ghost v0 = visited@;
        let cur2 = copy_bytes(cur.as_slice());
        visited.push(cur2);
        let parents: Vec<Vec<u8>> = match read_object(store, cur.as_slice()) {
            Ok((t, d)) => {
                match t {
                    ObjType::Commit => crate::commitobj::parse_commit_parents(d.as_slice()),
                    _ => Vec::new(),
                }
            },
            Err(_) => Vec::new(),
        };
        proof {
            assert(parents@.map_values(|v: Vec<u8>| v@) =~= parents_of(*store, cur@));
        }
        let ghost q1 = queue@;
        let mut j: usize = 0;
        while j < parents.len()
            invariant
                j <= parents@.len(),
                parents@.map_values(|v: Vec<u8>| v@) == parents_of(*store, cur@),
                queue@.len() == q1.len() + j,
                forall|i: int| 0 <= i < q1.len() ==> queue@[i] == q1[i],
                forall|m: int|
                    0 <= m < j ==> (#[trigger] queue@[q1.len() + m])@ == parents@[m]@,
            decreases parents@.len() - j,
        {
            queue.push(copy_bytes(parents[j].as_slice()));
            j = j + 1;
        }
        proof {
            let ps = parents_of(*store, cur@);
            // reachability of new queue items
            assert(reachable(*store, start@, cur@));
            assert forall|i: int| 0 <= i < queue@.len() implies reachable(
                *store,
                start@,
                (#[trigger] queue@[i])@,
            ) by {
                if i < q1.len() {
                    assert(queue@[i] == q1[i]);
                } else {
                    let m = i - q1.len();
                    assert(queue@[q1.len() + m]@ == parents@[m]@);
                    assert(queue@[i]@ == ps[m]);
                    lemma_reachable_parent(*store, start@, cur@, m);
                }
            }
            // candidates for new queue items
            assert forall|i: int| 0 <= i < queue@.len() implies candidates(
                *store,
                start@,
            ).contains((#[trigger] queue@[i])@) by {
                if i < q1.len() {
                    assert(queue@[i] == q1[i]);
                } else {
                    let m = i - q1.len();
                    assert(queue@[q1.len() + m]@ == parents@[m]@);
                    assert(queue@[i]@ == ps[m]);
                    lemma_parents_in_candidates(*store, start@, cur@, m);
                }
            }
            // closure
            assert forall|i: int, k: int|
                0 <= i < visited@.len() && 0 <= k < parents_of(
                    *store,
                    (#[trigger] visited@[i])@,
                ).len() implies in_seq(visited@, #[trigger] parents_of(*store, visited@[i]@)[k])
                || in_seq(queue@, parents_of(*store, visited@[i]@)[k]) by {
                let p = parents_of(*store, visited@[i]@)[k];
                if i == visited@.len() - 1 {
                    assert(visited@[i]@ == cur@);
                    assert(queue@[q1.len() + k]@ == p);
                    assert(in_seq(queue@, p));
                } else {
                    assert(v0[i] == visited@[i]);
                    if !in_seq(v0, p) {
                        let m = choose|m: int| 0 <= m < q0.len() && (#[trigger] q0[m])@ == p;
                        if m == q0.len() - 1 {
                            assert(cur@ == p);
                            assert(visited@[visited@.len() - 1]@ == p);
                            assert(in_seq(visited@, p));
                        } else {
                            assert(queue@[m] == q1[m]);
                            assert(in_seq(queue@, p));
                        }
                    } else {
                        let m = choose|m: int| 0 <= m < v0.len() && (#[trigger] v0[m])@ == p;
                        assert(visited@[m]@ == p);
                        assert(in_seq(visited@, p));
                    }
                }
            }
            // start coverage
            if !in_seq(visited@, start@) {
                assert forall|ii: int| 0 <= ii < v0.len() implies (#[trigger] v0[ii])@ != start@
                    by {
                    assert(visited@[ii] == v0[ii]);
                }
                assert(!in_seq(v0, start@));
                assert(in_seq(q0, start@));
                let m = choose|m: int| 0 <= m < q0.len() && (#[trigger] q0[m])@ == start@;
                if m == q0.len() - 1 {
                    assert(cur@ == start@);
                    assert(visited@[visited@.len() - 1]@ == cur@);
                    assert(in_seq(visited@, start@));
                } else {
                    assert(q1[m] == q0[m]);
                    assert(queue@[m] == q1[m]);
                    assert(in_seq(queue@, start@));
                }
            }
            // distinctness
            assert forall|a: int, b: int| 0 <= a < b < visited@.len() implies (
            #[trigger] visited@[a])@ != (#[trigger] visited@[b])@ by {
                if b == visited@.len() - 1 {
                    assert(visited@[a] == v0[a]);
                    assert(!in_seq(v0, cur@));
                }
            }
            // termination: the new visited element keeps the bound strict
            let vs = visited@.map_values(|v: Vec<u8>| v@);
            assert(vs.no_duplicates());
            vs.unique_seq_to_set();
            assert(vs.to_set().subset_of(candidates(*store, start@))) by {
                assert forall|x: Seq<u8>| vs.to_set().contains(x) implies candidates(
                    *store,
                    start@,
                ).contains(x) by {
                    let i = choose|i: int| 0 <= i < vs.len() && vs[i] == x;
                    assert(visited@[i]@ == x);
                }
            }
            lemma_len_subset(vs.to_set(), candidates(*store, start@));
        }
    }
    proof {
        assert forall|x: Seq<u8>| reachable(*store, start@, x) implies in_seq(visited@, x) by {
            let n = choose|n: nat| reach_n(*store, start@, x, n);
            lemma_closed_visited(*store, visited@, start@, x, n);
        }
    }
    visited
}

/// Is `potential_ancestor` an ancestor of `commit_id` (reflexively)?
/// Exactly when a parent path leads from `commit_id` to it.
pub fn is_ancestor(store: &ObjectStore, potential_ancestor: &[u8], commit_id: &[u8]) -> (r: bool)
    ensures
        r == reachable(*store, commit_id@, potential_ancestor@),
{
    let ancestors = collect_ancestors(store, commit_id);
    vecs_contains(&ancestors, potential_ancestor)
}

/// A common ancestor of `commit1` and `commit2`, or `None` exactly when
/// their ancestries are disjoint.
pub fn find_merge_base(store: &ObjectStore, commit1: &[u8], commit2: &[u8]) -> (r: Option<Vec<u8>>)
    ensures
        match r {
            Some(m) => reachable(*store, commit1@, m@) && reachable(*store, commit2@, m@),
            None => forall|x: Seq<u8>|
                !(reachable(*store, commit1@, x) && reachable(*store, commit2@, x)),
        },
{
    let a1 = collect_ancestors(store, commit1);
    let a2 = collect_ancestors(store, commit2);
    let mut i: usize = 0;
    while i < a2.len()
        invariant
            i <= a2@.len(),
            forall|j: int| 0 <= j < a2@.len() ==> reachable(*store, commit2@, (#[trigger] a2@[j])@),
            forall|j: int| 0 <= j < a1@.len() ==> reachable(*store, commit1@, (#[trigger] a1@[j])@),
            forall|x: Seq<u8>| reachable(*store, commit1@, x) ==> in_seq(a1@, x),
            forall|x: Seq<u8>| reachable(*store, commit2@, x) ==> in_seq(a2@, x),
            forall|j: int| 0 <= j < i ==> !in_seq(a1@, (#[trigger] a2@[j])@),
        decreases a2@.len() - i,
    {
        if vecs_contains(&a1, a2[i].as_slice()) {
            let ghost x = a2@[i as int]@;
            proof {
                let j = choose|j: int| 0 <= j < a1@.len() && (#[trigger] a1@[j])@ == x;
            }
            return Some(copy_bytes(a2[i].as_slice()));
        }
        i = i + 1;
    }
    proof {
        assert forall|x: Seq<u8>| true implies !(reachable(*store, commit1@, x) && reachable(
            *store,
            commit2@,
            x,
        )) by {
            if reachable(*store, commit1@, x) && reachable(*store, commit2@, x) {
                assert(in_seq(a2@, x));
                assert(in_seq(a1@, x));
                let j = choose|j: int| 0 <= j < a2@.len() && (#[trigger] a2@[j])@ == x;
                assert(!in_seq(a1@, (a2@[j])@));
            }
        }
    }
    None
}


/// A root commit reaches nothing but itself: with no parents, no
/// parent path leaves it.
pub proof fn lemma_root_reaches_only_itself(store: ObjectStore, root: Seq<u8>, x: Seq<u8>)
    requires
        parents_of(store, root).len() == 0,
        x != root,
    ensures
        !reachable(store, root, x),
{
    assert forall|n: nat| !reach_n(store, root, x, n) by {}
}

} // verus!
