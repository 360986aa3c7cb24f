//! Commit objects: composing the text payload (tree line, parent
//! lines, author and committer lines, blank line, message) and parsing
//! the tree id and parent ids back out of one.

use crate::bytes::{append_bytes, lines_of, split_lines, starts_with, subvec};
use crate::codec::oid_spec;
use crate::codec::ObjType;
use crate::lits::{
    author_line_prefix, author_line_prefix_bytes, committer_line_prefix,
    committer_line_prefix_bytes, parent_line_prefix, parent_line_prefix_bytes, tree_line_prefix,
    tree_line_prefix_bytes,
};
use crate::store::{write_object, ObjectStore};
use vstd::prelude::*;

verus! {

/// The `parent` lines for a list of parent ids, in order.
pub open spec fn parent_lines(parents: Seq<Seq<u8>>) -> Seq<u8>
    decreases parents.len(),
{
    if parents.len() == 0 {
        Seq::empty()
    } else {
        parent_lines(parents.drop_last()) + parent_line_prefix() + parents.last() + seq![10u8]
    }
}

/// The text payload of a commit: header lines, a blank line, then the
/// message with a trailing newline.
pub open spec fn commit_payload(
    tree: Seq<u8>,
    parents: Seq<Seq<u8>>,
    message: Seq<u8>,
    author: Seq<u8>,
    timestamp: Seq<u8>,
) -> Seq<u8> {
    tree_line_prefix() + tree + seq![10u8] + parent_lines(parents) + author_line_prefix() + author
        + seq![32u8] + timestamp + seq![10u8] + committer_line_prefix() + author + seq![32u8]
        + timestamp + seq![10u8] + seq![10u8] + message + seq![10u8]
}

/// Write a commit object composed of the given parts; the caller
/// supplies the author identity and the `UNIXTIME TZ` timestamp.
pub fn write_commit(
    store: &mut ObjectStore,
    tree_id: &[u8],
    parent_ids: &Vec<Vec<u8>>,
    message: &[u8],
    author: &[u8],
    timestamp: &[u8],
) -> (r: Vec<u8>)
    requires
        old(store).wf(),
    ensures
        final(store).wf(),
        final(store).packed@ == old(store).packed@,
        forall|oid2: Seq<u8>|
            old(store).find(oid2) is Some ==> #[trigger] final(store).find(oid2) == old(
                store,
            ).find(oid2),
        r@ == oid_spec(
            ObjType::Commit,
            commit_payload(
                tree_id@,
                parent_ids@.map_values(|v: Vec<u8>| v@),
                message@,
                author@,
                timestamp@,
            ),
        ),
        r@.len() == 40,
        ({
            let payload = commit_payload(
                tree_id@,
                parent_ids@.map_values(|v: Vec<u8>| v@),
                message@,
                author@,
                timestamp@,
            );
            match old(store).find(r@) {
                Some(_) => final(store).loose@ == old(store).loose@,
                None => final(store).find(r@) == Some((ObjType::Commit, payload)),
            }
        }),
{
    let ghost pv = parent_ids@.map_values(|v: Vec<u8>| v@);
    let mut payload = tree_line_prefix_bytes();
    append_bytes(&mut payload, tree_id);
    payload.push(10);
    let ghost base = payload@;
    proof {
        assert(base =~= tree_line_prefix() + tree_id@ + seq![10u8]);
        assert(pv.take(0) =~= Seq::<Seq<u8>>::empty());
        assert(payload@ =~= base + parent_lines(pv.take(0)));
    }
    let mut k: usize = 0;
    while k < parent_ids.len()
        invariant
            k <= parent_ids@.len(),
            pv == parent_ids@.map_values(|v: Vec<u8>| v@),
            payload@ == base + parent_lines(pv.take(k as int)),
        decreases parent_ids@.len() - k,
    {
        let pl = parent_line_prefix_bytes();
        append_bytes(&mut payload, pl.as_slice());
        append_bytes(&mut payload, parent_ids[k].as_slice());
        payload.push(10);
        proof {
            let t1 = pv.take(k + 1);
            assert(t1.drop_last() =~= pv.take(k as int));
            assert(t1.last() == pv[k as int]);
            assert(payload@ =~= base + parent_lines(t1));
        }
        k = k + 1;
    }
    proof {
        assert(pv.take(pv.len() as int) =~= pv);
    }
    let al = author_line_prefix_bytes();
    append_bytes(&mut payload, al.as_slice());
    append_bytes(&mut payload, author);
    payload.push(32);
    append_bytes(&mut payload, timestamp);
    payload.push(10);
    let cl = committer_line_prefix_bytes();
    append_bytes(&mut payload, cl.as_slice());
    append_bytes(&mut payload, author);
    payload.push(32);
    append_bytes(&mut payload, timestamp);
    payload.push(10);
    payload.push(10);
    append_bytes(&mut payload, message);
    payload.push(10);
    proof {
        assert(payload@ =~= commit_payload(tree_id@, pv, message@, author@, timestamp@));
    }
    write_object(store, payload.as_slice(), ObjType::Commit)
}

/// The number of header lines: the index of the first blank line.
pub open spec fn first_blank(ls: Seq<Seq<u8>>) -> int
    decreases ls.len(),
{
    if ls.len() == 0 {
        0
    } else if ls[0].len() == 0 {
        0
    } else {
        1 + first_blank(ls.drop_first())
    }
}

/// The parent ids named by a run of header lines, in order.
pub open spec fn parents_in(ls: Seq<Seq<u8>>) -> Seq<Seq<u8>>
    decreases ls.len(),
{
    if ls.len() == 0 {
        Seq::empty()
    } else {
        parents_in(ls.drop_last()) + if ls.last().len() >= 7 && ls.last().subrange(0, 7)
            == parent_line_prefix() {
            seq![ls.last().skip(7)]
        } else {
            Seq::<Seq<u8>>::empty()
        }
    }
}

/// The parent ids of a commit payload: those named by `parent` header
/// lines before the first blank line.
pub open spec fn commit_parents(data: Seq<u8>) -> Seq<Seq<u8>> {
    let ls = lines_of(data);
    parents_in(ls.take(first_blank(ls)))
}

/// The tree id of a commit payload: the remainder of a first line
/// starting `tree `.
pub open spec fn commit_tree(data: Seq<u8>) -> Option<Seq<u8>> {
    let ls = lines_of(data);
    if ls.len() > 0 && ls[0].len() >= 5 && ls[0].subrange(0, 5) == tree_line_prefix() {
        Some(ls[0].skip(5))
    } else {
        None
    }
}

/// Extract the parent ids of a commit payload.
pub fn parse_commit_parents(data: &[u8]) -> (r: Vec<Vec<u8>>)
    ensures
        r@.map_values(|v: Vec<u8>| v@) == commit_parents(data@),
{
    let lines = split_lines(data);
    let ghost ls = lines@.map_values(|v: Vec<u8>| v@);
    let mut blank: usize = 0;
    while blank < lines.len() && lines[blank].len() > 0
        invariant
            blank <= lines@.len(),
            ls == lines@.map_values(|v: Vec<u8>| v@),
            forall|j: int| 0 <= j < blank ==> (#[trigger] ls[j]).len() > 0,
        decreases lines@.len() - blank,
    {
        blank = blank + 1;
    }
    proof {
        lemma_first_blank_eq(ls, blank as int);
    }
    let pl = parent_line_prefix_bytes();
    let mut r: Vec<Vec<u8>> = Vec::new();
    proof {
        assert(ls.take(blank as int).take(0) =~= Seq::<Seq<u8>>::empty());
        assert(r@.map_values(|v: Vec<u8>| v@) =~= parents_in(ls.take(blank as int).take(0)));
    }
    let mut k: usize = 0;
    while k < blank
        invariant
            k <= blank <= lines@.len(),
            pl@ == parent_line_prefix(),
            ls == lines@.map_values(|v: Vec<u8>| v@),
            r@.map_values(|v: Vec<u8>| v@) == parents_in(ls.take(blank as int).take(k as int)),
        decreases blank - k,
    {
        if starts_with(lines[k].as_slice(), pl.as_slice()) {
            let p = subvec(lines[k].as_slice(), 7, lines[k].len());
            proof {
                assert(ls[k as int].subrange(7, ls[k as int].len() as int) =~= ls[
                    k as int
                ].skip(7));
            }
            r.push(p);
        }
        proof {
            let h = ls.take(blank as int);
            let t1 = h.take(k + 1);
            assert(t1.drop_last() =~= h.take(k as int));
            assert(t1.last() == ls[k as int]);
            assert(r@.map_values(|v: Vec<u8>| v@) =~= parents_in(t1));
        }
        k = k + 1;
    }
    proof {
        assert(ls.take(blank as int).take(blank as int) =~= ls.take(blank as int));
    }
    r
}

proof fn lemma_first_blank_eq(ls: Seq<Seq<u8>>, b: int)
    requires
        0 <= b <= ls.len(),
        forall|j: int| 0 <= j < b ==> (#[trigger] ls[j]).len() > 0,
        b < ls.len() ==> ls[b].len() == 0,
    ensures
        first_blank(ls) == b,
    decreases b,
{
    if ls.len() > 0 && ls[0].len() != 0 {
        assert(b > 0);
        let t = ls.drop_first();
        assert forall|j: int| 0 <= j < b - 1 implies (#[trigger] t[j]).len() > 0 by {
            assert(t[j] == ls[j + 1]);
        }
        if b - 1 < t.len() {
            assert(t[b - 1] == ls[b]);
        }
        lemma_first_blank_eq(t, b - 1);
    }
}

/// Extract the tree id of a commit payload.
pub fn parse_commit_tree(data: &[u8]) -> (r: Option<Vec<u8>>)
    ensures
        match r {
            Some(v) => commit_tree(data@) == Some(v@),
            None => commit_tree(data@) is None,
        },
{
    let lines = split_lines(data);
    if lines.len() == 0 {
        return None;
    }
    let tl = tree_line_prefix_bytes();
    if starts_with(lines[0].as_slice(), tl.as_slice()) {
        let v = subvec(lines[0].as_slice(), 5, lines[0].len());
        proof {
            let l0 = lines@.map_values(|v: Vec<u8>| v@)[0];
            assert(l0.subrange(5, l0.len() as int) =~= l0.skip(5));
        }
        Some(v)
    } else {
        None
    }
}

} // verus!
