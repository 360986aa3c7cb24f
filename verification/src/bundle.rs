//! The bundle transport: the object set, branch refs and HEAD of a
//! repository, the `packed-refs` text that carries the refs, and
//! ingestion with the fast-forward guard on pushes.

use crate::ancestry::is_ancestor;
use crate::bytes::{append_bytes, bytes_eq, find_byte, find_pos, lines_of, split_lines, starts_with, subvec};
use crate::codec::{oid_spec, ObjType};
use crate::errors::GitError;
use crate::lits::{heads_prefix, heads_prefix_bytes, remotes_prefix, remotes_prefix_bytes, symref_prefix, symref_prefix_bytes};
use crate::store::{copy_bytes, find_rec, lemma_find_rec_push_keep, write_object, ObjRecord, ObjectStore};
use crate::refs::{find_ref, RefEntry, RefStore};
use vstd::prelude::*;

verus! {

/// A bundle: the sender's objects, its branch refs, and its HEAD
/// content.
pub struct Bundle {
    pub objects: Vec<ObjRecord>,
    pub refs: Vec<RefEntry>,
    pub head: Vec<u8>,
}

/// The (oid, kind, payload) triples of a record list.
pub open spec fn rec_views(entries: Seq<ObjRecord>) -> Seq<(Seq<u8>, ObjType, Seq<u8>)> {
    entries.map_values(|r: ObjRecord| (r.oid@, r.otype, r.data@))
}

/// The (name, oid) pairs of the entries under `refs/heads/`, in order.
pub open spec fn head_refs_of(entries: Seq<RefEntry>) -> Seq<(Seq<u8>, Seq<u8>)>
    decreases entries.len(),
{
    if entries.len() == 0 {
        Seq::empty()
    } else {
        let nm = entries.last().name@;
        head_refs_of(entries.drop_last()) + if nm.len() >= 11 && nm.subrange(0, 11)
            == heads_prefix() {
            seq![(nm, entries.last().oid@)]
        } else {
            Seq::<(Seq<u8>, Seq<u8>)>::empty()
        }
    }
}

/// Build a bundle of a repository's parts: every object of the store,
/// every `refs/heads/` ref, and the HEAD content.
pub fn create_bundle(store: &ObjectStore, refs: &RefStore) -> (r: Bundle)
    ensures
        rec_views(r.objects@) == rec_views(store.loose@) + rec_views(store.packed@),
        r.refs@.map_values(|e: RefEntry| (e.name@, e.oid@)) == head_refs_of(refs.entries@),
        r.head@ == refs.head@,
{
    let mut objects: Vec<ObjRecord> = Vec::new();
    let mut i: usize = 0;
    while i < store.loose.len()
        invariant
            i <= store.loose@.len(),
            rec_views(objects@) == rec_views(store.loose@.take(i as int)),
        decreases store.loose@.len() - i,
    {
        let rec = ObjRecord {
            oid: copy_bytes(store.loose[i].oid.as_slice()),
            otype: store.loose[i].otype,
            data: copy_bytes(store.loose[i].data.as_slice()),
        };
        let ghost o0 = objects@;
        proof {
            assert(rec.oid@ == store.loose@[i as int].oid@);
            assert(rec.data@ == store.loose@[i as int].data@);
        }
        objects.push(rec);
        proof {
            assert(rec_views(o0).len() == o0.len());
            assert(o0.len() == i as int);
            assert(objects@ == o0.push(rec));
            assert forall|x: int| 0 <= x < i + 1 implies rec_views(objects@)[x] == rec_views(
                store.loose@.take(i + 1),
            )[x] by {
                if x < i {
                    assert(objects@[x] == o0[x]);
                    assert(rec_views(objects@)[x] == rec_views(o0)[x]);
                    assert(rec_views(o0)[x] == rec_views(store.loose@.take(i as int))[x]);
                    assert(store.loose@.take(i as int)[x] == store.loose@.take(i + 1)[x]);
                    assert(rec_views(store.loose@.take(i as int))[x] == rec_views(
                        store.loose@.take(i + 1),
                    )[x]);
                } else {
                    assert(objects@[x] == rec);
                    assert(store.loose@.take(i + 1)[x] == store.loose@[x]);
                }
            }
            assert(rec_views(objects@) =~= rec_views(store.loose@.take(i + 1)));
        }
        i = i + 1;
    }
    proof {
        assert(store.loose@.take(store.loose@.len() as int) =~= store.loose@);
    }
    let mut j: usize = 0;
    while j < store.packed.len()
        invariant
            j <= store.packed@.len(),
            rec_views(objects@) == rec_views(store.loose@) + rec_views(
                store.packed@.take(j as int),
            ),
        decreases store.packed@.len() - j,
    {
        let rec = ObjRecord {
            oid: copy_bytes(store.packed[j].oid.as_slice()),
            otype: store.packed[j].otype,
            data: copy_bytes(store.packed[j].data.as_slice()),
        };
        let ghost o0 = objects@;
        proof {
            assert(rec.oid@ == store.packed@[j as int].oid@);
            assert(rec.data@ == store.packed@[j as int].data@);
        }
        objects.push(rec);
        proof {
            let ll = store.loose@.len() as int;
            assert(rec_views(o0).len() == o0.len());
            assert(o0.len() == ll + j as int);
            assert(objects@ == o0.push(rec));
            let rhs = rec_views(store.loose@) + rec_views(store.packed@.take(j + 1));
            assert forall|x: int| 0 <= x < objects@.len() implies rec_views(objects@)[x] == rhs[x]
                by {
                if x < o0.len() {
                    assert(objects@[x] == o0[x]);
                    assert(rec_views(objects@)[x] == rec_views(o0)[x]);
                    assert(rec_views(o0)[x] == (rec_views(store.loose@) + rec_views(
                        store.packed@.take(j as int),
                    ))[x]);
                    if x >= ll {
                        assert(rec_views(store.packed@.take(j as int))[x - ll] == rec_views(
                            store.packed@.take(j + 1),
                        )[x - ll]);
                    }
                } else {
                    assert(objects@[x] == rec);
                    assert(rhs[x] == rec_views(store.packed@.take(j + 1))[x - ll]);
                    assert(store.packed@.take(j + 1)[j as int] == store.packed@[j as int]);
                }
            }
            assert(rec_views(objects@) =~= rhs);
        }
        j = j + 1;
    }
    proof {
        assert(store.packed@.take(store.packed@.len() as int) =~= store.packed@);
    }
    let hp = heads_prefix_bytes();
    let mut brefs: Vec<RefEntry> = Vec::new();
    let mut k: usize = 0;
    proof {
        assert(refs.entries@.take(0) =~= Seq::<RefEntry>::empty());
        assert(brefs@.map_values(|e: RefEntry| (e.name@, e.oid@)) =~= head_refs_of(
            refs.entries@.take(0),
        ));
    }
    while k < refs.entries.len()
        invariant
            k <= refs.entries@.len(),
            hp@ == heads_prefix(),
            brefs@.map_values(|e: RefEntry| (e.name@, e.oid@)) == head_refs_of(
                refs.entries@.take(k as int),
            ),
        decreases refs.entries@.len() - k,
    {
        if starts_with(refs.entries[k].name.as_slice(), hp.as_slice()) {
            let e = RefEntry {
                name: copy_bytes(refs.entries[k].name.as_slice()),
                oid: copy_bytes(refs.entries[k].oid.as_slice()),
            };
            brefs.push(e);
        }
        proof {
            let t1 = refs.entries@.take(k + 1);
            assert(t1.drop_last() =~= refs.entries@.take(k as int));
            assert(t1.last() == refs.entries@[k as int]);
            assert(brefs@.map_values(|e: RefEntry| (e.name@, e.oid@)) =~= head_refs_of(t1));
        }
        k = k + 1;
    }
    proof {
        assert(refs.entries@.take(refs.entries@.len() as int) =~= refs.entries@);
    }
    Bundle { objects, refs: brefs, head: copy_bytes(refs.head.as_slice()) }
}

/// One `packed-refs` line: `OID SP NAME NL`.
pub open spec fn packed_refs_text(entries: Seq<RefEntry>) -> Seq<u8>
    decreases entries.len(),
{
    if entries.len() == 0 {
        Seq::empty()
    } else {
        packed_refs_text(entries.drop_last()) + entries.last().oid@ + seq![32u8]
            + entries.last().name@ + seq![10u8]
    }
}

/// Serialize refs as `packed-refs` text, one `OID SP NAME` line each.
pub fn packed_refs_bytes(refs: &Vec<RefEntry>) -> (r: Vec<u8>)
    ensures
        r@ == packed_refs_text(refs@),
{
    let mut out: Vec<u8> = Vec::new();
    proof {
        assert(refs@.take(0) =~= Seq::<RefEntry>::empty());
        assert(out@ =~= packed_refs_text(refs@.take(0)));
    }
    let mut k: usize = 0;
    while k < refs.len()
        invariant
            k <= refs@.len(),
            out@ == packed_refs_text(refs@.take(k as int)),
        decreases refs@.len() - k,
    {
        append_bytes(&mut out, refs[k].oid.as_slice());
        out.push(32);
        append_bytes(&mut out, refs[k].name.as_slice());
        out.push(10);
        proof {
            let t1 = refs@.take(k + 1);
            assert(t1.drop_last() =~= refs@.take(k as int));
            assert(t1.last() == refs@[k as int]);
            assert(out@ =~= packed_refs_text(t1));
        }
        k = k + 1;
    }
    proof {
        assert(refs@.take(refs@.len() as int) =~= refs@);
    }
    out
}

/// What a `packed-refs` line denotes: an (oid, name) split at the one
/// space of the line, or nothing for a malformed line.
pub open spec fn packed_refs_entry(l: Seq<u8>) -> Option<(Seq<u8>, Seq<u8>)> {
    let sp = find_pos(l, 32);
    if 0 <= sp < l.len() && find_pos(l.skip(sp + 1), 32) < 0 {
        Some((l.take(sp), l.skip(sp + 1)))
    } else {
        None
    }
}

/// The (oid, name) pairs of well-formed `packed-refs` lines, in order.
pub open spec fn packed_refs_parsed(ls: Seq<Seq<u8>>) -> Seq<(Seq<u8>, Seq<u8>)>
    decreases ls.len(),
{
    if ls.len() == 0 {
        Seq::empty()
    } else {
        packed_refs_parsed(ls.drop_last()) + match packed_refs_entry(ls.last()) {
            Some(p) => seq![p],
            None => Seq::<(Seq<u8>, Seq<u8>)>::empty(),
        }
    }
}

/// Parse `packed-refs` text into (oid, name) ref entries, skipping
/// lines that do not hold exactly one space.
pub fn parse_packed_refs(data: &[u8]) -> (r: Vec<RefEntry>)
    ensures
        r@.map_values(|e: RefEntry| (e.oid@, e.name@)) == packed_refs_parsed(lines_of(data@)),
{
    let lines = split_lines(data);
    let ghost ls = lines@.map_values(|v: Vec<u8>| v@);
    let mut r: Vec<RefEntry> = Vec::new();
    proof {
        assert(ls.take(0) =~= Seq::<Seq<u8>>::empty());
        assert(r@.map_values(|e: RefEntry| (e.oid@, e.name@)) =~= packed_refs_parsed(ls.take(0)));
    }
    let mut k: usize = 0;
    while k < lines.len()
        invariant
            k <= lines@.len(),
            ls == lines@.map_values(|v: Vec<u8>| v@),
            r@.map_values(|e: RefEntry| (e.oid@, e.name@)) == packed_refs_parsed(
                ls.take(k as int),
            ),
        decreases lines@.len() - k,
    {
        let line = &lines[k];
        match find_byte(line.as_slice(), 0, 32) {
            Some(sp) => {
                match find_byte(line.as_slice(), sp + 1, 32) {
                    Some(sp2) => {
                        proof {
                            let l = ls[k as int];
                            crate::bytes::lemma_find_pos_from(l, 32, 0, sp as int);
                            assert(l.skip(0) =~= l);
                            crate::bytes::lemma_find_pos_from(l, 32, sp as int + 1, sp2 as int);
                            assert(packed_refs_entry(l) is None);
                        }
                    },
                    None => {
                        let oid = subvec(line.as_slice(), 0, sp);
                        let name = subvec(line.as_slice(), sp + 1, line.len());
                        proof {
                            let l = ls[k as int];
                            crate::bytes::lemma_find_pos_from(l, 32, 0, sp as int);
                            assert(l.skip(0) =~= l);
                            crate::bytes::lemma_find_pos_none(l, 32, sp as int + 1);
                            crate::bytes::lemma_find_pos(l.skip(sp as int + 1), 32);
                            assert(find_pos(l.skip(sp as int + 1), 32) == -1);
                            assert(l.take(sp as int) =~= l.subrange(0, sp as int));
                            assert(l.skip(sp as int + 1) =~= l.subrange(
                                sp as int + 1,
                                l.len() as int,
                            ));
                            assert(packed_refs_entry(l) == Some((oid@, name@)));
                        }
                        let ghost r0 = r@;
                        let ghost pm0 = r@.map_values(|e: RefEntry| (e.oid@, e.name@));
                        r.push(RefEntry { oid, name });
                        proof {
                            assert(r@ == r0.push(RefEntry { oid, name }));
                            let pm = r@.map_values(|e: RefEntry| (e.oid@, e.name@));
                            assert(pm.len() == pm0.len() + 1);
                            assert forall|x: int| 0 <= x < pm0.len() implies #[trigger] pm[x]
                                == pm0[x] by {
                                assert(r@[x] == r0[x]);
                            }
                            assert(pm[pm0.len() as int] == (oid@, name@));
                        }
                    },
                }
            },
            None => {
                proof {
                    let l = ls[k as int];
                    crate::bytes::lemma_find_pos_none(l, 32, 0);
                    assert(l.skip(0) =~= l);
                    crate::bytes::lemma_find_pos(l, 32);
                }
            },
        }
        proof {
            let t1 = ls.take(k + 1);
            assert(t1.drop_last() =~= ls.take(k as int));
            assert(t1.last() == ls[k as int]);
            assert(r@.map_values(|e: RefEntry| (e.oid@, e.name@)) =~= packed_refs_parsed(t1));
        }
        k = k + 1;
    }
    proof {
        assert(ls.take(ls.len() as int) =~= ls);
    }
    r
}

/// The first record of `objs` hashing to `oid`, if any.
pub open spec fn first_with_oid(objs: Seq<ObjRecord>, oid: Seq<u8>) -> Option<(ObjType, Seq<u8>)>
    decreases objs.len(),
{
    if objs.len() == 0 {
        None
    } else if oid_spec(objs[0].otype, objs[0].data@) == oid {
        Some((objs[0].otype, objs[0].data@))
    } else {
        first_with_oid(objs.drop_first(), oid)
    }
}

proof fn lemma_first_with_push(objs: Seq<ObjRecord>, rec: ObjRecord, oid: Seq<u8>)
    ensures
        first_with_oid(objs.push(rec), oid) == if first_with_oid(objs, oid) is Some {
            first_with_oid(objs, oid)
        } else if oid_spec(rec.otype, rec.data@) == oid {
            Some((rec.otype, rec.data@))
        } else {
            None
        },
    decreases objs.len(),
{
    if objs.len() == 0 {
        assert(objs.push(rec)[0] == rec);
        assert(objs.push(rec).drop_first() =~= objs);
    } else {
        assert(objs.push(rec)[0] == objs[0]);
        assert(objs.push(rec).drop_first() =~= objs.drop_first().push(rec));
        lemma_first_with_push(objs.drop_first(), rec, oid);
    }
}

/// What the store holds after absorbing a bundle's objects: what it
/// already held under an id, else the first bundle record hashing to
/// the id.
pub open spec fn absorbed(store: ObjectStore, objs: Seq<ObjRecord>, oid: Seq<u8>) -> Option<
    (ObjType, Seq<u8>),
> {
    match store.find(oid) {
        Some(v) => Some(v),
        None => first_with_oid(objs, oid),
    }
}

/// Absorb a bundle's objects into a copy of the store: each object is
/// stored under the id recomputed from its content, existing objects
/// are never overwritten.
fn absorb_objects(store: &ObjectStore, objs: &Vec<ObjRecord>) -> (r: ObjectStore)
    requires
        store.wf(),
    ensures
        r.wf(),
        forall|oid: Seq<u8>| #[trigger] r.find(oid) == absorbed(*store, objs@, oid),
{
    let mut loose: Vec<ObjRecord> = Vec::new();
    let mut i: usize = 0;
    while i < store.loose.len()
        invariant
            i <= store.loose@.len(),
            rec_views(loose@) == rec_views(store.loose@.take(i as int)),
        decreases store.loose@.len() - i,
    {
        let rec = ObjRecord {
            oid: copy_bytes(store.loose[i].oid.as_slice()),
            otype: store.loose[i].otype,
            data: copy_bytes(store.loose[i].data.as_slice()),
        };
        let ghost o0 = loose@;
        proof {
            assert(rec.oid@ == store.loose@[i as int].oid@);
            assert(rec.data@ == store.loose@[i as int].data@);
        }
        loose.push(rec);
        proof {
            assert(rec_views(o0).len() == o0.len());
            assert(o0.len() == i as int);
            assert(loose@ == o0.push(rec));
            assert forall|x: int| 0 <= x < i + 1 implies rec_views(loose@)[x] == rec_views(
                store.loose@.take(i + 1),
            )[x] by {
                if x < i {
                    assert(loose@[x] == o0[x]);
                    assert(rec_views(loose@)[x] == rec_views(o0)[x]);
                    assert(rec_views(o0)[x] == rec_views(store.loose@.take(i as int))[x]);
                    assert(store.loose@.take(i as int)[x] == store.loose@.take(i + 1)[x]);
                    assert(rec_views(store.loose@.take(i as int))[x] == rec_views(
                        store.loose@.take(i + 1),
                    )[x]);
                } else {
                    assert(loose@[x] == rec);
                    assert(store.loose@.take(i + 1)[x] == store.loose@[x]);
                }
            }
            assert(rec_views(loose@) =~= rec_views(store.loose@.take(i + 1)));
        }
        i = i + 1;
    }
    let mut packed: Vec<ObjRecord> = Vec::new();
    let mut j: usize = 0;
    while j < store.packed.len()
        invariant
            j <= store.packed@.len(),
            rec_views(packed@) == rec_views(store.packed@.take(j as int)),
        decreases store.packed@.len() - j,
    {
        let rec = ObjRecord {
            oid: copy_bytes(store.packed[j].oid.as_slice()),
            otype: store.packed[j].otype,
            data: copy_bytes(store.packed[j].data.as_slice()),
        };
        let ghost o0 = packed@;
        proof {
            assert(rec.oid@ == store.packed@[j as int].oid@);
            assert(rec.data@ == store.packed@[j as int].data@);
        }
        packed.push(rec);
        proof {
            assert(rec_views(o0).len() == o0.len());
            assert(o0.len() == j as int);
            assert(packed@ == o0.push(rec));
            assert forall|x: int| 0 <= x < j + 1 implies rec_views(packed@)[x] == rec_views(
                store.packed@.take(j + 1),
            )[x] by {
                if x < j {
                    assert(packed@[x] == o0[x]);
                    assert(rec_views(packed@)[x] == rec_views(o0)[x]);
                    assert(rec_views(o0)[x] == rec_views(store.packed@.take(j as int))[x]);
                    assert(store.packed@.take(j as int)[x] == store.packed@.take(j + 1)[x]);
                    assert(rec_views(store.packed@.take(j as int))[x] == rec_views(
                        store.packed@.take(j + 1),
                    )[x]);
                } else {
                    assert(packed@[x] == rec);
                    assert(store.packed@.take(j + 1)[x] == store.packed@[x]);
                }
            }
            assert(rec_views(packed@) =~= rec_views(store.packed@.take(j + 1)));
        }
        j = j + 1;
    }
    let mut cur = ObjectStore { loose, packed };
    proof {
        assert(store.loose@.take(store.loose@.len() as int) =~= store.loose@);
        assert(store.packed@.take(store.packed@.len() as int) =~= store.packed@);
        lemma_find_rec_views(cur.loose@, store.loose@);
        lemma_find_rec_views(cur.packed@, store.packed@);
        assert forall|oid: Seq<u8>| #[trigger] cur.find(oid) == store.find(oid) by {}
        assert(cur.wf()) by {
            assert forall|x: int|
                0 <= x < cur.loose@.len() implies (#[trigger] cur.loose@[x]).oid@ == oid_spec(
                cur.loose@[x].otype,
                cur.loose@[x].data@,
            ) by {
                assert(rec_views(cur.loose@)[x] == rec_views(store.loose@)[x]);
            }
            assert forall|x: int|
                0 <= x < cur.packed@.len() implies (#[trigger] cur.packed@[x]).oid@ == oid_spec(
                cur.packed@[x].otype,
                cur.packed@[x].data@,
            ) by {
                assert(rec_views(cur.packed@)[x] == rec_views(store.packed@)[x]);
            }
        }
    }
    let mut k: usize = 0;
    proof {
        assert forall|oid: Seq<u8>| #[trigger] cur.find(oid) == absorbed(
            *store,
            objs@.take(0),
            oid,
        ) by {
            assert(objs@.take(0) =~= Seq::<ObjRecord>::empty());
        }
    }
    while k < objs.len()
        invariant
            k <= objs@.len(),
            cur.wf(),
            forall|oid: Seq<u8>| #[trigger] cur.find(oid) == absorbed(
                *store,
                objs@.take(k as int),
                oid,
            ),
        decreases objs@.len() - k,
    {
        let ghost cur0 = cur;
        let computed = write_object(&mut cur, objs[k].data.as_slice(), objs[k].otype);
        proof {
            let rec = objs@[k as int];
            let ck = oid_spec(rec.otype, rec.data@);
            let t1 = objs@.take(k + 1);
            assert(t1.drop_last() =~= objs@.take(k as int));
            assert(t1.last() == rec);
            assert forall|oid: Seq<u8>| #[trigger] cur.find(oid) == absorbed(*store, t1, oid) by {
                lemma_first_with_take_push(objs@, k as int, oid);
                if cur0.find(ck) is Some {
                    assert(cur.find(oid) == cur0.find(oid));
                } else {
                    if oid == ck {
                        assert(cur.find(ck) == Some((rec.otype, rec.data@)));
                    } else {
                        assert(cur.loose@.len() == cur0.loose@.len() + 1);
                        assert(cur.loose@.last().oid@ == ck);
                        assert(cur.loose@ =~= cur0.loose@.push(cur.loose@.last()));
                        lemma_find_rec_push_keep(cur0.loose@, cur.loose@.last(), oid);
                        assert(cur.find(oid) == cur0.find(oid));
                    }
                }
            }
        }
        k = k + 1;
    }
    proof {
        assert(objs@.take(objs@.len() as int) =~= objs@);
    }
    cur
}

/// `first_with_oid` over one more record: the earlier match wins.
proof fn lemma_first_with_take_push(objs: Seq<ObjRecord>, k: int, oid: Seq<u8>)
    requires
        0 <= k < objs.len(),
    ensures
        first_with_oid(objs.take(k + 1), oid) == if first_with_oid(objs.take(k), oid) is Some {
            first_with_oid(objs.take(k), oid)
        } else if oid_spec(objs[k].otype, objs[k].data@) == oid {
            Some((objs[k].otype, objs[k].data@))
        } else {
            None
        },
{
    assert(objs.take(k + 1) =~= objs.take(k).push(objs[k]));
    lemma_first_with_push(objs.take(k), objs[k], oid);
}

/// Equal record views find alike.
proof fn lemma_find_rec_views(a: Seq<ObjRecord>, b: Seq<ObjRecord>)
    requires
        rec_views(a) == rec_views(b),
    ensures
        forall|oid: Seq<u8>| #[trigger] find_rec(a, oid) == find_rec(b, oid),
    decreases a.len(),
{
    assert(rec_views(a).len() == a.len());
    assert(rec_views(b).len() == b.len());
    assert(a.len() == b.len());
    if a.len() > 0 {
        assert(rec_views(a)[0] == rec_views(b)[0]);
        assert(a[0].oid@ == b[0].oid@ && a[0].otype == b[0].otype && a[0].data@ == b[0].data@);
        assert(rec_views(a.drop_first()) =~= rec_views(b.drop_first())) by {
            assert forall|x: int| 0 <= x < a.len() - 1 implies rec_views(a.drop_first())[x]
                == rec_views(b.drop_first())[x] by {
                assert(a.drop_first()[x] == a[x + 1]);
                assert(b.drop_first()[x] == b[x + 1]);
                assert(rec_views(a.drop_first())[x] == (a[x + 1].oid@, a[x + 1].otype, a[x + 1].data@));
                assert(rec_views(b.drop_first())[x] == (b[x + 1].oid@, b[x + 1].otype, b[x + 1].data@));
                assert(rec_views(a)[x + 1] == rec_views(b)[x + 1]);
            }
        }
        lemma_find_rec_views(a.drop_first(), b.drop_first());
        assert forall|oid: Seq<u8>| #[trigger] find_rec(a, oid) == find_rec(b, oid) by {
            assert(find_rec(a.drop_first(), oid) == find_rec(b.drop_first(), oid));
        }
    }
}

/// The parent list an absorbed store would give an id.
pub open spec fn parents_abs(store: ObjectStore, objs: Seq<ObjRecord>, oid: Seq<u8>) -> Seq<
    Seq<u8>,
> {
    match absorbed(store, objs, oid) {
        Some((t, d)) => if t == ObjType::Commit {
            crate::commitobj::commit_parents(d)
        } else {
            Seq::empty()
        },
        None => Seq::empty(),
    }
}

/// A parent path of length at most `n` in the absorbed store.
pub open spec fn reach_abs_n(
    store: ObjectStore,
    objs: Seq<ObjRecord>,
    from: Seq<u8>,
    to: Seq<u8>,
    n: nat,
) -> bool
    decreases n,
{
    from == to || (n > 0 && exists|k: int|
        0 <= k < parents_abs(store, objs, from).len() && reach_abs_n(
            store,
            objs,
            #[trigger] parents_abs(store, objs, from)[k],
            to,
            (n - 1) as nat,
        ))
}

/// Ancestry in the store extended by a bundle's objects.
pub open spec fn reachable_abs(
    store: ObjectStore,
    objs: Seq<ObjRecord>,
    from: Seq<u8>,
    to: Seq<u8>,
) -> bool {
    exists|n: nat| reach_abs_n(store, objs, from, to, n)
}

proof fn lemma_reach_congruence(
    comb: ObjectStore,
    store: ObjectStore,
    objs: Seq<ObjRecord>,
    from: Seq<u8>,
    to: Seq<u8>,
    n: nat,
)
    requires
        forall|oid: Seq<u8>| #[trigger] comb.find(oid) == absorbed(store, objs, oid),
    ensures
        crate::ancestry::reach_n(comb, from, to, n) == reach_abs_n(store, objs, from, to, n),
    decreases n,
{
    assert(crate::ancestry::parents_of(comb, from) == parents_abs(store, objs, from));
    if n > 0 {
        if crate::ancestry::reach_n(comb, from, to, n) && from != to {
            let k = choose|k: int|
                0 <= k < crate::ancestry::parents_of(comb, from).len() && crate::ancestry::reach_n(
                    comb,
                    #[trigger] crate::ancestry::parents_of(comb, from)[k],
                    to,
                    (n - 1) as nat,
                );
            lemma_reach_congruence(
                comb,
                store,
                objs,
                crate::ancestry::parents_of(comb, from)[k],
                to,
                (n - 1) as nat,
            );
            assert(reach_abs_n(store, objs, from, to, n)) by {
                assert(0 <= k < parents_abs(store, objs, from).len() && reach_abs_n(
                    store,
                    objs,
                    parents_abs(store, objs, from)[k],
                    to,
                    (n - 1) as nat,
                ));
            }
        }
        if reach_abs_n(store, objs, from, to, n) && from != to {
            let k = choose|k: int|
                0 <= k < parents_abs(store, objs, from).len() && reach_abs_n(
                    store,
                    objs,
                    #[trigger] parents_abs(store, objs, from)[k],
                    to,
                    (n - 1) as nat,
                );
            lemma_reach_congruence(
                comb,
                store,
                objs,
                parents_abs(store, objs, from)[k],
                to,
                (n - 1) as nat,
            );
            assert(crate::ancestry::reach_n(comb, from, to, n)) by {
                assert(0 <= k < crate::ancestry::parents_of(comb, from).len()
                    && crate::ancestry::reach_n(
                    comb,
                    crate::ancestry::parents_of(comb, from)[k],
                    to,
                    (n - 1) as nat,
                ));
            }
        }
    }
}

/// Whether advancing the ref `name` to `oid` is a fast-forward against
/// the receiver's refs, with ancestry read from the absorbed store: the
/// ref is new, unchanged, or an ancestor of the incoming id.
pub open spec fn ff_ok(
    refs: RefStore,
    store: ObjectStore,
    objs: Seq<ObjRecord>,
    name: Seq<u8>,
    oid: Seq<u8>,
) -> bool {
    match find_ref(refs.entries@, name) {
        None => true,
        Some(c) => c == oid || reachable_abs(store, objs, oid, c),
    }
}

/// The remote-tracking name a fetch writes for a sender branch name:
/// `refs/remotes/<R>/<suffix>`.
pub open spec fn fetch_target(remote: Seq<u8>, branch_name: Seq<u8>) -> Seq<u8> {
    remotes_prefix() + remote + seq![47u8] + branch_name.skip(11)
}

/// Is the entry at `j` a branch ref (`refs/heads/...`)?
pub open spec fn is_branch_entry(entries: Seq<RefEntry>, j: int) -> bool {
    entries[j].name@.len() >= 11 && entries[j].name@.subrange(0, 11) == heads_prefix()
}

/// Ingest a bundle.
///
/// Push mode (`remote_name` is `None`): absorb the objects and advance
/// each `refs/heads/` ref of the bundle, but only when every one of
/// them is a fast-forward; otherwise fail with `NonFastForward` and
/// leave the repository exactly as it was.
///
/// Fetch mode (`remote_name` is `Some(R)`): absorb the objects and set
/// `refs/remotes/R/<b>` for every bundle branch `<b>`, unconditionally;
/// mirror the sender's attached HEAD to `refs/remotes/R/HEAD`.
#[verifier::rlimit(80)]
pub fn unbundle(
    store: &mut ObjectStore,
    refs: &mut RefStore,
    bundle: &Bundle,
    remote_name: Option<&Vec<u8>>,
) -> (r: Result<(), GitError>)
    requires
        old(store).wf(),
        old(refs).wf(),
    ensures
        final(store).wf(),
        final(refs).wf(),
        final(refs).head@ == old(refs).head@,
        match r {
            Ok(()) => ({
                &&& forall|oid: Seq<u8>| #[trigger] final(store).find(oid) == absorbed(
                    *old(store),
                    bundle.objects@,
                    oid,
                )
                &&& (remote_name is None ==> forall|j: int|
                    0 <= j < bundle.refs@.len() && is_branch_entry(bundle.refs@, j) ==> ff_ok(
                        *old(refs),
                        *old(store),
                        bundle.objects@,
                        (#[trigger] bundle.refs@[j]).name@,
                        bundle.refs@[j].oid@,
                    ))
                &&& (remote_name is None ==> forall|j: int|
                    0 <= j < bundle.refs@.len() && is_branch_entry(bundle.refs@, j) && (forall|
                        j2: int,
                    |
                        j < j2 < bundle.refs@.len() ==> (#[trigger] bundle.refs@[j2]).name@
                            != bundle.refs@[j].name@) ==> find_ref(
                        final(refs).entries@,
                        (#[trigger] bundle.refs@[j]).name@,
                    ) == Some(bundle.refs@[j].oid@))
                &&& (remote_name is None ==> forall|n: Seq<u8>|
                    (forall|j: int|
                        0 <= j < bundle.refs@.len() && is_branch_entry(bundle.refs@, j) ==> (
                        #[trigger] bundle.refs@[j]).name@ != n) ==> #[trigger] find_ref(
                        final(refs).entries@,
                        n,
                    ) == find_ref(old(refs).entries@, n))
                &&& (match remote_name {
                    Some(rn) => ({
                        let mirror = remotes_prefix() + rn@ + seq![47u8] + crate::lits::head_name();
                        let head_sym = bundle.head@.len() >= 16 && bundle.head@.subrange(0, 16)
                            == symref_prefix() + heads_prefix();
                        &&& (forall|j: int|
                            0 <= j < bundle.refs@.len() && is_branch_entry(bundle.refs@, j) && (
                            forall|j2: int|
                                j < j2 < bundle.refs@.len() && is_branch_entry(bundle.refs@, j2)
                                    ==> fetch_target(rn@, (#[trigger] bundle.refs@[j2]).name@)
                                    != fetch_target(rn@, bundle.refs@[j].name@)) && fetch_target(
                                rn@,
                                (#[trigger] bundle.refs@[j]).name@,
                            ) != mirror ==> find_ref(
                                final(refs).entries@,
                                fetch_target(rn@, bundle.refs@[j].name@),
                            ) == Some(bundle.refs@[j].oid@))
                        &&& (head_sym ==> find_ref(final(refs).entries@, mirror) == Some(
                            symref_prefix() + remotes_prefix() + rn@ + seq![47u8]
                                + bundle.head@.skip(16),
                        ))
                        &&& (forall|n: Seq<u8>|
                            ((forall|j: int|
                                0 <= j < bundle.refs@.len() && is_branch_entry(bundle.refs@, j)
                                    ==> fetch_target(rn@, (#[trigger] bundle.refs@[j]).name@)
                                    != n) && (head_sym ==> n != mirror)) ==> #[trigger] find_ref(
                                final(refs).entries@,
                                n,
                            ) == find_ref(old(refs).entries@, n))
                    }),
                    None => true,
                })
            }),
            Err(e) => ({
                &&& e == GitError::NonFastForward
                &&& remote_name is None
                &&& final(store).loose@ == old(store).loose@
                &&& final(store).packed@ == old(store).packed@
                &&& final(refs).entries@ == old(refs).entries@
                &&& exists|j: int|
                    0 <= j < bundle.refs@.len() && is_branch_entry(bundle.refs@, j) && !ff_ok(
                        *old(refs),
                        *old(store),
                        bundle.objects@,
                        (#[trigger] bundle.refs@[j]).name@,
                        bundle.refs@[j].oid@,
                    )
            }),
        },
{
    let hp = heads_prefix_bytes();
    let combined = absorb_objects(store, &bundle.objects);
    match remote_name {
        None => {
            let mut j: usize = 0;
            while j < bundle.refs.len()
                invariant
                    j <= bundle.refs@.len(),
                    hp@ == heads_prefix(),
                    refs.wf(),
                    remote_name is None,
                    *store == *old(store),
                    *refs == *old(refs),
                    store.wf(),
                    forall|oid: Seq<u8>| #[trigger] combined.find(oid) == absorbed(
                        *store,
                        bundle.objects@,
                        oid,
                    ),
                    forall|x: int|
                        0 <= x < j && is_branch_entry(bundle.refs@, x) ==> ff_ok(
                            *refs,
                            *store,
                            bundle.objects@,
                            (#[trigger] bundle.refs@[x]).name@,
                            bundle.refs@[x].oid@,
                        ),
                decreases bundle.refs@.len() - j,
            {
                let e = &bundle.refs[j];
                if starts_with(e.name.as_slice(), hp.as_slice()) {
                    match crate::refs::read_ref(refs, e.name.as_slice()) {
                        Ok(c) => {
                            proof {
                                lemma_branch_read_is_find(*refs, bundle.refs@[j as int].name@);
                            }
                            if !bytes_eq(c.as_slice(), e.oid.as_slice()) {
                                let ff = is_ancestor(&combined, c.as_slice(), e.oid.as_slice());
                                if !ff {
                                    proof {
                                        assert forall|n1: nat|
                                            !reach_abs_n(
                                                *store,
                                                bundle.objects@,
                                                bundle.refs@[j as int].oid@,
                                                c@,
                                                n1,
                                            ) by {
                                            lemma_reach_congruence(
                                                combined,
                                                *store,
                                                bundle.objects@,
                                                bundle.refs@[j as int].oid@,
                                                c@,
                                                n1,
                                            );
                                        }
                                        assert(!reachable_abs(
                                            *store,
                                            bundle.objects@,
                                            bundle.refs@[j as int].oid@,
                                            c@,
                                        ));
                                        assert(!ff_ok(
                                            *refs,
                                            *store,
                                            bundle.objects@,
                                            bundle.refs@[j as int].name@,
                                            bundle.refs@[j as int].oid@,
                                        ));
                                    }
                                    return Err(GitError::NonFastForward);
                                }
                                proof {
                                    let n0 = choose|n0: nat|
                                        crate::ancestry::reach_n(
                                            combined,
                                            bundle.refs@[j as int].oid@,
                                            c@,
                                            n0,
                                        );
                                    lemma_reach_congruence(
                                        combined,
                                        *store,
                                        bundle.objects@,
                                        bundle.refs@[j as int].oid@,
                                        c@,
                                        n0,
                                    );
                                    assert(reach_abs_n(
                                        *store,
                                        bundle.objects@,
                                        bundle.refs@[j as int].oid@,
                                        c@,
                                        n0,
                                    ));
                                }
                            }
                        },
                        Err(_) => {
                            proof {
                                lemma_branch_read_is_find(*refs, bundle.refs@[j as int].name@);
                            }
                        },
                    }
                }
                j = j + 1;
            }
            let ghost refs0 = *refs;
            *store = combined;
            let mut k: usize = 0;
            while k < bundle.refs.len()
                invariant
                    k <= bundle.refs@.len(),
                    hp@ == heads_prefix(),
                    refs.wf(),
                    refs.head@ == refs0.head@,
                    forall|x: int|
                        0 <= x < k && is_branch_entry(bundle.refs@, x) && (forall|x2: int|
                            x < x2 < k ==> (#[trigger] bundle.refs@[x2]).name@ != bundle.refs@[
                                x
                            ].name@) ==> find_ref(
                            refs.entries@,
                            (#[trigger] bundle.refs@[x]).name@,
                        ) == Some(bundle.refs@[x].oid@),
                    forall|n: Seq<u8>|
                        (forall|x: int|
                            0 <= x < k && is_branch_entry(bundle.refs@, x) ==> (
                            #[trigger] bundle.refs@[x]).name@ != n) ==> #[trigger] find_ref(
                            refs.entries@,
                            n,
                        ) == find_ref(refs0.entries@, n),
                decreases bundle.refs@.len() - k,
            {
                let e = &bundle.refs[k];
                if starts_with(e.name.as_slice(), hp.as_slice()) {
                    proof {
                        lemma_branch_resolves_self(*refs, bundle.refs@[k as int].name@);
                    }
                    crate::refs::update_ref(refs, e.name.as_slice(), e.oid.as_slice());
                }
                k = k + 1;
            }
            Ok(())
        },
        Some(rname) => {
            *store = combined;
            let ghost refs0 = *refs;
            proof {
                assert(refs0 == *old(refs));
            }
            let ghost rn = rname@;
            let mut k: usize = 0;
            while k < bundle.refs.len()
                invariant
                    k <= bundle.refs@.len(),
                    hp@ == heads_prefix(),
                    rn == rname@,
                    refs.wf(),
                    refs0 == *old(refs),
                    refs.head@ == refs0.head@,
                    forall|x: int|
                        0 <= x < k && is_branch_entry(bundle.refs@, x) && (forall|x2: int|
                            x < x2 < k && is_branch_entry(bundle.refs@, x2) ==> fetch_target(
                                rn,
                                (#[trigger] bundle.refs@[x2]).name@,
                            ) != fetch_target(rn, bundle.refs@[x].name@)) ==> find_ref(
                            refs.entries@,
                            fetch_target(rn, (#[trigger] bundle.refs@[x]).name@),
                        ) == Some(bundle.refs@[x].oid@),
                    forall|n: Seq<u8>|
                        (forall|x: int|
                            0 <= x < k && is_branch_entry(bundle.refs@, x) ==> fetch_target(
                                rn,
                                (#[trigger] bundle.refs@[x]).name@,
                            ) != n) ==> #[trigger] find_ref(refs.entries@, n) == find_ref(
                            refs0.entries@,
                            n,
                        ),
                decreases bundle.refs@.len() - k,
            {
                let e = &bundle.refs[k];
                if starts_with(e.name.as_slice(), hp.as_slice()) {
                    let suffix = subvec(e.name.as_slice(), 11, e.name.len());
                    let mut target = remotes_prefix_bytes();
                    append_bytes(&mut target, rname.as_slice());
                    target.push(47);
                    append_bytes(&mut target, suffix.as_slice());
                    proof {
                        let nm = bundle.refs@[k as int].name@;
                        assert(nm.subrange(11, nm.len() as int) =~= nm.skip(11));
                        assert(target@ =~= fetch_target(rn, nm));
                        assert(target@.subrange(0, 13) =~= remotes_prefix());
                        lemma_remote_resolves_self(*refs, target@);
                    }
                    crate::refs::update_ref(refs, target.as_slice(), e.oid.as_slice());
                }
                k = k + 1;
            }
            let symhp = crate::refs::concat2(
                symref_prefix_bytes().as_slice(),
                heads_prefix_bytes().as_slice(),
            );
            if starts_with(bundle.head.as_slice(), symhp.as_slice()) {
                let b0 = subvec(bundle.head.as_slice(), 16, bundle.head.len());
                let mut tname = remotes_prefix_bytes();
                append_bytes(&mut tname, rname.as_slice());
                tname.push(47);
                let hn = crate::lits::head_name_bytes();
                append_bytes(&mut tname, hn.as_slice());
                let mut tval = symref_prefix_bytes();
                let rp2 = remotes_prefix_bytes();
                append_bytes(&mut tval, rp2.as_slice());
                append_bytes(&mut tval, rname.as_slice());
                tval.push(47);
                append_bytes(&mut tval, b0.as_slice());
                proof {
                    assert(tname@ =~= remotes_prefix() + rn + seq![47u8]
                        + crate::lits::head_name());
                    assert(tname@.subrange(0, 13) =~= remotes_prefix());
                    lemma_remote_resolves_self(*refs, tname@);
                }
                crate::refs::update_ref(refs, tname.as_slice(), tval.as_slice());
            }
            Ok(())
        },
    }
}


/// A `refs/remotes/...` name resolves to itself and is not `HEAD`.
proof fn lemma_remote_resolves_self(refs: RefStore, name: Seq<u8>)
    requires
        name.len() >= 13,
        name.subrange(0, 13) == remotes_prefix(),
    ensures
        crate::refs::resolve_spec(refs.entries@, name) == name,
        name != crate::lits::head_name(),
{
    assert(name.subrange(0, 5) =~= name.subrange(0, 13).subrange(0, 5));
    assert(name.subrange(0, 5) == crate::lits::refs_prefix());
}

/// Reading a `refs/heads/...` name consults exactly that entry.
proof fn lemma_branch_read_is_find(refs: RefStore, name: Seq<u8>)
    requires
        name.len() >= 11,
        name.subrange(0, 11) == heads_prefix(),
    ensures
        crate::refs::read_ref_spec(refs, name) == find_ref(refs.entries@, name),
{
    lemma_branch_resolves_self(refs, name);
}

/// A `refs/heads/...` name resolves to itself and is not `HEAD`.
proof fn lemma_branch_resolves_self(refs: RefStore, name: Seq<u8>)
    requires
        name.len() >= 11,
        name.subrange(0, 11) == heads_prefix(),
    ensures
        crate::refs::resolve_spec(refs.entries@, name) == name,
        name != crate::lits::head_name(),
{
    assert(name.subrange(0, 5) =~= name.subrange(0, 11).subrange(0, 5));
    assert(name.subrange(0, 5) == crate::lits::refs_prefix());
}

} // verus!
