//! The object store: a content-addressed collection of immutable
//! objects, each held under the hex SHA-1 of its framed bytes. Objects
//! live either loose or inside a pack; reads probe loose first, then
//! the packed records, as the unified read path.

use crate::bytes::subvec;
use crate::codec::{frame, frame_spec, hash_object, oid_spec, parse_frame, ObjType};
use crate::errors::GitError;
use crate::zlib::{zlib_deflate, zlib_deflate_of, zlib_inflate, zlib_inflate_of};
use vstd::prelude::*;

verus! {

/// One stored object: its hex object id, kind, and payload.
pub struct ObjRecord {
    pub oid: Vec<u8>,
    pub otype: ObjType,
    pub data: Vec<u8>,
}

/// The first record under `oid` in `entries`, if any.
pub open spec fn find_rec(entries: Seq<ObjRecord>, oid: Seq<u8>) -> Option<(ObjType, Seq<u8>)>
    decreases entries.len(),
{
    if entries.len() == 0 {
        None
    } else if entries[0].oid@ == oid {
        Some((entries[0].otype, entries[0].data@))
    } else {
        find_rec(entries.drop_first(), oid)
    }
}

/// A content-addressed object store: loose records and packed records.
pub struct ObjectStore {
    pub loose: Vec<ObjRecord>,
    pub packed: Vec<ObjRecord>,
}

impl ObjectStore {
    /// Every record is stored under the id recomputed from its content.
    pub open spec fn wf(self) -> bool {
        &&& forall|i: int|
            0 <= i < self.loose@.len() ==> (#[trigger] self.loose@[i]).oid@ == oid_spec(
                self.loose@[i].otype,
                self.loose@[i].data@,
            )
        &&& forall|i: int|
            0 <= i < self.packed@.len() ==> (#[trigger] self.packed@[i]).oid@ == oid_spec(
                self.packed@[i].otype,
                self.packed@[i].data@,
            )
    }

    /// What the unified read path finds under `oid`: loose first, then
    /// the packed records.
    pub open spec fn find(self, oid: Seq<u8>) -> Option<(ObjType, Seq<u8>)> {
        match find_rec(self.loose@, oid) {
            Some(v) => Some(v),
            None => find_rec(self.packed@, oid),
        }
    }

    pub fn new() -> (r: ObjectStore)
        ensures
            r.wf(),
            r.loose@.len() == 0,
            r.packed@.len() == 0,
    {
        ObjectStore { loose: Vec::new(), packed: Vec::new() }
    }
}

/// Fresh copy of a byte slice.
pub fn copy_bytes(v: &[u8]) -> (r: Vec<u8>)
    ensures
        r@ == v@,
{
    let r = subvec(v, 0, v.len());
    proof {
        assert(v@.subrange(0, v@.len() as int) =~= v@);
    }
    r
}

fn find_in(entries: &Vec<ObjRecord>, oid: &[u8]) -> (r: Option<usize>)
    ensures
        match r {
            Some(i) => i < entries@.len() && entries@[i as int].oid@ == oid@ && find_rec(
                entries@,
                oid@,
            ) == Some((entries@[i as int].otype, entries@[i as int].data@)),
            None => find_rec(entries@, oid@) is None,
        },
{
    let mut i: usize = 0;
    proof {
        assert(entries@.skip(0) =~= entries@);
    }
    while i < entries.len()
        invariant
            i <= entries@.len(),
            forall|j: int| 0 <= j < i ==> (#[trigger] entries@[j]).oid@ != oid@,
            find_rec(entries@, oid@) == find_rec(entries@.skip(i as int), oid@),
        decreases entries@.len() - i,
    {
        if crate::bytes::bytes_eq(entries[i].oid.as_slice(), oid) {
            proof {
                assert(entries@.skip(i as int)[0] == entries@[i as int]);
            }
            return Some(i);
        }
        proof {
            assert(entries@.skip(i as int).drop_first() =~= entries@.skip(i as int + 1));
            assert(entries@.skip(i as int)[0] == entries@[i as int]);
        }
        i = i + 1;
    }
    None
}

/// Write an object: compute its id; if the store already holds that id,
/// leave the store unchanged (deduplication); otherwise add a loose
/// record. Returns the object id.
pub fn write_object(store: &mut ObjectStore, data: &[u8], object_type: ObjType) -> (r: Vec<u8>)
    requires
        old(store).wf(),
    ensures
        final(store).wf(),
        r@ == oid_spec(object_type, data@),
        r@.len() == 40,
        final(store).packed@ == old(store).packed@,
        forall|oid2: Seq<u8>|
            old(store).find(oid2) is Some ==> #[trigger] final(store).find(oid2) == old(
                store,
            ).find(oid2),
        match old(store).find(r@) {
            Some(_) => final(store).loose@ == old(store).loose@,
            None => ({
                &&& final(store).loose@.len() == old(store).loose@.len() + 1
                &&& final(store).loose@.subrange(0, old(store).loose@.len() as int) == old(
                    store,
                ).loose@
                &&& final(store).loose@.last().oid@ == r@
                &&& final(store).loose@.last().otype == object_type
                &&& final(store).loose@.last().data@ == data@
                &&& final(store).find(r@) == Some((object_type, data@))
            }),
        },
{
    let oid = hash_object(data, object_type);
    let in_loose = find_in(&store.loose, oid.as_slice()).is_some();
    let in_packed = find_in(&store.packed, oid.as_slice()).is_some();
    if !in_loose && !in_packed {
        let rec = ObjRecord { oid: copy_bytes(oid.as_slice()), otype: object_type, data: copy_bytes(data) };
        let ghost l0 = store.loose@;
        proof {
            lemma_find_rec_push(store.loose@, rec, oid@);
        }
        store.loose.push(rec);
        proof {
            assert(store.loose@ == l0.push(rec));
            assert forall|oid2: Seq<u8>|
                (find_rec(l0, oid2) is Some || find_rec(store.packed@, oid2) is Some) implies
                #[trigger] find_rec(store.loose@, oid2) == find_rec(l0, oid2) by {
                if find_rec(l0, oid2) is Some {
                    lemma_find_rec_push_keep(l0, rec, oid2);
                } else {
                    assert(find_rec(store.packed@, oid@) is None);
                    assert(rec.oid@ != oid2);
                    lemma_find_rec_push_keep(l0, rec, oid2);
                }
            }
        }
    }
    oid
}

/// Pushing a record keeps every earlier find, and every find of an id
/// the record does not carry.
pub proof fn lemma_find_rec_push_keep(entries: Seq<ObjRecord>, rec: ObjRecord, oid: Seq<u8>)
    requires
        find_rec(entries, oid) is Some || rec.oid@ != oid,
    ensures
        find_rec(entries.push(rec), oid) == find_rec(entries, oid),
    decreases entries.len(),
{
    if entries.len() == 0 {
        assert(entries.push(rec)[0] == rec);
        assert(entries.push(rec).drop_first() =~= entries);
    } else if entries[0].oid@ == oid {
        assert(entries.push(rec)[0] == entries[0]);
    } else {
        assert(entries.push(rec)[0] == entries[0]);
        assert(entries.push(rec).drop_first() =~= entries.drop_first().push(rec));
        lemma_find_rec_push_keep(entries.drop_first(), rec, oid);
    }
}

/// A record pushed onto entries that lack its id is then found.
pub proof fn lemma_find_rec_push(entries: Seq<ObjRecord>, rec: ObjRecord, oid: Seq<u8>)
    requires
        find_rec(entries, oid) is None,
        rec.oid@ == oid,
    ensures
        find_rec(entries.push(rec), oid) == Some((rec.otype, rec.data@)),
    decreases entries.len(),
{
    if entries.len() == 0 {
        assert(entries.push(rec)[0] == rec);
    } else {
        assert(entries.push(rec)[0] == entries[0]);
        assert(entries.push(rec).drop_first() =~= entries.drop_first().push(rec));
        lemma_find_rec_push(entries.drop_first(), rec, oid);
    }
}

/// Whatever `find_rec` returns comes from some record of the entries.
pub proof fn lemma_find_rec_index(entries: Seq<ObjRecord>, oid: Seq<u8>)
    requires
        find_rec(entries, oid) is Some,
    ensures
        exists|i: int|
            0 <= i < entries.len() && (#[trigger] entries[i]).oid@ == oid && find_rec(entries, oid)
                == Some((entries[i].otype, entries[i].data@)),
    decreases entries.len(),
{
    if entries.len() > 0 && entries[0].oid@ != oid {
        lemma_find_rec_index(entries.drop_first(), oid);
        let i = choose|i: int|
            0 <= i < entries.drop_first().len() && (#[trigger] entries.drop_first()[i]).oid@ == oid
                && find_rec(entries.drop_first(), oid) == Some(
                (entries.drop_first()[i].otype, entries.drop_first()[i].data@),
            );
        assert(entries[i + 1] == entries.drop_first()[i]);
    }
}

/// The store is self-verifying: whatever is found under an id hashes
/// back to that id.
pub proof fn lemma_store_self_verifying(
    store: ObjectStore,
    oid: Seq<u8>,
    t: ObjType,
    d: Seq<u8>,
)
    requires
        store.wf(),
        store.find(oid) == Some((t, d)),
    ensures
        oid == oid_spec(t, d),
{
    if find_rec(store.loose@, oid) is Some {
        lemma_find_rec_index(store.loose@, oid);
    } else {
        lemma_find_rec_index(store.packed@, oid);
    }
}

/// Write a blob object.
pub fn write_blob(store: &mut ObjectStore, data: &[u8]) -> (r: Vec<u8>)
    requires
        old(store).wf(),
    ensures
        final(store).wf(),
        r@ == oid_spec(ObjType::Blob, data@),
        r@.len() == 40,
        final(store).packed@ == old(store).packed@,
        forall|oid2: Seq<u8>|
            old(store).find(oid2) is Some ==> #[trigger] final(store).find(oid2) == old(
                store,
            ).find(oid2),
        match old(store).find(r@) {
            Some(_) => final(store).loose@ == old(store).loose@,
            None => final(store).find(r@) == Some((ObjType::Blob, data@)),
        },
{
    write_object(store, data, ObjType::Blob)
}

/// Read an object through the unified path: loose records first, then
/// packed ones. Fails with `NotFound` exactly when no record holds the id.
pub fn read_object(store: &ObjectStore, oid: &[u8]) -> (r: Result<(ObjType, Vec<u8>), GitError>)
    ensures
        match r {
            Ok((t, d)) => store.find(oid@) == Some((t, d@)),
            Err(e) => e == GitError::NotFound && store.find(oid@) is None,
        },
{
    match find_in(&store.loose, oid) {
        Some(i) => Ok((store.loose[i].otype, copy_bytes(store.loose[i].data.as_slice()))),
        None => match find_in(&store.packed, oid) {
            Some(i) => Ok((store.packed[i].otype, copy_bytes(store.packed[i].data.as_slice()))),
            None => Err(GitError::NotFound),
        },
    }
}

/// Read an object's kind and payload; the same contract as `read_object`,
/// kept as its own entry point for callers that want the payload alone.
pub fn read_raw_object(store: &ObjectStore, oid: &[u8]) -> (r: Result<
    (ObjType, Vec<u8>),
    GitError,
>)
    ensures
        match r {
            Ok((t, d)) => store.find(oid@) == Some((t, d@)),
            Err(e) => e == GitError::NotFound && store.find(oid@) is None,
        },
{
    read_object(store, oid)
}

/// A loose object file holds the zlib-deflated frame.
pub open spec fn loose_ok(bytes: Seq<u8>, t: ObjType, payload: Seq<u8>) -> bool {
    zlib_inflate_of(bytes) == Some(frame_spec(t, payload))
}

/// Encode an object as the bytes of a loose file: deflate the frame.
pub fn encode_loose(data: &[u8], object_type: ObjType) -> (r: Vec<u8>)
    ensures
        r@ == zlib_deflate_of(frame_spec(object_type, data@)),
        loose_ok(r@, object_type, data@),
{
    let framed = frame(data, object_type);
    zlib_deflate(framed.as_slice())
}

/// Decode the bytes of a loose file: inflate, then parse the frame.
/// `Corrupt` exactly when the bytes do not deflate-encode any frame.
pub fn decode_loose(bytes: &[u8]) -> (r: Result<(ObjType, Vec<u8>), GitError>)
    ensures
        match r {
            Ok((t, d)) => loose_ok(bytes@, t, d@),
            Err(e) => e == GitError::Corrupt && forall|t: ObjType, p: Seq<u8>|
                !loose_ok(bytes@, t, p),
        },
{
    match zlib_inflate(bytes) {
        Some(inflated) => match parse_frame(inflated.as_slice()) {
            Some((t, d)) => Ok((t, d)),
            None => Err(GitError::Corrupt),
        },
        None => Err(GitError::Corrupt),
    }
}

/// Loose encoding round-trips: bytes that encode one (kind, payload)
/// pair encode no other, so what is written is what is read back.
pub proof fn lemma_loose_round_trip(
    enc: Seq<u8>,
    t1: ObjType,
    p1: Seq<u8>,
    t2: ObjType,
    p2: Seq<u8>,
)
    requires
        loose_ok(enc, t1, p1),
        loose_ok(enc, t2, p2),
    ensures
        t1 == t2,
        p1 == p2,
{
    crate::codec::lemma_frame_injective(t1, p1, t2, p2);
}

} // verus!
