//! Tree objects: building a tree payload from the staged index —
//! entries in path order, `MODE SP NAME NUL OID_RAW` each — and
//! flattening a tree payload back into (name, oid) pairs.

use crate::bytes::{append_bytes, find_byte, find_pos, subvec};
use crate::codec::{oid_spec, ObjType};
use crate::errors::GitError;
use crate::hexcode::{hex_decode, hex_encode, hex_of, unhex};
use crate::index::{Index, IndexEntryV};
use crate::store::{read_object, write_object, ObjectStore};
use vstd::prelude::*;

verus! {

/// The canonical octal digits of `n`, without leading zeros.
pub open spec fn oct_digits(n: nat) -> Seq<u8>
    decreases n,
{
    if n < 8 {
        seq![(48 + n) as u8]
    } else {
        oct_digits(n / 8) + seq![(48 + n % 8) as u8]
    }
}

/// The canonical octal digits of `n`.
pub fn u32_to_oct(n: u32) -> (r: Vec<u8>)
    ensures
        r@ == oct_digits(n as nat),
    decreases n,
{
    if n < 8 {
        let r = vec![48 + n as u8];
        proof {
            assert(r@ =~= oct_digits(n as nat));
        }
        r
    } else {
        let mut r = u32_to_oct(n / 8);
        r.push(48 + (n % 8) as u8);
        proof {
            assert(r@ =~= oct_digits(n as nat));
        }
        r
    }
}

/// One tree entry: octal mode, space, name, NUL, 20 raw oid bytes.
pub open spec fn tree_entry_bytes(e: IndexEntryV) -> Seq<u8> {
    oct_digits(e.mode as nat) + seq![32u8] + e.path + seq![0u8] + unhex(e.object_id)
}

/// The payload of the tree holding the given entries, in order.
pub open spec fn tree_payload(entries: Seq<IndexEntryV>) -> Seq<u8>
    decreases entries.len(),
{
    if entries.len() == 0 {
        Seq::empty()
    } else {
        tree_payload(entries.drop_last()) + tree_entry_bytes(entries.last())
    }
}

/// Write the tree assembled from the index: the staged entries in path
/// order, blobs under mode `100644`.
pub fn write_tree(store: &mut ObjectStore, index: &Index) -> (r: Vec<u8>)
    requires
        old(store).wf(),
        index.wf(),
    ensures
        final(store).wf(),
        final(store).packed@ == old(store).packed@,
        forall|oid2: Seq<u8>|
            old(store).find(oid2) is Some ==> #[trigger] final(store).find(oid2) == old(
                store,
            ).find(oid2),
        r@ == oid_spec(ObjType::Tree, tree_payload(index@)),
        r@.len() == 40,
        match old(store).find(r@) {
            Some(_) => final(store).loose@ == old(store).loose@,
            None => final(store).find(r@) == Some((ObjType::Tree, tree_payload(index@))),
        },
{
    let ghost m = index@;
    let mut payload: Vec<u8> = Vec::new();
    proof {
        assert(m.take(0) =~= Seq::<IndexEntryV>::empty());
        assert(payload@ =~= tree_payload(m.take(0)));
    }
    let entries = index.get_entries();
    let mut k: usize = 0;
    while k < entries.len()
        invariant
            k <= entries@.len(),
            entries@.map_values(|e: crate::index::IndexEntry| e@) == m,
            crate::index::entries_wf(m),
            payload@ == tree_payload(m.take(k as int)),
        decreases entries@.len() - k,
    {
        let mode_oct = u32_to_oct(entries[k].mode);
        append_bytes(&mut payload, mode_oct.as_slice());
        payload.push(32);
        append_bytes(&mut payload, entries[k].path.as_slice());
        payload.push(0);
        proof {
            assert(m[k as int] == entries@[k as int]@);
        }
        let raw = hex_decode(entries[k].object_id.as_slice());
        append_bytes(&mut payload, raw.as_slice());
        proof {
            let t1 = m.take(k + 1);
            assert(t1.drop_last() =~= m.take(k as int));
            assert(t1.last() == m[k as int]);
            assert(payload@ =~= tree_payload(t1));
        }
        k = k + 1;
    }
    proof {
        assert(m.take(m.len() as int) =~= m);
    }
    write_object(store, payload.as_slice(), ObjType::Tree)
}

/// One file of a flattened tree: its name and hex object id.
pub struct TreeFile {
    pub name: Vec<u8>,
    pub oid: Vec<u8>,
}

/// The mathematical value of a flattened tree file.
pub ghost struct TreeFileV {
    pub name: Seq<u8>,
    pub oid: Seq<u8>,
}

impl View for TreeFile {
    type V = TreeFileV;

    open spec fn view(&self) -> TreeFileV {
        TreeFileV { name: self.name@, oid: self.oid@ }
    }
}

/// The (name, hex oid) pairs of a tree payload, in payload order;
/// parsing stops at a malformed tail.
pub open spec fn tree_files(s: Seq<u8>) -> Seq<TreeFileV>
    decreases s.len(),
{
    if s.len() == 0 {
        Seq::empty()
    } else {
        let sp = find_pos(s, 32);
        if 0 <= sp < s.len() {
            let rest = s.skip(sp + 1);
            let nl = find_pos(rest, 0);
            if 0 <= nl && nl + 21 <= rest.len() {
                seq![
                    TreeFileV { name: rest.take(nl), oid: hex_of(rest.subrange(nl + 1, nl + 21)) },
                ] + tree_files(rest.skip(nl + 21))
            } else {
                Seq::empty()
            }
        } else {
            Seq::empty()
        }
    }
}

fn parse_tree_from(s: &[u8], pos: usize) -> (r: Vec<TreeFile>)
    requires
        pos <= s.len(),
    ensures
        r@.map_values(|f: TreeFile| f@) == tree_files(s@.skip(pos as int)),
    decreases s.len() - pos,
{
    let ghost t = s@.skip(pos as int);
    if pos == s.len() {
        let r: Vec<TreeFile> = Vec::new();
        proof {
            assert(t =~= Seq::<u8>::empty());
            assert(r@.map_values(|f: TreeFile| f@) =~= Seq::<TreeFileV>::empty());
        }
        return r;
    }
    let sp = match find_byte(s, pos, 32) {
        Some(i) => i,
        None => {
            let r: Vec<TreeFile> = Vec::new();
            proof {
                crate::bytes::lemma_find_pos_none(s@, 32, pos as int);
                assert(r@.map_values(|f: TreeFile| f@) =~= Seq::<TreeFileV>::empty());
            }
            return r;
        },
    };
    proof {
        crate::bytes::lemma_find_pos_from(s@, 32, pos as int, sp as int);
        assert(t.skip(sp - pos + 1) =~= s@.skip(sp as int + 1));
    }
    let nl = match find_byte(s, sp + 1, 0) {
        Some(i) => i,
        None => {
            let r: Vec<TreeFile> = Vec::new();
            proof {
                crate::bytes::lemma_find_pos_none(s@, 0, sp as int + 1);
                let rest = t.skip(sp - pos + 1);
                crate::bytes::lemma_find_pos(rest, 0);
                assert(r@.map_values(|f: TreeFile| f@) =~= Seq::<TreeFileV>::empty());
            }
            return r;
        },
    };
    proof {
        crate::bytes::lemma_find_pos_from(s@, 0, sp as int + 1, nl as int);
    }
    if s.len() - nl < 21 {
        let r: Vec<TreeFile> = Vec::new();
        proof {
            let rest = t.skip(sp - pos + 1);
            assert(find_pos(rest, 0) == nl - sp - 1);
            assert(r@.map_values(|f: TreeFile| f@) =~= Seq::<TreeFileV>::empty());
        }
        return r;
    }
    let name = subvec(s, sp + 1, nl);
    let raw = subvec(s, nl + 1, nl + 21);
    let oid = hex_encode(raw.as_slice());
    let mut rest_files = parse_tree_from(s, nl + 21);
    proof {
        let rest = t.skip(sp - pos + 1);
        assert(rest.take(nl - sp - 1) =~= s@.subrange(sp as int + 1, nl as int));
        assert(rest.subrange(nl - sp - 1 + 1, nl - sp - 1 + 21) =~= s@.subrange(
            nl as int + 1,
            nl as int + 21,
        ));
        assert(rest.skip(nl - sp - 1 + 21) =~= s@.skip(nl as int + 21));
    }
    let f = TreeFile { name, oid };
    let ghost restm = rest_files@.map_values(|x: TreeFile| x@);
    rest_files.insert(0, f);
    proof {
        assert(rest_files@.map_values(|x: TreeFile| x@) =~= seq![f@] + restm);
    }
    rest_files
}

/// Flatten a tree payload into its (name, hex oid) pairs.
pub fn parse_tree_entries(data: &[u8]) -> (r: Vec<TreeFile>)
    ensures
        r@.map_values(|f: TreeFile| f@) == tree_files(data@),
{
    let r = parse_tree_from(data, 0);
    proof {
        assert(data@.skip(0) =~= data@);
    }
    r
}

/// What flattening the tree named by `tree_id` yields, if anything.
pub open spec fn files_of_tree(store: ObjectStore, tree_id: Seq<u8>) -> Option<Seq<TreeFileV>> {
    match store.find(tree_id) {
        Some((t, d)) => if t == ObjType::Tree {
            Some(tree_files(d))
        } else {
            None
        },
        None => None,
    }
}

/// Read the tree under `tree_id` and flatten it. `NotFound` exactly
/// when the id is absent, `InvalidArgument` when it names a non-tree.
pub fn get_tree_files(store: &ObjectStore, tree_id: &[u8]) -> (r: Result<Vec<TreeFile>, GitError>)
    ensures
        match r {
            Ok(v) => files_of_tree(*store, tree_id@) == Some(v@.map_values(|f: TreeFile| f@)),
            Err(e) => files_of_tree(*store, tree_id@) is None && (e == GitError::NotFound
                <==> store.find(tree_id@) is None) && (e == GitError::NotFound || e
                == GitError::InvalidArgument),
        },
{
    match read_object(store, tree_id) {
        Ok((t, d)) => {
            match t {
                ObjType::Tree => Ok(parse_tree_entries(d.as_slice())),
                _ => Err(GitError::InvalidArgument),
            }
        },
        Err(_) => Err(GitError::NotFound),
    }
}


/// Every oid a flattened tree yields is 40 lowercase hex characters,
/// and every name is free of NUL bytes.
pub proof fn lemma_tree_files_oids(s: Seq<u8>)
    ensures
        forall|i: int|
            0 <= i < tree_files(s).len() ==> crate::hexcode::is_hex_lower(
                (#[trigger] tree_files(s)[i]).oid,
            ) && tree_files(s)[i].oid.len() == 40 && crate::index::path_no_nul(
                tree_files(s)[i].name,
            ),
    decreases s.len(),
{
    if s.len() > 0 {
        let sp = find_pos(s, 32);
        if 0 <= sp < s.len() {
            let rest = s.skip(sp + 1);
            let nl = find_pos(rest, 0);
            if 0 <= nl && nl + 21 <= rest.len() {
                let raw = rest.subrange(nl + 1, nl + 21);
                crate::hexcode::lemma_unhex_hex_of(raw);
                crate::hexcode::lemma_hex_of_len(raw);
                crate::bytes::lemma_find_pos(rest, 0);
                lemma_tree_files_oids(rest.skip(nl + 21));
                let tf = tree_files(s);
                let tr = tree_files(rest.skip(nl + 21));
                assert forall|i: int|
                    0 <= i < tf.len() implies crate::hexcode::is_hex_lower(
                    (#[trigger] tf[i]).oid,
                ) && tf[i].oid.len() == 40 && crate::index::path_no_nul(tf[i].name) by {
                    if i > 0 {
                        assert(tf[i] == tr[i - 1]);
                    } else {
                        assert forall|j: int| 0 <= j < tf[0].name.len() implies tf[0].name[j]
                            != 0 by {
                            assert(tf[0].name[j] == rest[j]);
                        }
                    }
                }
            }
        }
    }
}


pub proof fn lemma_oct_digits_props(n: nat)
    ensures
        oct_digits(n).len() >= 1,
        forall|i: int| 0 <= i < oct_digits(n).len() ==> 48 <= #[trigger] oct_digits(n)[i] <= 55,
    decreases n,
{
    if n >= 8 {
        lemma_oct_digits_props(n / 8);
    }
}

/// A tree payload peels off its first entry.
proof fn lemma_tree_payload_front(entries: Seq<IndexEntryV>)
    requires
        entries.len() > 0,
    ensures
        tree_payload(entries) == tree_entry_bytes(entries[0]) + tree_payload(entries.drop_first()),
    decreases entries.len(),
{
    if entries.len() == 1 {
        assert(entries.drop_last() =~= Seq::<IndexEntryV>::empty());
        assert(entries.drop_first() =~= Seq::<IndexEntryV>::empty());
        assert(tree_payload(entries) =~= tree_entry_bytes(entries[0]) + tree_payload(
            entries.drop_first(),
        ));
    } else {
        let dl = entries.drop_last();
        lemma_tree_payload_front(dl);
        assert(dl[0] == entries[0]);
        assert(dl.drop_first() =~= entries.drop_first().drop_last());
        assert(entries.drop_first().last() == entries.last());
        assert(tree_payload(entries) == tree_payload(dl) + tree_entry_bytes(entries.last()));
        assert(tree_payload(entries) == (tree_entry_bytes(entries[0]) + tree_payload(
            entries.drop_first().drop_last(),
        )) + tree_entry_bytes(entries.drop_first().last()));
        assert(tree_payload(entries.drop_first()) == tree_payload(
            entries.drop_first().drop_last(),
        ) + tree_entry_bytes(entries.drop_first().last()));
        assert(tree_payload(entries) =~= tree_entry_bytes(entries[0]) + tree_payload(
            entries.drop_first(),
        ));
    }
}

/// The tree codec round-trips: flattening the payload built from index
/// entries whose paths hold no NUL and whose ids are 40 lowercase hex
/// characters recovers exactly their (path, id) pairs. With the
/// contracts of `write_tree` and `get_tree_files`, reading the tree the
/// index produced gives the staged pairs back.
pub proof fn lemma_tree_payload_round_trip(entries: Seq<IndexEntryV>)
    requires
        forall|i: int|
            0 <= i < entries.len() ==> (#[trigger] entries[i]).object_id.len() == 40
                && crate::hexcode::is_hex_lower(entries[i].object_id) && crate::index::path_no_nul(
                entries[i].path,
            ),
    ensures
        tree_files(tree_payload(entries)) == entries.map_values(
            |e: IndexEntryV| TreeFileV { name: e.path, oid: e.object_id },
        ),
    decreases entries.len(),
{
    if entries.len() == 0 {
        assert(tree_files(tree_payload(entries)) =~= entries.map_values(
            |e: IndexEntryV| TreeFileV { name: e.path, oid: e.object_id },
        ));
    } else {
        let e0 = entries[0];
        let p = tree_payload(entries);
        lemma_tree_payload_front(entries);
        let oct = oct_digits(e0.mode as nat);
        let raw = unhex(e0.object_id);
        lemma_oct_digits_props(e0.mode as nat);
        crate::hexcode::lemma_unhex_len(e0.object_id);
        crate::hexcode::lemma_hex_of_unhex(e0.object_id);
        let rest_payload = tree_payload(entries.drop_first());
        assert(p =~= oct + seq![32u8] + e0.path + seq![0u8] + raw + rest_payload);
        let octn = oct.len() as int;
        assert forall|j: int| 0 <= j < octn implies p[j] != 32 by {
            assert(p[j] == oct[j]);
        }
        assert(p[octn] == 32);
        crate::codec::lemma_find_pos_unique(p, 32, octn);
        let rest1 = p.skip(octn + 1);
        assert(rest1 =~= e0.path + seq![0u8] + raw + rest_payload);
        let pn = e0.path.len() as int;
        assert forall|j: int| 0 <= j < pn implies rest1[j] != 0 by {
            assert(rest1[j] == e0.path[j]);
        }
        assert(rest1[pn] == 0);
        crate::codec::lemma_find_pos_unique(rest1, 0, pn);
        assert(raw.len() == 20);
        assert(pn + 21 <= rest1.len());
        assert(rest1.take(pn) =~= e0.path);
        assert(rest1.subrange(pn + 1, pn + 21) =~= raw);
        assert(hex_of(raw) == e0.object_id);
        assert(rest1.skip(pn + 21) =~= rest_payload);
        let tail = entries.drop_first();
        assert forall|i: int|
            0 <= i < tail.len() implies (#[trigger] tail[i]).object_id.len() == 40
            && crate::hexcode::is_hex_lower(tail[i].object_id) && crate::index::path_no_nul(
            tail[i].path,
        ) by {
            assert(tail[i] == entries[i + 1]);
        }
        lemma_tree_payload_round_trip(tail);
        assert(tree_files(p) == seq![TreeFileV { name: e0.path, oid: e0.object_id }] + tree_files(
            rest_payload,
        ));
        let m = entries.map_values(|e: IndexEntryV| TreeFileV { name: e.path, oid: e.object_id });
        assert forall|i: int| 0 <= i < m.len() implies tree_files(p)[i] == m[i] by {
            if i > 0 {
                assert(tree_files(rest_payload)[i - 1] == tail.map_values(
                    |e: IndexEntryV| TreeFileV { name: e.path, oid: e.object_id },
                )[i - 1]);
                assert(tail[i - 1] == entries[i]);
            }
        }
        assert(tree_files(p) =~= m);
    }
}

} // verus!
