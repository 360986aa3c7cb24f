//! The pack writer: a `PACK` header, each object behind a
//! variable-length type-and-size header with a zlib-deflated payload,
//! and a SHA-1 trailer over everything that precedes it.

use crate::bytes::append_bytes;
use crate::codec::ObjType;
use crate::index::{be32_bytes, from_be32};
use crate::sha::{sha1_digest, sha1_of};
use crate::store::ObjRecord;
use crate::zlib::{zlib_deflate, zlib_deflate_of};
use vstd::prelude::*;

verus! {

/// The pack type tag of an object kind.
pub open spec fn pack_type_id(t: ObjType) -> u8 {
    match t {
        ObjType::Commit => 1,
        ObjType::Tree => 2,
        ObjType::Blob => 3,
        ObjType::Tag => 4,
    }
}

/// The continuation bytes of a variable-length size, seven bits each.
pub open spec fn size_rest(s: nat) -> Seq<u8>
    decreases s,
{
    if s < 128 {
        seq![s as u8]
    } else {
        seq![(128 + (s % 128)) as u8] + size_rest(s / 128)
    }
}

/// The variable-length object header: three type bits and four size
/// bits in the first byte, then seven size bits per continuation byte.
pub open spec fn pack_obj_header(tid: u8, size: nat) -> Seq<u8> {
    if size < 16 {
        seq![((tid * 16) + size) as u8]
    } else {
        seq![(128 + (tid * 16) + (size % 16)) as u8] + size_rest(size / 16)
    }
}

fn size_rest_bytes(s: u64) -> (r: Vec<u8>)
    ensures
        r@ == size_rest(s as nat),
    decreases s,
{
    if s < 128 {
        let r = vec![s as u8];
        proof {
            assert(r@ =~= size_rest(s as nat));
        }
        r
    } else {
        let mut r = vec![128 + (s % 128) as u8];
        let rest = size_rest_bytes(s / 128);
        append_bytes(&mut r, rest.as_slice());
        proof {
            assert(r@ =~= size_rest(s as nat));
        }
        r
    }
}

/// The variable-length type-and-size header of one packed object.
pub fn get_pack_header(object_type: ObjType, size: u64) -> (r: Vec<u8>)
    ensures
        r@ == pack_obj_header(pack_type_id(object_type), size as nat),
{
    let tid: u8 = match object_type {
        ObjType::Commit => 1,
        ObjType::Tree => 2,
        ObjType::Blob => 3,
        ObjType::Tag => 4,
    };
    if size < 16 {
        let r = vec![(tid * 16) + size as u8];
        proof {
            assert(r@ =~= pack_obj_header(tid, size as nat));
        }
        r
    } else {
        let mut r = vec![128 + (tid * 16) + (size % 16) as u8];
        let rest = size_rest_bytes(size / 16);
        append_bytes(&mut r, rest.as_slice());
        proof {
            assert(r@ =~= pack_obj_header(tid, size as nat));
        }
        r
    }
}

/// The bytes of one packed object: its header, then the deflated
/// payload.
pub open spec fn pack_entry_bytes(e: ObjRecord) -> Seq<u8> {
    pack_obj_header(pack_type_id(e.otype), e.data@.len()) + zlib_deflate_of(e.data@)
}

/// The object section of a pack, in record order.
pub open spec fn pack_body(entries: Seq<ObjRecord>) -> Seq<u8>
    decreases entries.len(),
{
    if entries.len() == 0 {
        Seq::empty()
    } else {
        pack_body(entries.drop_last()) + pack_entry_bytes(entries.last())
    }
}

/// Everything of a pack before its trailer: magic, version 2, object
/// count, then the objects.
pub open spec fn pack_prefix(entries: Seq<ObjRecord>) -> Seq<u8> {
    seq![80u8, 65u8, 67u8, 75u8] + seq![0u8, 0u8, 0u8, 2u8] + seq![
        ((entries.len() as u32 / 0x1000000) % 256) as u8,
        ((entries.len() as u32 / 0x10000) % 256) as u8,
        ((entries.len() as u32 / 0x100) % 256) as u8,
        (entries.len() as u32 % 256) as u8,
    ] + pack_body(entries)
}

/// Write a pack holding the given objects, each stored full (the
/// delta search emits a delta only when strictly smaller; none is
/// emitted here). The trailer is the SHA-1 of all preceding bytes.
pub fn create_pack(objects: &Vec<ObjRecord>) -> (r: Vec<u8>)
    requires
        objects@.len() < 0x100000000,
    ensures
        r@ == pack_prefix(objects@) + sha1_of(pack_prefix(objects@)),
{
    let mut out: Vec<u8> = vec![80u8, 65u8, 67u8, 75u8, 0u8, 0u8, 0u8, 2u8];
    let n: u32 = objects.len() as u32;
    let b0 = ((n / 0x1000000) % 256) as u8;
    let b1 = ((n / 0x10000) % 256) as u8;
    let b2 = ((n / 0x100) % 256) as u8;
    let b3 = (n % 256) as u8;
    out.push(b0);
    out.push(b1);
    out.push(b2);
    out.push(b3);
    let ghost head = out@;
    proof {
        assert(objects@.take(0) =~= Seq::<ObjRecord>::empty());
        assert(out@ =~= head + pack_body(objects@.take(0)));
    }
    let mut k: usize = 0;
    while k < objects.len()
        invariant
            k <= objects@.len(),
            out@ == head + pack_body(objects@.take(k as int)),
        decreases objects@.len() - k,
    {
        let hdr = get_pack_header(objects[k].otype, objects[k].data.len() as u64);
        append_bytes(&mut out, hdr.as_slice());
        let compressed = zlib_deflate(objects[k].data.as_slice());
        append_bytes(&mut out, compressed.as_slice());
        proof {
            let t1 = objects@.take(k + 1);
            assert(t1.drop_last() =~= objects@.take(k as int));
            assert(t1.last() == objects@[k as int]);
            assert(out@ =~= head + pack_body(t1));
        }
        k = k + 1;
    }
    proof {
        assert(objects@.take(objects@.len() as int) =~= objects@);
        assert(out@ =~= pack_prefix(objects@));
    }
    let trailer = sha1_digest(out.as_slice());
    append_bytes(&mut out, trailer.as_slice());
    out
}

} // verus!
