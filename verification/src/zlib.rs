//! Zlib compression of object bodies. Compression and decompression are
//! done by an outside crate; their results are named, and the one fact
//! the store needs — that inflation inverts deflation — is stated on the
//! deflating wrapper.

use std::io::Read;
use std::io::Write;
use vstd::prelude::*;

verus! {

/// The zlib-deflated form of a byte string at the default compression
/// level: a function of the input alone.
pub uninterp spec fn zlib_deflate_of(s: Seq<u8>) -> Seq<u8>;

/// What zlib inflation returns on a byte string: the decompressed bytes,
/// or nothing when the input is not a well-formed zlib stream.
pub uninterp spec fn zlib_inflate_of(s: Seq<u8>) -> Option<Seq<u8>>;

/// Relies on `flate2::write::ZlibEncoder`: deflates the input at the
/// default level; `flate2::read::ZlibDecoder` recovers the input exactly.
#[verifier::external_body]
pub fn zlib_deflate(data: &[u8]) -> (r: Vec<u8>)
    ensures
        r@ == zlib_deflate_of(data@),
        zlib_inflate_of(r@) == Some(data@),
{
    let mut encoder = flate2::write::ZlibEncoder::new(Vec::new(), flate2::Compression::default());
    match encoder.write_all(data).and_then(|_| encoder.finish()) {
        Ok(v) => v,
        Err(_) => Vec::new(),
    }
}

/// Relies on `flate2::read::ZlibDecoder`: inflates a zlib stream, and
/// fails exactly on inputs that are not one.
#[verifier::external_body]
pub fn zlib_inflate(data: &[u8]) -> (r: Option<Vec<u8>>)
    ensures
        match r {
            Some(v) => zlib_inflate_of(data@) == Some(v@),
            None => zlib_inflate_of(data@) is None,
        },
{
    let mut decoder = flate2::read::ZlibDecoder::new(data);
    let mut out = Vec::new();
    match decoder.read_to_end(&mut out) {
        Ok(_) => Some(out),
        Err(_) => None,
    }
}

} // verus!
