//! The compression transform for the compressed archive format, trusted to
//! the flate2 crate.
//!
//! Decompression is a function of the bytes alone: `gunzip_of` names its
//! result, `Some` exactly on well-formed gzip streams. Nothing else is
//! assumed of the compressed form beyond round-tripping through it.

use std::io::Read;
use std::io::Write;
use vstd::prelude::*;

verus! {

/// What gzip decompression yields on these bytes: `Some` with the
/// decompressed payload when they form a well-formed gzip stream, `None`
/// otherwise.
pub uninterp spec fn gunzip_of(b: Seq<u8>) -> Option<Seq<u8>>;

/// Relies on flate2::write::GzEncoder (level "best", in-memory sink, which
/// cannot fail): its output is a well-formed gzip stream that decompresses
/// back to the input.
#[verifier::external_body]
pub fn gzip_compress(data: &[u8]) -> (r: Vec<u8>)
    ensures
        gunzip_of(r@) == Some(data@),
{
    let mut enc = flate2::write::GzEncoder::new(Vec::new(), flate2::Compression::best());
    enc.write_all(data).expect("writing to an in-memory buffer cannot fail");
    enc.finish().expect("writing to an in-memory buffer cannot fail")
}

/// Relies on flate2::read::GzDecoder: reading to the end yields the
/// decompressed payload of a well-formed gzip stream and fails on any
/// other input, deterministically in the bytes alone.
#[verifier::external_body]
pub fn gzip_decompress(data: &[u8]) -> (r: Option<Vec<u8>>)
    ensures
        (match r {
            Some(v) => gunzip_of(data@) == Some(v@),
            None => gunzip_of(data@) is None,
        }),
{
    let mut out = Vec::new();
    let mut dec = flate2::read::GzDecoder::new(data);
    match dec.read_to_end(&mut out) {
        Ok(_) => Some(out),
        Err(_) => None,
    }
}

} // verus!
