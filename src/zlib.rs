//! The zlib layer around the packed stream, done by the flate2 crate.
use vstd::prelude::*;
use std::io::{Read, Write};

verus! {

/// The zlib stream that flate2 writes for `data` at its best compression level.
pub uninterp spec fn zlib_deflated(data: Seq<u8>) -> Seq<u8>;

/// The bytes that flate2 reads out of the zlib stream `data`.
pub uninterp spec fn zlib_inflated(data: Seq<u8>) -> Seq<u8>;

/// flate2 reads `data` to its end as one whole zlib stream.
pub uninterp spec fn zlib_inflates(data: Seq<u8>) -> bool;

/// Relies on flate2::write::ZlibEncoder with Compression::best(), writing into a
/// `Vec`: writing into a `Vec` cannot fail and deflate at a fixed valid level
/// does not fail, so the result is always the zlib stream of `data`, which
/// depends on `data` alone; flate2's decoder reads that stream back to `data`.
#[verifier::external_body]
pub(crate) fn zlib_compress(data: &[u8]) -> (r: Option<Vec<u8>>)
    ensures
        r is Some,
        r matches Some(v) ==> v@ == zlib_deflated(data@) && zlib_inflates(v@) && zlib_inflated(v@) == data@,
{
    let mut encoder = flate2::write::ZlibEncoder::new(Vec::new(), flate2::Compression::best());
    encoder.write_all(data).ok()?;
    encoder.finish().ok()
}

/// Relies on flate2::read::ZlibDecoder and `read_to_end`: whether it succeeds,
/// and what the zlib stream `data` holds, depend on `data` alone. A read error
/// (a stream that is not zlib, or cut short) gives `None`.
#[verifier::external_body]
pub(crate) fn zlib_decompress(data: &[u8]) -> (r: Option<Vec<u8>>)
    ensures
        r is Some <==> zlib_inflates(data@),
        r matches Some(v) ==> v@ == zlib_inflated(data@),
{
    let mut out = Vec::new();
    flate2::read::ZlibDecoder::new(data).read_to_end(&mut out).ok()?;
    Some(out)
}

} // verus!
