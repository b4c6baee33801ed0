//! Trusted boundary to the deflate codec used by the container's entry table,
//! by legacy package payloads, and by ZIP entries.

use std::io::Read;
use std::io::Write;
use vstd::prelude::*;

verus! {

/// The zlib stream produced for `data` at the default compression level.
pub uninterp spec fn zlib_deflate(data: Seq<u8>) -> Seq<u8>;

/// What zlib decoding yields for `data`: the decompressed bytes, or `None`
/// when `data` is not a well-formed zlib stream.
pub uninterp spec fn zlib_inflate(data: Seq<u8>) -> Option<Seq<u8>>;

/// What raw-deflate decoding (no zlib header or checksum, the encoding of a
/// ZIP entry) yields for `data`: the decompressed bytes, or `None` when
/// `data` is not a well-formed deflate stream.
pub uninterp spec fn deflate_raw_inflate(data: Seq<u8>) -> Option<Seq<u8>>;

/// Relies on flate2's `write::ZlibEncoder` at `Compression::default()` over
/// the miniz_oxide backend: writing into a `Vec<u8>` sink cannot fail, the
/// emitted stream is a function of the input bytes alone, and decoding the
/// emitted stream yields the input back.
///
/// The length bound is read off the emitter: every Huffman code length is
/// capped at 15 bits, so a literal spends at most 15 bits per byte and a
/// match at most 48 bits on at least three bytes — at most 16 bits per input
/// byte in all; a block header of at most a few hundred bytes is written per
/// at least `31 * 1024` input bytes, plus the final block, a sync block and
/// the 6 bytes of zlib framing, all within the slack below.
#[verifier::external_body]
pub(crate) fn zlib_compress(data: &[u8]) -> (r: Vec<u8>)
    ensures
        r@ == zlib_deflate(data@),
        zlib_inflate(r@) == Some(data@),
        r@.len() <= 2 * data@.len() + data@.len() / 32 + 1024,
{
    let mut enc = flate2::write::ZlibEncoder::new(Vec::new(), flate2::Compression::default());
    enc.write_all(data).expect("writing to a Vec cannot fail");
    enc.finish().expect("writing to a Vec cannot fail")
}

/// Relies on flate2's `read::ZlibDecoder`: decoding is a function of the
/// input bytes alone, and a malformed stream yields an error.
#[verifier::external_body]
pub(crate) fn zlib_decompress(data: &[u8]) -> (r: Option<Vec<u8>>)
    ensures
        match r {
            Some(v) => zlib_inflate(data@) == Some(v@),
            None => zlib_inflate(data@) is None,
        },
{
    let mut dec = flate2::read::ZlibDecoder::new(data);
    let mut out = Vec::new();
    match dec.read_to_end(&mut out) {
        Ok(_) => Some(out),
        Err(_) => None,
    }
}

/// Relies on flate2's `read::DeflateDecoder`: raw-deflate decoding is a
/// function of the input bytes alone, and a malformed stream yields an error.
#[verifier::external_body]
pub(crate) fn deflate_raw_decompress(data: &[u8]) -> (r: Option<Vec<u8>>)
    ensures
        match r {
            Some(v) => deflate_raw_inflate(data@) == Some(v@),
            None => deflate_raw_inflate(data@) is None,
        },
{
    let mut dec = flate2::read::DeflateDecoder::new(data);
    let mut out = Vec::new();
    match dec.read_to_end(&mut out) {
        Ok(_) => Some(out),
        Err(_) => None,
    }
}

} // verus!
