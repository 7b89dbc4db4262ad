//! The deflate pass that objects go through before they are written.
//!
//! The `flate2` crate does the work. What a stream looks like byte for byte
//! is its business; the library relies on one thing only, that inflating
//! what was deflated gives the input back.

use crate::errors::StoreError;
use flate2::read::ZlibDecoder;
use flate2::write::ZlibEncoder;
use flate2::Compression;
use std::io::Read;
use std::io::Write;
use vstd::prelude::*;

verus! {

/// The level at which objects are deflated where none is asked for.
pub const DEFAULT_LEVEL: u32 = 6;

/// The level that makes the smallest streams.
pub const BEST_LEVEL: u32 = 9;

/// The zlib stream that `flate2` makes of `data` at `level`, or `None` where it reports a failure.
pub uninterp spec fn zlib_deflate(data: Seq<u8>, level: u32) -> Option<Seq<u8>>;

/// The bytes that `flate2` reads out of the zlib stream `data`, or `None`
/// where it reports that the stream is damaged.
pub uninterp spec fn zlib_inflate(data: Seq<u8>) -> Option<Seq<u8>>;

/// `flate2::write::ZlibEncoder` over a vector: `new` at the given level,
/// `write_all` of the data, `finish`. A failure that the encoder reports
/// becomes `None`. The stream is a function of the data and the level, and
/// the decoder reads the data back out of it.
#[verifier::external_body]
pub(crate) fn deflate(data: &[u8], level: u32) -> (out: Option<Vec<u8>>)
    requires
        level <= 9,
    ensures
        out is Some <==> zlib_deflate(data@, level) is Some,
        out matches Some(z) ==> zlib_deflate(data@, level) == Some(z@) && zlib_inflate(z@) == Some(
            data@,
        ),
{
    let mut encoder = ZlibEncoder::new(Vec::new(), Compression::new(level));
    encoder.write_all(data).ok()?;
    encoder.finish().ok()
}

/// `flate2::read::ZlibDecoder` over a slice, read to its end. A failure that
/// the decoder reports becomes `None`. What is read is a function of the stream.
#[verifier::external_body]
pub(crate) fn inflate(data: &[u8]) -> (out: Option<Vec<u8>>)
    ensures
        out is Some <==> zlib_inflate(data@) is Some,
        out matches Some(raw) ==> zlib_inflate(data@) == Some(raw@),
{
    let mut decoder = ZlibDecoder::new(data);
    let mut raw = Vec::new();
    decoder.read_to_end(&mut raw).ok()?;
    Some(raw)
}

/// What `compress` returns for `data`.
pub open spec fn compress_result(data: Seq<u8>) -> Result<Seq<u8>, StoreError> {
    match zlib_deflate(data, BEST_LEVEL) {
        Some(z) => Ok(z),
        None => Err(StoreError::InvalidFormat),
    }
}

/// What `decompress` returns for `data`.
pub open spec fn decompress_result(data: Seq<u8>) -> Result<Seq<u8>, StoreError> {
    match zlib_inflate(data) {
        Some(raw) => Ok(raw),
        None => Err(StoreError::InvalidFormat),
    }
}

/// Deflates `data` at the best level.
pub fn compress(data: &[u8]) -> (out: Result<Vec<u8>, StoreError>)
    ensures
        match out {
            Ok(z) => compress_result(data@) == Ok::<Seq<u8>, StoreError>(z@)
                && decompress_result(z@) == Ok::<Seq<u8>, StoreError>(data@),
            Err(e) => compress_result(data@) == Err::<Seq<u8>, StoreError>(e),
        },
{
    match deflate(data, BEST_LEVEL) {
        Some(z) => Ok(z),
        None => Err(StoreError::InvalidFormat),
    }
}

/// Inflates `data`. A damaged stream is `InvalidFormat`.
pub fn decompress(data: &[u8]) -> (out: Result<Vec<u8>, StoreError>)
    ensures
        match out {
            Ok(raw) => decompress_result(data@) == Ok::<Seq<u8>, StoreError>(raw@),
            Err(e) => decompress_result(data@) == Err::<Seq<u8>, StoreError>(e),
        },
{
    match inflate(data) {
        Some(raw) => Ok(raw),
        None => Err(StoreError::InvalidFormat),
    }
}

} // verus!
