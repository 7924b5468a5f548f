//! Zlib compression of packet data.
//!
//! After the server sends a `Set Compression` packet, every frame carries a
//! compression header; frames at or above the threshold are deflated with zlib.

use vstd::prelude::*;
use flate2::read::ZlibDecoder;
use flate2::write::ZlibEncoder;
use flate2::Compression;
use std::io::{Read, Write};

verus! {

#[verifier::external_type_specification]
#[verifier::external_body]
pub struct ExIoError(std::io::Error);

/// Errors that can occur during compression or decompression.
#[derive(Debug)]
pub enum CompressionError {
    /// An I/O error during the compression or decompression process.
    Io(std::io::Error),
}

/// What flate2's zlib encoder gives for `data` at compression `level`: the
/// compressed stream, or nothing when it reports an error. Both depend on
/// `data` and `level` alone.
pub uninterp spec fn zlib_deflated(data: Seq<u8>, level: u32) -> Option<Seq<u8>>;

/// What flate2's zlib decoder reads from `data`: the inflated bytes, or
/// nothing when it reports an error.
pub uninterp spec fn zlib_inflated(data: Seq<u8>) -> Option<Seq<u8>>;

/// `ZlibEncoder::new(Vec::new(), Compression::new(level))`, `write_all(data)`,
/// `finish()`: succeeds exactly when the encoder reports no error, giving
/// the compressed stream, which flate2's decoder inflates back to `data`
/// (zlib is lossless). Levels above 10 trip a debug assertion in the miniz_oxide
/// backend, so they are excluded.
#[verifier::external_body]
fn zlib_encode(data: &[u8], level: u32) -> (r: Result<Vec<u8>, std::io::Error>)
    requires
        level <= 10,
    ensures
        r is Ok <==> zlib_deflated(data@, level) is Some,
        r matches Ok(c) ==> zlib_deflated(data@, level) == Some(c@) && zlib_inflated(c@) == Some(data@),
{
    let mut encoder = ZlibEncoder::new(Vec::new(), Compression::new(level));
    encoder.write_all(data)?;
    encoder.finish()
}

/// `ZlibDecoder::new(data)` and `read_to_end`: succeeds exactly when the
/// decoder reads `data` without error, giving the inflated bytes.
#[verifier::external_body]
fn zlib_decode(data: &[u8]) -> (r: Result<Vec<u8>, std::io::Error>)
    ensures
        r is Ok <==> zlib_inflated(data@) is Some,
        r matches Ok(d) ==> zlib_inflated(data@) == Some(d@),
{
    let mut decoder = ZlibDecoder::new(data);
    let mut output = Vec::new();
    decoder.read_to_end(&mut output)?;
    Ok(output)
}

/// `std::io::Error::new(ErrorKind::Other, ..)` with the message
/// "Compression I/O error: " and `e`'s own: how a zlib error is reported as
/// a framing error. Nothing is stated of the value.
#[verifier::external_body]
pub(crate) fn compression_io_error(e: std::io::Error) -> (r: std::io::Error) {
    std::io::Error::new(std::io::ErrorKind::Other, format!("Compression I/O error: {}", e))
}

/// The compression level flate2 calls its default.
pub const DEFAULT_LEVEL: u32 = 6;

/// Compress `data` with zlib at the default compression level (6).
pub fn compress_zlib(data: &[u8]) -> (r: Result<Vec<u8>, CompressionError>)
    ensures
        r is Ok <==> zlib_deflated(data@, DEFAULT_LEVEL) is Some,
        r matches Ok(c) ==> zlib_deflated(data@, DEFAULT_LEVEL) == Some(c@) && zlib_inflated(c@) == Some(data@),
{
    compress_zlib_level(data, DEFAULT_LEVEL)
}

/// Compress `data` with zlib at compression level `level` (0–10; 0 stores,
/// 9 is the usual best, 10 is the backend's uber level).
pub fn compress_zlib_level(data: &[u8], level: u32) -> (r: Result<Vec<u8>, CompressionError>)
    requires
        level <= 10,
    ensures
        r is Ok <==> zlib_deflated(data@, level) is Some,
        r matches Ok(c) ==> zlib_deflated(data@, level) == Some(c@) && zlib_inflated(c@) == Some(data@),
{
    match zlib_encode(data, level) {
        Ok(c) => Ok(c),
        Err(e) => Err(CompressionError::Io(e)),
    }
}

/// Decompress zlib-deflated `data`.
pub fn decompress_zlib(data: &[u8]) -> (r: Result<Vec<u8>, CompressionError>)
    ensures
        r is Ok <==> zlib_inflated(data@) is Some,
        r matches Ok(d) ==> zlib_inflated(data@) == Some(d@),
{
    match zlib_decode(data) {
        Ok(d) => Ok(d),
        Err(e) => Err(CompressionError::Io(e)),
    }
}

} // verus!
