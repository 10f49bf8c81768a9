//! Compressing and expanding payloads in the gzip format.

use crate::error::Error;
use std::io::Write;
use vstd::prelude::*;

verus! {

/// The gzip stream that the encoder makes of `data` at a level of
/// compression, where it makes one.
pub uninterp spec fn gzip_encoding(data: Seq<u8>, level: u32) -> Option<Seq<u8>>;

/// The bytes that the decoder expands a gzip stream to, where it accepts
/// the stream.
pub uninterp spec fn gzip_decoding(stream: Seq<u8>) -> Option<Seq<u8>>;

/// `flate2::write::GzEncoder` with `flate2::Compression::new(level)`, fed
/// all of `data` and finished: the stream it wrote, which depends on
/// `data` and `level` alone and which the decoder expands to `data` again.
/// `None` where the encoder reports an error. Trusted, not proved.
#[verifier::external_body]
fn gzip(data: &[u8], level: u32) -> (packed: Option<Vec<u8>>)
    requires
        level <= 9,
    ensures
        match packed {
            Some(stream) => gzip_encoding(data@, level) == Some(stream@) && gzip_decoding(
                stream@,
            ) == Some(data@),
            None => gzip_encoding(data@, level) is None,
        },
{
    let mut encoder = flate2::write::GzEncoder::new(Vec::new(), flate2::Compression::new(level));
    match encoder.write_all(data) {
        Ok(()) => encoder.finish().ok(),
        Err(_) => None,
    }
}

/// `flate2::write::GzDecoder`, fed all of `stream` and finished: the bytes
/// it wrote, which depend on `stream` alone. `None` where the decoder
/// reports an error, as it does for a stream that is cut short or whose
/// check sum is wrong. Trusted, not proved.
#[verifier::external_body]
fn gunzip(stream: &[u8]) -> (expanded: Option<Vec<u8>>)
    ensures
        match expanded {
            Some(data) => gzip_decoding(stream@) == Some(data@),
            None => gzip_decoding(stream@) is None,
        },
{
    let mut decoder = flate2::write::GzDecoder::new(Vec::new());
    match decoder.write_all(stream) {
        Ok(()) => decoder.finish().ok(),
        Err(_) => None,
    }
}

/// The gzip stream made of `data` at the level of compression
/// `compression_grade`, from 0 (none) to 9 (most).
pub fn compression_file(data: &[u8], compression_grade: u32) -> (packed: Result<Vec<u8>, Error>)
    requires
        compression_grade <= 9,
    ensures
        match packed {
            Ok(stream) => gzip_encoding(data@, compression_grade) == Some(stream@)
                && gzip_decoding(stream@) == Some(data@),
            Err(e) => gzip_encoding(data@, compression_grade) is None && e == Error::Compress,
        },
{
    match gzip(data, compression_grade) {
        Some(stream) => Ok(stream),
        None => Err(Error::Compress),
    }
}

/// The bytes that the gzip stream `stream` expands to.
pub fn decompress_file(stream: &[u8]) -> (expanded: Result<Vec<u8>, Error>)
    ensures
        match expanded {
            Ok(data) => gzip_decoding(stream@) == Some(data@),
            Err(e) => gzip_decoding(stream@) is None && e == Error::Decompress,
        },
{
    match gunzip(stream) {
        Some(data) => Ok(data),
        None => Err(Error::Decompress),
    }
}

} // verus!
