//! Compression at rest: objects are zlib-compressed before they are
//! written and decompressed before they are decoded.

use crate::Error;
use vstd::prelude::*;
use std::io::Write;

verus! {

/// What zlib decompression yields on a byte stream: the original data
/// for a well-formed stream, nothing for a malformed one. Decompression
/// is a pure function of its input; its definition is left to `flate2`.
pub uninterp spec fn inflate_of(data: Seq<u8>) -> Option<Seq<u8>>;

/// Relies on `flate2::write::ZlibEncoder`: compression is lossless, so
/// whatever stream it produces decompresses to the input.
#[verifier::external_body]
pub fn compress(data: &Vec<u8>) -> (r: Vec<u8>)
    ensures
        inflate_of(r@) == Some(data@),
{
    let mut encoder = flate2::write::ZlibEncoder::new(Vec::new(), flate2::Compression::default());
    encoder.write_all(data.as_slice()).expect("writing to a byte buffer cannot fail");
    encoder.finish().expect("writing to a byte buffer cannot fail")
}

/// Relies on `flate2::write::ZlibDecoder`: a well-formed stream yields
/// its data, a malformed one an error.
#[verifier::external_body]
pub fn decompress(data: &Vec<u8>) -> (r: Result<Vec<u8>, Error>)
    ensures
        match r {
            Ok(d) => inflate_of(data@) == Some(d@),
            Err(e) => inflate_of(data@) is None && e == Error::InvalidFormat,
        },
{
    let mut decoder = flate2::write::ZlibDecoder::new(Vec::new());
    if decoder.write_all(data.as_slice()).is_err() {
        return Err(Error::InvalidFormat);
    }
    decoder.finish().map_err(|_| Error::InvalidFormat)
}

} // verus!
