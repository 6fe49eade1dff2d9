//! Decompression of the embedded vocabulary resource.

use vstd::prelude::*;

verus! {

/// What gzip decompression yields on the given bytes: the decompressed
/// stream, or nothing when the bytes are not a valid gzip stream.
pub uninterp spec fn gunzip_of(b: Seq<u8>) -> Option<Seq<u8>>;

/// Relies on flate2::read::GzDecoder, read through std::io::Read::read_to_end:
/// inflating a gzip stream is a function of the input bytes alone, and fails
/// exactly on inputs that are not a valid stream.
#[verifier::external_body]
pub fn gunzip(data: &Vec<u8>) -> (r: Option<Vec<u8>>)
    ensures
        match r {
            Some(v) => gunzip_of(data@) == Some(v@),
            None => gunzip_of(data@) is None,
        },
{
    let mut out: Vec<u8> = Vec::new();
    let mut dec = flate2::read::GzDecoder::new(data.as_slice());
    match std::io::Read::read_to_end(&mut dec, &mut out) {
        Ok(_) => Some(out),
        Err(_) => None,
    }
}

} // verus!
