//! Trusted boundary to the Brotli codec and to UTF-8 validation.
//!
//! Source contents are stored Brotli-compressed at quality 4.  What the
//! compressor emits is far too involved to state, but it is a function of
//! the input bytes alone, so the two directions are named `brotli_of` and
//! `unbrotli_of`, and the compressor's contract states the one fact the
//! library needs: what it emits decompresses back to the input.

use vstd::prelude::*;
use vstd::utf8::{decode_utf8, valid_utf8};
use crate::errors::ErrorKind;
use std::io::Read;

verus! {

/// What Brotli at quality 4 emits for the given bytes.
pub uninterp spec fn brotli_of(data: Seq<u8>) -> Seq<u8>;

/// What Brotli decompression yields for the given bytes; `None` when they
/// are not a well-formed stream.
pub uninterp spec fn unbrotli_of(data: Seq<u8>) -> Option<Seq<u8>>;

/// Relies on brotli2's `BrotliEncoder` at quality 4: the compressed form
/// depends on the input bytes alone, and `BrotliDecoder` inverts it.
#[verifier::external_body]
pub fn brotli_compress(data: &[u8]) -> (r: Result<Vec<u8>, ErrorKind>)
    ensures
        r matches Ok(v) ==> v@ == brotli_of(data@) && unbrotli_of(v@) == Some(data@),
        r matches Err(e) ==> e is InternalError,
{
    let mut compr = brotli2::read::BrotliEncoder::new(data, 4);
    let mut out = Vec::new();
    match compr.read_to_end(&mut out) {
        Ok(_) => Ok(out),
        Err(_) => Err(ErrorKind::InternalError),
    }
}

/// Relies on brotli2's `BrotliDecoder`: decompression depends on the input
/// bytes alone and fails exactly on malformed streams.
#[verifier::external_body]
pub fn brotli_decompress(data: &[u8]) -> (r: Option<Vec<u8>>)
    ensures
        r matches Some(v) ==> unbrotli_of(data@) == Some(v@),
        r is None ==> unbrotli_of(data@) is None,
{
    let mut decompr = brotli2::read::BrotliDecoder::new(data);
    let mut out = Vec::new();
    match decompr.read_to_end(&mut out) {
        Ok(_) => Some(out),
        Err(_) => None,
    }
}

/// Relies on `core::str::from_utf8`: it succeeds exactly on valid UTF-8
/// and yields the characters the bytes encode, as vstd's UTF-8 model
/// states them.
#[verifier::external_body]
pub fn bytes_to_str(b: &[u8]) -> (r: Option<&str>)
    ensures
        r matches Some(s) ==> valid_utf8(b@) && s@ == decode_utf8(b@),
        r is None ==> !valid_utf8(b@),
{
    core::str::from_utf8(b).ok()
}

} // verus!
