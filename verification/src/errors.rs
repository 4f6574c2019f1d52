//! Error kinds of the library.

use vstd::prelude::*;

verus! {

/// The kinds of failure the library reports.
///
/// Reader-side validation fails with `BadMemDb` or
/// `UnsupportedMemDbVersion`; encoding-time overflows fail with
/// `TooManySources`, `TooManyNames` or `LocationOverflow`; dumping a view
/// that is already a memdb fails with `AlreadyMemDb`; `InternalError` covers
/// failures that no well-formed input produces, such as a compressor error.
#[derive(Debug)]
pub enum ErrorKind {
    SourceMap(sourcemap::Error),
    UnsupportedMemDbVersion,
    BadMemDb,
    TooManySources,
    TooManyNames,
    LocationOverflow,
    AlreadyMemDb,
    InternalError,
}

#[verifier::external_type_specification]
#[verifier::external_body]
pub struct ExSourceMapError(sourcemap::Error);

impl ErrorKind {
    /// A short description of the error, in place of `Display`.
    pub fn describe(&self) -> (r: &'static str) {
        match self {
            ErrorKind::SourceMap(_) => "source map error",
            ErrorKind::UnsupportedMemDbVersion => "unsupported memdb version",
            ErrorKind::BadMemDb => "bad memdb data",
            ErrorKind::TooManySources => "too many sources in the file for memdb",
            ErrorKind::TooManyNames => "too many names in the file for memdb",
            ErrorKind::LocationOverflow => "file locations too large for memdb",
            ErrorKind::AlreadyMemDb => "cannot dump memdb from memdb view",
            ErrorKind::InternalError => "internal library error",
        }
    }
}

} // verus!
