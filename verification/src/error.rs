//! The errors of an audit.
use vstd::prelude::*;

verus! {

/// Why an audit could not complete. Causes that come from outside the
/// library (the file system, the network, a JSON decoder) are carried as
/// their message.
#[derive(Debug)]
pub enum Error {
    /// The lock file could not be read.
    LockRead { path: String, message: String },
    /// The lock file is no valid lock file.
    LockParse { path: String, message: String },
    /// One package is locked at two different versions.
    LockConflict { path: String, package: String, first: String, second: String },
    /// A package has an empty name or version.
    LockEmptyIdentity { path: String },
    /// The request to Packagist failed.
    Http(String),
    /// Packagist answered with a status that is no success.
    HttpStatus { status: u16, url: String },
    /// The answer of Packagist could not be decoded.
    ResponseDecode(String),
    /// The HTTP client could not be built.
    ClientBuild(String),
    /// The report could not be written.
    ReportWrite(String),
}

} // verus!
