//! The library's error type.

use vstd::prelude::*;

verus! {

#[derive(Debug)]
pub enum Error {
    Http(String),
    Api(String),
    /// An I/O operation failed; `context` says which.
    Io { context: String },
    Json(String),
    Checksum { path: String, expected: String, actual: String },
    Cancelled,
    Extract(String),
    Yoo(String),
    Steam(String),
    Vdf { file: String, message: String },
}

} // verus!
