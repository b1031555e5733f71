use vstd::prelude::*;

verus! {

/// How an operation of the patcher failed.
#[derive(Clone, Copy, Debug, PartialEq, Eq, Structural)]
pub enum ErrorKind {
    /// A file, the stored configuration or an install path is missing.
    NotFound,
    /// A backup already exists where a new one would be made.
    AlreadyExists,
    /// The stored configuration or a manifest cannot be read.
    InvalidData,
    /// A path that should name a backup has no `.bak` extension.
    InvalidInput,
    /// Any other failure of the file system.
    Other,
}

} // verus!
