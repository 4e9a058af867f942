//! Error taxonomy of the synchronization engine.

use vstd::prelude::*;

verus! {

/// One error of the engine: a local I/O failure, an FTP protocol or
/// transport failure, or a malformed descriptor or archive.
/// Each variant carries a human-readable message.
#[derive(Debug)]
pub enum SyncError {
    Io(String),
    Ftp(String),
    Parse(String),
}

impl SyncError {
    /// The message carried by the error, whichever variant it is.
    pub fn message(&self) -> (r: &String)
        ensures
            r@ == self.spec_message(),
    {
        match self {
            SyncError::Io(m) => m,
            SyncError::Ftp(m) => m,
            SyncError::Parse(m) => m,
        }
    }

    pub open spec fn spec_message(&self) -> Seq<char> {
        match self {
            SyncError::Io(m) => m@,
            SyncError::Ftp(m) => m@,
            SyncError::Parse(m) => m@,
        }
    }
}

} // verus!
