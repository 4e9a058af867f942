//! The folder endpoint: a rooted local directory.  The walking, reading
//! and writing are performed by the unverified driver; this module holds
//! the descriptor and the record construction applied to every entry the
//! walk yields.

use vstd::prelude::*;

use crate::hashing::{sha256_hex, sha256_hex_string};
use crate::locations::{DirMetadata, FileMetadata};

verus! {

/// Seconds added to every file modification time reported by a folder
/// endpoint (a fixed additive offset of two hours).
pub const FOLDER_TIME_OFFSET_SECS: u64 = 7200;

/// A rooted local directory.
#[derive(Debug)]
pub struct FolderLocation {
    pub path: String,
}

impl FolderLocation {
    pub fn new(path: &str) -> (r: Self)
        ensures
            r.path@ == path@,
    {
        FolderLocation { path: path.to_owned() }
    }
}

/// A folder modification time as reported: offset by two hours, kept
/// unchanged where the offset would overflow.
pub open spec fn spec_folder_time(modified: u64) -> u64 {
    if modified + FOLDER_TIME_OFFSET_SECS <= u64::MAX {
        (modified + FOLDER_TIME_OFFSET_SECS) as u64
    } else {
        modified
    }
}

/// Applies the folder time offset.
pub fn folder_time(modified: u64) -> (r: u64)
    ensures
        r == spec_folder_time(modified),
{
    match modified.checked_add(FOLDER_TIME_OFFSET_SECS) {
        Some(t) => t,
        None => modified,
    }
}

/// The file record a folder walk reports for one regular file: the
/// relative path, the offset modification time, and the hash of the
/// bytes when they could be read.
pub fn folder_file_record(relative_path: String, modified: u64, data: Option<&Vec<u8>>) -> (r:
    FileMetadata)
    ensures
        r@.path == relative_path@,
        r@.modified == spec_folder_time(modified),
        r@.hash == match data {
            Some(d) => Some(sha256_hex(d@)),
            None => None::<Seq<char>>,
        },
{
    let hash = match data {
        Some(d) => Some(sha256_hex_string(d)),
        None => None,
    };
    FileMetadata { path: relative_path, modified: folder_time(modified), hash }
}

/// The directory record a folder walk reports: the relative path with
/// the plain modification time (no offset).
pub fn folder_dir_record(relative_path: String, modified: u64) -> (r: DirMetadata)
    ensures
        r@.path == relative_path@,
        r@.modified == modified,
{
    DirMetadata { path: relative_path, modified }
}

} // verus!
