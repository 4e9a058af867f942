//! The location abstraction: metadata records, the capability trait that
//! every storage backend implements, the three endpoint descriptors and
//! the descriptor parser.

pub mod folder;
pub mod ftp;
pub mod zip;

use vstd::prelude::*;

use crate::errors::SyncError;
use crate::strutil::{spec_split_once, split_once_char, str_eq};

pub use folder::FolderLocation;
pub use ftp::FtpLocation;
pub use zip::ZipLocation;

verus! {

/// One record per observed file: its endpoint-relative path, its
/// modification time in seconds since the epoch (best effort per
/// backend), and the hex-encoded SHA-256 of its bytes, when computed.
#[derive(Debug)]
pub struct FileMetadata {
    pub path: String,
    pub modified: u64,
    pub hash: Option<String>,
}

/// The mathematical content of a [`FileMetadata`].
pub struct FileRec {
    pub path: Seq<char>,
    pub modified: u64,
    pub hash: Option<Seq<char>>,
}

impl View for FileMetadata {
    type V = FileRec;

    open spec fn view(&self) -> FileRec {
        FileRec {
            path: self.path@,
            modified: self.modified,
            hash: match self.hash {
                Some(ref h) => Some(h@),
                None => None,
            },
        }
    }
}

impl Clone for FileMetadata {
    fn clone(&self) -> (r: Self)
        ensures
            r@ == self@,
    {
        FileMetadata {
            path: self.path.clone(),
            modified: self.modified,
            hash: match &self.hash {
                Some(h) => Some(h.clone()),
                None => None,
            },
        }
    }
}

/// One record per observed directory.
#[derive(Debug)]
pub struct DirMetadata {
    pub path: String,
    pub modified: u64,
}

/// The mathematical content of a [`DirMetadata`].
pub struct DirRec {
    pub path: Seq<char>,
    pub modified: u64,
}

impl View for DirMetadata {
    type V = DirRec;

    open spec fn view(&self) -> DirRec {
        DirRec { path: self.path@, modified: self.modified }
    }
}

impl Clone for DirMetadata {
    fn clone(&self) -> (r: Self)
        ensures
            r@ == self@,
    {
        DirMetadata { path: self.path.clone(), modified: self.modified }
    }
}

/// The views of a sequence of file records.
pub open spec fn file_views(v: Seq<FileMetadata>) -> Seq<FileRec> {
    v.map_values(|f: FileMetadata| f@)
}

/// The views of a sequence of directory records.
pub open spec fn dir_views(v: Seq<DirMetadata>) -> Seq<DirRec> {
    v.map_values(|d: DirMetadata| d@)
}

/// The variant implementing a location.  Archive locations are read-only:
/// the reconciliation kernel never interprets an absence there as a
/// deletion, and writes to them are successful no-ops.
#[derive(Clone, Copy, PartialEq, Eq, Structural, Debug)]
pub enum LocationKind {
    Folder,
    Ftp,
    Archive,
}

/// The capability set over a storage backend.  The unverified driver
/// implements it for each real backend; the verified kernel computes
/// which of these operations to invoke, and with what.
pub trait Location {
    /// The variant tag, consulted where archives must be special-cased.
    fn kind(&self) -> LocationKind;

    fn list_files(&self) -> Result<Vec<FileMetadata>, SyncError>;

    fn read_file(&self, path: &str) -> Result<Vec<u8>, SyncError>;

    fn write_file(&self, path: &str, data: &[u8]) -> Result<(), SyncError>;

    fn delete_file(&self, path: &str) -> Result<(), SyncError>;

    fn list_files_recursive(&self) -> Result<Vec<FileMetadata>, SyncError> {
        self.list_files()
    }

    fn create_dir(&self, _path: &str) -> Result<(), SyncError> {
        Ok(())
    }

    fn remove_dir(&self, _path: &str) -> Result<(), SyncError> {
        Ok(())
    }

    fn list_dirs_recursive(&self) -> Result<Vec<DirMetadata>, SyncError> {
        Ok(Vec::new())
    }
}

/// A parsed endpoint descriptor.
#[derive(Debug)]
pub enum ParsedLocation {
    Folder(FolderLocation),
    Zip(ZipLocation),
    Ftp(FtpLocation),
}

/// The mathematical content of a [`ParsedLocation`].
pub enum LocationForm {
    Folder { path: Seq<char> },
    Zip { path: Seq<char> },
    Ftp { user: Seq<char>, pass: Seq<char>, host: Seq<char>, path: Seq<char> },
}

impl View for ParsedLocation {
    type V = LocationForm;

    open spec fn view(&self) -> LocationForm {
        match self {
            ParsedLocation::Folder(f) => LocationForm::Folder { path: f.path@ },
            ParsedLocation::Zip(z) => LocationForm::Zip { path: z.path@ },
            ParsedLocation::Ftp(f) => LocationForm::Ftp {
                user: f.user@,
                pass: f.pass@,
                host: f.host@,
                path: f.path@,
            },
        }
    }
}

pub open spec fn folder_scheme() -> Seq<char> {
    seq!['f', 'o', 'l', 'd', 'e', 'r']
}

pub open spec fn zip_scheme() -> Seq<char> {
    seq!['z', 'i', 'p']
}

pub open spec fn ftp_scheme() -> Seq<char> {
    seq!['f', 't', 'p']
}

/// The descriptor grammar: `scheme:payload`, where the payload of `ftp`
/// is `USER:PASS@HOST/REMOTE_PATH`, split at the first `@`, the first `:`
/// of the credentials and the first `/` after the host.  `None` is a
/// parse error.
pub open spec fn spec_parse_location(s: Seq<char>) -> Option<LocationForm> {
    match spec_split_once(s, ':') {
        None => None,
        Some((scheme, payload)) => if scheme == folder_scheme() {
            Some(LocationForm::Folder { path: payload })
        } else if scheme == zip_scheme() {
            Some(LocationForm::Zip { path: payload })
        } else if scheme == ftp_scheme() {
            match spec_split_once(payload, '@') {
                None => None,
                Some((cred, host_path)) => match spec_split_once(cred, ':') {
                    None => None,
                    Some((user, pass)) => match spec_split_once(host_path, '/') {
                        None => None,
                        Some((host, remote)) => Some(
                            LocationForm::Ftp { user, pass, host, path: remote },
                        ),
                    },
                },
            }
        } else {
            None
        },
    }
}

/// Parses an endpoint descriptor.  Returns the parsed location exactly on
/// the descriptors the grammar admits, and a `Parse` error on all others.
pub fn parse_location(loc_str: &str) -> (r: Result<ParsedLocation, SyncError>)
    ensures
        match r {
            Ok(loc) => spec_parse_location(loc_str@) == Some(loc@),
            Err(e) => spec_parse_location(loc_str@) is None && e is Parse,
        },
{
    proof {
        reveal_strlit("folder");
        reveal_strlit("zip");
        reveal_strlit("ftp");
        assert("folder"@ =~= folder_scheme());
        assert("zip"@ =~= zip_scheme());
        assert("ftp"@ =~= ftp_scheme());
    }
    let parts = match split_once_char(loc_str, ':') {
        Some(p) => p,
        None => {
            return Err(SyncError::Parse("Format invalid".to_owned()));
        },
    };
    let loc_type = parts.0;
    let loc_path = parts.1;
    if str_eq(loc_type.as_str(), "folder") {
        Ok(ParsedLocation::Folder(FolderLocation::new(loc_path.as_str())))
    } else if str_eq(loc_type.as_str(), "zip") {
        Ok(ParsedLocation::Zip(ZipLocation::new(loc_path.as_str())))
    } else if str_eq(loc_type.as_str(), "ftp") {
        if let Some(cred_split) = split_once_char(loc_path.as_str(), '@') {
            if let Some(user_split) = split_once_char(cred_split.0.as_str(), ':') {
                if let Some(host_split) = split_once_char(cred_split.1.as_str(), '/') {
                    return Ok(
                        ParsedLocation::Ftp(
                            FtpLocation::new(
                                user_split.0.as_str(),
                                user_split.1.as_str(),
                                host_split.0.as_str(),
                                host_split.1.as_str(),
                            ),
                        ),
                    );
                }
            }
        }
        Err(SyncError::Parse("Format ftp invalid".to_owned()))
    } else {
        let mut msg = String::new();
        msg.append("unknown location type: ");
        msg.append(loc_type.as_str());
        Err(SyncError::Parse(msg))
    }
}

} // verus!
