//! The reconciliation kernel: the engine's memory of what it has
//! reconciled, and the decision procedures that turn endpoint listings
//! into plans of actions under the last-writer-wins policy.

pub mod model;

use vstd::prelude::*;

use crate::locations::{DirMetadata, DirRec, FileMetadata, FileRec, LocationKind};
use crate::strutil::seq_views;
use vstd::string::*;

verus! {

/// The map a sequence of file records represents: later records shadow
/// earlier ones, though a well-formed state never repeats a path.
pub open spec fn files_map(v: Seq<FileMetadata>) -> Map<Seq<char>, FileRec>
    decreases v.len(),
{
    if v.len() == 0 {
        Map::empty()
    } else {
        files_map(v.drop_last()).insert(v.last()@.path, v.last()@)
    }
}

/// The map a sequence of directory records represents.
pub open spec fn dirs_map(v: Seq<DirMetadata>) -> Map<Seq<char>, DirRec>
    decreases v.len(),
{
    if v.len() == 0 {
        Map::empty()
    } else {
        dirs_map(v.drop_last()).insert(v.last()@.path, v.last()@)
    }
}

/// The kernel's memory of the most recently reconciled files and
/// directories, keyed by path.
pub struct SyncState {
    pub file_metadata: Vec<FileMetadata>,
    pub dir_metadata: Vec<DirMetadata>,
}

impl SyncState {
    /// The file records as a map from path to record.
    pub open spec fn files(&self) -> Map<Seq<char>, FileRec> {
        files_map(self.file_metadata@)
    }

    /// The directory records as a map from path to record.
    pub open spec fn dirs(&self) -> Map<Seq<char>, DirRec> {
        dirs_map(self.dir_metadata@)
    }

    /// Paths are unique, and each record is keyed by its own path.
    pub open spec fn wf(&self) -> bool {
        &&& (forall|i: int, j: int|
            0 <= i < j < self.file_metadata@.len() ==> self.file_metadata@[i]@.path
                != self.file_metadata@[j]@.path)
        &&& (forall|i: int, j: int|
            0 <= i < j < self.dir_metadata@.len() ==> self.dir_metadata@[i]@.path
                != self.dir_metadata@[j]@.path)
    }

    /// An empty state.
    pub fn new() -> (r: Self)
        ensures
            r.wf(),
            r.files() == Map::<Seq<char>, FileRec>::empty(),
            r.dirs() == Map::<Seq<char>, DirRec>::empty(),
    {
        SyncState { file_metadata: Vec::new(), dir_metadata: Vec::new() }
    }

    /// Inserts or replaces the record for `path`.
    #[verifier::loop_isolation(false)]
    pub fn update_file(&mut self, path: String, metadata: FileMetadata)
        requires
            old(self).wf(),
            path@ == metadata@.path,
        ensures
            final(self).wf(),
            final(self).files() == old(self).files().insert(path@, metadata@),
            final(self).dirs() == old(self).dirs(),
    {
        let ghost v0 = self.file_metadata@;
        let ghost d0 = self.dir_metadata@;
        let mut i: usize = 0;
        while i < self.file_metadata.len()
            invariant
                v0 == self.file_metadata@,
                d0 == self.dir_metadata@,
                forall|k1: int, k2: int| 0 <= k1 < k2 < v0.len() ==> v0[k1]@.path != v0[k2]@.path,
                i <= v0.len(),
                forall|k: int| 0 <= k < i ==> v0[k]@.path != path@,
                path@ == metadata@.path,
            decreases v0.len() - i,
        {
            if crate::strutil::str_eq(self.file_metadata[i].path.as_str(), path.as_str()) {
                let ghost mview = metadata@;
                self.file_metadata.set(i, metadata);
                proof {
                    lemma_files_map_update(v0, self.file_metadata@, i as int, mview);
                }
                return ;
            }
            i = i + 1;
        }
        let ghost mview = metadata@;
        self.file_metadata.push(metadata);
        proof {
            assert(self.file_metadata@.drop_last() =~= v0);
            assert(forall|k: int| 0 <= k < v0.len() ==> v0[k]@.path != path@);
            lemma_map_no_key(v0, path@);
        }
    }

    /// Removes the record for `path`, if any.
    #[verifier::loop_isolation(false)]
    pub fn remove_file(&mut self, path: &str)
        requires
            old(self).wf(),
        ensures
            final(self).wf(),
            final(self).files() == old(self).files().remove(path@),
            final(self).dirs() == old(self).dirs(),
    {
        let ghost v0 = self.file_metadata@;
        let ghost d0 = self.dir_metadata@;
        let mut i: usize = 0;
        while i < self.file_metadata.len()
            invariant
                v0 == self.file_metadata@,
                d0 == self.dir_metadata@,
                forall|k1: int, k2: int| 0 <= k1 < k2 < v0.len() ==> v0[k1]@.path != v0[k2]@.path,
                i <= v0.len(),
                forall|k: int| 0 <= k < i ==> v0[k]@.path != path@,
            decreases v0.len() - i,
        {
            if crate::strutil::str_eq(self.file_metadata[i].path.as_str(), path) {
                let ghost pview = self.file_metadata@[i as int]@.path;
                self.file_metadata.remove(i);
                proof {
                    lemma_files_map_remove(v0, self.file_metadata@, i as int);
                    assert(pview == path@);
                }
                return ;
            }
            i = i + 1;
        }
        proof {
            lemma_map_no_key(v0, path@);
            assert(files_map(v0).remove(path@) =~= files_map(v0));
        }
    }

    /// Inserts or replaces the directory record for `path`.
    #[verifier::loop_isolation(false)]
    pub fn update_dir(&mut self, path: String, metadata: DirMetadata)
        requires
            old(self).wf(),
            path@ == metadata@.path,
        ensures
            final(self).wf(),
            final(self).dirs() == old(self).dirs().insert(path@, metadata@),
            final(self).files() == old(self).files(),
    {
        let ghost v0 = self.dir_metadata@;
        let ghost f0 = self.file_metadata@;
        let mut i: usize = 0;
        while i < self.dir_metadata.len()
            invariant
                v0 == self.dir_metadata@,
                f0 == self.file_metadata@,
                forall|k1: int, k2: int| 0 <= k1 < k2 < v0.len() ==> v0[k1]@.path != v0[k2]@.path,
                i <= v0.len(),
                forall|k: int| 0 <= k < i ==> v0[k]@.path != path@,
                path@ == metadata@.path,
            decreases v0.len() - i,
        {
            if crate::strutil::str_eq(self.dir_metadata[i].path.as_str(), path.as_str()) {
                let ghost mview = metadata@;
                self.dir_metadata.set(i, metadata);
                proof {
                    lemma_dirs_map_update(v0, self.dir_metadata@, i as int, mview);
                }
                return ;
            }
            i = i + 1;
        }
        let ghost mview = metadata@;
        self.dir_metadata.push(metadata);
        proof {
            assert(self.dir_metadata@.drop_last() =~= v0);
            lemma_dirs_map_no_key(v0, path@);
        }
    }

    /// Removes the directory record for `path`, if any.
    #[verifier::loop_isolation(false)]
    pub fn remove_dir(&mut self, path: &str)
        requires
            old(self).wf(),
        ensures
            final(self).wf(),
            final(self).dirs() == old(self).dirs().remove(path@),
            final(self).files() == old(self).files(),
    {
        let ghost v0 = self.dir_metadata@;
        let ghost f0 = self.file_metadata@;
        let mut i: usize = 0;
        while i < self.dir_metadata.len()
            invariant
                v0 == self.dir_metadata@,
                f0 == self.file_metadata@,
                forall|k1: int, k2: int| 0 <= k1 < k2 < v0.len() ==> v0[k1]@.path != v0[k2]@.path,
                i <= v0.len(),
                forall|k: int| 0 <= k < i ==> v0[k]@.path != path@,
            decreases v0.len() - i,
        {
            if crate::strutil::str_eq(self.dir_metadata[i].path.as_str(), path) {
                let ghost pview = self.dir_metadata@[i as int]@.path;
                self.dir_metadata.remove(i);
                proof {
                    lemma_dirs_map_remove(v0, self.dir_metadata@, i as int);
                    assert(pview == path@);
                }
                return ;
            }
            i = i + 1;
        }
        proof {
            lemma_dirs_map_no_key(v0, path@);
            assert(dirs_map(v0).remove(path@) =~= dirs_map(v0));
        }
    }

    /// The file record for `path`, if any.
    #[verifier::loop_isolation(false)]
    pub fn get_file(&self, path: &str) -> (r: Option<&FileMetadata>)
        requires
            self.wf(),
        ensures
            match r {
                Some(m) => self.files().contains_key(path@) && m@ == self.files()[path@],
                None => !self.files().contains_key(path@),
            },
    {
        let ghost v0 = self.file_metadata@;
        let mut i: usize = 0;
        while i < self.file_metadata.len()
            invariant
                self.wf(),
                v0 == self.file_metadata@,
                i <= v0.len(),
                forall|k: int| 0 <= k < i ==> v0[k]@.path != path@,
            decreases v0.len() - i,
        {
            if crate::strutil::str_eq(self.file_metadata[i].path.as_str(), path) {
                proof {
                    lemma_files_map_index(v0, i as int);
                }
                return Some(&self.file_metadata[i]);
            }
            i = i + 1;
        }
        proof {
            lemma_map_no_key(v0, path@);
        }
        None
    }

    /// Whether a directory record for `path` is present.
    #[verifier::loop_isolation(false)]
    pub fn contains_dir(&self, path: &str) -> (r: bool)
        requires
            self.wf(),
        ensures
            r == self.dirs().contains_key(path@),
    {
        let ghost v0 = self.dir_metadata@;
        let mut i: usize = 0;
        while i < self.dir_metadata.len()
            invariant
                v0 == self.dir_metadata@,
                i <= v0.len(),
                forall|k: int| 0 <= k < i ==> v0[k]@.path != path@,
            decreases v0.len() - i,
        {
            if crate::strutil::str_eq(self.dir_metadata[i].path.as_str(), path) {
                proof {
                    lemma_dirs_map_index(v0, i as int);
                }
                return true;
            }
            i = i + 1;
        }
        proof {
            lemma_dirs_map_no_key(v0, path@);
        }
        false
    }
}

/// A snapshot of one location: its tag and its recursive directory and
/// file listings.
pub struct LocationListing {
    pub kind: LocationKind,
    pub dirs: Vec<DirMetadata>,
    pub files: Vec<FileMetadata>,
}

/// The mathematical content of a [`LocationListing`].
pub struct ListingV {
    pub kind: LocationKind,
    pub dirs: Seq<DirRec>,
    pub files: Seq<FileRec>,
}

impl View for LocationListing {
    type V = ListingV;

    open spec fn view(&self) -> ListingV {
        ListingV {
            kind: self.kind,
            dirs: crate::locations::dir_views(self.dirs@),
            files: crate::locations::file_views(self.files@),
        }
    }
}

/// The views of a sequence of listings.
pub open spec fn listing_views(v: Seq<LocationListing>) -> Seq<ListingV> {
    v.map_values(|l: LocationListing| l@)
}

/// One operation of a synchronization plan, to be performed by the
/// driver against the numbered locations.  Mutations sent to archive
/// locations are successful no-ops.
#[derive(Debug)]
pub enum SyncAction {
    /// Create the directory (with parents) on location `loc`.
    CreateDir { loc: usize, path: String, modified: u64 },
    /// Remove the directory recursively on location `loc`.
    RemoveDir { loc: usize, path: String },
    /// Read the file from location `from` and write it to location `to`.
    CopyFile { from: usize, to: usize, path: String },
    /// Delete the file on location `loc`.
    DeleteFile { loc: usize, path: String },
}

/// The mathematical content of a [`SyncAction`].
pub enum SyncActionV {
    CreateDir { loc: int, path: Seq<char>, modified: u64 },
    RemoveDir { loc: int, path: Seq<char> },
    CopyFile { from: int, to: int, path: Seq<char> },
    DeleteFile { loc: int, path: Seq<char> },
}

impl View for SyncAction {
    type V = SyncActionV;

    open spec fn view(&self) -> SyncActionV {
        match self {
            SyncAction::CreateDir { loc, path, modified } => SyncActionV::CreateDir {
                loc: *loc as int,
                path: path@,
                modified: *modified,
            },
            SyncAction::RemoveDir { loc, path } => SyncActionV::RemoveDir {
                loc: *loc as int,
                path: path@,
            },
            SyncAction::CopyFile { from, to, path } => SyncActionV::CopyFile {
                from: *from as int,
                to: *to as int,
                path: path@,
            },
            SyncAction::DeleteFile { loc, path } => SyncActionV::DeleteFile {
                loc: *loc as int,
                path: path@,
            },
        }
    }
}

/// The views of an action sequence.
pub open spec fn action_views(v: Seq<SyncAction>) -> Seq<SyncActionV> {
    v.map_values(|a: SyncAction| a@)
}

/// The views of a sequence of optional file records.
pub open spec fn opt_file_views(v: Seq<Option<FileMetadata>>) -> Seq<Option<FileRec>> {
    v.map_values(
        |m: Option<FileMetadata>|
            match m {
                Some(x) => Some(x@),
                None => None,
            },
    )
}

/// The first record with path `p`, if any.
pub open spec fn spec_find_file(files: Seq<FileRec>, p: Seq<char>) -> Option<FileRec>
    decreases files.len(),
{
    if files.len() == 0 {
        None
    } else if files[0].path == p {
        Some(files[0])
    } else {
        spec_find_file(files.drop_first(), p)
    }
}

/// The first directory record with path `p`, if any.
pub open spec fn spec_find_dir(dirs: Seq<DirRec>, p: Seq<char>) -> Option<DirRec>
    decreases dirs.len(),
{
    if dirs.len() == 0 {
        None
    } else if dirs[0].path == p {
        Some(dirs[0])
    } else {
        spec_find_dir(dirs.drop_first(), p)
    }
}

proof fn lemma_find_file_hit(files: Seq<FileRec>, p: Seq<char>, i: int)
    requires
        0 <= i < files.len(),
        files[i].path == p,
        forall|k: int| 0 <= k < i ==> files[k].path != p,
    ensures
        spec_find_file(files, p) == Some(files[i]),
    decreases files.len(),
{
    if i > 0 {
        assert(forall|k: int| 0 <= k < i - 1 ==> files.drop_first()[k].path != p);
        assert(files.drop_first()[i - 1] == files[i]);
        lemma_find_file_hit(files.drop_first(), p, i - 1);
    }
}

proof fn lemma_find_file_miss(files: Seq<FileRec>, p: Seq<char>)
    requires
        forall|k: int| 0 <= k < files.len() ==> files[k].path != p,
    ensures
        spec_find_file(files, p) is None,
    decreases files.len(),
{
    if files.len() > 0 {
        assert(forall|k: int| 0 <= k < files.drop_first().len() ==> files.drop_first()[k].path != p);
        lemma_find_file_miss(files.drop_first(), p);
    }
}

proof fn lemma_find_dir_hit(dirs: Seq<DirRec>, p: Seq<char>, i: int)
    requires
        0 <= i < dirs.len(),
        dirs[i].path == p,
        forall|k: int| 0 <= k < i ==> dirs[k].path != p,
    ensures
        spec_find_dir(dirs, p) == Some(dirs[i]),
    decreases dirs.len(),
{
    if i > 0 {
        assert(forall|k: int| 0 <= k < i - 1 ==> dirs.drop_first()[k].path != p);
        assert(dirs.drop_first()[i - 1] == dirs[i]);
        lemma_find_dir_hit(dirs.drop_first(), p, i - 1);
    }
}

proof fn lemma_find_dir_miss(dirs: Seq<DirRec>, p: Seq<char>)
    requires
        forall|k: int| 0 <= k < dirs.len() ==> dirs[k].path != p,
    ensures
        spec_find_dir(dirs, p) is None,
    decreases dirs.len(),
{
    if dirs.len() > 0 {
        assert(forall|k: int| 0 <= k < dirs.drop_first().len() ==> dirs.drop_first()[k].path != p);
        lemma_find_dir_miss(dirs.drop_first(), p);
    }
}

/// The first file record with path `path` in a listing.
#[verifier::loop_isolation(false)]
pub fn find_file_record(files: &Vec<FileMetadata>, path: &str) -> (r: Option<FileMetadata>)
    ensures
        match r {
            Some(m) => spec_find_file(crate::locations::file_views(files@), path@) == Some(m@),
            None => spec_find_file(crate::locations::file_views(files@), path@) is None,
        },
{
    let ghost fv = crate::locations::file_views(files@);
    let mut i: usize = 0;
    while i < files.len()
        invariant
            i <= files@.len(),
            forall|k: int| 0 <= k < i ==> fv[k].path != path@,
        decreases files@.len() - i,
    {
        if crate::strutil::str_eq(files[i].path.as_str(), path) {
            proof {
                lemma_find_file_hit(fv, path@, i as int);
            }
            return Some(files[i].clone());
        }
        i = i + 1;
    }
    proof {
        lemma_find_file_miss(fv, path@);
    }
    None
}

/// The first directory record with path `path` in a listing.
#[verifier::loop_isolation(false)]
pub fn find_dir_record(dirs: &Vec<DirMetadata>, path: &str) -> (r: Option<DirMetadata>)
    ensures
        match r {
            Some(m) => spec_find_dir(crate::locations::dir_views(dirs@), path@) == Some(m@),
            None => spec_find_dir(crate::locations::dir_views(dirs@), path@) is None,
        },
{
    let ghost dv = crate::locations::dir_views(dirs@);
    let mut i: usize = 0;
    while i < dirs.len()
        invariant
            i <= dirs@.len(),
            forall|k: int| 0 <= k < i ==> dv[k].path != path@,
        decreases dirs@.len() - i,
    {
        if crate::strutil::str_eq(dirs[i].path.as_str(), path) {
            proof {
                lemma_find_dir_hit(dv, path@, i as int);
            }
            return Some(dirs[i].clone());
        }
        i = i + 1;
    }
    proof {
        lemma_find_dir_miss(dv, path@);
    }
    None
}

/// Each location's record for path `p`.
pub open spec fn file_candidates(ls: Seq<ListingV>, p: Seq<char>) -> Seq<Option<FileRec>> {
    ls.map_values(|l: ListingV| spec_find_file(l.files, p))
}

/// Each location's directory record for path `p`.
pub open spec fn dir_candidates(ls: Seq<ListingV>, p: Seq<char>) -> Seq<Option<DirRec>> {
    ls.map_values(|l: ListingV| spec_find_dir(l.dirs, p))
}

/// Collects each location's record for `path`.
#[verifier::loop_isolation(false)]
pub fn collect_file_candidates(listings: &Vec<LocationListing>, path: &str) -> (r: Vec<
    Option<FileMetadata>,
>)
    ensures
        opt_file_views(r@) == file_candidates(listing_views(listings@), path@),
        r@.len() == listings@.len(),
{
    let mut r: Vec<Option<FileMetadata>> = Vec::new();
    let mut i: usize = 0;
    while i < listings.len()
        invariant
            i <= listings@.len(),
            r@.len() == i,
            forall|k: int|
                0 <= k < i ==> #[trigger] opt_file_views(r@)[k] == file_candidates(
                    listing_views(listings@),
                    path@,
                )[k],
        decreases listings@.len() - i,
    {
        let c = find_file_record(&listings[i].files, path);
        let ghost r0 = r@;
        r.push(c);
        i = i + 1;
        proof {
            assert(listing_views(listings@)[i - 1] == listings@[i - 1]@);
            assert forall|k: int|
                0 <= k < i implies #[trigger] opt_file_views(r@)[k] == file_candidates(
                listing_views(listings@),
                path@,
            )[k] by {
                if k < i - 1 {
                    assert(r@[k] == r0[k]);
                    assert(opt_file_views(r0)[k] == file_candidates(
                        listing_views(listings@),
                        path@,
                    )[k]);
                } else {
                    assert(r@[k] == c);
                }
            }
        }
    }
    proof {
        assert(opt_file_views(r@) =~= file_candidates(listing_views(listings@), path@));
    }
    r
}

/// The running scan for the newest record among the first `i`
/// candidates: the first present record is adopted, and a later one
/// takes over exactly when it is strictly newer.  Ties go to the first
/// encountered; a path present nowhere has no winner.
pub open spec fn file_scan(cands: Seq<Option<FileRec>>, i: int) -> (Option<int>, u64)
    decreases i,
{
    if i <= 0 {
        (None, 0u64)
    } else {
        let (w, t) = file_scan(cands, i - 1);
        match cands[i - 1] {
            Some(m) => if w is None || m.modified > t {
                (Some(i - 1), m.modified)
            } else {
                (w, t)
            },
            None => (w, t),
        }
    }
}

/// The running scan for the newest directory record.
pub open spec fn dir_scan(cands: Seq<Option<DirRec>>, i: int) -> (Option<int>, u64)
    decreases i,
{
    if i <= 0 {
        (None, 0u64)
    } else {
        let (w, t) = dir_scan(cands, i - 1);
        match cands[i - 1] {
            Some(d) => if w is None || d.modified > t {
                (Some(i - 1), d.modified)
            } else {
                (w, t)
            },
            None => (w, t),
        }
    }
}

proof fn lemma_file_scan_props(cands: Seq<Option<FileRec>>, i: int)
    requires
        0 <= i <= cands.len(),
    ensures
        match file_scan(cands, i) {
            (Some(w), t) => 0 <= w < i && cands[w] is Some && cands[w]->0.modified == t,
            (None, t) => t == 0 && forall|k: int| 0 <= k < i ==> cands[k] is None,
        },
    decreases i,
{
    if i > 0 {
        lemma_file_scan_props(cands, i - 1);
    }
}

proof fn lemma_dir_scan_props(cands: Seq<Option<DirRec>>, i: int)
    requires
        0 <= i <= cands.len(),
    ensures
        match dir_scan(cands, i) {
            (Some(w), t) => 0 <= w < i && cands[w] is Some && cands[w]->0.modified == t,
            (None, t) => t == 0 && forall|k: int| 0 <= k < i ==> cands[k] is None,
        },
    decreases i,
{
    if i > 0 {
        lemma_dir_scan_props(cands, i - 1);
    }
}

proof fn lemma_file_scan_first(cands: Seq<Option<FileRec>>, i: int)
    requires
        0 <= i <= cands.len(),
    ensures
        match file_scan(cands, i) {
            (Some(w), t) => forall|k: int|
                0 <= k < w && (#[trigger] cands[k]) is Some ==> cands[k]->0.modified < t,
            (None, _) => true,
        },
    decreases i,
{
    if i > 0 {
        lemma_file_scan_first(cands, i - 1);
        lemma_file_scan_props(cands, i - 1);
        lemma_file_scan_max(cands, i - 1);
    }
}

/// The running scan's time bounds every candidate it has passed.
proof fn lemma_file_scan_max(cands: Seq<Option<FileRec>>, i: int)
    requires
        0 <= i <= cands.len(),
    ensures
        forall|k: int|
            0 <= k < i && (#[trigger] cands[k]) is Some ==> cands[k]->0.modified <= file_scan(
                cands,
                i,
            ).1,
    decreases i,
{
    if i > 0 {
        lemma_file_scan_max(cands, i - 1);
        lemma_file_scan_props(cands, i - 1);
    }
}

/// Whether a reported hash is usable for comparison: present and
/// non-empty.
pub open spec fn hash_nonempty(h: Option<Seq<char>>) -> bool {
    match h {
        Some(s) => s.len() > 0,
        None => false,
    }
}

/// The single-file winner scan: each candidate in turn challenges the
/// current winner.  A strictly newer candidate wins unless both hashes
/// are present and equal (no real change); an equally old candidate
/// wins exactly when both hashes are present and differ; an older
/// candidate never wins.
pub open spec fn sync_file_scan(cands: Seq<Option<FileRec>>, i: int) -> Option<(int, FileRec)>
    decreases i,
{
    if i <= 0 {
        None
    } else {
        let w = sync_file_scan(cands, i - 1);
        match cands[i - 1] {
            None => w,
            Some(m) => match w {
                None => Some((i - 1, m)),
                Some((wi, wm)) => if m.modified > wm.modified {
                    if hash_nonempty(m.hash) && hash_nonempty(wm.hash) && m.hash == wm.hash {
                        w
                    } else {
                        Some((i - 1, m))
                    }
                } else if m.modified == wm.modified {
                    if hash_nonempty(m.hash) && hash_nonempty(wm.hash) && m.hash != wm.hash {
                        Some((i - 1, m))
                    } else {
                        w
                    }
                } else {
                    w
                },
            },
        }
    }
}

proof fn lemma_sync_file_scan_props(cands: Seq<Option<FileRec>>, i: int)
    requires
        0 <= i <= cands.len(),
    ensures
        match sync_file_scan(cands, i) {
            Some((w, m)) => 0 <= w < i && cands[w] == Some(m),
            None => forall|k: int| 0 <= k < i ==> cands[k] is None,
        },
    decreases i,
{
    if i > 0 {
        lemma_sync_file_scan_props(cands, i - 1);
    }
}

/// Whether a location's copy receives the winner's bytes.  An absent
/// copy always does.  A present copy whose hash matches the winner's
/// (both present and non-empty) never does: identical content is never
/// rewritten.  Otherwise a strictly older copy is overwritten, and so
/// is an equally old copy whose hash is present, non-empty and
/// different from the winner's.
pub open spec fn copy_target(m: Option<FileRec>, w: FileRec) -> bool {
    match m {
        None => true,
        Some(m) => if hash_nonempty(m.hash) && hash_nonempty(w.hash) && m.hash == w.hash {
            false
        } else if m.modified < w.modified {
            true
        } else {
            m.modified == w.modified && hash_nonempty(m.hash) && hash_nonempty(w.hash)
        },
    }
}

/// The propagation actions for one file: copy the winner's bytes to
/// every location whose copy [`copy_target`] selects.
pub open spec fn copy_actions(
    cands: Seq<Option<FileRec>>,
    widx: int,
    w: FileRec,
    p: Seq<char>,
    n: int,
) -> Seq<SyncActionV>
    decreases n,
{
    if n <= 0 {
        Seq::empty()
    } else {
        let pre = copy_actions(cands, widx, w, p, n - 1);
        let i = n - 1;
        if i == widx {
            pre
        } else if copy_target(cands[i], w) {
            pre.push(SyncActionV::CopyFile { from: widx, to: i, path: p })
        } else {
            pre
        }
    }
}

/// Whether two optional hashes are equal, as the kernel compares them.
fn hash_eq(a: &Option<String>, b: &Option<String>) -> (r: bool)
    ensures
        r == ({
            let av = match a {
                Some(s) => Some(s@),
                None => None::<Seq<char>>,
            };
            let bv = match b {
                Some(s) => Some(s@),
                None => None::<Seq<char>>,
            };
            av == bv
        }),
{
    match (a, b) {
        (Some(x), Some(y)) => crate::strutil::str_eq(x.as_str(), y.as_str()),
        (None, None) => true,
        _ => false,
    }
}

/// Whether a hash is present and non-empty.
fn hash_usable(h: &Option<String>) -> (r: bool)
    ensures
        r == hash_nonempty(
            match h {
                Some(s) => Some(s@),
                None => None::<Seq<char>>,
            },
        ),
{
    match h {
        Some(s) => s.as_str().unicode_len() > 0,
        None => false,
    }
}

/// Tests [`copy_target`].
fn is_copy_target(m: &Option<FileMetadata>, w: &FileMetadata) -> (r: bool)
    ensures
        r == copy_target(
            match m {
                Some(x) => Some(x@),
                None => None::<FileRec>,
            },
            w@,
        ),
{
    match m {
        None => true,
        Some(m) => {
            if hash_usable(&m.hash) && hash_usable(&w.hash) && hash_eq(&m.hash, &w.hash) {
                false
            } else if m.modified < w.modified {
                true
            } else {
                m.modified == w.modified && hash_usable(&m.hash) && hash_usable(&w.hash)
            }
        },
    }
}

/// Reconciles one path across the locations, given each location's
/// current record for it.  Chooses the authoritative copy by the
/// winner scan, plans a copy to every location whose copy is absent,
/// strictly older, or equally old with a different content hash —
/// never to one whose hash matches the winner's — and records the
/// winner.  A path found nowhere plans nothing.
#[verifier::loop_isolation(false)]
pub fn sync_file(
    candidates: &Vec<Option<FileMetadata>>,
    filename: &str,
    sync_state: &mut SyncState,
) -> (actions: Vec<SyncAction>)
    requires
        old(sync_state).wf(),
        forall|i: int|
            0 <= i < candidates@.len() ==> (#[trigger] opt_file_views(candidates@)[i]) is Some
                ==> opt_file_views(candidates@)[i]->0.path == filename@,
    ensures
        final(sync_state).wf(),
        final(sync_state).dirs() == old(sync_state).dirs(),
        ({
            let cv = opt_file_views(candidates@);
            match sync_file_scan(cv, cv.len() as int) {
                None => actions@.len() == 0 && final(sync_state).files() == old(
                    sync_state,
                ).files(),
                Some((wi, wm)) => action_views(actions@) == copy_actions(
                    cv,
                    wi,
                    wm,
                    filename@,
                    cv.len() as int,
                ) && final(sync_state).files() == old(sync_state).files().insert(filename@, wm),
            }
        }),
{
    let ghost cv = opt_file_views(candidates@);
    let n = candidates.len();
    let mut winner_idx: usize = 0;
    let mut winner: Option<FileMetadata> = None;
    let mut i: usize = 0;
    while i < n
        invariant
            n == candidates@.len(),
            i <= n,
            cv == opt_file_views(candidates@),
            match winner {
                Some(wm) => sync_file_scan(cv, i as int) == Some((winner_idx as int, wm@))
                    && winner_idx < n,
                None => sync_file_scan(cv, i as int) is None,
            },
        decreases n - i,
    {
        proof {
            assert(cv[i as int] == match candidates@[i as int] {
                Some(x) => Some(x@),
                None => None::<FileRec>,
            });
        }
        match &candidates[i] {
            None => {},
            Some(m) => {
                match &winner {
                    None => {
                        winner_idx = i;
                        winner = Some(m.clone());
                    },
                    Some(wm) => {
                        if m.modified > wm.modified {
                            if !(hash_usable(&m.hash) && hash_usable(&wm.hash) && hash_eq(
                                &m.hash,
                                &wm.hash,
                            )) {
                                winner_idx = i;
                                winner = Some(m.clone());
                            }
                        } else if m.modified == wm.modified {
                            if hash_usable(&m.hash) && hash_usable(&wm.hash) && !hash_eq(
                                &m.hash,
                                &wm.hash,
                            ) {
                                winner_idx = i;
                                winner = Some(m.clone());
                            }
                        }
                    },
                }
            },
        }
        i = i + 1;
    }
    let (wi, wm) = match winner {
        None => {
            return Vec::new();
        },
        Some(wm) => (winner_idx, wm),
    };
    let mut actions: Vec<SyncAction> = Vec::new();
    let mut j: usize = 0;
    while j < n
        invariant
            n == candidates@.len(),
            j <= n,
            cv == opt_file_views(candidates@),
            wi < n,
            sync_file_scan(cv, n as int) == Some((wi as int, wm@)),
            action_views(actions@) == copy_actions(cv, wi as int, wm@, filename@, j as int),
        decreases n - j,
    {
        proof {
            assert(cv[j as int] == match candidates@[j as int] {
                Some(x) => Some(x@),
                None => None::<FileRec>,
            });
        }
        let ghost a0 = action_views(actions@);
        if j != wi {
            let copy_needed = is_copy_target(&candidates[j], &wm);
            if copy_needed {
                actions.push(
                    SyncAction::CopyFile { from: wi, to: j, path: filename.to_owned() },
                );
                proof {
                    assert(action_views(actions@) =~= a0.push(actions@.last()@));
                }
            }
        }
        j = j + 1;
    }
    proof {
        lemma_sync_file_scan_props(cv, n as int);
        assert(cv[wi as int] is Some);
        assert(wm@.path == filename@);
    }
    sync_state.update_file(filename.to_owned(), wm);
    actions
}

/// The views of a sequence of optional directory records.
pub open spec fn opt_dir_views(v: Seq<Option<DirMetadata>>) -> Seq<Option<DirRec>> {
    v.map_values(
        |m: Option<DirMetadata>|
            match m {
                Some(x) => Some(x@),
                None => None,
            },
    )
}

/// Collects each location's directory record for `path`.
#[verifier::loop_isolation(false)]
pub fn collect_dir_candidates(listings: &Vec<LocationListing>, path: &str) -> (r: Vec<
    Option<DirMetadata>,
>)
    ensures
        opt_dir_views(r@) == dir_candidates(listing_views(listings@), path@),
        r@.len() == listings@.len(),
{
    let mut r: Vec<Option<DirMetadata>> = Vec::new();
    let mut i: usize = 0;
    while i < listings.len()
        invariant
            i <= listings@.len(),
            r@.len() == i,
            forall|k: int|
                0 <= k < i ==> #[trigger] opt_dir_views(r@)[k] == dir_candidates(
                    listing_views(listings@),
                    path@,
                )[k],
        decreases listings@.len() - i,
    {
        let c = find_dir_record(&listings[i].dirs, path);
        let ghost r0 = r@;
        r.push(c);
        i = i + 1;
        proof {
            assert(listing_views(listings@)[i - 1] == listings@[i - 1]@);
            assert forall|k: int|
                0 <= k < i implies #[trigger] opt_dir_views(r@)[k] == dir_candidates(
                listing_views(listings@),
                path@,
            )[k] by {
                if k < i - 1 {
                    assert(r@[k] == r0[k]);
                    assert(opt_dir_views(r0)[k] == dir_candidates(
                        listing_views(listings@),
                        path@,
                    )[k]);
                } else {
                    assert(r@[k] == c);
                }
            }
        }
    }
    r
}

proof fn lemma_find_file_path(files: Seq<FileRec>, p: Seq<char>)
    ensures
        spec_find_file(files, p) is Some ==> spec_find_file(files, p)->0.path == p,
    decreases files.len(),
{
    if files.len() > 0 && files[0].path != p {
        lemma_find_file_path(files.drop_first(), p);
    }
}

proof fn lemma_find_dir_path(dirs: Seq<DirRec>, p: Seq<char>)
    ensures
        spec_find_dir(dirs, p) is Some ==> spec_find_dir(dirs, p)->0.path == p,
    decreases dirs.len(),
{
    if dirs.len() > 0 && dirs[0].path != p {
        lemma_find_dir_path(dirs.drop_first(), p);
    }
}

/// `s` with every later repetition of a path dropped: the order of
/// first occurrences.
pub open spec fn dedup_paths(s: Seq<Seq<char>>) -> Seq<Seq<char>>
    decreases s.len(),
{
    if s.len() == 0 {
        Seq::empty()
    } else {
        let pre = dedup_paths(s.drop_last());
        if pre.contains(s.last()) {
            pre
        } else {
            pre.push(s.last())
        }
    }
}

/// The directory paths of one listing, in order.
pub open spec fn dir_paths_of(l: ListingV) -> Seq<Seq<char>> {
    l.dirs.map_values(|d: DirRec| d.path)
}

/// The file paths of one listing, in order.
pub open spec fn file_paths_of(l: ListingV) -> Seq<Seq<char>> {
    l.files.map_values(|f: FileRec| f.path)
}

/// All directory paths of all listings, location by location.
pub open spec fn all_dir_paths(ls: Seq<ListingV>) -> Seq<Seq<char>>
    decreases ls.len(),
{
    if ls.len() == 0 {
        Seq::empty()
    } else {
        all_dir_paths(ls.drop_last()) + dir_paths_of(ls.last())
    }
}

/// All file paths of all listings, location by location.
pub open spec fn all_file_paths(ls: Seq<ListingV>) -> Seq<Seq<char>>
    decreases ls.len(),
{
    if ls.len() == 0 {
        Seq::empty()
    } else {
        all_file_paths(ls.drop_last()) + file_paths_of(ls.last())
    }
}

/// The union of the directory paths, in order of first encounter.
pub open spec fn dir_union(ls: Seq<ListingV>) -> Seq<Seq<char>> {
    dedup_paths(all_dir_paths(ls))
}

/// The union of the file paths, in order of first encounter.
pub open spec fn file_union(ls: Seq<ListingV>) -> Seq<Seq<char>> {
    dedup_paths(all_file_paths(ls))
}

/// Drops later repetitions of paths.
#[verifier::loop_isolation(false)]
fn dedup_path_vec(v: &Vec<String>) -> (r: Vec<String>)
    ensures
        seq_views(r@) == dedup_paths(seq_views(v@)),
{
    let mut out: Vec<String> = Vec::new();
    let mut c: usize = 0;
    proof {
        assert(seq_views(v@).take(0) =~= Seq::<Seq<char>>::empty());
    }
    while c < v.len()
        invariant
            c <= v@.len(),
            seq_views(out@) == dedup_paths(seq_views(v@).take(c as int)),
        decreases v@.len() - c,
    {
        let mut present = false;
        let mut j: usize = 0;
        while j < out.len()
            invariant
                j <= out@.len(),
                c < v@.len(),
                present == (exists|k: int| 0 <= k < j && seq_views(out@)[k] == v@[c as int]@),
            decreases out@.len() - j,
        {
            if crate::strutil::str_eq(out[j].as_str(), v[c].as_str()) {
                present = true;
                proof {
                    assert(seq_views(out@)[j as int] == v@[c as int]@);
                }
                j = out.len();
            } else {
                proof {
                    assert(seq_views(out@)[j as int] == out@[j as int]@);
                }
                j = j + 1;
            }
        }
        let ghost out0 = seq_views(out@);
        if !present {
            out.push(v[c].clone());
            proof {
                assert(seq_views(out@) =~= out0.push(v@[c as int]@));
            }
        }
        c = c + 1;
        proof {
            let t = seq_views(v@).take(c as int);
            assert(t.drop_last() =~= seq_views(v@).take(c as int - 1));
            assert(t.last() == seq_views(v@)[c as int - 1]);
            assert(seq_views(v@)[c as int - 1] == v@[c as int - 1]@);
            assert(present == out0.contains(v@[c as int - 1]@)) by {
                if present {
                } else {
                    assert(forall|k: int| 0 <= k < out0.len() ==> out0[k] != v@[c as int - 1]@);
                }
            }
            assert(seq_views(out@) =~= dedup_paths(t));
        }
    }
    proof {
        assert(seq_views(v@).take(v@.len() as int) =~= seq_views(v@));
    }
    out
}

/// Collects every listing's directory paths, in order.
#[verifier::loop_isolation(false)]
fn flatten_dir_paths(listings: &Vec<LocationListing>) -> (r: Vec<String>)
    ensures
        seq_views(r@) == all_dir_paths(listing_views(listings@)),
{
    let ghost lv = listing_views(listings@);
    let mut flat: Vec<String> = Vec::new();
    let mut i: usize = 0;
    proof {
        assert(seq_views(flat@) =~= all_dir_paths(lv.take(0)));
    }
    while i < listings.len()
        invariant
            i <= listings@.len(),
            lv == listing_views(listings@),
            seq_views(flat@) == all_dir_paths(lv.take(i as int)),
        decreases listings@.len() - i,
    {
        let dirs = &listings[i].dirs;
        proof {
            assert(lv[i as int] == listings@[i as int]@);
        }
        let mut j: usize = 0;
        while j < dirs.len()
            invariant
                i < listings@.len(),
                lv == listing_views(listings@),
                dirs == &listings@[i as int].dirs,
                j <= dirs@.len(),
                seq_views(flat@) == all_dir_paths(lv.take(i as int)) + dir_paths_of(
                    lv[i as int],
                ).take(j as int),
            decreases dirs@.len() - j,
        {
            let ghost f0 = seq_views(flat@);
            flat.push(dirs[j].path.clone());
            j = j + 1;
            proof {
                assert(dir_paths_of(lv[i as int])[j - 1] == dirs@[j - 1]@.path);
                assert(seq_views(flat@) =~= f0.push(dirs@[j - 1]@.path));
                assert(seq_views(flat@) =~= all_dir_paths(lv.take(i as int)) + dir_paths_of(
                    lv[i as int],
                ).take(j as int));
            }
        }
        i = i + 1;
        proof {
            let t = lv.take(i as int);
            assert(t.drop_last() =~= lv.take(i as int - 1));
            assert(t.last() == lv[i as int - 1]);
            assert(dir_paths_of(lv[i as int - 1]).take(dirs@.len() as int) =~= dir_paths_of(
                lv[i as int - 1],
            ));
            assert(seq_views(flat@) =~= all_dir_paths(t));
        }
    }
    proof {
        assert(lv.take(listings@.len() as int) =~= lv);
    }
    flat
}

/// Collects every listing's file paths, in order.
#[verifier::loop_isolation(false)]
fn flatten_file_paths(listings: &Vec<LocationListing>) -> (r: Vec<String>)
    ensures
        seq_views(r@) == all_file_paths(listing_views(listings@)),
{
    let ghost lv = listing_views(listings@);
    let mut flat: Vec<String> = Vec::new();
    let mut i: usize = 0;
    proof {
        assert(seq_views(flat@) =~= all_file_paths(lv.take(0)));
    }
    while i < listings.len()
        invariant
            i <= listings@.len(),
            lv == listing_views(listings@),
            seq_views(flat@) == all_file_paths(lv.take(i as int)),
        decreases listings@.len() - i,
    {
        let files = &listings[i].files;
        proof {
            assert(lv[i as int] == listings@[i as int]@);
        }
        let mut j: usize = 0;
        while j < files.len()
            invariant
                i < listings@.len(),
                lv == listing_views(listings@),
                files == &listings@[i as int].files,
                j <= files@.len(),
                seq_views(flat@) == all_file_paths(lv.take(i as int)) + file_paths_of(
                    lv[i as int],
                ).take(j as int),
            decreases files@.len() - j,
        {
            let ghost f0 = seq_views(flat@);
            flat.push(files[j].path.clone());
            j = j + 1;
            proof {
                assert(file_paths_of(lv[i as int])[j - 1] == files@[j - 1]@.path);
                assert(seq_views(flat@) =~= f0.push(files@[j - 1]@.path));
                assert(seq_views(flat@) =~= all_file_paths(lv.take(i as int)) + file_paths_of(
                    lv[i as int],
                ).take(j as int));
            }
        }
        i = i + 1;
        proof {
            let t = lv.take(i as int);
            assert(t.drop_last() =~= lv.take(i as int - 1));
            assert(t.last() == lv[i as int - 1]);
            assert(file_paths_of(lv[i as int - 1]).take(files@.len() as int) =~= file_paths_of(
                lv[i as int - 1],
            ));
            assert(seq_views(flat@) =~= all_file_paths(t));
        }
    }
    proof {
        assert(lv.take(listings@.len() as int) =~= lv);
    }
    flat
}

/// The `create_dir` fan-out for one directory of the initial pass:
/// every location that does not already list the directory (the winner
/// aside), in index order.
pub open spec fn cd_actions(
    cands: Seq<Option<DirRec>>,
    widx: int,
    p: Seq<char>,
    t: u64,
    n: int,
) -> Seq<SyncActionV>
    decreases n,
{
    if n <= 0 {
        Seq::empty()
    } else {
        let pre = cd_actions(cands, widx, p, t, n - 1);
        if n - 1 == widx || cands[n - 1] is Some {
            pre
        } else {
            pre.push(SyncActionV::CreateDir { loc: n - 1, path: p, modified: t })
        }
    }
}

/// The directory pass of the initial reconciliation, over the union of
/// directory paths: for each path with a winner, `create_dir` on every
/// location that does not list the directory itself.
pub open spec fn dirs_phase_actions(ls: Seq<ListingV>, paths: Seq<Seq<char>>) -> Seq<SyncActionV>
    decreases paths.len(),
{
    if paths.len() == 0 {
        Seq::empty()
    } else {
        let pre = dirs_phase_actions(ls, paths.drop_last());
        let cands = dir_candidates(ls, paths.last());
        match dir_scan(cands, ls.len() as int) {
            (Some(w), t) => pre + cd_actions(cands, w, paths.last(), t, ls.len() as int),
            (None, _) => pre,
        }
    }
}

/// The state's directory map after the directory pass: each path with
/// a winner recorded at the winner's time.
pub open spec fn dirs_phase_map(
    ls: Seq<ListingV>,
    paths: Seq<Seq<char>>,
    m0: Map<Seq<char>, DirRec>,
) -> Map<Seq<char>, DirRec>
    decreases paths.len(),
{
    if paths.len() == 0 {
        m0
    } else {
        let m = dirs_phase_map(ls, paths.drop_last(), m0);
        match dir_scan(dir_candidates(ls, paths.last()), ls.len() as int) {
            (Some(w), t) => m.insert(
                paths.last(),
                DirRec { path: paths.last(), modified: t },
            ),
            (None, _) => m,
        }
    }
}

/// The file pass of the initial reconciliation, over the union of file
/// paths: for each path with a winner, copy the winner's bytes to every
/// location whose copy [`copy_target`] selects.
pub open spec fn files_phase_actions(ls: Seq<ListingV>, paths: Seq<Seq<char>>) -> Seq<SyncActionV>
    decreases paths.len(),
{
    if paths.len() == 0 {
        Seq::empty()
    } else {
        let pre = files_phase_actions(ls, paths.drop_last());
        let cands = file_candidates(ls, paths.last());
        match file_scan(cands, ls.len() as int) {
            (Some(w), t) => pre + copy_actions(cands, w, cands[w]->0, paths.last(), ls.len() as int),
            (None, _) => pre,
        }
    }
}

/// The state's file map after the file pass: each path with a winner
/// recorded with the winner's record.
pub open spec fn files_phase_map(
    ls: Seq<ListingV>,
    paths: Seq<Seq<char>>,
    m0: Map<Seq<char>, FileRec>,
) -> Map<Seq<char>, FileRec>
    decreases paths.len(),
{
    if paths.len() == 0 {
        m0
    } else {
        let m = files_phase_map(ls, paths.drop_last(), m0);
        let cands = file_candidates(ls, paths.last());
        match file_scan(cands, ls.len() as int) {
            (Some(w), t) => m.insert(paths.last(), cands[w]->0),
            (None, _) => m,
        }
    }
}

/// The whole plan of the initial reconciliation: the directory pass
/// followed by the file pass.
pub open spec fn initial_sync_plan(ls: Seq<ListingV>) -> Seq<SyncActionV> {
    dirs_phase_actions(ls, dir_union(ls)) + files_phase_actions(ls, file_union(ls))
}

/// The directory map after the initial reconciliation.
pub open spec fn dirs_after_initial(ls: Seq<ListingV>, m0: Map<Seq<char>, DirRec>) -> Map<
    Seq<char>,
    DirRec,
> {
    dirs_phase_map(ls, dir_union(ls), m0)
}

/// The file map after the initial reconciliation.
pub open spec fn files_after_initial(ls: Seq<ListingV>, m0: Map<Seq<char>, FileRec>) -> Map<
    Seq<char>,
    FileRec,
> {
    files_phase_map(ls, file_union(ls), m0)
}

/// The initial full reconciliation.  Directories first: for every
/// directory path anywhere, the location with the newest time wins
/// (ties to the first encountered) and the directory is created
/// everywhere else.  Files second: for every file path anywhere, the
/// newest copy wins and is copied to every location whose copy is
/// absent, strictly older, or equally old with a different content
/// hash — never to one with identical content.  The state records
/// every winner.
#[verifier::loop_isolation(false)]
pub fn initial_sync_with_state(
    listings: &Vec<LocationListing>,
    sync_state: &mut SyncState,
) -> (actions: Vec<SyncAction>)
    requires
        old(sync_state).wf(),
    ensures
        final(sync_state).wf(),
        action_views(actions@) == initial_sync_plan(listing_views(listings@)),
        final(sync_state).dirs() == dirs_after_initial(
            listing_views(listings@),
            old(sync_state).dirs(),
        ),
        final(sync_state).files() == files_after_initial(
            listing_views(listings@),
            old(sync_state).files(),
        ),
{
    let ghost lv = listing_views(listings@);
    let ghost dirs0 = old(sync_state).dirs();
    let ghost files0 = old(sync_state).files();
    let n = listings.len();
    let mut actions: Vec<SyncAction> = Vec::new();

    // Directory pass.
    let dir_flat = flatten_dir_paths(listings);
    let dir_paths = dedup_path_vec(&dir_flat);
    let ghost du = dir_union(lv);
    let mut k: usize = 0;
    proof {
        assert(du.take(0) =~= Seq::<Seq<char>>::empty());
    }
    while k < dir_paths.len()
        invariant
            n == listings@.len(),
            lv == listing_views(listings@),
            seq_views(dir_paths@) == du,
            du == dir_union(lv),
            k <= dir_paths@.len(),
            sync_state.wf(),
            action_views(actions@) == dirs_phase_actions(lv, du.take(k as int)),
            sync_state.dirs() == dirs_phase_map(lv, du.take(k as int), dirs0),
            sync_state.files() == files0,
        decreases dir_paths@.len() - k,
    {
        let p = &dir_paths[k];
        let ghost pv = p@;
        proof {
            assert(seq_views(dir_paths@)[k as int] == pv);
        }
        let cands = collect_dir_candidates(listings, p.as_str());
        let ghost cdv = dir_candidates(lv, pv);
        let mut found = false;
        let mut widx: usize = 0;
        let mut wtime: u64 = 0;
        let mut i: usize = 0;
        while i < n
            invariant
                n == cands@.len(),
                i <= n,
                cdv == opt_dir_views(cands@),
                if found {
                    dir_scan(cdv, i as int) == (Some(widx as int), wtime) && widx < n
                } else {
                    dir_scan(cdv, i as int) == (None::<int>, wtime) && wtime == 0
                },
            decreases n - i,
        {
            proof {
                assert(cdv[i as int] == match cands@[i as int] {
                    Some(x) => Some(x@),
                    None => None::<DirRec>,
                });
            }
            match &cands[i] {
                Some(d) => {
                    if !found || d.modified > wtime {
                        found = true;
                        widx = i;
                        wtime = d.modified;
                    }
                },
                None => {},
            }
            i = i + 1;
        }
        let ghost a0 = action_views(actions@);
        if found {
            let mut i2: usize = 0;
            while i2 < n
                invariant
                    n == listings@.len(),
                    n == cands@.len(),
                    i2 <= n,
                    widx < n,
                    cdv == opt_dir_views(cands@),
                    action_views(actions@) == a0 + cd_actions(
                        cdv,
                        widx as int,
                        pv,
                        wtime,
                        i2 as int,
                    ),
                decreases n - i2,
            {
                proof {
                    assert(cdv[i2 as int] == match cands@[i2 as int] {
                        Some(x) => Some(x@),
                        None => None::<DirRec>,
                    });
                }
                let ghost a1 = action_views(actions@);
                let absent = match &cands[i2] {
                    Some(_) => false,
                    None => true,
                };
                if i2 != widx && absent {
                    actions.push(
                        SyncAction::CreateDir { loc: i2, path: p.clone(), modified: wtime },
                    );
                    proof {
                        assert(action_views(actions@) =~= a1.push(actions@.last()@));
                    }
                }
                i2 = i2 + 1;
            }
            sync_state.update_dir(
                p.clone(),
                DirMetadata { path: p.clone(), modified: wtime },
            );
        }
        k = k + 1;
        proof {
            let t = du.take(k as int);
            assert(t.drop_last() =~= du.take(k as int - 1));
            assert(t.last() == pv);
            if found {
                assert(action_views(actions@) =~= dirs_phase_actions(lv, t));
            } else {
                assert(action_views(actions@) =~= dirs_phase_actions(lv, t));
            }
        }
    }
    proof {
        assert(du.take(dir_paths@.len() as int) =~= du);
    }

    // File pass.
    let file_flat = flatten_file_paths(listings);
    let file_paths = dedup_path_vec(&file_flat);
    let ghost fu = file_union(lv);
    let ghost dirs_done = sync_state.dirs();
    let mut k2: usize = 0;
    proof {
        assert(fu.take(0) =~= Seq::<Seq<char>>::empty());
    }
    while k2 < file_paths.len()
        invariant
            n == listings@.len(),
            lv == listing_views(listings@),
            seq_views(file_paths@) == fu,
            fu == file_union(lv),
            k2 <= file_paths@.len(),
            sync_state.wf(),
            action_views(actions@) == dirs_phase_actions(lv, dir_union(lv)) + files_phase_actions(
                lv,
                fu.take(k2 as int),
            ),
            sync_state.dirs() == dirs_done,
            sync_state.files() == files_phase_map(lv, fu.take(k2 as int), files0),
        decreases file_paths@.len() - k2,
    {
        let p = &file_paths[k2];
        let ghost pv = p@;
        proof {
            assert(seq_views(file_paths@)[k2 as int] == pv);
        }
        let cands = collect_file_candidates(listings, p.as_str());
        let ghost cfv = file_candidates(lv, pv);
        let mut found = false;
        let mut widx: usize = 0;
        let mut wtime: u64 = 0;
        let mut i: usize = 0;
        while i < n
            invariant
                n == cands@.len(),
                i <= n,
                cfv == opt_file_views(cands@),
                if found {
                    file_scan(cfv, i as int) == (Some(widx as int), wtime) && widx < n
                } else {
                    file_scan(cfv, i as int) == (None::<int>, wtime) && wtime == 0
                },
            decreases n - i,
        {
            proof {
                assert(cfv[i as int] == match cands@[i as int] {
                    Some(x) => Some(x@),
                    None => None::<FileRec>,
                });
            }
            match &cands[i] {
                Some(m) => {
                    if !found || m.modified > wtime {
                        found = true;
                        widx = i;
                        wtime = m.modified;
                    }
                },
                None => {},
            }
            i = i + 1;
        }
        
        let ghost a0 = action_views(actions@);
        if found {
            proof {
                lemma_file_scan_props(cfv, n as int);
                assert(cfv[widx as int] == match cands@[widx as int] {
                    Some(x) => Some(x@),
                    None => None::<FileRec>,
                });
            }
            let wrec = match &cands[widx] {
                Some(m) => m.clone(),
                None => {
                    proof {
                        assert(false);
                    }
                    unreached()
                },
            };
            proof {
                assert(cfv[widx as int]->0 == wrec@);
            }
            let mut i2: usize = 0;
            while i2 < n
                invariant
                    n == cands@.len(),
                    i2 <= n,
                    widx < n,
                    cfv == opt_file_views(cands@),
                    cfv[widx as int]->0 == wrec@,
                    action_views(actions@) == a0 + copy_actions(
                        cfv,
                        widx as int,
                        wrec@,
                        pv,
                        i2 as int,
                    ),
                decreases n - i2,
            {
                proof {
                    assert(cfv[i2 as int] == match cands@[i2 as int] {
                        Some(x) => Some(x@),
                        None => None::<FileRec>,
                    });
                }
                let ghost a1 = action_views(actions@);
                if i2 != widx {
                    let copy_needed = is_copy_target(&cands[i2], &wrec);
                    if copy_needed {
                        actions.push(
                            SyncAction::CopyFile { from: widx, to: i2, path: p.clone() },
                        );
                        proof {
                            assert(action_views(actions@) =~= a1.push(actions@.last()@));
                        }
                    }
                }
                i2 = i2 + 1;
            }
            proof {
                lemma_find_file_path(lv[widx as int].files, pv);
                assert(wrec@.path == pv);
            }
            sync_state.update_file(p.clone(), wrec);
        }
        k2 = k2 + 1;
        proof {
            let t = fu.take(k2 as int);
            assert(t.drop_last() =~= fu.take(k2 as int - 1));
            assert(t.last() == pv);
            assert(action_views(actions@) =~= dirs_phase_actions(lv, dir_union(lv))
                + files_phase_actions(lv, t));
        }
    }
    proof {
        assert(fu.take(file_paths@.len() as int) =~= fu);
        assert(action_views(actions@) =~= initial_sync_plan(lv));
    }
    actions
}

/// Whether the listing holds a directory record for `p`.
pub open spec fn listing_has_dir(l: ListingV, p: Seq<char>) -> bool {
    spec_find_dir(l.dirs, p) is Some
}

/// Whether the listing holds a file record for `p`.
pub open spec fn listing_has_file(l: ListingV, p: Seq<char>) -> bool {
    spec_find_file(l.files, p) is Some
}

/// The recorded directory paths that the listing no longer shows, in
/// record order.  Paths in `exempt` — directories this same poll pass
/// created, which a stale listing cannot be expected to show yet — are
/// never treated as removed.
pub open spec fn dir_removed_paths(
    v: Seq<DirRec>,
    l: ListingV,
    exempt: Seq<Seq<char>>,
) -> Seq<Seq<char>>
    decreases v.len(),
{
    if v.len() == 0 {
        Seq::empty()
    } else {
        let pre = dir_removed_paths(v.drop_last(), l, exempt);
        if !listing_has_dir(l, v.last().path) && !exempt.contains(v.last().path) {
            pre.push(v.last().path)
        } else {
            pre
        }
    }
}

/// The recorded file paths that the listing no longer shows, in record
/// order.
pub open spec fn file_removed_paths(v: Seq<FileRec>, l: ListingV) -> Seq<Seq<char>>
    decreases v.len(),
{
    if v.len() == 0 {
        Seq::empty()
    } else {
        let pre = file_removed_paths(v.drop_last(), l);
        if !listing_has_file(l, v.last().path) {
            pre.push(v.last().path)
        } else {
            pre
        }
    }
}

/// Whether a directory path is exempt from removal: the empty path and
/// `.` stand for the root.
pub open spec fn removal_exempt(p: Seq<char>) -> bool {
    p.len() == 0 || p == seq!['.']
}

/// The directory map with the removed paths dropped, the exempt ones
/// kept.
pub open spec fn remove_dir_paths(m: Map<Seq<char>, DirRec>, ps: Seq<Seq<char>>) -> Map<
    Seq<char>,
    DirRec,
>
    decreases ps.len(),
{
    if ps.len() == 0 {
        m
    } else {
        let m1 = remove_dir_paths(m, ps.drop_last());
        if removal_exempt(ps.last()) {
            m1
        } else {
            m1.remove(ps.last())
        }
    }
}

/// The file map with the removed paths dropped.
pub open spec fn remove_file_paths(m: Map<Seq<char>, FileRec>, ps: Seq<Seq<char>>) -> Map<
    Seq<char>,
    FileRec,
>
    decreases ps.len(),
{
    if ps.len() == 0 {
        m
    } else {
        remove_file_paths(m, ps.drop_last()).remove(ps.last())
    }
}

/// `RemoveDir` on every non-archive location, in index order.
pub open spec fn rd_fanout(ks: Seq<LocationKind>, p: Seq<char>, n: int) -> Seq<SyncActionV>
    decreases n,
{
    if n <= 0 {
        Seq::empty()
    } else {
        let pre = rd_fanout(ks, p, n - 1);
        if ks[n - 1] is Archive {
            pre
        } else {
            pre.push(SyncActionV::RemoveDir { loc: n - 1, path: p })
        }
    }
}

/// `DeleteFile` on every non-archive location, in index order.
pub open spec fn df_fanout(ks: Seq<LocationKind>, p: Seq<char>, n: int) -> Seq<SyncActionV>
    decreases n,
{
    if n <= 0 {
        Seq::empty()
    } else {
        let pre = df_fanout(ks, p, n - 1);
        if ks[n - 1] is Archive {
            pre
        } else {
            pre.push(SyncActionV::DeleteFile { loc: n - 1, path: p })
        }
    }
}

/// `CreateDir` on every non-archive location but `skip`, in index
/// order.
pub open spec fn cd_fanout(
    ks: Seq<LocationKind>,
    skip: int,
    p: Seq<char>,
    t: u64,
    n: int,
) -> Seq<SyncActionV>
    decreases n,
{
    if n <= 0 {
        Seq::empty()
    } else {
        let pre = cd_fanout(ks, skip, p, t, n - 1);
        if n - 1 == skip || ks[n - 1] is Archive {
            pre
        } else {
            pre.push(SyncActionV::CreateDir { loc: n - 1, path: p, modified: t })
        }
    }
}

/// The removal pass over the dropped directory paths: each non-exempt
/// one is removed everywhere non-archive.
pub open spec fn dir_removal_actions(ks: Seq<LocationKind>, rds: Seq<Seq<char>>) -> Seq<SyncActionV>
    decreases rds.len(),
{
    if rds.len() == 0 {
        Seq::empty()
    } else {
        let pre = dir_removal_actions(ks, rds.drop_last());
        if removal_exempt(rds.last()) {
            pre
        } else {
            pre + rd_fanout(ks, rds.last(), ks.len() as int)
        }
    }
}

/// The removal pass over the dropped file paths.
pub open spec fn file_removal_actions(ks: Seq<LocationKind>, rfs: Seq<Seq<char>>) -> Seq<
    SyncActionV,
>
    decreases rfs.len(),
{
    if rfs.len() == 0 {
        Seq::empty()
    } else {
        file_removal_actions(ks, rfs.drop_last()) + df_fanout(ks, rfs.last(), ks.len() as int)
    }
}

/// The creation pass over the listed directories: each one not yet
/// recorded is created on every other non-archive location and
/// recorded; later duplicates are skipped.
pub open spec fn dir_creations(
    ks: Seq<LocationKind>,
    loc: int,
    ds: Seq<DirRec>,
    m: Map<Seq<char>, DirRec>,
) -> (Seq<SyncActionV>, Map<Seq<char>, DirRec>)
    decreases ds.len(),
{
    if ds.len() == 0 {
        (Seq::empty(), m)
    } else {
        let (acts, m1) = dir_creations(ks, loc, ds.drop_last(), m);
        if m1.contains_key(ds.last().path) {
            (acts, m1)
        } else {
            (
                acts + cd_fanout(ks, loc, ds.last().path, ds.last().modified, ks.len() as int),
                m1.insert(ds.last().path, ds.last()),
            )
        }
    }
}

/// The paths whose listed record is new or whose hash differs from the
/// recorded one, in listing order: the paths a poll re-reconciles.
pub open spec fn to_sync_list(files: Seq<FileRec>, m: Map<Seq<char>, FileRec>) -> Seq<Seq<char>>
    decreases files.len(),
{
    if files.len() == 0 {
        Seq::empty()
    } else {
        let pre = to_sync_list(files.drop_last(), m);
        let f = files.last();
        if m.contains_key(f.path) {
            if m[f.path].hash != f.hash {
                pre.push(f.path)
            } else {
                pre
            }
        } else {
            pre.push(f.path)
        }
    }
}

/// What one location's poll step does, given the directories `exempt`
/// from the removal diff (those created earlier in the same pass), the
/// states before and after, the actions planned and the paths listed
/// for re-reconciling.
pub open spec fn poll_step_ok(
    ks: Seq<LocationKind>,
    loc: int,
    l: ListingV,
    exempt: Seq<Seq<char>>,
    st0: SyncState,
    st1: SyncState,
    a: Seq<SyncActionV>,
    ts: Seq<Seq<char>>,
) -> bool {
    let removed_d = dir_removed_paths(crate::locations::dir_views(st0.dir_metadata@), l, exempt);
    let removed_f = file_removed_paths(crate::locations::file_views(st0.file_metadata@), l);
    let m_rm_d = if l.kind is Archive {
        st0.dirs()
    } else {
        remove_dir_paths(st0.dirs(), removed_d)
    };
    let cr = dir_creations(ks, loc, l.dirs, m_rm_d);
    let m_rm_f = if l.kind is Archive {
        st0.files()
    } else {
        remove_file_paths(st0.files(), removed_f)
    };
    &&& st1.dirs() == cr.1
    &&& st1.files() == m_rm_f
    &&& a == (if l.kind is Archive {
        Seq::<SyncActionV>::empty()
    } else {
        dir_removal_actions(ks, removed_d)
    }) + cr.0 + (if l.kind is Archive {
        Seq::<SyncActionV>::empty()
    } else {
        file_removal_actions(ks, removed_f)
    })
    &&& ts == to_sync_list(l.files, m_rm_f)
}

/// Whether `p` occurs in the list.
#[verifier::loop_isolation(false)]
fn path_in_list(v: &Vec<String>, p: &str) -> (r: bool)
    ensures
        r == seq_views(v@).contains(p@),
{
    let mut i: usize = 0;
    while i < v.len()
        invariant
            i <= v@.len(),
            forall|k: int| 0 <= k < i ==> seq_views(v@)[k] != p@,
        decreases v@.len() - i,
    {
        if crate::strutil::str_eq(v[i].as_str(), p) {
            proof {
                assert(seq_views(v@)[i as int] == p@);
            }
            return true;
        }
        proof {
            assert(seq_views(v@)[i as int] == v@[i as int]@);
        }
        i = i + 1;
    }
    proof {
        if seq_views(v@).contains(p@) {
            let k = choose|k: int| 0 <= k < seq_views(v@).len() && seq_views(v@)[k] == p@;
        }
    }
    false
}

/// Tests [`removal_exempt`].
fn is_removal_exempt(p: &str) -> (r: bool)
    ensures
        r == removal_exempt(p@),
{
    let n = p.unicode_len();
    if n == 0 {
        true
    } else if n == 1 && p.get_char(0) == '.' {
        proof {
            assert(p@ =~= seq!['.']);
        }
        true
    } else {
        proof {
            assert(p@ != seq!['.']) by {
                if p@ == seq!['.'] {
                    assert(p@.len() == 1);
                }
            }
        }
        false
    }
}

/// Appends a `RemoveDir` for `path` on every non-archive location.
#[verifier::loop_isolation(false)]
fn push_rd_fanout(actions: &mut Vec<SyncAction>, kinds: &Vec<LocationKind>, path: &str)
    ensures
        action_views(final(actions)@) == action_views(old(actions)@) + rd_fanout(
            kinds@,
            path@,
            kinds@.len() as int,
        ),
{
    let ghost a0 = action_views(actions@);
    let mut i: usize = 0;
    while i < kinds.len()
        invariant
            i <= kinds@.len(),
            action_views(actions@) == a0 + rd_fanout(kinds@, path@, i as int),
        decreases kinds@.len() - i,
    {
        let ghost a1 = action_views(actions@);
        match kinds[i] {
            LocationKind::Archive => {},
            _ => {
                actions.push(SyncAction::RemoveDir { loc: i, path: path.to_owned() });
                proof {
                    assert(action_views(actions@) =~= a1.push(actions@.last()@));
                }
            },
        }
        i = i + 1;
    }
}

/// Appends a `DeleteFile` for `path` on every non-archive location.
#[verifier::loop_isolation(false)]
fn push_df_fanout(actions: &mut Vec<SyncAction>, kinds: &Vec<LocationKind>, path: &str)
    ensures
        action_views(final(actions)@) == action_views(old(actions)@) + df_fanout(
            kinds@,
            path@,
            kinds@.len() as int,
        ),
{
    let ghost a0 = action_views(actions@);
    let mut i: usize = 0;
    while i < kinds.len()
        invariant
            i <= kinds@.len(),
            action_views(actions@) == a0 + df_fanout(kinds@, path@, i as int),
        decreases kinds@.len() - i,
    {
        let ghost a1 = action_views(actions@);
        match kinds[i] {
            LocationKind::Archive => {},
            _ => {
                actions.push(SyncAction::DeleteFile { loc: i, path: path.to_owned() });
                proof {
                    assert(action_views(actions@) =~= a1.push(actions@.last()@));
                }
            },
        }
        i = i + 1;
    }
}

/// Appends a `CreateDir` for `path` on every non-archive location with
/// an index other than `skip` (every one, when `skip` is the length).
#[verifier::loop_isolation(false)]
fn push_cd_fanout(
    actions: &mut Vec<SyncAction>,
    kinds: &Vec<LocationKind>,
    skip: usize,
    path: &str,
    modified: u64,
    skip_active: bool,
)
    ensures
        action_views(final(actions)@) == action_views(old(actions)@) + cd_fanout(
            kinds@,
            if skip_active {
                skip as int
            } else {
                -1
            },
            path@,
            modified,
            kinds@.len() as int,
        ),
{
    let ghost sk: int = if skip_active {
        skip as int
    } else {
        -1
    };
    let ghost a0 = action_views(actions@);
    let mut i: usize = 0;
    while i < kinds.len()
        invariant
            i <= kinds@.len(),
            sk == if skip_active {
                skip as int
            } else {
                -1
            },
            action_views(actions@) == a0 + cd_fanout(kinds@, sk, path@, modified, i as int),
        decreases kinds@.len() - i,
    {
        let ghost a1 = action_views(actions@);
        let skipped = skip_active && i == skip;
        if !skipped {
            match kinds[i] {
                LocationKind::Archive => {},
                _ => {
                    actions.push(
                        SyncAction::CreateDir { loc: i, path: path.to_owned(), modified },
                    );
                    proof {
                        assert(action_views(actions@) =~= a1.push(actions@.last()@));
                    }
                },
            }
        }
        i = i + 1;
    }
}

/// One location's poll pass.  Records absent from the listing are
/// treated as deletions and propagated everywhere non-archive — unless
/// this location is an archive, whose absences mean nothing, or the
/// directory is named in `pass_created` (created earlier in the same
/// pass against listings that could not show it yet).  Listed
/// directories not yet recorded are created on every other non-archive
/// location.  Listed files that are new or whose hash changed are
/// returned for re-reconciling through [`sync_file`].
#[verifier::loop_isolation(false)]
pub fn poll_location(
    loc_index: usize,
    kinds: &Vec<LocationKind>,
    listing: &LocationListing,
    pass_created: &Vec<String>,
    sync_state: &mut SyncState,
) -> (r: (Vec<SyncAction>, Vec<String>))
    requires
        old(sync_state).wf(),
        loc_index < kinds@.len(),
    ensures
        final(sync_state).wf(),
        poll_step_ok(
            kinds@,
            loc_index as int,
            listing@,
            seq_views(pass_created@),
            *old(sync_state),
            *final(sync_state),
            action_views(r.0@),
            seq_views(r.1@),
        ),
{
    let ghost st0 = *sync_state;
    let ghost l = listing@;
    let ghost ks = kinds@;
    let mut actions: Vec<SyncAction> = Vec::new();
    let is_archive = match listing.kind {
        LocationKind::Archive => true,
        _ => false,
    };

    // Dropped directories, in record order.
    let ghost dvec = crate::locations::dir_views(st0.dir_metadata@);
    let ghost ex = seq_views(pass_created@);
    let mut removed_dirs: Vec<String> = Vec::new();
    let mut i: usize = 0;
    proof {
        assert(seq_views(removed_dirs@) =~= dir_removed_paths(dvec.take(0), l, ex));
    }
    while i < sync_state.dir_metadata.len()
        invariant
            *sync_state == st0,
            dvec == crate::locations::dir_views(st0.dir_metadata@),
            ex == seq_views(pass_created@),
            i <= dvec.len(),
            seq_views(removed_dirs@) == dir_removed_paths(dvec.take(i as int), l, ex),
        decreases dvec.len() - i,
    {
        let ghost r0 = seq_views(removed_dirs@);
        let present = find_dir_record(&listing.dirs, sync_state.dir_metadata[i].path.as_str());
        let exempted = path_in_list(pass_created, sync_state.dir_metadata[i].path.as_str());
        match present {
            Some(_) => {},
            None => {
                if !exempted {
                    removed_dirs.push(sync_state.dir_metadata[i].path.clone());
                    proof {
                        assert(seq_views(removed_dirs@) =~= r0.push(dvec[i as int].path));
                    }
                }
            },
        }
        i = i + 1;
        proof {
            let t = dvec.take(i as int);
            assert(t.drop_last() =~= dvec.take(i as int - 1));
            assert(t.last() == dvec[i as int - 1]);
            assert(seq_views(removed_dirs@) =~= dir_removed_paths(t, l, ex));
        }
    }
    proof {
        assert(dvec.take(dvec.len() as int) =~= dvec);
    }
    let ghost removed_d = dir_removed_paths(dvec, l, ex);

    // Dropped files, in record order.
    let ghost fvec = crate::locations::file_views(st0.file_metadata@);
    let mut removed_files: Vec<String> = Vec::new();
    let mut i2: usize = 0;
    proof {
        assert(seq_views(removed_files@) =~= file_removed_paths(fvec.take(0), l));
    }
    while i2 < sync_state.file_metadata.len()
        invariant
            *sync_state == st0,
            fvec == crate::locations::file_views(st0.file_metadata@),
            i2 <= fvec.len(),
            seq_views(removed_files@) == file_removed_paths(fvec.take(i2 as int), l),
        decreases fvec.len() - i2,
    {
        let ghost r0 = seq_views(removed_files@);
        let present = find_file_record(&listing.files, sync_state.file_metadata[i2].path.as_str());
        match present {
            Some(_) => {},
            None => {
                removed_files.push(sync_state.file_metadata[i2].path.clone());
                proof {
                    assert(seq_views(removed_files@) =~= r0.push(fvec[i2 as int].path));
                }
            },
        }
        i2 = i2 + 1;
        proof {
            let t = fvec.take(i2 as int);
            assert(t.drop_last() =~= fvec.take(i2 as int - 1));
            assert(t.last() == fvec[i2 as int - 1]);
            assert(seq_views(removed_files@) =~= file_removed_paths(t, l));
        }
    }
    proof {
        assert(fvec.take(fvec.len() as int) =~= fvec);
    }
    let ghost removed_f = file_removed_paths(fvec, l);

    // Directory deletions.
    if !is_archive {
        let mut j: usize = 0;
        proof {
            assert(removed_d.take(0) =~= Seq::<Seq<char>>::empty());
        }
        while j < removed_dirs.len()
            invariant
                sync_state.wf(),
                seq_views(removed_dirs@) == removed_d,
                j <= removed_d.len(),
                sync_state.dirs() == remove_dir_paths(st0.dirs(), removed_d.take(j as int)),
                sync_state.files() == st0.files(),
                action_views(actions@) == dir_removal_actions(ks, removed_d.take(j as int)),
            decreases removed_d.len() - j,
        {
            let rd = &removed_dirs[j];
            proof {
                assert(seq_views(removed_dirs@)[j as int] == rd@);
            }
            if !is_removal_exempt(rd.as_str()) {
                sync_state.remove_dir(rd.as_str());
                push_rd_fanout(&mut actions, kinds, rd.as_str());
            }
            j = j + 1;
            proof {
                let t = removed_d.take(j as int);
                assert(t.drop_last() =~= removed_d.take(j as int - 1));
                assert(t.last() == rd@);
                assert(sync_state.dirs() =~= remove_dir_paths(st0.dirs(), t));
                assert(action_views(actions@) =~= dir_removal_actions(ks, t));
            }
        }
        proof {
            assert(removed_d.take(removed_d.len() as int) =~= removed_d);
        }
    }
    let ghost m_rm_d = if l.kind is Archive {
        st0.dirs()
    } else {
        remove_dir_paths(st0.dirs(), removed_d)
    };
    let ghost a_after_rd = action_views(actions@);

    // New directories.
    let mut j2: usize = 0;
    proof {
        assert(l.dirs.take(0) =~= Seq::<DirRec>::empty());
    }
    while j2 < listing.dirs.len()
        invariant
            sync_state.wf(),
            j2 <= l.dirs.len(),
            l == listing@,
            ks == kinds@,
            loc_index < ks.len(),
            sync_state.files() == st0.files(),
            sync_state.dirs() == dir_creations(ks, loc_index as int, l.dirs.take(j2 as int), m_rm_d).1,
            action_views(actions@) == a_after_rd + dir_creations(
                ks,
                loc_index as int,
                l.dirs.take(j2 as int),
                m_rm_d,
            ).0,
        decreases l.dirs.len() - j2,
    {
        let d = &listing.dirs[j2];
        proof {
            assert(l.dirs[j2 as int] == d@);
        }
        if !sync_state.contains_dir(d.path.as_str()) {
            push_cd_fanout(&mut actions, kinds, loc_index, d.path.as_str(), d.modified, true);
            sync_state.update_dir(d.path.clone(), d.clone());
        }
        j2 = j2 + 1;
        proof {
            let t = l.dirs.take(j2 as int);
            assert(t.drop_last() =~= l.dirs.take(j2 as int - 1));
            assert(t.last() == d@);
            assert(sync_state.dirs() =~= dir_creations(ks, loc_index as int, t, m_rm_d).1);
            assert(action_views(actions@) =~= a_after_rd + dir_creations(
                ks,
                loc_index as int,
                t,
                m_rm_d,
            ).0);
        }
    }
    proof {
        assert(l.dirs.take(l.dirs.len() as int) =~= l.dirs);
    }
    let ghost a_after_cd = action_views(actions@);

    // File deletions.
    if !is_archive {
        let mut j3: usize = 0;
        proof {
            assert(removed_f.take(0) =~= Seq::<Seq<char>>::empty());
        }
        while j3 < removed_files.len()
            invariant
                sync_state.wf(),
                seq_views(removed_files@) == removed_f,
                j3 <= removed_f.len(),
                sync_state.files() == remove_file_paths(st0.files(), removed_f.take(j3 as int)),
                sync_state.dirs() == dir_creations(ks, loc_index as int, l.dirs, m_rm_d).1,
                action_views(actions@) == a_after_cd + file_removal_actions(
                    ks,
                    removed_f.take(j3 as int),
                ),
            decreases removed_f.len() - j3,
        {
            let rf = &removed_files[j3];
            proof {
                assert(seq_views(removed_files@)[j3 as int] == rf@);
            }
            push_df_fanout(&mut actions, kinds, rf.as_str());
            sync_state.remove_file(rf.as_str());
            j3 = j3 + 1;
            proof {
                let t = removed_f.take(j3 as int);
                assert(t.drop_last() =~= removed_f.take(j3 as int - 1));
                assert(t.last() == rf@);
                assert(sync_state.files() =~= remove_file_paths(st0.files(), t));
                assert(action_views(actions@) =~= a_after_cd + file_removal_actions(ks, t));
            }
        }
        proof {
            assert(removed_f.take(removed_f.len() as int) =~= removed_f);
        }
    }
    let ghost m_rm_f = if l.kind is Archive {
        st0.files()
    } else {
        remove_file_paths(st0.files(), removed_f)
    };

    // New or changed files.
    let mut to_sync: Vec<String> = Vec::new();
    let mut j4: usize = 0;
    proof {
        assert(l.files.take(0) =~= Seq::<FileRec>::empty());
        assert(seq_views(to_sync@) =~= to_sync_list(l.files.take(0), m_rm_f));
    }
    while j4 < listing.files.len()
        invariant
            sync_state.wf(),
            j4 <= l.files.len(),
            l == listing@,
            sync_state.files() == m_rm_f,
            sync_state.dirs() == dir_creations(ks, loc_index as int, l.dirs, m_rm_d).1,
            action_views(actions@) == a_after_cd + (if l.kind is Archive {
                Seq::<SyncActionV>::empty()
            } else {
                file_removal_actions(ks, removed_f)
            }),
            seq_views(to_sync@) == to_sync_list(l.files.take(j4 as int), m_rm_f),
        decreases l.files.len() - j4,
    {
        let f = &listing.files[j4];
        proof {
            assert(l.files[j4 as int] == f@);
        }
        let ghost ts0 = seq_views(to_sync@);
        let changed = match sync_state.get_file(f.path.as_str()) {
            Some(m) => !hash_eq(&m.hash, &f.hash),
            None => true,
        };
        if changed {
            to_sync.push(f.path.clone());
            proof {
                assert(seq_views(to_sync@) =~= ts0.push(f@.path));
            }
        }
        j4 = j4 + 1;
        proof {
            let t = l.files.take(j4 as int);
            assert(t.drop_last() =~= l.files.take(j4 as int - 1));
            assert(t.last() == f@);
            assert(seq_views(to_sync@) =~= to_sync_list(t, m_rm_f));
        }
    }
    proof {
        assert(l.files.take(l.files.len() as int) =~= l.files);
        assert(action_views(actions@) =~= (if l.kind is Archive {
            Seq::<SyncActionV>::empty()
        } else {
            dir_removal_actions(ks, removed_d)
        }) + dir_creations(ks, loc_index as int, l.dirs, m_rm_d).0 + (if l.kind is Archive {
            Seq::<SyncActionV>::empty()
        } else {
            file_removal_actions(ks, removed_f)
        }));
    }
    (actions, to_sync)
}

/// The concatenation of a sequence of sequences, in order.
pub open spec fn concat_all<T>(s: Seq<Seq<T>>) -> Seq<T>
    decreases s.len(),
{
    if s.len() == 0 {
        Seq::empty()
    } else {
        concat_all(s.drop_last()) + s.last()
    }
}

/// The listed directory paths not yet recorded: the directories one
/// poll step creates and records.
pub open spec fn new_dir_paths_of(ds: Seq<DirRec>, m: Map<Seq<char>, DirRec>) -> Seq<Seq<char>>
    decreases ds.len(),
{
    if ds.len() == 0 {
        Seq::empty()
    } else {
        let pre = new_dir_paths_of(ds.drop_last(), m);
        if !m.contains_key(ds.last().path) {
            pre.push(ds.last().path)
        } else {
            pre
        }
    }
}

/// Whether `sts` is the chain of states of one poll pass over the
/// listings, with `aps` and `tps` the per-location actions and
/// re-reconcile lists, and `exs` the growing set of directories the
/// pass itself created, exempt from later steps' removal diffs.
pub open spec fn poll_chain(
    ks: Seq<LocationKind>,
    lv: Seq<ListingV>,
    sts: Seq<SyncState>,
    aps: Seq<Seq<SyncActionV>>,
    tps: Seq<Seq<Seq<char>>>,
    exs: Seq<Seq<Seq<char>>>,
) -> bool {
    &&& sts.len() == lv.len() + 1
    &&& aps.len() == lv.len()
    &&& tps.len() == lv.len()
    &&& exs.len() == lv.len() + 1
    &&& exs[0] == Seq::<Seq<char>>::empty()
    &&& forall|i: int|
        0 <= i < lv.len() ==> #[trigger] exs[i + 1] == exs[i] + new_dir_paths_of(
            lv[i].dirs,
            sts[i].dirs(),
        )
    &&& forall|i: int|
        0 <= i < lv.len() ==> poll_step_ok(
            ks,
            i,
            lv[i],
            exs[i],
            sts[i],
            sts[i + 1],
            aps[i],
            tps[i],
        )
}

/// The poll pass over every location in turn, against one fixed set of
/// listings: each location's absences propagate as deletions (archives
/// excepted), new directories are mirrored, and the changed paths of
/// all locations are returned for re-reconciling.  A directory the
/// pass itself creates is exempt from the later steps' removal diffs,
/// whose fixed listings could not show it yet.
#[verifier::loop_isolation(false)]
pub fn poll_locations(
    kinds: &Vec<LocationKind>,
    listings: &Vec<LocationListing>,
    sync_state: &mut SyncState,
) -> (r: (Vec<SyncAction>, Vec<String>))
    requires
        old(sync_state).wf(),
        kinds@.len() == listings@.len(),
    ensures
        final(sync_state).wf(),
        exists|
            sts: Seq<SyncState>,
            aps: Seq<Seq<SyncActionV>>,
            tps: Seq<Seq<Seq<char>>>,
            exs: Seq<Seq<Seq<char>>>,
        |
            poll_chain(kinds@, listing_views(listings@), sts, aps, tps, exs) && sts[0] == *old(
                sync_state,
            ) && sts[listings@.len() as int] == *final(sync_state) && action_views(r.0@)
                == concat_all(aps) && seq_views(r.1@) == concat_all(tps),
{
    let ghost lv = listing_views(listings@);
    let mut actions: Vec<SyncAction> = Vec::new();
    let mut to_sync: Vec<String> = Vec::new();
    let mut created: Vec<String> = Vec::new();
    let ghost mut sts: Seq<SyncState> = seq![*sync_state];
    let ghost mut aps: Seq<Seq<SyncActionV>> = Seq::empty();
    let ghost mut tps: Seq<Seq<Seq<char>>> = Seq::empty();
    let ghost mut exs: Seq<Seq<Seq<char>>> = seq![Seq::<Seq<char>>::empty()];
    let mut i: usize = 0;
    proof {
        assert(action_views(actions@) =~= concat_all(aps));
        assert(seq_views(to_sync@) =~= concat_all(tps));
        assert(seq_views(created@) =~= Seq::<Seq<char>>::empty());
    }
    while i < listings.len()
        invariant
            sync_state.wf(),
            i <= listings@.len(),
            lv == listing_views(listings@),
            kinds@.len() == listings@.len(),
            sts.len() == i + 1,
            aps.len() == i,
            tps.len() == i,
            exs.len() == i + 1,
            sts[0] == *old(sync_state),
            sts[i as int] == *sync_state,
            exs[0] == Seq::<Seq<char>>::empty(),
            exs[i as int] == seq_views(created@),
            forall|k: int|
                0 <= k < i ==> #[trigger] exs[k + 1] == exs[k] + new_dir_paths_of(
                    lv[k].dirs,
                    sts[k].dirs(),
                ),
            forall|k: int|
                0 <= k < i ==> poll_step_ok(
                    kinds@,
                    k,
                    lv[k],
                    exs[k],
                    sts[k],
                    sts[k + 1],
                    aps[k],
                    tps[k],
                ),
            action_views(actions@) == concat_all(aps),
            seq_views(to_sync@) == concat_all(tps),
        decreases listings@.len() - i,
    {
        proof {
            assert(lv[i as int] == listings@[i as int]@);
        }
        // The directories this step will create, collected against the
        // state as it stands.
        let listing = &listings[i];
        let mut new_dirs: Vec<String> = Vec::new();
        let mut j: usize = 0;
        proof {
            assert(seq_views(new_dirs@) =~= new_dir_paths_of(
                lv[i as int].dirs.take(0),
                sync_state.dirs(),
            ));
        }
        while j < listing.dirs.len()
            invariant
                i < listings@.len(),
                lv == listing_views(listings@),
                listing == &listings@[i as int],
                sync_state.wf(),
                *sync_state == sts[i as int],
                j <= lv[i as int].dirs.len(),
                seq_views(new_dirs@) == new_dir_paths_of(
                    lv[i as int].dirs.take(j as int),
                    sync_state.dirs(),
                ),
            decreases lv[i as int].dirs.len() - j,
        {
            let ghost nd0 = seq_views(new_dirs@);
            proof {
                assert(lv[i as int].dirs[j as int] == listing.dirs@[j as int]@);
            }
            if !sync_state.contains_dir(listing.dirs[j].path.as_str()) {
                new_dirs.push(listing.dirs[j].path.clone());
                proof {
                    assert(seq_views(new_dirs@) =~= nd0.push(lv[i as int].dirs[j as int].path));
                }
            }
            j = j + 1;
            proof {
                let t = lv[i as int].dirs.take(j as int);
                assert(t.drop_last() =~= lv[i as int].dirs.take(j as int - 1));
                assert(t.last() == lv[i as int].dirs[j as int - 1]);
                assert(seq_views(new_dirs@) =~= new_dir_paths_of(t, sync_state.dirs()));
            }
        }
        proof {
            assert(lv[i as int].dirs.take(lv[i as int].dirs.len() as int) =~= lv[i as int].dirs);
        }
        let (mut a, mut t) = poll_location(i, kinds, &listings[i], &created, sync_state);
        let ghost av = action_views(a@);
        let ghost tv = seq_views(t@);
        let ghost actions0 = actions@;
        let ghost to_sync0 = to_sync@;
        let ghost created0 = created@;
        let ghost sts0 = sts;
        let ghost aps0 = aps;
        let ghost tps0 = tps;
        let ghost exs0 = exs;
        actions.append(&mut a);
        to_sync.append(&mut t);
        created.append(&mut new_dirs);
        proof {
            sts = sts0.push(*sync_state);
            aps = aps0.push(av);
            tps = tps0.push(tv);
            exs = exs0.push(
                exs0.last() + new_dir_paths_of(lv[i as int].dirs, sts0.last().dirs()),
            );
        }
        i = i + 1;
        proof {
            assert(aps.drop_last() =~= aps0);
            assert(aps.last() == av);
            assert(concat_all(aps) == concat_all(aps0) + av);
            assert(action_views(actions@) =~= action_views(actions0) + av);
            assert(tps.drop_last() =~= tps0);
            assert(tps.last() == tv);
            assert(concat_all(tps) == concat_all(tps0) + tv);
            assert(seq_views(to_sync@) =~= seq_views(to_sync0) + tv);
            assert(seq_views(created@) =~= exs[i as int]);
            assert(forall|k: int| 0 <= k < i - 1 ==> #[trigger] sts[k] == sts0[k]);
            assert(forall|k: int| 0 <= k < i ==> #[trigger] aps[k] == if k < i - 1 {
                aps0[k]
            } else {
                av
            });
            assert(forall|k: int| 0 <= k < i ==> #[trigger] tps[k] == if k < i - 1 {
                tps0[k]
            } else {
                tv
            });
            assert(forall|k: int| 0 <= k < i ==> #[trigger] exs[k] == exs0[k]);
        }
    }
    proof {
        assert(poll_chain(kinds@, lv, sts, aps, tps, exs));
        assert(sts[listings@.len() as int] == *sync_state);
        assert(action_views(actions@) == concat_all(aps));
        assert(seq_views(to_sync@) == concat_all(tps));
    }
    (actions, to_sync)
}

/// One change reported by the local filesystem watcher.
#[derive(Debug)]
pub enum LocalEventKind {
    /// A file or directory appeared; `is_dir` and `modified` come from
    /// its metadata.
    Create { is_dir: bool, modified: u64 },
    /// A file's data changed.
    ModifyData,
    /// A file or directory disappeared.
    Remove { is_dir: bool },
    /// Anything else; ignored.
    Other,
}

/// One watcher event, with the reported absolute path.
#[derive(Debug)]
pub struct LocalEvent {
    pub kind: LocalEventKind,
    pub path: String,
}

/// The endpoint-relative path of an event: the path with the watched
/// folder's root stripped, or the path itself where there is no root or
/// the root is no prefix of it.
pub open spec fn event_rel_path(path: Seq<char>, root: Option<Seq<char>>) -> Seq<char> {
    match root {
        Some(r) => match crate::strutil::spec_strip_prefix(path, r) {
            Some(rel) => rel,
            None => path,
        },
        None => path,
    }
}

/// Routes one watcher event.  A created directory is mirrored on every
/// non-archive location and recorded; a created or modified file is
/// returned for re-reconciling; a removal is propagated to every
/// non-archive location and dropped from the state; other events do
/// nothing.
#[verifier::loop_isolation(false)]
pub fn handle_local_event(
    event: &LocalEvent,
    kinds: &Vec<LocationKind>,
    folder_root: Option<&String>,
    sync_state: &mut SyncState,
) -> (r: (Vec<SyncAction>, Vec<String>))
    requires
        old(sync_state).wf(),
    ensures
        final(sync_state).wf(),
        ({
            let rel = event_rel_path(
                event.path@,
                match folder_root {
                    Some(s) => Some(s@),
                    None => None,
                },
            );
            let ks = kinds@;
            let n = ks.len() as int;
            match event.kind {
                LocalEventKind::Create { is_dir, modified } => if is_dir {
                    action_views(r.0@) == cd_fanout(ks, -1, rel, modified, n) && seq_views(
                        r.1@,
                    ).len() == 0 && final(sync_state).dirs() == old(sync_state).dirs().insert(
                        rel,
                        DirRec { path: rel, modified },
                    ) && final(sync_state).files() == old(sync_state).files()
                } else {
                    action_views(r.0@).len() == 0 && seq_views(r.1@) == seq![rel]
                        && *final(sync_state) == *old(sync_state)
                },
                LocalEventKind::ModifyData => action_views(r.0@).len() == 0 && seq_views(r.1@)
                    == seq![rel] && *final(sync_state) == *old(sync_state),
                LocalEventKind::Remove { is_dir } => if is_dir {
                    action_views(r.0@) == rd_fanout(ks, rel, n) && seq_views(r.1@).len() == 0
                        && final(sync_state).dirs() == old(sync_state).dirs().remove(rel)
                        && final(sync_state).files() == old(sync_state).files()
                } else {
                    action_views(r.0@) == df_fanout(ks, rel, n) && seq_views(r.1@).len() == 0
                        && final(sync_state).files() == old(sync_state).files().remove(rel)
                        && final(sync_state).dirs() == old(sync_state).dirs()
                },
                LocalEventKind::Other => action_views(r.0@).len() == 0 && seq_views(r.1@).len()
                    == 0 && *final(sync_state) == *old(sync_state),
            }
        }),
{
    let rel: String = match folder_root {
        Some(root) => match crate::strutil::strip_path_prefix(event.path.as_str(), root.as_str()) {
            Some(rel) => rel,
            None => event.path.clone(),
        },
        None => event.path.clone(),
    };
    let mut actions: Vec<SyncAction> = Vec::new();
    let mut to_sync: Vec<String> = Vec::new();
    match &event.kind {
        LocalEventKind::Create { is_dir, modified } => {
            if *is_dir {
                push_cd_fanout(&mut actions, kinds, 0, rel.as_str(), *modified, false);
                let m = *modified;
                sync_state.update_dir(rel.clone(), DirMetadata { path: rel, modified: m });
            } else {
                to_sync.push(rel);
            }
        },
        LocalEventKind::ModifyData => {
            to_sync.push(rel);
        },
        LocalEventKind::Remove { is_dir } => {
            if *is_dir {
                push_rd_fanout(&mut actions, kinds, rel.as_str());
                sync_state.remove_dir(rel.as_str());
            } else {
                push_df_fanout(&mut actions, kinds, rel.as_str());
                sync_state.remove_file(rel.as_str());
            }
        },
        LocalEventKind::Other => {},
    }
    proof {
        match event.kind {
            LocalEventKind::Create { is_dir, modified } => {
                if !is_dir {
                    assert(seq_views(to_sync@) =~= seq![rel@]);
                }
            },
            LocalEventKind::ModifyData => {
                assert(seq_views(to_sync@) =~= seq![rel@]);
            },
            _ => {},
        }
    }
    (actions, to_sync)
}

proof fn lemma_map_no_key(v: Seq<FileMetadata>, p: Seq<char>)
    requires
        forall|k: int| 0 <= k < v.len() ==> v[k]@.path != p,
    ensures
        !files_map(v).contains_key(p),
    decreases v.len(),
{
    if v.len() > 0 {
        assert(forall|k: int| 0 <= k < v.drop_last().len() ==> v.drop_last()[k]@.path != p);
        lemma_map_no_key(v.drop_last(), p);
    }
}

proof fn lemma_dirs_map_no_key(v: Seq<DirMetadata>, p: Seq<char>)
    requires
        forall|k: int| 0 <= k < v.len() ==> v[k]@.path != p,
    ensures
        !dirs_map(v).contains_key(p),
    decreases v.len(),
{
    if v.len() > 0 {
        assert(forall|k: int| 0 <= k < v.drop_last().len() ==> v.drop_last()[k]@.path != p);
        lemma_dirs_map_no_key(v.drop_last(), p);
    }
}

proof fn lemma_files_map_index(v: Seq<FileMetadata>, i: int)
    requires
        0 <= i < v.len(),
        forall|k1: int, k2: int| 0 <= k1 < k2 < v.len() ==> v[k1]@.path != v[k2]@.path,
    ensures
        files_map(v).contains_key(v[i]@.path),
        files_map(v)[v[i]@.path] == v[i]@,
    decreases v.len(),
{
    if i == v.len() - 1 {
    } else {
        assert(forall|k1: int, k2: int|
            0 <= k1 < k2 < v.drop_last().len() ==> v.drop_last()[k1]@.path
                != v.drop_last()[k2]@.path);
        assert(v.drop_last()[i] == v[i]);
        lemma_files_map_index(v.drop_last(), i);
        assert(v.last()@.path != v[i]@.path);
    }
}

proof fn lemma_dirs_map_index(v: Seq<DirMetadata>, i: int)
    requires
        0 <= i < v.len(),
        forall|k1: int, k2: int| 0 <= k1 < k2 < v.len() ==> v[k1]@.path != v[k2]@.path,
    ensures
        dirs_map(v).contains_key(v[i]@.path),
        dirs_map(v)[v[i]@.path] == v[i]@,
    decreases v.len(),
{
    if i == v.len() - 1 {
    } else {
        assert(forall|k1: int, k2: int|
            0 <= k1 < k2 < v.drop_last().len() ==> v.drop_last()[k1]@.path
                != v.drop_last()[k2]@.path);
        assert(v.drop_last()[i] == v[i]);
        lemma_dirs_map_index(v.drop_last(), i);
        assert(v.last()@.path != v[i]@.path);
    }
}

proof fn lemma_files_map_update(v0: Seq<FileMetadata>, v1: Seq<FileMetadata>, i: int, m: FileRec)
    requires
        0 <= i < v0.len(),
        v1.len() == v0.len(),
        forall|k: int| 0 <= k < v0.len() && k != i ==> v1[k] == v0[k],
        v1[i]@ == m,
        v0[i]@.path == m.path,
        forall|k1: int, k2: int| 0 <= k1 < k2 < v0.len() ==> v0[k1]@.path != v0[k2]@.path,
    ensures
        forall|k1: int, k2: int| 0 <= k1 < k2 < v1.len() ==> v1[k1]@.path != v1[k2]@.path,
        files_map(v1) == files_map(v0).insert(m.path, m),
    decreases v0.len(),
{
    assert(forall|k1: int, k2: int| 0 <= k1 < k2 < v1.len() ==> v1[k1]@.path != v1[k2]@.path);
    if i == v0.len() - 1 {
        assert(v1.drop_last() =~= v0.drop_last());
        assert(files_map(v1) =~= files_map(v0).insert(m.path, m));
    } else {
        assert(v1.drop_last()[i] == v1[i]);
        assert(forall|k: int|
            0 <= k < v0.drop_last().len() && k != i ==> v1.drop_last()[k] == v0.drop_last()[k]);
        assert(forall|k1: int, k2: int|
            0 <= k1 < k2 < v0.drop_last().len() ==> v0.drop_last()[k1]@.path
                != v0.drop_last()[k2]@.path);
        lemma_files_map_update(v0.drop_last(), v1.drop_last(), i, m);
        assert(v1.last() == v0.last());
        assert(v0.last()@.path != m.path);
        assert(files_map(v1) =~= files_map(v0).insert(m.path, m));
    }
}

proof fn lemma_dirs_map_update(v0: Seq<DirMetadata>, v1: Seq<DirMetadata>, i: int, m: DirRec)
    requires
        0 <= i < v0.len(),
        v1.len() == v0.len(),
        forall|k: int| 0 <= k < v0.len() && k != i ==> v1[k] == v0[k],
        v1[i]@ == m,
        v0[i]@.path == m.path,
        forall|k1: int, k2: int| 0 <= k1 < k2 < v0.len() ==> v0[k1]@.path != v0[k2]@.path,
    ensures
        forall|k1: int, k2: int| 0 <= k1 < k2 < v1.len() ==> v1[k1]@.path != v1[k2]@.path,
        dirs_map(v1) == dirs_map(v0).insert(m.path, m),
    decreases v0.len(),
{
    assert(forall|k1: int, k2: int| 0 <= k1 < k2 < v1.len() ==> v1[k1]@.path != v1[k2]@.path);
    if i == v0.len() - 1 {
        assert(v1.drop_last() =~= v0.drop_last());
        assert(dirs_map(v1) =~= dirs_map(v0).insert(m.path, m));
    } else {
        assert(v1.drop_last()[i] == v1[i]);
        assert(forall|k: int|
            0 <= k < v0.drop_last().len() && k != i ==> v1.drop_last()[k] == v0.drop_last()[k]);
        assert(forall|k1: int, k2: int|
            0 <= k1 < k2 < v0.drop_last().len() ==> v0.drop_last()[k1]@.path
                != v0.drop_last()[k2]@.path);
        lemma_dirs_map_update(v0.drop_last(), v1.drop_last(), i, m);
        assert(v1.last() == v0.last());
        assert(v0.last()@.path != m.path);
        assert(dirs_map(v1) =~= dirs_map(v0).insert(m.path, m));
    }
}

proof fn lemma_files_map_remove(v0: Seq<FileMetadata>, v1: Seq<FileMetadata>, i: int)
    requires
        0 <= i < v0.len(),
        v1 == v0.remove(i),
        forall|k1: int, k2: int| 0 <= k1 < k2 < v0.len() ==> v0[k1]@.path != v0[k2]@.path,
    ensures
        forall|k1: int, k2: int| 0 <= k1 < k2 < v1.len() ==> v1[k1]@.path != v1[k2]@.path,
        files_map(v1) == files_map(v0).remove(v0[i]@.path),
    decreases v0.len(),
{
    assert(forall|k1: int, k2: int| 0 <= k1 < k2 < v1.len() ==> v1[k1]@.path != v1[k2]@.path);
    if i == v0.len() - 1 {
        assert(v1 =~= v0.drop_last());
        lemma_map_no_key_distinct(v0.drop_last(), v0.last()@.path);
        assert(files_map(v1) =~= files_map(v0).remove(v0[i]@.path));
    } else {
        assert(v1.drop_last() =~= v0.drop_last().remove(i));
        assert(forall|k1: int, k2: int|
            0 <= k1 < k2 < v0.drop_last().len() ==> v0.drop_last()[k1]@.path
                != v0.drop_last()[k2]@.path);
        lemma_files_map_remove(v0.drop_last(), v0.drop_last().remove(i), i);
        assert(v1.last() == v0.last());
        assert(v0.drop_last()[i] == v0[i]);
        assert(v0.last()@.path != v0[i]@.path);
        assert(files_map(v1) =~= files_map(v0).remove(v0[i]@.path));
    }
}

proof fn lemma_map_no_key_distinct(v: Seq<FileMetadata>, p: Seq<char>)
    requires
        forall|k: int| 0 <= k < v.len() ==> v[k]@.path != p,
    ensures
        !files_map(v).contains_key(p),
{
    lemma_map_no_key(v, p);
}

proof fn lemma_dirs_map_remove(v0: Seq<DirMetadata>, v1: Seq<DirMetadata>, i: int)
    requires
        0 <= i < v0.len(),
        v1 == v0.remove(i),
        forall|k1: int, k2: int| 0 <= k1 < k2 < v0.len() ==> v0[k1]@.path != v0[k2]@.path,
    ensures
        forall|k1: int, k2: int| 0 <= k1 < k2 < v1.len() ==> v1[k1]@.path != v1[k2]@.path,
        dirs_map(v1) == dirs_map(v0).remove(v0[i]@.path),
    decreases v0.len(),
{
    assert(forall|k1: int, k2: int| 0 <= k1 < k2 < v1.len() ==> v1[k1]@.path != v1[k2]@.path);
    if i == v0.len() - 1 {
        assert(v1 =~= v0.drop_last());
        lemma_dirs_map_no_key(v0.drop_last(), v0.last()@.path);
        assert(dirs_map(v1) =~= dirs_map(v0).remove(v0[i]@.path));
    } else {
        assert(v1.drop_last() =~= v0.drop_last().remove(i));
        assert(forall|k1: int, k2: int|
            0 <= k1 < k2 < v0.drop_last().len() ==> v0.drop_last()[k1]@.path
                != v0.drop_last()[k2]@.path);
        lemma_dirs_map_remove(v0.drop_last(), v0.drop_last().remove(i), i);
        assert(v1.last() == v0.last());
        assert(v0.drop_last()[i] == v0[i]);
        assert(v0.last()@.path != v0[i]@.path);
        assert(dirs_map(v1) =~= dirs_map(v0).remove(v0[i]@.path));
    }
}

} // verus!
