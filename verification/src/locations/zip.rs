//! The archive endpoint: a read-only view over a zip-format file.  The
//! driver enumerates the archive's members; this module holds the
//! descriptor and the verified record construction: hashing member
//! bytes, and deriving the directory set from member names.

use vstd::prelude::*;

use crate::hashing::{sha256_hex, sha256_hex_string};
use crate::locations::{dir_views, DirMetadata, FileMetadata};
use crate::strutil::{path_components, seq_views, spec_components, spec_join, str_eq};
use vstd::string::*;

verus! {

/// A read-only zip archive at a local path.
#[derive(Debug)]
pub struct ZipLocation {
    pub path: String,
}

impl ZipLocation {
    pub fn new(path: &str) -> (r: Self)
        ensures
            r.path@ == path@,
    {
        ZipLocation { path: path.to_owned() }
    }
}

/// One archive member as the driver reports it: its name and whether
/// the member is marked as a directory.
#[derive(Debug)]
pub struct ZipEntryMeta {
    pub name: String,
    pub is_dir: bool,
}

/// The views of a sequence of archive members.
pub open spec fn zip_entry_views(v: Seq<ZipEntryMeta>) -> Seq<(Seq<char>, bool)> {
    v.map_values(|e: ZipEntryMeta| (e.name@, e.is_dir))
}

/// The proper ancestor paths of `path`, nearest first, down to the empty
/// path: for the components `c1/…/cn` these are `c1/…/c(n-1)` through
/// the empty prefix.
pub open spec fn spec_extract_directories(path: Seq<char>) -> Seq<Seq<char>> {
    let comps = spec_components(path);
    Seq::new(comps.len(), |i: int| spec_join(comps.take(comps.len() - 1 - i), '/'))
}

/// The ancestor directories inferred from one member path.
pub fn extract_directories(path: &str) -> (r: Vec<String>)
    ensures
        seq_views(r@) == spec_extract_directories(path@),
{
    let comps = path_components(path);
    let n = comps.len();
    let ghost cviews = spec_components(path@);
    let mut out: Vec<String> = Vec::new();
    let mut k: usize = n;
    while k > 0
        invariant
            n == cviews.len(),
            seq_views(comps@) == cviews,
            k <= n,
            seq_views(out@).len() == n - k,
            forall|i: int|
                0 <= i < n - k ==> seq_views(out@)[i] == spec_join(cviews.take(n - 1 - i), '/'),
        decreases k,
    {
        k = k - 1;
        let joined = join_prefix(&comps, k);
        let ghost out0 = out@;
        let ghost jview = joined@;
        out.push(joined);
        proof {
            assert forall|i: int|
                0 <= i < n - k implies seq_views(out@)[i] == spec_join(
                cviews.take(n - 1 - i),
                '/',
            ) by {
                assert(seq_views(out@)[i] == out@[i]@);
                if i < n - k - 1 {
                    assert(out@[i] == out0[i]);
                    assert(seq_views(out0)[i] == out0[i]@);
                } else {
                    assert(out@[i]@ == jview);
                }
            }
        }
    }
    proof {
        assert(seq_views(out@) =~= spec_extract_directories(path@));
    }
    out
}

/// Joins the first `k` parts with `/`.
fn join_prefix(parts: &Vec<String>, k: usize) -> (r: String)
    requires
        k <= parts@.len(),
    ensures
        r@ == spec_join(seq_views(parts@).take(k as int), '/'),
{
    let ghost whole = seq_views(parts@).take(k as int);
    let mut r = String::new();
    let mut i: usize = 0;
    proof {
        assert(whole.take(0) =~= Seq::<Seq<char>>::empty());
    }
    while i < k
        invariant
            k <= parts@.len(),
            i <= k,
            whole == seq_views(parts@).take(k as int),
            r@ == spec_join(whole.take(i as int), '/'),
        decreases k - i,
    {
        if i > 0 {
            r.append("/");
            proof {
                reveal_strlit("/");
                assert("/"@ =~= seq!['/']);
            }
        }
        r.append(parts[i].as_str());
        i = i + 1;
        proof {
            assert(whole.take(i as int).drop_last() =~= whole.take(i as int - 1));
            assert(whole.take(i as int).last() == whole[i as int - 1]);
            if i == 1 {
                assert(r@ =~= spec_join(whole.take(1), '/'));
            }
        }
    }
    proof {
        assert(whole.take(k as int) =~= whole);
    }
    r
}

/// The file record the archive reports for one regular member: epoch
/// modification time and the hash of the member's bytes.
pub fn zip_file_record(name: String, data: &Vec<u8>) -> (r: FileMetadata)
    ensures
        r@.path == name@,
        r@.modified == 0,
        r@.hash == Some(sha256_hex(data@)),
{
    let hash = Some(sha256_hex_string(data));
    FileMetadata { path: name, modified: 0, hash }
}

/// The directory paths an archive reports: every non-empty explicit
/// directory member, and every non-empty ancestor inferred from any
/// member's path.
pub open spec fn zip_dir_set(entries: Seq<(Seq<char>, bool)>) -> Set<Seq<char>> {
    Set::new(
        |p: Seq<char>|
            p.len() > 0 && (exists|i: int|
                0 <= i < entries.len() && (entries[i].1 && entries[i].0 == p || spec_extract_directories(
                    entries[i].0,
                ).contains(p))),
    )
}

/// The raw directory candidates of a listing, entry by entry: each
/// non-empty explicit directory name, followed by the ancestors of the
/// entry's path.
pub open spec fn zip_dir_candidates(entries: Seq<(Seq<char>, bool)>) -> Seq<Seq<char>>
    decreases entries.len(),
{
    if entries.len() == 0 {
        Seq::empty()
    } else {
        let e = entries.last();
        zip_dir_candidates(entries.drop_last()) + (if e.1 && e.0.len() > 0 {
            seq![e.0]
        } else {
            Seq::empty()
        }) + spec_extract_directories(e.0)
    }
}

proof fn lemma_zip_dir_candidates_set(entries: Seq<(Seq<char>, bool)>, p: Seq<char>)
    requires
        p.len() > 0,
    ensures
        zip_dir_candidates(entries).contains(p) <==> zip_dir_set(entries).contains(p),
    decreases entries.len(),
{
    if entries.len() > 0 {
        let pre = entries.drop_last();
        let e = entries.last();
        lemma_zip_dir_candidates_set(pre, p);
        let whole = zip_dir_candidates(entries);
        let mid = if e.1 && e.0.len() > 0 {
            seq![e.0]
        } else {
            Seq::<Seq<char>>::empty()
        };
        assert(whole =~= zip_dir_candidates(pre) + mid + spec_extract_directories(e.0));
        if whole.contains(p) {
            let j = choose|j: int| 0 <= j < whole.len() && whole[j] == p;
            let n1 = zip_dir_candidates(pre).len() as int;
            let n2 = n1 + mid.len() as int;
            if j < n1 {
                assert(zip_dir_candidates(pre)[j] == p);
                assert(zip_dir_candidates(pre).contains(p));
                let k = choose|k: int|
                    0 <= k < pre.len() && (pre[k].1 && pre[k].0 == p || spec_extract_directories(
                        pre[k].0,
                    ).contains(p));
                assert(entries[k] == pre[k]);
                assert(zip_dir_set(entries).contains(p));
            } else if j < n2 {
                assert(e.1 && e.0 == p);
                assert(entries[entries.len() - 1] == e);
                assert(zip_dir_set(entries).contains(p));
            } else {
                assert(spec_extract_directories(e.0)[j - n2] == p);
                assert(spec_extract_directories(e.0).contains(p));
                assert(entries[entries.len() - 1] == e);
                assert(zip_dir_set(entries).contains(p));
            }
        }
        if zip_dir_set(entries).contains(p) {
            let k = choose|k: int|
                0 <= k < entries.len() && (entries[k].1 && entries[k].0 == p
                    || spec_extract_directories(entries[k].0).contains(p));
            if k < pre.len() {
                assert(pre[k] == entries[k]);
                assert(zip_dir_set(pre).contains(p));
                let j = choose|j: int|
                    0 <= j < zip_dir_candidates(pre).len() && zip_dir_candidates(pre)[j] == p;
                assert(whole[j] == p);
                assert(whole.contains(p));
            } else {
                if e.1 && e.0 == p {
                    assert(whole[zip_dir_candidates(pre).len() as int] == p);
                    assert(whole.contains(p));
                } else {
                    let x = choose|x: int|
                        0 <= x < spec_extract_directories(e.0).len() && spec_extract_directories(
                            e.0,
                        )[x] == p;
                    assert(whole[zip_dir_candidates(pre).len() + mid.len() + x] == p);
                    assert(whole.contains(p));
                }
            }
        }
    }
}

/// The directory records of an archive listing: each path of
/// [`zip_dir_set`] exactly once, with the epoch as modification time.
pub fn zip_dir_records(entries: &Vec<ZipEntryMeta>) -> (r: Vec<DirMetadata>)
    ensures
        forall|j: int| 0 <= j < r@.len() ==> r@[j]@.modified == 0,
        forall|j1: int, j2: int| 0 <= j1 < j2 < r@.len() ==> r@[j1]@.path != r@[j2]@.path,
        forall|p: Seq<char>|
            (exists|j: int| 0 <= j < r@.len() && r@[j]@.path == p) <==> zip_dir_set(
                zip_entry_views(entries@),
            ).contains(p),
{
    let ghost eviews = zip_entry_views(entries@);
    let mut candidates: Vec<String> = Vec::new();
    let mut i: usize = 0;
    proof {
        assert(seq_views(candidates@) =~= zip_dir_candidates(eviews.take(0)));
    }
    while i < entries.len()
        invariant
            eviews == zip_entry_views(entries@),
            i <= entries@.len(),
            seq_views(candidates@) == zip_dir_candidates(eviews.take(i as int)),
        decreases entries@.len() - i,
    {
        let entry = &entries[i];
        proof {
            assert(eviews[i as int] == (entry.name@, entry.is_dir));
        }
        if entry.is_dir && entry.name.as_str().unicode_len() > 0 {
            candidates.push(entry.name.clone());
        }
        let mut ancestors = extract_directories(entry.name.as_str());
        let ghost before_append = candidates@;
        candidates.append(&mut ancestors);
        i = i + 1;
        proof {
            let t = eviews.take(i as int);
            assert(t.drop_last() =~= eviews.take(i as int - 1));
            assert(t.last() == eviews[i as int - 1]);
            assert(seq_views(candidates@) =~= zip_dir_candidates(t));
        }
    }
    proof {
        assert(eviews.take(entries@.len() as int) =~= eviews);
    }
    // Dedup and drop empty paths.
    let mut out: Vec<DirMetadata> = Vec::new();
    let mut c: usize = 0;
    while c < candidates.len()
        invariant
            seq_views(candidates@) == zip_dir_candidates(eviews),
            c <= candidates@.len(),
            forall|j: int| 0 <= j < out@.len() ==> out@[j]@.modified == 0,
            forall|j1: int, j2: int| 0 <= j1 < j2 < out@.len() ==> out@[j1]@.path != out@[j2]@.path,
            forall|p: Seq<char>|
                #![trigger seq_views(candidates@).take(c as int).contains(p)]
                (p.len() > 0 && seq_views(candidates@).take(c as int).contains(p)) ==> (exists|j: int|
                    0 <= j < out@.len() && out@[j]@.path == p),
            forall|j: int|
                0 <= j < out@.len() ==> #[trigger] out@[j]@.path.len() > 0 && seq_views(
                    candidates@,
                ).take(c as int).contains(out@[j]@.path),
        decreases candidates@.len() - c,
    {
        let cand = &candidates[c];
        let ghost cview = cand@;
        let ghost out0 = out@;
        let ghost c0 = c as int;
        proof {
            assert(seq_views(candidates@)[c as int] == cview);
            assert(forall|j: int|
                0 <= j < out0.len() ==> #[trigger] out0[j]@.path.len() > 0 && seq_views(
                    candidates@,
                ).take(c0).contains(out0[j]@.path));
        }
        if cand.as_str().unicode_len() > 0 {
            let mut present = false;
            let mut j: usize = 0;
            while j < out.len()
                invariant
                    j <= out@.len(),
                    out@ == out0,
                    present == (exists|k: int| 0 <= k < j && out@[k]@.path == cview),
                    cview == cand@,
                decreases out@.len() - j,
            {
                if str_eq(out[j].path.as_str(), cand.as_str()) {
                    present = true;
                    proof {
                        assert(out@[j as int]@.path == cview);
                    }
                    j = out.len();
                } else {
                    j = j + 1;
                }
            }
            if !present {
                out.push(DirMetadata { path: cand.clone(), modified: 0 });
                proof {
                    assert(out@ == out0.push(out@[out0.len() as int]));
                    assert(out@[out0.len() as int]@.path == cview);
                }
            }
            proof {
                assert(exists|j: int| 0 <= j < out@.len() && out@[j]@.path == cview);
            }
        }
        c = c + 1;
        proof {
            let prev = seq_views(candidates@).take(c as int - 1);
            let tc = seq_views(candidates@).take(c as int);
            assert(tc.drop_last() =~= prev);
            assert(tc[c as int - 1] == cview);
            assert forall|p: Seq<char>|
                #![trigger tc.contains(p)]
                (p.len() > 0 && tc.contains(p)) implies (exists|j: int|
                    0 <= j < out@.len() && out@[j]@.path == p) by {
                let w = choose|w: int| 0 <= w < tc.len() && tc[w] == p;
                if w < c - 1 {
                    assert(prev[w] == p);
                    assert(prev.contains(p));
                    let j0 = choose|j0: int| 0 <= j0 < out0.len() && out0[j0]@.path == p;
                    assert(out@[j0] == out0[j0]);
                    assert(out@[j0]@.path == p);
                } else {
                    assert(p == cview);
                }
            }
            assert forall|j: int|
                0 <= j < out@.len() implies #[trigger] out@[j]@.path.len() > 0 && tc.contains(
                out@[j]@.path,
            ) by {
                let q = out@[j]@.path;
                if j < out0.len() {
                    assert(out@[j] == out0[j]);
                    assert(out0[j]@.path == q);
                    assert(out0[j]@.path.len() > 0);
                    assert(seq_views(candidates@).take(c0).contains(out0[j]@.path));
                    assert(prev =~= seq_views(candidates@).take(c0));
                    assert(prev.contains(q));
                    let w = choose|w: int| 0 <= w < prev.len() && prev[w] == q;
                    assert(tc[w] == q);
                    assert(tc.contains(q));
                } else {
                    assert(q == cview && cview.len() > 0);
                    assert(tc.contains(q));
                }
            }
            assert(seq_views(candidates@).take(c as int) == tc);
        }
    }
    proof {
        assert(seq_views(candidates@).take(c as int) =~= zip_dir_candidates(eviews));
        assert forall|p: Seq<char>|
            (exists|j: int| 0 <= j < out@.len() && out@[j]@.path == p) <==> zip_dir_set(
                eviews,
            ).contains(p) by {
            if p.len() > 0 {
                lemma_zip_dir_candidates_set(eviews, p);
            } else {
                assert(!zip_dir_set(eviews).contains(p));
            }
            if exists|j: int| 0 <= j < out@.len() && out@[j]@.path == p {
                let j = choose|j: int| 0 <= j < out@.len() && #[trigger] out@[j]@.path == p;
                assert(out@[j]@.path.len() > 0 && seq_views(candidates@).take(c as int).contains(
                    out@[j]@.path,
                ));
                assert(zip_dir_candidates(eviews).contains(p));
            }
            if zip_dir_set(eviews).contains(p) {
                assert(seq_views(candidates@).take(c as int).contains(p));
            }
        }
    }
    out
}

} // verus!
