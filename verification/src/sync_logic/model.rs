//! The endpoint model the kernel's laws are stated over: each location
//! as a map from path to file bytes and modification time, the meaning
//! of a plan's actions on such a world, and the proofs that the kernel's
//! plans behave as the policy promises.

use vstd::prelude::*;

use crate::hashing::sha256_hex;
use crate::locations::{DirRec, FileRec, LocationKind};
use crate::sync_logic::{
    concat_all, copy_actions, dir_candidates, file_candidates, file_scan, files_phase_actions,
    initial_sync_plan, spec_find_dir, spec_find_file, ListingV, SyncActionV,
};

verus! {

/// One file of an endpoint: its bytes and its modification time.
pub struct FileState {
    pub modified: u64,
    pub data: Seq<u8>,
}

/// One endpoint: its variant, its files and its directories (each
/// directory with its modification time).
#[verifier::ext_equal]
pub struct EndpointState {
    pub kind: LocationKind,
    pub files: Map<Seq<char>, FileState>,
    pub dirs: Map<Seq<char>, u64>,
}

/// The file record a listing reports for path `p` of state `fs`: the
/// time as stored, the hash of the bytes as stored.
pub open spec fn file_rec_of(p: Seq<char>, fs: FileState) -> FileRec {
    FileRec { path: p, modified: fs.modified, hash: Some(sha256_hex(fs.data)) }
}

/// Whether `p` is `base` itself or lies strictly below it.
pub open spec fn path_under(base: Seq<char>, p: Seq<char>) -> bool {
    p == base || (p.len() > base.len() && p.take(base.len() as int) == base && p[base.len() as int]
        == '/')
}

/// What one action does to the world.  Every mutation of an archive
/// endpoint, and every action naming a location out of range or a
/// source without the file, is a no-op.
pub open spec fn apply_action(w: Seq<EndpointState>, a: SyncActionV) -> Seq<EndpointState> {
    match a {
        SyncActionV::CreateDir { loc, path, modified } => if 0 <= loc < w.len() && !(w[loc].kind
            is Archive) && !w[loc].dirs.contains_key(path) {
            w.update(
                loc,
                EndpointState {
                    kind: w[loc].kind,
                    files: w[loc].files,
                    dirs: w[loc].dirs.insert(path, modified),
                },
            )
        } else {
            w
        },
        SyncActionV::RemoveDir { loc, path } => if 0 <= loc < w.len() && !(w[loc].kind
            is Archive) {
            w.update(
                loc,
                EndpointState {
                    kind: w[loc].kind,
                    files: w[loc].files.restrict(
                        Set::new(|p: Seq<char>| !path_under(path, p)),
                    ),
                    dirs: w[loc].dirs.restrict(Set::new(|p: Seq<char>| !path_under(path, p))),
                },
            )
        } else {
            w
        },
        SyncActionV::CopyFile { from, to, path } => if 0 <= from < w.len() && 0 <= to < w.len()
            && w[from].files.contains_key(path) && !(w[to].kind is Archive) {
            w.update(
                to,
                EndpointState {
                    kind: w[to].kind,
                    files: w[to].files.insert(path, w[from].files[path]),
                    dirs: w[to].dirs,
                },
            )
        } else {
            w
        },
        SyncActionV::DeleteFile { loc, path } => if 0 <= loc < w.len() && !(w[loc].kind
            is Archive) {
            w.update(
                loc,
                EndpointState {
                    kind: w[loc].kind,
                    files: w[loc].files.remove(path),
                    dirs: w[loc].dirs,
                },
            )
        } else {
            w
        },
    }
}

/// The world after the actions, applied in order.
pub open spec fn apply_actions(w: Seq<EndpointState>, acts: Seq<SyncActionV>) -> Seq<EndpointState>
    decreases acts.len(),
{
    if acts.len() == 0 {
        w
    } else {
        apply_action(apply_actions(w, acts.drop_last()), acts.last())
    }
}

/// One action never changes the world's length, never changes any
/// endpoint's kind, and never touches an archive endpoint.
pub proof fn lemma_apply_action_frame(w: Seq<EndpointState>, a: SyncActionV)
    ensures
        apply_action(w, a).len() == w.len(),
        forall|j: int| 0 <= j < w.len() ==> #[trigger] apply_action(w, a)[j].kind == w[j].kind,
        forall|j: int|
            0 <= j < w.len() && w[j].kind is Archive ==> #[trigger] apply_action(w, a)[j] == w[j],
{
}

/// A plan never changes the world's length or any endpoint's kind, and
/// an archive endpoint's files and directories are untouched by any
/// plan whatsoever.
pub proof fn lemma_archive_immutable(w: Seq<EndpointState>, acts: Seq<SyncActionV>)
    ensures
        apply_actions(w, acts).len() == w.len(),
        forall|j: int|
            0 <= j < w.len() ==> #[trigger] apply_actions(w, acts)[j].kind == w[j].kind,
        forall|j: int|
            0 <= j < w.len() && w[j].kind is Archive ==> #[trigger] apply_actions(w, acts)[j]
                == w[j],
    decreases acts.len(),
{
    if acts.len() > 0 {
        lemma_archive_immutable(w, acts.drop_last());
        lemma_apply_action_frame(apply_actions(w, acts.drop_last()), acts.last());
    }
}

/// Applying a concatenation is applying the parts in turn.
pub proof fn lemma_apply_actions_concat(
    w: Seq<EndpointState>,
    a: Seq<SyncActionV>,
    b: Seq<SyncActionV>,
)
    ensures
        apply_actions(w, a + b) == apply_actions(apply_actions(w, a), b),
    decreases b.len(),
{
    if b.len() == 0 {
        assert(a + b =~= a);
    } else {
        lemma_apply_actions_concat(w, a, b.drop_last());
        assert((a + b).drop_last() =~= a + b.drop_last());
        assert((a + b).last() == b.last());
    }
}

/// Whether a listing's file records are exactly the endpoint's files.
pub open spec fn files_listing_matches(fs: Seq<FileRec>, e: EndpointState) -> bool {
    &&& forall|i: int|
        0 <= i < fs.len() ==> e.files.contains_key((#[trigger] fs[i]).path) && fs[i] == file_rec_of(
            fs[i].path,
            e.files[fs[i].path],
        )
    &&& forall|p: Seq<char>|
        #[trigger] e.files.contains_key(p) ==> exists|i: int| 0 <= i < fs.len() && fs[i].path == p
    &&& forall|i: int, j: int| 0 <= i < j < fs.len() ==> fs[i].path != fs[j].path
}

/// Whether a listing's directory records are exactly the endpoint's
/// directories.
pub open spec fn dirs_listing_matches(ds: Seq<DirRec>, e: EndpointState) -> bool {
    &&& forall|i: int|
        0 <= i < ds.len() ==> e.dirs.contains_key((#[trigger] ds[i]).path) && ds[i].modified
            == e.dirs[ds[i].path]
    &&& forall|p: Seq<char>|
        #[trigger] e.dirs.contains_key(p) ==> exists|i: int| 0 <= i < ds.len() && ds[i].path == p
    &&& forall|i: int, j: int| 0 <= i < j < ds.len() ==> ds[i].path != ds[j].path
}

/// Whether the listing reports exactly the endpoint's contents.
pub open spec fn listing_matches(l: ListingV, e: EndpointState) -> bool {
    &&& l.kind == e.kind
    &&& files_listing_matches(l.files, e)
    &&& dirs_listing_matches(l.dirs, e)
}

/// Under a matching listing, looking a path up in the listing is
/// looking it up in the endpoint.
pub proof fn lemma_match_find_file(l: ListingV, e: EndpointState, p: Seq<char>)
    requires
        listing_matches(l, e),
    ensures
        spec_find_file(l.files, p) == (if e.files.contains_key(p) {
            Some(file_rec_of(p, e.files[p]))
        } else {
            None::<FileRec>
        }),
{
    if e.files.contains_key(p) {
        let i = choose|i: int| 0 <= i < l.files.len() && l.files[i].path == p;
        assert(forall|k: int| 0 <= k < i ==> l.files[k].path != p);
        crate::sync_logic::lemma_find_file_hit(l.files, p, i);
        assert(l.files[i] == file_rec_of(p, e.files[p]));
    } else {
        assert(forall|k: int| 0 <= k < l.files.len() ==> l.files[k].path != p);
        crate::sync_logic::lemma_find_file_miss(l.files, p);
    }
}

/// Under a matching listing, looking a directory up in the listing is
/// looking it up in the endpoint.
pub proof fn lemma_match_find_dir(l: ListingV, e: EndpointState, p: Seq<char>)
    requires
        listing_matches(l, e),
    ensures
        spec_find_dir(l.dirs, p) is Some <==> e.dirs.contains_key(p),
        spec_find_dir(l.dirs, p) is Some ==> spec_find_dir(l.dirs, p)->0.modified == e.dirs[p]
            && spec_find_dir(l.dirs, p)->0.path == p,
{
    if e.dirs.contains_key(p) {
        let i = choose|i: int| 0 <= i < l.dirs.len() && l.dirs[i].path == p;
        assert(forall|k: int| 0 <= k < i ==> l.dirs[k].path != p);
        crate::sync_logic::lemma_find_dir_hit(l.dirs, p, i);
    } else {
        assert(forall|k: int| 0 <= k < l.dirs.len() ==> l.dirs[k].path != p);
        crate::sync_logic::lemma_find_dir_miss(l.dirs, p);
    }
}

/// Whether an action can change no endpoint's file entry at `p`:
/// directory creation never does, a copy or deletion of another path
/// never does.
pub open spec fn action_avoids_file(a: SyncActionV, p: Seq<char>) -> bool {
    match a {
        SyncActionV::CreateDir { .. } => true,
        SyncActionV::RemoveDir { .. } => false,
        SyncActionV::CopyFile { path, .. } => path != p,
        SyncActionV::DeleteFile { path, .. } => path != p,
    }
}

/// Whether two worlds agree on kinds, length, and the file entry at
/// `p` of every endpoint.
pub open spec fn files_agree_at(
    w1: Seq<EndpointState>,
    w2: Seq<EndpointState>,
    p: Seq<char>,
) -> bool {
    &&& w1.len() == w2.len()
    &&& forall|j: int| 0 <= j < w1.len() ==> (#[trigger] w1[j]).kind == w2[j].kind
    &&& forall|j: int|
        0 <= j < w1.len() ==> ((#[trigger] w1[j]).files.contains_key(p) <==> w2[j].files.contains_key(
            p,
        ))
    &&& forall|j: int|
        0 <= j < w1.len() && (#[trigger] w1[j]).files.contains_key(p) ==> w1[j].files[p]
            == w2[j].files[p]
}

/// Actions that avoid `p` leave every endpoint's entry at `p` alone.
pub proof fn lemma_avoid_preserves_files_at(
    w: Seq<EndpointState>,
    acts: Seq<SyncActionV>,
    p: Seq<char>,
)
    requires
        forall|k: int| 0 <= k < acts.len() ==> action_avoids_file(#[trigger] acts[k], p),
    ensures
        files_agree_at(w, apply_actions(w, acts), p),
    decreases acts.len(),
{
    if acts.len() > 0 {
        assert(forall|k: int|
            0 <= k < acts.drop_last().len() ==> action_avoids_file(
                #[trigger] acts.drop_last()[k],
                p,
            ));
        lemma_avoid_preserves_files_at(w, acts.drop_last(), p);
        let w1 = apply_actions(w, acts.drop_last());
        lemma_apply_action_frame(w1, acts.last());
        assert(action_avoids_file(acts.last(), p));
        assert(files_agree_at(w1, apply_action(w1, acts.last()), p));
    }
}

/// Two worlds agreeing at `p` stay in agreement under any actions that
/// only copy `p`.
pub proof fn lemma_copies_at_p_local(
    w1: Seq<EndpointState>,
    w2: Seq<EndpointState>,
    acts: Seq<SyncActionV>,
    p: Seq<char>,
)
    requires
        files_agree_at(w1, w2, p),
        forall|k: int|
            0 <= k < acts.len() ==> ((#[trigger] acts[k]) matches SyncActionV::CopyFile {
                path,
                ..
            } && path == p),
    ensures
        files_agree_at(apply_actions(w1, acts), apply_actions(w2, acts), p),
    decreases acts.len(),
{
    if acts.len() > 0 {
        assert(forall|k: int|
            0 <= k < acts.drop_last().len() ==> ((#[trigger] acts.drop_last()[k])
                matches SyncActionV::CopyFile { path, .. } && path == p));
        lemma_copies_at_p_local(w1, w2, acts.drop_last(), p);
        let u1 = apply_actions(w1, acts.drop_last());
        let u2 = apply_actions(w2, acts.drop_last());
        let a = acts.last();
        assert((a matches SyncActionV::CopyFile { path, .. } && path == p));
        lemma_apply_action_frame(u1, a);
        lemma_apply_action_frame(u2, a);
        assert(files_agree_at(apply_action(u1, a), apply_action(u2, a), p));
    }
}

/// Transitivity of agreement at `p`.
pub proof fn lemma_agree_trans(
    w1: Seq<EndpointState>,
    w2: Seq<EndpointState>,
    w3: Seq<EndpointState>,
    p: Seq<char>,
)
    requires
        files_agree_at(w1, w2, p),
        files_agree_at(w2, w3, p),
    ensures
        files_agree_at(w1, w3, p),
{
}

/// Every action of the file pass is a copy of one of its paths.
pub proof fn lemma_files_phase_actions_shape(
    ls: Seq<ListingV>,
    paths: Seq<Seq<char>>,
    k: int,
)
    requires
        0 <= k < files_phase_actions(ls, paths).len(),
    ensures
        exists|q: Seq<char>|
            paths.contains(q) && (#[trigger] files_phase_actions(ls, paths)[k]
                matches SyncActionV::CopyFile { path, .. } && path == q),
    decreases paths.len(),
{
    if paths.len() > 0 {
        let pre = files_phase_actions(ls, paths.drop_last());
        if k < pre.len() {
            lemma_files_phase_actions_shape(ls, paths.drop_last(), k);
            let q = choose|q: Seq<char>|
                paths.drop_last().contains(q) && (#[trigger] pre[k]
                    matches SyncActionV::CopyFile { path, .. } && path == q);
            let i = choose|i: int| 0 <= i < paths.drop_last().len() && paths.drop_last()[i] == q;
            assert(paths[i] == q);
            assert(paths.contains(q));
            assert(files_phase_actions(ls, paths)[k] == pre[k]);
        } else {
            let cands = file_candidates(ls, paths.last());
            match file_scan(cands, ls.len() as int) {
                (Some(w), t) => {
                    lemma_copy_actions_shape(
                        cands,
                        w,
                        cands[w]->0,
                        paths.last(),
                        ls.len() as int,
                        k - pre.len(),
                    );
                    assert(paths[paths.len() - 1] == paths.last());
                    assert(paths.contains(paths.last()));
                },
                (None, _) => {},
            }
        }
    }
}

/// Every action of a copy fan-out is a copy of its path.
pub proof fn lemma_copy_actions_shape(
    cands: Seq<Option<FileRec>>,
    widx: int,
    wrec: FileRec,
    p: Seq<char>,
    n: int,
    k: int,
)
    requires
        0 <= k < copy_actions(cands, widx, wrec, p, n).len(),
    ensures
        ((#[trigger] copy_actions(cands, widx, wrec, p, n)[k]) matches SyncActionV::CopyFile {
            path,
            ..
        } && path == p),
    decreases n,
{
    if n > 0 {
        let pre = copy_actions(cands, widx, wrec, p, n - 1);
        if k < pre.len() {
            lemma_copy_actions_shape(cands, widx, wrec, p, n - 1, k);
            assert(copy_actions(cands, widx, wrec, p, n)[k] == pre[k]);
        }
    }
}

/// The block of actions the initial file pass devotes to one path.
pub open spec fn file_path_block(ls: Seq<ListingV>, p: Seq<char>) -> Seq<SyncActionV> {
    let cands = file_candidates(ls, p);
    match file_scan(cands, ls.len() as int) {
        (Some(w), t) => copy_actions(cands, w, cands[w]->0, p, ls.len() as int),
        (None, _) => Seq::empty(),
    }
}

/// At any one path, the whole file pass acts exactly as that path's
/// own block does.
pub proof fn lemma_files_phase_at(
    ls: Seq<ListingV>,
    paths: Seq<Seq<char>>,
    w: Seq<EndpointState>,
    p: Seq<char>,
)
    requires
        forall|i: int, j: int| 0 <= i < j < paths.len() ==> paths[i] != paths[j],
    ensures
        paths.contains(p) ==> files_agree_at(
            apply_actions(w, file_path_block(ls, p)),
            apply_actions(w, files_phase_actions(ls, paths)),
            p,
        ),
        !paths.contains(p) ==> files_agree_at(w, apply_actions(w, files_phase_actions(ls, paths)), p),
    decreases paths.len(),
{
    if paths.len() == 0 {
        assert(!paths.contains(p));
        assert(apply_actions(w, files_phase_actions(ls, paths)) == w);
    } else {
        let pre_paths = paths.drop_last();
        let q = paths.last();
        let pre = files_phase_actions(ls, pre_paths);
        let block_q = file_path_block(ls, q);
        assert(files_phase_actions(ls, paths) == pre + block_q) by {
            match file_scan(file_candidates(ls, q), ls.len() as int) {
                (Some(wx), t) => {},
                (None, _) => {
                    assert(files_phase_actions(ls, paths) =~= pre + block_q);
                },
            }
        }
        lemma_apply_actions_concat(w, pre, block_q);
        let w_pre = apply_actions(w, pre);
        assert(forall|i: int, j: int|
            0 <= i < j < pre_paths.len() ==> pre_paths[i] != pre_paths[j]);
        lemma_files_phase_at(ls, pre_paths, w, p);
        // The last block copies only q.
        assert(forall|k: int|
            0 <= k < block_q.len() ==> ((#[trigger] block_q[k]) matches SyncActionV::CopyFile {
                path,
                ..
            } && path == q)) by {
            assert forall|k: int|
                0 <= k < block_q.len() implies ((#[trigger] block_q[k])
                    matches SyncActionV::CopyFile { path, .. } && path == q) by {
                match file_scan(file_candidates(ls, q), ls.len() as int) {
                    (Some(wx), t) => {
                        lemma_copy_actions_shape(
                            file_candidates(ls, q),
                            wx,
                            file_candidates(ls, q)[wx]->0,
                            q,
                            ls.len() as int,
                            k,
                        );
                    },
                    (None, _) => {},
                }
            }
        }
        if p == q {
            // pre touches only pre_paths, which exclude p.
            assert(forall|i: int| 0 <= i < pre_paths.len() ==> pre_paths[i] != p) by {
                assert forall|i: int| 0 <= i < pre_paths.len() implies pre_paths[i] != p by {
                    assert(paths[i] == pre_paths[i]);
                    assert(paths[paths.len() - 1] == p);
                }
            }
            assert(forall|k: int| 0 <= k < pre.len() ==> action_avoids_file(#[trigger] pre[k], p))
                by {
                assert forall|k: int|
                    0 <= k < pre.len() implies action_avoids_file(#[trigger] pre[k], p) by {
                    lemma_files_phase_actions_shape(ls, pre_paths, k);
                    let qq = choose|qq: Seq<char>|
                        pre_paths.contains(qq) && (#[trigger] pre[k]
                            matches SyncActionV::CopyFile { path, .. } && path == qq);
                    let ii = choose|ii: int| 0 <= ii < pre_paths.len() && pre_paths[ii] == qq;
                }
            }
            lemma_avoid_preserves_files_at(w, pre, p);
            lemma_copies_at_p_local(w, w_pre, block_q, p);
            assert(paths.contains(p)) by {
                assert(paths[paths.len() - 1] == p);
            }
        } else {
            // The last block avoids p.
            assert(forall|k: int|
                0 <= k < block_q.len() ==> action_avoids_file(#[trigger] block_q[k], p));
            lemma_avoid_preserves_files_at(w_pre, block_q, p);
            if pre_paths.contains(p) {
                let wb = apply_actions(w, file_path_block(ls, p));
                lemma_agree_trans(wb, w_pre, apply_actions(w_pre, block_q), p);
                assert(paths.contains(p)) by {
                    let ii = choose|ii: int| 0 <= ii < pre_paths.len() && pre_paths[ii] == p;
                    assert(paths[ii] == p);
                }
            } else {
                lemma_agree_trans(w, w_pre, apply_actions(w_pre, block_q), p);
                assert(!paths.contains(p)) by {
                    if paths.contains(p) {
                        let ii = choose|ii: int| 0 <= ii < paths.len() && paths[ii] == p;
                        assert(ii == paths.len() - 1 || pre_paths[ii] == p);
                    }
                }
            }
        }
    }
}

/// Every action of the directory pass is a directory creation.
pub proof fn lemma_dirs_phase_actions_shape(ls: Seq<ListingV>, paths: Seq<Seq<char>>, k: int)
    requires
        0 <= k < crate::sync_logic::dirs_phase_actions(ls, paths).len(),
    ensures
        (#[trigger] crate::sync_logic::dirs_phase_actions(ls, paths)[k])
            matches SyncActionV::CreateDir { .. },
    decreases paths.len(),
{
    if paths.len() > 0 {
        let pre = crate::sync_logic::dirs_phase_actions(ls, paths.drop_last());
        if k < pre.len() {
            lemma_dirs_phase_actions_shape(ls, paths.drop_last(), k);
            assert(crate::sync_logic::dirs_phase_actions(ls, paths)[k] == pre[k]);
        } else {
            match crate::sync_logic::dir_scan(
                dir_candidates(ls, paths.last()),
                ls.len() as int,
            ) {
                (Some(wx), t) => {
                    lemma_cd_actions_shape(
                        dir_candidates(ls, paths.last()),
                        wx,
                        paths.last(),
                        t,
                        ls.len() as int,
                        k - pre.len(),
                    );
                },
                (None, _) => {},
            }
        }
    }
}

/// Every action of a directory fan-out is a directory creation.
pub proof fn lemma_cd_actions_shape(
    cands: Seq<Option<DirRec>>,
    widx: int,
    p: Seq<char>,
    t: u64,
    n: int,
    k: int,
)
    requires
        0 <= k < crate::sync_logic::cd_actions(cands, widx, p, t, n).len(),
    ensures
        (#[trigger] crate::sync_logic::cd_actions(cands, widx, p, t, n)[k])
            matches SyncActionV::CreateDir { .. },
    decreases n,
{
    if n > 0 {
        let pre = crate::sync_logic::cd_actions(cands, widx, p, t, n - 1);
        if k < pre.len() {
            lemma_cd_actions_shape(cands, widx, p, t, n - 1, k);
            assert(crate::sync_logic::cd_actions(cands, widx, p, t, n)[k] == pre[k]);
        }
    }
}

/// A deduplicated sequence holds the same paths, each once.
pub proof fn lemma_dedup_paths_props(s: Seq<Seq<char>>)
    ensures
        forall|i: int, j: int|
            0 <= i < j < crate::sync_logic::dedup_paths(s).len()
                ==> crate::sync_logic::dedup_paths(s)[i] != crate::sync_logic::dedup_paths(s)[j],
        forall|p: Seq<char>|
            #[trigger] crate::sync_logic::dedup_paths(s).contains(p) <==> s.contains(p),
    decreases s.len(),
{
    if s.len() > 0 {
        lemma_dedup_paths_props(s.drop_last());
        let pre = crate::sync_logic::dedup_paths(s.drop_last());
        let d = crate::sync_logic::dedup_paths(s);
        assert forall|p: Seq<char>| #[trigger] d.contains(p) <==> s.contains(p) by {
            if d.contains(p) {
                let i = choose|i: int| 0 <= i < d.len() && d[i] == p;
                if i < pre.len() {
                    assert(pre[i] == p);
                    assert(pre.contains(p));
                    assert(s.drop_last().contains(p));
                    let k = choose|k: int| 0 <= k < s.drop_last().len() && s.drop_last()[k] == p;
                    assert(s[k] == p);
                } else {
                    assert(p == s.last());
                    assert(s[s.len() - 1] == p);
                }
                assert(s.contains(p));
            }
            if s.contains(p) {
                let k = choose|k: int| 0 <= k < s.len() && s[k] == p;
                if k < s.len() - 1 {
                    assert(s.drop_last()[k] == p);
                    assert(s.drop_last().contains(p));
                    assert(pre.contains(p));
                    let i = choose|i: int| 0 <= i < pre.len() && pre[i] == p;
                    assert(d[i] == p);
                } else {
                    if pre.contains(s.last()) {
                        let i = choose|i: int| 0 <= i < pre.len() && pre[i] == p;
                        assert(d[i] == p);
                    } else {
                        assert(d[d.len() - 1] == p);
                    }
                }
                assert(d.contains(p));
            }
        }
        assert forall|i: int, j: int| 0 <= i < j < d.len() implies d[i] != d[j] by {
            if !pre.contains(s.last()) && j == d.len() - 1 {
                assert(d[i] == pre[i]);
                assert(pre.contains(pre[i]));
            }
        }
    }
}

/// The paths of one listing's file records occur among all file paths.
pub proof fn lemma_file_path_in_union(ls: Seq<ListingV>, i: int, k: int)
    requires
        0 <= i < ls.len(),
        0 <= k < ls[i].files.len(),
    ensures
        crate::sync_logic::file_union(ls).contains(ls[i].files[k].path),
{
    lemma_all_file_paths_contains(ls, i, k);
    lemma_dedup_paths_props(crate::sync_logic::all_file_paths(ls));
}

proof fn lemma_all_file_paths_contains(ls: Seq<ListingV>, i: int, k: int)
    requires
        0 <= i < ls.len(),
        0 <= k < ls[i].files.len(),
    ensures
        crate::sync_logic::all_file_paths(ls).contains(ls[i].files[k].path),
    decreases ls.len(),
{
    let whole = crate::sync_logic::all_file_paths(ls);
    let pre = crate::sync_logic::all_file_paths(ls.drop_last());
    if i == ls.len() - 1 {
        assert(whole[pre.len() + k] == crate::sync_logic::file_paths_of(ls.last())[k]);
        assert(crate::sync_logic::file_paths_of(ls.last())[k] == ls[i].files[k].path);
    } else {
        assert(ls.drop_last()[i] == ls[i]);
        lemma_all_file_paths_contains(ls.drop_last(), i, k);
        let j = choose|j: int| 0 <= j < pre.len() && pre[j] == ls[i].files[k].path;
        assert(whole[j] == pre[j]);
    }
}

/// Last-writer-wins: with two folder locations holding the same path,
/// the strictly newer copy's bytes stand on both after the initial
/// reconciliation.
pub proof fn lemma_last_writer_wins(
    w: Seq<EndpointState>,
    ls: Seq<ListingV>,
    p: Seq<char>,
)
    requires
        w.len() == 2,
        ls.len() == 2,
        forall|i: int| 0 <= i < 2 ==> listing_matches(#[trigger] ls[i], w[i]),
        w[0].kind is Folder,
        w[1].kind is Folder,
        w[0].files.contains_key(p),
        w[1].files.contains_key(p),
        w[0].files[p].modified > w[1].files[p].modified,
        sha256_hex(w[0].files[p].data) != sha256_hex(w[1].files[p].data),
    ensures
        ({
            let w1 = apply_actions(w, initial_sync_plan(ls));
            &&& w1[1].files.contains_key(p)
            &&& w1[1].files[p].data == w[0].files[p].data
            &&& w1[0].files.contains_key(p)
            &&& w1[0].files[p].data == w[0].files[p].data
        }),
{
    let plan = initial_sync_plan(ls);
    let dplan = crate::sync_logic::dirs_phase_actions(ls, crate::sync_logic::dir_union(ls));
    let fpaths = crate::sync_logic::file_union(ls);
    let fplan = files_phase_actions(ls, fpaths);
    lemma_apply_actions_concat(w, dplan, fplan);
    let w_d = apply_actions(w, dplan);
    assert(forall|k: int| 0 <= k < dplan.len() ==> action_avoids_file(#[trigger] dplan[k], p)) by {
        assert forall|k: int|
            0 <= k < dplan.len() implies action_avoids_file(#[trigger] dplan[k], p) by {
            lemma_dirs_phase_actions_shape(ls, crate::sync_logic::dir_union(ls), k);
        }
    }
    lemma_avoid_preserves_files_at(w, dplan, p);
    // The candidates at p.
    lemma_match_find_file(ls[0], w[0], p);
    lemma_match_find_file(ls[1], w[1], p);
    let cands = file_candidates(ls, p);
    let r0 = file_rec_of(p, w[0].files[p]);
    let r1 = file_rec_of(p, w[1].files[p]);
    assert(cands[0] == Some(r0));
    assert(cands[1] == Some(r1));
    assert(file_scan(cands, 0) == (None::<int>, 0u64));
    assert(file_scan(cands, 1) == (Some(0int), r0.modified));
    assert(file_scan(cands, 2) == (Some(0int), r0.modified));
    let block = file_path_block(ls, p);
    assert(copy_actions(cands, 0, r0, p, 0) =~= Seq::<SyncActionV>::empty());
    assert(copy_actions(cands, 0, r0, p, 1) =~= Seq::<SyncActionV>::empty());
    assert(crate::sync_logic::copy_target(cands[1], r0));
    assert(block =~= seq![SyncActionV::CopyFile { from: 0, to: 1, path: p }]);
    // p occurs in the file union.
    assert(ls[0].files.contains(r0)) by {
        let i = choose|i: int| 0 <= i < ls[0].files.len() && ls[0].files[i].path == p;
        assert(ls[0].files[i] == r0);
    }
    let i0 = choose|i: int| 0 <= i < ls[0].files.len() && ls[0].files[i] == r0;
    lemma_file_path_in_union(ls, 0, i0);
    lemma_dedup_paths_props(crate::sync_logic::all_file_paths(ls));
    // The whole pass acts at p as the block does.
    lemma_files_phase_at(ls, fpaths, w_d, p);
    let wb = apply_actions(w_d, block);
    assert(apply_actions(w_d, block.drop_last()) == w_d) by {
        assert(block.drop_last() =~= Seq::<SyncActionV>::empty());
    }
    assert(wb == apply_action(w_d, block.last()));
    assert(w_d[0].files.contains_key(p) && w_d[0].files[p] == w[0].files[p]);
    assert(wb[1].files.contains_key(p) && wb[1].files[p] == w[0].files[p]);
    assert(wb[0].files.contains_key(p) && wb[0].files[p] == w[0].files[p]);
    assert(files_agree_at(wb, apply_actions(w_d, fplan), p));
    assert(apply_actions(w, plan) == apply_actions(w_d, fplan));
}

/// No update on same content: with the newer copy's bytes identical to
/// the older's, the older location's bytes are unchanged by the
/// initial reconciliation — identical content is never rewritten.
pub proof fn lemma_no_update_same_content(
    w: Seq<EndpointState>,
    ls: Seq<ListingV>,
    p: Seq<char>,
)
    requires
        w.len() == 2,
        ls.len() == 2,
        forall|i: int| 0 <= i < 2 ==> listing_matches(#[trigger] ls[i], w[i]),
        w[0].kind is Folder,
        w[1].kind is Folder,
        w[0].files.contains_key(p),
        w[1].files.contains_key(p),
        w[0].files[p].modified > w[1].files[p].modified,
        w[0].files[p].data == w[1].files[p].data,
    ensures
        ({
            let w1 = apply_actions(w, initial_sync_plan(ls));
            &&& w1[1].files.contains_key(p)
            &&& w1[1].files[p].data == w[1].files[p].data
        }),
{
    let a1 = lemma_initial_run_at(w, ls, p);
    let cands = file_candidates(ls, p);
    lemma_match_find_file(ls[0], w[0], p);
    lemma_match_find_file(ls[1], w[1], p);
    let r0 = file_rec_of(p, w[0].files[p]);
    let r1 = file_rec_of(p, w[1].files[p]);
    assert(cands[0] == Some(r0));
    assert(cands[1] == Some(r1));
    assert(file_scan(cands, 0) == (None::<int>, 0u64));
    assert(file_scan(cands, 1) == (Some(0int), r0.modified));
    assert(file_scan(cands, 2) == (Some(0int), r0.modified));
    let w1 = apply_actions(w, initial_sync_plan(ls));
    if crate::sync_logic::copy_target(cands[1], r0) {
        assert(w1[1].files.contains_key(p) && w1[1].files[p] == w[0].files[p]);
    } else {
        assert(w1[1].files.contains_key(p) == w[1].files.contains_key(p));
        assert(w1[1].files[p] == w[1].files[p]);
    }
}

/// The hash override on equal timestamps: when two copies carry the
/// same modification time but different (present) hashes, the
/// single-file scan makes the later copy the authority, the state
/// keeps its record, and the plan copies it onto the equal-time loser.
pub proof fn lemma_hash_override_equal_times(a: FileRec, b: FileRec, p: Seq<char>)
    requires
        a.modified == b.modified,
        crate::sync_logic::hash_nonempty(a.hash),
        crate::sync_logic::hash_nonempty(b.hash),
        a.hash != b.hash,
    ensures
        crate::sync_logic::sync_file_scan(seq![Some(a), Some(b)], 2) == Some((1int, b)),
        copy_actions(seq![Some(a), Some(b)], 1, b, p, 2) == seq![
            SyncActionV::CopyFile { from: 1, to: 0, path: p },
        ],
{
    let cands = seq![Some(a), Some(b)];
    assert(crate::sync_logic::sync_file_scan(cands, 0) is None);
    assert(crate::sync_logic::sync_file_scan(cands, 1) == Some((0int, a)));
    assert(crate::sync_logic::copy_target(cands[0], b));
    assert(copy_actions(cands, 1, b, p, 0) =~= Seq::<SyncActionV>::empty());
    assert(copy_actions(cands, 1, b, p, 1) =~= seq![
        SyncActionV::CopyFile { from: 1, to: 0, path: p },
    ]);
    assert(copy_actions(cands, 1, b, p, 2) =~= seq![
        SyncActionV::CopyFile { from: 1, to: 0, path: p },
    ]);
}

/// Equal timestamps with differing content converge under the initial
/// reconciliation: the first-encountered copy wins the tie and its
/// bytes replace the other side's, so both ends agree.
pub proof fn lemma_equal_times_converge(
    w: Seq<EndpointState>,
    ls: Seq<ListingV>,
    p: Seq<char>,
)
    requires
        w.len() == 2,
        ls.len() == 2,
        forall|i: int| 0 <= i < 2 ==> listing_matches(#[trigger] ls[i], w[i]),
        w[0].kind is Folder,
        w[1].kind is Folder,
        w[0].files.contains_key(p),
        w[1].files.contains_key(p),
        w[0].files[p].modified == w[1].files[p].modified,
        crate::sync_logic::hash_nonempty(Some(sha256_hex(w[0].files[p].data))),
        crate::sync_logic::hash_nonempty(Some(sha256_hex(w[1].files[p].data))),
        sha256_hex(w[0].files[p].data) != sha256_hex(w[1].files[p].data),
    ensures
        ({
            let w1 = apply_actions(w, initial_sync_plan(ls));
            &&& w1[0].files.contains_key(p)
            &&& w1[1].files.contains_key(p)
            &&& w1[0].files[p].data == w[0].files[p].data
            &&& w1[1].files[p].data == w[0].files[p].data
        }),
{
    let a1 = lemma_initial_run_at(w, ls, p);
    let cands = file_candidates(ls, p);
    lemma_match_find_file(ls[0], w[0], p);
    lemma_match_find_file(ls[1], w[1], p);
    let r0 = file_rec_of(p, w[0].files[p]);
    let r1 = file_rec_of(p, w[1].files[p]);
    assert(cands[0] == Some(r0));
    assert(cands[1] == Some(r1));
    assert(file_scan(cands, 0) == (None::<int>, 0u64));
    assert(file_scan(cands, 1) == (Some(0int), r0.modified));
    assert(file_scan(cands, 2) == (Some(0int), r0.modified));
    let w1 = apply_actions(w, initial_sync_plan(ls));
    assert(crate::sync_logic::copy_target(cands[1], r0));
    assert(w1[1].files.contains_key(p) && w1[1].files[p] == w[0].files[p]);
    assert(w1[0].files.contains_key(p) && w1[0].files[p] == w[0].files[p]);
}

/// Actions free of `RemoveDir` never drop a directory entry.
pub proof fn lemma_no_remove_dir_preserves_dirs(
    w: Seq<EndpointState>,
    acts: Seq<SyncActionV>,
    j: int,
    p: Seq<char>,
)
    requires
        forall|k: int| 0 <= k < acts.len() ==> !((#[trigger] acts[k]) matches SyncActionV::RemoveDir { .. }),
        0 <= j < w.len(),
        w[j].dirs.contains_key(p),
    ensures
        apply_actions(w, acts)[j].dirs.contains_key(p),
    decreases acts.len(),
{
    if acts.len() > 0 {
        assert(forall|k: int|
            0 <= k < acts.drop_last().len() ==> !((#[trigger] acts.drop_last()[k])
                matches SyncActionV::RemoveDir { .. }));
        lemma_no_remove_dir_preserves_dirs(w, acts.drop_last(), j, p);
        lemma_archive_immutable(w, acts.drop_last());
        assert(!(acts.last() matches SyncActionV::RemoveDir { .. }));
    }
}

/// Actions that copy no file to `p` never make a file entry at `p`
/// appear.
pub proof fn lemma_no_copy_preserves_absent(
    w: Seq<EndpointState>,
    acts: Seq<SyncActionV>,
    j: int,
    p: Seq<char>,
)
    requires
        forall|k: int|
            0 <= k < acts.len() ==> !((#[trigger] acts[k]) matches SyncActionV::CopyFile {
                path,
                ..
            } && path == p),
        0 <= j < w.len(),
        !w[j].files.contains_key(p),
    ensures
        !apply_actions(w, acts)[j].files.contains_key(p),
    decreases acts.len(),
{
    if acts.len() > 0 {
        assert(forall|k: int|
            0 <= k < acts.drop_last().len() ==> !((#[trigger] acts.drop_last()[k])
                matches SyncActionV::CopyFile { path, .. } && path == p));
        lemma_no_copy_preserves_absent(w, acts.drop_last(), j, p);
        lemma_archive_immutable(w, acts.drop_last());
        assert(!(acts.last() matches SyncActionV::CopyFile { path, .. } && path == p));
    }
}

/// A `CreateDir` fan-out names every other non-archive location.
pub proof fn lemma_cd_fanout_member(
    ks: Seq<LocationKind>,
    skip: int,
    p: Seq<char>,
    t: u64,
    n: int,
    j: int,
)
    requires
        0 <= j < n,
        j != skip,
        !(ks[j] is Archive),
    ensures
        crate::sync_logic::cd_fanout(ks, skip, p, t, n).contains(
            SyncActionV::CreateDir { loc: j, path: p, modified: t },
        ),
    decreases n,
{
    let whole = crate::sync_logic::cd_fanout(ks, skip, p, t, n);
    let pre = crate::sync_logic::cd_fanout(ks, skip, p, t, n - 1);
    if j == n - 1 {
        assert(whole.last() == SyncActionV::CreateDir { loc: j, path: p, modified: t });
    } else {
        lemma_cd_fanout_member(ks, skip, p, t, n - 1, j);
        let k = choose|k: int|
            0 <= k < pre.len() && pre[k] == SyncActionV::CreateDir { loc: j, path: p, modified: t };
        assert(whole[k] == pre[k]);
    }
}

/// A `DeleteFile` fan-out names every non-archive location.
pub proof fn lemma_df_fanout_member(ks: Seq<LocationKind>, p: Seq<char>, n: int, j: int)
    requires
        0 <= j < n,
        !(ks[j] is Archive),
    ensures
        crate::sync_logic::df_fanout(ks, p, n).contains(SyncActionV::DeleteFile { loc: j, path: p }),
    decreases n,
{
    let whole = crate::sync_logic::df_fanout(ks, p, n);
    let pre = crate::sync_logic::df_fanout(ks, p, n - 1);
    if j == n - 1 {
        assert(whole.last() == SyncActionV::DeleteFile { loc: j, path: p });
    } else {
        lemma_df_fanout_member(ks, p, n - 1, j);
        let k = choose|k: int|
            0 <= k < pre.len() && pre[k] == SyncActionV::DeleteFile { loc: j, path: p };
        assert(whole[k] == pre[k]);
    }
}

/// Every action of a directory creation pass is a `CreateDir`.
pub proof fn lemma_dir_creations_shape(
    ks: Seq<LocationKind>,
    loc: int,
    ds: Seq<DirRec>,
    m: Map<Seq<char>, DirRec>,
    k: int,
)
    requires
        0 <= k < crate::sync_logic::dir_creations(ks, loc, ds, m).0.len(),
    ensures
        (#[trigger] crate::sync_logic::dir_creations(ks, loc, ds, m).0[k])
            matches SyncActionV::CreateDir { .. },
    decreases ds.len(),
{
    if ds.len() > 0 {
        let pre = crate::sync_logic::dir_creations(ks, loc, ds.drop_last(), m);
        if k < pre.0.len() {
            lemma_dir_creations_shape(ks, loc, ds.drop_last(), m, k);
            assert(crate::sync_logic::dir_creations(ks, loc, ds, m).0[k] == pre.0[k]);
        } else {
            if !pre.1.contains_key(ds.last().path) {
                lemma_cd_fanout_all_shape(
                    ks,
                    loc,
                    ds.last().path,
                    ds.last().modified,
                    ks.len() as int,
                    k - pre.0.len(),
                );
            }
        }
    }
}

proof fn lemma_cd_fanout_all_shape(
    ks: Seq<LocationKind>,
    skip: int,
    p: Seq<char>,
    t: u64,
    n: int,
    k: int,
)
    requires
        0 <= k < crate::sync_logic::cd_fanout(ks, skip, p, t, n).len(),
    ensures
        (#[trigger] crate::sync_logic::cd_fanout(ks, skip, p, t, n)[k])
            matches SyncActionV::CreateDir { .. },
    decreases n,
{
    if n > 0 {
        let pre = crate::sync_logic::cd_fanout(ks, skip, p, t, n - 1);
        if k < pre.len() {
            lemma_cd_fanout_all_shape(ks, skip, p, t, n - 1, k);
            assert(crate::sync_logic::cd_fanout(ks, skip, p, t, n)[k] == pre[k]);
        }
    }
}

/// Every action of a file removal pass is a `DeleteFile`.
pub proof fn lemma_file_removal_shape(ks: Seq<LocationKind>, rfs: Seq<Seq<char>>, k: int)
    requires
        0 <= k < crate::sync_logic::file_removal_actions(ks, rfs).len(),
    ensures
        (#[trigger] crate::sync_logic::file_removal_actions(ks, rfs)[k])
            matches SyncActionV::DeleteFile { .. },
    decreases rfs.len(),
{
    if rfs.len() > 0 {
        let pre = crate::sync_logic::file_removal_actions(ks, rfs.drop_last());
        if k < pre.len() {
            lemma_file_removal_shape(ks, rfs.drop_last(), k);
            assert(crate::sync_logic::file_removal_actions(ks, rfs)[k] == pre[k]);
        } else {
            lemma_df_fanout_shape(ks, rfs.last(), ks.len() as int, k - pre.len());
        }
    }
}

proof fn lemma_df_fanout_shape(ks: Seq<LocationKind>, p: Seq<char>, n: int, k: int)
    requires
        0 <= k < crate::sync_logic::df_fanout(ks, p, n).len(),
    ensures
        (#[trigger] crate::sync_logic::df_fanout(ks, p, n)[k]) matches SyncActionV::DeleteFile {
            ..
        },
    decreases n,
{
    if n > 0 {
        let pre = crate::sync_logic::df_fanout(ks, p, n - 1);
        if k < pre.len() {
            lemma_df_fanout_shape(ks, p, n - 1, k);
            assert(crate::sync_logic::df_fanout(ks, p, n)[k] == pre[k]);
        } else {
            assert(crate::sync_logic::df_fanout(ks, p, n)[k] == crate::sync_logic::df_fanout(
                ks,
                p,
                n,
            ).last());
        }
    }
}

/// The recorded paths of a creation pass: the seed's and the listed
/// directories'.
pub proof fn lemma_dir_creations_dom(
    ks: Seq<LocationKind>,
    loc: int,
    ds: Seq<DirRec>,
    m: Map<Seq<char>, DirRec>,
    q: Seq<char>,
)
    ensures
        crate::sync_logic::dir_creations(ks, loc, ds, m).1.contains_key(q) <==> (m.contains_key(q)
            || exists|i: int| 0 <= i < ds.len() && ds[i].path == q),
    decreases ds.len(),
{
    if ds.len() > 0 {
        lemma_dir_creations_dom(ks, loc, ds.drop_last(), m, q);
        if exists|i: int| 0 <= i < ds.len() && ds[i].path == q {
            let i = choose|i: int| 0 <= i < ds.len() && ds[i].path == q;
            if i < ds.len() - 1 {
                assert(ds.drop_last()[i].path == q);
            }
        }
        if exists|i: int| 0 <= i < ds.drop_last().len() && ds.drop_last()[i].path == q {
            let i = choose|i: int| 0 <= i < ds.drop_last().len() && ds.drop_last()[i].path == q;
            assert(ds[i].path == q);
        }
    }
}

/// A listed directory not yet recorded has its fan-out inside the
/// creation pass, as a contiguous block whose suffix holds no other
/// kind of action.
pub proof fn lemma_dir_creations_member(
    ks: Seq<LocationKind>,
    loc: int,
    ds: Seq<DirRec>,
    m: Map<Seq<char>, DirRec>,
    p: Seq<char>,
    j: int,
)
    requires
        exists|i: int| 0 <= i < ds.len() && ds[i].path == p,
        !m.contains_key(p),
        0 <= j < ks.len(),
        j != loc,
        !(ks[j] is Archive),
    ensures
        exists|t: u64|
            crate::sync_logic::dir_creations(ks, loc, ds, m).0.contains(
                SyncActionV::CreateDir { loc: j, path: p, modified: t },
            ),
    decreases ds.len(),
{
    let cr = crate::sync_logic::dir_creations(ks, loc, ds, m);
    let pre = crate::sync_logic::dir_creations(ks, loc, ds.drop_last(), m);
    let has_earlier = exists|i: int| 0 <= i < ds.drop_last().len() && ds.drop_last()[i].path == p;
    if has_earlier {
        lemma_dir_creations_member(ks, loc, ds.drop_last(), m, p, j);
        let t = choose|t: u64|
            pre.0.contains(SyncActionV::CreateDir { loc: j, path: p, modified: t });
        let k = choose|k: int|
            0 <= k < pre.0.len() && pre.0[k] == SyncActionV::CreateDir {
                loc: j,
                path: p,
                modified: t,
            };
        if pre.1.contains_key(ds.last().path) {
            assert(cr.0[k] == pre.0[k]);
        } else {
            assert(cr.0[k] == pre.0[k]);
        }
        assert(cr.0.contains(SyncActionV::CreateDir { loc: j, path: p, modified: t }));
    } else {
        assert(ds.last().path == p) by {
            let i = choose|i: int| 0 <= i < ds.len() && ds[i].path == p;
            if i < ds.len() - 1 {
                assert(ds.drop_last()[i].path == p);
            }
        }
        lemma_dir_creations_dom(ks, loc, ds.drop_last(), m, p);
        assert(!pre.1.contains_key(p));
        let t = ds.last().modified;
        lemma_cd_fanout_member(ks, loc, p, t, ks.len() as int, j);
        let k = choose|k: int|
            0 <= k < crate::sync_logic::cd_fanout(ks, loc, p, t, ks.len() as int).len()
                && crate::sync_logic::cd_fanout(ks, loc, p, t, ks.len() as int)[k]
                == SyncActionV::CreateDir { loc: j, path: p, modified: t };
        assert(cr.0[pre.0.len() + k] == SyncActionV::CreateDir { loc: j, path: p, modified: t });
        assert(cr.0.contains(SyncActionV::CreateDir { loc: j, path: p, modified: t }));
    }
}

/// Removals only shrink: a path absent from a map stays absent.
pub proof fn lemma_remove_dir_paths_absent(
    m: Map<Seq<char>, DirRec>,
    ps: Seq<Seq<char>>,
    q: Seq<char>,
)
    requires
        !m.contains_key(q),
    ensures
        !crate::sync_logic::remove_dir_paths(m, ps).contains_key(q),
    decreases ps.len(),
{
    if ps.len() > 0 {
        lemma_remove_dir_paths_absent(m, ps.drop_last(), q);
    }
}

/// A removed file path is absent afterwards.
pub proof fn lemma_remove_file_paths_gone(
    m: Map<Seq<char>, FileRec>,
    ps: Seq<Seq<char>>,
    q: Seq<char>,
)
    requires
        ps.contains(q),
    ensures
        !crate::sync_logic::remove_file_paths(m, ps).contains_key(q),
    decreases ps.len(),
{
    if ps.len() > 0 {
        if ps.last() == q {
        } else {
            assert(ps.drop_last().contains(q)) by {
                let i = choose|i: int| 0 <= i < ps.len() && ps[i] == q;
                assert(ps.drop_last()[i] == q);
            }
            lemma_remove_file_paths_gone(m, ps.drop_last(), q);
        }
    }
}

/// A recorded file path missing from the listing occurs among the
/// dropped paths.
pub proof fn lemma_file_removed_contains(v: Seq<FileRec>, l: ListingV, p: Seq<char>)
    requires
        exists|i: int| 0 <= i < v.len() && v[i].path == p,
        !crate::sync_logic::listing_has_file(l, p),
    ensures
        crate::sync_logic::file_removed_paths(v, l).contains(p),
    decreases v.len(),
{
    let whole = crate::sync_logic::file_removed_paths(v, l);
    let pre = crate::sync_logic::file_removed_paths(v.drop_last(), l);
    if v.last().path == p {
        assert(whole.last() == p);
        assert(whole.contains(p));
    } else {
        assert(exists|i: int| 0 <= i < v.drop_last().len() && v.drop_last()[i].path == p) by {
            let i = choose|i: int| 0 <= i < v.len() && v[i].path == p;
            assert(v.drop_last()[i].path == p);
        }
        lemma_file_removed_contains(v.drop_last(), l, p);
        let k = choose|k: int| 0 <= k < pre.len() && pre[k] == p;
        if !crate::sync_logic::listing_has_file(l, v.last().path) {
            assert(whole[k] == pre[k]);
        } else {
            assert(whole[k] == pre[k]);
        }
        assert(whole.contains(p));
    }
}

/// A map holds a path exactly when its backing records do.
pub proof fn lemma_files_map_vec_contains(v: Seq<crate::locations::FileMetadata>, p: Seq<char>)
    ensures
        crate::sync_logic::files_map(v).contains_key(p) <==> exists|i: int|
            0 <= i < v.len() && v[i]@.path == p,
    decreases v.len(),
{
    if v.len() > 0 {
        lemma_files_map_vec_contains(v.drop_last(), p);
        if exists|i: int| 0 <= i < v.drop_last().len() && v.drop_last()[i]@.path == p {
            let i = choose|i: int| 0 <= i < v.drop_last().len() && v.drop_last()[i]@.path == p;
            assert(v[i]@.path == p);
        }
        if v.last()@.path == p {
            assert(v[v.len() - 1]@.path == p);
        }
        if crate::sync_logic::files_map(v).contains_key(p) && v.last()@.path != p {
            assert(crate::sync_logic::files_map(v.drop_last()).contains_key(p));
        }
        if exists|i: int| 0 <= i < v.len() && v[i]@.path == p {
            let i = choose|i: int| 0 <= i < v.len() && v[i]@.path == p;
            if i < v.len() - 1 {
                assert(v.drop_last()[i]@.path == p);
            }
        }
    }
}

/// Deletion propagates only from mutable endpoints.  A recorded file
/// that a non-archive location no longer lists is deleted on every
/// non-archive location and dropped from the state; and a poll of an
/// archive location never plans a file deletion or any other change to
/// any endpoint's files.
pub proof fn lemma_deletion_propagates(
    ks: Seq<LocationKind>,
    loc: int,
    l: ListingV,
    exempt: Seq<Seq<char>>,
    st0: crate::sync_logic::SyncState,
    st1: crate::sync_logic::SyncState,
    a: Seq<SyncActionV>,
    ts: Seq<Seq<char>>,
    w: Seq<EndpointState>,
    p: Seq<char>,
)
    requires
        crate::sync_logic::poll_step_ok(ks, loc, l, exempt, st0, st1, a, ts),
        w.len() == ks.len(),
        forall|j: int| 0 <= j < w.len() ==> (#[trigger] w[j]).kind == ks[j],
        !(l.kind is Archive),
        st0.files().contains_key(p),
        !crate::sync_logic::listing_has_file(l, p),
    ensures
        !st1.files().contains_key(p),
        forall|j: int|
            0 <= j < w.len() && !(ks[j] is Archive) ==> !(#[trigger] apply_actions(w, a)[j]).files.contains_key(
                p,
            ),
{
    let fvec = crate::locations::file_views(st0.file_metadata@);
    let removed_f = crate::sync_logic::file_removed_paths(fvec, l);
    lemma_files_map_vec_contains(st0.file_metadata@, p);
    assert(exists|i: int| 0 <= i < fvec.len() && fvec[i].path == p) by {
        let i = choose|i: int| 0 <= i < st0.file_metadata@.len() && st0.file_metadata@[i]@.path
            == p;
        assert(fvec[i] == st0.file_metadata@[i]@);
    }
    lemma_file_removed_contains(fvec, l, p);
    lemma_remove_file_paths_gone(st0.files(), removed_f, p);
    // The plan's segments.
    let rm_d = crate::sync_logic::dir_removal_actions(ks, crate::sync_logic::dir_removed_paths(
        crate::locations::dir_views(st0.dir_metadata@), l, exempt));
    let m_rm_d = crate::sync_logic::remove_dir_paths(st0.dirs(), crate::sync_logic::dir_removed_paths(
        crate::locations::dir_views(st0.dir_metadata@), l, exempt));
    let cr = crate::sync_logic::dir_creations(ks, loc, l.dirs, m_rm_d);
    let rm_f = crate::sync_logic::file_removal_actions(ks, removed_f);
    assert(a == rm_d + cr.0 + rm_f);
    assert forall|j: int|
        0 <= j < w.len() && !(ks[j] is Archive) implies !(#[trigger] apply_actions(
        w,
        a,
    )[j]).files.contains_key(p) by {
        lemma_rm_f_member_and_apply(ks, removed_f, w, a, rm_d + cr.0, rm_f, p, j);
    }
}

/// Within the deletion segment, the `DeleteFile` for `p` on `j` is
/// present, and applying the whole plan leaves `j` without `p`.
proof fn lemma_rm_f_member_and_apply(
    ks: Seq<LocationKind>,
    removed_f: Seq<Seq<char>>,
    w: Seq<EndpointState>,
    a: Seq<SyncActionV>,
    prefix: Seq<SyncActionV>,
    rm_f: Seq<SyncActionV>,
    p: Seq<char>,
    j: int,
)
    requires
        a == prefix + rm_f,
        rm_f == crate::sync_logic::file_removal_actions(ks, removed_f),
        removed_f.contains(p),
        0 <= j < w.len(),
        w.len() == ks.len(),
        forall|jj: int| 0 <= jj < w.len() ==> (#[trigger] w[jj]).kind == ks[jj],
        !(ks[j] is Archive),
    ensures
        !apply_actions(w, a)[j].files.contains_key(p),
{
    lemma_apply_actions_concat(w, prefix, rm_f);
    let w1 = apply_actions(w, prefix);
    lemma_archive_immutable(w, prefix);
    lemma_file_removal_member(ks, removed_f, p, j);
    let k = choose|k: int|
        0 <= k < rm_f.len() && rm_f[k] == SyncActionV::DeleteFile { loc: j, path: p };
    // Split the deletion segment around index k.
    let before = rm_f.take(k);
    let after = rm_f.skip(k + 1);
    assert(rm_f =~= before + seq![rm_f[k]] + after);
    lemma_apply_actions_concat(w1, before + seq![rm_f[k]], after);
    lemma_apply_actions_concat(w1, before, seq![rm_f[k]]);
    let w2 = apply_actions(w1, before);
    lemma_archive_immutable(w1, before);
    let w3 = apply_actions(w2, seq![rm_f[k]]);
    assert(apply_actions(w2, seq![rm_f[k]].drop_last()) == w2) by {
        assert(seq![rm_f[k]].drop_last() =~= Seq::<SyncActionV>::empty());
    }
    assert(w3 == apply_action(w2, rm_f[k]));
    assert(w2[j].kind == ks[j]);
    assert(!w3[j].files.contains_key(p));
    assert(forall|kk: int|
        0 <= kk < after.len() ==> !((#[trigger] after[kk]) matches SyncActionV::CopyFile {
            path,
            ..
        } && path == p)) by {
        assert forall|kk: int|
            0 <= kk < after.len() implies !((#[trigger] after[kk])
                matches SyncActionV::CopyFile { path, .. } && path == p) by {
            assert(after[kk] == rm_f[k + 1 + kk]);
            lemma_file_removal_shape(ks, removed_f, k + 1 + kk);
        }
    }
    lemma_archive_immutable(w2, seq![rm_f[k]]);
    lemma_no_copy_preserves_absent(w3, after, j, p);
    assert(apply_actions(w, a) == apply_actions(w3, after)) by {
        assert(apply_actions(w1, rm_f) == apply_actions(w3, after));
    }
}

/// The deletion segment holds the `DeleteFile` for every dropped path
/// and every non-archive location.
pub proof fn lemma_file_removal_member(
    ks: Seq<LocationKind>,
    rfs: Seq<Seq<char>>,
    p: Seq<char>,
    j: int,
)
    requires
        rfs.contains(p),
        0 <= j < ks.len(),
        !(ks[j] is Archive),
    ensures
        crate::sync_logic::file_removal_actions(ks, rfs).contains(
            SyncActionV::DeleteFile { loc: j, path: p },
        ),
    decreases rfs.len(),
{
    let whole = crate::sync_logic::file_removal_actions(ks, rfs);
    let pre = crate::sync_logic::file_removal_actions(ks, rfs.drop_last());
    if rfs.last() == p {
        lemma_df_fanout_member(ks, p, ks.len() as int, j);
        let k = choose|k: int|
            0 <= k < crate::sync_logic::df_fanout(ks, p, ks.len() as int).len()
                && crate::sync_logic::df_fanout(ks, p, ks.len() as int)[k]
                == SyncActionV::DeleteFile { loc: j, path: p };
        assert(whole[pre.len() + k] == SyncActionV::DeleteFile { loc: j, path: p });
        assert(whole.contains(SyncActionV::DeleteFile { loc: j, path: p }));
    } else {
        assert(rfs.drop_last().contains(p)) by {
            let i = choose|i: int| 0 <= i < rfs.len() && rfs[i] == p;
            assert(rfs.drop_last()[i] == p);
        }
        lemma_file_removal_member(ks, rfs.drop_last(), p, j);
        let k = choose|k: int|
            0 <= k < pre.len() && pre[k] == SyncActionV::DeleteFile { loc: j, path: p };
        assert(whole[k] == pre[k]);
        assert(whole.contains(SyncActionV::DeleteFile { loc: j, path: p }));
    }
}

/// A poll of an archive location plans only directory creations, so no
/// endpoint's files change at all.
pub proof fn lemma_archive_poll_changes_no_files(
    ks: Seq<LocationKind>,
    loc: int,
    l: ListingV,
    exempt: Seq<Seq<char>>,
    st0: crate::sync_logic::SyncState,
    st1: crate::sync_logic::SyncState,
    a: Seq<SyncActionV>,
    ts: Seq<Seq<char>>,
    w: Seq<EndpointState>,
)
    requires
        crate::sync_logic::poll_step_ok(ks, loc, l, exempt, st0, st1, a, ts),
        l.kind is Archive,
    ensures
        st1.files() == st0.files(),
        forall|j: int|
            0 <= j < w.len() ==> (#[trigger] apply_actions(w, a)[j]).files == w[j].files,
{
    let m_rm_d = st0.dirs();
    let cr = crate::sync_logic::dir_creations(ks, loc, l.dirs, m_rm_d);
    assert(a =~= cr.0);
    assert forall|k: int|
        0 <= k < a.len() implies (#[trigger] a[k]) matches SyncActionV::CreateDir { .. } by {
        lemma_dir_creations_shape(ks, loc, l.dirs, m_rm_d, k);
    }
    assert forall|j: int|
        0 <= j < w.len() implies (#[trigger] apply_actions(w, a)[j]).files == w[j].files by {
        lemma_all_create_dir_preserves_files(w, a, j, ks, loc, l, m_rm_d);
    }
}

proof fn lemma_all_create_dir_preserves_files(
    w: Seq<EndpointState>,
    acts: Seq<SyncActionV>,
    j: int,
    ks: Seq<LocationKind>,
    loc: int,
    l: ListingV,
    m: Map<Seq<char>, DirRec>,
)
    requires
        0 <= j < w.len(),
        forall|k: int|
            0 <= k < acts.len() ==> (#[trigger] acts[k]) matches SyncActionV::CreateDir { .. },
    ensures
        apply_actions(w, acts)[j].files == w[j].files,
    decreases acts.len(),
{
    if acts.len() > 0 {
        assert(forall|k: int|
            0 <= k < acts.drop_last().len() ==> (#[trigger] acts.drop_last()[k])
                matches SyncActionV::CreateDir { .. });
        lemma_all_create_dir_preserves_files(w, acts.drop_last(), j, ks, loc, l, m);
        lemma_archive_immutable(w, acts.drop_last());
        assert(acts.last() matches SyncActionV::CreateDir { .. });
    }
}

/// Directory creation mirrors: a directory listed at one location and
/// not yet recorded is recorded, and appears on every other non-archive
/// location after the plan is applied.
pub proof fn lemma_dir_creation_mirrors(
    ks: Seq<LocationKind>,
    loc: int,
    l: ListingV,
    exempt: Seq<Seq<char>>,
    st0: crate::sync_logic::SyncState,
    st1: crate::sync_logic::SyncState,
    a: Seq<SyncActionV>,
    ts: Seq<Seq<char>>,
    w: Seq<EndpointState>,
    p: Seq<char>,
)
    requires
        crate::sync_logic::poll_step_ok(ks, loc, l, exempt, st0, st1, a, ts),
        w.len() == ks.len(),
        forall|j: int| 0 <= j < w.len() ==> (#[trigger] w[j]).kind == ks[j],
        exists|i: int| 0 <= i < l.dirs.len() && l.dirs[i].path == p,
        !st0.dirs().contains_key(p),
    ensures
        st1.dirs().contains_key(p),
        forall|j: int|
            0 <= j < w.len() && !(ks[j] is Archive) && j != loc
                ==> (#[trigger] apply_actions(w, a)[j]).dirs.contains_key(p),
{
    let removed_d = crate::sync_logic::dir_removed_paths(
        crate::locations::dir_views(st0.dir_metadata@),
        l,
        exempt,
    );
    let m_rm_d = if l.kind is Archive {
        st0.dirs()
    } else {
        crate::sync_logic::remove_dir_paths(st0.dirs(), removed_d)
    };
    lemma_remove_dir_paths_absent(st0.dirs(), removed_d, p);
    assert(!m_rm_d.contains_key(p));
    let cr = crate::sync_logic::dir_creations(ks, loc, l.dirs, m_rm_d);
    lemma_dir_creations_dom(ks, loc, l.dirs, m_rm_d, p);
    assert(st1.dirs().contains_key(p));
    let rm_d = if l.kind is Archive {
        Seq::<SyncActionV>::empty()
    } else {
        crate::sync_logic::dir_removal_actions(ks, removed_d)
    };
    let rm_f = if l.kind is Archive {
        Seq::<SyncActionV>::empty()
    } else {
        crate::sync_logic::file_removal_actions(
            ks,
            crate::sync_logic::file_removed_paths(
                crate::locations::file_views(st0.file_metadata@),
                l,
            ),
        )
    };
    assert(a == rm_d + cr.0 + rm_f);
    assert forall|j: int|
        0 <= j < w.len() && !(ks[j] is Archive) && j != loc implies (#[trigger] apply_actions(
        w,
        a,
    )[j]).dirs.contains_key(p) by {
        lemma_dir_creations_member(ks, loc, l.dirs, m_rm_d, p, j);
        let t = choose|t: u64|
            cr.0.contains(SyncActionV::CreateDir { loc: j, path: p, modified: t });
        let k = choose|k: int|
            0 <= k < cr.0.len() && cr.0[k] == SyncActionV::CreateDir {
                loc: j,
                path: p,
                modified: t,
            };
        lemma_apply_actions_concat(w, rm_d + cr.0, rm_f);
        lemma_apply_actions_concat(w, rm_d, cr.0);
        let w1 = apply_actions(w, rm_d);
        lemma_archive_immutable(w, rm_d);
        // Split the creation segment around index k.
        let before = cr.0.take(k);
        let mid = seq![cr.0[k]];
        let after = cr.0.skip(k + 1);
        assert(cr.0 =~= before + mid + after);
        lemma_apply_actions_concat(w1, before + mid, after);
        lemma_apply_actions_concat(w1, before, mid);
        let w2 = apply_actions(w1, before);
        lemma_archive_immutable(w1, before);
        let w3 = apply_actions(w2, mid);
        assert(apply_actions(w2, mid.drop_last()) == w2) by {
            assert(mid.drop_last() =~= Seq::<SyncActionV>::empty());
        }
        assert(w3 == apply_action(w2, cr.0[k]));
        assert(w2[j].kind == ks[j]);
        assert(w3[j].dirs.contains_key(p));
        assert(forall|kk: int|
            0 <= kk < after.len() ==> !((#[trigger] after[kk]) matches SyncActionV::RemoveDir {
                ..
            })) by {
            assert forall|kk: int|
                0 <= kk < after.len() implies !((#[trigger] after[kk])
                    matches SyncActionV::RemoveDir { .. }) by {
                assert(after[kk] == cr.0[k + 1 + kk]);
                lemma_dir_creations_shape(ks, loc, l.dirs, m_rm_d, k + 1 + kk);
            }
        }
        assert(forall|kk: int|
            0 <= kk < rm_f.len() ==> !((#[trigger] rm_f[kk]) matches SyncActionV::RemoveDir {
                ..
            })) by {
            assert forall|kk: int|
                0 <= kk < rm_f.len() implies !((#[trigger] rm_f[kk])
                    matches SyncActionV::RemoveDir { .. }) by {
                if !(l.kind is Archive) {
                    lemma_file_removal_shape(
                        ks,
                        crate::sync_logic::file_removed_paths(
                            crate::locations::file_views(st0.file_metadata@),
                            l,
                        ),
                        kk,
                    );
                }
            }
        }
        lemma_archive_immutable(w2, mid);
        assert forall|kk: int|
            0 <= kk < (after + rm_f).len() implies !((#[trigger] (after + rm_f)[kk])
                matches SyncActionV::RemoveDir { .. }) by {
            if kk < after.len() {
                assert((after + rm_f)[kk] == after[kk]);
            } else {
                assert((after + rm_f)[kk] == rm_f[kk - after.len()]);
            }
        }
        lemma_no_remove_dir_preserves_dirs(w3, after + rm_f, j, p);
        lemma_apply_actions_concat(w3, after, rm_f);
        assert(apply_actions(w, a) == apply_actions(w3, after + rm_f)) by {
            assert(apply_actions(w1, cr.0) == apply_actions(w3, after));
        }
    }
}

/// Whether `cands` is exactly what each endpoint of `w` reports at
/// `p`: the record of the file held there, or nothing.
pub open spec fn cands_mirror(
    cands: Seq<Option<FileRec>>,
    w: Seq<EndpointState>,
    p: Seq<char>,
) -> bool {
    &&& cands.len() == w.len()
    &&& forall|j: int|
        0 <= j < w.len() ==> (#[trigger] cands[j]) == (if w[j].files.contains_key(p) {
            Some(file_rec_of(p, w[j].files[p]))
        } else {
            None::<FileRec>
        })
}

/// What applying one copy fan-out does at `p`: the winner and the
/// archives keep their entries, every other location whose copy
/// [`crate::sync_logic::copy_target`] selects receives the winner's
/// file, everything else is untouched.
pub proof fn lemma_copy_block_apply(
    w: Seq<EndpointState>,
    cands: Seq<Option<FileRec>>,
    wdx: int,
    wrec: FileRec,
    p: Seq<char>,
    n: int,
)
    requires
        0 <= wdx < cands.len(),
        n <= cands.len(),
        cands.len() == w.len(),
        w[wdx].files.contains_key(p),
    ensures
        ({
            let w1 = apply_actions(w, copy_actions(cands, wdx, wrec, p, n));
            &&& w1.len() == w.len()
            &&& forall|j: int| 0 <= j < w.len() ==> (#[trigger] w1[j]).kind == w[j].kind
            &&& forall|j: int| 0 <= j < w.len() ==> (#[trigger] w1[j]).dirs == w[j].dirs
            &&& w1[wdx] == w[wdx]
            &&& forall|j: int|
                0 <= j < w.len() && (j >= n || j == wdx || w[j].kind is Archive
                    || !crate::sync_logic::copy_target(cands[j], wrec)) ==> (#[trigger] w1[j]).files
                    == w[j].files
            &&& forall|j: int|
                0 <= j < n && j != wdx && !(w[j].kind is Archive)
                    && crate::sync_logic::copy_target(cands[j], wrec) ==> (#[trigger] w1[j]).files
                    == w[j].files.insert(p, w[wdx].files[p])
        }),
    decreases n,
{
    if n <= 0 {
        assert(copy_actions(cands, wdx, wrec, p, n) =~= Seq::<SyncActionV>::empty());
    } else {
        lemma_copy_block_apply(w, cands, wdx, wrec, p, n - 1);
        let pre_acts = copy_actions(cands, wdx, wrec, p, n - 1);
        let acts = copy_actions(cands, wdx, wrec, p, n);
        let w_pre = apply_actions(w, pre_acts);
        let j0 = n - 1;
        if j0 != wdx {
            if crate::sync_logic::copy_target(cands[j0], wrec) {
                assert(acts.drop_last() =~= pre_acts);
                assert(acts.last() == SyncActionV::CopyFile { from: wdx, to: j0, path: p });
                assert(w_pre[wdx].files.contains_key(p));
            } else {
                assert(acts =~= pre_acts);
            }
        } else {
            assert(acts =~= pre_acts);
        }
    }
}

/// Idempotence of the initial reconciliation on files: a second run
/// over listings of the reconciled world changes no endpoint's file
/// entry at any path.
pub proof fn lemma_initial_sync_idempotent_files(
    w: Seq<EndpointState>,
    ls: Seq<ListingV>,
    ls1: Seq<ListingV>,
    p: Seq<char>,
)
    requires
        w.len() == ls.len(),
        w.len() == ls1.len(),
        forall|i: int| 0 <= i < w.len() ==> listing_matches(#[trigger] ls[i], w[i]),
        forall|i: int|
            0 <= i < w.len() ==> listing_matches(
                #[trigger] ls1[i],
                apply_actions(w, initial_sync_plan(ls))[i],
            ),
    ensures
        files_agree_at(
            apply_actions(w, initial_sync_plan(ls)),
            apply_actions(
                apply_actions(w, initial_sync_plan(ls)),
                initial_sync_plan(ls1),
            ),
            p,
        ),
        match file_scan(file_candidates(ls1, p), w.len() as int) {
            (Some(w2x), m2) => forall|j: int|
                0 <= j < w.len() && !((#[trigger] w[j]).kind is Archive) && j != w2x
                    ==> !crate::sync_logic::copy_target(
                    file_candidates(ls1, p)[j],
                    file_candidates(ls1, p)[w2x]->0,
                ),
            (None, _) => true,
        },
{
    let n = w.len() as int;
    let plan = initial_sync_plan(ls);
    let w1 = apply_actions(w, plan);
    let plan1 = initial_sync_plan(ls1);
    let w2 = apply_actions(w1, plan1);
    lemma_archive_immutable(w, plan);
    lemma_archive_immutable(w1, plan1);
    let a1 = lemma_initial_run_at(w, ls, p);
    let cands = file_candidates(ls, p);
    assert(cands_mirror(cands, w, p)) by {
        assert forall|j: int|
            0 <= j < w.len() implies (#[trigger] cands[j]) == (if w[j].files.contains_key(p) {
            Some(file_rec_of(p, w[j].files[p]))
        } else {
            None::<FileRec>
        }) by {
            lemma_match_find_file(ls[j], w[j], p);
        }
    }
    let a2 = lemma_initial_run_at(w1, ls1, p);
    let cands1 = file_candidates(ls1, p);
    assert(cands_mirror(cands1, w1, p)) by {
        assert forall|j: int|
            0 <= j < w1.len() implies (#[trigger] cands1[j]) == (if w1[j].files.contains_key(p) {
            Some(file_rec_of(p, w1[j].files[p]))
        } else {
            None::<FileRec>
        }) by {
            lemma_match_find_file(ls1[j], w1[j], p);
        }
    }
    match file_scan(cands, n) {
        (Some(wdx), wmod) => {
            crate::sync_logic::lemma_file_scan_props(cands, n);
            crate::sync_logic::lemma_file_scan_max(cands, n);
            crate::sync_logic::lemma_file_scan_first(cands, n);
            let wrec = cands[wdx]->0;
            assert(w[wdx].files.contains_key(p));
            assert(wrec == file_rec_of(p, w[wdx].files[p]));
            // After the first run, each location's record is either the
            // winner's (where it was copied) or its own, untouched.
            assert forall|j: int|
                0 <= j < n implies #[trigger] cands1[j] == (if j != wdx && !(w[j].kind
                is Archive) && crate::sync_logic::copy_target(cands[j], wrec) {
                Some(wrec)
            } else {
                cands[j]
            }) by {
                assert(w1[j].kind == w[j].kind);
                if j != wdx && !(w[j].kind is Archive) && crate::sync_logic::copy_target(
                    cands[j],
                    wrec,
                ) {
                    assert(w1[j].files.contains_key(p) && w1[j].files[p] == w[wdx].files[p]);
                } else {
                    assert(w1[j].files.contains_key(p) == w[j].files.contains_key(p));
                }
            }
            assert(cands1[wdx] == cands[wdx]);
            match file_scan(cands1, n) {
                (Some(w2x), wmod2) => {
                    crate::sync_logic::lemma_file_scan_props(cands1, n);
                    crate::sync_logic::lemma_file_scan_max(cands1, n);
                    crate::sync_logic::lemma_file_scan_first(cands1, n);
                    // The second maximum is the first.
                    assert(wmod <= wmod2) by {
                        assert(cands1[wdx] is Some && cands1[wdx]->0.modified == wmod);
                    }
                    assert(wmod2 <= wmod) by {
                        if cands1[w2x] == Some(wrec) {
                        } else {
                            assert(cands1[w2x] == cands[w2x]);
                            assert(cands[w2x]->0.modified <= wmod);
                        }
                    }
                    // The second winner carries the first winner's record.
                    let wrec2 = cands1[w2x]->0;
                    assert(wrec2 == wrec) by {
                        if cands1[w2x] == Some(wrec) {
                        } else {
                            assert(cands1[w2x] == cands[w2x]);
                            assert(w2x >= wdx) by {
                                if w2x < wdx {
                                    assert(cands[w2x] is Some);
                                    assert(cands[w2x]->0.modified < wmod);
                                }
                            }
                            assert(w2x <= wdx) by {
                                if w2x > wdx {
                                    assert(cands1[wdx] is Some);
                                    assert(cands1[wdx]->0.modified < wmod2);
                                }
                            }
                        }
                    }
                    // No mutable location is a target the second time
                    // around.
                    assert forall|j: int|
                        0 <= j < n && !((#[trigger] w[j]).kind is Archive) && j != w2x
                            implies !crate::sync_logic::copy_target(cands1[j], wrec2) by {
                        if cands1[j] == Some(wrec) {
                            assert(!crate::sync_logic::copy_target(Some(wrec), wrec));
                        } else {
                            assert(cands1[j] == cands[j]);
                            if j == wdx {
                                assert(!crate::sync_logic::copy_target(Some(wrec), wrec));
                            } else {
                                assert(!crate::sync_logic::copy_target(cands[j], wrec));
                            }
                        }
                    }
                    assert forall|j: int|
                        0 <= j < n implies (#[trigger] w2[j]).files.contains_key(p)
                        == w1[j].files.contains_key(p) && (w1[j].files.contains_key(p)
                        ==> w2[j].files[p] == w1[j].files[p]) by {
                        if !(j == w2x || w1[j].kind is Archive) {
                            assert(w1[j].kind == w[j].kind);
                            assert(!crate::sync_logic::copy_target(cands1[j], wrec2));
                        }
                    }
                    assert(files_agree_at(w1, w2, p));
                },
                (None, _) => {
                    crate::sync_logic::lemma_file_scan_props(cands1, n);
                    assert(cands1[wdx] is None);
                    assert(false);
                },
            }
        },
        (None, _) => {
            // No copy present anywhere: neither run plans anything.
            crate::sync_logic::lemma_file_scan_props(cands, n);
            assert(files_agree_at(w, w1, p));
            match file_scan(cands1, n) {
                (Some(w2x), wmod2) => {
                    crate::sync_logic::lemma_file_scan_props(cands1, n);
                    assert(cands1[w2x] is Some);
                    assert(w1[w2x].files.contains_key(p));
                    assert(w[w2x].files.contains_key(p));
                    assert(cands[w2x] is Some);
                    assert(false);
                },
                (None, _) => {
                    assert(files_agree_at(w1, w2, p));
                },
            }
        },
    }
}

/// The first run's effect at one path: the winner and the archives
/// keep their entries, every other location whose record the winner
/// selects for a copy receives the winner's file, everything else is
/// untouched.
proof fn lemma_initial_run_at(w: Seq<EndpointState>, ls: Seq<ListingV>, p: Seq<char>) -> (r: int)
    requires
        w.len() == ls.len(),
        forall|i: int| 0 <= i < w.len() ==> listing_matches(#[trigger] ls[i], w[i]),
    ensures
        r == 0,
        ({
            let n = w.len() as int;
            let w1 = apply_actions(w, initial_sync_plan(ls));
            let cands = file_candidates(ls, p);
            match file_scan(cands, n) {
                (Some(wdx), wmod) => {
                    &&& w1.len() == w.len()
                    &&& (forall|j: int|
                        0 <= j < n && (j == wdx || w[j].kind is Archive
                            || !crate::sync_logic::copy_target(
                            file_candidates(ls, p)[j],
                            file_candidates(ls, p)[wdx]->0,
                        )) ==> (#[trigger] w1[j]).files.contains_key(p)
                            == w[j].files.contains_key(p) && (w[j].files.contains_key(p)
                            ==> w1[j].files[p] == w[j].files[p]))
                    &&& (forall|j: int|
                        0 <= j < n && j != wdx && !(w[j].kind is Archive)
                            && crate::sync_logic::copy_target(
                            file_candidates(ls, p)[j],
                            file_candidates(ls, p)[wdx]->0,
                        ) ==> (#[trigger] w1[j]).files.contains_key(p) && w1[j].files[p]
                            == w[wdx].files[p])
                },
                (None, _) => files_agree_at(w, apply_actions(w, initial_sync_plan(ls)), p),
            }
        }),
{
    let n = w.len() as int;
    let plan = initial_sync_plan(ls);
    let dplan = crate::sync_logic::dirs_phase_actions(ls, crate::sync_logic::dir_union(ls));
    let fpaths = crate::sync_logic::file_union(ls);
    let fplan = files_phase_actions(ls, fpaths);
    lemma_apply_actions_concat(w, dplan, fplan);
    let w_d = apply_actions(w, dplan);
    assert(forall|k: int| 0 <= k < dplan.len() ==> action_avoids_file(#[trigger] dplan[k], p)) by {
        assert forall|k: int|
            0 <= k < dplan.len() implies action_avoids_file(#[trigger] dplan[k], p) by {
            lemma_dirs_phase_actions_shape(ls, crate::sync_logic::dir_union(ls), k);
        }
    }
    lemma_avoid_preserves_files_at(w, dplan, p);
    lemma_dedup_paths_props(crate::sync_logic::all_file_paths(ls));
    let cands = file_candidates(ls, p);
    assert(cands_mirror(cands, w, p)) by {
        assert forall|j: int|
            0 <= j < w.len() implies (#[trigger] cands[j]) == (if w[j].files.contains_key(p) {
            Some(file_rec_of(p, w[j].files[p]))
        } else {
            None::<FileRec>
        }) by {
            lemma_match_find_file(ls[j], w[j], p);
        }
    }
    let w1 = apply_actions(w, plan);
    assert(w1 == apply_actions(w_d, fplan));
    lemma_files_phase_at(ls, fpaths, w_d, p);
    if fpaths.contains(p) {
        let block = file_path_block(ls, p);
        let wb = apply_actions(w_d, block);
        assert(files_agree_at(wb, w1, p));
        match file_scan(cands, n) {
            (Some(wdx), wmod) => {
                crate::sync_logic::lemma_file_scan_props(cands, n);
                let wrec = cands[wdx]->0;
                assert(w_d[wdx].files.contains_key(p));
                lemma_copy_block_apply(w_d, cands, wdx, wrec, p, n);
                assert forall|j: int|
                    0 <= j < n && (j == wdx || w[j].kind is Archive
                        || !crate::sync_logic::copy_target(cands[j], wrec)) implies (
                #[trigger] w1[j]).files.contains_key(p) == w[j].files.contains_key(p) && (
                w[j].files.contains_key(p) ==> w1[j].files[p] == w[j].files[p]) by {
                    assert(w_d[j].kind == w[j].kind);
                    assert(wb[j].files == w_d[j].files);
                }
                assert forall|j: int|
                    0 <= j < n && j != wdx && !(w[j].kind is Archive)
                        && crate::sync_logic::copy_target(cands[j], wrec) implies (
                #[trigger] w1[j]).files.contains_key(p) && w1[j].files[p] == w[wdx].files[p] by {
                    assert(w_d[j].kind == w[j].kind);
                    assert(wb[j].files == w_d[j].files.insert(p, w_d[wdx].files[p]));
                    assert(w_d[wdx].files[p] == w[wdx].files[p]);
                }
            },
            (None, _) => {
                assert(block =~= Seq::<SyncActionV>::empty());
                assert(wb == w_d);
                lemma_agree_trans(w, w_d, w1, p);
            },
        }
    } else {
        assert(files_agree_at(w_d, w1, p));
        lemma_agree_trans(w, w_d, w1, p);
        // Without p in the union no listing holds it, so no scan winner
        // exists either.
        match file_scan(cands, n) {
            (Some(wdx), wmod) => {
                crate::sync_logic::lemma_file_scan_props(cands, n);
                assert(cands[wdx] is Some);
                assert(w[wdx].files.contains_key(p));
                let i = choose|i: int| 0 <= i < ls[wdx].files.len() && ls[wdx].files[i].path == p;
                lemma_file_path_in_union(ls, wdx, i);
                assert(false);
            },
            (None, _) => {},
        }
    }
    0
}
/// Whether an action can change no endpoint's directory entry at `p`.
pub open spec fn action_avoids_dir(a: SyncActionV, p: Seq<char>) -> bool {
    match a {
        SyncActionV::CreateDir { path, .. } => path != p,
        SyncActionV::RemoveDir { .. } => false,
        SyncActionV::CopyFile { .. } => true,
        SyncActionV::DeleteFile { .. } => true,
    }
}

/// Whether two worlds agree on kinds, length, and the directory entry
/// at `p` of every endpoint.
pub open spec fn dirs_agree_at(
    w1: Seq<EndpointState>,
    w2: Seq<EndpointState>,
    p: Seq<char>,
) -> bool {
    &&& w1.len() == w2.len()
    &&& forall|j: int| 0 <= j < w1.len() ==> (#[trigger] w1[j]).kind == w2[j].kind
    &&& forall|j: int|
        0 <= j < w1.len() ==> ((#[trigger] w1[j]).dirs.contains_key(p) <==> w2[j].dirs.contains_key(
            p,
        ))
    &&& forall|j: int|
        0 <= j < w1.len() && (#[trigger] w1[j]).dirs.contains_key(p) ==> w1[j].dirs[p]
            == w2[j].dirs[p]
}

/// Actions that avoid `p` leave every endpoint's directory entry at
/// `p` alone.
pub proof fn lemma_avoid_preserves_dirs_at(
    w: Seq<EndpointState>,
    acts: Seq<SyncActionV>,
    p: Seq<char>,
)
    requires
        forall|k: int| 0 <= k < acts.len() ==> action_avoids_dir(#[trigger] acts[k], p),
    ensures
        dirs_agree_at(w, apply_actions(w, acts), p),
    decreases acts.len(),
{
    if acts.len() > 0 {
        assert(forall|k: int|
            0 <= k < acts.drop_last().len() ==> action_avoids_dir(
                #[trigger] acts.drop_last()[k],
                p,
            ));
        lemma_avoid_preserves_dirs_at(w, acts.drop_last(), p);
        let w1 = apply_actions(w, acts.drop_last());
        lemma_apply_action_frame(w1, acts.last());
        assert(action_avoids_dir(acts.last(), p));
        assert(dirs_agree_at(w1, apply_action(w1, acts.last()), p));
    }
}

/// Transitivity of directory agreement at `p`.
pub proof fn lemma_dirs_agree_trans(
    w1: Seq<EndpointState>,
    w2: Seq<EndpointState>,
    w3: Seq<EndpointState>,
    p: Seq<char>,
)
    requires
        dirs_agree_at(w1, w2, p),
        dirs_agree_at(w2, w3, p),
    ensures
        dirs_agree_at(w1, w3, p),
{
}

/// Every action of the directory pass creates one of its paths.
pub proof fn lemma_dirs_phase_actions_path(ls: Seq<ListingV>, paths: Seq<Seq<char>>, k: int)
    requires
        0 <= k < crate::sync_logic::dirs_phase_actions(ls, paths).len(),
    ensures
        exists|q: Seq<char>|
            paths.contains(q) && ((#[trigger] crate::sync_logic::dirs_phase_actions(ls, paths)[k])
                matches SyncActionV::CreateDir { path, .. } && path == q),
    decreases paths.len(),
{
    if paths.len() > 0 {
        let pre = crate::sync_logic::dirs_phase_actions(ls, paths.drop_last());
        if k < pre.len() {
            lemma_dirs_phase_actions_path(ls, paths.drop_last(), k);
            let q = choose|q: Seq<char>|
                paths.drop_last().contains(q) && ((#[trigger] pre[k])
                    matches SyncActionV::CreateDir { path, .. } && path == q);
            let i = choose|i: int| 0 <= i < paths.drop_last().len() && paths.drop_last()[i] == q;
            assert(paths[i] == q);
            assert(paths.contains(q));
            assert(crate::sync_logic::dirs_phase_actions(ls, paths)[k] == pre[k]);
        } else {
            match crate::sync_logic::dir_scan(dir_candidates(ls, paths.last()), ls.len() as int) {
                (Some(wx), t) => {
                    lemma_cd_actions_path(
                        dir_candidates(ls, paths.last()),
                        wx,
                        paths.last(),
                        t,
                        ls.len() as int,
                        k - pre.len(),
                    );
                    assert(paths[paths.len() - 1] == paths.last());
                    assert(paths.contains(paths.last()));
                },
                (None, _) => {},
            }
        }
    }
}

proof fn lemma_cd_actions_path(
    cands: Seq<Option<DirRec>>,
    widx: int,
    p: Seq<char>,
    t: u64,
    n: int,
    k: int,
)
    requires
        0 <= k < crate::sync_logic::cd_actions(cands, widx, p, t, n).len(),
    ensures
        ((#[trigger] crate::sync_logic::cd_actions(cands, widx, p, t, n)[k])
            matches SyncActionV::CreateDir { path, .. } && path == p),
    decreases n,
{
    if n > 0 {
        let pre = crate::sync_logic::cd_actions(cands, widx, p, t, n - 1);
        if k < pre.len() {
            lemma_cd_actions_path(cands, widx, p, t, n - 1, k);
            assert(crate::sync_logic::cd_actions(cands, widx, p, t, n)[k] == pre[k]);
        }
    }
}

/// Two worlds agreeing at `p` stay in agreement under actions that
/// only create `p`.
pub proof fn lemma_creates_at_p_local(
    w1: Seq<EndpointState>,
    w2: Seq<EndpointState>,
    acts: Seq<SyncActionV>,
    p: Seq<char>,
)
    requires
        dirs_agree_at(w1, w2, p),
        forall|k: int|
            0 <= k < acts.len() ==> ((#[trigger] acts[k]) matches SyncActionV::CreateDir {
                path,
                ..
            } && path == p),
    ensures
        dirs_agree_at(apply_actions(w1, acts), apply_actions(w2, acts), p),
    decreases acts.len(),
{
    if acts.len() > 0 {
        assert(forall|k: int|
            0 <= k < acts.drop_last().len() ==> ((#[trigger] acts.drop_last()[k])
                matches SyncActionV::CreateDir { path, .. } && path == p));
        lemma_creates_at_p_local(w1, w2, acts.drop_last(), p);
        let u1 = apply_actions(w1, acts.drop_last());
        let u2 = apply_actions(w2, acts.drop_last());
        let a = acts.last();
        assert((a matches SyncActionV::CreateDir { path, .. } && path == p));
        lemma_apply_action_frame(u1, a);
        lemma_apply_action_frame(u2, a);
        assert(dirs_agree_at(apply_action(u1, a), apply_action(u2, a), p));
    }
}

/// The block of actions the initial directory pass devotes to one
/// path.
pub open spec fn dir_path_block(ls: Seq<ListingV>, p: Seq<char>) -> Seq<SyncActionV> {
    let cands = dir_candidates(ls, p);
    match crate::sync_logic::dir_scan(cands, ls.len() as int) {
        (Some(wx), t) => crate::sync_logic::cd_actions(cands, wx, p, t, ls.len() as int),
        (None, _) => Seq::empty(),
    }
}

/// At any one path, the whole directory pass acts exactly as that
/// path's own block does.
pub proof fn lemma_dirs_phase_at(
    ls: Seq<ListingV>,
    paths: Seq<Seq<char>>,
    w: Seq<EndpointState>,
    p: Seq<char>,
)
    requires
        forall|i: int, j: int| 0 <= i < j < paths.len() ==> paths[i] != paths[j],
    ensures
        paths.contains(p) ==> dirs_agree_at(
            apply_actions(w, dir_path_block(ls, p)),
            apply_actions(w, crate::sync_logic::dirs_phase_actions(ls, paths)),
            p,
        ),
        !paths.contains(p) ==> dirs_agree_at(
            w,
            apply_actions(w, crate::sync_logic::dirs_phase_actions(ls, paths)),
            p,
        ),
    decreases paths.len(),
{
    if paths.len() == 0 {
        assert(!paths.contains(p));
        assert(apply_actions(w, crate::sync_logic::dirs_phase_actions(ls, paths)) == w);
    } else {
        let pre_paths = paths.drop_last();
        let q = paths.last();
        let pre = crate::sync_logic::dirs_phase_actions(ls, pre_paths);
        let block_q = dir_path_block(ls, q);
        assert(crate::sync_logic::dirs_phase_actions(ls, paths) == pre + block_q) by {
            match crate::sync_logic::dir_scan(dir_candidates(ls, q), ls.len() as int) {
                (Some(wx), t) => {},
                (None, _) => {
                    assert(crate::sync_logic::dirs_phase_actions(ls, paths) =~= pre + block_q);
                },
            }
        }
        lemma_apply_actions_concat(w, pre, block_q);
        let w_pre = apply_actions(w, pre);
        assert(forall|i: int, j: int|
            0 <= i < j < pre_paths.len() ==> pre_paths[i] != pre_paths[j]);
        lemma_dirs_phase_at(ls, pre_paths, w, p);
        assert(forall|k: int|
            0 <= k < block_q.len() ==> ((#[trigger] block_q[k]) matches SyncActionV::CreateDir {
                path,
                ..
            } && path == q)) by {
            assert forall|k: int|
                0 <= k < block_q.len() implies ((#[trigger] block_q[k])
                    matches SyncActionV::CreateDir { path, .. } && path == q) by {
                match crate::sync_logic::dir_scan(dir_candidates(ls, q), ls.len() as int) {
                    (Some(wx), t) => {
                        lemma_cd_actions_path(dir_candidates(ls, q), wx, q, t, ls.len() as int, k);
                    },
                    (None, _) => {},
                }
            }
        }
        if p == q {
            assert(forall|i: int| 0 <= i < pre_paths.len() ==> pre_paths[i] != p) by {
                assert forall|i: int| 0 <= i < pre_paths.len() implies pre_paths[i] != p by {
                    assert(paths[i] == pre_paths[i]);
                    assert(paths[paths.len() - 1] == p);
                }
            }
            assert(forall|k: int| 0 <= k < pre.len() ==> action_avoids_dir(#[trigger] pre[k], p))
                by {
                assert forall|k: int|
                    0 <= k < pre.len() implies action_avoids_dir(#[trigger] pre[k], p) by {
                    lemma_dirs_phase_actions_path(ls, pre_paths, k);
                    let qq = choose|qq: Seq<char>|
                        pre_paths.contains(qq) && ((#[trigger] pre[k])
                            matches SyncActionV::CreateDir { path, .. } && path == qq);
                    let ii = choose|ii: int| 0 <= ii < pre_paths.len() && pre_paths[ii] == qq;
                }
            }
            lemma_avoid_preserves_dirs_at(w, pre, p);
            lemma_creates_at_p_local(w, w_pre, block_q, p);
            assert(paths.contains(p)) by {
                assert(paths[paths.len() - 1] == p);
            }
        } else {
            assert(forall|k: int|
                0 <= k < block_q.len() ==> action_avoids_dir(#[trigger] block_q[k], p));
            lemma_avoid_preserves_dirs_at(w_pre, block_q, p);
            if pre_paths.contains(p) {
                let wb = apply_actions(w, dir_path_block(ls, p));
                lemma_dirs_agree_trans(wb, w_pre, apply_actions(w_pre, block_q), p);
                assert(paths.contains(p)) by {
                    let ii = choose|ii: int| 0 <= ii < pre_paths.len() && pre_paths[ii] == p;
                    assert(paths[ii] == p);
                }
            } else {
                lemma_dirs_agree_trans(w, w_pre, apply_actions(w_pre, block_q), p);
                assert(!paths.contains(p)) by {
                    if paths.contains(p) {
                        let ii = choose|ii: int| 0 <= ii < paths.len() && paths[ii] == p;
                        assert(ii == paths.len() - 1 || pre_paths[ii] == p);
                    }
                }
            }
        }
    }
}

/// The running directory scan's time bounds every candidate it has
/// passed.
pub proof fn lemma_dir_scan_max(cands: Seq<Option<DirRec>>, i: int)
    requires
        0 <= i <= cands.len(),
    ensures
        forall|k: int|
            0 <= k < i && (#[trigger] cands[k]) is Some ==> cands[k]->0.modified
                <= crate::sync_logic::dir_scan(cands, i).1,
    decreases i,
{
    if i > 0 {
        lemma_dir_scan_max(cands, i - 1);
        crate::sync_logic::lemma_dir_scan_props(cands, i - 1);
    }
}

/// Whether `cands` mirrors what each endpoint of `w` holds at
/// directory `p`.
pub open spec fn dir_cands_mirror(
    cands: Seq<Option<DirRec>>,
    w: Seq<EndpointState>,
    p: Seq<char>,
) -> bool {
    &&& cands.len() == w.len()
    &&& forall|j: int|
        0 <= j < w.len() ==> ((#[trigger] cands[j]) is Some <==> w[j].dirs.contains_key(p))
    &&& forall|j: int|
        0 <= j < w.len() && (#[trigger] cands[j]) is Some ==> cands[j]->0.modified == w[j].dirs[p]
}

/// What applying one `create_dir` fan-out does at `p`: every
/// non-archive location without the directory receives it at the
/// winner's time; every other entry is untouched, files everywhere are
/// untouched.
pub proof fn lemma_cd_block_apply(
    w: Seq<EndpointState>,
    cands: Seq<Option<DirRec>>,
    wdx: int,
    t: u64,
    p: Seq<char>,
    n: int,
)
    requires
        n <= w.len(),
    ensures
        ({
            let w1 = apply_actions(w, crate::sync_logic::cd_actions(cands, wdx, p, t, n));
            &&& w1.len() == w.len()
            &&& forall|j: int| 0 <= j < w.len() ==> (#[trigger] w1[j]).kind == w[j].kind
            &&& forall|j: int| 0 <= j < w.len() ==> (#[trigger] w1[j]).files == w[j].files
            &&& forall|j: int|
                0 <= j < w.len() && (j >= n || j == wdx || w[j].kind is Archive || cands[j]
                    is Some) ==> (#[trigger] w1[j]).dirs == w[j].dirs
            &&& forall|j: int|
                0 <= j < n && j != wdx && !(w[j].kind is Archive) && cands[j] is None
                    ==> (#[trigger] w1[j]).dirs == (if w[j].dirs.contains_key(p) {
                    w[j].dirs
                } else {
                    w[j].dirs.insert(p, t)
                })
        }),
    decreases n,
{
    if n <= 0 {
        assert(crate::sync_logic::cd_actions(cands, wdx, p, t, n) =~= Seq::<
            SyncActionV,
        >::empty());
    } else {
        lemma_cd_block_apply(w, cands, wdx, t, p, n - 1);
        let pre_acts = crate::sync_logic::cd_actions(cands, wdx, p, t, n - 1);
        let acts = crate::sync_logic::cd_actions(cands, wdx, p, t, n);
        let j0 = n - 1;
        if j0 != wdx && cands[j0] is None {
            assert(acts.drop_last() =~= pre_acts);
            assert(acts.last() == SyncActionV::CreateDir { loc: j0, path: p, modified: t });
        } else {
            assert(acts =~= pre_acts);
        }
    }
}

/// The paths of one listing's directory records occur in the directory
/// union.
pub proof fn lemma_dir_path_in_union(ls: Seq<ListingV>, i: int, k: int)
    requires
        0 <= i < ls.len(),
        0 <= k < ls[i].dirs.len(),
    ensures
        crate::sync_logic::dir_union(ls).contains(ls[i].dirs[k].path),
{
    lemma_all_dir_paths_contains(ls, i, k);
    lemma_dedup_paths_props(crate::sync_logic::all_dir_paths(ls));
}

proof fn lemma_all_dir_paths_contains(ls: Seq<ListingV>, i: int, k: int)
    requires
        0 <= i < ls.len(),
        0 <= k < ls[i].dirs.len(),
    ensures
        crate::sync_logic::all_dir_paths(ls).contains(ls[i].dirs[k].path),
    decreases ls.len(),
{
    let whole = crate::sync_logic::all_dir_paths(ls);
    let pre = crate::sync_logic::all_dir_paths(ls.drop_last());
    if i == ls.len() - 1 {
        assert(whole[pre.len() + k] == crate::sync_logic::dir_paths_of(ls.last())[k]);
        assert(crate::sync_logic::dir_paths_of(ls.last())[k] == ls[i].dirs[k].path);
    } else {
        assert(ls.drop_last()[i] == ls[i]);
        lemma_all_dir_paths_contains(ls.drop_last(), i, k);
        let j = choose|j: int| 0 <= j < pre.len() && pre[j] == ls[i].dirs[k].path;
        assert(whole[j] == pre[j]);
    }
}

/// The first run's effect on directories at one path.
proof fn lemma_initial_run_dirs_at(w: Seq<EndpointState>, ls: Seq<ListingV>, p: Seq<char>) -> (r:
    int)
    requires
        w.len() == ls.len(),
        forall|i: int| 0 <= i < w.len() ==> listing_matches(#[trigger] ls[i], w[i]),
    ensures
        r == 0,
        ({
            let n = w.len() as int;
            let w1 = apply_actions(w, initial_sync_plan(ls));
            let cands = dir_candidates(ls, p);
            match crate::sync_logic::dir_scan(cands, n) {
                (Some(wdx), t) => {
                    &&& w1.len() == w.len()
                    &&& (forall|j: int|
                        0 <= j < n && (j == wdx || w[j].kind is Archive || w[j].dirs.contains_key(
                            p,
                        )) ==> (#[trigger] w1[j]).dirs.contains_key(p) == w[j].dirs.contains_key(p)
                            && (w[j].dirs.contains_key(p) ==> w1[j].dirs[p] == w[j].dirs[p]))
                    &&& (forall|j: int|
                        0 <= j < n && j != wdx && !(w[j].kind is Archive)
                            && !w[j].dirs.contains_key(p) ==> (#[trigger] w1[j]).dirs.contains_key(
                            p,
                        ) && w1[j].dirs[p] == t)
                },
                (None, _) => dirs_agree_at(w, apply_actions(w, initial_sync_plan(ls)), p),
            }
        }),
{
    let n = w.len() as int;
    let plan = initial_sync_plan(ls);
    let dpaths = crate::sync_logic::dir_union(ls);
    let dplan = crate::sync_logic::dirs_phase_actions(ls, dpaths);
    let fplan = files_phase_actions(ls, crate::sync_logic::file_union(ls));
    lemma_apply_actions_concat(w, dplan, fplan);
    let w_d = apply_actions(w, dplan);
    let w1 = apply_actions(w, plan);
    assert(w1 == apply_actions(w_d, fplan));
    // The file pass touches no directories.
    assert(forall|k: int| 0 <= k < fplan.len() ==> action_avoids_dir(#[trigger] fplan[k], p)) by {
        assert forall|k: int|
            0 <= k < fplan.len() implies action_avoids_dir(#[trigger] fplan[k], p) by {
            lemma_files_phase_actions_shape(ls, crate::sync_logic::file_union(ls), k);
        }
    }
    lemma_avoid_preserves_dirs_at(w_d, fplan, p);
    lemma_dedup_paths_props(crate::sync_logic::all_dir_paths(ls));
    let cands = dir_candidates(ls, p);
    assert(dir_cands_mirror(cands, w, p)) by {
        assert forall|j: int|
            0 <= j < w.len() implies ((#[trigger] cands[j]) is Some <==> w[j].dirs.contains_key(p))
            && (cands[j] is Some ==> cands[j]->0.modified == w[j].dirs[p]) by {
            lemma_match_find_dir(ls[j], w[j], p);
        }
    }
    lemma_dirs_phase_at(ls, dpaths, w, p);
    if dpaths.contains(p) {
        let block = dir_path_block(ls, p);
        let wb = apply_actions(w, block);
        assert(dirs_agree_at(wb, w_d, p));
        match crate::sync_logic::dir_scan(cands, n) {
            (Some(wdx), t) => {
                crate::sync_logic::lemma_dir_scan_props(cands, n);
                lemma_cd_block_apply(w, cands, wdx, t, p, n);
                assert forall|j: int|
                    0 <= j < n && (j == wdx || w[j].kind is Archive || w[j].dirs.contains_key(p))
                        implies (#[trigger] w1[j]).dirs.contains_key(p) == w[j].dirs.contains_key(
                    p,
                ) && (w[j].dirs.contains_key(p) ==> w1[j].dirs[p] == w[j].dirs[p]) by {
                    if j == wdx || w[j].kind is Archive || cands[j] is Some {
                        assert(wb[j].dirs == w[j].dirs);
                    } else {
                        assert(wb[j].dirs == w[j].dirs.insert(p, t));
                    }
                }
                assert forall|j: int|
                    0 <= j < n && j != wdx && !(w[j].kind is Archive) && !w[j].dirs.contains_key(p)
                        implies (#[trigger] w1[j]).dirs.contains_key(p) && w1[j].dirs[p] == t by {
                    assert(cands[j] is None);
                    assert(wb[j].dirs == w[j].dirs.insert(p, t));
                }
            },
            (None, _) => {
                assert(block =~= Seq::<SyncActionV>::empty());
                assert(wb == w);
                lemma_dirs_agree_trans(w, w_d, w1, p);
            },
        }
    } else {
        lemma_dirs_agree_trans(w, w_d, w1, p);
        match crate::sync_logic::dir_scan(cands, n) {
            (Some(wdx), t) => {
                crate::sync_logic::lemma_dir_scan_props(cands, n);
                assert(cands[wdx] is Some);
                assert(w[wdx].dirs.contains_key(p));
                let i = choose|i: int| 0 <= i < ls[wdx].dirs.len() && ls[wdx].dirs[i].path == p;
                lemma_dir_path_in_union(ls, wdx, i);
                assert(false);
            },
            (None, _) => {},
        }
    }
    0
}

/// Idempotence of the initial reconciliation on directories: a second
/// run over listings of the reconciled world changes no endpoint's
/// directory entry at any path.
pub proof fn lemma_initial_sync_idempotent_dirs(
    w: Seq<EndpointState>,
    ls: Seq<ListingV>,
    ls1: Seq<ListingV>,
    p: Seq<char>,
)
    requires
        w.len() == ls.len(),
        w.len() == ls1.len(),
        forall|i: int| 0 <= i < w.len() ==> listing_matches(#[trigger] ls[i], w[i]),
        forall|i: int|
            0 <= i < w.len() ==> listing_matches(
                #[trigger] ls1[i],
                apply_actions(w, initial_sync_plan(ls))[i],
            ),
    ensures
        dirs_agree_at(
            apply_actions(w, initial_sync_plan(ls)),
            apply_actions(
                apply_actions(w, initial_sync_plan(ls)),
                initial_sync_plan(ls1),
            ),
            p,
        ),
        match crate::sync_logic::dir_scan(dir_candidates(ls1, p), w.len() as int) {
            (Some(w2x), t2) => forall|j: int|
                0 <= j < w.len() && !((#[trigger] w[j]).kind is Archive) && j != w2x
                    ==> dir_candidates(ls1, p)[j] is Some,
            (None, _) => true,
        },
{
    let n = w.len() as int;
    let plan = initial_sync_plan(ls);
    let w1 = apply_actions(w, plan);
    let plan1 = initial_sync_plan(ls1);
    let w2 = apply_actions(w1, plan1);
    lemma_archive_immutable(w, plan);
    lemma_archive_immutable(w1, plan1);
    let a1 = lemma_initial_run_dirs_at(w, ls, p);
    let a2 = lemma_initial_run_dirs_at(w1, ls1, p);
    let cands = dir_candidates(ls, p);
    let cands1 = dir_candidates(ls1, p);
    assert(dir_cands_mirror(cands, w, p)) by {
        assert forall|j: int|
            0 <= j < w.len() implies ((#[trigger] cands[j]) is Some <==> w[j].dirs.contains_key(p))
            && (cands[j] is Some ==> cands[j]->0.modified == w[j].dirs[p]) by {
            lemma_match_find_dir(ls[j], w[j], p);
        }
    }
    assert(dir_cands_mirror(cands1, w1, p)) by {
        assert forall|j: int|
            0 <= j < w1.len() implies ((#[trigger] cands1[j]) is Some
            <==> w1[j].dirs.contains_key(p)) && (cands1[j] is Some ==> cands1[j]->0.modified
            == w1[j].dirs[p]) by {
            lemma_match_find_dir(ls1[j], w1[j], p);
        }
    }
    match crate::sync_logic::dir_scan(cands, n) {
        (Some(wdx), t) => {
            crate::sync_logic::lemma_dir_scan_props(cands, n);
            lemma_dir_scan_max(cands, n);
            // After the first run every non-archive endpoint holds p, at
            // a time no later than the winner's, and the winner keeps t.
            assert(w[wdx].dirs.contains_key(p));
            assert(w[wdx].dirs[p] == t);
            assert forall|j: int|
                0 <= j < n && !(w1[j].kind is Archive) implies (#[trigger] w1[j]).dirs.contains_key(
                p,
            ) && w1[j].dirs[p] <= t by {
                assert(w1[j].kind == w[j].kind);
                if j == wdx || w[j].dirs.contains_key(p) {
                    assert(cands[j] is Some ==> cands[j]->0.modified <= t);
                } else {
                    assert(w1[j].dirs[p] == t);
                }
            }
            assert(w1[wdx].dirs.contains_key(p) && w1[wdx].dirs[p] == t) by {
                if w[wdx].kind is Archive {
                    assert(w1[wdx] == w[wdx]);
                }
            }
            match crate::sync_logic::dir_scan(cands1, n) {
                (Some(w2x), t2) => {
                    crate::sync_logic::lemma_dir_scan_props(cands1, n);
                    lemma_dir_scan_max(cands1, n);
                    // Every non-archive endpoint already holds p, so no
                    // creation is planned for any of them.
                    assert forall|j: int|
                        0 <= j < n && !((#[trigger] w[j]).kind is Archive) && j != w2x
                            implies cands1[j] is Some by {
                        assert(w1[j].kind == w[j].kind);
                        assert(w1[j].dirs.contains_key(p));
                    }
                    assert forall|j: int|
                        0 <= j < n implies (#[trigger] w2[j]).dirs.contains_key(p)
                        == w1[j].dirs.contains_key(p) && (w1[j].dirs.contains_key(p)
                        ==> w2[j].dirs[p] == w1[j].dirs[p]) by {
                        if !(j == w2x || w1[j].kind is Archive) {
                            assert(w1[j].dirs.contains_key(p));
                        }
                    }
                    assert(dirs_agree_at(w1, w2, p));
                },
                (None, _) => {
                    crate::sync_logic::lemma_dir_scan_props(cands1, n);
                    lemma_dir_scan_max(cands1, n);
                    assert(cands1[wdx] is Some);
                    assert(cands1[wdx]->0.modified <= crate::sync_logic::dir_scan(cands1, n).1);
                    assert(false);
                },
            }
        },
        (None, _) => {
            crate::sync_logic::lemma_dir_scan_props(cands, n);
            lemma_dir_scan_max(cands, n);
            assert(dirs_agree_at(w, w1, p));
            match crate::sync_logic::dir_scan(cands1, n) {
                (Some(w2x), t2) => {
                    crate::sync_logic::lemma_dir_scan_props(cands1, n);
                    assert(cands1[w2x] is Some);
                    assert(w1[w2x].dirs.contains_key(p));
                    assert(w[w2x].dirs.contains_key(p));
                    assert(cands[w2x] is Some);
                    assert(cands[w2x]->0.modified <= 0);
                    assert(w1[w2x].dirs[p] == w[w2x].dirs[p]);
                    assert(t2 == 0);
                    assert(false);
                },
                (None, _) => {
                    assert(dirs_agree_at(w1, w2, p));
                },
            }
        },
    }
}

/// Idempotence of the initial reconciliation.  Reconciling once and
/// listing the reconciled world again, a second reconciliation leaves
/// the world exactly as it was; and by
/// [`lemma_initial_sync_second_plan_archival`] its plan holds no
/// action addressed to a mutable location at all.
pub proof fn lemma_initial_sync_idempotent(
    w: Seq<EndpointState>,
    ls: Seq<ListingV>,
    ls1: Seq<ListingV>,
)
    requires
        w.len() == ls.len(),
        w.len() == ls1.len(),
        forall|i: int| 0 <= i < w.len() ==> listing_matches(#[trigger] ls[i], w[i]),
        forall|i: int|
            0 <= i < w.len() ==> listing_matches(
                #[trigger] ls1[i],
                apply_actions(w, initial_sync_plan(ls))[i],
            ),
    ensures
        apply_actions(apply_actions(w, initial_sync_plan(ls)), initial_sync_plan(ls1))
            == apply_actions(w, initial_sync_plan(ls)),
{
    let w1 = apply_actions(w, initial_sync_plan(ls));
    let w2 = apply_actions(w1, initial_sync_plan(ls1));
    lemma_archive_immutable(w, initial_sync_plan(ls));
    lemma_archive_immutable(w1, initial_sync_plan(ls1));
    assert forall|j: int| 0 <= j < w1.len() implies #[trigger] w2[j] == w1[j] by {
        assert forall|p: Seq<char>|
            (#[trigger] w2[j].files.contains_key(p)) == w1[j].files.contains_key(p) && (
            w1[j].files.contains_key(p) ==> w2[j].files[p] == w1[j].files[p]) by {
            lemma_initial_sync_idempotent_files(w, ls, ls1, p);
            assert(files_agree_at(w1, w2, p));
            assert(w1[j].files.contains_key(p) <==> w2[j].files.contains_key(p));
        }
        assert forall|p: Seq<char>|
            (#[trigger] w2[j].dirs.contains_key(p)) == w1[j].dirs.contains_key(p) && (
            w1[j].dirs.contains_key(p) ==> w2[j].dirs[p] == w1[j].dirs[p]) by {
            lemma_initial_sync_idempotent_dirs(w, ls, ls1, p);
            assert(dirs_agree_at(w1, w2, p));
            assert(w1[j].dirs.contains_key(p) <==> w2[j].dirs.contains_key(p));
        }
        assert(w2[j].files =~= w1[j].files);
        assert(w2[j].dirs =~= w1[j].dirs);
        assert(w2[j].kind == w1[j].kind);
        assert(w2[j] =~= w1[j]);
    }
    assert(w2 =~= w1);
}

/// A listed directory not yet recorded occurs among the paths one poll
/// step creates.
proof fn lemma_new_dir_paths_contains(ds: Seq<DirRec>, m: Map<Seq<char>, DirRec>, p: Seq<char>)
    requires
        exists|k: int| 0 <= k < ds.len() && ds[k].path == p,
        !m.contains_key(p),
    ensures
        crate::sync_logic::new_dir_paths_of(ds, m).contains(p),
    decreases ds.len(),
{
    let whole = crate::sync_logic::new_dir_paths_of(ds, m);
    let pre = crate::sync_logic::new_dir_paths_of(ds.drop_last(), m);
    if ds.last().path == p {
        assert(whole.last() == p);
        assert(whole.contains(p));
    } else {
        assert(exists|k: int| 0 <= k < ds.drop_last().len() && ds.drop_last()[k].path == p) by {
            let k = choose|k: int| 0 <= k < ds.len() && ds[k].path == p;
            assert(ds.drop_last()[k].path == p);
        }
        lemma_new_dir_paths_contains(ds.drop_last(), m, p);
        let k = choose|k: int| 0 <= k < pre.len() && pre[k] == p;
        assert(whole[k] == pre[k]);
        assert(whole.contains(p));
    }
}

/// An exempt path never occurs among the dropped directory paths.
proof fn lemma_removed_skips_exempt(
    v: Seq<DirRec>,
    l: ListingV,
    exempt: Seq<Seq<char>>,
    p: Seq<char>,
)
    requires
        exempt.contains(p),
    ensures
        !crate::sync_logic::dir_removed_paths(v, l, exempt).contains(p),
    decreases v.len(),
{
    if v.len() > 0 {
        lemma_removed_skips_exempt(v.drop_last(), l, exempt, p);
        let whole = crate::sync_logic::dir_removed_paths(v, l, exempt);
        let pre = crate::sync_logic::dir_removed_paths(v.drop_last(), l, exempt);
        if whole.contains(p) {
            let k = choose|k: int| 0 <= k < whole.len() && whole[k] == p;
            if k < pre.len() {
                assert(pre[k] == p);
                assert(pre.contains(p));
            } else {
                assert(whole.last() == v.last().path);
            }
        }
    }
}

/// A recorded directory whose path is dropped by nobody stays
/// recorded.
proof fn lemma_remove_dir_paths_keeps(
    m: Map<Seq<char>, DirRec>,
    ps: Seq<Seq<char>>,
    p: Seq<char>,
)
    requires
        m.contains_key(p),
        !ps.contains(p),
    ensures
        crate::sync_logic::remove_dir_paths(m, ps).contains_key(p),
    decreases ps.len(),
{
    if ps.len() > 0 {
        assert(!ps.drop_last().contains(p)) by {
            if ps.drop_last().contains(p) {
                let k = choose|k: int| 0 <= k < ps.drop_last().len() && ps.drop_last()[k] == p;
                assert(ps[k] == p);
            }
        }
        lemma_remove_dir_paths_keeps(m, ps.drop_last(), p);
        assert(ps[ps.len() - 1] == ps.last());
        assert(ps.last() != p);
    }
}

/// Once recorded and exempt, a directory survives every later step of
/// the pass.
proof fn lemma_pass_keeps_from(
    ks: Seq<LocationKind>,
    lv: Seq<ListingV>,
    sts: Seq<crate::sync_logic::SyncState>,
    aps: Seq<Seq<SyncActionV>>,
    tps: Seq<Seq<Seq<char>>>,
    exs: Seq<Seq<Seq<char>>>,
    j: int,
    p: Seq<char>,
)
    requires
        crate::sync_logic::poll_chain(ks, lv, sts, aps, tps, exs),
        0 <= j <= lv.len(),
        sts[j].dirs().contains_key(p),
        exs[j].contains(p),
    ensures
        forall|k: int| j <= k <= lv.len() ==> (#[trigger] sts[k]).dirs().contains_key(p),
    decreases lv.len() - j,
{
    if j < lv.len() {
        let l = lv[j];
        let exempt = exs[j];
        let removed_d = crate::sync_logic::dir_removed_paths(
            crate::locations::dir_views(sts[j].dir_metadata@),
            l,
            exempt,
        );
        let m_rm_d = if l.kind is Archive {
            sts[j].dirs()
        } else {
            crate::sync_logic::remove_dir_paths(sts[j].dirs(), removed_d)
        };
        lemma_removed_skips_exempt(
            crate::locations::dir_views(sts[j].dir_metadata@),
            l,
            exempt,
            p,
        );
        if !(l.kind is Archive) {
            lemma_remove_dir_paths_keeps(sts[j].dirs(), removed_d, p);
        }
        assert(m_rm_d.contains_key(p));
        lemma_dir_creations_dom(ks, j, l.dirs, m_rm_d, p);
        assert(sts[j + 1].dirs().contains_key(p));
        assert(exs[j + 1] == exs[j] + crate::sync_logic::new_dir_paths_of(l.dirs, sts[j].dirs()));
        assert(exs[j + 1].contains(p)) by {
            let k = choose|k: int| 0 <= k < exs[j].len() && exs[j][k] == p;
            assert(exs[j + 1][k] == p);
        }
        lemma_pass_keeps_from(ks, lv, sts, aps, tps, exs, j + 1, p);
    }
}

/// Directory creation mirrors, over a whole poll pass: a directory
/// listed at one step and not yet recorded is recorded there and stays
/// recorded through every later step of the same pass — the pass never
/// undoes its own creation against its stale listings.
pub proof fn lemma_pass_keeps_created_dir(
    ks: Seq<LocationKind>,
    lv: Seq<ListingV>,
    sts: Seq<crate::sync_logic::SyncState>,
    aps: Seq<Seq<SyncActionV>>,
    tps: Seq<Seq<Seq<char>>>,
    exs: Seq<Seq<Seq<char>>>,
    i: int,
    p: Seq<char>,
)
    requires
        crate::sync_logic::poll_chain(ks, lv, sts, aps, tps, exs),
        0 <= i < lv.len(),
        exists|k: int| 0 <= k < lv[i].dirs.len() && lv[i].dirs[k].path == p,
        !sts[i].dirs().contains_key(p),
    ensures
        forall|k: int| i < k <= lv.len() ==> (#[trigger] sts[k]).dirs().contains_key(p),
{
    let l = lv[i];
    let exempt = exs[i];
    let removed_d = crate::sync_logic::dir_removed_paths(
        crate::locations::dir_views(sts[i].dir_metadata@),
        l,
        exempt,
    );
    let m_rm_d = if l.kind is Archive {
        sts[i].dirs()
    } else {
        crate::sync_logic::remove_dir_paths(sts[i].dirs(), removed_d)
    };
    lemma_remove_dir_paths_absent(sts[i].dirs(), removed_d, p);
    assert(!m_rm_d.contains_key(p));
    lemma_dir_creations_dom(ks, i, l.dirs, m_rm_d, p);
    assert(sts[i + 1].dirs().contains_key(p));
    lemma_new_dir_paths_contains(l.dirs, sts[i].dirs(), p);
    assert(exs[i + 1] == exs[i] + crate::sync_logic::new_dir_paths_of(l.dirs, sts[i].dirs()));
    assert(exs[i + 1].contains(p)) by {
        let nd = crate::sync_logic::new_dir_paths_of(l.dirs, sts[i].dirs());
        let k = choose|k: int| 0 <= k < nd.len() && nd[k] == p;
        assert(exs[i + 1][exs[i].len() + k] == p);
    }
    lemma_pass_keeps_from(ks, lv, sts, aps, tps, exs, i + 1, p);
}

/// Splitting a concatenation of action blocks.
proof fn lemma_concat_all_split(s: Seq<Seq<SyncActionV>>, m: int)
    requires
        0 <= m <= s.len(),
    ensures
        concat_all(s) == concat_all(s.take(m)) + concat_all(s.skip(m)),
    decreases s.len() - m,
{
    if m == s.len() {
        assert(s.take(m) =~= s);
        assert(concat_all(s.skip(m)) =~= Seq::<SyncActionV>::empty());
        assert(concat_all(s) =~= concat_all(s.take(m)) + concat_all(s.skip(m)));
    } else {
        lemma_concat_all_split(s, m + 1);
        let t = s.take(m + 1);
        assert(t.drop_last() =~= s.take(m));
        assert(t.last() == s[m]);
        assert(concat_all(s.take(m + 1)) == concat_all(s.take(m)) + s[m]);
        assert(s.skip(m) =~= seq![s[m]] + s.skip(m + 1));
        lemma_concat_single_prepend(s[m], s.skip(m + 1));
        assert(concat_all(s) =~= concat_all(s.take(m)) + concat_all(s.skip(m)));
    }
}

proof fn lemma_concat_single_prepend(a: Seq<SyncActionV>, rest: Seq<Seq<SyncActionV>>)
    ensures
        concat_all(seq![a] + rest) == a + concat_all(rest),
    decreases rest.len(),
{
    if rest.len() == 0 {
        assert((seq![a] + rest) =~= seq![a]);
        assert(seq![a].drop_last() =~= Seq::<Seq<SyncActionV>>::empty());
        assert(concat_all(Seq::<Seq<SyncActionV>>::empty()) == Seq::<SyncActionV>::empty());
        assert(seq![a].last() == a);
        assert(concat_all(seq![a]) =~= a);
        assert(a + concat_all(rest) =~= a);
    } else {
        lemma_concat_single_prepend(a, rest.drop_last());
        let whole = seq![a] + rest;
        assert(whole.drop_last() =~= seq![a] + rest.drop_last());
        assert(whole.last() == rest.last());
        assert(a + concat_all(rest) =~= (a + concat_all(rest.drop_last())) + rest.last());
    }
}

/// No action of a poll step copies a file.
proof fn lemma_poll_step_no_copy(
    ks: Seq<LocationKind>,
    loc: int,
    l: ListingV,
    exempt: Seq<Seq<char>>,
    st0: crate::sync_logic::SyncState,
    st1: crate::sync_logic::SyncState,
    a: Seq<SyncActionV>,
    ts: Seq<Seq<char>>,
    k: int,
)
    requires
        crate::sync_logic::poll_step_ok(ks, loc, l, exempt, st0, st1, a, ts),
        0 <= k < a.len(),
    ensures
        !((#[trigger] a[k]) matches SyncActionV::CopyFile { .. }),
{
    let removed_d = crate::sync_logic::dir_removed_paths(
        crate::locations::dir_views(st0.dir_metadata@),
        l,
        exempt,
    );
    let removed_f = crate::sync_logic::file_removed_paths(
        crate::locations::file_views(st0.file_metadata@),
        l,
    );
    let m_rm_d = if l.kind is Archive {
        st0.dirs()
    } else {
        crate::sync_logic::remove_dir_paths(st0.dirs(), removed_d)
    };
    let cr = crate::sync_logic::dir_creations(ks, loc, l.dirs, m_rm_d);
    let rm_d = if l.kind is Archive {
        Seq::<SyncActionV>::empty()
    } else {
        crate::sync_logic::dir_removal_actions(ks, removed_d)
    };
    let rm_f = if l.kind is Archive {
        Seq::<SyncActionV>::empty()
    } else {
        crate::sync_logic::file_removal_actions(ks, removed_f)
    };
    assert(a == rm_d + cr.0 + rm_f);
    if k < rm_d.len() {
        assert(a[k] == rm_d[k]);
        lemma_dir_removal_shape(ks, removed_d, k);
    } else if k < rm_d.len() + cr.0.len() {
        assert(a[k] == cr.0[k - rm_d.len()]);
        lemma_dir_creations_shape(ks, loc, l.dirs, m_rm_d, k - rm_d.len());
    } else {
        assert(a[k] == rm_f[k - rm_d.len() - cr.0.len()]);
        lemma_file_removal_shape(ks, removed_f, k - rm_d.len() - cr.0.len());
    }
}

/// Every action of a directory removal pass is a `RemoveDir`.
proof fn lemma_dir_removal_shape(ks: Seq<LocationKind>, rds: Seq<Seq<char>>, k: int)
    requires
        0 <= k < crate::sync_logic::dir_removal_actions(ks, rds).len(),
    ensures
        (#[trigger] crate::sync_logic::dir_removal_actions(ks, rds)[k])
            matches SyncActionV::RemoveDir { .. },
    decreases rds.len(),
{
    if rds.len() > 0 {
        let pre = crate::sync_logic::dir_removal_actions(ks, rds.drop_last());
        if k < pre.len() {
            lemma_dir_removal_shape(ks, rds.drop_last(), k);
            assert(crate::sync_logic::dir_removal_actions(ks, rds)[k] == pre[k]);
        } else {
            lemma_rd_fanout_shape(ks, rds.last(), ks.len() as int, k - pre.len());
        }
    }
}

proof fn lemma_rd_fanout_shape(ks: Seq<LocationKind>, p: Seq<char>, n: int, k: int)
    requires
        0 <= k < crate::sync_logic::rd_fanout(ks, p, n).len(),
    ensures
        (#[trigger] crate::sync_logic::rd_fanout(ks, p, n)[k]) matches SyncActionV::RemoveDir {
            ..
        },
    decreases n,
{
    if n > 0 {
        let pre = crate::sync_logic::rd_fanout(ks, p, n - 1);
        if k < pre.len() {
            lemma_rd_fanout_shape(ks, p, n - 1, k);
            assert(crate::sync_logic::rd_fanout(ks, p, n)[k] == pre[k]);
        }
    }
}

/// A file map only shrinks under removals.
proof fn lemma_remove_file_paths_absent(
    m: Map<Seq<char>, FileRec>,
    ps: Seq<Seq<char>>,
    p: Seq<char>,
)
    requires
        !m.contains_key(p),
    ensures
        !crate::sync_logic::remove_file_paths(m, ps).contains_key(p),
    decreases ps.len(),
{
    if ps.len() > 0 {
        lemma_remove_file_paths_absent(m, ps.drop_last(), p);
    }
}

/// Deletion propagates over a whole poll pass: a recorded file that a
/// non-archive step's listing no longer shows stays out of the state
/// through the end of the pass, and applying the whole pass's plan
/// leaves every non-archive location without it.
pub proof fn lemma_pass_deletion_propagates(
    ks: Seq<LocationKind>,
    lv: Seq<ListingV>,
    sts: Seq<crate::sync_logic::SyncState>,
    aps: Seq<Seq<SyncActionV>>,
    tps: Seq<Seq<Seq<char>>>,
    exs: Seq<Seq<Seq<char>>>,
    i: int,
    w: Seq<EndpointState>,
    p: Seq<char>,
)
    requires
        crate::sync_logic::poll_chain(ks, lv, sts, aps, tps, exs),
        0 <= i < lv.len(),
        w.len() == ks.len(),
        forall|j: int| 0 <= j < w.len() ==> (#[trigger] w[j]).kind == ks[j],
        !(lv[i].kind is Archive),
        sts[i].files().contains_key(p),
        !crate::sync_logic::listing_has_file(lv[i], p),
    ensures
        forall|k: int| i < k <= lv.len() ==> !(#[trigger] sts[k]).files().contains_key(p),
        forall|j: int|
            0 <= j < w.len() && !(ks[j] is Archive) ==> !(#[trigger] apply_actions(
                w,
                concat_all(aps),
            )[j]).files.contains_key(p),
{
    // The state drops p at step i and never regains it: polling only
    // removes file records.
    assert forall|k: int| i < k <= lv.len() implies !(#[trigger] sts[k]).files().contains_key(
        p,
    ) by {
        lemma_pass_files_stay_gone(ks, lv, sts, aps, tps, exs, i, w, p, k);
    }
    // The world: the deleting step removes p from every non-archive
    // location, and the rest of the pass plans no copy at all.
    lemma_concat_all_split(aps, i);
    lemma_concat_all_split(aps.skip(i), 1);
    let prefix = concat_all(aps.take(i));
    let suffix = concat_all(aps.skip(i + 1));
    assert(aps.skip(i).take(1) =~= seq![aps[i]]);
    assert(aps.skip(i).skip(1) =~= aps.skip(i + 1));
    assert(concat_all(seq![aps[i]]) =~= aps[i]) by {
        assert(seq![aps[i]].drop_last() =~= Seq::<Seq<SyncActionV>>::empty());
        assert(concat_all(Seq::<Seq<SyncActionV>>::empty()) == Seq::<SyncActionV>::empty());
        assert(seq![aps[i]].last() == aps[i]);
    }
    assert(concat_all(aps) == prefix + (aps[i] + suffix));
    lemma_apply_actions_concat(w, prefix, aps[i] + suffix);
    lemma_apply_actions_concat(apply_actions(w, prefix), aps[i], suffix);
    assert(prefix + (aps[i] + suffix) =~= (prefix + aps[i]) + suffix);
    let w_pre = apply_actions(w, prefix);
    lemma_archive_immutable(w, prefix);
    lemma_deletion_propagates(
        ks,
        i,
        lv[i],
        exs[i],
        sts[i],
        sts[i + 1],
        aps[i],
        tps[i],
        w_pre,
        p,
    );
    let w_mid = apply_actions(w_pre, aps[i]);
    lemma_archive_immutable(w_pre, aps[i]);
    assert forall|j: int|
        0 <= j < w.len() && !(ks[j] is Archive) implies !(#[trigger] apply_actions(
        w,
        concat_all(aps),
    )[j]).files.contains_key(p) by {
        assert(!w_mid[j].files.contains_key(p));
        assert forall|kk: int|
            0 <= kk < suffix.len() implies !((#[trigger] suffix[kk])
                matches SyncActionV::CopyFile { path, .. } && path == p) by {
            lemma_pass_suffix_no_copy(ks, lv, sts, aps, tps, exs, i + 1, kk);
        }
        lemma_no_copy_preserves_absent(w_mid, suffix, j, p);
        assert(apply_actions(w, concat_all(aps)) == apply_actions(w_mid, suffix)) by {
            lemma_apply_actions_concat(w, prefix + aps[i], suffix);
            lemma_apply_actions_concat(w, prefix, aps[i]);
        }
    }
}

proof fn lemma_pass_files_stay_gone(
    ks: Seq<LocationKind>,
    lv: Seq<ListingV>,
    sts: Seq<crate::sync_logic::SyncState>,
    aps: Seq<Seq<SyncActionV>>,
    tps: Seq<Seq<Seq<char>>>,
    exs: Seq<Seq<Seq<char>>>,
    i: int,
    w: Seq<EndpointState>,
    p: Seq<char>,
    k: int,
)
    requires
        crate::sync_logic::poll_chain(ks, lv, sts, aps, tps, exs),
        0 <= i < lv.len(),
        !(lv[i].kind is Archive),
        sts[i].files().contains_key(p),
        !crate::sync_logic::listing_has_file(lv[i], p),
        i < k <= lv.len(),
    ensures
        !sts[k].files().contains_key(p),
    decreases k,
{
    if k == i + 1 {
        let fvec = crate::locations::file_views(sts[i].file_metadata@);
        let removed_f = crate::sync_logic::file_removed_paths(fvec, lv[i]);
        lemma_files_map_vec_contains(sts[i].file_metadata@, p);
        assert(exists|x: int| 0 <= x < fvec.len() && fvec[x].path == p) by {
            let x = choose|x: int|
                0 <= x < sts[i].file_metadata@.len() && sts[i].file_metadata@[x]@.path == p;
            assert(fvec[x] == sts[i].file_metadata@[x]@);
        }
        lemma_file_removed_contains(fvec, lv[i], p);
        lemma_remove_file_paths_gone(sts[i].files(), removed_f, p);
    } else {
        lemma_pass_files_stay_gone(ks, lv, sts, aps, tps, exs, i, w, p, k - 1);
        let removed_f = crate::sync_logic::file_removed_paths(
            crate::locations::file_views(sts[k - 1].file_metadata@),
            lv[k - 1],
        );
        if lv[k - 1].kind is Archive {
        } else {
            lemma_remove_file_paths_absent(sts[k - 1].files(), removed_f, p);
        }
    }
}

proof fn lemma_pass_suffix_no_copy(
    ks: Seq<LocationKind>,
    lv: Seq<ListingV>,
    sts: Seq<crate::sync_logic::SyncState>,
    aps: Seq<Seq<SyncActionV>>,
    tps: Seq<Seq<Seq<char>>>,
    exs: Seq<Seq<Seq<char>>>,
    m: int,
    kk: int,
)
    requires
        crate::sync_logic::poll_chain(ks, lv, sts, aps, tps, exs),
        0 <= m <= lv.len(),
        0 <= kk < concat_all(aps.skip(m)).len(),
    ensures
        !((#[trigger] concat_all(aps.skip(m))[kk]) matches SyncActionV::CopyFile { .. }),
    decreases lv.len() - m,
{
    if m < lv.len() {
        lemma_concat_all_split(aps.skip(m), 1);
        assert(aps.skip(m).take(1) =~= seq![aps[m]]);
        assert(aps.skip(m).skip(1) =~= aps.skip(m + 1));
        assert(concat_all(seq![aps[m]]) =~= aps[m]) by {
            assert(seq![aps[m]].drop_last() =~= Seq::<Seq<SyncActionV>>::empty());
            assert(concat_all(Seq::<Seq<SyncActionV>>::empty()) == Seq::<SyncActionV>::empty());
            assert(seq![aps[m]].last() == aps[m]);
        }
        assert(concat_all(aps.skip(m)) == aps[m] + concat_all(aps.skip(m + 1)));
        if kk < aps[m].len() {
            assert(crate::sync_logic::poll_step_ok(
                ks,
                m,
                lv[m],
                exs[m],
                sts[m],
                sts[m + 1],
                aps[m],
                tps[m],
            ));
            lemma_poll_step_no_copy(
                ks,
                m,
                lv[m],
                exs[m],
                sts[m],
                sts[m + 1],
                aps[m],
                tps[m],
                kk,
            );
            assert(concat_all(aps.skip(m))[kk] == aps[m][kk]);
        } else {
            lemma_pass_suffix_no_copy(ks, lv, sts, aps, tps, exs, m + 1, kk - aps[m].len());
            assert(concat_all(aps.skip(m))[kk] == concat_all(aps.skip(m + 1))[kk - aps[m].len()]);
        }
    } else {
        assert(aps.skip(m) =~= Seq::<Seq<SyncActionV>>::empty());
    }
}

/// An archive's absences are harmless over a whole poll pass: a
/// recorded file still listed by every non-archive location survives
/// every step of the pass, and no step plans a deletion of it.
pub proof fn lemma_pass_archive_absence_harmless(
    ks: Seq<LocationKind>,
    lv: Seq<ListingV>,
    sts: Seq<crate::sync_logic::SyncState>,
    aps: Seq<Seq<SyncActionV>>,
    tps: Seq<Seq<Seq<char>>>,
    exs: Seq<Seq<Seq<char>>>,
    p: Seq<char>,
)
    requires
        crate::sync_logic::poll_chain(ks, lv, sts, aps, tps, exs),
        forall|k: int|
            0 <= k < lv.len() && !((#[trigger] lv[k]).kind is Archive)
                ==> crate::sync_logic::listing_has_file(lv[k], p),
        sts[0].files().contains_key(p),
    ensures
        forall|k: int| 0 <= k <= lv.len() ==> (#[trigger] sts[k]).files().contains_key(p),
        forall|kk: int|
            0 <= kk < concat_all(aps).len() ==> !(#[trigger] concat_all(aps)[kk]
                matches SyncActionV::DeleteFile { path, .. } && path == p),
{
    assert forall|k: int| 0 <= k <= lv.len() implies (#[trigger] sts[k]).files().contains_key(
        p,
    ) by {
        lemma_pass_file_survives(ks, lv, sts, aps, tps, exs, p, k);
    }
    assert forall|kk: int|
        0 <= kk < concat_all(aps).len() implies !(#[trigger] concat_all(aps)[kk]
            matches SyncActionV::DeleteFile { path, .. } && path == p) by {
        assert(aps.skip(0) =~= aps);
        lemma_pass_no_delete_at(ks, lv, sts, aps, tps, exs, p, 0, kk);
    }
}

proof fn lemma_pass_file_survives(
    ks: Seq<LocationKind>,
    lv: Seq<ListingV>,
    sts: Seq<crate::sync_logic::SyncState>,
    aps: Seq<Seq<SyncActionV>>,
    tps: Seq<Seq<Seq<char>>>,
    exs: Seq<Seq<Seq<char>>>,
    p: Seq<char>,
    k: int,
)
    requires
        crate::sync_logic::poll_chain(ks, lv, sts, aps, tps, exs),
        forall|m: int|
            0 <= m < lv.len() && !((#[trigger] lv[m]).kind is Archive)
                ==> crate::sync_logic::listing_has_file(lv[m], p),
        sts[0].files().contains_key(p),
        0 <= k <= lv.len(),
    ensures
        sts[k].files().contains_key(p),
    decreases k,
{
    if k > 0 {
        lemma_pass_file_survives(ks, lv, sts, aps, tps, exs, p, k - 1);
        if lv[k - 1].kind is Archive {
        } else {
            let fvec = crate::locations::file_views(sts[k - 1].file_metadata@);
            let removed_f = crate::sync_logic::file_removed_paths(fvec, lv[k - 1]);
            lemma_file_removed_skips_listed(fvec, lv[k - 1], p);
            lemma_remove_file_paths_keeps(sts[k - 1].files(), removed_f, p);
        }
    }
}

/// A path the listing still shows never occurs among the dropped
/// paths.
proof fn lemma_file_removed_skips_listed(v: Seq<FileRec>, l: ListingV, p: Seq<char>)
    requires
        crate::sync_logic::listing_has_file(l, p),
    ensures
        !crate::sync_logic::file_removed_paths(v, l).contains(p),
    decreases v.len(),
{
    if v.len() > 0 {
        lemma_file_removed_skips_listed(v.drop_last(), l, p);
        let whole = crate::sync_logic::file_removed_paths(v, l);
        let pre = crate::sync_logic::file_removed_paths(v.drop_last(), l);
        if whole.contains(p) {
            let k = choose|k: int| 0 <= k < whole.len() && whole[k] == p;
            if k < pre.len() {
                assert(pre[k] == p);
                assert(pre.contains(p));
            } else {
                assert(whole.last() == v.last().path);
            }
        }
    }
}

/// A recorded file still listed survives removals.
proof fn lemma_remove_file_paths_keeps(
    m: Map<Seq<char>, FileRec>,
    ps: Seq<Seq<char>>,
    p: Seq<char>,
)
    requires
        m.contains_key(p),
        !ps.contains(p),
    ensures
        crate::sync_logic::remove_file_paths(m, ps).contains_key(p),
    decreases ps.len(),
{
    if ps.len() > 0 {
        assert(!ps.drop_last().contains(p)) by {
            if ps.drop_last().contains(p) {
                let k = choose|k: int| 0 <= k < ps.drop_last().len() && ps.drop_last()[k] == p;
                assert(ps[k] == p);
            }
        }
        lemma_remove_file_paths_keeps(m, ps.drop_last(), p);
        assert(ps[ps.len() - 1] == ps.last());
    }
}

proof fn lemma_pass_no_delete_at(
    ks: Seq<LocationKind>,
    lv: Seq<ListingV>,
    sts: Seq<crate::sync_logic::SyncState>,
    aps: Seq<Seq<SyncActionV>>,
    tps: Seq<Seq<Seq<char>>>,
    exs: Seq<Seq<Seq<char>>>,
    p: Seq<char>,
    m: int,
    kk: int,
)
    requires
        crate::sync_logic::poll_chain(ks, lv, sts, aps, tps, exs),
        forall|x: int|
            0 <= x < lv.len() && !((#[trigger] lv[x]).kind is Archive)
                ==> crate::sync_logic::listing_has_file(lv[x], p),
        sts[0].files().contains_key(p),
        0 <= m <= lv.len(),
        0 <= kk < concat_all(aps.skip(m)).len(),
    ensures
        !(concat_all(aps.skip(m))[kk] matches SyncActionV::DeleteFile { path, .. } && path == p),
    decreases lv.len() - m,
{
    if m < lv.len() {
        lemma_concat_all_split(aps.skip(m), 1);
        assert(aps.skip(m).take(1) =~= seq![aps[m]]);
        assert(aps.skip(m).skip(1) =~= aps.skip(m + 1));
        assert(concat_all(seq![aps[m]]) =~= aps[m]) by {
            assert(seq![aps[m]].drop_last() =~= Seq::<Seq<SyncActionV>>::empty());
            assert(concat_all(Seq::<Seq<SyncActionV>>::empty()) == Seq::<SyncActionV>::empty());
            assert(seq![aps[m]].last() == aps[m]);
        }
        assert(concat_all(aps.skip(m)) == aps[m] + concat_all(aps.skip(m + 1)));
        if kk < aps[m].len() {
            lemma_step_no_delete_at(ks, lv, sts, aps, tps, exs, p, m, kk);
            assert(concat_all(aps.skip(m))[kk] == aps[m][kk]);
        } else {
            lemma_pass_no_delete_at(ks, lv, sts, aps, tps, exs, p, m + 1, kk - aps[m].len());
            assert(concat_all(aps.skip(m))[kk] == concat_all(aps.skip(m + 1))[kk - aps[m].len()]);
        }
    } else {
        assert(aps.skip(m) =~= Seq::<Seq<SyncActionV>>::empty());
    }
}

proof fn lemma_step_no_delete_at(
    ks: Seq<LocationKind>,
    lv: Seq<ListingV>,
    sts: Seq<crate::sync_logic::SyncState>,
    aps: Seq<Seq<SyncActionV>>,
    tps: Seq<Seq<Seq<char>>>,
    exs: Seq<Seq<Seq<char>>>,
    p: Seq<char>,
    m: int,
    kk: int,
)
    requires
        crate::sync_logic::poll_chain(ks, lv, sts, aps, tps, exs),
        forall|x: int|
            0 <= x < lv.len() && !((#[trigger] lv[x]).kind is Archive)
                ==> crate::sync_logic::listing_has_file(lv[x], p),
        sts[0].files().contains_key(p),
        0 <= m < lv.len(),
        0 <= kk < aps[m].len(),
    ensures
        !(aps[m][kk] matches SyncActionV::DeleteFile { path, .. } && path == p),
{
    let l = lv[m];
    let st0 = sts[m];
    let removed_d = crate::sync_logic::dir_removed_paths(
        crate::locations::dir_views(st0.dir_metadata@),
        l,
        exs[m],
    );
    let removed_f = crate::sync_logic::file_removed_paths(
        crate::locations::file_views(st0.file_metadata@),
        l,
    );
    let m_rm_d = if l.kind is Archive {
        st0.dirs()
    } else {
        crate::sync_logic::remove_dir_paths(st0.dirs(), removed_d)
    };
    let cr = crate::sync_logic::dir_creations(ks, m, l.dirs, m_rm_d);
    let rm_d = if l.kind is Archive {
        Seq::<SyncActionV>::empty()
    } else {
        crate::sync_logic::dir_removal_actions(ks, removed_d)
    };
    let rm_f = if l.kind is Archive {
        Seq::<SyncActionV>::empty()
    } else {
        crate::sync_logic::file_removal_actions(ks, removed_f)
    };
    assert(aps[m] == rm_d + cr.0 + rm_f);
    if kk < rm_d.len() {
        assert(aps[m][kk] == rm_d[kk]);
        lemma_dir_removal_shape(ks, removed_d, kk);
    } else if kk < rm_d.len() + cr.0.len() {
        assert(aps[m][kk] == cr.0[kk - rm_d.len()]);
        lemma_dir_creations_shape(ks, m, l.dirs, m_rm_d, kk - rm_d.len());
    } else {
        let x = kk - rm_d.len() - cr.0.len();
        assert(aps[m][kk] == rm_f[x]);
        if !(l.kind is Archive) {
            lemma_file_removed_skips_listed(
                crate::locations::file_views(st0.file_metadata@),
                l,
                p,
            );
            lemma_file_removal_path(ks, removed_f, x, p);
        }
    }
}

/// A deletion in the removal pass names one of the dropped paths.
proof fn lemma_file_removal_path(
    ks: Seq<LocationKind>,
    rfs: Seq<Seq<char>>,
    k: int,
    p: Seq<char>,
)
    requires
        0 <= k < crate::sync_logic::file_removal_actions(ks, rfs).len(),
        !rfs.contains(p),
    ensures
        !(crate::sync_logic::file_removal_actions(ks, rfs)[k]
            matches SyncActionV::DeleteFile { path, .. } && path == p),
    decreases rfs.len(),
{
    if rfs.len() > 0 {
        let pre = crate::sync_logic::file_removal_actions(ks, rfs.drop_last());
        assert(!rfs.drop_last().contains(p)) by {
            if rfs.drop_last().contains(p) {
                let x = choose|x: int|
                    0 <= x < rfs.drop_last().len() && rfs.drop_last()[x] == p;
                assert(rfs[x] == p);
            }
        }
        if k < pre.len() {
            lemma_file_removal_path(ks, rfs.drop_last(), k, p);
            assert(crate::sync_logic::file_removal_actions(ks, rfs)[k] == pre[k]);
        } else {
            assert(rfs[rfs.len() - 1] == rfs.last());
            lemma_df_fanout_path(ks, rfs.last(), ks.len() as int, k - pre.len(), p);
        }
    }
}

proof fn lemma_df_fanout_path(
    ks: Seq<LocationKind>,
    q: Seq<char>,
    n: int,
    k: int,
    p: Seq<char>,
)
    requires
        0 <= k < crate::sync_logic::df_fanout(ks, q, n).len(),
        q != p,
    ensures
        !(crate::sync_logic::df_fanout(ks, q, n)[k] matches SyncActionV::DeleteFile {
            path,
            ..
        } && path == p),
    decreases n,
{
    if n > 0 {
        let pre = crate::sync_logic::df_fanout(ks, q, n - 1);
        if k < pre.len() {
            lemma_df_fanout_path(ks, q, n - 1, k, p);
            assert(crate::sync_logic::df_fanout(ks, q, n)[k] == pre[k]);
        }
    }
}

/// Each copy of a fan-out goes from the winner to a selected target.
proof fn lemma_copy_actions_target(
    cands: Seq<Option<FileRec>>,
    widx: int,
    wrec: FileRec,
    p: Seq<char>,
    n: int,
    k: int,
)
    requires
        0 <= k < copy_actions(cands, widx, wrec, p, n).len(),
    ensures
        (#[trigger] copy_actions(cands, widx, wrec, p, n)[k] matches SyncActionV::CopyFile {
            from,
            to,
            path,
        } ==> from == widx && path == p && 0 <= to < n && to != widx
            && crate::sync_logic::copy_target(cands[to], wrec)),
    decreases n,
{
    if n > 0 {
        let pre = copy_actions(cands, widx, wrec, p, n - 1);
        if k < pre.len() {
            lemma_copy_actions_target(cands, widx, wrec, p, n - 1, k);
            assert(copy_actions(cands, widx, wrec, p, n)[k] == pre[k]);
        }
    }
}

/// Each creation of an initial-pass fan-out goes to a location whose
/// candidate is absent.
proof fn lemma_cd_actions_target(
    cands: Seq<Option<DirRec>>,
    widx: int,
    p: Seq<char>,
    t: u64,
    n: int,
    k: int,
)
    requires
        0 <= k < crate::sync_logic::cd_actions(cands, widx, p, t, n).len(),
    ensures
        (#[trigger] crate::sync_logic::cd_actions(cands, widx, p, t, n)[k]
            matches SyncActionV::CreateDir { loc, path, .. } ==> path == p && 0 <= loc < n && loc
            != widx && cands[loc] is None),
    decreases n,
{
    if n > 0 {
        let pre = crate::sync_logic::cd_actions(cands, widx, p, t, n - 1);
        if k < pre.len() {
            lemma_cd_actions_target(cands, widx, p, t, n - 1, k);
            assert(crate::sync_logic::cd_actions(cands, widx, p, t, n)[k] == pre[k]);
        }
    }
}

/// Each action of the file pass is a copy from its path's scan winner
/// to a selected target.
proof fn lemma_files_phase_action_target(ls: Seq<ListingV>, paths: Seq<Seq<char>>, k: int)
    requires
        0 <= k < files_phase_actions(ls, paths).len(),
    ensures
        (#[trigger] files_phase_actions(ls, paths)[k] matches SyncActionV::CopyFile {
            from,
            to,
            path,
        } ==> 0 <= to < ls.len() && to != from && file_scan(
            file_candidates(ls, path),
            ls.len() as int,
        ).0 == Some(from) && crate::sync_logic::copy_target(
            file_candidates(ls, path)[to],
            file_candidates(ls, path)[from]->0,
        )),
    decreases paths.len(),
{
    if paths.len() > 0 {
        let pre = files_phase_actions(ls, paths.drop_last());
        if k < pre.len() {
            lemma_files_phase_action_target(ls, paths.drop_last(), k);
            assert(files_phase_actions(ls, paths)[k] == pre[k]);
        } else {
            let cands = file_candidates(ls, paths.last());
            match file_scan(cands, ls.len() as int) {
                (Some(wx), t) => {
                    lemma_copy_actions_target(
                        cands,
                        wx,
                        cands[wx]->0,
                        paths.last(),
                        ls.len() as int,
                        k - pre.len(),
                    );
                    lemma_copy_actions_shape(
                        cands,
                        wx,
                        cands[wx]->0,
                        paths.last(),
                        ls.len() as int,
                        k - pre.len(),
                    );
                    assert(files_phase_actions(ls, paths)[k] == copy_actions(
                        cands,
                        wx,
                        cands[wx]->0,
                        paths.last(),
                        ls.len() as int,
                    )[k - pre.len()]);
                },
                (None, _) => {},
            }
        }
    }
}

/// Each action of the directory pass creates its path on a location
/// whose candidate is absent.
proof fn lemma_dirs_phase_action_target(ls: Seq<ListingV>, paths: Seq<Seq<char>>, k: int)
    requires
        0 <= k < crate::sync_logic::dirs_phase_actions(ls, paths).len(),
    ensures
        (#[trigger] crate::sync_logic::dirs_phase_actions(ls, paths)[k]
            matches SyncActionV::CreateDir { loc, path, .. } ==> 0 <= loc < ls.len()
            && crate::sync_logic::dir_scan(dir_candidates(ls, path), ls.len() as int).0
            is Some && loc != crate::sync_logic::dir_scan(
            dir_candidates(ls, path),
            ls.len() as int,
        ).0->0 && dir_candidates(ls, path)[loc] is None),
    decreases paths.len(),
{
    if paths.len() > 0 {
        let pre = crate::sync_logic::dirs_phase_actions(ls, paths.drop_last());
        if k < pre.len() {
            lemma_dirs_phase_action_target(ls, paths.drop_last(), k);
            assert(crate::sync_logic::dirs_phase_actions(ls, paths)[k] == pre[k]);
        } else {
            let cands = dir_candidates(ls, paths.last());
            match crate::sync_logic::dir_scan(cands, ls.len() as int) {
                (Some(wx), t) => {
                    lemma_cd_actions_target(cands, wx, paths.last(), t, ls.len() as int, k
                        - pre.len());
                    lemma_cd_actions_path(cands, wx, paths.last(), t, ls.len() as int, k
                        - pre.len());
                    assert(crate::sync_logic::dirs_phase_actions(ls, paths)[k]
                        == crate::sync_logic::cd_actions(cands, wx, paths.last(), t, ls.len() as int)[k
                        - pre.len()]);
                },
                (None, _) => {},
            }
        }
    }
}

/// Idempotence at the action level: every action of the second run's
/// plan addresses an archive location, where the backends turn it into
/// a successful no-op — a second initial reconciliation performs no
/// write, deletion, creation or removal on any mutable location.
pub proof fn lemma_initial_sync_second_plan_archival(
    w: Seq<EndpointState>,
    ls: Seq<ListingV>,
    ls1: Seq<ListingV>,
)
    requires
        w.len() == ls.len(),
        w.len() == ls1.len(),
        forall|i: int| 0 <= i < w.len() ==> listing_matches(#[trigger] ls[i], w[i]),
        forall|i: int|
            0 <= i < w.len() ==> listing_matches(
                #[trigger] ls1[i],
                apply_actions(w, initial_sync_plan(ls))[i],
            ),
    ensures
        forall|k: int|
            0 <= k < initial_sync_plan(ls1).len() ==> match #[trigger] initial_sync_plan(ls1)[k] {
                SyncActionV::CreateDir { loc, .. } => 0 <= loc < w.len() && w[loc].kind
                    is Archive,
                SyncActionV::CopyFile { to, .. } => 0 <= to < w.len() && w[to].kind is Archive,
                SyncActionV::RemoveDir { .. } => false,
                SyncActionV::DeleteFile { .. } => false,
            },
{
    let n = w.len() as int;
    let dplan = crate::sync_logic::dirs_phase_actions(ls1, crate::sync_logic::dir_union(ls1));
    let fplan = files_phase_actions(ls1, crate::sync_logic::file_union(ls1));
    assert forall|k: int|
        0 <= k < initial_sync_plan(ls1).len() implies match #[trigger] initial_sync_plan(
        ls1,
    )[k] {
        SyncActionV::CreateDir { loc, .. } => 0 <= loc < w.len() && w[loc].kind is Archive,
        SyncActionV::CopyFile { to, .. } => 0 <= to < w.len() && w[to].kind is Archive,
        SyncActionV::RemoveDir { .. } => false,
        SyncActionV::DeleteFile { .. } => false,
    } by {
        if k < dplan.len() {
            assert(initial_sync_plan(ls1)[k] == dplan[k]);
            lemma_dirs_phase_actions_shape(ls1, crate::sync_logic::dir_union(ls1), k);
            lemma_dirs_phase_action_target(ls1, crate::sync_logic::dir_union(ls1), k);
            match dplan[k] {
                SyncActionV::CreateDir { loc, path, .. } => {
                    lemma_initial_sync_idempotent_dirs(w, ls, ls1, path);
                    match crate::sync_logic::dir_scan(dir_candidates(ls1, path), n) {
                        (Some(w2x), _) => {
                            assert(dir_candidates(ls1, path)[loc] is None);
                            assert(loc != w2x);
                            if !(w[loc].kind is Archive) {
                                assert(dir_candidates(ls1, path)[loc] is Some);
                            }
                        },
                        (None, _) => {
                            assert(false);
                        },
                    }
                },
                _ => {
                    assert(false);
                },
            }
        } else {
            assert(initial_sync_plan(ls1)[k] == fplan[k - dplan.len()]);
            lemma_files_phase_actions_shape(
                ls1,
                crate::sync_logic::file_union(ls1),
                k - dplan.len(),
            );
            lemma_files_phase_action_target(
                ls1,
                crate::sync_logic::file_union(ls1),
                k - dplan.len(),
            );
            match fplan[k - dplan.len()] {
                SyncActionV::CopyFile { from, to, path } => {
                    lemma_initial_sync_idempotent_files(w, ls, ls1, path);
                    match file_scan(file_candidates(ls1, path), n) {
                        (Some(w2x), _) => {
                            assert(w2x == from);
                            assert(crate::sync_logic::copy_target(
                                file_candidates(ls1, path)[to],
                                file_candidates(ls1, path)[from]->0,
                            ));
                            if !(w[to].kind is Archive) {
                                assert(!crate::sync_logic::copy_target(
                                    file_candidates(ls1, path)[to],
                                    file_candidates(ls1, path)[w2x]->0,
                                ));
                            }
                        },
                        (None, _) => {
                            assert(false);
                        },
                    }
                },
                _ => {
                    assert(false);
                },
            }
        }
    }
}

/// The hash suppression on a newer time with identical content: a
/// strictly newer copy whose hash equals the current winner's does not
/// take over, and no copy is planned at all.
pub proof fn lemma_same_hash_suppression(older: FileRec, newer: FileRec)
    requires
        newer.modified > older.modified,
        crate::sync_logic::hash_nonempty(older.hash),
        crate::sync_logic::hash_nonempty(newer.hash),
        newer.hash == older.hash,
    ensures
        crate::sync_logic::sync_file_scan(seq![Some(older), Some(newer)], 2) == Some((0int, older)),
        copy_actions(seq![Some(older), Some(newer)], 0, older, older.path, 2)
            == Seq::<SyncActionV>::empty(),
{
    let cands = seq![Some(older), Some(newer)];
    assert(crate::sync_logic::sync_file_scan(cands, 0) is None);
    assert(crate::sync_logic::sync_file_scan(cands, 1) == Some((0int, older)));
    assert(!crate::sync_logic::copy_target(cands[1], older));
    assert(copy_actions(cands, 0, older, older.path, 0) =~= Seq::<SyncActionV>::empty());
    assert(copy_actions(cands, 0, older, older.path, 1) =~= Seq::<SyncActionV>::empty());
    assert(copy_actions(cands, 0, older, older.path, 2) =~= Seq::<SyncActionV>::empty());
}

} // verus!
