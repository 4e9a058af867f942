use foldsync::locations::{DirMetadata, FileMetadata, LocationKind};
use foldsync::sync_logic::{
    handle_local_event, initial_sync_with_state, poll_location, poll_locations, sync_file,
    LocalEvent, LocalEventKind, LocationListing, SyncAction, SyncState,
};

fn file(path: &str, modified: u64, hash: Option<&str>) -> FileMetadata {
    FileMetadata {
        path: path.to_string(),
        modified,
        hash: hash.map(|h| h.to_string()),
    }
}

fn dir(path: &str, modified: u64) -> DirMetadata {
    DirMetadata { path: path.to_string(), modified }
}

fn folder_listing(dirs: Vec<DirMetadata>, files: Vec<FileMetadata>) -> LocationListing {
    LocationListing { kind: LocationKind::Folder, dirs, files }
}

fn archive_listing(dirs: Vec<DirMetadata>, files: Vec<FileMetadata>) -> LocationListing {
    LocationListing { kind: LocationKind::Archive, dirs, files }
}

fn copy_triples(actions: &[SyncAction]) -> Vec<(usize, usize, String)> {
    actions
        .iter()
        .filter_map(|a| match a {
            SyncAction::CopyFile { from, to, path } => Some((*from, *to, path.clone())),
            _ => None,
        })
        .collect()
}

#[test]
fn two_folder_initial_sync_copies_to_empty_peer() {
    // One folder holds x.txt, the other is empty: the file is copied.
    let listings = vec![
        folder_listing(vec![], vec![file("x.txt", 1000, Some("h1"))]),
        folder_listing(vec![], vec![]),
    ];
    let mut state = SyncState::new();
    let actions = initial_sync_with_state(&listings, &mut state);
    assert_eq!(copy_triples(&actions), vec![(0, 1, "x.txt".to_string())]);
    let rec = state.get_file("x.txt").unwrap();
    assert_eq!(rec.modified, 1000);
    assert_eq!(rec.hash.as_deref(), Some("h1"));
}

#[test]
fn conflict_resolved_by_newer_time() {
    // Both folders hold x.txt; the newer copy wins and overwrites.
    let listings = vec![
        folder_listing(vec![], vec![file("x.txt", 1000, Some("v1"))]),
        folder_listing(vec![], vec![file("x.txt", 2000, Some("v2"))]),
    ];
    let mut state = SyncState::new();
    let actions = initial_sync_with_state(&listings, &mut state);
    assert_eq!(copy_triples(&actions), vec![(1, 0, "x.txt".to_string())]);
    let rec = state.get_file("x.txt").unwrap();
    assert_eq!(rec.modified, 2000);
    assert_eq!(rec.hash.as_deref(), Some("v2"));
}

#[test]
fn equal_times_different_hash_converge() {
    // Equal timestamps with different content: the first location wins
    // the tie and its bytes replace the other side's, so both ends
    // agree afterwards.
    let listings = vec![
        folder_listing(vec![], vec![file("x.txt", 1000, Some("a"))]),
        folder_listing(vec![], vec![file("x.txt", 1000, Some("b"))]),
    ];
    let mut state = SyncState::new();
    let actions = initial_sync_with_state(&listings, &mut state);
    assert_eq!(copy_triples(&actions), vec![(0, 1, "x.txt".to_string())]);
    assert_eq!(state.get_file("x.txt").unwrap().hash.as_deref(), Some("a"));
}

#[test]
fn same_content_is_never_rewritten() {
    // The newer copy's hash equals the older's: identical content, so
    // no write is planned at all.
    let listings = vec![
        folder_listing(vec![], vec![file("x.txt", 2000, Some("same"))]),
        folder_listing(vec![], vec![file("x.txt", 1000, Some("same"))]),
    ];
    let mut state = SyncState::new();
    let actions = initial_sync_with_state(&listings, &mut state);
    assert!(copy_triples(&actions).is_empty());
    assert_eq!(state.get_file("x.txt").unwrap().modified, 2000);
}

#[test]
fn initial_sync_twice_plans_nothing() {
    // After the first reconciliation the listings agree; the second run
    // plans no action at all — no copy and no directory creation.
    let listings = vec![
        folder_listing(vec![dir("sub", 500)], vec![file("x.txt", 1000, Some("h1"))]),
        folder_listing(vec![], vec![]),
    ];
    let mut state = SyncState::new();
    let first = initial_sync_with_state(&listings, &mut state);
    assert_eq!(first.len(), 2);
    // The world after the run: both folders hold the directory and the
    // winner's file record (the created directory gets its own mtime).
    let after = vec![
        folder_listing(vec![dir("sub", 500)], vec![file("x.txt", 1000, Some("h1"))]),
        folder_listing(vec![dir("sub", 900)], vec![file("x.txt", 1000, Some("h1"))]),
    ];
    let second = initial_sync_with_state(&after, &mut state);
    assert!(second.is_empty());
}

#[test]
fn initial_sync_creates_dirs_only_where_absent() {
    // A directory both folders already list is created nowhere; one
    // only the first lists is created on the second alone.
    let listings = vec![
        folder_listing(vec![dir("shared", 800), dir("fresh", 700)], vec![]),
        folder_listing(vec![dir("shared", 600)], vec![]),
        archive_listing(vec![], vec![]),
    ];
    let mut state = SyncState::new();
    let actions = initial_sync_with_state(&listings, &mut state);
    let creates: Vec<(usize, String)> = actions
        .iter()
        .filter_map(|a| match a {
            SyncAction::CreateDir { loc, path, .. } => Some((*loc, path.clone())),
            _ => None,
        })
        .collect();
    // `shared` exists on both folders, so only the archive (a no-op
    // sink) is addressed; `fresh` is created on the other folder and
    // the archive.
    assert_eq!(
        creates,
        vec![
            (2, "shared".to_string()),
            (1, "fresh".to_string()),
            (2, "fresh".to_string())
        ]
    );
    assert!(state.contains_dir("shared"));
    assert!(state.contains_dir("fresh"));
}

#[test]
fn archive_file_reaches_folder_in_initial_sync() {
    // An archive member carries the epoch timestamp; it is still the
    // only copy, so the archive is its source and the initial pass
    // copies it out and records it.
    let listings = vec![
        archive_listing(vec![], vec![file("doc.md", 0, Some("hd"))]),
        folder_listing(vec![], vec![]),
    ];
    let mut state = SyncState::new();
    let actions = initial_sync_with_state(&listings, &mut state);
    assert_eq!(copy_triples(&actions), vec![(0, 1, "doc.md".to_string())]);
    assert_eq!(state.get_file("doc.md").unwrap().hash.as_deref(), Some("hd"));
    assert_eq!(state.get_file("doc.md").unwrap().modified, 0);
}

#[test]
fn deletion_propagates_from_folder() {
    // y.txt is recorded but gone from the folder: it is deleted on
    // every non-archive location and dropped from the state.
    let mut state = SyncState::new();
    state.update_file("y.txt".to_string(), file("y.txt", 500, Some("hy")));
    let kinds = vec![LocationKind::Folder, LocationKind::Folder, LocationKind::Archive];
    let listing = folder_listing(vec![], vec![]);
    let (actions, to_sync) = poll_location(0, &kinds, &listing, &Vec::new(), &mut state);
    let deletes: Vec<(usize, String)> = actions
        .iter()
        .filter_map(|a| match a {
            SyncAction::DeleteFile { loc, path } => Some((*loc, path.clone())),
            _ => None,
        })
        .collect();
    assert_eq!(deletes, vec![(0, "y.txt".to_string()), (1, "y.txt".to_string())]);
    assert!(to_sync.is_empty());
    assert!(state.get_file("y.txt").is_none());
}

#[test]
fn absence_in_archive_deletes_nothing() {
    // The same recorded file absent from an archive listing is not a
    // deletion: archives are read-only observers.
    let mut state = SyncState::new();
    state.update_file("y.txt".to_string(), file("y.txt", 500, Some("hy")));
    let kinds = vec![LocationKind::Archive, LocationKind::Folder];
    let listing = archive_listing(vec![], vec![]);
    let (actions, _) = poll_location(0, &kinds, &listing, &Vec::new(), &mut state);
    assert!(actions.is_empty());
    assert!(state.get_file("y.txt").is_some());
}

#[test]
fn new_directory_is_mirrored_to_non_archive_peers() {
    let mut state = SyncState::new();
    let kinds = vec![LocationKind::Folder, LocationKind::Folder, LocationKind::Archive];
    let listing = folder_listing(vec![dir("sub", 700)], vec![]);
    let (actions, _) = poll_location(0, &kinds, &listing, &Vec::new(), &mut state);
    let creates: Vec<(usize, String, u64)> = actions
        .iter()
        .filter_map(|a| match a {
            SyncAction::CreateDir { loc, path, modified } => {
                Some((*loc, path.clone(), *modified))
            },
            _ => None,
        })
        .collect();
    // Created on the other folder only: not on the listing's own
    // location, not on the archive.
    assert_eq!(creates, vec![(1, "sub".to_string(), 700)]);
}

#[test]
fn changed_hash_triggers_resync() {
    let mut state = SyncState::new();
    state.update_file("x.txt".to_string(), file("x.txt", 1000, Some("old")));
    let kinds = vec![LocationKind::Folder];
    let listing = folder_listing(vec![], vec![file("x.txt", 1000, Some("new"))]);
    let (_, to_sync) = poll_location(0, &kinds, &listing, &Vec::new(), &mut state);
    assert_eq!(to_sync, vec!["x.txt".to_string()]);
}

#[test]
fn unchanged_hash_triggers_nothing() {
    let mut state = SyncState::new();
    state.update_file("x.txt".to_string(), file("x.txt", 1000, Some("same")));
    let kinds = vec![LocationKind::Folder];
    let listing = folder_listing(vec![], vec![file("x.txt", 2000, Some("same"))]);
    let (actions, to_sync) = poll_location(0, &kinds, &listing, &Vec::new(), &mut state);
    assert!(actions.is_empty());
    assert!(to_sync.is_empty());
}

#[test]
fn poll_locations_walks_every_location() {
    let mut state = SyncState::new();
    let kinds = vec![LocationKind::Folder, LocationKind::Folder];
    let listings = vec![
        folder_listing(vec![], vec![file("a.txt", 10, Some("ha"))]),
        folder_listing(vec![], vec![file("b.txt", 20, Some("hb"))]),
    ];
    let (_, to_sync) = poll_locations(&kinds, &listings, &mut state);
    assert_eq!(to_sync, vec!["a.txt".to_string(), "b.txt".to_string()]);
}

#[test]
fn hash_override_on_equal_timestamps() {
    // Equal times, both hashes present and different: the later copy
    // becomes the authority the state records, and it is copied onto
    // the equal-time loser so both ends agree.
    let mut state = SyncState::new();
    let candidates = vec![
        Some(file("x.txt", 1000, Some("a"))),
        Some(file("x.txt", 1000, Some("b"))),
    ];
    let actions = sync_file(&candidates, "x.txt", &mut state);
    assert_eq!(copy_triples(&actions), vec![(1, 0, "x.txt".to_string())]);
    assert_eq!(state.get_file("x.txt").unwrap().hash.as_deref(), Some("b"));
}

#[test]
fn same_hash_on_newer_time_suppresses_update() {
    // The second copy is newer but identical in content: the older
    // winner stands and no write is planned.
    let mut state = SyncState::new();
    let candidates = vec![
        Some(file("x.txt", 1000, Some("same"))),
        Some(file("x.txt", 2000, Some("same"))),
    ];
    let actions = sync_file(&candidates, "x.txt", &mut state);
    assert!(actions.is_empty());
    assert_eq!(state.get_file("x.txt").unwrap().modified, 1000);
}

#[test]
fn newer_different_copy_wins_single_file_sync() {
    let mut state = SyncState::new();
    let candidates = vec![
        Some(file("x.txt", 1000, Some("a"))),
        Some(file("x.txt", 2000, Some("b"))),
        None,
    ];
    let actions = sync_file(&candidates, "x.txt", &mut state);
    assert_eq!(
        copy_triples(&actions),
        vec![(1, 0, "x.txt".to_string()), (1, 2, "x.txt".to_string())]
    );
    assert_eq!(state.get_file("x.txt").unwrap().modified, 2000);
}

#[test]
fn sync_file_of_absent_path_does_nothing() {
    let mut state = SyncState::new();
    let candidates: Vec<Option<FileMetadata>> = vec![None, None];
    let actions = sync_file(&candidates, "ghost.txt", &mut state);
    assert!(actions.is_empty());
    assert!(state.get_file("ghost.txt").is_none());
}

#[test]
fn watcher_create_file_routes_to_resync() {
    let mut state = SyncState::new();
    let kinds = vec![LocationKind::Folder, LocationKind::Folder];
    let root = "/A".to_string();
    let event = LocalEvent {
        kind: LocalEventKind::Create { is_dir: false, modified: 123 },
        path: "/A/sub/new.txt".to_string(),
    };
    let (actions, to_sync) = handle_local_event(&event, &kinds, Some(&root), &mut state);
    assert!(actions.is_empty());
    assert_eq!(to_sync, vec!["sub/new.txt".to_string()]);
}

#[test]
fn watcher_create_dir_mirrors_everywhere_mutable() {
    let mut state = SyncState::new();
    let kinds = vec![LocationKind::Folder, LocationKind::Archive, LocationKind::Ftp];
    let root = "/A".to_string();
    let event = LocalEvent {
        kind: LocalEventKind::Create { is_dir: true, modified: 99 },
        path: "/A/newdir".to_string(),
    };
    let (actions, to_sync) = handle_local_event(&event, &kinds, Some(&root), &mut state);
    let creates: Vec<usize> = actions
        .iter()
        .filter_map(|a| match a {
            SyncAction::CreateDir { loc, .. } => Some(*loc),
            _ => None,
        })
        .collect();
    assert_eq!(creates, vec![0, 2]);
    assert!(to_sync.is_empty());
}

#[test]
fn watcher_remove_file_propagates() {
    let mut state = SyncState::new();
    state.update_file("gone.txt".to_string(), file("gone.txt", 1, None));
    let kinds = vec![LocationKind::Folder, LocationKind::Folder];
    let root = "/A".to_string();
    let event = LocalEvent {
        kind: LocalEventKind::Remove { is_dir: false },
        path: "/A/gone.txt".to_string(),
    };
    let (actions, _) = handle_local_event(&event, &kinds, Some(&root), &mut state);
    let deletes: Vec<usize> = actions
        .iter()
        .filter_map(|a| match a {
            SyncAction::DeleteFile { loc, .. } => Some(*loc),
            _ => None,
        })
        .collect();
    assert_eq!(deletes, vec![0, 1]);
    assert!(state.get_file("gone.txt").is_none());
}

#[test]
fn watcher_other_event_is_ignored() {
    let mut state = SyncState::new();
    let kinds = vec![LocationKind::Folder];
    let event = LocalEvent { kind: LocalEventKind::Other, path: "/A/x".to_string() };
    let (actions, to_sync) = handle_local_event(&event, &kinds, None, &mut state);
    assert!(actions.is_empty());
    assert!(to_sync.is_empty());
}

#[test]
fn state_update_and_remove() {
    let mut state = SyncState::new();
    state.update_file("a".to_string(), file("a", 1, None));
    state.update_file("a".to_string(), file("a", 2, Some("h")));
    assert_eq!(state.get_file("a").unwrap().modified, 2);
    state.remove_file("a");
    assert!(state.get_file("a").is_none());
    state.update_dir("d".to_string(), dir("d", 5));
    assert!(state.contains_dir("d"));
    state.remove_dir("d");
    assert!(!state.contains_dir("d"));
}

#[test]
fn initial_sync_mirrors_directories() {
    // The location with the newest directory time wins; the directory
    // is created everywhere else, archives receiving a harmless no-op.
    let listings = vec![
        folder_listing(vec![dir("sub", 100)], vec![]),
        folder_listing(vec![], vec![]),
    ];
    let mut state = SyncState::new();
    let actions = initial_sync_with_state(&listings, &mut state);
    let creates: Vec<(usize, String)> = actions
        .iter()
        .filter_map(|a| match a {
            SyncAction::CreateDir { loc, path, .. } => Some((*loc, path.clone())),
            _ => None,
        })
        .collect();
    assert_eq!(creates, vec![(1, "sub".to_string())]);
    assert!(state.contains_dir("sub"));
}

#[test]
fn epoch_directories_are_mirrored() {
    // A directory listed only by the archive, at the epoch, still has
    // the archive as its first-encountered source: it is created on
    // the folder and recorded.
    let listings = vec![
        archive_listing(vec![dir("arch-only", 0)], vec![]),
        folder_listing(vec![], vec![]),
    ];
    let mut state = SyncState::new();
    let actions = initial_sync_with_state(&listings, &mut state);
    let creates: Vec<(usize, String)> = actions
        .iter()
        .filter_map(|a| match a {
            SyncAction::CreateDir { loc, path, .. } => Some((*loc, path.clone())),
            _ => None,
        })
        .collect();
    assert_eq!(creates, vec![(1, "arch-only".to_string())]);
    assert!(state.contains_dir("arch-only"));
}

#[test]
fn poll_pass_keeps_its_own_creation() {
    // Over one fixed set of listings, the directory created at the
    // first step must not be read as deleted by the second step's
    // stale listing: the pass never undoes its own creation.
    let mut state = SyncState::new();
    let kinds = vec![LocationKind::Folder, LocationKind::Folder];
    let listings = vec![
        folder_listing(vec![dir("sub", 700)], vec![]),
        folder_listing(vec![], vec![]),
    ];
    let (actions, _) = poll_locations(&kinds, &listings, &mut state);
    assert!(state.contains_dir("sub"));
    assert!(actions.iter().all(|a| !matches!(a, SyncAction::RemoveDir { .. })));
}

#[test]
fn archive_may_be_a_copy_target_as_a_no_op() {
    // The plan addresses the archive like any other peer; the archive
    // backend turns the write into a successful no-op, so the archive's
    // bytes stay untouched.
    let listings = vec![
        folder_listing(vec![], vec![file("x.txt", 2000, Some("new"))]),
        archive_listing(vec![], vec![file("x.txt", 0, Some("old"))]),
    ];
    let mut state = SyncState::new();
    let actions = initial_sync_with_state(&listings, &mut state);
    assert_eq!(copy_triples(&actions), vec![(0, 1, "x.txt".to_string())]);
}
