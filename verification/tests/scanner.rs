use acme_disk_use::invalidation::{
    dir_changed_since_last_scan, is_still_valid, prune_deleted_dirs,
};
use acme_disk_use::scanner::{count_files, scan_directory};
use acme_disk_use::{
    DirEntry, DirStat, EntryKind, EntryMeta, IoFailure, PathProbe, Snapshot, Survey, Timestamp,
};

/// A directory of a filesystem kept in memory: its name, its modification
/// time, its files with their lengths, and its subdirectories.
struct Dir {
    name: &'static str,
    mtime: u128,
    files: Vec<(&'static str, u64)>,
    dirs: Vec<Dir>,
}

fn dir(name: &'static str, mtime: u128, files: Vec<(&'static str, u64)>, dirs: Vec<Dir>) -> Dir {
    Dir { name, mtime, files, dirs }
}

fn at(nanos: u128) -> Timestamp {
    Timestamp { nanos }
}

/// Records `dir`, which lies at `path`, and everything below it.
fn record(snapshot: &mut Snapshot, path: &str, dir: &Dir) {
    let mut listing = Vec::new();
    for (name, len) in &dir.files {
        listing.push(Ok(DirEntry {
            path: format!("{}/{}", path, name),
            meta: Ok(EntryMeta { kind: EntryKind::File, len: *len, modified: Some(at(dir.mtime)) }),
        }));
    }
    for sub in &dir.dirs {
        let sub_path = format!("{}/{}", path, sub.name);
        listing.push(Ok(DirEntry {
            path: sub_path.clone(),
            meta: Ok(EntryMeta { kind: EntryKind::Dir, len: 4096, modified: Some(at(sub.mtime)) }),
        }));
        record(snapshot, &sub_path, sub);
    }
    let probe = PathProbe { modified: Some(at(dir.mtime)), listing: Ok(listing) };
    assert!(snapshot.record(path.to_string(), probe));
}

fn snapshot_of(root: &Dir) -> Snapshot {
    let mut snapshot = Snapshot::new();
    record(&mut snapshot, &format!("/tmp/{}", root.name), root);
    snapshot
}

fn test_structure() -> Dir {
    dir(
        "test",
        100,
        vec![("file1.txt", 11), ("file2.txt", 12)],
        vec![
            dir("subdir1", 100, vec![("nested_file.txt", 19)], vec![]),
            dir(
                "subdir2",
                100,
                vec![("another.txt", 12)],
                vec![dir("nested", 100, vec![("deep.txt", 17)], vec![])],
            ),
        ],
    )
}

#[test]
fn test_scan_directory() {
    let fs = snapshot_of(&test_structure());

    let result = scan_directory("/tmp/test", None, &fs, at(200)).unwrap();

    // Expected total: 11 + 12 + 19 + 12 + 17 = 71 bytes
    assert_eq!(result.total_size(), 71);
    assert_eq!(result.file_count(), 5);
    assert_eq!(result.children().len(), 2); // subdir1 and subdir2
}

#[test]
fn test_count_files() {
    let fs = snapshot_of(&test_structure());

    let count = count_files("/tmp/test", &fs).unwrap();
    assert_eq!(count, 5);
}

#[test]
fn test_scan_with_cache() {
    let fs = snapshot_of(&test_structure());

    // First scan without cache
    let stats1 = scan_directory("/tmp/test", None, &fs, at(200)).unwrap();
    let scan_time1 = stats1.last_scan();

    // Second scan with cache (should reuse if directory hasn't changed)
    let stats2 = scan_directory("/tmp/test", Some(&stats1), &fs, at(300)).unwrap();
    let scan_time2 = stats2.last_scan();

    // Since directory hasn't changed, should return cached stats with same timestamp
    assert_eq!(scan_time1, scan_time2);
}

#[test]
fn test_detects_new_nested_subdirectory() {
    // Create initial structure: test/a/
    let before = dir("test", 100, vec![], vec![dir("a", 100, vec![("file1.txt", 7)], vec![])]);

    // First scan
    let stats1 = scan_directory("/tmp/test", None, &snapshot_of(&before), at(200)).unwrap();
    assert_eq!(stats1.file_count(), 1);

    // Now create test/a/b/ (this updates a's mtime but NOT test's mtime)
    let after = dir(
        "test",
        100,
        vec![],
        vec![dir(
            "a",
            300,
            vec![("file1.txt", 7)],
            vec![dir("b", 300, vec![("file2.txt", 11)], vec![])],
        )],
    );

    // Second scan with cache - should detect the new subdirectory
    let stats2 =
        scan_directory("/tmp/test", Some(&stats1), &snapshot_of(&after), at(400)).unwrap();

    // Should have scanned and found the new file
    assert_eq!(stats2.file_count(), 2);
    assert!(
        stats2.last_scan() > stats1.last_scan(),
        "Should have rescanned since new subdirectory was added"
    );
}

#[test]
fn test_detects_deleted_subdirectory() {
    // Create initial structure
    let before = dir(
        "test",
        100,
        vec![],
        vec![
            dir("a", 100, vec![("file1.txt", 7)], vec![]),
            dir("b", 100, vec![("file2.txt", 7)], vec![]),
        ],
    );

    // First scan
    let stats1 = scan_directory("/tmp/test", None, &snapshot_of(&before), at(200)).unwrap();
    assert_eq!(stats1.file_count(), 2);

    // Delete subdirectory b
    let after = dir("test", 300, vec![], vec![dir("a", 100, vec![("file1.txt", 7)], vec![])]);

    // Second scan with cache - should detect the deleted subdirectory
    let stats2 =
        scan_directory("/tmp/test", Some(&stats1), &snapshot_of(&after), at(400)).unwrap();

    // Should have rescanned and found only 1 file now
    assert_eq!(stats2.file_count(), 1);
    assert!(
        stats2.last_scan() > stats1.last_scan(),
        "Should have rescanned since subdirectory was deleted"
    );
}

#[test]
fn test_prunes_deeply_nested_deleted_directory() {
    // Create deeply nested structure: test/a/b/c/d/
    let before = dir(
        "test",
        100,
        vec![],
        vec![dir(
            "a",
            100,
            vec![("file1.txt", 8)],
            vec![dir(
                "b",
                100,
                vec![("file2.txt", 8)],
                vec![dir(
                    "c",
                    100,
                    vec![("file3.txt", 8)],
                    vec![dir("d", 100, vec![("file4.txt", 8)], vec![])],
                )],
            )],
        )],
    );

    // First scan
    let stats1 = scan_directory("/tmp/test", None, &snapshot_of(&before), at(200)).unwrap();
    assert_eq!(stats1.file_count(), 4);

    // Delete deeply nested directory c (and its child d)
    let after = dir(
        "test",
        100,
        vec![],
        vec![dir(
            "a",
            100,
            vec![("file1.txt", 8)],
            vec![dir("b", 300, vec![("file2.txt", 8)], vec![])],
        )],
    );

    // Second scan with cache - should prune deleted dirs and update counts
    let stats2 =
        scan_directory("/tmp/test", Some(&stats1), &snapshot_of(&after), at(400)).unwrap();

    // Should have only 2 files now (file1.txt and file2.txt)
    assert_eq!(stats2.file_count(), 2);
    assert_eq!(stats2.total_size(), 16);

    // Verify cache structure is updated (b should exist, but c and d should be gone)
    let a_stats = stats2.child("/tmp/test/a").unwrap();
    let b_stats = a_stats.child("/tmp/test/a/b").unwrap();
    assert!(
        b_stats.child("/tmp/test/a/b/c").is_none(),
        "Deleted directory c should be pruned from cache"
    );
    assert!(b_stats.children().is_empty());
}

#[test]
fn scan_fails_only_where_the_root_cannot_be_listed() {
    let mut fs = Snapshot::new();
    let listing = vec![
        Ok(DirEntry {
            path: "/r/locked".to_string(),
            meta: Ok(EntryMeta { kind: EntryKind::Dir, len: 0, modified: Some(at(1)) }),
        }),
        Ok(DirEntry {
            path: "/r/gone".to_string(),
            meta: Ok(EntryMeta { kind: EntryKind::Dir, len: 0, modified: Some(at(1)) }),
        }),
        Ok(DirEntry {
            path: "/r/f".to_string(),
            meta: Ok(EntryMeta { kind: EntryKind::File, len: 5, modified: Some(at(1)) }),
        }),
        Ok(DirEntry { path: "/r/unknown".to_string(), meta: Err(IoFailure::Other) }),
        Err(IoFailure::Other),
    ];
    assert!(fs.record("/r".to_string(), PathProbe { modified: Some(at(1)), listing: Ok(listing) }));
    assert!(fs.record(
        "/r/locked".to_string(),
        PathProbe { modified: Some(at(1)), listing: Err(IoFailure::PermissionDenied) },
    ));

    let root = scan_directory("/r", None, &fs, at(2)).unwrap();
    assert_eq!(root.total_size(), 5);
    assert_eq!(root.file_count(), 1);
    assert!(root.children().is_empty());
    assert_eq!(root.path(), "/r");
    assert_eq!(root.last_scan(), at(2));

    assert_eq!(
        scan_directory("/r/locked", None, &fs, at(2)).err(),
        Some(IoFailure::PermissionDenied)
    );
    assert_eq!(scan_directory("/r/gone", None, &fs, at(2)).err(), Some(IoFailure::NotFound));
    assert_eq!(scan_directory("/nowhere", None, &fs, at(2)).err(), Some(IoFailure::NotFound));
}

#[test]
fn count_files_passes_over_what_cannot_be_read() {
    let mut fs = Snapshot::new();
    let listing = vec![
        Ok(DirEntry {
            path: "/r/f".to_string(),
            meta: Ok(EntryMeta { kind: EntryKind::File, len: 5, modified: None }),
        }),
        Ok(DirEntry {
            path: "/r/sub".to_string(),
            meta: Ok(EntryMeta { kind: EntryKind::Dir, len: 0, modified: None }),
        }),
        Ok(DirEntry {
            path: "/r/locked".to_string(),
            meta: Ok(EntryMeta { kind: EntryKind::Dir, len: 0, modified: None }),
        }),
        Ok(DirEntry { path: "/r/vanished".to_string(), meta: Err(IoFailure::NotFound) }),
        Err(IoFailure::Other),
        Ok(DirEntry {
            path: "/r/g".to_string(),
            meta: Ok(EntryMeta { kind: EntryKind::File, len: 1, modified: None }),
        }),
    ];
    assert!(fs.record("/r".to_string(), PathProbe { modified: None, listing: Ok(listing) }));
    assert!(fs.record(
        "/r/locked".to_string(),
        PathProbe { modified: None, listing: Err(IoFailure::PermissionDenied) },
    ));
    // The subdirectory that cannot be listed, and the one that is gone, add nothing.
    assert_eq!(count_files("/r", &fs), Ok(2));

    let sub = vec![Ok(DirEntry {
        path: "/r/sub/h".to_string(),
        meta: Ok(EntryMeta { kind: EntryKind::File, len: 1, modified: None }),
    })];
    assert!(fs.record("/r/sub".to_string(), PathProbe { modified: None, listing: Ok(sub) }));
    assert_eq!(count_files("/r", &fs), Ok(3));
    assert_eq!(count_files("/r/sub", &fs), Ok(1));

    // Only a directory that cannot be listed itself makes the count fail.
    assert_eq!(count_files("/r/locked", &fs), Err(IoFailure::PermissionDenied));
    assert!(fs.record(
        "/r/locked".to_string(),
        PathProbe { modified: None, listing: Err(IoFailure::Os(13)) },
    ));
    assert_eq!(count_files("/r/locked", &fs), Err(IoFailure::Os(13)));
    assert_eq!(scan_directory("/r/locked", None, &fs, at(1)).err(), Some(IoFailure::Os(13)));
    assert_eq!(count_files("/r/vanished", &fs), Err(IoFailure::NotFound));
}

fn entry(path: &str, kind: EntryKind) -> Result<DirEntry, IoFailure> {
    Ok(DirEntry { path: path.to_string(), meta: Ok(EntryMeta { kind, len: 1, modified: None }) })
}

fn listed(entries: Vec<Result<DirEntry, IoFailure>>) -> PathProbe {
    PathProbe { modified: None, listing: Ok(entries) }
}

#[test]
fn snapshot_takes_only_the_listing_of_a_directory() {
    let mut fs = Snapshot::new();
    // An entry is the path of the directory and one more name.
    assert!(fs.record("/a".to_string(), listed(vec![entry("/a/b", EntryKind::Dir)])));
    assert!(fs.record("/".to_string(), listed(vec![entry("/a", EntryKind::Dir)])));
    assert!(fs.record("".to_string(), listed(vec![entry("a", EntryKind::File)])));
    assert!(fs.record(".".to_string(), listed(vec![entry("./a", EntryKind::File)])));
    assert!(fs.record("/d/".to_string(), listed(vec![entry("/d/x", EntryKind::File)])));
    assert!(fs.record("/e".to_string(), listed(vec![Err(IoFailure::Other)])));

    // Not two names, not another directory, not the directory itself, no empty name.
    assert!(!fs.record("/p".to_string(), listed(vec![entry("/p/b/c", EntryKind::File)])));
    assert!(!fs.record("/p".to_string(), listed(vec![entry("/pb", EntryKind::File)])));
    assert!(!fs.record("/p".to_string(), listed(vec![entry("/q/b", EntryKind::File)])));
    assert!(!fs.record("/p".to_string(), listed(vec![entry("/p", EntryKind::Dir)])));
    assert!(!fs.record("/p".to_string(), listed(vec![entry("/p/", EntryKind::Dir)])));
    assert!(!fs.record("/p/".to_string(), listed(vec![entry("/p//x", EntryKind::Dir)])));
    assert!(!fs.contains("/p"));

    // No path twice.
    assert!(!fs.record(
        "/p".to_string(),
        listed(vec![
            entry("/p/x", EntryKind::File),
            entry("/p/y", EntryKind::Dir),
            entry("/p/x", EntryKind::Dir),
        ]),
    ));
    assert!(fs.record(
        "/p".to_string(),
        listed(vec![
            entry("/p/x", EntryKind::File),
            Err(IoFailure::Other),
            entry("/p/y", EntryKind::Dir),
        ]),
    ));
}

#[test]
fn every_child_has_the_path_of_its_parent_and_one_more_name() {
    let fs = snapshot_of(&test_structure());
    let root = scan_directory("/tmp/test", None, &fs, at(200)).unwrap();
    assert_eq!(root.path(), "/tmp/test");
    let mut nodes = vec![&root];
    let mut seen = 0;
    while let Some(node) = nodes.pop() {
        for child in node.children() {
            let name = child.path().strip_prefix(node.path()).unwrap().strip_prefix('/').unwrap();
            assert!(!name.is_empty() && !name.contains('/'));
            nodes.push(child);
            seen += 1;
        }
    }
    assert_eq!(seen, 3);
}

#[test]
fn snapshot_refuses_a_listing_that_does_not_lead_down() {
    let mut fs = Snapshot::new();
    let looping = vec![Ok(DirEntry {
        path: "/a".to_string(),
        meta: Ok(EntryMeta { kind: EntryKind::Dir, len: 0, modified: None }),
    })];
    assert!(!fs.record("/a/b".to_string(), PathProbe { modified: None, listing: Ok(looping) }));
    assert!(!fs.contains("/a/b"));
    assert!(fs.record(
        "/a/b".to_string(),
        PathProbe { modified: Some(at(7)), listing: Err(IoFailure::NotADirectory) },
    ));
    assert!(fs.contains("/a/b"));
    assert_eq!(fs.modified("/a/b"), Some(at(7)));
    assert_eq!(fs.modified("/a"), None);
    assert_eq!(fs.read_dir("/a/b").unwrap_err(), IoFailure::NotADirectory);
    assert_eq!(fs.read_dir("/a").unwrap_err(), IoFailure::NotFound);
}

#[test]
fn many_subdirectories_are_scanned_side_by_side_in_order() {
    let mut dirs = Vec::new();
    let names = ["d0", "d1", "d2", "d3", "d4", "d5", "d6", "d7", "d8", "d9"];
    for (i, name) in names.iter().enumerate() {
        dirs.push(dir(name, 100, vec![("f", i as u64 + 1)], vec![]));
    }
    let fs = snapshot_of(&dir("test", 100, vec![("top", 1000)], dirs));
    let root = scan_directory("/tmp/test", None, &fs, at(200)).unwrap();
    assert_eq!(root.total_size(), 1000 + 55);
    assert_eq!(root.file_count(), 11);
    assert_eq!(root.children().len(), 10);
    for (i, child) in root.children().iter().enumerate() {
        assert_eq!(child.path(), format!("/tmp/test/d{}", i));
        assert_eq!(child.total_size(), i as u64 + 1);
        assert_eq!(child.file_count(), 1);
    }
}

#[test]
fn totals_saturate() {
    let fs = snapshot_of(&dir(
        "test",
        100,
        vec![("big", u64::MAX - 1)],
        vec![dir("sub", 100, vec![("more", 10)], vec![])],
    ));
    let root = scan_directory("/tmp/test", None, &fs, at(200)).unwrap();
    assert_eq!(root.total_size(), u64::MAX);
    assert_eq!(root.file_count(), 2);
}

#[test]
fn a_new_leaf_has_no_children() {
    let node = DirStat::new("/x".to_string(), 3, 1, at(5));
    assert_eq!(node.path(), "/x");
    assert_eq!(node.total_size(), 3);
    assert_eq!(node.file_count(), 1);
    assert_eq!(node.last_scan(), at(5));
    assert!(node.children().is_empty());
}

#[test]
fn a_deletion_beside_a_new_directory_finds_both() {
    let before = dir(
        "test",
        100,
        vec![("top", 1)],
        vec![
            dir("a", 100, vec![("file1.txt", 7)], vec![]),
            dir("b", 100, vec![("file2.txt", 7)], vec![]),
        ],
    );
    let stats1 = scan_directory("/tmp/test", None, &snapshot_of(&before), at(200)).unwrap();
    assert_eq!(stats1.file_count(), 3);

    // b is deleted and c is created before the next scan.
    let after = dir(
        "test",
        300,
        vec![("top", 1)],
        vec![
            dir("a", 100, vec![("file1.txt", 7)], vec![]),
            dir("c", 300, vec![("file3.txt", 5), ("file4.txt", 5)], vec![]),
        ],
    );
    let stats2 =
        scan_directory("/tmp/test", Some(&stats1), &snapshot_of(&after), at(400)).unwrap();
    assert_eq!(stats2.file_count(), 4);
    assert_eq!(stats2.total_size(), 1 + 7 + 5 + 5);
    assert_eq!(stats2.last_scan(), at(400));
    assert!(stats2.child("/tmp/test/b").is_none());
    assert_eq!(stats2.child("/tmp/test/c").unwrap().file_count(), 2);
    // a did not change: its node is the one of the first scan.
    assert_eq!(stats2.child("/tmp/test/a").unwrap().last_scan(), at(200));
}

#[test]
fn pruning_removes_deleted_nodes_and_keeps_the_totals() {
    let before = dir(
        "test",
        100,
        vec![],
        vec![
            dir("a", 100, vec![("f", 1)], vec![dir("deep", 100, vec![("g", 2)], vec![])]),
            dir("b", 100, vec![("h", 4)], vec![]),
        ],
    );
    let mut node = scan_directory("/tmp/test", None, &snapshot_of(&before), at(200)).unwrap();
    assert_eq!(node.total_size(), 7);

    // Nothing was deleted: pruning finds nothing and changes nothing.
    assert!(!prune_deleted_dirs(&mut node, &snapshot_of(&before)));
    assert_eq!(node.children().len(), 2);

    let after = dir("test", 100, vec![], vec![dir("a", 300, vec![("f", 1)], vec![])]);
    assert!(prune_deleted_dirs(&mut node, &snapshot_of(&after)));
    assert_eq!(node.children().len(), 1);
    assert_eq!(node.children()[0].path(), "/tmp/test/a");
    assert!(node.children()[0].children().is_empty());
    assert_eq!(node.total_size(), 7);
    assert_eq!(node.last_scan(), at(200));
}

#[test]
fn a_pruned_node_is_brought_up_to_date_and_is_not_valid() {
    let before = dir(
        "test",
        100,
        vec![("top", 10)],
        vec![
            dir("a", 100, vec![("f", 1)], vec![]),
            dir("b", 100, vec![("h", 4)], vec![]),
        ],
    );
    let cached = scan_directory("/tmp/test", None, &snapshot_of(&before), at(200)).unwrap();

    let mut same = cached.clone();
    assert!(is_still_valid("/tmp/test", &mut same, &snapshot_of(&before), at(300)));
    assert_eq!(same.total_size(), 15);
    assert_eq!(same.last_scan(), at(200));

    let after = dir(
        "test",
        250,
        vec![("top", 10), ("more", 20)],
        vec![dir("a", 100, vec![("f", 1)], vec![])],
    );
    let mut pruned = cached.clone();
    assert!(!is_still_valid("/tmp/test", &mut pruned, &snapshot_of(&after), at(300)));
    assert_eq!(pruned.children().len(), 1);
    assert_eq!(pruned.total_size(), 1 + 10 + 20);
    assert_eq!(pruned.file_count(), 3);
    assert_eq!(pruned.last_scan(), at(300));
}

#[test]
fn a_change_is_looked_for_in_cached_subdirectories() {
    let before = dir(
        "test",
        100,
        vec![],
        vec![dir("a", 100, vec![], vec![dir("b", 100, vec![("f", 1)], vec![])])],
    );
    let cached = scan_directory("/tmp/test", None, &snapshot_of(&before), at(200)).unwrap();
    assert!(!dir_changed_since_last_scan("/tmp/test", &cached, &snapshot_of(&before)));

    // A file is added two levels down: only that directory is modified.
    let after = dir(
        "test",
        100,
        vec![],
        vec![dir("a", 100, vec![], vec![dir("b", 300, vec![("f", 1), ("g", 1)], vec![])])],
    );
    assert!(dir_changed_since_last_scan("/tmp/test", &cached, &snapshot_of(&after)));

    // A modification at the very time of the scan is no change.
    let at_scan = dir(
        "test",
        200,
        vec![],
        vec![dir("a", 200, vec![], vec![dir("b", 200, vec![("f", 1)], vec![])])],
    );
    assert!(!dir_changed_since_last_scan("/tmp/test", &cached, &snapshot_of(&at_scan)));

    // A directory whose time cannot be read counts as changed.
    let mut unreadable = Snapshot::new();
    assert!(unreadable.record(
        "/tmp/test".to_string(),
        PathProbe { modified: None, listing: Ok(vec![]) },
    ));
    assert!(dir_changed_since_last_scan("/tmp/test", &cached, &unreadable));
    assert!(dir_changed_since_last_scan("/tmp/test", &cached, &Snapshot::new()));
}

#[test]
fn a_second_scan_of_an_unchanged_tree_returns_the_first_node() {
    let fs = snapshot_of(&test_structure());
    let first = scan_directory("/tmp/test", None, &fs, at(200)).unwrap();
    let second = scan_directory("/tmp/test", Some(&first), &fs, at(300)).unwrap();
    assert_eq!(second.total_size(), first.total_size());
    assert_eq!(second.file_count(), first.file_count());
    assert_eq!(second.last_scan(), first.last_scan());
    assert_eq!(second.children().len(), first.children().len());
    for (a, b) in first.children().iter().zip(second.children()) {
        assert_eq!(a.path(), b.path());
        assert_eq!(a.total_size(), b.total_size());
        assert_eq!(a.last_scan(), b.last_scan());
    }
}

fn own_plus_children(node: &DirStat, own: u64) -> u64 {
    own + node.children().iter().map(|child| child.total_size()).sum::<u64>()
}

#[test]
fn the_totals_of_a_node_are_its_own_files_and_its_children() {
    let fs = snapshot_of(&test_structure());
    let root = scan_directory("/tmp/test", None, &fs, at(200)).unwrap();
    assert_eq!(root.total_size(), own_plus_children(&root, 11 + 12));
    let subdir2 = root.child("/tmp/test/subdir2").unwrap();
    assert_eq!(subdir2.total_size(), own_plus_children(subdir2, 12));
    assert_eq!(subdir2.total_size(), 12 + 17);
    assert_eq!(subdir2.file_count(), 2);
    assert_eq!(root.child("/tmp/test/subdir1").unwrap().total_size(), 19);
}

fn times_in_order(node: &DirStat) -> bool {
    node.children()
        .iter()
        .all(|child| child.last_scan() <= node.last_scan() && times_in_order(child))
}

#[test]
fn a_directory_is_never_scanned_before_what_lies_below_it() {
    let before = snapshot_of(&test_structure());
    let first = scan_directory("/tmp/test", None, &before, at(200)).unwrap();
    assert!(times_in_order(&first));

    // subdir1 gets a new file; the rest is reused.
    let after = snapshot_of(&dir(
        "test",
        100,
        vec![("file1.txt", 11), ("file2.txt", 12)],
        vec![
            dir("subdir1", 300, vec![("nested_file.txt", 19), ("new.txt", 1)], vec![]),
            dir(
                "subdir2",
                100,
                vec![("another.txt", 12)],
                vec![dir("nested", 100, vec![("deep.txt", 17)], vec![])],
            ),
        ],
    ));
    let second = scan_directory("/tmp/test", Some(&first), &after, at(400)).unwrap();
    assert!(times_in_order(&second));
    assert_eq!(second.total_size(), 72);
    assert_eq!(second.last_scan(), at(400));
    assert_eq!(second.child("/tmp/test/subdir1").unwrap().last_scan(), at(400));
    assert_eq!(second.child("/tmp/test/subdir2").unwrap().last_scan(), at(200));
}

#[test]
fn a_copy_of_a_node_finds_its_children() {
    let fs = snapshot_of(&test_structure());
    let root = scan_directory("/tmp/test", None, &fs, at(200)).unwrap();
    let copy = root.clone();
    assert_eq!(copy.total_size(), 71);
    assert_eq!(copy.children().len(), 2);
    let nested = copy.child("/tmp/test/subdir2").unwrap().child("/tmp/test/subdir2/nested");
    assert_eq!(nested.unwrap().total_size(), 17);
    assert!(copy.child("/tmp/test/none").is_none());
}

/// What a filesystem that holds `root` at `/tmp/<name>` reports about `path`.
fn look_up(root: &Dir, path: &str) -> Option<PathProbe> {
    let whole = snapshot_of(root);
    if !whole.contains(path) {
        return None;
    }
    let listing = match whole.read_dir(path) {
        Err(e) => Err(e),
        Ok(entries) => Ok(entries
            .iter()
            .map(|entry| match entry {
                Err(e) => Err(*e),
                Ok(entry) => Ok(DirEntry { path: entry.path.clone(), meta: entry.meta }),
            })
            .collect()),
    };
    Some(PathProbe { modified: whole.modified(path), listing })
}

#[test]
fn a_survey_asks_about_the_root_and_what_lies_below_it() {
    let tree = test_structure();
    let mut survey = Survey::new("/tmp/test".to_string(), None);
    let mut asked = Vec::new();
    while let Some(path) = survey.next() {
        let found = look_up(&tree, &path);
        asked.push(path.clone());
        survey.record(path, found);
    }
    assert_eq!(
        asked,
        ["/tmp/test", "/tmp/test/subdir2", "/tmp/test/subdir2/nested", "/tmp/test/subdir1"]
    );
    let fs = survey.finish();
    let node = scan_directory("/tmp/test", None, &fs, at(200)).unwrap();
    assert_eq!(node.total_size(), 71);
    assert_eq!(node.file_count(), 5);
}

#[test]
fn a_survey_asks_about_cached_paths_once() {
    let before = dir(
        "test",
        100,
        vec![],
        vec![dir("a", 100, vec![("f", 1)], vec![]), dir("b", 100, vec![], vec![])],
    );
    let cached = scan_directory("/tmp/test", None, &snapshot_of(&before), at(200)).unwrap();

    // b is gone; the survey still asks about it, and finds nothing.
    let after = dir("test", 300, vec![], vec![dir("a", 100, vec![("f", 1)], vec![])]);
    let mut survey = Survey::new("/tmp/test".to_string(), Some(&cached));
    let mut asked = Vec::new();
    while let Some(path) = survey.next() {
        let found = look_up(&after, &path);
        asked.push(path.clone());
        survey.record(path, found);
    }
    assert_eq!(asked, ["/tmp/test/b", "/tmp/test/a", "/tmp/test"]);
    let fs = survey.finish();
    assert!(!fs.contains("/tmp/test/b"));
    let node = scan_directory("/tmp/test", Some(&cached), &fs, at(400)).unwrap();
    assert_eq!(node.file_count(), 1);
    assert_eq!(node.children().len(), 1);
}

#[test]
fn a_survey_does_not_follow_a_listing_that_leads_up() {
    let mut survey = Survey::new("/a/b".to_string(), None);
    assert_eq!(survey.next(), Some("/a/b".to_string()));
    let looping = vec![Ok(DirEntry {
        path: "/a".to_string(),
        meta: Ok(EntryMeta { kind: EntryKind::Dir, len: 0, modified: None }),
    })];
    survey.record(
        "/a/b".to_string(),
        Some(PathProbe { modified: Some(at(3)), listing: Ok(looping) }),
    );
    assert_eq!(survey.next(), None);
    let fs = survey.finish();
    assert!(fs.contains("/a/b"));
    assert_eq!(fs.modified("/a/b"), Some(at(3)));
    assert_eq!(fs.read_dir("/a/b").unwrap_err(), IoFailure::Other);
}
