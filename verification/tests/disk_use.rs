use acme_disk_use::{
    Cache, DirEntry, DiskUse, EntryKind, EntryMeta, IoFailure, PathProbe, Snapshot, Timestamp,
};

fn at(nanos: u128) -> Timestamp {
    Timestamp { nanos }
}

fn file(path: &str, len: u64) -> Result<DirEntry, IoFailure> {
    Ok(DirEntry {
        path: path.to_string(),
        meta: Ok(EntryMeta { kind: EntryKind::File, len, modified: Some(at(100)) }),
    })
}

fn subdir(path: &str, mtime: u128) -> Result<DirEntry, IoFailure> {
    Ok(DirEntry {
        path: path.to_string(),
        meta: Ok(EntryMeta { kind: EntryKind::Dir, len: 4096, modified: Some(at(mtime)) }),
    })
}

fn listed(fs: &mut Snapshot, path: &str, mtime: u128, entries: Vec<Result<DirEntry, IoFailure>>) {
    let probe = PathProbe { modified: Some(at(mtime)), listing: Ok(entries) };
    assert!(fs.record(path.to_string(), probe));
}

/// The tree of the five files of 11, 12, 19, 12 and 17 bytes, with `extra`
/// more files in its root, whose modification time is `root_mtime`.
fn test_directory_structure(root_mtime: u128, extra: Vec<Result<DirEntry, IoFailure>>) -> Snapshot {
    let mut fs = Snapshot::new();
    let mut root = vec![
        file("/t/test/file1.txt", 11),
        file("/t/test/file2.txt", 12),
        subdir("/t/test/subdir1", 100),
        subdir("/t/test/subdir2", 100),
    ];
    root.extend(extra);
    listed(&mut fs, "/t/test", root_mtime, root);
    listed(&mut fs, "/t/test/subdir1", 100, vec![file("/t/test/subdir1/nested_file.txt", 19)]);
    listed(
        &mut fs,
        "/t/test/subdir2",
        100,
        vec![file("/t/test/subdir2/another.txt", 12), subdir("/t/test/subdir2/nested", 100)],
    );
    listed(
        &mut fs,
        "/t/test/subdir2/nested",
        100,
        vec![file("/t/test/subdir2/nested/deep.txt", 17)],
    );
    fs
}

#[test]
fn test_disk_use_with_cache() {
    let fs = test_directory_structure(100, vec![]);
    let cache_file = "/t/cache.bin";
    let canonical_test_dir = "/t/test";

    let written = {
        let mut disk_use = DiskUse::new(cache_file.to_string(), Cache::default());
        let size1 = disk_use.scan(canonical_test_dir, None, &fs, at(200)).unwrap();
        assert_eq!(size1, 71);

        // Force save by explicitly calling save_cache
        let written = disk_use.save_cache().cloned();
        assert_eq!(disk_use.complete_save(Ok(())), Ok(()));
        written
    };

    assert!(written.is_some());

    {
        let mut disk_use = DiskUse::new(cache_file.to_string(), written.unwrap());
        let _size2 = disk_use.scan(canonical_test_dir, None, &fs, at(300)).unwrap();
        assert_eq!(_size2, 71);

        let file_count = disk_use.get_file_count(canonical_test_dir, None, &fs, false).unwrap();
        assert_eq!(file_count, 5);
    }
}

#[test]
fn test_disk_use_ignore_cache() {
    let fs = test_directory_structure(100, vec![]);

    let mut disk_use = DiskUse::new("/t/cache.json".to_string(), Cache::default());

    let size1 = disk_use.scan("/t/test", None, &fs, at(200)).unwrap();
    assert_eq!(size1, 71);

    let fs = test_directory_structure(300, vec![file("/t/test/new_file.txt", 11)]);

    let _size2 = disk_use.scan("/t/test", None, &fs, at(400)).unwrap();

    let size3 = disk_use.scan_with_options("/t/test", None, &fs, at(500), true).unwrap();
    assert_eq!(size3, 82);
    assert_eq!(disk_use.get_file_count("/t/test", None, &fs, true), Ok(6));
}

#[test]
fn test_cache_management() {
    let fs = test_directory_structure(100, vec![]);
    let cache_file = "/t/cache.bin";

    let written = {
        let mut disk_use = DiskUse::new(cache_file.to_string(), Cache::default());

        disk_use.scan("/t/test", None, &fs, at(200)).unwrap();
        let written = disk_use.save_cache().cloned(); // Explicit save
        assert_eq!(disk_use.complete_save(Ok(())), Ok(()));
        written
    };

    assert!(written.is_some());

    {
        let mut disk_use = DiskUse::new(cache_file.to_string(), written.unwrap());
        assert!(disk_use.clear_cache().roots().is_empty());
        assert_eq!(disk_use.complete_save(Ok(())), Ok(()));
        assert!(disk_use.get_stats("/t/test", None).is_none());

        assert_eq!(disk_use.delete_cache(true), Some(cache_file));
        assert_eq!(disk_use.delete_cache(false), None);
        assert_eq!(disk_use.cache_path(), cache_file);
    }
}

#[test]
fn a_bypassing_scan_leaves_the_cache_as_it_was() {
    let fs = test_directory_structure(100, vec![]);
    let mut disk_use = DiskUse::new("/t/cache.bin".to_string(), Cache::default());

    assert_eq!(disk_use.scan_with_options("/t/test", None, &fs, at(200), true), Ok(71));
    assert!(disk_use.get_stats("/t/test", None).is_none());
    assert!(disk_use.save_cache().is_none());
    assert_eq!(disk_use.get_file_count("/t/test", None, &fs, false), Ok(0));

    assert_eq!(disk_use.scan("/t/test", None, &fs, at(200)), Ok(71));
    assert!(disk_use.save_cache().is_some());
    assert_eq!(disk_use.complete_save(Ok(())), Ok(()));

    // The filesystem changes; a bypassing scan sees it and leaves the cache alone.
    let fs = test_directory_structure(300, vec![file("/t/test/new_file.txt", 11)]);
    assert_eq!(disk_use.scan_with_options("/t/test", None, &fs, at(400), true), Ok(82));
    assert!(disk_use.save_cache().is_none());
    assert_eq!(disk_use.get_stats("/t/test", None).unwrap().total_size(), 71);
    assert_eq!(disk_use.get_stats("/t/test", None).unwrap().last_scan(), at(200));
}

#[test]
fn an_added_file_is_found_by_the_next_cached_scan() {
    let fs = test_directory_structure(100, vec![]);
    let mut disk_use = DiskUse::new("/t/cache.bin".to_string(), Cache::default());
    assert_eq!(disk_use.scan("/t/test", None, &fs, at(200)), Ok(71));

    let fs = test_directory_structure(300, vec![file("/t/test/new_file.txt", 11)]);
    assert_eq!(disk_use.scan("/t/test", None, &fs, at(400)), Ok(82));
    let stats = disk_use.get_stats("/t/test", None).unwrap();
    assert_eq!(stats.file_count(), 6);
    assert_eq!(stats.last_scan(), at(400));
    // The subdirectories did not change: their nodes are those of the first scan.
    assert_eq!(stats.child("/t/test/subdir1").unwrap().last_scan(), at(200));
}

#[test]
fn a_scan_is_made_at_the_canonical_path_and_kept_under_it() {
    // The directory is given as `link`; its canonical path is `/t/test`.
    let fs = test_directory_structure(100, vec![]);
    let mut disk_use = DiskUse::new("/t/cache.bin".to_string(), Cache::default());
    let canonical = Some("/t/test".to_string());
    assert_eq!(disk_use.scan("link", canonical.clone(), &fs, at(200)), Ok(71));
    assert!(disk_use.get_stats("link", None).is_none());

    let stats = disk_use.get_stats("link", canonical.clone()).unwrap();
    assert_eq!(stats.path(), "/t/test");
    assert_eq!(stats.children()[0].path(), "/t/test/subdir1");
    assert_eq!(disk_use.get_file_count("link", canonical.clone(), &fs, false), Ok(5));
    assert_eq!(disk_use.get_file_count("link", canonical.clone(), &fs, true), Ok(5));

    // Given by its canonical path, the directory finds the same node, and the
    // children of the node are those of the listing.
    assert_eq!(disk_use.get_stats("/t/test", None).unwrap().last_scan(), at(200));
    let changed = test_directory_structure(300, vec![file("/t/test/new_file.txt", 11)]);
    assert_eq!(disk_use.scan("/t/test", None, &changed, at(400)), Ok(82));
    let stats = disk_use.get_stats("link", canonical).unwrap();
    assert_eq!(stats.last_scan(), at(400));
    assert_eq!(stats.child("/t/test/subdir1").unwrap().last_scan(), at(200));
}

#[test]
fn a_failed_scan_leaves_the_cache_as_it_was() {
    let fs = test_directory_structure(100, vec![]);
    let mut disk_use = DiskUse::new("/t/cache.bin".to_string(), Cache::default());
    assert_eq!(disk_use.scan("/t/missing", None, &fs, at(200)), Err(IoFailure::NotFound));
    assert!(disk_use.save_cache().is_none());
    assert_eq!(
        disk_use.get_file_count("/t/missing", None, &fs, true),
        Err(IoFailure::NotFound)
    );
}
