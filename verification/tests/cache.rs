use acme_disk_use::cache::cache_key;
use acme_disk_use::{Cache, CacheManager, DirStat, IoFailure, Timestamp};

fn at(nanos: u128) -> Timestamp {
    Timestamp { nanos }
}

#[test]
fn test_cache_manager_basic_operations() {
    let cache_file = "/tmp/test_cache.json";

    let mut cache_mgr =
        CacheManager::new(cache_file.to_string(), CacheManager::load_from_file(None, None));

    // Test insert
    let test_stat = DirStat::new("/test/path".to_string(), 1000, 10, at(1));

    cache_mgr.insert("/test/path".to_string(), None, test_stat.clone());

    // Test get
    let retrieved = cache_mgr.get("/test/path");
    assert!(retrieved.is_some());
    assert_eq!(retrieved.unwrap().total_size(), 1000);
    assert_eq!(retrieved.unwrap().file_count(), 10);

    // Test save
    let written = cache_mgr.save().cloned();
    assert!(written.is_some());
    assert_eq!(cache_mgr.complete_save(Ok(())), Ok(()));

    // Test loading from what was written
    let cache_mgr2 =
        CacheManager::new(cache_file.to_string(), CacheManager::load_from_file(written, None));
    let retrieved2 = cache_mgr2.get("/test/path");
    assert!(retrieved2.is_some());
    assert_eq!(retrieved2.unwrap().total_size(), 1000);
}

#[test]
fn test_cache_clear_and_delete() {
    let cache_file = "/tmp/test_cache.json";

    let mut cache_mgr =
        CacheManager::new(cache_file.to_string(), CacheManager::load_from_file(None, None));

    let test_stat = DirStat::new("/test".to_string(), 500, 5, at(1));

    cache_mgr.insert("/test".to_string(), None, test_stat);
    assert!(cache_mgr.save().is_some());
    assert_eq!(cache_mgr.complete_save(Ok(())), Ok(()));

    // Test clear
    let written = cache_mgr.clear();
    assert!(written.roots().is_empty());
    assert_eq!(cache_mgr.complete_save(Ok(())), Ok(()));
    assert!(cache_mgr.get("/test").is_none());

    // Test delete
    assert_eq!(cache_mgr.delete(true), Some(cache_file));
    assert_eq!(cache_mgr.delete(false), None);
}

#[test]
fn save_is_lazy_and_a_failed_save_leaves_the_store_dirty() {
    let mut manager = CacheManager::new("/c/cache.bin".to_string(), Cache::default());
    assert!(manager.save().is_none());
    assert_eq!(manager.path(), "/c/cache.bin");

    manager.update("/a", None, DirStat::new("/a".to_string(), 1, 1, at(1)));
    assert_eq!(manager.save().unwrap().roots().len(), 1);
    assert_eq!(
        manager.complete_save(Err(IoFailure::PermissionDenied)),
        Err(IoFailure::PermissionDenied)
    );
    assert!(manager.save().is_some());
    assert_eq!(manager.complete_save(Ok(())), Ok(()));
    assert!(manager.save().is_none());
}

#[test]
fn clearing_makes_a_clean_store_dirty() {
    let mut manager = CacheManager::new("/c/cache.bin".to_string(), Cache::default());
    assert!(manager.save().is_none());
    assert!(manager.clear().roots().is_empty());
    assert!(manager.save().is_some());
}

#[test]
fn a_node_is_kept_under_the_canonical_path() {
    let mut manager = CacheManager::new("/c/cache.bin".to_string(), Cache::default());
    manager.insert(
        "link".to_string(),
        Some("/real/dir".to_string()),
        DirStat::new("link".to_string(), 7, 2, at(1)),
    );
    assert!(manager.get("link").is_none());
    assert_eq!(manager.get("/real/dir").unwrap().total_size(), 7);
    assert_eq!(manager.get("/real/dir").unwrap().path(), "link");

    manager.update("other", None, DirStat::new("other".to_string(), 9, 3, at(2)));
    assert_eq!(manager.get("other").unwrap().file_count(), 3);

    // A second node under a key takes the place of the first.
    manager.update(
        "again",
        Some("/real/dir".to_string()),
        DirStat::new("again".to_string(), 8, 4, at(3)),
    );
    assert_eq!(manager.get("/real/dir").unwrap().total_size(), 8);
    assert_eq!(manager.save().unwrap().roots().len(), 2);

    assert_eq!(cache_key("p", Some("/q".to_string())), "/q");
    assert_eq!(cache_key("p", None), "p");
}

#[test]
fn loading_prefers_the_binary_codec_and_falls_back() {
    let mut binary = Cache::new(3);
    binary.insert("/b".to_string(), DirStat::new("/b".to_string(), 1, 1, at(1)));
    let mut legacy = Cache::new(4);
    legacy.insert("/l".to_string(), DirStat::new("/l".to_string(), 2, 2, at(2)));

    let loaded = CacheManager::load_from_file(Some(binary.clone()), Some(legacy.clone()));
    assert_eq!(loaded.version(), 3);
    assert!(loaded.get("/b").is_some());
    assert!(loaded.get("/l").is_none());

    let loaded = CacheManager::load_from_file(None, Some(legacy));
    assert_eq!(loaded.version(), 4);
    assert_eq!(loaded.get("/l").unwrap().total_size(), 2);

    let loaded = CacheManager::load_from_file(None, None);
    assert_eq!(loaded.version(), 0);
    assert!(loaded.roots().is_empty());
}

#[test]
fn a_reloaded_cache_gives_the_same_totals_for_every_root() {
    let mut manager = CacheManager::new("/c/cache.bin".to_string(), Cache::default());
    let mut root = DirStat::new("/r".to_string(), 30, 3, at(5));
    root.insert_child(DirStat::new("/r/x".to_string(), 10, 1, at(4)));
    root.insert_child(DirStat::new("/r/y".to_string(), 20, 2, at(4)));
    manager.insert("/r".to_string(), None, root);
    manager.insert("/s".to_string(), None, DirStat::new("/s".to_string(), 1, 1, at(6)));

    let written = manager.save().cloned().unwrap();
    let reloaded = CacheManager::new("/c/cache.bin".to_string(), written);
    for key in ["/r", "/s"] {
        let before = manager.get(key).unwrap();
        let after = reloaded.get(key).unwrap();
        assert_eq!(before.total_size(), after.total_size());
        assert_eq!(before.file_count(), after.file_count());
        assert_eq!(before.last_scan(), after.last_scan());
        assert_eq!(before.children().len(), after.children().len());
    }
    assert_eq!(reloaded.get("/r").unwrap().child("/r/y").unwrap().total_size(), 20);
    assert!(reloaded.save().is_none());
}

#[test]
fn a_child_under_a_path_takes_the_place_of_the_one_before() {
    let mut root = DirStat::new("/r".to_string(), 0, 0, at(1));
    root.insert_child(DirStat::new("/r/x".to_string(), 10, 1, at(1)));
    root.insert_child(DirStat::new("/r/y".to_string(), 20, 2, at(1)));
    root.insert_child(DirStat::new("/r/x".to_string(), 11, 3, at(2)));
    assert_eq!(root.children().len(), 2);
    assert_eq!(root.children()[0].path(), "/r/x");
    assert_eq!(root.children()[0].total_size(), 11);
    assert_eq!(root.child("/r/y").unwrap().file_count(), 2);
    assert!(root.child("/r/z").is_none());
}

#[test]
fn the_paths_below_a_node_come_child_by_child() {
    let mut x = DirStat::new("/r/x".to_string(), 0, 0, at(1));
    x.insert_child(DirStat::new("/r/x/deep".to_string(), 0, 0, at(1)));
    let mut root = DirStat::new("/r".to_string(), 0, 0, at(1));
    root.insert_child(x);
    root.insert_child(DirStat::new("/r/y".to_string(), 0, 0, at(1)));

    let mut paths = vec!["first".to_string()];
    root.collect_paths(&mut paths);
    assert_eq!(paths, ["first", "/r/x", "/r/x/deep", "/r/y"]);
}
