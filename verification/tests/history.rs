use acme_disk_use::{
    scan_directory, DirEntry, DirStat, EntryKind, EntryMeta, PathProbe, Snapshot, Timestamp,
};

/// A directory of a filesystem kept in memory.
#[derive(Clone)]
struct Dir {
    name: String,
    mtime: u128,
    files: Vec<(String, u64)>,
    dirs: Vec<Dir>,
}

/// A small generator of numbers that gives the same numbers on every run.
struct Numbers(u64);

impl Numbers {
    fn next(&mut self, bound: u64) -> u64 {
        self.0 = self.0.wrapping_mul(6364136223846793005).wrapping_add(1442695040888963407);
        (self.0 >> 33) % bound
    }
}

fn at(nanos: u128) -> Timestamp {
    Timestamp { nanos }
}

fn record(snapshot: &mut Snapshot, path: &str, dir: &Dir) {
    let mut listing = Vec::new();
    for (name, len) in &dir.files {
        listing.push(Ok(DirEntry {
            path: format!("{}/{}", path, name),
            meta: Ok(EntryMeta { kind: EntryKind::File, len: *len, modified: Some(at(dir.mtime)) }),
        }));
    }
    for sub in &dir.dirs {
        let sub_path = format!("{}/{}", path, sub.name);
        listing.push(Ok(DirEntry {
            path: sub_path.clone(),
            meta: Ok(EntryMeta { kind: EntryKind::Dir, len: 0, modified: Some(at(sub.mtime)) }),
        }));
        record(snapshot, &sub_path, sub);
    }
    let probe = PathProbe { modified: Some(at(dir.mtime)), listing: Ok(listing) };
    assert!(snapshot.record(path.to_string(), probe));
}

fn snapshot_of(root: &Dir) -> Snapshot {
    let mut snapshot = Snapshot::new();
    record(&mut snapshot, &format!("/{}", root.name), root);
    snapshot
}

fn grow(numbers: &mut Numbers, name: String, depth: u64, mtime: u128) -> Dir {
    let mut dir = Dir { name, mtime, files: Vec::new(), dirs: Vec::new() };
    for i in 0..numbers.next(4) {
        dir.files.push((format!("f{}", i), numbers.next(1000)));
    }
    if depth > 0 {
        for i in 0..numbers.next(4) {
            dir.dirs.push(grow(numbers, format!("d{}", i), depth - 1, mtime));
        }
    }
    dir
}

/// Changes the tree in a few places at the time `now`. Every directory whose
/// listing changes gets `now` as its modification time.
fn disturb(numbers: &mut Numbers, dir: &mut Dir, now: u128, fresh: &mut u64) {
    match numbers.next(8) {
        0 => {
            *fresh += 1;
            dir.files.push((format!("n{}", fresh), numbers.next(1000)));
            dir.mtime = now;
        }
        1 => {
            if !dir.files.is_empty() {
                let i = numbers.next(dir.files.len() as u64) as usize;
                dir.files.remove(i);
                dir.mtime = now;
            }
        }
        2 => {
            *fresh += 1;
            dir.dirs.push(grow(numbers, format!("n{}", fresh), 2, now));
            dir.mtime = now;
        }
        3 => {
            if !dir.dirs.is_empty() {
                let i = numbers.next(dir.dirs.len() as u64) as usize;
                dir.dirs.remove(i);
                dir.mtime = now;
            }
        }
        _ => {}
    }
    for sub in &mut dir.dirs {
        disturb(numbers, sub, now, fresh);
    }
}

fn size_of(dir: &Dir) -> u64 {
    dir.files.iter().map(|(_, len)| len).sum::<u64>() + dir.dirs.iter().map(size_of).sum::<u64>()
}

fn files_of(dir: &Dir) -> u64 {
    dir.files.len() as u64 + dir.dirs.iter().map(files_of).sum::<u64>()
}

/// Checks that every node of the scan has the totals of its directory.
fn assert_exact(node: &DirStat, path: &str, dir: &Dir) {
    assert_eq!(node.path(), path);
    assert_eq!(node.total_size(), size_of(dir), "total size of {}", path);
    assert_eq!(node.file_count(), files_of(dir), "file count of {}", path);
    assert_eq!(node.children().len(), dir.dirs.len(), "children of {}", path);
    for sub in &dir.dirs {
        let sub_path = format!("{}/{}", path, sub.name);
        let child = node.child(&sub_path).expect("a node for every subdirectory");
        assert_exact(child, &sub_path, sub);
    }
}

fn all_scanned_at(node: &DirStat, time: Timestamp) -> bool {
    node.last_scan() == time && node.children().iter().all(|child| all_scanned_at(child, time))
}

#[test]
fn a_first_scan_counts_every_file_once() {
    let mut numbers = Numbers(7);
    for _ in 0..50 {
        let tree = grow(&mut numbers, "root".to_string(), 4, 100);
        let node = scan_directory("/root", None, &snapshot_of(&tree), at(200)).unwrap();
        assert_exact(&node, "/root", &tree);
        assert!(all_scanned_at(&node, at(200)));
    }
}

#[test]
fn a_cached_scan_is_exact_after_changes_at_any_depth() {
    let mut numbers = Numbers(11);
    let mut fresh = 0;
    for _ in 0..200 {
        let mut tree = grow(&mut numbers, "root".to_string(), 4, 100);
        let first = scan_directory("/root", None, &snapshot_of(&tree), at(200)).unwrap();

        disturb(&mut numbers, &mut tree, 300, &mut fresh);
        let later = snapshot_of(&tree);
        let second = scan_directory("/root", Some(&first), &later, at(400)).unwrap();
        assert_exact(&second, "/root", &tree);

        // A scan of a scan: the cached nodes now bear different times.
        disturb(&mut numbers, &mut tree, 500, &mut fresh);
        let latest = snapshot_of(&tree);
        let third = scan_directory("/root", Some(&second), &latest, at(600)).unwrap();
        assert_exact(&third, "/root", &tree);

        // Nothing changed since: the node is returned as it is.
        let fourth = scan_directory("/root", Some(&third), &latest, at(700)).unwrap();
        assert_exact(&fourth, "/root", &tree);
        assert_eq!(fourth.last_scan(), third.last_scan());
    }
}

#[test]
fn an_unchanged_subtree_keeps_the_time_of_its_scan() {
    let mut numbers = Numbers(13);
    let mut fresh = 0;
    for _ in 0..50 {
        let mut tree = grow(&mut numbers, "root".to_string(), 3, 100);
        let first = scan_directory("/root", None, &snapshot_of(&tree), at(200)).unwrap();
        disturb(&mut numbers, &mut tree, 300, &mut fresh);
        let second = scan_directory("/root", Some(&first), &snapshot_of(&tree), at(400)).unwrap();
        let untouched = tree.mtime == 100 && second.last_scan() == at(200);
        let rescanned = second.last_scan() == at(400);
        assert!(untouched || rescanned);
        if second.last_scan() == at(200) {
            assert!(all_scanned_at(&second, at(200)));
        }
    }
}

#[test]
fn a_deleted_subdirectory_is_found_without_a_new_modification_time() {
    let mut numbers = Numbers(17);
    let mut tree = grow(&mut numbers, "root".to_string(), 2, 100);
    tree.dirs = vec![
        Dir {
            name: "keep".to_string(),
            mtime: 100,
            files: vec![("f".to_string(), 3)],
            dirs: vec![Dir {
                name: "gone".to_string(),
                mtime: 100,
                files: vec![("g".to_string(), 4)],
                dirs: vec![],
            }],
        },
        Dir { name: "too".to_string(), mtime: 100, files: vec![("h".to_string(), 5)], dirs: vec![] },
    ];
    let first = scan_directory("/root", None, &snapshot_of(&tree), at(200)).unwrap();
    assert_exact(&first, "/root", &tree);

    // The nested directory is deleted; no modification time moves.
    tree.dirs[0].dirs.clear();
    let second = scan_directory("/root", Some(&first), &snapshot_of(&tree), at(400)).unwrap();
    assert_exact(&second, "/root", &tree);
    assert!(second.child("/root/keep").unwrap().children().is_empty());
    assert_eq!(second.child("/root/keep").unwrap().last_scan(), at(400));
    assert_eq!(second.child("/root/too").unwrap().last_scan(), at(200));
}
