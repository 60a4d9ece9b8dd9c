use diffie::codec::{
    accept_record, load_snapshot, load_snapshot_mmap, pack_outcome, record_of_snapshot,
    save_snapshot, snapshot_of_record, LoadError, SaveError,
};
use diffie::digest::hash_file;
use diffie::node::{DirInfo, Extras, FileNode, Stat};
use diffie::path::FilePath;
use diffie::path_map::PathMap;
use diffie::snapshot::{
    collect_files, create_snapshot, create_snapshot_with_progress, get_critical_dirs_in_scope,
    merge_snapshots, wants_entry, EntryKind, FileContent, Snapshot, WalkEntry,
    DEFAULT_CRITICAL_DIRS, SNAPSHOT_VERSION,
};
use diffie::tree::directories_of;
use std::cell::RefCell;
use std::io::Write;

fn path(text: &str) -> FilePath {
    FilePath::from_text(text)
}

fn stat(len: u64) -> Stat {
    Stat { len, uid: 1, gid: 2, mode: 0o100644, mtime: 10, atime: 11, ctime: 12, nlink: 1 }
}

fn extras() -> Extras {
    Extras { xattrs_hash: 7, lsm_context: Some("ctx".to_string()), flags: 16 }
}

fn content(hash: u64, len: u64) -> FileContent {
    FileContent { hash, stat: stat(len), extras: extras() }
}

fn file(text: &str, hash: u64, len: u64) -> WalkEntry {
    WalkEntry {
        path: Some(path(text)),
        kind: EntryKind::File,
        len: Some(len),
        content: Some(content(hash, len)),
    }
}

fn dir(text: &str) -> WalkEntry {
    WalkEntry { path: Some(path(text)), kind: EntryKind::Dir, len: None, content: None }
}

fn snapshot(entries: &[(&str, u64)]) -> Snapshot {
    let walk: Vec<WalkEntry> = entries.iter().map(|(p, h)| file(p, *h, 5)).collect();
    create_snapshot(path("/r"), &Vec::new(), 150, &walk, &PathMap::new(), 1000)
}

fn entry_bytes(hash: u64, text: &str) -> Vec<u8> {
    let mut bytes = hash.to_le_bytes().to_vec();
    bytes.extend_from_slice(text.as_bytes());
    bytes
}

#[test]
fn critical_dirs_in_scope_keep_their_order() {
    let dirs: Vec<String> = DEFAULT_CRITICAL_DIRS.iter().map(|d| d.to_string()).collect();
    let all = get_critical_dirs_in_scope(&path("/"), &dirs);
    let texts: Vec<String> = all.iter().map(|p| p.to_string_lossy()).collect();
    assert_eq!(texts, ["/etc", "/bin", "/sbin", "/usr/bin", "/usr/sbin", "/boot", "/root"]);
    let usr = get_critical_dirs_in_scope(&path("/usr"), &dirs);
    let texts: Vec<String> = usr.iter().map(|p| p.to_string_lossy()).collect();
    assert_eq!(texts, ["/usr/bin", "/usr/sbin"]);
    assert!(get_critical_dirs_in_scope(&path("/home"), &dirs).is_empty());
}

#[test]
fn files_below_the_limit_are_wanted() {
    let none = Vec::new();
    let p = Some(path("/r/a"));
    assert!(wants_entry(&p, EntryKind::File, Some(1048575), &none, 1));
    assert!(!wants_entry(&p, EntryKind::File, Some(1048576), &none, 1));
    assert!(!wants_entry(&p, EntryKind::File, None, &none, 1));
    assert!(wants_entry(&p, EntryKind::Dir, None, &none, 0));
    assert!(!wants_entry(&p, EntryKind::Other, Some(0), &none, 1));
    assert!(!wants_entry(&None, EntryKind::Dir, None, &none, 1));
}

#[test]
fn skipped_directories_are_not_wanted() {
    let skip = vec![path("/dev")];
    assert!(!wants_entry(&Some(path("/dev/null")), EntryKind::File, Some(0), &skip, 1));
    assert!(!wants_entry(&Some(path("/dev")), EntryKind::Dir, None, &skip, 1));
    assert!(wants_entry(&Some(path("/develop")), EntryKind::Dir, None, &skip, 1));
}

#[test]
fn a_walk_gives_its_readable_files() {
    let mut unread = file("/r/x", 9, 1);
    unread.content = None;
    let walk = vec![dir("/r"), file("/r/a", 1, 5), unread, file("/dev/b", 2, 5)];
    let files = collect_files(&walk, &vec!["/dev".to_string()], 150);
    assert_eq!(files.len(), 1);
    let node = files.get(&path("/r/a")).unwrap();
    assert_eq!(
        *node,
        FileNode {
            hash: 1,
            size: 5,
            is_dir: false,
            uid: 1,
            gid: 2,
            mode: 0o100644,
            mtime: 10,
            atime: 11,
            ctime: 12,
            nlink: 1,
            xattrs_hash: 7,
            lsm_context: Some("ctx".to_string()),
            flags: 16,
        }
    );
}

#[test]
fn link_counts_stop_at_what_a_node_holds() {
    let mut entry = file("/r/a", 1, 5);
    entry.content.as_mut().unwrap().stat.nlink = 70000;
    let files = collect_files(&vec![entry], &Vec::new(), 150);
    assert_eq!(files.get(&path("/r/a")).unwrap().nlink, 65535);
}

#[test]
fn the_later_of_two_readings_counts() {
    let files = collect_files(&vec![file("/r/a", 1, 5), file("/r/a", 2, 6)], &Vec::new(), 150);
    assert_eq!(files.len(), 1);
    assert_eq!(files.get(&path("/r/a")).unwrap().hash, 2);
}

#[test]
fn a_snapshot_has_directories_over_its_files() {
    let mut infos: PathMap<DirInfo> = PathMap::new();
    infos.insert(path("/r"), DirInfo { stat: Some(stat(4096)), extras: extras() });
    let walk = vec![file("/r/a", 1, 5), file("/r/d/b", 2, 6), file("/r/d/c", 3, 7)];
    let s = create_snapshot(path("/r"), &Vec::new(), 150, &walk, &infos, 1000);
    assert_eq!(s.version, SNAPSHOT_VERSION);
    assert_eq!(s.timestamp, 1000);
    assert_eq!(s.root.to_string_lossy(), "/r");
    assert_eq!(s.nodes.len(), 5);
    let d = s.nodes.get(&path("/r/d")).unwrap();
    let mut below = entry_bytes(2, "/r/d/b");
    below.extend(entry_bytes(3, "/r/d/c"));
    assert_eq!(d.hash, hash_file(&below));
    assert_eq!((d.size, d.is_dir, d.uid, d.mode, d.nlink), (13, true, 0, 0, 0));
    assert_eq!(d.xattrs_hash, hash_file(b""));
    let r = s.nodes.get(&path("/r")).unwrap();
    let mut top = entry_bytes(1, "/r/a");
    top.extend(entry_bytes(d.hash, "/r/d"));
    assert_eq!(r.hash, hash_file(&top));
    assert_eq!((r.size, r.is_dir, r.uid, r.mode), (18, true, 1, 0o100644));
    assert_eq!(r.lsm_context.as_deref(), Some("ctx"));
    assert_eq!(r.flags, 16);
}

#[test]
fn a_changed_file_changes_every_directory_above_it() {
    let a = snapshot(&[("/r/a", 1), ("/r/d/b", 2)]);
    let b = snapshot(&[("/r/a", 1), ("/r/d/b", 3)]);
    for dir in ["/r", "/r/d"] {
        assert_ne!(a.nodes.get(&path(dir)).unwrap().hash, b.nodes.get(&path(dir)).unwrap().hash);
    }
    assert_eq!(
        a.nodes.get(&path("/r/a")).unwrap().hash,
        b.nodes.get(&path("/r/a")).unwrap().hash
    );
}

#[test]
fn every_walked_directory_has_a_node() {
    let walk = vec![
        dir("/r"),
        dir("/r/x"),
        dir("/r/x/y"),
        file("/r/x/y/f", 1, 5),
        dir("/r/empty"),
        dir("/dev"),
    ];
    let skip = vec!["/dev".to_string()];
    let s = create_snapshot(path("/r"), &skip, 150, &walk, &PathMap::new(), 1000);
    let node = |text: &str| s.nodes.get(&path(text)).unwrap().clone();
    assert_eq!(s.nodes.len(), 5);
    for text in ["/r", "/r/x", "/r/x/y", "/r/empty"] {
        assert!(node(text).is_dir, "{}", text);
    }
    assert_eq!((node("/r/empty").hash, node("/r/empty").size), (hash_file(b""), 0));
    assert_eq!(node("/r/x/y").hash, hash_file(&entry_bytes(1, "/r/x/y/f")));
    assert_eq!(node("/r/x").hash, hash_file(&entry_bytes(node("/r/x/y").hash, "/r/x/y")));
    let mut top = entry_bytes(node("/r/empty").hash, "/r/empty");
    top.extend(entry_bytes(node("/r/x").hash, "/r/x"));
    assert_eq!(node("/r").hash, hash_file(&top));
    assert_eq!(node("/r").size, 5);
    assert!(!s.nodes.contains(&path("/dev")));
}

#[test]
fn a_change_deep_down_reaches_the_root() {
    let at = |hash: u64| {
        let walk = vec![dir("/r"), dir("/r/x"), dir("/r/x/y"), file("/r/x/y/f", hash, 5)];
        create_snapshot(path("/r"), &Vec::new(), 150, &walk, &PathMap::new(), 1000)
    };
    for text in ["/r", "/r/x", "/r/x/y"] {
        assert_ne!(
            at(1).nodes.get(&path(text)).unwrap().hash,
            at(2).nodes.get(&path(text)).unwrap().hash
        );
    }
}

#[test]
fn a_directory_is_no_file_whatever_was_read_of_it() {
    let mut entry = dir("/r/d");
    entry.content = Some(content(9, 1));
    let files = collect_files(&vec![entry], &Vec::new(), 150);
    assert_eq!(files.len(), 0);
}

#[test]
fn progress_goes_from_eighty_to_a_hundred() {
    let seen: RefCell<Vec<(usize, usize)>> = RefCell::new(Vec::new());
    let walk = vec![file("/r/a", 1, 5), file("/r/d/b", 2, 6), file("/r/e/c", 2, 6)];
    create_snapshot_with_progress(
        path("/r"),
        &Vec::new(),
        150,
        &walk,
        &PathMap::new(),
        1000,
        Some(|done: usize, total: usize| seen.borrow_mut().push((done, total))),
    );
    assert_eq!(
        *seen.borrow(),
        [(80, 100), (85, 100), (90, 100), (95, 100), (95, 100), (100, 100)]
    );
}

#[test]
fn directories_over_files() {
    let s = snapshot(&[("/r/a", 1), ("/r/d/b", 2)]);
    let dirs = directories_of(&s.nodes, true);
    assert_eq!(dirs.len(), 2);
    let all = directories_of(&s.nodes, false);
    assert_eq!(all.len(), 3);
    assert!(all.contains(&path("/")));
}

#[test]
fn merging_lays_the_new_over_the_old() {
    let mut base = snapshot(&[("/r/a", 1), ("/r/b", 2)]);
    base.root = path("/");
    let mut new = snapshot(&[("/r/b", 3), ("/r/c", 4)]);
    new.timestamp = 2000;
    merge_snapshots(&mut base, &new, &PathMap::new());
    assert_eq!(base.timestamp, 2000);
    assert_eq!(base.root.to_string_lossy(), "/");
    let hashes: Vec<u64> =
        ["/r/a", "/r/b", "/r/c"].iter().map(|p| base.nodes.get(&path(p)).unwrap().hash).collect();
    assert_eq!(hashes, [1, 3, 4]);
    let mut bytes = entry_bytes(1, "/r/a");
    bytes.extend(entry_bytes(3, "/r/b"));
    bytes.extend(entry_bytes(4, "/r/c"));
    assert_eq!(base.nodes.get(&path("/r")).unwrap().hash, hash_file(&bytes));
    assert_eq!(base.nodes.get(&path("/r")).unwrap().size, 15);
}

#[test]
fn merging_again_changes_nothing() {
    let mut base = snapshot(&[("/r/a", 1), ("/r/d/b", 2)]);
    let new = snapshot(&[("/r/d/b", 3)]);
    merge_snapshots(&mut base, &new, &PathMap::new());
    let first = base.nodes.clone();
    merge_snapshots(&mut base, &new, &PathMap::new());
    assert_eq!(first.len(), base.nodes.len());
    for i in 0..first.len() {
        assert_eq!(first.value_at(i), base.nodes.value_at(i));
    }
}

#[test]
fn versions_are_checked() {
    let mut s = snapshot(&[("/r/a", 1)]);
    assert_eq!(s.check_version(), Ok(()));
    assert_eq!(s.version_warning(), None);
    s.version = 2;
    assert_eq!(
        s.check_version(),
        Err(
            "Snapshot version 2 is newer than supported version 1. Please upgrade diffie."
                .to_string()
        )
    );
    assert_eq!(s.version_warning(), None);
    s.version = 0;
    assert_eq!(s.check_version(), Ok(()));
    assert_eq!(
        s.version_warning().as_deref(),
        Some("[WARN] Snapshot version 0 is older than current version 1. Some features may not work correctly.")
    );
}

#[test]
fn what_is_loaded_is_what_was_saved() {
    let s = snapshot(&[("/r/a", 1), ("/r/d/b", u64::MAX)]);
    let bytes = save_snapshot(&s).unwrap();
    assert_ne!(bytes, bincode::serialize(&record_of_snapshot(&s).unwrap()).unwrap());
    for loaded in [load_snapshot(&bytes).unwrap(), load_snapshot_mmap(&bytes).unwrap()] {
        assert_eq!(loaded.version, s.version);
        assert_eq!(loaded.timestamp, s.timestamp);
        assert_eq!(loaded.root.to_string_lossy(), "/r");
        assert_eq!(loaded.nodes.len(), s.nodes.len());
        for i in 0..s.nodes.len() {
            assert_eq!(
                loaded.nodes.path_at(i).to_string_lossy(),
                s.nodes.path_at(i).to_string_lossy()
            );
            let mut wanted = s.nodes.value_at(i).clone();
            wanted.atime = 0;
            assert_eq!(*loaded.nodes.value_at(i), wanted);
        }
    }
}

#[test]
fn a_saved_record_has_its_fields_in_order() {
    let mut s = snapshot(&[]);
    s.timestamp = -2;
    s.root = path("/r");
    let mut node = snapshot(&[("/r/a", 0x0102030405060708)]).nodes.get(&path("/r/a")).unwrap().clone();
    node.lsm_context = None;
    s.nodes.insert(path("/x"), node);
    let data = zstd::decode_all(&save_snapshot(&s).unwrap()[..]).unwrap();
    let mut wanted: Vec<u8> = Vec::new();
    wanted.extend_from_slice(&1u32.to_le_bytes());
    wanted.extend_from_slice(&(-2i64).to_le_bytes());
    wanted.extend_from_slice(&2u64.to_le_bytes());
    wanted.extend_from_slice(b"/r");
    wanted.extend_from_slice(&1u64.to_le_bytes());
    wanted.extend_from_slice(&2u64.to_le_bytes());
    wanted.extend_from_slice(b"/x");
    wanted.extend_from_slice(&0x0102030405060708u64.to_le_bytes());
    wanted.extend_from_slice(&5u64.to_le_bytes());
    wanted.push(0);
    wanted.extend_from_slice(&1u32.to_le_bytes());
    wanted.extend_from_slice(&2u32.to_le_bytes());
    wanted.extend_from_slice(&0o100644u32.to_le_bytes());
    wanted.extend_from_slice(&10i64.to_le_bytes());
    wanted.extend_from_slice(&12i64.to_le_bytes());
    wanted.extend_from_slice(&1u16.to_le_bytes());
    wanted.extend_from_slice(&7u64.to_le_bytes());
    wanted.push(0);
    wanted.extend_from_slice(&16u32.to_le_bytes());
    assert_eq!(data, wanted);
}

#[test]
fn a_path_that_is_no_text_cannot_be_saved() {
    let mut s = snapshot(&[("/r/a", 1)]);
    s.root = FilePath::from_bytes(vec![0xff]);
    assert!(matches!(save_snapshot(&s), Err(SaveError::PathNotText)));
    let mut s = snapshot(&[("/r/a", 1)]);
    let node = s.nodes.value_at(0).clone();
    s.nodes.insert(FilePath::from_bytes(vec![b'/', 0xff]), node);
    assert!(matches!(save_snapshot(&s), Err(SaveError::PathNotText)));
    assert!(record_of_snapshot(&s).is_none());
}

#[test]
fn a_newer_snapshot_is_refused() {
    let mut s = snapshot(&[("/r/a", 1)]);
    s.version = 5;
    let bytes = save_snapshot(&s).unwrap();
    let wanted = "Snapshot version 5 is newer than supported version 1. Please upgrade diffie.";
    assert!(matches!(load_snapshot(&bytes), Err(LoadError::Version(t)) if t == wanted));
    assert!(matches!(load_snapshot_mmap(&bytes), Err(LoadError::Version(t)) if t == wanted));
}

#[test]
fn an_older_snapshot_is_accepted() {
    let mut s = snapshot(&[("/r/a", 1)]);
    s.version = 0;
    let loaded = load_snapshot(&save_snapshot(&s).unwrap()).unwrap();
    assert!(loaded.version_warning().is_some());
}

#[test]
fn what_is_not_packed_is_refused() {
    assert!(matches!(load_snapshot_mmap(b"no frame"), Err(LoadError::Compression(_))));
    assert!(matches!(load_snapshot(b"no frame"), Err(LoadError::Format(_))));
}

#[test]
fn packed_nonsense_is_refused() {
    let bytes = zstd::encode_all(&b"nonsense"[..], 3).unwrap();
    assert!(matches!(load_snapshot_mmap(&bytes), Err(LoadError::Format(_))));
    assert!(matches!(load_snapshot(&bytes), Err(LoadError::Format(_))));
}

#[test]
fn rubbish_behind_a_snapshot_is_harmless_when_it_is_read_from_the_start() {
    let mut bytes = save_snapshot(&snapshot(&[("/r/a", 1)])).unwrap();
    bytes.extend_from_slice(b"rubbish");
    let loaded = load_snapshot(&bytes).unwrap();
    assert_eq!(loaded.nodes.get(&path("/r/a")).unwrap().hash, 1);
    assert!(matches!(load_snapshot_mmap(&bytes), Err(LoadError::Compression(_))));
}

#[test]
fn a_cut_snapshot_is_refused() {
    let bytes = save_snapshot(&snapshot(&[("/r/a", 1)])).unwrap();
    let cut = &bytes[..bytes.len() / 2];
    assert!(matches!(load_snapshot(cut), Err(LoadError::Format(_))));
    assert!(matches!(load_snapshot_mmap(cut), Err(LoadError::Compression(_))));
}

/// A frame with a checksum over the record of a snapshot and `more` behind it.
fn frame_with_checksum(s: &Snapshot, more: &[u8]) -> Vec<u8> {
    let mut data = bincode::serialize(&record_of_snapshot(s).unwrap()).unwrap();
    data.extend_from_slice(more);
    let mut encoder = zstd::stream::write::Encoder::new(Vec::new(), 10).unwrap();
    encoder.include_checksum(true).unwrap();
    encoder.write_all(&data).unwrap();
    encoder.finish().unwrap()
}

#[test]
fn data_behind_the_record_are_not_read() {
    let s = snapshot(&[("/r/a", 1), ("/r/b", 2)]);
    let bytes = frame_with_checksum(&s, b"more");
    assert_eq!(load_snapshot(&bytes).unwrap().nodes.len(), s.nodes.len());
    assert_eq!(load_snapshot_mmap(&bytes).unwrap().nodes.len(), s.nodes.len());
}

#[test]
fn a_wrong_checksum_behind_the_record_does_no_harm_from_the_start() {
    let s = snapshot(&[("/r/a", 1), ("/r/b", 2)]);
    let mut bytes = frame_with_checksum(&s, b"more");
    let last = bytes.len() - 1;
    bytes[last] ^= 0xff;
    let loaded = load_snapshot(&bytes).unwrap();
    assert_eq!(loaded.nodes.len(), s.nodes.len());
    assert_eq!(loaded.nodes.get(&path("/r/b")).unwrap().hash, 2);
    assert!(matches!(load_snapshot_mmap(&bytes), Err(LoadError::Compression(_))));
}

#[test]
fn a_damaged_block_behind_the_record_does_no_harm_from_the_start() {
    let s = snapshot(&[("/r/a", 1), ("/r/b", 2)]);
    let mut seed = 1u32;
    let more: Vec<u8> = (0..400_000)
        .map(|_| {
            seed = seed.wrapping_mul(1664525).wrapping_add(1013904223);
            (seed >> 24) as u8
        })
        .collect();
    let mut bytes = frame_with_checksum(&s, &more);
    let cut = bytes.len() - 100_000;
    bytes.truncate(cut);
    assert_eq!(load_snapshot(&bytes).unwrap().nodes.len(), s.nodes.len());
    assert!(matches!(load_snapshot_mmap(&bytes), Err(LoadError::Compression(_))));
}

#[test]
fn a_length_that_nothing_could_hold_is_refused() {
    let mut data = Vec::new();
    data.extend_from_slice(&1u32.to_le_bytes());
    data.extend_from_slice(&0i64.to_le_bytes());
    data.extend_from_slice(&u64::MAX.to_le_bytes());
    let bytes = zstd::encode_all(&data[..], 3).unwrap();
    assert!(matches!(load_snapshot(&bytes), Err(LoadError::Format(_))));
    assert!(matches!(load_snapshot_mmap(&bytes), Err(LoadError::Format(_))));
}

#[test]
fn what_was_read_is_accepted_or_refused() {
    let s = snapshot(&[("/r/a", 1)]);
    let record = record_of_snapshot(&s).unwrap();
    assert_eq!(accept_record(Ok(record)).unwrap().nodes.len(), s.nodes.len());
    let mut newer = record_of_snapshot(&s).unwrap();
    newer.0 = 2;
    assert!(matches!(accept_record(Ok(newer)), Err(LoadError::Version(_))));
    let failure = Box::new(bincode::ErrorKind::SizeLimit);
    assert!(matches!(accept_record(Err(failure)), Err(LoadError::Format(_))));
}

#[test]
fn packing_that_fails_is_told() {
    let failure = std::io::Error::new(std::io::ErrorKind::Other, "no memory");
    assert!(matches!(pack_outcome(Err(failure)), Err(SaveError::Compression(_))));
    assert_eq!(pack_outcome(Ok(vec![1, 2])).unwrap(), vec![1, 2]);
}

#[test]
fn the_later_of_two_records_counts() {
    let s = snapshot(&[("/r/a", 1)]);
    let mut record = record_of_snapshot(&s).unwrap();
    let mut twice = record.3[1].clone();
    twice.1 .0 = 99;
    record.3.push(twice);
    let loaded = snapshot_of_record(&record);
    assert_eq!(loaded.nodes.len(), s.nodes.len());
    assert_eq!(loaded.nodes.get(&path("/r/a")).unwrap().hash, 99);
}
