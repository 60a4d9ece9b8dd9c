use diffie::debounce::{
    is_reportable, partition_events, report_or_hold, DebounceTracker, PollClock, SaveClock,
    NANOS_PER_SEC,
};
use diffie::digest::hash_file;
use diffie::ignore::{component_ends, directory_of_pattern, strip_stars, IgnoreFilter};
use diffie::monitor::event::{
    change_of_mask, file_event, Change, FileEvent, RawEvent, IN_ATTRIB, IN_CREATE, IN_DELETE,
    IN_DELETE_SELF, IN_MODIFY,
};
use diffie::monitor::recheck::Recheck;
use diffie::monitor::watch::{startup_messages, InotifyLimits};
use diffie::monitor::{Monitor, Reading, Update};
use diffie::node::{DirInfo, Extras, FileNode, Stat};
use diffie::path::FilePath;
use diffie::path_map::PathMap;
use diffie::snapshot::{create_snapshot, EntryKind, FileContent, Snapshot, WalkEntry};

fn path(text: &str) -> FilePath {
    FilePath::from_text(text)
}

fn content(hash: u64) -> FileContent {
    FileContent {
        hash,
        stat: Stat {
            len: 5,
            uid: 1,
            gid: 2,
            mode: 0o644,
            mtime: 10,
            atime: 11,
            ctime: 12,
            nlink: 1,
        },
        extras: Extras { xattrs_hash: 7, lsm_context: None, flags: 0 },
    }
}

fn snapshot(entries: &[(&str, u64)]) -> Snapshot {
    let walk: Vec<WalkEntry> = entries
        .iter()
        .map(|(p, h)| WalkEntry {
            path: Some(path(p)),
            kind: EntryKind::File,
            len: Some(5),
            content: Some(content(*h)),
        })
        .collect();
    create_snapshot(path("/r"), &Vec::new(), 150, &walk, &PathMap::new(), 1000)
}

fn monitor(entries: &[(&str, u64)]) -> Monitor {
    Monitor::new(snapshot(entries), vec![path("/r/a"), path("/x")], 2, 1)
}

fn no_infos() -> PathMap<DirInfo> {
    PathMap::new()
}

fn node_of(m: &Monitor, text: &str) -> Option<FileNode> {
    m.get_snapshot().nodes.get(&path(text)).cloned()
}

fn texts(list: &Vec<FilePath>) -> Vec<String> {
    list.iter().map(|p| p.to_string_lossy()).collect()
}

fn listing_hash(entries: &[(u64, &str)]) -> u64 {
    let mut bytes = Vec::new();
    for (hash, text) in entries {
        bytes.extend_from_slice(&hash.to_le_bytes());
        bytes.extend_from_slice(text.as_bytes());
    }
    hash_file(&bytes)
}

#[test]
fn limits_come_from_their_files_or_have_defaults() {
    let limits = InotifyLimits::read_from_procfs("65536\n", "  256 ", "nonsense");
    assert_eq!(limits.max_user_watches, 65536);
    assert_eq!(limits.max_user_instances, 256);
    assert_eq!(limits.max_queued_events, 16384);
    let limits = InotifyLimits::read_from_procfs("", "-1", "+7");
    assert_eq!(limits.max_user_watches, 8192);
    assert_eq!(limits.max_user_instances, 128);
    assert_eq!(limits.max_queued_events, 7);
}

#[test]
fn limits_too_large_to_hold_have_defaults() {
    let limits = InotifyLimits::read_from_procfs("99999999999999999999999", "0", "00012");
    assert_eq!(limits.max_user_watches, 8192);
    assert_eq!(limits.max_user_instances, 0);
    assert_eq!(limits.max_queued_events, 12);
}

#[test]
fn without_inotify_nothing_can_be_watched() {
    let limits = InotifyLimits::without_inotify();
    assert_eq!(
        (limits.max_user_watches, limits.max_user_instances, limits.max_queued_events),
        (0, 0, 0)
    );
}

#[test]
fn what_is_logged_at_the_start() {
    let limits =
        InotifyLimits { max_user_watches: 100, max_user_instances: 5, max_queued_events: 6 };
    assert_eq!(
        startup_messages(&limits, 70, 150),
        [
            "Platform: Linux (inotify)",
            "inotify limits:",
            "  max_user_watches: 100",
            "  max_user_instances: 5",
            "  max_queued_events: 6",
            "  Using 70% budget: 70 watches",
            "  Max file size: 150 MB",
        ]
    );
}

#[test]
fn a_file_taken_in_twice_is_new_once() {
    let mut m = monitor(&[("/r/a", 1)]);
    assert_eq!(
        m.update_file(&path("/r/b"), true, &content(2), &no_infos(), 50),
        (true, Some(50), true)
    );
    assert_eq!(
        m.update_file(&path("/r/b"), true, &content(2), &no_infos(), 60),
        (false, None, false)
    );
    assert_eq!(m.get_change_time(&path("/r/b")), Some(50));
    assert_eq!(m.get_change_time(&path("/r")), Some(50));
    assert_eq!(m.get_change_time(&path("/")), None);
    assert_eq!(m.get_change_time(&path("/r/a")), None);
    assert_eq!(node_of(&m, "/r").unwrap().hash, listing_hash(&[(1, "/r/a"), (2, "/r/b")]));
    assert_eq!(node_of(&m, "/r").unwrap().size, 10);
}

#[test]
fn new_metadata_leave_the_directory_checksum_alone() {
    let mut m = monitor(&[("/r/a", 1)]);
    let before = node_of(&m, "/r").unwrap();
    let mut c = content(1);
    c.stat.mode = 0o600;
    assert_eq!(
        m.update_file(&path("/r/a"), true, &c, &no_infos(), 50),
        (true, Some(50), false)
    );
    assert_eq!(node_of(&m, "/r").unwrap(), before);
    assert_eq!(node_of(&m, "/r/a").unwrap().mode, 0o600);
    assert_eq!(m.get_change_time(&path("/r")), Some(50));
}

#[test]
fn each_kind_of_metadata_counts() {
    let changes: [fn(&mut FileContent); 7] = [
        |c| c.stat.mtime = 99,
        |c| c.stat.mode = 0,
        |c| c.stat.uid = 99,
        |c| c.stat.gid = 99,
        |c| c.stat.nlink = 99,
        |c| c.extras.xattrs_hash = 99,
        |c| c.extras.flags = 99,
    ];
    for change in changes {
        let mut m = monitor(&[("/r/a", 1)]);
        let mut c = content(1);
        change(&mut c);
        assert_eq!(
            m.update_file(&path("/r/a"), true, &c, &no_infos(), 50),
            (true, Some(50), false)
        );
    }
    let mut m = monitor(&[("/r/a", 1)]);
    let mut c = content(1);
    c.stat.atime = 99;
    c.stat.ctime = 99;
    assert_eq!(m.update_file(&path("/r/a"), true, &c, &no_infos(), 50), (false, None, false));
}

#[test]
fn what_is_no_file_or_too_large_is_passed_over() {
    let mut m = monitor(&[("/r/a", 1)]);
    assert!(m.wants_file(true, 1048575));
    assert!(!m.wants_file(true, 1048576));
    assert!(!m.wants_file(false, 0));
    let mut large = content(2);
    large.stat.len = 1048576;
    assert_eq!(
        m.update_file(&path("/r/b"), true, &large, &no_infos(), 50),
        (false, None, false)
    );
    assert_eq!(
        m.update_file(&path("/r/b"), false, &content(2), &no_infos(), 50),
        (false, None, false)
    );
    assert_eq!(node_of(&m, "/r/b"), None);
    assert_eq!(m.get_all_change_times().len(), 0);
}

#[test]
fn directories_outside_the_root_are_left_alone() {
    let mut m = monitor(&[("/r/a", 1), ("/other/z", 9)]);
    m.update_file(&path("/other/y"), true, &content(3), &no_infos(), 50);
    assert_eq!(node_of(&m, "/other").unwrap().hash, listing_hash(&[(9, "/other/z")]));
    assert_eq!(m.get_change_time(&path("/other")), None);
    assert_eq!(m.get_change_time(&path("/other/y")), Some(50));
}

#[test]
fn the_metadata_of_directories_are_taken_over() {
    let mut m = monitor(&[("/r/a", 1)]);
    let mut infos = no_infos();
    let c = content(0);
    infos.insert(path("/r"), DirInfo { stat: Some(c.stat), extras: c.extras });
    m.update_file(&path("/r/a"), true, &content(2), &infos, 50);
    let r = node_of(&m, "/r").unwrap();
    assert_eq!((r.uid, r.gid, r.mode, r.xattrs_hash, r.is_dir), (1, 2, 0o644, 7, true));
}

#[test]
fn a_removed_file_is_not_known_any_more() {
    let mut m = monitor(&[("/r/a", 1), ("/r/b", 2)]);
    assert!(m.remove_file(&path("/r/b"), &no_infos(), 50));
    assert_eq!(node_of(&m, "/r/b"), None);
    assert_eq!(node_of(&m, "/r").unwrap().hash, listing_hash(&[(1, "/r/a")]));
    assert_eq!(m.get_change_time(&path("/r")), Some(50));
    assert_eq!(m.get_change_time(&path("/r/b")), None);
    assert!(!m.remove_file(&path("/r/b"), &no_infos(), 60));
    assert_eq!(m.get_change_time(&path("/r")), Some(50));
}

#[test]
fn the_directory_of_the_last_file_keeps_its_node() {
    let mut m = monitor(&[("/r/a", 1)]);
    let before = node_of(&m, "/r").unwrap();
    assert!(m.remove_file(&path("/r/a"), &no_infos(), 50));
    assert_eq!(node_of(&m, "/r").unwrap(), before);
    assert_eq!(m.get_change_time(&path("/r")), None);
}

#[test]
fn a_batch_says_what_was_new() {
    let mut m = monitor(&[("/r/a", 1), ("/r/b", 2)]);
    let batch = vec![
        Reading { path: path("/r/a"), content: content(5) },
        Reading { path: path("/r/b"), content: content(2) },
        Reading { path: path("/r/c"), content: content(3) },
        Reading { path: path("/r/c"), content: content(3) },
    ];
    let updates = m.update_files_batch(&batch, &no_infos(), 70);
    let seen: Vec<(String, bool, Option<i64>, bool, String)> = updates
        .iter()
        .map(|u| {
            (
                u.path.to_string_lossy(),
                u.updated,
                u.change_time,
                u.content_changed,
                u.details.clone(),
            )
        })
        .collect();
    assert_eq!(
        seen,
        [
            ("/r/a".to_string(), true, Some(70), true, "content".to_string()),
            ("/r/b".to_string(), false, None, false, String::new()),
            ("/r/c".to_string(), true, Some(70), true, "new".to_string()),
            ("/r/c".to_string(), false, None, false, String::new()),
        ]
    );
    assert!(is_reportable(&updates[0]));
    assert!(!is_reportable(&updates[1]));
    let silent = Update {
        path: path("/r/a"),
        updated: true,
        change_time: None,
        content_changed: false,
        details: String::new(),
    };
    assert!(!is_reportable(&silent));
}

#[test]
fn checking_finds_what_is_gone_or_changed() {
    let m = monitor(&[("/r/a", 1), ("/r/b", 2), ("/r/c", 3), ("/r/d", 4)]);
    let listed = m.files_to_check();
    assert_eq!(listed.len(), 4);
    let rechecks = vec![
        Recheck::Gone,
        Recheck::Unreadable,
        Recheck::Read(content(30)),
        Recheck::Read(content(4)),
    ];
    assert_eq!(texts(&Monitor::verify_all_files(&listed, &rechecks)), ["/r/a", "/r/c"]);
}

#[test]
fn checking_after_an_update_finds_nothing() {
    let mut m = monitor(&[("/r/a", 1)]);
    m.update_file(&path("/r/a"), true, &content(9), &no_infos(), 50);
    let listed = m.files_to_check();
    assert!(Monitor::verify_all_files(&listed, &vec![Recheck::Read(content(9))]).is_empty());
}

#[test]
fn scanning_finds_files_not_known() {
    let m = monitor(&[("/r/a", 1), ("/r/d/b", 2), ("/other/z", 9)]);
    assert_eq!(texts(&m.dirs_to_scan()), ["/r", "/r/d"]);
    let found = vec![path("/r/a"), path("/r/n"), path("/r/d/m")];
    assert_eq!(texts(&m.scan_for_new_files(&found)), ["/r/n", "/r/d/m"]);
}

#[test]
fn old_change_times_are_forgotten() {
    let mut m = monitor(&[("/r/a", 1)]);
    m.update_file(&path("/r/a"), true, &content(2), &no_infos(), 1000);
    m.update_file(&path("/r/b"), true, &content(3), &no_infos(), 2000);
    m.cleanup_old_change_times(500, 1500);
    assert_eq!(m.get_all_change_times().len(), 3);
    m.cleanup_old_change_times(499, 1500);
    assert_eq!(m.get_change_time(&path("/r/a")), None);
    assert_eq!(m.get_change_time(&path("/r/b")), Some(2000));
    m.cleanup_old_change_times(i64::MAX, i64::MIN);
    assert_eq!(m.get_all_change_times().len(), 2);
}

#[test]
fn the_view_of_a_directory() {
    let m = monitor(&[("/r/a", 1), ("/r/d/b", 2), ("/r/d/e/c", 3)]);
    let (root, nodes) = m.get_directory_snapshot(&path("/r/d"));
    assert_eq!(root.to_string_lossy(), "/r");
    let seen: Vec<String> = (0..nodes.len()).map(|i| nodes.path_at(i).to_string_lossy()).collect();
    assert_eq!(seen, ["/r", "/r/d", "/r/d/b", "/r/d/e"]);
}

#[test]
fn watches_are_set_up_until_the_budget_is_used_up() {
    let mut m = monitor(&[("/r/a", 1)]);
    let walked = vec![path("/r"), path("/r/a"), path("/r/b")];
    let mut setup = m.setup_watches(&path("/r"), &vec![true, true], &walked);
    assert_eq!(texts(&setup.to_watch), ["/r/a", "/r", "/r/b"]);
    let first = setup.next(&m).unwrap();
    m.add_watch(first, 11);
    let second = setup.next(&m).unwrap();
    setup.failed(&second, "no permission");
    let third = setup.next(&m).unwrap();
    m.add_watch(third, 12);
    assert!(setup.next(&m).is_none());
    setup.finish(&m);
    assert_eq!(
        setup.messages,
        [
            "Setting up inotify watches (budget: 2)",
            "Found 3 directories to watch",
            "\u{2717} Failed to watch /r: no permission",
            "\n=== Watch Summary ===",
            "Total watches used: 2 / 2",
            "Watched directories: 2",
        ]
    );
    assert_eq!(m.get_watch_stats(), (2, 2, 2));
    assert!(m.is_watch_budget_exceeded());
}

#[test]
fn a_used_up_budget_is_noted() {
    let mut m = monitor(&[("/r/a", 1)]);
    let walked = vec![path("/r"), path("/r/b"), path("/r/c")];
    let mut setup = m.setup_watches(&path("/r"), &vec![false, true], &walked);
    assert_eq!(setup.to_watch.len(), 3);
    for id in 0..2 {
        let dir = setup.next(&m).unwrap();
        m.add_watch(dir, id);
    }
    assert!(setup.next(&m).is_none());
    assert_eq!(setup.messages.last().unwrap(), "\u{26a0} Watch budget exhausted");
    assert!(setup.next(&m).is_none());
    assert_eq!(setup.messages.len(), 3);
}

#[test]
fn masks_say_what_happened() {
    assert_eq!(change_of_mask(IN_DELETE | IN_CREATE), Change::Removed);
    assert_eq!(change_of_mask(IN_DELETE_SELF), Change::Removed);
    assert_eq!(change_of_mask(IN_CREATE | IN_MODIFY), Change::Created);
    assert_eq!(change_of_mask(IN_MODIFY), Change::Modified);
    assert_eq!(change_of_mask(IN_ATTRIB), Change::Modified);
    assert_eq!(change_of_mask(0x40), Change::Other);
}

#[test]
fn only_removals_need_no_file() {
    assert!(matches!(
        file_event(Change::Removed, path("/a"), false),
        Some(FileEvent::Removed(p)) if p.to_string_lossy() == "/a"
    ));
    assert!(file_event(Change::Created, path("/a"), false).is_none());
    assert!(file_event(Change::Modified, path("/a"), false).is_none());
    assert!(matches!(file_event(Change::Created, path("/a"), true), Some(FileEvent::Created(_))));
    assert!(matches!(
        file_event(Change::Modified, path("/a"), true),
        Some(FileEvent::Modified(_))
    ));
    assert!(file_event(Change::Other, path("/a"), true).is_none());
}

#[test]
fn raw_events_become_events_about_files() {
    let mut m = monitor(&[("/r/a", 1)]);
    m.add_watch(path("/r"), 5);
    let raw = |watch, mask, name: Option<&[u8]>, is_file| RawEvent {
        watch,
        mask,
        name: name.map(|n| n.to_vec()),
        is_file,
    };
    let events = m.process_events(&vec![
        raw(5, IN_CREATE, Some(b"n"), true),
        raw(5, IN_CREATE, Some(b"dir"), false),
        raw(9, IN_CREATE, Some(b"n"), true),
        raw(5, IN_MODIFY, Some(b"x\xff"), true),
        raw(5, IN_DELETE, Some(b"gone"), false),
        raw(5, IN_DELETE_SELF, None, false),
    ]);
    let seen: Vec<(Change, String)> = events
        .iter()
        .map(|e| match e {
            FileEvent::Created(p) => (Change::Created, p.to_string_lossy()),
            FileEvent::Modified(p) => (Change::Modified, p.to_string_lossy()),
            FileEvent::Removed(p) => (Change::Removed, p.to_string_lossy()),
        })
        .collect();
    assert_eq!(
        seen,
        [
            (Change::Created, "/r/n".to_string()),
            (Change::Modified, "/r/x\u{fffd}".to_string()),
            (Change::Removed, "/r/gone".to_string()),
            (Change::Removed, "/r".to_string()),
        ]
    );
    let (updates, removals) = partition_events(&events);
    assert_eq!(texts(&updates), ["/r/n", "/r/x\u{fffd}"]);
    assert_eq!(texts(&removals), ["/r/gone", "/r"]);
}

#[test]
fn a_change_is_reported_once_its_file_is_left_alone() {
    let mut tracker = DebounceTracker::new(2);
    assert!(!tracker.record_change(path("/b"), "mode".to_string(), 0));
    assert!(!tracker.record_change(path("/a"), "content".to_string(), NANOS_PER_SEC));
    assert!(tracker.get_stable_changes(2 * NANOS_PER_SEC - 1).is_empty());
    let reported = tracker.get_stable_changes(2 * NANOS_PER_SEC);
    assert_eq!(reported.len(), 1);
    assert_eq!((reported[0].0.to_string_lossy(), reported[0].1.as_str()), ("/b".to_string(), "mode"));
    assert!(tracker.get_stable_changes(2 * NANOS_PER_SEC).is_empty());
    tracker.record_change(path("/a"), "uid".to_string(), 3 * NANOS_PER_SEC);
    assert!(tracker.get_stable_changes(4 * NANOS_PER_SEC).is_empty());
    let reported = tracker.get_stable_changes(5 * NANOS_PER_SEC);
    assert_eq!(reported.len(), 1);
    assert_eq!(reported[0].1, "uid");
}

#[test]
fn a_clock_that_went_back_makes_nothing_stable() {
    let mut tracker = DebounceTracker::new(1);
    tracker.record_change(path("/a"), "x".to_string(), 10 * NANOS_PER_SEC);
    assert!(tracker.get_stable_changes(0).is_empty());
    let mut at_once = DebounceTracker::new(0);
    at_once.record_change(path("/a"), "x".to_string(), 10 * NANOS_PER_SEC);
    assert_eq!(at_once.get_stable_changes(0).len(), 1);
}

#[test]
fn everything_is_looked_at_after_each_interval() {
    let mut clock = PollClock::new();
    let mut due = Vec::new();
    for i in 1..=45 {
        if clock.tick(2, false) {
            due.push(i);
        }
    }
    assert_eq!(due, [20, 40]);
    let mut never = PollClock::new();
    for _ in 0..100 {
        assert!(!never.tick(1, true));
    }
    assert!(PollClock::new().tick(0, false));
}

#[test]
fn every_tenth_round_is_saved() {
    let mut clock = SaveClock::new();
    let due: Vec<u32> = (1..=25).filter(|_| clock.tick()).collect();
    assert_eq!(due, [10, 20]);
}

#[test]
fn stars_at_the_end_do_not_count() {
    assert_eq!(strip_stars("/tmp/**"), "/tmp/");
    assert_eq!(strip_stars("/a*b*"), "/a*b");
    assert_eq!(strip_stars("**"), "");
    assert_eq!(directory_of_pattern("/tmp/**"), "/tmp");
    assert_eq!(directory_of_pattern("/tmp/"), "/tmp");
    assert_eq!(directory_of_pattern("/home/*/.cache"), "/home/*/.cache");
    assert_eq!(directory_of_pattern("/**"), "/");
    assert_eq!(directory_of_pattern("//"), "/");
}

#[test]
fn the_ends_of_a_path_and_of_what_is_above_it() {
    assert_eq!(component_ends(&path("/home/bob/x")), vec![11, 9, 5, 1]);
    assert_eq!(component_ends(&path("/a//b")), vec![5, 2, 1]);
    assert_eq!(component_ends(&path("a/b")), vec![3, 1]);
    assert_eq!(component_ends(&path("/")), vec![1]);
    assert_eq!(component_ends(&path("")), vec![0]);
}

#[test]
fn file_patterns_leave_paths_out() {
    let (filter, warnings) =
        IgnoreFilter::new(vec!["*.log".to_string(), "/home/?/x".to_string()], Vec::new());
    assert!(warnings.is_empty());
    assert!(filter.should_ignore(&path("/var/x.log")));
    assert!(filter.should_ignore(&path("/home/a/x")));
    assert!(!filter.should_ignore(&path("/home/ab/x")));
    assert!(!filter.should_ignore(&path("/home/a/x/y")));
    assert!(!filter.should_ignore(&path("/etc/passwd")));
}

#[test]
fn directory_patterns_leave_out_what_is_in_them() {
    let (filter, _) = IgnoreFilter::new(
        Vec::new(),
        vec!["/var/cache".to_string(), "/tmp/**".to_string()],
    );
    assert!(filter.should_ignore(&path("/var/cache")));
    assert!(filter.should_ignore(&path("/var/cache/a/b")));
    assert!(!filter.should_ignore(&path("/var/cache2/x")));
    assert!(!filter.should_ignore(&path("/var/cached")));
    assert!(!filter.should_ignore(&path("/var")));
    assert!(filter.should_ignore(&path("/tmp/a")));
    assert!(filter.should_ignore(&path("/tmp/a/b")));
    assert!(!filter.should_ignore(&path("/tmp")));
    assert!(!filter.should_ignore(&path("/tmpfiles/a")));
    assert_eq!(filter.change_line(&path("/tmp/a"), "mode"), None);
    assert_eq!(filter.change_line(&path("/etc/a"), "mode").as_deref(), Some("/etc/a: mode"));
}

#[test]
fn directory_patterns_may_be_globs() {
    let (filter, _) = IgnoreFilter::new(Vec::new(), vec!["/home/*/.cache".to_string()]);
    assert!(filter.should_ignore(&path("/home/bob/.cache/x")));
    assert!(filter.should_ignore(&path("/home/bob/.cache/deep/er")));
    assert!(!filter.should_ignore(&path("/home/bob/.cached/x")));
    assert!(!filter.should_ignore(&path("/home/bob/x")));
    let inside = ["/tmp/*", "/tmp/"].map(|p| IgnoreFilter::new(Vec::new(), vec![p.to_string()]).0);
    for filter in &inside {
        assert!(filter.should_ignore(&path("/tmp/a")));
        assert!(!filter.should_ignore(&path("/tmp")));
    }
    let (all, _) = IgnoreFilter::new(Vec::new(), vec!["/**".to_string()]);
    assert!(all.should_ignore(&path("/etc/passwd")));
    for pattern in ["", "*", "**"] {
        let (all, _) = IgnoreFilter::new(Vec::new(), vec![pattern.to_string()]);
        assert!(all.should_ignore(&path("/etc/passwd")));
    }
    let (some, _) = IgnoreFilter::new(Vec::new(), vec!["/var/log*".to_string()]);
    assert!(some.should_ignore(&path("/var/logs/a")));
    assert!(!some.should_ignore(&path("/var/lib/a")));
}

#[test]
fn updates_are_reported_at_once_or_held() {
    let update = |details: &str, updated| Update {
        path: path("/a"),
        updated,
        change_time: None,
        content_changed: false,
        details: details.to_string(),
    };
    let mut none = None;
    let told = report_or_hold(&mut none, update("mode", true), 5).unwrap();
    assert_eq!((told.0.to_string_lossy(), told.1.as_str()), ("/a".to_string(), "mode"));
    assert!(report_or_hold(&mut none, update("", true), 5).is_none());
    assert!(report_or_hold(&mut none, update("mode", false), 5).is_none());
    let mut held = Some(DebounceTracker::new(1));
    assert!(report_or_hold(&mut held, update("mode", true), 5).is_none());
    let tracker = held.as_mut().unwrap();
    assert_eq!(tracker.pending.len(), 1);
    assert_eq!(tracker.get_stable_changes(5 + NANOS_PER_SEC).len(), 1);
}

#[test]
fn invalid_patterns_are_warned_about() {
    let (filter, warnings) = IgnoreFilter::new(
        vec!["a***".to_string(), "*.log".to_string()],
        vec!["[".to_string()],
    );
    assert_eq!(filter.file_patterns, ["*.log"]);
    assert!(filter.dir_patterns.is_empty());
    assert_eq!(
        warnings,
        [
            "[WARN] Invalid file pattern 'a***': Pattern syntax error near position 3: wildcards are either regular `*` or recursive `**`",
            "[WARN] Invalid directory pattern '[': Pattern syntax error near position 0: invalid range pattern",
        ]
    );
}
