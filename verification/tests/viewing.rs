use diffie::acl::{
    audit_path, is_reported, mode_octet_to_perm, name_or_number, perm_display, AclEntry, AclKind,
};
use diffie::diff::{DiffNode, DiffStatus};
use diffie::display::{
    format_bsd_flags, format_flags, format_mode, format_plain_flags, format_system_flags,
    is_recent, log_line, log_lines, readable_time, row, time_or_seconds, tone, System, Tone,
};
use diffie::explorer::{goto_target, Action, App, Key, KeyPress};
use diffie::monitor::{Monitor, Update};
use diffie::node::{Extras, FileNode, Stat};
use diffie::panels::{
    dated_filename, default_filename, describe_node, details, format_window, hash_popup,
    hash_popup_area, log_popup_area, save_popup_area, title, Area,
};
use diffie::path::FilePath;
use diffie::path_map::PathMap;
use diffie::progress::{dir_progress, file_progress, tree_steps, ProgressReporter};
use diffie::report::{
    brief_lines, budget_warnings, choose_mode, count_nodes, update_line, update_lines, watch_list,
    Misuse, Mode,
};
use diffie::snapshot::{FileContent, LogEntry, Snapshot};

fn path(text: &str) -> FilePath {
    FilePath::from_text(text)
}

fn node(hash: u64, is_dir: bool) -> FileNode {
    FileNode {
        hash,
        size: 1234,
        is_dir,
        uid: 1,
        gid: 2,
        mode: 0o644,
        mtime: 0,
        atime: 86400,
        ctime: 1700000000,
        nlink: 3,
        xattrs_hash: 0,
        lsm_context: None,
        flags: 0,
    }
}

fn snapshot(root: &str, entries: &[(&str, FileNode)]) -> Snapshot {
    let mut nodes = PathMap::new();
    for (text, node) in entries {
        nodes.insert(path(text), node.clone());
    }
    Snapshot { version: 1, timestamp: 0, root: path(root), nodes }
}

fn diff(text: &str, status: DiffStatus, is_dir: bool) -> DiffNode {
    DiffNode {
        path: path(text),
        status,
        old_node: None,
        new_node: None,
        is_dir,
        change_time: None,
    }
}

fn app(old: Snapshot, new: Snapshot, live: bool) -> App {
    App::new(old, new, live, path("/r"))
}

fn lines(items: &Vec<DiffNode>) -> Vec<(String, DiffStatus, Option<i64>)> {
    items.iter().map(|d| (d.path.to_string_lossy(), d.status, d.change_time)).collect()
}

fn press(key: Key) -> KeyPress {
    KeyPress { key, control: false }
}

fn log(messages: &[&str]) -> Vec<LogEntry> {
    messages
        .iter()
        .enumerate()
        .map(|(i, m)| LogEntry { timestamp: i as i64, message: m.to_string() })
        .collect()
}

fn content(hash: u64) -> FileContent {
    FileContent {
        hash,
        stat: Stat {
            len: 5,
            uid: 1,
            gid: 2,
            mode: 0o644,
            mtime: 0,
            atime: 0,
            ctime: 0,
            nlink: 3,
        },
        extras: Extras { xattrs_hash: 0, lsm_context: None, flags: 0 },
    }
}

fn small_app() -> App {
    let old = snapshot(
        "/r",
        &[
            ("/r", node(1, true)),
            ("/r/same", node(2, false)),
            ("/r/gone", node(3, false)),
            ("/r/mod", node(4, false)),
            ("/r/perm", node(5, false)),
            ("/r/sub", node(6, true)),
        ],
    );
    let mut perm = node(5, false);
    perm.flags = 1;
    let new = snapshot(
        "/r",
        &[
            ("/r", node(9, true)),
            ("/r/same", node(2, false)),
            ("/r/mod", node(40, false)),
            ("/r/perm", perm),
            ("/r/sub", node(6, true)),
            ("/r/new", node(7, false)),
            ("/r/zdir", node(8, true)),
        ],
    );
    app(old, new, false)
}

#[test]
fn a_directory_shows_itself_then_directories_then_files() {
    let a = small_app();
    assert_eq!(
        lines(&a.get_filtered_items(None)),
        [
            ("/r".to_string(), DiffStatus::Unchanged, None),
            ("/r/sub".to_string(), DiffStatus::Unchanged, None),
            ("/r/zdir".to_string(), DiffStatus::Added, None),
            ("/r/gone".to_string(), DiffStatus::Removed, None),
            ("/r/mod".to_string(), DiffStatus::Modified, None),
            ("/r/new".to_string(), DiffStatus::Added, None),
            ("/r/perm".to_string(), DiffStatus::PermChanged, None),
            ("/r/same".to_string(), DiffStatus::Unchanged, None),
        ]
    );
    let own = &a.get_filtered_items(None)[0];
    assert_eq!(own.old_node.as_ref().unwrap().hash, 1);
    assert_eq!(own.new_node.as_ref().unwrap().hash, 9);
}

#[test]
fn what_is_unchanged_can_be_hidden() {
    let mut a = small_app();
    a.show_unchanged = false;
    let shown: Vec<String> =
        a.get_filtered_items(None).iter().map(|d| d.path.to_string_lossy()).collect();
    assert_eq!(shown, ["/r", "/r/zdir", "/r/gone", "/r/mod", "/r/new", "/r/perm"]);
}

#[test]
fn below_the_topmost_directory_there_is_a_way_up() {
    let mut a = small_app();
    a.current_dir = path("/r/sub");
    let items = a.get_filtered_items(None);
    assert_eq!(
        lines(&items),
        [
            ("/r/sub".to_string(), DiffStatus::Unchanged, None),
            ("/r".to_string(), DiffStatus::Unchanged, None),
        ]
    );
    assert!(items[1].is_dir && items[1].new_node.is_some());
    a.selected = 1;
    a.navigate_into(&items);
    assert_eq!(a.current_dir.to_string_lossy(), "/r");
    a.navigate_up();
    assert_eq!(a.current_dir.to_string_lossy(), "/r");
}

#[test]
fn a_watched_directory_shows_times_and_what_came_and_went() {
    let old = snapshot("/r", &[("/r/a", node(1, false)), ("/r/b", node(2, false))]);
    let mut m = Monitor::new(old.clone(), Vec::new(), 0, 1);
    let infos = PathMap::new();
    m.update_file(&path("/r/a"), true, &content(10), &infos, 50);
    m.update_file(&path("/r/tmp"), true, &content(11), &infos, 60);
    m.remove_file(&path("/r/tmp"), &infos, 70);
    m.remove_file(&path("/r/b"), &infos, 80);
    let a = app(old.clone(), old, true);
    assert_eq!(
        lines(&a.get_filtered_items(Some(&m))),
        [
            ("/r".to_string(), DiffStatus::Unchanged, None),
            ("/r/a".to_string(), DiffStatus::Modified, Some(50)),
            ("/r/b".to_string(), DiffStatus::Removed, None),
            ("/r/tmp".to_string(), DiffStatus::Removed, Some(60)),
        ]
    );
}

#[test]
fn the_snapshot_can_be_taken_over_from_the_monitor() {
    let old = snapshot("/r", &[("/r/a", node(1, false))]);
    let mut m = Monitor::new(old.clone(), Vec::new(), 0, 1);
    m.update_file(&path("/r/n"), true, &content(10), &PathMap::new(), 50);
    let mut a = app(old.clone(), old, true);
    a.refresh_full_snapshot(&m);
    assert_eq!(a.new_snapshot.nodes.get(&path("/r/n")).unwrap().hash, 10);
}

#[test]
fn entering_and_leaving_directories() {
    let mut a = small_app();
    let items = a.get_filtered_items(None);
    a.selected = 4;
    a.navigate_into(&items);
    assert_eq!(a.current_dir.to_string_lossy(), "/r");
    assert_eq!(a.selected, 4);
    a.selected = 99;
    a.navigate_into(&items);
    assert_eq!(a.current_dir.to_string_lossy(), "/r");
    a.selected = 1;
    a.navigate_into(&items);
    assert_eq!(a.current_dir.to_string_lossy(), "/r/sub");
    assert_eq!(a.selected, 0);
    a.navigate_up();
    assert_eq!(a.current_dir.to_string_lossy(), "/r");
}

#[test]
fn time_windows_go_round() {
    let mut a = small_app();
    let mut seen = vec![a.time_window];
    for _ in 0..5 {
        a.cycle_time_window();
        seen.push(a.time_window);
    }
    assert_eq!(seen, [30, 60, 300, 0, 10, 30]);
    a.time_window = 77;
    a.cycle_time_window();
    assert_eq!(a.time_window, 10);
}

#[test]
fn checksums_are_shown_and_logged() {
    let mut a = small_app();
    let items = a.get_filtered_items(None);
    a.selected = 1;
    assert!(a.hash_target(&items).is_none());
    a.selected = 4;
    let target = a.hash_target(&items).unwrap();
    assert_eq!(target.to_string_lossy(), "/r/mod");
    assert_eq!(App::hash_start_message(&target), "Computing SHA-256 for: /r/mod");
    assert_eq!(hash_popup(&a, &items), ("mod".to_string(), None));
    assert_eq!(
        a.record_hash(target.clone(), Ok("abc".to_string())),
        "SHA-256 computed: /r/mod = abc"
    );
    assert!(a.show_hash_popup);
    assert_eq!(hash_popup(&a, &items), ("mod".to_string(), Some("abc".to_string())));
    assert_eq!(
        a.record_hash(target, Err("denied".to_string())),
        "SHA-256 error for /r/mod: denied"
    );
    assert_eq!(hash_popup(&a, &items).1.as_deref(), Some("Error: denied"));
    a.selected = 99;
    assert_eq!(hash_popup(&a, &items), ("unknown".to_string(), None));
}

#[test]
fn keys_in_the_view() {
    let mut a = small_app();
    let items = a.get_filtered_items(None);
    let n = items.len();
    let none = Vec::new();
    assert!(matches!(a.handle_key(press(Key::Char('q')), n, &items, &none), Action::Quit));
    let ctrl_c = KeyPress { key: Key::Char('c'), control: true };
    assert!(matches!(a.handle_key(ctrl_c, n, &items, &none), Action::Quit));
    assert!(matches!(a.handle_key(press(Key::Char('c')), n, &items, &none), Action::Stay));
    a.handle_key(press(Key::Down), n, &items, &none);
    a.handle_key(press(Key::Char('j')), n, &items, &none);
    assert_eq!(a.selected, 2);
    a.handle_key(press(Key::Up), n, &items, &none);
    a.handle_key(press(Key::Char('k')), n, &items, &none);
    a.handle_key(press(Key::Char('k')), n, &items, &none);
    assert_eq!(a.selected, 0);
    a.selected = n - 1;
    a.handle_key(press(Key::Down), n, &items, &none);
    assert_eq!(a.selected, n - 1);
    a.handle_key(press(Key::Down), 0, &items, &none);
    assert_eq!(a.selected, 0);
    a.handle_key(press(Key::Char('u')), n, &items, &none);
    assert!(!a.show_unchanged);
    a.handle_key(press(Key::Char('T')), n, &items, &none);
    assert_eq!(a.time_window, 60);
    a.selected = 4;
    assert!(matches!(
        a.handle_key(press(Key::Char('h')), n, &items, &none),
        Action::Hash(p) if p.to_string_lossy() == "/r/mod"
    ));
    a.selected = 1;
    assert!(matches!(a.handle_key(press(Key::Char('H')), n, &items, &none), Action::Stay));
    a.handle_key(press(Key::Right), n, &items, &none);
    assert_eq!(a.current_dir.to_string_lossy(), "/r/sub");
    a.handle_key(press(Key::Left), n, &items, &none);
    assert_eq!(a.current_dir.to_string_lossy(), "/r");
    assert!(matches!(a.handle_key(press(Key::Char('s')), n, &items, &none), Action::Stay));
    a.live_mode = true;
    assert!(matches!(a.handle_key(press(Key::Char('S')), n, &items, &none), Action::AskFilename));
}

#[test]
fn any_key_closes_the_checksum() {
    let mut a = small_app();
    a.show_hash_popup = true;
    assert!(matches!(
        a.handle_key(press(Key::Char('q')), 0, &Vec::new(), &Vec::new()),
        Action::Stay
    ));
    assert!(!a.show_hash_popup);
}

#[test]
fn typing_a_file_name() {
    let mut a = small_app();
    let (items, none) = (Vec::new(), Vec::new());
    a.open_save_popup("x.snap".to_string());
    a.handle_key(press(Key::Backspace), 0, &items, &none);
    a.handle_key(press(Key::Char('q')), 0, &items, &none);
    a.handle_key(press(Key::Up), 0, &items, &none);
    assert_eq!(a.save_filename, "x.snaq");
    assert!(matches!(
        a.handle_key(press(Key::Enter), 0, &items, &none),
        Action::Save(name) if name == "x.snaq"
    ));
    assert!(!a.show_save_popup);
    a.open_save_popup(String::new());
    a.handle_key(press(Key::Backspace), 0, &items, &none);
    assert_eq!(a.save_filename, "");
    a.handle_key(press(Key::Char('\u{e9}')), 0, &items, &none);
    assert_eq!(a.save_filename, "\u{e9}");
    assert!(matches!(a.handle_key(press(Key::Esc), 0, &items, &none), Action::Stay));
    assert!(!a.show_save_popup && a.save_filename.is_empty());
}

#[test]
fn keys_in_the_log() {
    let mut a = small_app();
    let items = Vec::new();
    let entries = log(&["a", "b", "c"]);
    a.handle_key(press(Key::Char('l')), 0, &items, &entries);
    assert!(a.show_log);
    a.handle_key(press(Key::PageDown), 0, &items, &entries);
    assert_eq!(a.log_selected, 2);
    a.handle_key(press(Key::Up), 0, &items, &entries);
    assert_eq!(a.log_selected, 1);
    a.handle_key(press(Key::Down), 0, &items, &entries);
    a.handle_key(press(Key::Down), 0, &items, &entries);
    assert_eq!(a.log_selected, 2);
    a.handle_key(press(Key::PageUp), 0, &items, &entries);
    assert_eq!(a.log_selected, 0);
    assert!(matches!(a.handle_key(press(Key::Char('q')), 0, &items, &entries), Action::Quit));
    a.handle_key(press(Key::Char('L')), 0, &items, &entries);
    assert!(!a.show_log);
}

#[test]
fn a_log_line_leads_to_its_directory() {
    let mut a = small_app();
    let items = Vec::new();
    let entries = log(&["Removed: /r/sub/x", "Added: /elsewhere/y", "no path"]);
    a.show_log = true;
    a.handle_key(press(Key::Enter), 0, &items, &entries);
    assert!(a.show_log);
    a.log_selected = 1;
    a.handle_key(press(Key::Enter), 0, &items, &entries);
    assert!(a.show_log);
    a.log_selected = 2;
    a.selected = 3;
    a.handle_key(press(Key::Enter), 0, &items, &entries);
    assert_eq!(a.current_dir.to_string_lossy(), "/r/sub");
    assert_eq!((a.show_log, a.log_selected, a.selected), (false, 0, 0));
}

#[test]
fn what_log_messages_point_to() {
    let target = |m: &str| goto_target(m).map(|p| p.to_string_lossy());
    assert_eq!(target("Modified (content+mode):  /a/b/c \n").as_deref(), Some("/a/b"));
    assert_eq!(target("Removed: /"), None);
    assert_eq!(target("Removed:   "), None);
    assert_eq!(target("nothing here"), None);
    assert_eq!(target("x: name").as_deref(), Some(""));
    assert_eq!(target("a: /b:c/d").as_deref(), Some("/b:c"));
}

#[test]
fn modes_in_octal_with_letters() {
    assert_eq!(format_mode(0o100644), "644");
    assert_eq!(format_mode(0o104755), "755s");
    assert_eq!(format_mode(0o42755), "755g");
    assert_eq!(format_mode(0o41777), "777t");
    assert_eq!(format_mode(0o7000), "0sgt");
}

#[test]
fn flags_in_hexadecimal_with_names() {
    assert_eq!(format_flags(0), "0x00000000");
    assert_eq!(format_flags(0x10), "0x00000010 (immutable)");
    assert_eq!(
        format_flags(0x000590f0),
        "0x000590f0 (immutable, append, nodump, noatime, compr, sync, nocomp, encrypt)"
    );
    assert_eq!(format_flags(0x00080000), "0x00080000");
    assert_eq!(format_bsd_flags(0x00020002), "0x00020002 (immutable, sys-immutable)");
    assert_eq!(
        format_bsd_flags(0x0007806f),
        "0x0007806f (nodump, immutable, append, opaque, compressed, tracked, hidden, archived, sys-immutable, sys-append)"
    );
    assert_eq!(format_plain_flags(0x00020002), "0x00020002");
}

#[test]
fn times_are_dates_in_utc() {
    assert_eq!(readable_time(0), "1970-01-01 00:00:00");
    assert_eq!(readable_time(1700000000), "2023-11-14 22:13:20");
    assert_eq!(readable_time(-1), "1969-12-31 23:59:59");
    assert_eq!(readable_time(253402207200), "9999-12-30 22:00:00");
    assert_eq!(readable_time(253402207201), "253402207201");
    assert_eq!(readable_time(-377705023202), "-377705023202");
    assert_ne!(readable_time(-377705023201), "-377705023201");
    assert_eq!(readable_time(i64::MIN), "-9223372036854775808");
    assert_eq!(time_or_seconds(None, -5), "-5");
    assert_eq!(time_or_seconds(Some("then".to_string()), -5), "then");
}

#[test]
fn log_lines_are_dated_and_latest_first() {
    let entries = log(&["first", "second"]);
    assert_eq!(log_line(&entries[1]), "[1970-01-01 00:00:01] second");
    assert_eq!(
        log_lines(&entries),
        ["[1970-01-01 00:00:01] second", "[1970-01-01 00:00:00] first"]
    );
    assert_eq!(
        brief_lines(&entries),
        ["[1970-01-01 00:00:00] first", "[1970-01-01 00:00:01] second"]
    );
    assert_eq!(brief_lines(&Vec::new()), ["No changes detected."]);
}

#[test]
fn recent_changes() {
    assert!(is_recent(Some(70), 100, 30));
    assert!(!is_recent(Some(69), 100, 30));
    assert!(is_recent(Some(i64::MIN), i64::MAX, 0));
    assert!(!is_recent(Some(i64::MIN), i64::MAX, 300));
    assert!(!is_recent(None, 100, 0));
}

#[test]
fn rows_have_names_and_marks() {
    let dir = path("/r/d");
    assert_eq!(row(&diff("/r/d", DiffStatus::Unchanged, true), &dir, true), "\u{1f4c1} .");
    assert_eq!(row(&diff("/r", DiffStatus::Unchanged, true), &dir, false), "\u{1f4c1} ..");
    assert_eq!(row(&diff("/r/d/f", DiffStatus::Added, false), &dir, false), "\u{1f4c4} f [+]");
    assert_eq!(
        row(&diff("/r/d/f", DiffStatus::Removed, false), &dir, true),
        "\u{1f4c4} f [-] \u{26a1}"
    );
    assert_eq!(row(&diff("/r/d/f", DiffStatus::Modified, false), &dir, false), "\u{1f4c4} f [~]");
    assert_eq!(
        row(&diff("/r/d/f", DiffStatus::PermChanged, true), &dir, false),
        "\u{1f4c1} f [p]"
    );
    assert_eq!(row(&diff("/", DiffStatus::Unchanged, true), &dir, false), "\u{1f4c1} /");
}

#[test]
fn tones_follow_status_and_age() {
    let t = |s, r| tone(&diff("/a", s, false), r);
    assert_eq!(t(DiffStatus::Added, false), Tone::Added);
    assert_eq!(t(DiffStatus::Added, true), Tone::AddedRecent);
    assert_eq!(t(DiffStatus::Removed, true), Tone::Removed);
    assert_eq!(t(DiffStatus::Modified, true), Tone::ModifiedRecent);
    assert_eq!(t(DiffStatus::Modified, false), Tone::Modified);
    assert_eq!(t(DiffStatus::PermChanged, true), Tone::PermChangedRecent);
    assert_eq!(t(DiffStatus::PermChanged, false), Tone::PermChanged);
    assert_eq!(t(DiffStatus::Unchanged, true), Tone::Plain);
    let mut d = diff("/a", DiffStatus::PermChanged, false);
    d.old_node = Some(node(1, false));
    let mut suid = node(1, false);
    suid.mode = 0o4755;
    d.new_node = Some(suid);
    assert_eq!(tone(&d, true), Tone::Alarm);
}

#[test]
fn windows_are_written_short() {
    assert_eq!(format_window(0), "all");
    assert_eq!(format_window(10), "10s");
    assert_eq!(format_window(60), "1m");
    assert_eq!(format_window(300), "5m");
    assert_eq!(format_window(-1), "-1s");
}

#[test]
fn titles_tell_where_one_is() {
    let mut a = small_app();
    let items = a.get_filtered_items(None);
    assert_eq!(
        title(&a, &items),
        "\u{1f4c2} /r (root) | 8 items | [\u{21b5}]enter [\u{2190}/backspace]up [h]ash [l]og [u]nchanged [q/^C]uit"
    );
    a.live_mode = true;
    a.current_dir = path("/r/sub");
    assert_eq!(
        title(&a, &Vec::new()),
        "\u{1f4c2} /r/sub | 0 items | LIVE \u{26a1} waiting | [t]ime:30s [\u{21b5}]enter [\u{2190}/backspace]up [s]ave [h]ash [l]og [u]nchanged [q/^C]uit"
    );
    let mut changed = diff("/r/sub/a", DiffStatus::Added, false);
    changed.change_time = Some(1);
    assert!(title(&a, &vec![changed]).contains("LIVE \u{26a1} monitoring | [t]ime:30s"));
}

#[test]
fn nodes_are_described() {
    let mut n = node(1, false);
    assert_eq!(
        describe_node(&n, &Vec::new(), System::Linux),
        [
            "uid:1 gid:2 mode:644 size:1234 nlink:3",
            "     mtime:1970-01-01 00:00:00 atime:1970-01-02 00:00:00 ctime:2023-11-14 22:13:20",
            "     flags:0x00000000",
        ]
    );
    n.xattrs_hash = 0xabc;
    assert_eq!(describe_node(&n, &Vec::new(), System::Linux)[3], "     xattrs_hash: 0000000000000abc");
    let keys = vec!["user.a".to_string(), "user.b".to_string()];
    assert_eq!(describe_node(&n, &keys, System::Linux)[3], "     xattrs: user.a, user.b");
}

#[test]
fn flags_are_named_as_on_the_system() {
    let mut n = node(1, false);
    n.flags = 0x20;
    let at = |system| describe_node(&n, &Vec::new(), system);
    assert_eq!(at(System::Linux)[2], "     flags:0x00000020 (append)");
    assert_eq!(at(System::MacOs)[2], "     flags:0x00000020 (compressed)");
    assert_eq!(at(System::Other).len(), 2);
    assert_eq!(format_system_flags(System::Other, 0x20), "0x00000020");
}

#[test]
fn details_of_an_entry() {
    let mut d = diff("/r/a", DiffStatus::Modified, false);
    d.old_node = Some(node(1, false));
    d.new_node = Some(node(2, false));
    let mut cache = PathMap::new();
    let shown = details(&d, &Vec::new(), &cache, System::Linux);
    assert_eq!((shown.path.as_str(), shown.older.len(), shown.newer.len()), ("/r/a", 3, 3));
    cache.insert(path("/r/a"), "abc".to_string());
    let shown = details(&d, &Vec::new(), &cache, System::Linux);
    assert_eq!((shown.older.len(), shown.newer[3].as_str()), (3, "     sha256:abc"));
    d.new_node = Some(node(2, true));
    assert_eq!(details(&d, &Vec::new(), &cache, System::Linux).newer.len(), 3);
    d.new_node = None;
    assert!(details(&d, &Vec::new(), &cache, System::Linux).newer.is_empty());
}

#[test]
fn popups_lie_in_the_middle() {
    assert_eq!(hash_popup_area(100, 40), Area { x: 15, y: 16, width: 70, height: 8 });
    assert_eq!(hash_popup_area(20, 10), Area { x: 3, y: 3, width: 14, height: 4 });
    assert_eq!(hash_popup_area(3, 3), Area { x: 1, y: 1, width: 0, height: 0 });
    assert_eq!(log_popup_area(100, 40), Area { x: 2, y: 2, width: 96, height: 36 });
    assert_eq!(save_popup_area(100, 40), Area { x: 20, y: 16, width: 60, height: 7 });
    assert_eq!(save_popup_area(30, 5), Area { x: 3, y: 0, width: 24, height: 7 });
}

#[test]
fn names_for_snapshot_files() {
    assert_eq!(dated_filename("20240101-000000"), "snapshot-20240101-000000.snap");
    assert_eq!(default_filename(true, &Some("g.snap".to_string()), "x"), "g.snap");
    assert_eq!(default_filename(true, &None, "x"), "snapshot.snap");
    assert_eq!(default_filename(false, &Some("g.snap".to_string()), "x"), "snapshot-x.snap");
}

#[test]
fn progress_in_percent() {
    assert_eq!(file_progress(0, 0), 10);
    assert_eq!(file_progress(1, 3), 33);
    assert_eq!(file_progress(3, 3), 80);
    assert_eq!(dir_progress(1, 2), 87);
    assert_eq!(dir_progress(2, 2), 95);
    assert_eq!(file_progress(usize::MAX, usize::MAX), 80);
}

#[test]
fn the_steps_of_putting_a_tree_together() {
    assert_eq!(tree_steps(0), [80, 95, 100]);
    assert_eq!(tree_steps(3), [80, 85, 90, 95, 95, 100]);
}

#[test]
fn progress_lines_every_five_percent() {
    let mut reporter = ProgressReporter::new();
    assert_eq!(reporter.report(4, 100), None);
    let bar = format!("Progress: [{}{}] 10%", "\u{2588}".repeat(5), "\u{2591}".repeat(45));
    assert_eq!(reporter.report(10, 100), Some(bar));
    assert_eq!(reporter.report(14, 100), None);
    assert!(reporter.report(15, 100).is_some());
    let full = format!("Progress: [{}] 100%", "\u{2588}".repeat(50));
    assert_eq!(reporter.report(100, 100), Some(full.clone()));
    assert_eq!(reporter.report(100, 100), Some(full));
}

#[test]
fn nodes_are_counted() {
    let s = small_app().new_snapshot;
    assert_eq!(count_nodes(&s.nodes), (4, 3));
    assert_eq!(count_nodes(&PathMap::new()), (0, 0));
}

#[test]
fn updates_are_told() {
    let update = |text: &str, updated| Update {
        path: path(text),
        updated,
        change_time: None,
        content_changed: false,
        details: "mode".to_string(),
    };
    assert_eq!(update_line("Updated", &update("/a", true)), "Updated (mode): /a");
    assert_eq!(
        update_lines("New file", &vec![update("/a", true), update("/b", false), update("/c", true)]),
        ["New file (mode): /a", "New file (mode): /c"]
    );
}

#[test]
fn a_short_budget_is_warned_about() {
    let warnings = budget_warnings(7, 7, 6, false);
    assert_eq!(
        warnings,
        [
            "\u{26a0}\u{fe0f}  WARNING: inotify/FSEvents watch budget exceeded! (7/7 watches used)",
            "Only 6 directories are being watched",
            "Periodic polling will catch changes in unwatched directories.",
        ]
    );
    let warnings = budget_warnings(7, 7, 6, true);
    assert_eq!(warnings.len(), 5);
    assert_eq!(warnings[4], "Consider removing --no-scan or increasing inotify limits.");
}

#[test]
fn the_root_is_always_watched() {
    let critical = vec!["/etc".to_string(), "/usr/bin".to_string()];
    let texts = |root: &str| -> Vec<String> {
        watch_list(&path(root), &critical).iter().map(|p| p.to_string_lossy()).collect()
    };
    assert_eq!(texts("/"), ["/etc", "/usr/bin", "/"]);
    assert_eq!(texts("/etc"), ["/etc"]);
    assert_eq!(texts("/home"), ["/home"]);
}

#[test]
fn invocations_are_checked() {
    assert_eq!(choose_mode(true, true, false), Ok(Mode::Live));
    assert_eq!(choose_mode(true, false, false), Ok(Mode::Live));
    assert_eq!(choose_mode(true, false, true), Err(Misuse::SecondSnapshotWithLive));
    assert_eq!(choose_mode(false, true, true), Ok(Mode::Compare));
    assert_eq!(choose_mode(false, false, true), Err(Misuse::FirstSnapshotMissing));
    assert_eq!(choose_mode(false, true, false), Err(Misuse::SecondSnapshotMissing));
    assert_eq!(Misuse::FirstSnapshotMissing.message(), "Must provide snapshot1 or --live");
    assert_eq!(Misuse::SecondSnapshotMissing.message(), "Must provide snapshot2 or --live");
    assert!(Misuse::SecondSnapshotWithLive.message().starts_with("Cannot use snapshot2 with --live mode."));
}

fn entry(kind: AclKind, name: &str, perms: u32) -> AclEntry {
    AclEntry { kind, name: name.to_string(), perms, is_default: false, allow: true }
}

#[test]
fn permissions_are_named() {
    assert_eq!(perm_display(7), "read,write,execute");
    assert_eq!(perm_display(5), "read,execute");
    assert_eq!(perm_display(0), "none");
    assert_eq!(perm_display(8), "none");
    assert_eq!(perm_display(10), "write");
}

#[test]
fn octets_are_permissions() {
    assert_eq!((0..9).map(mode_octet_to_perm).collect::<Vec<_>>(), [0, 1, 2, 3, 4, 5, 6, 7, 0]);
    assert_eq!(name_or_number(Some("root".to_string()), 0), "root");
    assert_eq!(name_or_number(None, 1234), "1234");
}

#[test]
fn extra_access_is_found() {
    let entries = vec![
        entry(AclKind::User, "", 6),
        entry(AclKind::User, "mallory", 6),
        entry(AclKind::Group, "", 4),
        entry(AclKind::Group, "staff", 7),
        entry(AclKind::Mask, "", 5),
        entry(AclKind::Other, "", 4),
    ];
    assert_eq!(
        audit_path(&entries, 0o640, "alice", "users"),
        ["user mallory has read permissions", "group staff has read,execute permissions"]
    );
}

#[test]
fn access_that_the_mode_gives_is_no_finding() {
    let entries = vec![entry(AclKind::User, "alice", 6), entry(AclKind::Group, "users", 4)];
    assert!(audit_path(&entries, 0o640, "alice", "users").is_empty());
    assert_eq!(
        audit_path(&entries, 0o440, "alice", "users"),
        ["user alice has read,write permissions"]
    );
    assert_eq!(
        audit_path(&entries, 0o600, "alice", "users"),
        ["group users has read permissions"]
    );
}

#[test]
fn denials_defaults_and_masked_entries_are_passed_over() {
    let mut denied = entry(AclKind::User, "mallory", 7);
    denied.allow = false;
    let mut default = entry(AclKind::User, "mallory", 7);
    default.is_default = true;
    assert!(audit_path(&vec![denied, default], 0o644, "a", "b").is_empty());
    let mut among = entry(AclKind::Group, "staff", 7);
    among.allow = false;
    let entries = vec![among, entry(AclKind::User, "mallory", 4)];
    assert_eq!(audit_path(&entries, 0o644, "a", "b"), ["user mallory has read permissions"]);
    let masked = vec![entry(AclKind::User, "mallory", 2), entry(AclKind::Mask, "", 4)];
    assert!(audit_path(&masked, 0o644, "a", "b").is_empty());
    let mut default_mask = entry(AclKind::Mask, "", 0);
    default_mask.is_default = true;
    let entries = vec![default_mask, entry(AclKind::User, "mallory", 2)];
    assert_eq!(audit_path(&entries, 0o644, "a", "b"), ["user mallory has write permissions"]);
    assert!(audit_path(&vec![entry(AclKind::Unknown, "x", 7)], 0, "a", "b").is_empty());
}

#[test]
fn findings_can_be_suppressed() {
    let findings = vec!["x".to_string()];
    let quiet = vec![path("/var")];
    assert!(is_reported(&findings, &path("/etc/a"), &quiet));
    assert!(!is_reported(&findings, &path("/var/a"), &quiet));
    assert!(!is_reported(&Vec::new(), &path("/etc/a"), &quiet));
}
