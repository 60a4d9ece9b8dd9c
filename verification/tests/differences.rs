use diffie::compare::{compare_scope, comparison_log, navigation_root};
use diffie::diff::{
    change_details, changed_parts, diff_snapshots, DiffNode, DiffStatus,
};
use diffie::node::FileNode;
use diffie::path::FilePath;
use diffie::path_map::PathMap;
use diffie::snapshot::Snapshot;

fn path(text: &str) -> FilePath {
    FilePath::from_text(text)
}

fn node(hash: u64) -> FileNode {
    FileNode {
        hash,
        size: 1,
        is_dir: false,
        uid: 0,
        gid: 0,
        mode: 0o644,
        mtime: 0,
        atime: 0,
        ctime: hash as i64 * 100,
        nlink: 1,
        xattrs_hash: 0,
        lsm_context: None,
        flags: 0,
    }
}

fn snapshot(root: &str, entries: &[(&str, FileNode)]) -> Snapshot {
    let mut nodes = PathMap::new();
    for (text, node) in entries {
        nodes.insert(path(text), node.clone());
    }
    Snapshot { version: 1, timestamp: 0, root: path(root), nodes }
}

fn changed(change: fn(&mut FileNode)) -> FileNode {
    let mut n = node(1);
    change(&mut n);
    n
}

fn status_of(old: FileNode, new: FileNode) -> DiffStatus {
    let diffs = diff_snapshots(&snapshot("/", &[("/a", old)]), &snapshot("/", &[("/a", new)]));
    assert_eq!(diffs.len(), 1);
    diffs[0].status
}

#[test]
fn every_path_of_either_snapshot_once_in_order() {
    let old = snapshot("/", &[("/b", node(1)), ("/a", node(2)), ("/d/x", node(3))]);
    let new = snapshot("/", &[("/a", node(2)), ("/c", node(4)), ("/d/x", node(5))]);
    let diffs = diff_snapshots(&old, &new);
    let seen: Vec<(String, DiffStatus, Option<i64>)> =
        diffs.iter().map(|d| (d.path.to_string_lossy(), d.status, d.change_time)).collect();
    assert_eq!(
        seen,
        [
            ("/a".to_string(), DiffStatus::Unchanged, Some(200)),
            ("/b".to_string(), DiffStatus::Removed, Some(100)),
            ("/c".to_string(), DiffStatus::Added, Some(400)),
            ("/d/x".to_string(), DiffStatus::Modified, Some(500)),
        ]
    );
    assert!(diffs[1].new_node.is_none() && diffs[2].old_node.is_none());
    assert_eq!(diffs[3].old_node, Some(node(3)));
    assert_eq!(diffs[3].new_node, Some(node(5)));
}

#[test]
fn contents_count_before_permissions() {
    assert_eq!(status_of(node(1), node(1)), DiffStatus::Unchanged);
    assert_eq!(status_of(node(1), node(2)), DiffStatus::Modified);
    assert_eq!(status_of(node(1), changed(|n| n.mode = 0)), DiffStatus::PermChanged);
    assert_eq!(status_of(node(1), changed(|n| n.uid = 9)), DiffStatus::PermChanged);
    assert_eq!(status_of(node(1), changed(|n| n.gid = 9)), DiffStatus::PermChanged);
    assert_eq!(status_of(node(1), changed(|n| n.xattrs_hash = 9)), DiffStatus::PermChanged);
    assert_eq!(
        status_of(node(1), changed(|n| n.lsm_context = Some("x".to_string()))),
        DiffStatus::PermChanged
    );
    let labelled = changed(|n| n.lsm_context = Some("x".to_string()));
    assert_eq!(status_of(labelled.clone(), labelled), DiffStatus::Unchanged);
}

#[test]
fn times_links_and_flags_are_no_difference() {
    assert_eq!(status_of(node(1), changed(|n| n.mtime = 9)), DiffStatus::Unchanged);
    assert_eq!(status_of(node(1), changed(|n| n.nlink = 9)), DiffStatus::Unchanged);
    assert_eq!(status_of(node(1), changed(|n| n.flags = 9)), DiffStatus::Unchanged);
}

#[test]
fn a_snapshot_does_not_differ_from_itself() {
    let s = snapshot("/", &[("/a", node(1)), ("/b", node(2)), ("/b/c", node(3))]);
    for d in diff_snapshots(&s, &s) {
        assert_eq!(d.status, DiffStatus::Unchanged);
    }
}

#[test]
fn added_and_removed_mirror_each_other() {
    let old = snapshot("/", &[("/a", node(1)), ("/b", node(2))]);
    let new = snapshot("/", &[("/b", node(3)), ("/c", node(4))]);
    let there = diff_snapshots(&old, &new);
    let back = diff_snapshots(&new, &old);
    let statuses = |list: &Vec<DiffNode>| list.iter().map(|d| d.status).collect::<Vec<_>>();
    assert_eq!(
        statuses(&there),
        [DiffStatus::Removed, DiffStatus::Modified, DiffStatus::Added]
    );
    assert_eq!(statuses(&back), [DiffStatus::Added, DiffStatus::Modified, DiffStatus::Removed]);
}

#[test]
fn the_older_text_of_a_path_is_kept() {
    let old = snapshot("/", &[("/a/b", node(1))]);
    let new = snapshot("/", &[("/a//b", node(1))]);
    assert_eq!(diff_snapshots(&old, &new)[0].path.to_string_lossy(), "/a/b");
}

#[test]
fn special_bits_are_noticed() {
    let mut d = DiffNode {
        path: path("/a"),
        status: DiffStatus::PermChanged,
        old_node: Some(changed(|n| n.mode = 0o755)),
        new_node: Some(changed(|n| n.mode = 0o4755)),
        is_dir: false,
        change_time: None,
    };
    assert!(d.has_suid_change() && !d.has_sgid_change() && d.is_now_suid());
    d.new_node = Some(changed(|n| n.mode = 0o2755));
    assert!(!d.has_suid_change() && d.has_sgid_change() && !d.is_now_suid());
    d.old_node = Some(changed(|n| n.mode = 0o2755));
    assert!(!d.has_suid_change() && !d.has_sgid_change());
    d.old_node = None;
    d.new_node = Some(changed(|n| n.mode = 0o6755));
    assert!(!d.has_suid_change() && !d.has_sgid_change() && d.is_now_suid());
    d.new_node = None;
    assert!(!d.is_now_suid());
}

#[test]
fn parts_are_named_in_order() {
    let mut n = node(2);
    n.mode = 0;
    n.uid = 1;
    n.gid = 1;
    n.nlink = 2;
    n.mtime = 1;
    n.xattrs_hash = 1;
    n.flags = 1;
    assert_eq!(
        changed_parts(&node(1), &n),
        ["content", "mode", "uid", "gid", "nlink", "mtime", "xattrs", "flags"]
    );
    assert!(changed_parts(&node(1), &node(1)).is_empty());
    assert_eq!(change_details(Some(&node(1)), &changed(|n| n.mode = 0)), "mode");
    assert_eq!(change_details(Some(&node(1)), &n), "content+mode+uid+gid+nlink+mtime+xattrs+flags");
    assert_eq!(change_details(None, &n), "new");
}

#[test]
fn the_narrower_root_is_compared() {
    let scope = |a: &str, b: &str| compare_scope(&path(a), &path(b)).to_string_lossy();
    assert_eq!(scope("/", "/etc"), "/etc");
    assert_eq!(scope("/etc", "/"), "/etc");
    assert_eq!(scope("/etc", "/usr"), "/usr");
    assert_eq!(scope("/etc", "/etc"), "/etc");
}

#[test]
fn the_log_of_a_comparison() {
    let old = snapshot(
        "/",
        &[("/etc/a", node(1)), ("/etc/b", node(2)), ("/etc/c", node(3)), ("/usr/x", node(4))],
    );
    let mut modified = node(20);
    modified.mtime = 5;
    let new = snapshot(
        "/etc",
        &[("/etc/a", node(1)), ("/etc/b", modified), ("/etc/d", node(5)), ("/usr/y", node(6))],
    );
    assert_eq!(
        comparison_log(&old, &new),
        ["Modified (content+mtime): /etc/b", "Added: /etc/d", "Removed: /etc/c"]
    );
    assert!(comparison_log(&old, &old).is_empty());
}

#[test]
fn navigation_stops_at_the_common_directory() {
    let root = |a: &str, b: &str| navigation_root(&path(a), &path(b)).to_string_lossy();
    assert_eq!(root("/", "/etc"), "/");
    assert_eq!(root("/etc/ssh", "/etc"), "/etc");
    assert_eq!(root("/etc", "/etc"), "/etc");
    assert_eq!(root("/usr/share/doc", "/usr/lib"), "/usr");
    assert_eq!(root("/usr", "/etc"), "/");
    assert_eq!(root("a/b", "a/c"), "a");
    assert_eq!(root("a", "b"), "");
    assert_eq!(root("/usr", "etc"), "/usr");
    assert_eq!(root("usr", "/etc"), "usr");
}
