//! Looking around in a comparison: what a directory shows, and where one can go
//! from there.
use vstd::prelude::*;
use crate::bubble::{lemma_names_above, text_for};
use crate::diff::{node_at, DiffNode, DiffStatus};
use crate::monitor::Monitor;
use crate::node::{borrowed_items, FileNode, Items};
use crate::path::{components, has_parent, is_child, key_lt, key_within, lemma_key_total, FilePath, PathKey};
use crate::path_map::{
    in_path_order, item_key, items_map, key_index, lemma_key_index, PathMap,
};
use crate::tree::{
    children_of, lemma_child_listed, lemma_filter_ordered, lemma_listed_child, select_children,
};

verus! {

/// What a directory view is made from: the nodes as they stand, the nodes to
/// compare them with, and the times of changes where the tree is watched.
pub struct Sources {
    pub current: Map<PathKey, (Seq<u8>, FileNode)>,
    pub older: Map<PathKey, (Seq<u8>, FileNode)>,
    pub times: Option<Map<PathKey, (Seq<u8>, i64)>>,
}

/// A line of a directory view: path text, status, older node, newer node,
/// whether it is a directory, time of change.
pub type Entry = (Seq<u8>, DiffStatus, Option<FileNode>, Option<FileNode>, bool, Option<i64>);

/// What a comparison of a path says.
pub open spec fn diff_view(d: DiffNode) -> Entry {
    (d.path@, d.status, d.old_node, d.new_node, d.is_dir, d.change_time)
}

/// What comparisons say.
pub open spec fn diff_views(list: Seq<DiffNode>) -> Seq<Entry> {
    list.map_values(|d: DiffNode| diff_view(d))
}

/// The key of a line.
pub open spec fn entry_key(e: Entry) -> PathKey {
    components(e.0)
}

/// Mode, owner, links, extended attributes or flags differ.
pub open spec fn metadata_changed(a: FileNode, b: FileNode) -> bool {
    ||| a.mode != b.mode
    ||| a.uid != b.uid
    ||| a.gid != b.gid
    ||| a.nlink != b.nlink
    ||| a.xattrs_hash != b.xattrs_hash
    ||| a.flags != b.flags
}

/// What became of an entry that is there now.
pub open spec fn present_status(older: Option<FileNode>, node: FileNode) -> DiffStatus {
    match older {
        None => DiffStatus::Added,
        Some(x) => if x.hash != node.hash {
            DiffStatus::Modified
        } else if metadata_changed(x, node) {
            DiffStatus::PermChanged
        } else {
            DiffStatus::Unchanged
        },
    }
}

/// The time at which a path was seen to change.
pub open spec fn time_in(times: Option<Map<PathKey, (Seq<u8>, i64)>>, k: PathKey) -> Option<i64> {
    if times is Some && times->0.contains_key(k) {
        Some(times->0[k].1)
    } else {
        None
    }
}

/// The path is there, was there, or was seen to change.
pub open spec fn known(s: Sources, k: PathKey) -> bool {
    s.current.contains_key(k) || s.older.contains_key(k) || (s.times is Some
        && s.times->0.contains_key(k))
}

/// The line for a known path. What is there is compared with what was; what
/// was there is removed; what is neither came and went while it was watched.
pub open spec fn entry_at(s: Sources, k: PathKey) -> Entry {
    if s.current.contains_key(k) {
        let node = s.current[k].1;
        let status = present_status(node_at(s.older, k), node);
        (
            s.current[k].0,
            status,
            node_at(s.older, k),
            Some(node),
            node.is_dir,
            if status == DiffStatus::Unchanged {
                None
            } else {
                time_in(s.times, k)
            },
        )
    } else if s.older.contains_key(k) {
        let node = s.older[k].1;
        (
            s.older[k].0,
            DiffStatus::Removed,
            Some(node),
            None,
            node.is_dir,
            time_in(s.times, k),
        )
    } else {
        (s.times->0[k].0, DiffStatus::Removed, None, None, false, time_in(s.times, k))
    }
}

/// The line is shown: it tells of a change, or everything is shown.
pub open spec fn shown(e: Entry, show_unchanged: bool) -> bool {
    show_unchanged || e.1 != DiffStatus::Unchanged
}

/// The order of lines: directories first, then by path.
pub open spec fn entry_lt(a: Entry, b: Entry) -> bool {
    (a.4 && !b.4) || (a.4 == b.4 && key_lt(entry_key(a), entry_key(b)))
}

/// The lines for what stands in a directory: every known path directly in it
/// that is to be shown, once, in order.
pub open spec fn is_listing(list: Seq<Entry>, s: Sources, dir: PathKey, show_unchanged: bool) -> bool {
    &&& forall|i: int, j: int|
        0 <= i < j < list.len() ==> entry_lt(#[trigger] list[i], #[trigger] list[j])
    &&& forall|i: int|
        0 <= i < list.len() ==> {
            let k = entry_key(#[trigger] list[i]);
            is_child(k, dir) && known(s, k) && list[i] == entry_at(s, k) && shown(
                list[i],
                show_unchanged,
            )
        }
    &&& forall|k: PathKey|
        is_child(k, dir) && #[trigger] known(s, k) && shown(entry_at(s, k), show_unchanged)
            ==> lists_key(list, k)
}

/// One of the lines is about the path.
pub open spec fn lists_key(list: Seq<Entry>, k: PathKey) -> bool {
    exists|i: int| 0 <= i < list.len() && entry_key(#[trigger] list[i]) == k
}

/// The line for a directory itself.
pub open spec fn nav_entry(s: Sources, text: Seq<u8>, k: PathKey) -> Entry {
    (text, DiffStatus::Unchanged, node_at(s.older, k), node_at(s.current, k), true, None)
}

/// The lines that lead around: the directory itself, and the one above it
/// where that is still the topmost directory or lies below it.
pub open spec fn nav_entries(s: Sources, text: Seq<u8>, root: PathKey) -> Seq<Entry> {
    let dir = components(text);
    let up = dir.drop_last();
    if has_parent(dir) && key_within(up, root) {
        seq![nav_entry(s, text, dir), nav_entry(s, text_for(text, up), up)]
    } else {
        seq![nav_entry(s, text, dir)]
    }
}

fn clone_found(node: Option<&FileNode>) -> (r: Option<FileNode>)
    ensures
        r == match node {
            Some(n) => Some(*n),
            None => None,
        },
{
    match node {
        Some(n) => Some(n.clone()),
        None => None,
    }
}

fn differ_in_metadata(a: &FileNode, b: &FileNode) -> (r: bool)
    ensures
        r == metadata_changed(*a, *b),
{
    a.mode != b.mode || a.uid != b.uid || a.gid != b.gid || a.nlink != b.nlink || a.xattrs_hash
        != b.xattrs_hash || a.flags != b.flags
}

fn status_now(older: Option<&FileNode>, node: &FileNode) -> (r: DiffStatus)
    ensures
        r == present_status(
            match older {
                Some(n) => Some(*n),
                None => None,
            },
            *node,
        ),
{
    match older {
        None => DiffStatus::Added,
        Some(x) => if x.hash != node.hash {
            DiffStatus::Modified
        } else if differ_in_metadata(x, node) {
            DiffStatus::PermChanged
        } else {
            DiffStatus::Unchanged
        },
    }
}

/// What is found so far: for every path that `wanted` picks, its line.
spec fn found_exactly(
    found: Map<PathKey, (Seq<u8>, DiffNode)>,
    s: Sources,
    wanted: spec_fn(PathKey) -> bool,
) -> bool {
    &&& forall|k: PathKey| #[trigger] found.contains_key(k) <==> wanted(k)
    &&& forall|k: PathKey| #[trigger]
        found.contains_key(k) ==> diff_view(found[k].1) == entry_at(s, k) && found[k].1.path.key()
            == k
}

/// One of the first items has the key.
spec fn among_first(items: Items, n: int, k: PathKey) -> bool {
    exists|j: int| 0 <= j < n && item_key(#[trigger] items[j]) == k
}

proof fn lemma_among_first(items: Items, n: int)
    requires
        0 <= n < items.len(),
    ensures
        forall|k: PathKey| #[trigger]
            among_first(items, n + 1, k) <==> among_first(items, n, k) || k == item_key(items[n]),
{
    assert forall|k: PathKey| #[trigger]
        among_first(items, n + 1, k) <==> among_first(items, n, k) || k == item_key(items[n]) by {
        if among_first(items, n, k) {
            let j = choose|j: int| 0 <= j < n && item_key(#[trigger] items[j]) == k;
            assert(item_key(items[j]) == k);
        }
        assert(item_key(items[n]) == item_key(items[n]));
    }
}

fn time_of(monitor: Option<&Monitor>, path: &FilePath) -> (r: Option<i64>)
    ensures
        r == time_in(
            match monitor {
                Some(m) => Some(m.times()),
                None => None,
            },
            path.key(),
        ),
{
    match monitor {
        Some(m) => m.get_change_time(path),
        None => None,
    }
}

/// The times that a monitor, if there is one, has seen.
pub open spec fn monitor_times(monitor: Option<&Monitor>) -> Option<Map<PathKey, (Seq<u8>, i64)>> {
    match monitor {
        Some(m) => Some(m.times()),
        None => None,
    }
}

/// Finds what stands in the directory now.
fn find_present(
    nodes: &PathMap<FileNode>,
    older: &PathMap<FileNode>,
    monitor: Option<&Monitor>,
    dir: &FilePath,
    Ghost(s): Ghost<Sources>,
) -> (r: PathMap<DiffNode>)
    requires
        s.older == older@,
        s.times == monitor_times(monitor),
        forall|k: PathKey| is_child(k, dir.key()) ==> (#[trigger] nodes@.contains_key(k) <==> s.current.contains_key(k)),
        forall|k: PathKey|
            is_child(k, dir.key()) && #[trigger] nodes@.contains_key(k) ==> nodes@[k] == s.current[k],
    ensures
        found_exactly(r@, s, |k: PathKey| is_child(k, dir.key()) && s.current.contains_key(k)),
{
    let children = select_children(nodes, dir, false);
    let ghost items = nodes.items();
    let ghost listing = children_of(items, dir.key(), false);
    let mut found: PathMap<DiffNode> = PathMap::new();
    let mut i: usize = 0;
    while i < children.len()
        invariant
            i <= children@.len(),
            items == nodes.items(),
            in_path_order(items),
            listing == children_of(items, dir.key(), false),
            borrowed_items(children@) == listing,
            listing.len() == children@.len(),
            s.older == older@,
            s.times == monitor_times(monitor),
            forall|k: PathKey|
                is_child(k, dir.key()) ==> (#[trigger] nodes@.contains_key(k) <==> s.current.contains_key(k)),
            forall|k: PathKey|
                is_child(k, dir.key()) && #[trigger] nodes@.contains_key(k) ==> nodes@[k] == s.current[k],
            found_exactly(found@, s, |k: PathKey| among_first(listing, i as int, k)),
        decreases children@.len() - i,
    {
        let path = children[i].0;
        let node = children[i].1;
        let ghost before = found@;
        proof {
            assert(listing[i as int] == (path@, *node));
            lemma_listed_child(items, dir.key(), i as int);
            lemma_among_first(listing, i as int);
            assert(nodes@.contains_key(path.key()));
        }
        let old_node = older.get(path);
        let status = status_now(old_node, node);
        let change_time = if status != DiffStatus::Unchanged {
            time_of(monitor, path)
        } else {
            None
        };
        let diff = DiffNode {
            path: path.clone(),
            status,
            old_node: clone_found(old_node),
            new_node: Some(node.clone()),
            is_dir: node.is_dir,
            change_time,
        };
        assert(diff_view(diff) == entry_at(s, path.key()));
        found.insert(path.clone(), diff);
        i = i + 1;
        proof {
            assert forall|k: PathKey| #[trigger] found@.contains_key(k) <==> among_first(
                listing,
                i as int,
                k,
            ) by {
                assert(before.contains_key(k) <==> among_first(listing, i - 1, k));
            }
            assert forall|k: PathKey| #[trigger] found@.contains_key(k) implies diff_view(
                found@[k].1,
            ) == entry_at(s, k) && found@[k].1.path.key() == k by {
                if k != path.key() {
                    assert(before.contains_key(k));
                }
            }
        }
    }
    proof {
        assert forall|k: PathKey| #[trigger] found@.contains_key(k) <==> is_child(k, dir.key())
            && s.current.contains_key(k) by {
            if among_first(listing, i as int, k) {
                let j = choose|j: int| 0 <= j < i && item_key(#[trigger] listing[j]) == k;
                lemma_listed_child(items, dir.key(), j);
                assert(nodes@.contains_key(k));
            }
            if is_child(k, dir.key()) && s.current.contains_key(k) {
                assert(nodes@.contains_key(k));
                lemma_child_listed(items, dir.key(), k);
                let j = choose|j: int| 0 <= j < listing.len() && item_key(#[trigger] listing[j]) == k;
                assert(among_first(listing, i as int, k));
            }
        }
    }
    found
}

/// Finds what stood in the directory and is not there any more.
fn find_removed(
    found: &mut PathMap<DiffNode>,
    nodes: &PathMap<FileNode>,
    older: &PathMap<FileNode>,
    monitor: Option<&Monitor>,
    dir: &FilePath,
    Ghost(s): Ghost<Sources>,
)
    requires
        s.older == older@,
        s.times == monitor_times(monitor),
        forall|k: PathKey| is_child(k, dir.key()) ==> (#[trigger] nodes@.contains_key(k) <==> s.current.contains_key(k)),
        found_exactly(
            old(found)@,
            s,
            |k: PathKey| is_child(k, dir.key()) && s.current.contains_key(k),
        ),
    ensures
        found_exactly(
            final(found)@,
            s,
            |k: PathKey|
                is_child(k, dir.key()) && (s.current.contains_key(k) || s.older.contains_key(k)),
        ),
{
    let children = select_children(older, dir, false);
    let ghost items = older.items();
    let ghost listing = children_of(items, dir.key(), false);
    let mut i: usize = 0;
    while i < children.len()
        invariant
            i <= children@.len(),
            items == older.items(),
            in_path_order(items),
            listing == children_of(items, dir.key(), false),
            borrowed_items(children@) == listing,
            listing.len() == children@.len(),
            s.older == older@,
            s.times == monitor_times(monitor),
            forall|k: PathKey|
                is_child(k, dir.key()) ==> (#[trigger] nodes@.contains_key(k) <==> s.current.contains_key(k)),
            found_exactly(
                found@,
                s,
                |k: PathKey|
                    (is_child(k, dir.key()) && s.current.contains_key(k)) || among_first(
                        listing,
                        i as int,
                        k,
                    ),
            ),
        decreases children@.len() - i,
    {
        let path = children[i].0;
        let node = children[i].1;
        let ghost before = found@;
        proof {
            assert(listing[i as int] == (path@, *node));
            lemma_listed_child(items, dir.key(), i as int);
            lemma_among_first(listing, i as int);
        }
        if !nodes.contains(path) {
            let diff = DiffNode {
                path: path.clone(),
                status: DiffStatus::Removed,
                old_node: Some(node.clone()),
                new_node: None,
                is_dir: node.is_dir,
                change_time: time_of(monitor, path),
            };
            assert(diff_view(diff) == entry_at(s, path.key()));
            found.insert(path.clone(), diff);
        }
        i = i + 1;
        proof {
            assert forall|k: PathKey| #[trigger]
                found@.contains_key(k) <==> (is_child(k, dir.key()) && s.current.contains_key(k))
                || among_first(listing, i as int, k) by {
                assert(before.contains_key(k) <==> (is_child(k, dir.key())
                    && s.current.contains_key(k)) || among_first(listing, i - 1, k));
                assert(nodes@.contains_key(path.key()) <==> s.current.contains_key(path.key()));
            }
            assert forall|k: PathKey| #[trigger] found@.contains_key(k) implies diff_view(
                found@[k].1,
            ) == entry_at(s, k) && found@[k].1.path.key() == k by {
                if k != path.key() {
                    assert(before.contains_key(k));
                } else if before.contains_key(k) {
                }
            }
        }
    }
    proof {
        assert forall|k: PathKey| #[trigger] found@.contains_key(k) <==> is_child(k, dir.key()) && (
        s.current.contains_key(k) || s.older.contains_key(k)) by {
            if among_first(listing, i as int, k) {
                let j = choose|j: int| 0 <= j < i && item_key(#[trigger] listing[j]) == k;
                lemma_listed_child(items, dir.key(), j);
            }
            if is_child(k, dir.key()) && s.older.contains_key(k) {
                lemma_child_listed(items, dir.key(), k);
                let j = choose|j: int| 0 <= j < listing.len() && item_key(#[trigger] listing[j]) == k;
                assert(among_first(listing, i as int, k));
            }
        }
    }
}

/// One of the first changes is about a path in the directory.
spec fn time_among_first(items: Seq<(Seq<u8>, i64)>, n: int, dir: PathKey, k: PathKey) -> bool {
    exists|j: int| 0 <= j < n && item_key(#[trigger] items[j]) == k && is_child(k, dir)
}

/// Finds what came to the directory and went while it was watched.
fn find_passing(
    found: &mut PathMap<DiffNode>,
    nodes: &PathMap<FileNode>,
    older: &PathMap<FileNode>,
    times: &PathMap<i64>,
    dir: &FilePath,
    Ghost(s): Ghost<Sources>,
)
    requires
        s.older == older@,
        s.times == Some(times@),
        forall|k: PathKey| is_child(k, dir.key()) ==> (#[trigger] nodes@.contains_key(k) <==> s.current.contains_key(k)),
        found_exactly(
            old(found)@,
            s,
            |k: PathKey|
                is_child(k, dir.key()) && (s.current.contains_key(k) || s.older.contains_key(k)),
        ),
    ensures
        found_exactly(final(found)@, s, |k: PathKey| is_child(k, dir.key()) && known(s, k)),
{
    let ghost items = times.items();
    let ghost base = |k: PathKey|
        is_child(k, dir.key()) && (s.current.contains_key(k) || s.older.contains_key(k));
    let total = times.len();
    let mut i: usize = 0;
    while i < total
        invariant
            i <= total == items.len(),
            items == times.items(),
            in_path_order(items),
            s.older == older@,
            s.times == Some(times@),
            base == (|k: PathKey|
                is_child(k, dir.key()) && (s.current.contains_key(k) || s.older.contains_key(k))),
            forall|k: PathKey|
                is_child(k, dir.key()) ==> (#[trigger] nodes@.contains_key(k) <==> s.current.contains_key(k)),
            found_exactly(
                found@,
                s,
                |k: PathKey| base(k) || time_among_first(items, i as int, dir.key(), k),
            ),
        decreases total - i,
    {
        let path = times.path_at(i);
        let time: i64 = *times.value_at(i);
        let ghost before = found@;
        let ghost key = path.key();
        proof {
            assert(item_key(items[i as int]) == key);
            lemma_key_index(items, i as int);
        }
        if path.is_child_of(dir) && !nodes.contains(path) && !older.contains(path) {
            let diff = DiffNode {
                path: path.clone(),
                status: DiffStatus::Removed,
                old_node: None,
                new_node: None,
                is_dir: false,
                change_time: Some(time),
            };
            assert(diff_view(diff) == entry_at(s, key));
            found.insert(path.clone(), diff);
        }
        i = i + 1;
        proof {
            assert forall|k: PathKey| #[trigger]
                found@.contains_key(k) <==> base(k) || time_among_first(
                items,
                i as int,
                dir.key(),
                k,
            ) by {
                assert(before.contains_key(k) <==> base(k) || time_among_first(
                    items,
                    i - 1,
                    dir.key(),
                    k,
                ));
                assert(is_child(key, dir.key()) ==> (nodes@.contains_key(key)
                    <==> s.current.contains_key(key)));
                assert(item_key(items[i - 1]) == key);
                if time_among_first(items, i - 1, dir.key(), k) {
                    let j = choose|j: int|
                        0 <= j < i - 1 && item_key(#[trigger] items[j]) == k && is_child(
                            k,
                            dir.key(),
                        );
                    assert(item_key(items[j]) == k);
                }
            }
            assert forall|k: PathKey| #[trigger] found@.contains_key(k) implies diff_view(
                found@[k].1,
            ) == entry_at(s, k) && found@[k].1.path.key() == k by {
                if k != key {
                    assert(before.contains_key(k));
                }
            }
        }
    }
    proof {
        assert forall|k: PathKey| #[trigger] found@.contains_key(k) <==> is_child(k, dir.key())
            && known(s, k) by {
            if time_among_first(items, i as int, dir.key(), k) {
                let j = choose|j: int|
                    0 <= j < i && item_key(#[trigger] items[j]) == k && is_child(k, dir.key());
                lemma_key_index(items, j);
            }
            if is_child(k, dir.key()) && times@.contains_key(k) {
                let j = key_index(items, k);
                assert(item_key(items[j]) == k);
                assert(time_among_first(items, i as int, dir.key(), k));
            }
        }
    }
}

/// A found line that goes among the directories, or among the others.
pub open spec fn picks(is_dir: bool, show_unchanged: bool) -> spec_fn((Seq<u8>, DiffNode)) -> bool {
    |item: (Seq<u8>, DiffNode)|
        item.1.is_dir == is_dir && shown(diff_view(item.1), show_unchanged)
}

/// The lines picked.
pub open spec fn picked(
    items: Seq<(Seq<u8>, DiffNode)>,
    is_dir: bool,
    show_unchanged: bool,
) -> Seq<Entry> {
    items.filter(picks(is_dir, show_unchanged)).map_values(
        |item: (Seq<u8>, DiffNode)| diff_view(item.1),
    )
}

fn pick(list: &mut Vec<DiffNode>, found: &PathMap<DiffNode>, is_dir: bool, show_unchanged: bool)
    ensures
        diff_views(final(list)@) == diff_views(old(list)@) + picked(
            found.items(),
            is_dir,
            show_unchanged,
        ),
{
    let ghost items = found.items();
    let ghost p = picks(is_dir, show_unchanged);
    let ghost f = |item: (Seq<u8>, DiffNode)| diff_view(item.1);
    let ghost start = diff_views(list@);
    let total = found.len();
    let mut i: usize = 0;
    proof {
        reveal(Seq::filter);
        assert(diff_views(list@) =~= start + items.take(0).filter(p).map_values(f));
    }
    while i < total
        invariant
            i <= total == items.len(),
            items == found.items(),
            p == picks(is_dir, show_unchanged),
            f == (|item: (Seq<u8>, DiffNode)| diff_view(item.1)),
            diff_views(list@) == start + items.take(i as int).filter(p).map_values(f),
        decreases total - i,
    {
        let diff = found.value_at(i);
        let ghost before = list@;
        proof {
            reveal(Seq::filter);
            assert(items.take(i + 1).drop_last() =~= items.take(i as int));
            assert(items.take(i + 1).last() == items[i as int]);
        }
        if diff.is_dir == is_dir && (show_unchanged || diff.status != DiffStatus::Unchanged) {
            let copy = diff.clone();
            list.push(copy);
            proof {
                assert(diff_view(copy) == diff_view(*diff));
                assert(diff_views(list@) =~= diff_views(before).push(diff_view(copy)));
                assert(items.take(i + 1).filter(p).map_values(f) =~= items.take(i as int).filter(
                    p,
                ).map_values(f).push(diff_view(*diff)));
            }
        }
        i = i + 1;
        assert(diff_views(list@) =~= start + items.take(i as int).filter(p).map_values(f));
    }
    assert(items.take(i as int) =~= items);
}

proof fn lemma_picked_member(
    items: Seq<(Seq<u8>, DiffNode)>,
    s: Sources,
    dir: PathKey,
    is_dir: bool,
    show_unchanged: bool,
    i: int,
)
    requires
        in_path_order(items),
        found_exactly(items_map(items), s, |k: PathKey| is_child(k, dir) && known(s, k)),
        0 <= i < picked(items, is_dir, show_unchanged).len(),
    ensures
        ({
            let e = picked(items, is_dir, show_unchanged)[i];
            let k = entry_key(e);
            &&& k == item_key(items.filter(picks(is_dir, show_unchanged))[i])
            &&& e.4 == is_dir
            &&& is_child(k, dir)
            &&& known(s, k)
            &&& e == entry_at(s, k)
            &&& shown(e, show_unchanged)
        }),
{
    broadcast use vstd::seq_lib::group_filter_ensures;

    let p = picks(is_dir, show_unchanged);
    let item = items.filter(p)[i];
    assert(items.filter(p).contains(item));
    items.lemma_filter_contains_rev(p, item);
    assert(p(item));
    let j = choose|j: int| 0 <= j < items.len() && items[j] == item;
    lemma_key_index(items, j);
    assert(items_map(items).contains_key(item_key(item)));
}

proof fn lemma_picked_all(
    items: Seq<(Seq<u8>, DiffNode)>,
    s: Sources,
    dir: PathKey,
    show_unchanged: bool,
    k: PathKey,
)
    requires
        in_path_order(items),
        found_exactly(items_map(items), s, |k: PathKey| is_child(k, dir) && known(s, k)),
        is_child(k, dir),
        known(s, k),
        shown(entry_at(s, k), show_unchanged),
    ensures
        lists_key(picked(items, entry_at(s, k).4, show_unchanged), k),
{
    assert(items_map(items).contains_key(k));
    let is_dir = entry_at(s, k).4;
    let p = picks(is_dir, show_unchanged);
    let z = key_index(items, k);
    lemma_key_index(items, z);
    assert(p(items[z]));
    items.lemma_filter_contains(p, z);
    let j = choose|j: int| 0 <= j < items.filter(p).len() && items.filter(p)[j] == items[z];
    assert(entry_key(picked(items, is_dir, show_unchanged)[j]) == k);
}

/// Directories first, then the rest, each in path order: that is the listing.
proof fn lemma_listing(
    items: Seq<(Seq<u8>, DiffNode)>,
    s: Sources,
    dir: PathKey,
    show_unchanged: bool,
)
    requires
        in_path_order(items),
        found_exactly(items_map(items), s, |k: PathKey| is_child(k, dir) && known(s, k)),
    ensures
        is_listing(
            picked(items, true, show_unchanged) + picked(items, false, show_unchanged),
            s,
            dir,
            show_unchanged,
        ),
{
    let dirs = picked(items, true, show_unchanged);
    let files = picked(items, false, show_unchanged);
    let list = dirs + files;
    lemma_filter_ordered(items, picks(true, show_unchanged));
    lemma_filter_ordered(items, picks(false, show_unchanged));
    let n = dirs.len() as int;
    assert forall|i: int| 0 <= i < list.len() implies {
        let k = entry_key(#[trigger] list[i]);
        is_child(k, dir) && known(s, k) && list[i] == entry_at(s, k) && shown(
            list[i],
            show_unchanged,
        )
    } by {
        if i < n {
            lemma_picked_member(items, s, dir, true, show_unchanged, i);
        } else {
            lemma_picked_member(items, s, dir, false, show_unchanged, i - n);
        }
    }
    assert forall|i: int, j: int| 0 <= i < j < list.len() implies entry_lt(
        #[trigger] list[i],
        #[trigger] list[j],
    ) by {
        if j < n {
            lemma_picked_member(items, s, dir, true, show_unchanged, i);
            lemma_picked_member(items, s, dir, true, show_unchanged, j);
        } else if i < n {
            lemma_picked_member(items, s, dir, true, show_unchanged, i);
            lemma_picked_member(items, s, dir, false, show_unchanged, j - n);
        } else {
            lemma_picked_member(items, s, dir, false, show_unchanged, i - n);
            lemma_picked_member(items, s, dir, false, show_unchanged, j - n);
        }
    }
    assert forall|k: PathKey|
        is_child(k, dir) && #[trigger] known(s, k) && shown(
            entry_at(s, k),
            show_unchanged,
        ) implies lists_key(list, k) by {
        lemma_picked_all(items, s, dir, show_unchanged, k);
        let part = picked(items, entry_at(s, k).4, show_unchanged);
        let i = choose|i: int| 0 <= i < part.len() && entry_key(#[trigger] part[i]) == k;
        if entry_at(s, k).4 {
            assert(list[i] == part[i]);
        } else {
            assert(list[n + i] == part[i]);
        }
    }
}

/// The line for a directory itself.
fn nav_item(path: FilePath, older: &PathMap<FileNode>, nodes: &PathMap<FileNode>) -> (r: DiffNode)
    ensures
        diff_view(r) == (
            path@,
            DiffStatus::Unchanged,
            node_at(older@, path.key()),
            node_at(nodes@, path.key()),
            true,
            None::<i64>,
        ),
{
    let old_node = clone_found(older.get(&path));
    let new_node = clone_found(nodes.get(&path));
    DiffNode {
        path,
        status: DiffStatus::Unchanged,
        old_node,
        new_node,
        is_dir: true,
        change_time: None,
    }
}

/// The view of a directory.
pub(crate) fn list_view(
    nodes: &PathMap<FileNode>,
    older: &PathMap<FileNode>,
    monitor: Option<&Monitor>,
    dir: &FilePath,
    root: &FilePath,
    show_unchanged: bool,
    Ghost(s): Ghost<Sources>,
) -> (r: Vec<DiffNode>)
    requires
        s.older == older@,
        s.times == monitor_times(monitor),
        forall|k: PathKey|
            Monitor::in_view(dir.key(), k) ==> (#[trigger] nodes@.contains_key(k) <==> s.current.contains_key(k)),
        forall|k: PathKey|
            Monitor::in_view(dir.key(), k) && #[trigger] nodes@.contains_key(k) ==> nodes@[k]
                == s.current[k],
    ensures
        is_view(diff_views(r@), s, dir@, root.key(), show_unchanged),
{
    let mut found = find_present(nodes, older, monitor, dir, Ghost(s));
    find_removed(&mut found, nodes, older, monitor, dir, Ghost(s));
    if let Some(m) = monitor {
        let times = m.get_all_change_times();
        find_passing(&mut found, nodes, older, &times, dir, Ghost(s));
    }
    proof {
        assert forall|k: PathKey| #[trigger] found@.contains_key(k) <==> is_child(k, dir.key())
            && known(s, k) by {}
    }
    let mut list: Vec<DiffNode> = Vec::new();
    let own = nav_item(dir.clone(), older, nodes);
    proof {
        assert(Monitor::in_view(dir.key(), dir.key()));
        assert(nodes@.contains_key(dir.key()) <==> s.current.contains_key(dir.key()));
        assert(diff_view(own) == nav_entry(s, dir@, dir.key()));
    }
    list.push(own);
    assert(diff_views(list@) =~= seq![diff_view(own)]);
    if let Some(parent) = dir.parent() {
        proof {
            lemma_names_above(dir@, parent@, parent.key());
        }
        if parent.starts_with(root) {
            let ghost up = parent.key();
            let above = nav_item(parent, older, nodes);
            proof {
                assert(Monitor::in_view(dir.key(), up));
                assert(nodes@.contains_key(up) <==> s.current.contains_key(up));
                assert(diff_view(above) == nav_entry(s, text_for(dir@, up), up));
            }
            list.push(above);
            assert(diff_views(list@) =~= seq![diff_view(own), diff_view(above)]);
        }
    }
    let ghost nav = diff_views(list@);
    assert(nav =~= nav_entries(s, dir@, root.key()));
    let _ = found.len();
    pick(&mut list, &found, true, show_unchanged);
    pick(&mut list, &found, false, show_unchanged);
    proof {
        lemma_listing(found.items(), s, dir.key(), show_unchanged);
        let rest = picked(found.items(), true, show_unchanged) + picked(
            found.items(),
            false,
            show_unchanged,
        );
        assert(diff_views(list@) =~= nav + rest);
        assert(diff_views(list@).skip(nav.len() as int) =~= rest);
        assert(diff_views(list@).take(nav.len() as int) =~= nav);
    }
    list
}

/// The view of a directory: the lines that lead around, then what stands in it.
pub open spec fn is_view(
    list: Seq<Entry>,
    s: Sources,
    dir: Seq<u8>,
    root: PathKey,
    show_unchanged: bool,
) -> bool {
    let nav = nav_entries(s, dir, root);
    &&& nav.len() <= list.len()
    &&& list.take(nav.len() as int) == nav
    &&& nav.len() == 2 ==> entry_key(nav[1]) == components(dir).drop_last()
    &&& is_listing(list.skip(nav.len() as int), s, components(dir), show_unchanged)
}

/// Whatever is hidden is there as it was: its contents and its metadata are the
/// same. Everything else that is known in the directory has its line.
pub proof fn law_only_the_unchanged_is_hidden(
    list: Seq<Entry>,
    s: Sources,
    dir: Seq<u8>,
    root: PathKey,
    show_unchanged: bool,
    k: PathKey,
)
    requires
        is_view(list, s, dir, root, show_unchanged),
        is_child(k, components(dir)),
        known(s, k),
        !lists_key(list.skip(nav_entries(s, dir, root).len() as int), k),
    ensures
        !show_unchanged,
        s.current.contains_key(k),
        s.older.contains_key(k),
        s.current[k].1.hash == s.older[k].1.hash,
        !metadata_changed(s.older[k].1, s.current[k].1),
{
    assert(!shown(entry_at(s, k), show_unchanged));
}

/// Lines in order, none twice.
spec fn in_line_order(list: Seq<Entry>) -> bool {
    forall|i: int, j: int|
        0 <= i < j < list.len() ==> entry_lt(#[trigger] list[i], #[trigger] list[j])
}

proof fn lemma_not_both(a: Entry, b: Entry)
    ensures
        !(entry_lt(a, b) && entry_lt(b, a)),
        a == b ==> !entry_lt(a, b),
{
    lemma_key_total(entry_key(a), entry_key(b));
}

proof fn lemma_filter_lines(list: Seq<Entry>, p: spec_fn(Entry) -> bool)
    requires
        in_line_order(list),
    ensures
        in_line_order(list.filter(p)),
    decreases list.len(),
{
    broadcast use vstd::seq_lib::group_filter_ensures;

    reveal(Seq::filter);
    if list.len() > 0 {
        let rest = list.drop_last();
        assert(in_line_order(rest)) by {
            assert forall|i: int, j: int| 0 <= i < j < rest.len() implies entry_lt(
                #[trigger] rest[i],
                #[trigger] rest[j],
            ) by {
                assert(entry_lt(list[i], list[j]));
            }
        }
        lemma_filter_lines(rest, p);
        let kept = rest.filter(p);
        if p(list.last()) {
            let all = kept.push(list.last());
            assert forall|i: int, j: int| 0 <= i < j < all.len() implies entry_lt(
                #[trigger] all[i],
                #[trigger] all[j],
            ) by {
                if j == kept.len() {
                    rest.lemma_filter_contains_rev(p, all[i]);
                    assert(rest.contains(all[i]));
                    let z = choose|z: int| 0 <= z < rest.len() && rest[z] == all[i];
                    assert(entry_lt(list[z], list[list.len() - 1]));
                } else {
                    assert(entry_lt(kept[i], kept[j]));
                }
            }
        }
    }
}

proof fn lemma_same_lines(a: Seq<Entry>, b: Seq<Entry>)
    requires
        in_line_order(a),
        in_line_order(b),
        forall|e: Entry| #[trigger] a.contains(e) <==> b.contains(e),
    ensures
        a == b,
    decreases a.len(),
{
    if a.len() == 0 {
        if b.len() > 0 {
            assert(b.contains(b[0]));
            assert(a.contains(b[0]));
        }
        assert(a =~= b);
    } else {
        assert(a.contains(a.last()));
        let y = choose|y: int| 0 <= y < b.len() && b[y] == a.last();
        assert(b.contains(b.last()));
        assert(a.contains(b.last()));
        let x = choose|x: int| 0 <= x < a.len() && a[x] == b.last();
        if y < b.len() - 1 && x < a.len() - 1 {
            assert(entry_lt(b[y], b[b.len() - 1]));
            assert(entry_lt(a[x], a[a.len() - 1]));
            lemma_not_both(a.last(), b.last());
        }
        assert(a.last() == b.last());
        let a1 = a.drop_last();
        let b1 = b.drop_last();
        assert(in_line_order(a1)) by {
            assert forall|i: int, j: int| 0 <= i < j < a1.len() implies entry_lt(
                #[trigger] a1[i],
                #[trigger] a1[j],
            ) by {
                assert(entry_lt(a[i], a[j]));
            }
        }
        assert(in_line_order(b1)) by {
            assert forall|i: int, j: int| 0 <= i < j < b1.len() implies entry_lt(
                #[trigger] b1[i],
                #[trigger] b1[j],
            ) by {
                assert(entry_lt(b[i], b[j]));
            }
        }
        assert forall|e: Entry| #[trigger] a1.contains(e) <==> b1.contains(e) by {
            if a1.contains(e) {
                let i = choose|i: int| 0 <= i < a1.len() && a1[i] == e;
                assert(a[i] == e);
                assert(a.contains(e));
                let j = choose|j: int| 0 <= j < b.len() && b[j] == e;
                if j == b.len() - 1 {
                    assert(entry_lt(a[i], a[a.len() - 1]));
                    lemma_not_both(e, e);
                }
                assert(b1[j] == e);
            }
            if b1.contains(e) {
                let i = choose|i: int| 0 <= i < b1.len() && b1[i] == e;
                assert(b[i] == e);
                assert(b.contains(e));
                assert(a.contains(e));
                let j = choose|j: int| 0 <= j < a.len() && a[j] == e;
                if j == a.len() - 1 {
                    assert(entry_lt(b[i], b[b.len() - 1]));
                    lemma_not_both(e, e);
                }
                assert(a1[j] == e);
            }
        }
        lemma_same_lines(a1, b1);
        assert(a =~= a1.push(a.last()));
        assert(b =~= b1.push(b.last()));
    }
}

/// A line that tells of a change.
pub open spec fn is_change() -> spec_fn(Entry) -> bool {
    |e: Entry| e.1 != DiffStatus::Unchanged
}

/// Hiding what is unchanged takes lines away and does nothing else: the others
/// stay as they are and in their order.
pub proof fn law_hiding_only_filters(all: Seq<Entry>, changes: Seq<Entry>, s: Sources, dir: PathKey)
    requires
        is_listing(all, s, dir, true),
        is_listing(changes, s, dir, false),
    ensures
        changes == all.filter(is_change()),
{
    broadcast use vstd::seq_lib::group_filter_ensures;

    let p = is_change();
    assert(in_line_order(all));
    assert(in_line_order(changes));
    lemma_filter_lines(all, p);
    assert forall|e: Entry| #[trigger] changes.contains(e) <==> all.filter(p).contains(e) by {
        if changes.contains(e) {
            let i = choose|i: int| 0 <= i < changes.len() && changes[i] == e;
            let k = entry_key(changes[i]);
            assert(known(s, k) && shown(entry_at(s, k), true));
            assert(lists_key(all, k));
            let j = choose|j: int| 0 <= j < all.len() && entry_key(#[trigger] all[j]) == k;
            assert(all[j] == e);
            assert(p(all[j]));
            all.lemma_filter_contains(p, j);
        }
        if all.filter(p).contains(e) {
            all.lemma_filter_contains_rev(p, e);
            assert(p(e) && all.contains(e));
            let j = choose|j: int| 0 <= j < all.len() && all[j] == e;
            let k = entry_key(all[j]);
            assert(known(s, k) && shown(entry_at(s, k), false));
            assert(lists_key(changes, k));
            let i = choose|i: int| 0 <= i < changes.len() && entry_key(#[trigger] changes[i]) == k;
            assert(changes[i] == e);
        }
    }
    lemma_same_lines(changes, all.filter(p));
}

} // verus!
