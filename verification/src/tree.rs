//! Directories over the files of a snapshot: each holds a checksum of what
//! stands directly in it.
use vstd::prelude::*;
use crate::digest::xxh3_64;
use crate::node::{
    borrowed_items, dir_node_of, hash_directory, held_size, listing_bytes, sum_sizes, unknown_dir,
    DirInfo, FileNode, Items,
};
use crate::path::{
    is_child, key_lt, lemma_child_after, lemma_key_total, lemma_within_between, shortest, FilePath,
    PathKey,
};
use crate::path_map::{
    in_path_order, item_key, items_map, key_index, lemma_key_index, lemma_same_items, PathMap,
};
use crate::progress::steps_for;

verus! {

/// An entry directly in a directory; a file, where that is asked for.
pub open spec fn stands_in(dir: PathKey, files_only: bool) -> spec_fn((Seq<u8>, FileNode)) -> bool {
    |item: (Seq<u8>, FileNode)|
        is_child(item_key(item), dir) && (files_only ==> !item.1.is_dir)
}

/// The entries directly in a directory, in path order; only the files where
/// that is asked for.
pub open spec fn children_of(items: Items, dir: PathKey, files_only: bool) -> Items {
    items.filter(stands_in(dir, files_only))
}

/// What a filter leaves of a list in path order is in path order.
pub proof fn lemma_filter_ordered<V>(items: Seq<(Seq<u8>, V)>, p: spec_fn((Seq<u8>, V)) -> bool)
    requires
        in_path_order(items),
    ensures
        in_path_order(items.filter(p)),
    decreases items.len(),
{
    broadcast use vstd::seq_lib::group_filter_ensures;

    reveal(Seq::filter);
    if items.len() > 0 {
        let rest = items.drop_last();
        assert(in_path_order(rest)) by {
            assert forall|x: int, y: int| 0 <= x < y < rest.len() implies key_lt(
                #[trigger] item_key(rest[x]),
                #[trigger] item_key(rest[y]),
            ) by {
                assert(key_lt(item_key(items[x]), item_key(items[y])));
            }
        }
        lemma_filter_ordered(rest, p);
        let kept = rest.filter(p);
        if p(items.last()) {
            let all = kept.push(items.last());
            assert forall|x: int, y: int| 0 <= x < y < all.len() implies key_lt(
                #[trigger] item_key(all[x]),
                #[trigger] item_key(all[y]),
            ) by {
                if y == kept.len() {
                    rest.lemma_filter_contains_rev(p, all[x]);
                    assert(rest.contains(all[x]));
                    let z = choose|z: int| 0 <= z < rest.len() && rest[z] == all[x];
                    assert(key_lt(item_key(items[z]), item_key(items[items.len() - 1])));
                } else {
                    assert(key_lt(item_key(kept[x]), item_key(kept[y])));
                }
            }
        }
    }
}

/// What a directory holds depends on nothing but the entries directly in it.
pub proof fn lemma_same_children(a: Items, b: Items, dir: PathKey, files_only: bool)
    requires
        in_path_order(a),
        in_path_order(b),
        forall|k: PathKey|
            #![trigger items_map(a).contains_key(k)]
            #![trigger items_map(b).contains_key(k)]
            is_child(k, dir) ==> (items_map(a).contains_key(k) <==> items_map(b).contains_key(k)),
        forall|k: PathKey|
            #![trigger items_map(a)[k]]
            is_child(k, dir) && items_map(a).contains_key(k) ==> items_map(a)[k] == items_map(b)[k],
    ensures
        children_of(a, dir, files_only) == children_of(b, dir, files_only),
{
    let p = stands_in(dir, files_only);
    lemma_filter_ordered(a, p);
    lemma_filter_ordered(b, p);
    broadcast use vstd::seq_lib::group_filter_ensures;

    assert forall|item: (Seq<u8>, FileNode)| #[trigger] a.filter(p).contains(item) <==> b.filter(
        p,
    ).contains(item) by {
        if a.filter(p).contains(item) {
            let x = choose|x: int| 0 <= x < a.filter(p).len() && a.filter(p)[x] == item;
            a.lemma_filter_contains_rev(p, item);
            assert(a.contains(item) && p(item));
            let y = choose|y: int| 0 <= y < a.len() && a[y] == item;
            lemma_key_index(a, y);
            assert(items_map(a)[item_key(item)] == item);
            assert(items_map(b).contains_key(item_key(item)));
            let z = key_index(b, item_key(item));
            lemma_key_index(b, z);
            assert(b[z] == item);
            b.lemma_filter_contains(p, z);
        }
        if b.filter(p).contains(item) {
            let x = choose|x: int| 0 <= x < b.filter(p).len() && b.filter(p)[x] == item;
            b.lemma_filter_contains_rev(p, item);
            assert(b.contains(item) && p(item));
            let y = choose|y: int| 0 <= y < b.len() && b[y] == item;
            lemma_key_index(b, y);
            assert(items_map(b)[item_key(item)] == item);
            assert(items_map(a).contains_key(item_key(item)));
            let z = key_index(a, item_key(item));
            lemma_key_index(a, z);
            assert(a[z] == item);
            a.lemma_filter_contains(p, z);
        }
    }
    lemma_same_items(a.filter(p), b.filter(p));
}

/// A directory's own entry, and entries that come before it, are not among
/// what it holds.
proof fn lemma_insert_before_keeps_children(
    a: Items,
    b: Items,
    at: PathKey,
    item: (Seq<u8>, FileNode),
    dir: PathKey,
    files_only: bool,
)
    requires
        in_path_order(a),
        in_path_order(b),
        items_map(b) == items_map(a).insert(at, item),
        at == dir || key_lt(at, dir),
    ensures
        children_of(a, dir, files_only) == children_of(b, dir, files_only),
{
    assert(!is_child(at, dir)) by {
        if is_child(at, dir) {
            lemma_child_after(at, dir);
            lemma_key_total(at, dir);
        }
    }
    lemma_same_children(a, b, dir, files_only);
}

/// One more item to filter.
pub proof fn lemma_filter_step(items: Items, p: spec_fn((Seq<u8>, FileNode)) -> bool, i: int)
    requires
        0 <= i < items.len(),
    ensures
        items.take(i + 1).filter(p) == if p(items[i]) {
            items.take(i).filter(p).push(items[i])
        } else {
            items.take(i).filter(p)
        },
{
    reveal(Seq::filter);
    assert(items.take(i + 1).drop_last() =~= items.take(i));
}

proof fn lemma_filter_rest(items: Items, p: spec_fn((Seq<u8>, FileNode)) -> bool, i: int, n: int)
    requires
        0 <= i <= n <= items.len(),
        forall|j: int| i <= j < n ==> !p(#[trigger] items[j]),
    ensures
        items.take(n).filter(p) == items.take(i).filter(p),
    decreases n - i,
{
    if i < n {
        lemma_filter_rest(items, p, i, n - 1);
        lemma_filter_step(items, p, n - 1);
        assert(!p(items[n - 1]));
    }
}

/// The entries directly in a directory.
pub fn select_children<'a>(nodes: &'a PathMap<FileNode>, dir: &FilePath, files_only: bool) -> (r: Vec<
    (&'a FilePath, &'a FileNode),
>)
    ensures
        borrowed_items(r@) == children_of(nodes.items(), dir.key(), files_only),
        in_path_order(nodes.items()),
{
    let ghost items = nodes.items();
    let ghost key = dir.key();
    let ghost p = stands_in(key, files_only);
    let mut r: Vec<(&FilePath, &FileNode)> = Vec::new();
    let start = nodes.lower_bound(dir);
    let len = nodes.len();
    let mut i: usize = start;
    proof {
        assert forall|j: int| 0 <= j < start implies !p(#[trigger] items[j]) by {
            if is_child(item_key(items[j]), key) {
                lemma_child_after(item_key(items[j]), key);
                lemma_key_total(item_key(items[j]), key);
            }
        }
        lemma_filter_rest(items, p, 0, start as int);
        reveal(Seq::filter);
        assert(items.take(0).filter(p) =~= Seq::empty());
        assert(borrowed_items(r@) =~= Seq::empty());
    }
    while i < len && nodes.path_at(i).starts_with(dir)
        invariant
            items == nodes.items(),
            key == dir.key(),
            len == items.len(),
            in_path_order(items),
            start <= i <= len,
            p == stands_in(key, files_only),
            borrowed_items(r@) == items.take(i as int).filter(p),
        decreases len - i,
    {
        let path = nodes.path_at(i);
        let node = nodes.value_at(i);
        proof {
            lemma_filter_step(items, p, i as int);
            assert(items[i as int] == (path@, *node));
        }
        let ghost before = r@;
        if path.is_child_of(dir) && (!files_only || !node.is_dir) {
            r.push((path, node));
            assert(borrowed_items(r@) =~= borrowed_items(before).push((path@, *node)));
        }
        i = i + 1;
    }
    proof {
        assert forall|j: int| i <= j < len implies !p(#[trigger] items[j]) by {
            if is_child(item_key(items[j]), key) {
                lemma_child_after(item_key(items[j]), key);
                if j > i {
                    lemma_within_between(key, item_key(items[i as int]), item_key(items[j]));
                }
            }
        }
        lemma_filter_rest(items, p, i as int, len as int);
        assert(items.take(len as int) =~= items);
    }
    r
}

/// Some entry stands directly in `dir`; some file, where that is asked for.
pub open spec fn holds_entry(items: Items, dir: PathKey, files_only: bool) -> bool {
    exists|i: int|
        0 <= i < items.len() && is_child(#[trigger] item_key(items[i]), dir) && (files_only
            ==> !items[i].1.is_dir)
}

/// `text` is how a path in the list names the directory above it.
pub open spec fn text_above(items: Items, dir: PathKey, text: Seq<u8>) -> bool {
    exists|i: int|
        0 <= i < items.len() && shortest(#[trigger] items[i].0, text.len() as int, dir) && text
            == items[i].0.take(text.len() as int)
}

/// The directories that hold an entry directly, in path order.
pub fn directories_of(nodes: &PathMap<FileNode>, files_only: bool) -> (r: PathMap<()>)
    ensures
        in_path_order(r.items()),
        in_path_order(nodes.items()),
        forall|k: PathKey| #[trigger]
            r@.contains_key(k) <==> holds_entry(nodes.items(), k, files_only),
        forall|k: PathKey|
            r@.contains_key(k) ==> text_above(nodes.items(), k, (#[trigger] r@[k]).0),
{
    let ghost items = nodes.items();
    let len = nodes.len();
    let mut dirs: PathMap<()> = PathMap::new();
    let mut i: usize = 0;
    proof {
        assert(in_path_order(dirs.items()));
    }
    while i < len
        invariant
            items == nodes.items(),
            in_path_order(items),
            in_path_order(dirs.items()),
            i <= len == items.len(),
            forall|k: PathKey| #[trigger]
                dirs@.contains_key(k) <==> exists|j: int|
                    0 <= j < i && is_child(#[trigger] item_key(items[j]), k) && (files_only
                        ==> !items[j].1.is_dir),
            forall|k: PathKey| dirs@.contains_key(k) ==> text_above(items, k, (#[trigger] dirs@[k]).0),
        decreases len - i,
    {
        let ghost before = dirs@;
        let path = nodes.path_at(i);
        let ghost key = item_key(items[i as int]);
        assert(path.key() == key);
        if !files_only || !nodes.value_at(i).is_dir {
            if let Some(dir) = path.parent() {
                let ghost above = dir.key();
                let ghost text = dir@;
                assert(text_above(items, above, text)) by {
                    assert(items[i as int].0 == path@);
                }
                dirs.insert(dir, ());
                assert(is_child(key, above));
                assert forall|k: PathKey| #[trigger]
                    dirs@.contains_key(k) <==> exists|j: int|
                    0 <= j < i + 1 && is_child(#[trigger] item_key(items[j]), k) && (files_only
                        ==> !items[j].1.is_dir) by {
                    if k == above {
                        assert(is_child(item_key(items[i as int]), k));
                    } else {
                        assert(before.contains_key(k) == dirs@.contains_key(k));
                    }
                }
                assert forall|k: PathKey| dirs@.contains_key(k) implies text_above(
                    items,
                    k,
                    (#[trigger] dirs@[k]).0,
                ) by {
                    assert(k != above ==> before.contains_key(k));
                    assert(before.contains_key(k) ==> before[k].0 == dirs@[k].0);
                }
            }
        }
        i = i + 1;
    }
    proof {
        assert forall|k: PathKey| #[trigger]
            dirs@.contains_key(k) <==> holds_entry(items, k, files_only) by {}
    }
    dirs
}

/// What is known about a directory: nothing, where nothing was read.
pub open spec fn info_of(infos: Map<PathKey, (Seq<u8>, DirInfo)>, dir: PathKey) -> DirInfo {
    if infos.contains_key(dir) {
        infos[dir].1
    } else {
        unknown_dir()
    }
}

pub(crate) fn lookup_info(infos: &PathMap<DirInfo>, dir: &FilePath) -> (r: DirInfo)
    ensures
        r == info_of(infos@, dir.key()),
{
    match infos.get(dir) {
        Some(info) => info.clone(),
        None => DirInfo::unknown(),
    }
}

/// The node of a directory with these entries.
pub open spec fn listing_node(listing: Items, info: DirInfo) -> FileNode {
    dir_node_of(xxh3_64(listing_bytes(listing)), held_size(listing), info)
}

/// The node of a directory over the files that stand directly in it.
pub open spec fn rehashed_node(
    items: Items,
    infos: Map<PathKey, (Seq<u8>, DirInfo)>,
    dir: PathKey,
) -> FileNode {
    listing_node(children_of(items, dir, true), info_of(infos, dir))
}

/// Brings the node of one directory up to date with the files in it. A
/// directory without files is left alone.
pub fn rehash_directory(
    nodes: &mut PathMap<FileNode>,
    dir: &FilePath,
    infos: &PathMap<DirInfo>,
) -> (r: Option<u64>)
    ensures
        in_path_order(old(nodes).items()),
        in_path_order(final(nodes).items()),
        children_of(old(nodes).items(), dir.key(), true).len() == 0 ==> r is None && *final(nodes)
            == *old(nodes),
        children_of(old(nodes).items(), dir.key(), true).len() > 0 ==> {
            &&& r == Some(rehashed_node(old(nodes).items(), infos@, dir.key()).hash)
            &&& final(nodes)@ == old(nodes)@.insert(
                dir.key(),
                (
                    if old(nodes)@.contains_key(dir.key()) {
                        old(nodes)@[dir.key()].0
                    } else {
                        dir@
                    },
                    rehashed_node(old(nodes).items(), infos@, dir.key()),
                ),
            )
        },
{
    let children = select_children(nodes, dir, true);
    assert(borrowed_items(children@).len() == children@.len());
    if children.len() == 0 {
        return None;
    }
    let hash = hash_directory(&children);
    let size = sum_sizes(&children);
    let node = FileNode::of_dir(hash, size, lookup_info(infos, dir));
    nodes.insert(dir.clone(), node);
    Some(hash)
}

/// `after` is `before` with every directory brought up to date with the files
/// directly in it.
pub open spec fn rehashed(
    before: Items,
    infos: Map<PathKey, (Seq<u8>, DirInfo)>,
    after: Items,
) -> bool {
    forall|k: PathKey| #[trigger] up_to_date(before, infos, after, k)
}

/// One entry of `after`: a directory over files has the node that its files
/// call for, everything else is as it was.
pub open spec fn up_to_date(
    before: Items,
    infos: Map<PathKey, (Seq<u8>, DirInfo)>,
    after: Items,
    k: PathKey,
) -> bool {
    if children_of(after, k, true).len() > 0 {
        &&& items_map(after).contains_key(k)
        &&& items_map(after)[k].1 == rehashed_node(after, infos, k)
        &&& if items_map(before).contains_key(k) {
            items_map(after)[k].0 == items_map(before)[k].0
        } else {
            text_above(before, k, items_map(after)[k].0)
        }
    } else {
        same_at(before, after, k)
    }
}

/// Two maps agree on a key.
pub open spec fn same_at(a: Items, b: Items, k: PathKey) -> bool {
    &&& items_map(a).contains_key(k) <==> items_map(b).contains_key(k)
    &&& items_map(a).contains_key(k) ==> items_map(a)[k] == items_map(b)[k]
}

/// `k` is one of the directories from `from` on.
spec fn among(dirs: Seq<(Seq<u8>, ())>, from: int, k: PathKey) -> bool {
    exists|j: int| from <= j < dirs.len() && #[trigger] item_key(dirs[j]) == k
}

/// Bringing `dir` up to date leaves the directories behind it up to date.
proof fn lemma_rehash_step(
    before: Items,
    infos: Map<PathKey, (Seq<u8>, DirInfo)>,
    cur: Items,
    next: Items,
    dir: PathKey,
    item: (Seq<u8>, FileNode),
    k: PathKey,
)
    requires
        in_path_order(cur),
        in_path_order(next),
        items_map(next) == items_map(cur).insert(dir, item),
        k == dir || key_lt(dir, k),
        k == dir ==> children_of(cur, dir, true).len() > 0 && item.1 == rehashed_node(
            cur,
            infos,
            dir,
        ) && (if items_map(before).contains_key(dir) {
            item.0 == items_map(before)[dir].0
        } else {
            text_above(before, dir, item.0)
        }),
        k != dir ==> up_to_date(before, infos, cur, k),
    ensures
        up_to_date(before, infos, next, k),
{
    lemma_insert_before_keeps_children(cur, next, dir, item, k, true);
}

/// A directory over files in an up-to-date map held those files before.
proof fn lemma_files_were_there(
    before: Items,
    infos: Map<PathKey, (Seq<u8>, DirInfo)>,
    after: Items,
    dirs: Seq<(Seq<u8>, ())>,
    k: PathKey,
)
    requires
        in_path_order(before),
        in_path_order(after),
        forall|x: PathKey|
            #![trigger among(dirs, 0, x)]
            if among(dirs, 0, x) {
                up_to_date(before, infos, after, x)
            } else {
                same_at(before, after, x)
            },
        children_of(after, k, true).len() > 0,
    ensures
        holds_entry(before, k, true),
{
    broadcast use vstd::seq_lib::group_filter_ensures;

    let p = stands_in(k, true);
    let item = after.filter(p)[0];
    after.lemma_filter_contains_rev(p, item);
    assert(p(item) && after.contains(item));
    let y = choose|y: int| 0 <= y < after.len() && after[y] == item;
    lemma_key_index(after, y);
    let x = item_key(item);
    if among(dirs, 0, x) {
        assert(up_to_date(before, infos, after, x));
        assert(children_of(after, x, true).len() == 0);
    } else {
        assert(same_at(before, after, x));
    }
    let z = key_index(before, x);
    lemma_key_index(before, z);
    assert(before[z] == item);
    assert(is_child(item_key(before[z]), k));
}

/// Brings every directory over files up to date, the deeper ones first.
pub fn rehash_directories(nodes: &mut PathMap<FileNode>, infos: &PathMap<DirInfo>)
    ensures
        in_path_order(old(nodes).items()),
        in_path_order(final(nodes).items()),
        rehashed(old(nodes).items(), infos@, final(nodes).items()),
{
    let dirs = directories_of(nodes, true);
    let ghost before = nodes.items();
    let ghost list = dirs.items();
    let mut i: usize = dirs.len();
    proof {
        assert forall|k: PathKey| #[trigger] among(list, i as int, k) implies up_to_date(
            before,
            infos@,
            nodes.items(),
            k,
        ) by {}
    }
    while i > 0
        invariant
            list == dirs.items(),
            in_path_order(list),
            in_path_order(before),
            in_path_order(nodes.items()),
            i <= list.len(),
            forall|k: PathKey|
                dirs@.contains_key(k) ==> text_above(before, k, (#[trigger] dirs@[k]).0),
            forall|k: PathKey|
                #![trigger among(list, i as int, k)]
                if among(list, i as int, k) {
                    up_to_date(before, infos@, nodes.items(), k)
                } else {
                    same_at(before, nodes.items(), k)
                },
        decreases i,
    {
        i = i - 1;
        let dir = dirs.path_at(i);
        let ghost cur = nodes.items();
        let ghost key = dir.key();
        proof {
            assert(key == item_key(list[i as int]));
            lemma_key_index(list, i as int);
            assert(!among(list, i + 1, key)) by {
                if among(list, i + 1, key) {
                    let j = choose|j: int| i + 1 <= j < list.len() && #[trigger] item_key(list[j]) == key;
                    lemma_key_total(key, key);
                }
            }
            assert(same_at(before, cur, key));
            assert(text_above(before, key, dirs@[key].0));
        }
        rehash_directory(nodes, dir, infos);
        proof {
            let next = nodes.items();
            assert forall|k: PathKey| #![trigger among(list, i as int, k)]
                if among(list, i as int, k) {
                    up_to_date(before, infos@, next, k)
                } else {
                    same_at(before, next, k)
                } by {
                assert(among(list, i + 1, k) ==> among(list, i as int, k));
                assert(among(list, i as int, k) <==> among(list, i + 1, k) || k == key) by {
                    if k == key {
                        assert(item_key(list[i as int]) == k);
                    }
                    if among(list, i as int, k) {
                        let j = choose|j: int| i <= j < list.len() && #[trigger] item_key(list[j]) == k;
                        if j > i {
                            assert(among(list, i + 1, k));
                        }
                    }
                }
                assert(among(list, i + 1, k) ==> key_lt(key, k)) by {
                    if among(list, i + 1, k) {
                        let j = choose|j: int|
                            i + 1 <= j < list.len() && #[trigger] item_key(list[j]) == k;
                        assert(key_lt(item_key(list[i as int]), item_key(list[j])));
                    }
                }
                if children_of(cur, key, true).len() > 0 {
                    let item = items_map(next)[key];
                    assert(items_map(next) =~= items_map(cur).insert(key, item));
                    if among(list, i as int, k) {
                        lemma_rehash_step(before, infos@, cur, next, key, item, k);
                    }
                }
            }
        }
    }
    proof {
        let after = nodes.items();
        assert forall|k: PathKey| #[trigger] up_to_date(before, infos@, after, k) by {
            assert(among(list, i as int, k) == among(list, 0, k));
            if !among(list, 0, k) {
                assert(same_at(before, after, k));
                if children_of(after, k, true).len() > 0 {
                    lemma_files_were_there(before, infos@, after, list, k);
                    assert(dirs@.contains_key(k));
                    let j = key_index(list, k);
                    assert(item_key(list[j]) == k);
                    assert(among(list, 0, k));
                }
            }
        }
    }
}

/// The node of a directory of a tree, over the files and the directories that
/// stand directly in it, in path order; there may be none.
pub open spec fn tree_node(
    infos: Map<PathKey, (Seq<u8>, DirInfo)>,
    tree: Items,
    dir: PathKey,
) -> FileNode {
    listing_node(children_of(tree, dir, false), info_of(infos, dir))
}

/// One entry of a tree: a directory has the node that its entries call for,
/// everything else is as it was found.
pub open spec fn grown_at(
    files: Items,
    dirs: Map<PathKey, (Seq<u8>, ())>,
    infos: Map<PathKey, (Seq<u8>, DirInfo)>,
    tree: Items,
    k: PathKey,
) -> bool {
    if dirs.contains_key(k) {
        &&& items_map(tree).contains_key(k)
        &&& items_map(tree)[k].1 == tree_node(infos, tree, k)
        &&& items_map(tree)[k].0 == if items_map(files).contains_key(k) {
            items_map(files)[k].0
        } else {
            dirs[k].0
        }
    } else {
        same_at(files, tree, k)
    }
}

/// `tree` is `files` with a node for every one of the directories.
pub open spec fn grown(
    files: Items,
    dirs: Map<PathKey, (Seq<u8>, ())>,
    infos: Map<PathKey, (Seq<u8>, DirInfo)>,
    tree: Items,
) -> bool {
    forall|k: PathKey| #[trigger] grown_at(files, dirs, infos, tree, k)
}

/// Giving `dir` its node leaves the directories behind it as they are.
proof fn lemma_grow_step(
    files: Items,
    dirs: Map<PathKey, (Seq<u8>, ())>,
    infos: Map<PathKey, (Seq<u8>, DirInfo)>,
    cur: Items,
    next: Items,
    dir: PathKey,
    item: (Seq<u8>, FileNode),
    k: PathKey,
)
    requires
        in_path_order(cur),
        in_path_order(next),
        items_map(next) == items_map(cur).insert(dir, item),
        dirs.contains_key(k),
        k == dir || key_lt(dir, k),
        k == dir ==> item.1 == tree_node(infos, cur, dir) && item.0 == (if items_map(
            files,
        ).contains_key(dir) {
            items_map(files)[dir].0
        } else {
            dirs[dir].0
        }),
        k != dir ==> grown_at(files, dirs, infos, cur, k),
    ensures
        grown_at(files, dirs, infos, next, k),
{
    lemma_insert_before_keeps_children(cur, next, dir, item, k, false);
}

/// Builds the tree over the files and directories that were found: every
/// directory gets its checksum, the deeper ones first. For each the callback
/// hears the next of `steps`, after the first of them.
pub fn grow_tree<F: Fn(usize, usize)>(
    files: PathMap<FileNode>,
    dirs: &PathMap<()>,
    infos: &PathMap<DirInfo>,
    steps: &Vec<usize>,
    progress_callback: &Option<F>,
) -> (r: PathMap<FileNode>)
    requires
        steps@ == steps_for(dirs.items().len()),
        forall|i: int| 0 <= i < steps@.len() ==> #[trigger] steps@[i] <= 100,
        progress_callback matches Some(cb) ==> forall|p: usize|
            p <= 100 ==> #[trigger] call_requires(cb, (p, 100usize)),
    ensures
        in_path_order(files.items()),
        in_path_order(r.items()),
        grown(files.items(), dirs@, infos@, r.items()),
{
    let _ = files.len();
    let ghost before = files.items();
    let ghost list = dirs.items();
    let total = dirs.len();
    let mut tree = clone_tree(&files);
    let mut i: usize = total;
    while i > 0
        invariant
            steps@.len() == total + 3,
            forall|j: int| 0 <= j < steps@.len() ==> #[trigger] steps@[j] <= 100,
            progress_callback matches Some(cb) ==> forall|p: usize|
                p <= 100 ==> #[trigger] call_requires(cb, (p, 100usize)),
            list == dirs.items(),
            in_path_order(list),
            in_path_order(before),
            in_path_order(tree.items()),
            total == list.len(),
            i <= total,
            forall|k: PathKey|
                #![trigger among(list, i as int, k)]
                if among(list, i as int, k) {
                    grown_at(before, dirs@, infos@, tree.items(), k)
                } else {
                    same_at(before, tree.items(), k)
                },
        decreases i,
    {
        i = i - 1;
        if let Some(cb) = progress_callback {
            cb(steps[total - i], 100);
        }
        let dir = dirs.path_at(i);
        let ghost cur = tree.items();
        let ghost key = dir.key();
        proof {
            assert(key == item_key(list[i as int]));
            lemma_key_index(list, i as int);
            assert(dirs@.contains_key(key));
            assert(!among(list, i + 1, key)) by {
                if among(list, i + 1, key) {
                    let j = choose|j: int| i + 1 <= j < list.len() && #[trigger] item_key(list[j]) == key;
                    lemma_key_total(key, key);
                }
            }
            assert(same_at(before, cur, key));
        }
        let children = select_children(&tree, dir, false);
        let hash = hash_directory(&children);
        let size = sum_sizes(&children);
        let node = FileNode::of_dir(hash, size, lookup_info(infos, dir));
        tree.insert(dir.clone(), node);
        proof {
            let next = tree.items();
            let item = items_map(next)[key];
            assert(items_map(next) =~= items_map(cur).insert(key, item));
            assert forall|k: PathKey| #![trigger among(list, i as int, k)]
                if among(list, i as int, k) {
                    grown_at(before, dirs@, infos@, next, k)
                } else {
                    same_at(before, next, k)
                } by {
                assert(among(list, i + 1, k) ==> among(list, i as int, k));
                assert(among(list, i as int, k) <==> among(list, i + 1, k) || k == key) by {
                    if k == key {
                        assert(item_key(list[i as int]) == k);
                    }
                    if among(list, i as int, k) {
                        let j = choose|j: int| i <= j < list.len() && #[trigger] item_key(list[j]) == k;
                        if j > i {
                            assert(among(list, i + 1, k));
                        }
                    }
                }
                if among(list, i as int, k) {
                    let j = choose|j: int| i <= j < list.len() && #[trigger] item_key(list[j]) == k;
                    lemma_key_index(list, j);
                    assert(dirs@.contains_key(k));
                    if k != key {
                        assert(key_lt(item_key(list[i as int]), item_key(list[j])));
                    }
                    lemma_grow_step(before, dirs@, infos@, cur, next, key, item, k);
                }
            }
        }
    }
    proof {
        let after = tree.items();
        assert forall|k: PathKey| #[trigger] grown_at(before, dirs@, infos@, after, k) by {
            assert(among(list, i as int, k) == among(list, 0, k));
            if dirs@.contains_key(k) {
                let j = key_index(list, k);
                assert(item_key(list[j]) == k);
                assert(among(list, 0, k));
            } else if among(list, 0, k) {
                let j = choose|j: int| 0 <= j < list.len() && #[trigger] item_key(list[j]) == k;
                lemma_key_index(list, j);
            }
        }
    }
    tree
}

/// Copies nodes.
pub(crate) fn clone_tree(nodes: &PathMap<FileNode>) -> (r: PathMap<FileNode>)
    ensures
        r.items() == nodes.items(),
{
    let r = nodes.clone();
    assert(r.items() =~= nodes.items()) by {
        assert forall|j: int| 0 <= j < nodes.items().len() implies r.items()[j]
            == nodes.items()[j] by {
            assert(cloned(nodes.items()[j].1, r.items()[j].1));
        }
    }
    r
}

/// What is listed of a directory stands in it, as it is held.
pub proof fn lemma_listed_child(items: Items, dir: PathKey, i: int)
    requires
        in_path_order(items),
        0 <= i < children_of(items, dir, false).len(),
    ensures
        ({
            let item = children_of(items, dir, false)[i];
            &&& is_child(item_key(item), dir)
            &&& items_map(items).contains_key(item_key(item))
            &&& items_map(items)[item_key(item)] == item
        }),
{
    broadcast use vstd::seq_lib::group_filter_ensures;

    let p = stands_in(dir, false);
    let item = items.filter(p)[i];
    assert(items.filter(p).contains(item));
    items.lemma_filter_contains_rev(p, item);
    let j = choose|j: int| 0 <= j < items.len() && items[j] == item;
    lemma_key_index(items, j);
}

/// What stands in a directory is listed.
pub proof fn lemma_child_listed(items: Items, dir: PathKey, k: PathKey)
    requires
        in_path_order(items),
        items_map(items).contains_key(k),
        is_child(k, dir),
    ensures
        exists|j: int|
            0 <= j < children_of(items, dir, false).len() && item_key(
                #[trigger] children_of(items, dir, false)[j],
            ) == k,
{
    let p = stands_in(dir, false);
    let z = key_index(items, k);
    assert(p(items[z]));
    items.lemma_filter_contains(p, z);
    let j = choose|j: int| 0 <= j < items.filter(p).len() && items.filter(p)[j] == items[z];
    assert(item_key(children_of(items, dir, false)[j]) == k);
}

} // verus!
