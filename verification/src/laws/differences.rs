//! What a comparison tells, field by field.
use vstd::prelude::*;
use crate::compare::{
    comparison_texts, nearest, newer_line, newer_lines, removed_lines, scope_text, shared_root,
    upward,
};
use crate::diff::{compares, is_diff_of, named_if, part_names, tells_of, DiffNode, DiffStatus};
use crate::digest::xxh3_64;
use crate::node::{held_size, listing_bytes, DirInfo, FileNode, Items};
use crate::path::{components, has_parent, PathKey};
use crate::path_map::{in_path_order, item_key, items_map};
use crate::snapshot::{is_merge_of, overlaid, Snapshot};
use crate::text::{joined, lossy_utf8};
use crate::tree::{children_of, lemma_filter_ordered, rehashed, stands_in, up_to_date};

verus! {

/// The status of a path that is in both snapshots says exactly this: contents
/// differ; or contents are the same and mode, user, group, extended attributes
/// or security context differ; or all of these are the same. A path that is in
/// one snapshot only was added or removed.
pub proof fn law_status_tells_what_differs(
    diffs: Seq<DiffNode>,
    a: Map<PathKey, (Seq<u8>, FileNode)>,
    b: Map<PathKey, (Seq<u8>, FileNode)>,
    i: int,
)
    requires
        is_diff_of(diffs, a, b),
        0 <= i < diffs.len(),
    ensures
        ({
            let k = diffs[i].path.key();
            let x = a[k].1;
            let y = b[k].1;
            let status = diffs[i].status;
            let same_permissions = x.mode == y.mode && x.uid == y.uid && x.gid == y.gid
                && x.xattrs_hash == y.xattrs_hash && (match (x.lsm_context, y.lsm_context) {
                (None, None) => true,
                (Some(s), Some(t)) => s@ == t@,
                _ => false,
            });
            &&& status == DiffStatus::Added <==> !a.contains_key(k)
            &&& status == DiffStatus::Removed <==> !b.contains_key(k)
            &&& a.contains_key(k) && b.contains_key(k) ==> {
                &&& status == DiffStatus::Modified <==> x.hash != y.hash
                &&& status == DiffStatus::PermChanged <==> x.hash == y.hash && !same_permissions
                &&& status == DiffStatus::Unchanged <==> x.hash == y.hash && same_permissions
            }
            &&& a.contains_key(k) ==> diffs[i].old_node == Some(x) && diffs[i].path@ == a[k].0
            &&& !a.contains_key(k) ==> diffs[i].old_node is None && diffs[i].path@ == b[k].0
            &&& b.contains_key(k) ==> diffs[i].new_node == Some(y) && diffs[i].is_dir == y.is_dir
                && diffs[i].change_time == Some(y.ctime)
            &&& !b.contains_key(k) ==> diffs[i].new_node is None && diffs[i].is_dir == x.is_dir
                && diffs[i].change_time == Some(x.ctime)
        }),
{
    assert(compares(diffs[i], a, b));
}

/// A path of both snapshots that gained or lost the right to run as its owner or
/// its group is never unchanged.
pub proof fn law_gained_rights_are_a_difference(
    diffs: Seq<DiffNode>,
    a: Map<PathKey, (Seq<u8>, FileNode)>,
    b: Map<PathKey, (Seq<u8>, FileNode)>,
    i: int,
)
    requires
        is_diff_of(diffs, a, b),
        0 <= i < diffs.len(),
        a.contains_key(diffs[i].path.key()),
        b.contains_key(diffs[i].path.key()),
        a[diffs[i].path.key()].1.mode & 0o4000 != b[diffs[i].path.key()].1.mode & 0o4000
            || a[diffs[i].path.key()].1.mode & 0o2000 != b[diffs[i].path.key()].1.mode & 0o2000,
    ensures
        diffs[i].status == DiffStatus::Modified || diffs[i].status == DiffStatus::PermChanged,
{
    law_status_tells_what_differs(diffs, a, b, i);
}

/// Every path of either snapshot is told of, once.
pub proof fn law_every_path_is_told_of_once(
    diffs: Seq<DiffNode>,
    a: Map<PathKey, (Seq<u8>, FileNode)>,
    b: Map<PathKey, (Seq<u8>, FileNode)>,
    k: PathKey,
)
    requires
        is_diff_of(diffs, a, b),
    ensures
        a.contains_key(k) || b.contains_key(k) <==> exists|i: int|
            0 <= i < diffs.len() && (#[trigger] diffs[i]).path.key() == k,
        forall|i: int, j: int|
            0 <= i < diffs.len() && 0 <= j < diffs.len() && (#[trigger] diffs[i]).path.key() == (
            #[trigger] diffs[j]).path.key() ==> i == j,
{
    assert(tells_of(diffs, k) <==> a.contains_key(k) || b.contains_key(k));
    assert forall|i: int, j: int|
        0 <= i < diffs.len() && 0 <= j < diffs.len() && (#[trigger] diffs[i]).path.key() == (
        #[trigger] diffs[j]).path.key() implies i == j by {
        crate::path::lemma_key_total(diffs[i].path.key(), diffs[j].path.key());
    }
}

/// Each part is named where it differs and only there.
pub proof fn law_parts_name_what_differs(a: FileNode, b: FileNode)
    ensures
        part_names(a, b).contains("content"@) <==> a.hash != b.hash,
        part_names(a, b).contains("mode"@) <==> a.mode != b.mode,
        part_names(a, b).contains("uid"@) <==> a.uid != b.uid,
        part_names(a, b).contains("gid"@) <==> a.gid != b.gid,
        part_names(a, b).contains("nlink"@) <==> a.nlink != b.nlink,
        part_names(a, b).contains("mtime"@) <==> a.mtime != b.mtime,
        part_names(a, b).contains("xattrs"@) <==> a.xattrs_hash != b.xattrs_hash,
        part_names(a, b).contains("flags"@) <==> a.flags != b.flags,
        part_names(a, b).len() == (if a.hash != b.hash { 1int } else { 0 }) + (if a.mode != b.mode {
            1int
        } else {
            0
        }) + (if a.uid != b.uid { 1int } else { 0 }) + (if a.gid != b.gid { 1int } else { 0 }) + (
        if a.nlink != b.nlink { 1int } else { 0 }) + (if a.mtime != b.mtime { 1int } else { 0 }) + (
        if a.xattrs_hash != b.xattrs_hash { 1int } else { 0 }) + (if a.flags != b.flags {
            1int
        } else {
            0
        }),
{
    lemma_part_names_differ();
    let p0 = Seq::<Seq<char>>::empty();
    let p1 = p0 + named_if(a.hash != b.hash, "content"@);
    let p2 = p1 + named_if(a.mode != b.mode, "mode"@);
    let p3 = p2 + named_if(a.uid != b.uid, "uid"@);
    let p4 = p3 + named_if(a.gid != b.gid, "gid"@);
    let p5 = p4 + named_if(a.nlink != b.nlink, "nlink"@);
    let p6 = p5 + named_if(a.mtime != b.mtime, "mtime"@);
    let p7 = p6 + named_if(a.xattrs_hash != b.xattrs_hash, "xattrs"@);
    let p8 = p7 + named_if(a.flags != b.flags, "flags"@);
    lemma_named(p0, a.hash != b.hash, "content"@);
    lemma_named(p1, a.mode != b.mode, "mode"@);
    lemma_named(p2, a.uid != b.uid, "uid"@);
    lemma_named(p3, a.gid != b.gid, "gid"@);
    lemma_named(p4, a.nlink != b.nlink, "nlink"@);
    lemma_named(p5, a.mtime != b.mtime, "mtime"@);
    lemma_named(p6, a.xattrs_hash != b.xattrs_hash, "xattrs"@);
    lemma_named(p7, a.flags != b.flags, "flags"@);
    assert(p1 =~= named_if(a.hash != b.hash, "content"@));
    assert(p8 == part_names(a, b));
}

proof fn lemma_part_names_differ()
    ensures
        "content"@ != "mode"@ && "content"@ != "uid"@ && "content"@ != "gid"@,
        "content"@ != "nlink"@ && "content"@ != "mtime"@ && "content"@ != "xattrs"@,
        "content"@ != "flags"@ && "mode"@ != "uid"@ && "mode"@ != "gid"@ && "mode"@ != "nlink"@,
        "mode"@ != "mtime"@ && "mode"@ != "xattrs"@ && "mode"@ != "flags"@ && "uid"@ != "gid"@,
        "uid"@ != "nlink"@ && "uid"@ != "mtime"@ && "uid"@ != "xattrs"@ && "uid"@ != "flags"@,
        "gid"@ != "nlink"@ && "gid"@ != "mtime"@ && "gid"@ != "xattrs"@ && "gid"@ != "flags"@,
        "nlink"@ != "mtime"@ && "nlink"@ != "xattrs"@ && "nlink"@ != "flags"@,
        "mtime"@ != "xattrs"@ && "mtime"@ != "flags"@ && "xattrs"@ != "flags"@,
{
    reveal_strlit("content");
    reveal_strlit("mode");
    reveal_strlit("uid");
    reveal_strlit("gid");
    reveal_strlit("nlink");
    reveal_strlit("mtime");
    reveal_strlit("xattrs");
    reveal_strlit("flags");
    assert("content"@[0] == 'c' && "mode"@[0] == 'm' && "uid"@[0] == 'u' && "gid"@[0] == 'g');
    assert("nlink"@[0] == 'n' && "mtime"@[0] == 'm' && "xattrs"@[0] == 'x' && "flags"@[0] == 'f');
    assert("mode"@[1] == 'o' && "mtime"@[1] == 't');
}

/// A list with one more name, or not.
pub proof fn lemma_named(list: Seq<Seq<char>>, named: bool, text: Seq<char>)
    ensures
        (list + named_if(named, text)).len() == list.len() + if named {
            1int
        } else {
            0
        },
        forall|x: Seq<char>| #[trigger]
            (list + named_if(named, text)).contains(x) <==> list.contains(x) || (named && x == text),
{
    let more = list + named_if(named, text);
    assert forall|x: Seq<char>| #[trigger] more.contains(x) <==> list.contains(x) || (named && x
        == text) by {
        if list.contains(x) {
            let i = choose|i: int| 0 <= i < list.len() && list[i] == x;
            assert(more[i] == x);
        }
        if named {
            assert(more[list.len() as int] == text);
        }
    }
}

proof fn lemma_line_stays(
    items: Items,
    old_nodes: Map<PathKey, (Seq<u8>, FileNode)>,
    scope: PathKey,
    i: int,
    line: Seq<char>,
)
    requires
        0 <= i < items.len(),
        newer_line(items[i], old_nodes, scope).contains(line),
    ensures
        newer_lines(items, old_nodes, scope).contains(line),
    decreases items.len(),
{
    let rest = items.drop_last();
    let before = newer_lines(rest, old_nodes, scope);
    let last = newer_line(items.last(), old_nodes, scope);
    let all = newer_lines(items, old_nodes, scope);
    if i == items.len() - 1 {
        let j = choose|j: int| 0 <= j < last.len() && last[j] == line;
        assert(all[before.len() + j] == line);
    } else {
        lemma_line_stays(rest, old_nodes, scope, i, line);
        let j = choose|j: int| 0 <= j < before.len() && before[j] == line;
        assert(all[j] == line);
    }
}

/// The log of a comparison has a line for every path in scope that was added,
/// and for every one of which contents, mode, user, group, links, modification
/// time, extended attributes or flags differ.
pub proof fn law_log_tells_what_is_new(
    items: Items,
    old_nodes: Map<PathKey, (Seq<u8>, FileNode)>,
    scope: PathKey,
    i: int,
)
    requires
        0 <= i < items.len(),
        scope.is_prefix_of(item_key(items[i])),
    ensures
        ({
            let k = item_key(items[i]);
            let x = old_nodes[k].1;
            let y = items[i].1;
            let lines = newer_lines(items, old_nodes, scope);
            &&& !old_nodes.contains_key(k) ==> lines.contains("Added: "@ + lossy_utf8(items[i].0))
            &&& old_nodes.contains_key(k) && (x.hash != y.hash || x.mode != y.mode || x.uid != y.uid
                || x.gid != y.gid || x.nlink != y.nlink || x.mtime != y.mtime || x.xattrs_hash
                != y.xattrs_hash || x.flags != y.flags) ==> lines.contains(
                "Modified ("@ + joined(part_names(x, y), "+"@) + "): "@ + lossy_utf8(items[i].0),
            )
        }),
{
    let k = item_key(items[i]);
    let x = old_nodes[k].1;
    let y = items[i].1;
    law_parts_name_what_differs(x, y);
    let line = newer_line(items[i], old_nodes, scope);
    if !old_nodes.contains_key(k) {
        assert(line[0] == "Added: "@ + lossy_utf8(items[i].0));
        lemma_line_stays(items, old_nodes, scope, i, line[0]);
    } else if part_names(x, y).len() > 0 {
        assert(line[0] == "Modified ("@ + joined(part_names(x, y), "+"@) + "): "@ + lossy_utf8(
            items[i].0,
        ));
        lemma_line_stays(items, old_nodes, scope, i, line[0]);
    }
}

/// The log says nothing about what is not new, and nothing of what lies outside
/// of its scope: there is a line for each path that differs and none besides.
pub proof fn law_log_has_one_line_for_each_change(
    items: Items,
    item: (Seq<u8>, FileNode),
    old_nodes: Map<PathKey, (Seq<u8>, FileNode)>,
    new_nodes: Map<PathKey, (Seq<u8>, FileNode)>,
    scope: PathKey,
)
    ensures
        ({
            let k = item_key(item);
            let x = old_nodes[k].1;
            let y = item.1;
            let differs = !old_nodes.contains_key(k) || x.hash != y.hash || x.mode != y.mode
                || x.uid != y.uid || x.gid != y.gid || x.nlink != y.nlink || x.mtime != y.mtime
                || x.xattrs_hash != y.xattrs_hash || x.flags != y.flags;
            newer_lines(items.push(item), old_nodes, scope).len() == newer_lines(
                items,
                old_nodes,
                scope,
            ).len() + if scope.is_prefix_of(k) && differs {
                1int
            } else {
                0
            }
        }),
        removed_lines(items.push(item), new_nodes, scope) == if scope.is_prefix_of(item_key(item))
            && !new_nodes.contains_key(item_key(item)) {
            removed_lines(items, new_nodes, scope).push("Removed: "@ + lossy_utf8(item.0))
        } else {
            removed_lines(items, new_nodes, scope)
        },
        newer_lines(Seq::empty(), old_nodes, scope).len() == 0,
        removed_lines(Seq::empty(), new_nodes, scope).len() == 0,
{
    assert(items.push(item).drop_last() =~= items);
    law_parts_name_what_differs(old_nodes[item_key(item)].1, item.1);
}

/// What is compared is the narrower of the two roots, where one lies in the
/// other.
pub proof fn law_scope_is_the_narrower_root(old_root: Seq<u8>, new_root: Seq<u8>)
    ensures
        components(old_root).is_prefix_of(components(new_root)) ==> scope_text(old_root, new_root)
            == new_root,
        components(new_root).is_prefix_of(components(old_root)) && components(new_root)
            != components(old_root) ==> scope_text(old_root, new_root) == old_root,
        !components(old_root).is_prefix_of(components(new_root)) && !components(
            new_root,
        ).is_prefix_of(components(old_root)) ==> scope_text(old_root, new_root) == new_root,
        components(old_root).is_prefix_of(components(new_root)) ==> shared_root(old_root, new_root)
            == old_root,
        components(new_root).is_prefix_of(components(old_root)) && components(new_root)
            != components(old_root) ==> shared_root(old_root, new_root) == new_root,
{
    let a = components(old_root);
    let b = components(new_root);
    if a.is_prefix_of(b) && b.is_prefix_of(a) {
        assert(a =~= b);
    }
}

/// The files of a list that stand directly in a directory.
pub open spec fn lists_files_in(listing: Items, nodes: Items, dir: PathKey) -> bool {
    &&& in_path_order(listing)
    &&& forall|item: (Seq<u8>, FileNode)| #[trigger]
        listing.contains(item) <==> nodes.contains(item) && !item.1.is_dir && item_key(item).len()
            > 0 && item_key(item).last() != seq![47u8] && item_key(item).drop_last() == dir
}

/// The files directly in a directory are those that are listed of it.
pub proof fn lemma_lists_files(nodes: Items, dir: PathKey)
    requires
        in_path_order(nodes),
    ensures
        lists_files_in(children_of(nodes, dir, true), nodes, dir),
{
    broadcast use vstd::seq_lib::group_filter_ensures;

    let p = stands_in(dir, true);
    let listing = children_of(nodes, dir, true);
    lemma_filter_ordered(nodes, p);
    assert forall|item: (Seq<u8>, FileNode)| #[trigger]
        listing.contains(item) <==> nodes.contains(item) && !item.1.is_dir && item_key(item).len()
            > 0 && item_key(item).last() != seq![47u8] && item_key(item).drop_last() == dir by {
        if listing.contains(item) {
            nodes.lemma_filter_contains_rev(p, item);
            assert(p(item));
        }
        if nodes.contains(item) && p(item) {
            let z = choose|z: int| 0 <= z < nodes.len() && nodes[z] == item;
            nodes.lemma_filter_contains(p, z);
        }
    }
}

/// After a merge a directory with a file directly in it has a checksum over the
/// files directly in it, and every path has the node of the newer snapshot or,
/// where that has none, the node of the older one, unless it is such a
/// directory.
pub proof fn law_merge_takes_directories_anew(
    after: Snapshot,
    base: Snapshot,
    new: Snapshot,
    infos: Map<PathKey, (Seq<u8>, DirInfo)>,
    k: PathKey,
)
    requires
        is_merge_of(after, base, new, infos),
    ensures
        after.timestamp == new.timestamp,
        after.version == base.version,
        after.root@ == base.root@,
        exists|listing: Items| #[trigger]
            lists_files_in(listing, after.nodes.items(), k) && if listing.len() > 0 {
                &&& after.nodes@.contains_key(k)
                &&& after.nodes@[k].1.is_dir
                &&& after.nodes@[k].1.hash == xxh3_64(listing_bytes(listing))
                &&& after.nodes@[k].1.size == held_size(listing)
            } else {
                &&& after.nodes@.contains_key(k) <==> base.nodes@.contains_key(k)
                    || new.nodes@.contains_key(k)
                &&& new.nodes@.contains_key(k) ==> after.nodes@[k].1 == new.nodes@[k].1
                &&& base.nodes@.contains_key(k) && !new.nodes@.contains_key(k)
                    ==> after.nodes@[k].1 == base.nodes@[k].1
            },
{
    let items = choose|items: Items|
        #![trigger rehashed(items, infos, after.nodes.items())]
        in_path_order(items) && items_map(items) == overlaid(base.nodes@, new.nodes@) && rehashed(
            items,
            infos,
            after.nodes.items(),
        );
    assert(up_to_date(items, infos, after.nodes.items(), k));
    lemma_lists_files(after.nodes.items(), k);
}

/// A path that starts at the root and one that does not have no directory in
/// common: the older root stands for both.
pub proof fn law_nothing_in_common_keeps_the_older_root(old_root: Seq<u8>, new_root: Seq<u8>)
    requires
        components(old_root).len() > 0,
        components(new_root).len() > 0,
        (components(old_root)[0] == seq![47u8]) != (components(new_root)[0] == seq![47u8]),
    ensures
        shared_root(old_root, new_root) == old_root,
{
    let a = components(old_root);
    let b = components(new_root);
    lemma_apart(b, a);
}

/// The paths above one that starts at the root do so too; those above one that
/// does not are empty or do not.
proof fn lemma_upward(key: PathKey, k: PathKey)
    requires
        upward(key).contains(k),
    ensures
        key.len() > 0 && key[0] == seq![47u8] ==> k.len() > 0 && k[0] == seq![47u8],
        !(key.len() > 0 && key[0] == seq![47u8]) ==> !(k.len() > 0 && k[0] == seq![47u8]),
    decreases key.len(),
{
    let i = choose|i: int| 0 <= i < upward(key).len() && upward(key)[i] == k;
    if has_parent(key) && i > 0 {
        assert(upward(key.drop_last())[i - 1] == k);
        lemma_upward(key.drop_last(), k);
    }
}

proof fn lemma_apart(key: PathKey, other: PathKey)
    requires
        (key.len() > 0 && key[0] == seq![47u8]) != (other.len() > 0 && other[0] == seq![47u8]),
    ensures
        nearest(key, upward(other)) is None,
    decreases key.len(),
{
    if upward(other).contains(key) {
        lemma_upward(other, key);
    }
    if has_parent(key) {
        lemma_apart(key.drop_last(), other);
    }
}

/// A path of both snapshots is written after a merge as the older one has it,
/// and one of a single snapshot as that has it.
pub proof fn law_merge_keeps_the_older_text(
    after: Snapshot,
    base: Snapshot,
    new: Snapshot,
    infos: Map<PathKey, (Seq<u8>, DirInfo)>,
    k: PathKey,
)
    requires
        is_merge_of(after, base, new, infos),
    ensures
        base.nodes@.contains_key(k) ==> after.nodes@.contains_key(k) && after.nodes@[k].0
            == base.nodes@[k].0,
        new.nodes@.contains_key(k) && !base.nodes@.contains_key(k) ==> after.nodes@.contains_key(k)
            && after.nodes@[k].0 == new.nodes@[k].0,
{
    let items = choose|items: Items|
        #![trigger rehashed(items, infos, after.nodes.items())]
        in_path_order(items) && items_map(items) == overlaid(base.nodes@, new.nodes@) && rehashed(
            items,
            infos,
            after.nodes.items(),
        );
    assert(up_to_date(items, infos, after.nodes.items(), k));
}

/// The log of a comparison tells of what is new first, then of what is gone,
/// within the narrower root: that of the newer snapshot, unless the older one
/// lies below it.
pub proof fn law_log_tells_the_new_then_the_gone(older: Snapshot, newer: Snapshot)
    ensures
        ({
            let a = components(older.root@);
            let b = components(newer.root@);
            let scope = if b.is_prefix_of(a) {
                a
            } else {
                b
            };
            comparison_texts(older, newer) == newer_lines(
                newer.nodes.items(),
                older.nodes@,
                scope,
            ) + removed_lines(older.nodes.items(), newer.nodes@, scope)
        }),
{
    let a = components(older.root@);
    let b = components(newer.root@);
    if a.is_prefix_of(b) && b.is_prefix_of(a) {
        assert(a =~= b);
    }
}

} // verus!
