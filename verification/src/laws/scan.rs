//! What a snapshot of a tree holds, told by what the walk over the tree found.
use vstd::prelude::*;
use vstd::bytes::spec_u64_to_le_bytes;
use vstd::utf8::encode_utf8;
use crate::digest::xxh3_64;
use crate::laws::{lemma_walk_dirs, taken, wanted_dir};
use crate::node::{held_size, listing_bytes, total_size, DirInfo, FileNode, Items};
use crate::path::{components, PathKey};
use crate::path_map::{in_path_order, item_key, items_map, lemma_key_index};
use crate::snapshot::{
    has_dirs, is_snapshot_of, is_taken, limit_bytes, text_paths, walk_dirs, walk_files, EntryKind,
    Snapshot, WalkEntry,
};
use crate::text::lossy_utf8;
use crate::tree::{
    children_of, grown, grown_at, holds_entry, lemma_filter_ordered, rehashed_node, stands_in,
    tree_node,
};

verus! {

/// What goes into the checksum of a directory, entry by entry: the eight bytes
/// of the entry's own checksum, the lowest first, then the text of its path.
pub proof fn law_listing_is_checksums_and_paths(items: Items, item: (Seq<u8>, FileNode))
    ensures
        listing_bytes(Seq::empty()) == Seq::<u8>::empty(),
        listing_bytes(items.push(item)) == listing_bytes(items) + spec_u64_to_le_bytes(item.1.hash)
            + encode_utf8(lossy_utf8(item.0)),
{
    assert(items.push(item).drop_last() =~= items);
    assert(listing_bytes(items.push(item)) =~= listing_bytes(items) + spec_u64_to_le_bytes(
        item.1.hash,
    ) + encode_utf8(lossy_utf8(item.0)));
}

/// The size of a directory is that of its entries added up, as far as 64 bits
/// hold it.
pub proof fn law_sizes_add_up(items: Items, item: (Seq<u8>, FileNode))
    ensures
        held_size(Seq::empty()) == 0,
        held_size(items.push(item)) == (held_size(items) + item.1.size) % 0x1_0000_0000_0000_0000,
{
    assert(items.push(item).drop_last() =~= items);
    assert(held_size(items) as int == total_size(items) as int % 0x1_0000_0000_0000_0000);
}

/// The wanted reading of a file that counts is the last one.
proof fn lemma_last_reading(walk: Seq<WalkEntry>, skip: Seq<Seq<u8>>, max_bytes: int, k: PathKey)
    requires
        walk_files(walk, skip, max_bytes).contains_key(k),
    ensures
        exists|i: int|
            {
                &&& 0 <= i < walk.len()
                &&& taken(#[trigger] walk[i], skip, max_bytes)
                &&& walk[i].path->0.key() == k
                &&& walk_files(walk, skip, max_bytes)[k].1 == crate::node::file_node_of(
                    walk[i].content->0.hash,
                    walk[i].content->0.stat,
                    walk[i].content->0.extras,
                )
                &&& forall|j: int|
                    i < j < walk.len() ==> !(taken(#[trigger] walk[j], skip, max_bytes)
                        && walk[j].path->0.key() == k)
            },
    decreases walk.len(),
{
    if walk.len() > 0 {
        let last = walk.len() - 1;
        let rest = walk.drop_last();
        if taken(walk[last], skip, max_bytes) && walk[last].path->0.key() == k {
        } else {
            lemma_last_reading(rest, skip, max_bytes, k);
            let files = walk_files(rest, skip, max_bytes);
            let i = choose|i: int|
                {
                    &&& 0 <= i < rest.len()
                    &&& taken(#[trigger] rest[i], skip, max_bytes)
                    &&& rest[i].path->0.key() == k
                    &&& files[k].1 == crate::node::file_node_of(
                        rest[i].content->0.hash,
                        rest[i].content->0.stat,
                        rest[i].content->0.extras,
                    )
                    &&& forall|j: int|
                        i < j < rest.len() ==> !(taken(#[trigger] rest[j], skip, max_bytes)
                            && rest[j].path->0.key() == k)
                };
            assert(walk[i] == rest[i]);
            assert forall|j: int| i < j < walk.len() implies !(taken(
                #[trigger] walk[j],
                skip,
                max_bytes,
            ) && walk[j].path->0.key() == k) by {
                if j < rest.len() {
                    assert(walk[j] == rest[j]);
                }
            }
        }
    }
}

proof fn lemma_taken_is_held(walk: Seq<WalkEntry>, skip: Seq<Seq<u8>>, max_bytes: int, i: int)
    requires
        0 <= i < walk.len(),
        taken(walk[i], skip, max_bytes),
    ensures
        walk_files(walk, skip, max_bytes).contains_key(walk[i].path->0.key()),
    decreases walk.len(),
{
    if i < walk.len() - 1 {
        lemma_taken_is_held(walk.drop_last(), skip, max_bytes, i);
    }
}

/// Every regular file of a walk that lies under no skipped directory, was read,
/// and has fewer bytes than the limit allows is in the snapshot.
pub proof fn law_every_file_below_the_limit_is_held(
    snapshot: Snapshot,
    root: Seq<u8>,
    walk: Seq<WalkEntry>,
    skip: Seq<Seq<u8>>,
    max_size_mb: u64,
    infos: Map<PathKey, (Seq<u8>, DirInfo)>,
    timestamp: i64,
    i: int,
)
    requires
        is_snapshot_of(
            snapshot,
            root,
            walk,
            skip,
            limit_bytes(max_size_mb),
            infos,
            timestamp,
        ),
        0 <= i < walk.len(),
        walk[i].kind == EntryKind::File,
        walk[i].path is Some,
        forall|j: int|
            0 <= j < skip.len() ==> !components(#[trigger] skip[j]).is_prefix_of(
                walk[i].path->0.key(),
            ),
        walk[i].content is Some,
        walk[i].len is Some,
        walk[i].len->0 < max_size_mb * 1048576,
    ensures
        snapshot.nodes@.contains_key(walk[i].path->0.key()),
{
    let max_bytes = limit_bytes(max_size_mb);
    let k = walk[i].path->0.key();
    let tree = snapshot.nodes.items();
    let (files, dirs) = choose|items: Items, dirs: Map<PathKey, (Seq<u8>, ())>|
        #![trigger grown(items, dirs, infos, tree)]
        in_path_order(items) && items_map(items) == walk_files(walk, skip, max_bytes) && has_dirs(
            dirs,
            walk_dirs(walk, skip, max_bytes),
            items,
        ) && grown(items, dirs, infos, tree);
    assert(taken(walk[i], skip, max_bytes));
    lemma_taken_is_held(walk, skip, max_bytes, i);
    assert(grown_at(files, dirs, infos, tree, k));
}

/// Every file in a snapshot was found by the walk as a regular file under no
/// skipped directory, with fewer bytes than the limit allows, and the node says
/// what was read of it last: checksum, size, owner, mode, times, links, extended
/// attributes, security context and flags.
pub proof fn law_every_file_held_was_read_below_the_limit(
    snapshot: Snapshot,
    root: Seq<u8>,
    walk: Seq<WalkEntry>,
    skip: Seq<Seq<u8>>,
    max_size_mb: u64,
    infos: Map<PathKey, (Seq<u8>, DirInfo)>,
    timestamp: i64,
    k: PathKey,
)
    requires
        is_snapshot_of(
            snapshot,
            root,
            walk,
            skip,
            limit_bytes(max_size_mb),
            infos,
            timestamp,
        ),
        snapshot.nodes@.contains_key(k),
        !snapshot.nodes@[k].1.is_dir,
    ensures
        exists|i: int|
            {
                let node = snapshot.nodes@[k].1;
                let content = walk[i].content->0;
                &&& 0 <= i < walk.len()
                &&& (#[trigger] walk[i]).kind == EntryKind::File
                &&& walk[i].path is Some
                &&& walk[i].path->0.key() == k
                &&& forall|j: int|
                    0 <= j < skip.len() ==> !components(#[trigger] skip[j]).is_prefix_of(k)
                &&& walk[i].len is Some
                &&& walk[i].len->0 < max_size_mb * 1048576
                &&& walk[i].content is Some
                &&& node.hash == content.hash
                &&& node.size == content.stat.len
                &&& node.uid == content.stat.uid
                &&& node.gid == content.stat.gid
                &&& node.mode == content.stat.mode
                &&& node.mtime == content.stat.mtime
                &&& node.atime == content.stat.atime
                &&& node.ctime == content.stat.ctime
                &&& node.nlink as int == if content.stat.nlink > 65535 {
                    65535
                } else {
                    content.stat.nlink as int
                }
                &&& node.xattrs_hash == content.extras.xattrs_hash
                &&& node.lsm_context == content.extras.lsm_context
                &&& node.flags == content.extras.flags
                &&& forall|j: int|
                    #![trigger walk[j]]
                    i < j < walk.len() && walk[j].kind == EntryKind::File && walk[j].path is Some
                        && walk[j].path->0.key() == k && walk[j].content is Some ==> walk[j].len
                        is None || walk[j].len->0 >= max_size_mb * 1048576
            },
{
    let max_bytes = limit_bytes(max_size_mb);
    let tree = snapshot.nodes.items();
    let (files, dirs) = choose|items: Items, dirs: Map<PathKey, (Seq<u8>, ())>|
        #![trigger grown(items, dirs, infos, tree)]
        in_path_order(items) && items_map(items) == walk_files(walk, skip, max_bytes) && has_dirs(
            dirs,
            walk_dirs(walk, skip, max_bytes),
            items,
        ) && grown(items, dirs, infos, tree);
    assert(grown_at(files, dirs, infos, tree, k));
    lemma_last_reading(walk, skip, max_bytes, k);
    let node = snapshot.nodes@[k].1;
    let i = choose|i: int|
        {
            &&& 0 <= i < walk.len()
            &&& taken(#[trigger] walk[i], skip, max_bytes)
            &&& walk[i].path->0.key() == k
            &&& walk_files(walk, skip, max_bytes)[k].1 == crate::node::file_node_of(
                walk[i].content->0.hash,
                walk[i].content->0.stat,
                walk[i].content->0.extras,
            )
            &&& forall|j: int|
                i < j < walk.len() ==> !(taken(#[trigger] walk[j], skip, max_bytes)
                    && walk[j].path->0.key() == k)
        };
    assert forall|j: int| 0 <= j < skip.len() implies !components(
        #[trigger] skip[j],
    ).is_prefix_of(k) by {}
    assert forall|j: int|
        #![trigger walk[j]]
        i < j < walk.len() && walk[j].kind == EntryKind::File && walk[j].path is Some
            && walk[j].path->0.key() == k && walk[j].content is Some implies walk[j].len is None
        || walk[j].len->0 >= max_size_mb * 1048576 by {
        assert(!taken(walk[j], skip, max_bytes));
    }
    assert(walk[i].kind == EntryKind::File);
}

/// The entries of a list that stand directly in a directory: each is one
/// component longer than the directory and begins with its components.
pub open spec fn lists_what_stands_in(listing: Items, nodes: Items, dir: PathKey) -> bool {
    &&& in_path_order(listing)
    &&& forall|item: (Seq<u8>, FileNode)| #[trigger]
        listing.contains(item) <==> nodes.contains(item) && item_key(item).len() > 0 && item_key(
            item,
        ).last() != seq![47u8] && item_key(item).drop_last() == dir
}

proof fn lemma_lists_children(nodes: Items, dir: PathKey)
    requires
        in_path_order(nodes),
    ensures
        lists_what_stands_in(children_of(nodes, dir, false), nodes, dir),
{
    broadcast use vstd::seq_lib::group_filter_ensures;

    let p = stands_in(dir, false);
    let listing = children_of(nodes, dir, false);
    lemma_filter_ordered(nodes, p);
    assert forall|item: (Seq<u8>, FileNode)| #[trigger]
        listing.contains(item) <==> nodes.contains(item) && item_key(item).len() > 0 && item_key(
            item,
        ).last() != seq![47u8] && item_key(item).drop_last() == dir by {
        if listing.contains(item) {
            nodes.lemma_filter_contains_rev(p, item);
            assert(p(item));
        }
        if nodes.contains(item) && p(item) {
            let z = choose|z: int| 0 <= z < nodes.len() && nodes[z] == item;
            nodes.lemma_filter_contains(p, z);
        }
    }
}

/// Every directory of a walk that lies under no skipped one has a node in the
/// snapshot, with a checksum over all that stands directly in it in the
/// snapshot, and with what the file system tells of it: zeros where it tells
/// nothing.
pub proof fn law_every_directory_walked_is_held(
    snapshot: Snapshot,
    root: Seq<u8>,
    walk: Seq<WalkEntry>,
    skip: Seq<Seq<u8>>,
    max_size_mb: u64,
    infos: Map<PathKey, (Seq<u8>, DirInfo)>,
    timestamp: i64,
    i: int,
)
    requires
        is_snapshot_of(
            snapshot,
            root,
            walk,
            skip,
            limit_bytes(max_size_mb),
            infos,
            timestamp,
        ),
        0 <= i < walk.len(),
        walk[i].kind == EntryKind::Dir,
        walk[i].path is Some,
        forall|j: int|
            0 <= j < skip.len() ==> !components(#[trigger] skip[j]).is_prefix_of(
                walk[i].path->0.key(),
            ),
    ensures
        ({
            let k = walk[i].path->0.key();
            let node = snapshot.nodes@[k].1;
            &&& snapshot.nodes@.contains_key(k)
            &&& node.is_dir
            &&& exists|listing: Items| #[trigger]
                lists_what_stands_in(listing, snapshot.nodes.items(), k) && node.hash == xxh3_64(
                    listing_bytes(listing),
                ) && node.size == held_size(listing)
            &&& infos.contains_key(k) && infos[k].1.stat is Some ==> {
                let stat = infos[k].1.stat->0;
                &&& node.uid == stat.uid
                &&& node.gid == stat.gid
                &&& node.mode == stat.mode
                &&& node.mtime == stat.mtime
                &&& node.atime == stat.atime
                &&& node.ctime == stat.ctime
                &&& node.nlink as int == if stat.nlink > 65535 {
                    65535
                } else {
                    stat.nlink as int
                }
            }
            &&& infos.contains_key(k) ==> {
                &&& node.xattrs_hash == infos[k].1.extras.xattrs_hash
                &&& node.lsm_context == infos[k].1.extras.lsm_context
                &&& node.flags == infos[k].1.extras.flags
            }
            &&& !infos.contains_key(k) || infos[k].1.stat is None ==> {
                &&& node.uid == 0
                &&& node.gid == 0
                &&& node.mode == 0
                &&& node.mtime == 0
                &&& node.nlink == 0
            }
        }),
{
    let max_bytes = limit_bytes(max_size_mb);
    let k = walk[i].path->0.key();
    let tree = snapshot.nodes.items();
    let (files, dirs) = choose|items: Items, dirs: Map<PathKey, (Seq<u8>, ())>|
        #![trigger grown(items, dirs, infos, tree)]
        in_path_order(items) && items_map(items) == walk_files(walk, skip, max_bytes) && has_dirs(
            dirs,
            walk_dirs(walk, skip, max_bytes),
            items,
        ) && grown(items, dirs, infos, tree);
    assert(wanted_dir(walk[i], skip, max_bytes));
    lemma_walk_dirs(walk, skip, max_bytes, i);
    assert(dirs.contains_key(k));
    assert(grown_at(files, dirs, infos, tree, k));
    lemma_lists_children(tree, k);
}

/// A directory is in a snapshot only where the walk found it, under no skipped
/// one, or where a file that the walk found below the limit stands directly in
/// it.
pub proof fn law_every_directory_held_was_found(
    snapshot: Snapshot,
    root: Seq<u8>,
    walk: Seq<WalkEntry>,
    skip: Seq<Seq<u8>>,
    max_size_mb: u64,
    infos: Map<PathKey, (Seq<u8>, DirInfo)>,
    timestamp: i64,
    k: PathKey,
)
    requires
        is_snapshot_of(
            snapshot,
            root,
            walk,
            skip,
            limit_bytes(max_size_mb),
            infos,
            timestamp,
        ),
        snapshot.nodes@.contains_key(k),
        snapshot.nodes@[k].1.is_dir,
    ensures
        exists|i: int|
            {
                &&& 0 <= i < walk.len()
                &&& (#[trigger] walk[i]).path is Some
                &&& forall|j: int|
                    0 <= j < skip.len() ==> !components(#[trigger] skip[j]).is_prefix_of(
                        walk[i].path->0.key(),
                    )
                &&& (walk[i].kind == EntryKind::Dir && walk[i].path->0.key() == k) || (walk[i].kind
                    == EntryKind::File && walk[i].path->0.key().len() > 0
                    && walk[i].path->0.key().drop_last() == k && walk[i].len is Some
                    && walk[i].len->0 < max_size_mb * 1048576)
            },
{
    let max_bytes = limit_bytes(max_size_mb);
    let tree = snapshot.nodes.items();
    let (files, dirs) = choose|items: Items, dirs: Map<PathKey, (Seq<u8>, ())>|
        #![trigger grown(items, dirs, infos, tree)]
        in_path_order(items) && items_map(items) == walk_files(walk, skip, max_bytes) && has_dirs(
            dirs,
            walk_dirs(walk, skip, max_bytes),
            items,
        ) && grown(items, dirs, infos, tree);
    assert(grown_at(files, dirs, infos, tree, k));
    if !dirs.contains_key(k) {
        lemma_last_reading(walk, skip, max_bytes, k);
    }
    assert(dirs.contains_key(k));
    if walk_dirs(walk, skip, max_bytes).contains_key(k) {
        lemma_walked_dir_was_found(walk, skip, max_bytes, k);
        let i = choose|i: int|
            0 <= i < walk.len() && wanted_dir(#[trigger] walk[i], skip, max_bytes)
                && walk[i].path->0.key() == k;
        assert forall|j: int| 0 <= j < skip.len() implies !components(
            #[trigger] skip[j],
        ).is_prefix_of(walk[i].path->0.key()) by {}
        assert(walk[i].path is Some);
    } else {
        assert(holds_entry(files, k, false));
        let z = choose|z: int|
            0 <= z < files.len() && crate::path::is_child(#[trigger] item_key(files[z]), k) && (
            false ==> !files[z].1.is_dir);
        lemma_key_index(files, z);
        let c = item_key(files[z]);
        lemma_last_reading(walk, skip, max_bytes, c);
        let i = choose|i: int|
            {
                &&& 0 <= i < walk.len()
                &&& taken(#[trigger] walk[i], skip, max_bytes)
                &&& walk[i].path->0.key() == c
                &&& walk_files(walk, skip, max_bytes)[c].1 == crate::node::file_node_of(
                    walk[i].content->0.hash,
                    walk[i].content->0.stat,
                    walk[i].content->0.extras,
                )
                &&& forall|j: int|
                    i < j < walk.len() ==> !(taken(#[trigger] walk[j], skip, max_bytes)
                        && walk[j].path->0.key() == c)
            };
        assert forall|j: int| 0 <= j < skip.len() implies !components(
            #[trigger] skip[j],
        ).is_prefix_of(walk[i].path->0.key()) by {}
        assert(walk[i].path is Some);
    }
}

proof fn lemma_walked_dir_was_found(
    walk: Seq<WalkEntry>,
    skip: Seq<Seq<u8>>,
    max_bytes: int,
    k: PathKey,
)
    requires
        walk_dirs(walk, skip, max_bytes).contains_key(k),
    ensures
        exists|i: int|
            0 <= i < walk.len() && wanted_dir(#[trigger] walk[i], skip, max_bytes)
                && walk[i].path->0.key() == k,
    decreases walk.len(),
{
    if walk.len() > 0 {
        let last = walk.len() - 1;
        let rest = walk.drop_last();
        if wanted_dir(walk[last], skip, max_bytes) && walk[last].path->0.key() == k {
        } else {
            lemma_walked_dir_was_found(rest, skip, max_bytes, k);
            let i = choose|i: int|
                0 <= i < rest.len() && wanted_dir(#[trigger] rest[i], skip, max_bytes)
                    && rest[i].path->0.key() == k;
            assert(walk[i] == rest[i]);
        }
    }
}

/// A snapshot says when and of what it was taken, in the first layout.
pub proof fn law_snapshot_says_when_and_of_what(
    snapshot: Snapshot,
    root: Seq<u8>,
    walk: Seq<WalkEntry>,
    skip: Seq<Seq<u8>>,
    max_bytes: int,
    infos: Map<PathKey, (Seq<u8>, DirInfo)>,
    timestamp: i64,
)
    requires
        is_snapshot_of(snapshot, root, walk, skip, max_bytes, infos, timestamp),
    ensures
        snapshot.version == 1,
        snapshot.timestamp == timestamp,
        snapshot.root@ == root,
{
}

/// Of a directory that could not be looked at nothing is said: no user, no
/// group, no mode, no times, no links, no flags, and the checksum of no
/// attributes.
pub proof fn law_unknown_directories_tell_nothing(
    infos: Map<PathKey, (Seq<u8>, DirInfo)>,
    tree: Items,
    dir: PathKey,
    files_only: bool,
)
    requires
        !infos.contains_key(dir),
    ensures
        ({
            let node = if files_only {
                rehashed_node(tree, infos, dir)
            } else {
                tree_node(infos, tree, dir)
            };
            &&& node.is_dir
            &&& node.uid == 0 && node.gid == 0 && node.mode == 0
            &&& node.mtime == 0 && node.atime == 0 && node.ctime == 0
            &&& node.nlink == 0 && node.flags == 0
            &&& node.xattrs_hash == xxh3_64(Seq::<u8>::empty())
            &&& node.lsm_context is None
        }),
{
}

/// A path that the walk names more than once is written as it named it first.
pub proof fn law_first_text_of_a_path_counts(
    walk: Seq<WalkEntry>,
    entry: WalkEntry,
    skip: Seq<Seq<u8>>,
    max_bytes: int,
    k: PathKey,
)
    ensures
        walk_files(walk, skip, max_bytes).contains_key(k) ==> walk_files(
            walk.push(entry),
            skip,
            max_bytes,
        ).contains_key(k) && walk_files(walk.push(entry), skip, max_bytes)[k].0 == walk_files(
            walk,
            skip,
            max_bytes,
        )[k].0,
        walk_dirs(walk, skip, max_bytes).contains_key(k) ==> walk_dirs(
            walk.push(entry),
            skip,
            max_bytes,
        ).contains_key(k) && walk_dirs(walk.push(entry), skip, max_bytes)[k].0 == walk_dirs(
            walk,
            skip,
            max_bytes,
        )[k].0,
{
    assert(walk.push(entry).drop_last() =~= walk);
}

/// The directory above every file of a snapshot is in the snapshot too, walked
/// or not.
pub proof fn law_every_file_has_its_directory(
    snapshot: Snapshot,
    root: Seq<u8>,
    walk: Seq<WalkEntry>,
    skip: Seq<Seq<u8>>,
    max_bytes: int,
    infos: Map<PathKey, (Seq<u8>, DirInfo)>,
    timestamp: i64,
    k: PathKey,
)
    requires
        is_snapshot_of(snapshot, root, walk, skip, max_bytes, infos, timestamp),
        snapshot.nodes@.contains_key(k),
        !snapshot.nodes@[k].1.is_dir,
        k.len() > 0,
        k.last() != seq![47u8],
    ensures
        snapshot.nodes@.contains_key(k.drop_last()),
        snapshot.nodes@[k.drop_last()].1.is_dir,
{
    let tree = snapshot.nodes.items();
    let (files, dirs) = choose|items: Items, dirs: Map<PathKey, (Seq<u8>, ())>|
        #![trigger grown(items, dirs, infos, tree)]
        in_path_order(items) && items_map(items) == walk_files(walk, skip, max_bytes) && has_dirs(
            dirs,
            walk_dirs(walk, skip, max_bytes),
            items,
        ) && grown(items, dirs, infos, tree);
    let up = k.drop_last();
    assert(grown_at(files, dirs, infos, tree, k));
    assert(items_map(files).contains_key(k));
    let z = crate::path_map::key_index(files, k);
    assert(item_key(files[z]) == k);
    assert(holds_entry(files, up, false));
    assert(dirs.contains_key(up));
    assert(grown_at(files, dirs, infos, tree, up));
}

/// What a snapshot is taken with counts in full: each file that was read is held
/// where it lies in none of the directories to skip and is smaller than so many
/// megabytes of 1048576 bytes.
pub proof fn law_snapshot_is_taken_as_asked(
    snapshot: Snapshot,
    root: Seq<u8>,
    skip_dirs: Seq<String>,
    max_size_mb: u64,
    walk: Seq<WalkEntry>,
    infos: Map<PathKey, (Seq<u8>, DirInfo)>,
    timestamp: i64,
    i: int,
)
    requires
        is_taken(snapshot, root, skip_dirs, max_size_mb, walk, infos, timestamp),
        0 <= i < walk.len(),
        walk[i].kind == EntryKind::File,
        walk[i].path is Some,
        walk[i].content is Some,
        walk[i].len is Some,
        forall|j: int|
            0 <= j < skip_dirs.len() ==> !components(
                encode_utf8(#[trigger] skip_dirs[j]@),
            ).is_prefix_of(walk[i].path->0.key()),
        walk[i].len->0 < max_size_mb * 1048576,
    ensures
        snapshot.nodes@.contains_key(walk[i].path->0.key()),
        snapshot.root@ == root,
        snapshot.timestamp == timestamp,
{
    let skip = text_paths(skip_dirs);
    assert forall|j: int| 0 <= j < skip.len() implies !components(
        #[trigger] skip[j],
    ).is_prefix_of(walk[i].path->0.key()) by {
        assert(skip[j] == encode_utf8(skip_dirs[j]@));
    }
    law_every_file_below_the_limit_is_held(
        snapshot,
        root,
        walk,
        skip,
        max_size_mb,
        infos,
        timestamp,
        i,
    );
}

/// Nothing at or below a directory to skip is held as a file.
pub proof fn law_skipped_directories_are_left_out(
    snapshot: Snapshot,
    root: Seq<u8>,
    skip_dirs: Seq<String>,
    max_size_mb: u64,
    walk: Seq<WalkEntry>,
    infos: Map<PathKey, (Seq<u8>, DirInfo)>,
    timestamp: i64,
    k: PathKey,
    j: int,
)
    requires
        is_taken(snapshot, root, skip_dirs, max_size_mb, walk, infos, timestamp),
        0 <= j < skip_dirs.len(),
        components(encode_utf8(skip_dirs[j]@)).is_prefix_of(k),
    ensures
        !snapshot.nodes@.contains_key(k) || snapshot.nodes@[k].1.is_dir,
{
    let skip = text_paths(skip_dirs);
    let max_bytes = limit_bytes(max_size_mb);
    assert(skip[j] == encode_utf8(skip_dirs[j]@));
    let tree = snapshot.nodes.items();
    let (files, dirs) = choose|items: Items, dirs: Map<PathKey, (Seq<u8>, ())>|
        #![trigger grown(items, dirs, infos, tree)]
        in_path_order(items) && items_map(items) == walk_files(walk, skip, max_bytes) && has_dirs(
            dirs,
            walk_dirs(walk, skip, max_bytes),
            items,
        ) && grown(items, dirs, infos, tree);
    assert(grown_at(files, dirs, infos, tree, k));
    if walk_files(walk, skip, max_bytes).contains_key(k) {
        lemma_last_reading(walk, skip, max_bytes, k);
    }
}

} // verus!
