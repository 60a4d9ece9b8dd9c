//! What holds of snapshots across operations.
use vstd::prelude::*;
use vstd::bytes::{lemma_auto_spec_u64_to_from_le_bytes, spec_u64_to_le_bytes};
use crate::node::{entry_bytes, file_node_of, listing_bytes, DirInfo, FileNode, Items};
use crate::bubble::{ancestors, raised_at};
use crate::digest::xxh3_64;
use crate::diff::node_at;
use crate::monitor::{
    carried_over, content_new, file_put, file_taken, lemma_not_above_itself, node_for,
    same_state, time_after, update_outcome, Monitor,
};
use crate::monitor::recheck::{recheck_changed, Recheck};
use crate::path::{has_parent, is_child, key_within, FilePath, PathKey};
use crate::path_map::{
    in_path_order, item_key, items_map, key_index, lemma_key_index, lemma_same_items,
};
use crate::snapshot::{
    has_dirs, is_merge_of, is_snapshot_of, overlaid, walk_dirs, walk_files, wanted, EntryKind,
    FileContent, Snapshot, WalkEntry,
};
use crate::tree::{
    children_of, grown, grown_at, lemma_child_listed, lemma_listed_child, lemma_same_children,
    rehashed, rehashed_node, same_at, stands_in, tree_node, up_to_date,
};

pub mod audit;
pub mod differences;
pub mod scan;
pub mod view;
pub mod watch;
pub mod words;

verus! {

/// What goes into the checksum of a directory tells the checksums of its
/// entries apart: no entry can change its own without a change there.
pub proof fn law_listing_tells_checksums(a: Items, b: Items)
    requires
        a.len() == b.len(),
        forall|i: int| 0 <= i < a.len() ==> (#[trigger] a[i]).0 == b[i].0,
        listing_bytes(a) == listing_bytes(b),
    ensures
        forall|i: int| 0 <= i < a.len() ==> (#[trigger] a[i]).1.hash == b[i].1.hash,
    decreases a.len(),
{
    if a.len() > 0 {
        let a1 = a.drop_last();
        let b1 = b.drop_last();
        lemma_listing_len(a1, b1);
        lemma_auto_spec_u64_to_from_le_bytes();
        let n = listing_bytes(a1).len() as int;
        assert(a.last().0 == b.last().0) by {
            assert(a[a.len() - 1].0 == b[b.len() - 1].0);
        }
        let ea = entry_bytes(a.last());
        let eb = entry_bytes(b.last());
        assert(listing_bytes(a).take(n) =~= listing_bytes(a1));
        assert(listing_bytes(b).take(n) =~= listing_bytes(b1));
        assert(listing_bytes(a).skip(n) =~= ea);
        assert(listing_bytes(b).skip(n) =~= eb);
        assert(ea.take(8) =~= spec_u64_to_le_bytes(a.last().1.hash));
        assert(eb.take(8) =~= spec_u64_to_le_bytes(b.last().1.hash));
        assert forall|i: int| 0 <= i < a1.len() implies (#[trigger] a1[i]).0 == b1[i].0 by {
            assert(a[i].0 == b[i].0);
        }
        law_listing_tells_checksums(a1, b1);
        assert forall|i: int| 0 <= i < a.len() implies (#[trigger] a[i]).1.hash == b[i].1.hash by {
            if i < a1.len() {
                assert(a1[i].1.hash == b1[i].1.hash);
            }
        }
    }
}

proof fn lemma_listing_len(a: Items, b: Items)
    requires
        a.len() == b.len(),
        forall|i: int| 0 <= i < a.len() ==> (#[trigger] a[i]).0 == b[i].0,
    ensures
        listing_bytes(a).len() == listing_bytes(b).len(),
    decreases a.len(),
{
    lemma_auto_spec_u64_to_from_le_bytes();
    if a.len() > 0 {
        let a1 = a.drop_last();
        let b1 = b.drop_last();
        assert forall|i: int| 0 <= i < a1.len() implies (#[trigger] a1[i]).0 == b1[i].0 by {
            assert(a[i].0 == b[i].0);
        }
        lemma_listing_len(a1, b1);
        assert(a[a.len() - 1].0 == b[b.len() - 1].0);
    }
}

/// A file of a walk that is wanted and was read.
pub open spec fn taken(entry: WalkEntry, skip: Seq<Seq<u8>>, max_bytes: int) -> bool {
    wanted(entry.path, entry.kind, entry.len, skip, max_bytes) && entry.kind == EntryKind::File
        && entry.content is Some
}

/// A directory of a walk that is wanted.
pub open spec fn wanted_dir(entry: WalkEntry, skip: Seq<Seq<u8>>, max_bytes: int) -> bool {
    wanted(entry.path, entry.kind, entry.len, skip, max_bytes) && entry.kind == EntryKind::Dir
}

/// `node` is what was read of one of the wanted entries under that path.
pub open spec fn read_from(
    walk: Seq<WalkEntry>,
    skip: Seq<Seq<u8>>,
    max_bytes: int,
    k: PathKey,
    node: FileNode,
) -> bool {
    exists|i: int|
        0 <= i < walk.len() && taken(#[trigger] walk[i], skip, max_bytes) && walk[i].path->0.key()
            == k && node == file_node_of(
            walk[i].content->0.hash,
            walk[i].content->0.stat,
            walk[i].content->0.extras,
        )
}

proof fn lemma_walk_files(walk: Seq<WalkEntry>, skip: Seq<Seq<u8>>, max_bytes: int)
    ensures
        forall|i: int|
            0 <= i < walk.len() && taken(#[trigger] walk[i], skip, max_bytes) ==> walk_files(
                walk,
                skip,
                max_bytes,
            ).contains_key(walk[i].path->0.key()),
        forall|k: PathKey| #[trigger]
            walk_files(walk, skip, max_bytes).contains_key(k) ==> read_from(
                walk,
                skip,
                max_bytes,
                k,
                walk_files(walk, skip, max_bytes)[k].1,
            ),
    decreases walk.len(),
{
    if walk.len() > 0 {
        let rest = walk.drop_last();
        lemma_walk_files(rest, skip, max_bytes);
        let files = walk_files(walk, skip, max_bytes);
        let before = walk_files(rest, skip, max_bytes);
        assert forall|i: int|
            0 <= i < walk.len() && taken(#[trigger] walk[i], skip, max_bytes) implies files.contains_key(
            walk[i].path->0.key(),
        ) by {
            if i < rest.len() {
                assert(rest[i] == walk[i]);
            }
        }
        assert forall|k: PathKey| #[trigger] files.contains_key(k) implies read_from(
            walk,
            skip,
            max_bytes,
            k,
            files[k].1,
        ) by {
            let last = walk.len() - 1;
            if taken(walk[last], skip, max_bytes) && walk[last].path->0.key() == k {
            } else {
                assert(before.contains_key(k) && files[k] == before[k]);
                let i = choose|i: int|
                    0 <= i < rest.len() && taken(#[trigger] rest[i], skip, max_bytes)
                        && rest[i].path->0.key() == k && before[k].1 == file_node_of(
                        rest[i].content->0.hash,
                        rest[i].content->0.stat,
                        rest[i].content->0.extras,
                    );
                assert(walk[i] == rest[i]);
            }
        }
    }
}

/// A snapshot holds every wanted file that could be read, and no file but
/// those: what lies under a skipped directory or reaches the size limit never
/// enters as a file.
pub proof fn law_snapshot_holds_the_wanted_files(
    snapshot: Snapshot,
    root: Seq<u8>,
    walk: Seq<WalkEntry>,
    skip: Seq<Seq<u8>>,
    max_bytes: int,
    infos: Map<PathKey, (Seq<u8>, DirInfo)>,
    timestamp: i64,
)
    requires
        is_snapshot_of(snapshot, root, walk, skip, max_bytes, infos, timestamp),
    ensures
        forall|i: int|
            0 <= i < walk.len() && taken(#[trigger] walk[i], skip, max_bytes)
                ==> snapshot.nodes@.contains_key(walk[i].path->0.key()),
        forall|k: PathKey| #[trigger]
            snapshot.nodes@.contains_key(k) && !snapshot.nodes@[k].1.is_dir ==> read_from(
                walk,
                skip,
                max_bytes,
                k,
                snapshot.nodes@[k].1,
            ),
{
    lemma_walk_files(walk, skip, max_bytes);
    let tree = snapshot.nodes.items();
    let (files, dirs) = choose|items: Items, dirs: Map<PathKey, (Seq<u8>, ())>|
        #![trigger grown(items, dirs, infos, tree)]
        in_path_order(items) && items_map(items) == walk_files(walk, skip, max_bytes) && has_dirs(
            dirs,
            walk_dirs(walk, skip, max_bytes),
            items,
        ) && grown(items, dirs, infos, tree);
    assert forall|i: int| 0 <= i < walk.len() && taken(#[trigger] walk[i], skip, max_bytes) implies
        snapshot.nodes@.contains_key(walk[i].path->0.key()) by {
        assert(grown_at(files, dirs, infos, tree, walk[i].path->0.key()));
    }
    assert forall|k: PathKey| #[trigger]
        snapshot.nodes@.contains_key(k) && !snapshot.nodes@[k].1.is_dir implies read_from(
        walk,
        skip,
        max_bytes,
        k,
        snapshot.nodes@[k].1,
    ) by {
        assert(grown_at(files, dirs, infos, tree, k));
    }
}

/// A wanted directory is among the directories of the walk.
pub proof fn lemma_walk_dirs(walk: Seq<WalkEntry>, skip: Seq<Seq<u8>>, max_bytes: int, i: int)
    requires
        0 <= i < walk.len(),
        wanted_dir(walk[i], skip, max_bytes),
    ensures
        walk_dirs(walk, skip, max_bytes).contains_key(walk[i].path->0.key()),
    decreases walk.len(),
{
    if i < walk.len() - 1 {
        lemma_walk_dirs(walk.drop_last(), skip, max_bytes, i);
    }
}

/// A snapshot holds every wanted directory of the walk, over the files and
/// directories directly in it, also one that holds nothing or nothing but
/// directories.
pub proof fn law_snapshot_holds_the_wanted_directories(
    snapshot: Snapshot,
    root: Seq<u8>,
    walk: Seq<WalkEntry>,
    skip: Seq<Seq<u8>>,
    max_bytes: int,
    infos: Map<PathKey, (Seq<u8>, DirInfo)>,
    timestamp: i64,
    i: int,
)
    requires
        is_snapshot_of(snapshot, root, walk, skip, max_bytes, infos, timestamp),
        0 <= i < walk.len(),
        wanted_dir(walk[i], skip, max_bytes),
    ensures
        ({
            let k = walk[i].path->0.key();
            &&& snapshot.nodes@.contains_key(k)
            &&& snapshot.nodes@[k].1.is_dir
            &&& snapshot.nodes@[k].1 == tree_node(infos, snapshot.nodes.items(), k)
        }),
{
    let tree = snapshot.nodes.items();
    let (files, dirs) = choose|items: Items, dirs: Map<PathKey, (Seq<u8>, ())>|
        #![trigger grown(items, dirs, infos, tree)]
        in_path_order(items) && items_map(items) == walk_files(walk, skip, max_bytes) && has_dirs(
            dirs,
            walk_dirs(walk, skip, max_bytes),
            items,
        ) && grown(items, dirs, infos, tree);
    lemma_walk_dirs(walk, skip, max_bytes, i);
    assert(dirs.contains_key(walk[i].path->0.key()));
    assert(grown_at(files, dirs, infos, tree, walk[i].path->0.key()));
}

/// The checksum of a directory in a tree is taken over every entry directly in
/// it, directories with their own checksums among them.
pub proof fn law_directory_checksum_covers_entries(
    files: Items,
    dirs: Map<PathKey, (Seq<u8>, ())>,
    infos: Map<PathKey, (Seq<u8>, DirInfo)>,
    tree: Items,
    dir: PathKey,
    k: PathKey,
)
    requires
        in_path_order(tree),
        grown(files, dirs, infos, tree),
        dirs.contains_key(dir),
        is_child(k, dir),
        items_map(tree).contains_key(k),
    ensures
        items_map(tree).contains_key(dir),
        items_map(tree)[dir].1.hash == xxh3_64(listing_bytes(children_of(tree, dir, false))),
        children_of(tree, dir, false).contains(items_map(tree)[k]),
{
    assert(grown_at(files, dirs, infos, tree, dir));
    lemma_child_listed(tree, dir, k);
    let listing = children_of(tree, dir, false);
    let j = choose|j: int| 0 <= j < listing.len() && item_key(#[trigger] listing[j]) == k;
    lemma_listed_child(tree, dir, j);
    assert(listing[j] == items_map(tree)[k]);
}

/// Where the same paths stand in a directory of two trees, and one of them has
/// another checksum in the second, what goes into the checksum of the directory
/// differs too.
pub proof fn law_change_reaches_the_directory(
    tree: Items,
    other_tree: Items,
    dir: PathKey,
    k: PathKey,
)
    requires
        in_path_order(tree),
        in_path_order(other_tree),
        is_child(k, dir),
        items_map(tree).contains_key(k),
        children_of(tree, dir, false).len() == children_of(other_tree, dir, false).len(),
        forall|i: int|
            0 <= i < children_of(tree, dir, false).len() ==> (#[trigger] children_of(
                tree,
                dir,
                false,
            )[i]).0 == children_of(other_tree, dir, false)[i].0,
        items_map(tree)[k].1.hash != items_map(other_tree)[k].1.hash,
    ensures
        listing_bytes(children_of(tree, dir, false)) != listing_bytes(
            children_of(other_tree, dir, false),
        ),
{
    let a = children_of(tree, dir, false);
    let b = children_of(other_tree, dir, false);
    lemma_child_listed(tree, dir, k);
    let i = choose|i: int| 0 <= i < a.len() && item_key(#[trigger] a[i]) == k;
    lemma_listed_child(tree, dir, i);
    assert(a[i].0 == b[i].0);
    lemma_listed_child(other_tree, dir, i);
    assert(items_map(other_tree)[k] == b[i]);
    if listing_bytes(a) == listing_bytes(b) {
        law_listing_tells_checksums(a, b);
        assert(a[i].1.hash == b[i].1.hash);
    }
}

/// A merge loses no entry, keeps every file of the newer snapshot as it is
/// there, and every other file as it was.
pub proof fn law_merge_keeps_entries(
    after: Snapshot,
    base: Snapshot,
    new: Snapshot,
    infos: Map<PathKey, (Seq<u8>, DirInfo)>,
    k: PathKey,
)
    requires
        is_merge_of(after, base, new, infos),
    ensures
        base.nodes@.contains_key(k) || new.nodes@.contains_key(k) ==> after.nodes@.contains_key(k),
        children_of(after.nodes.items(), k, true).len() == 0 ==> {
            &&& new.nodes@.contains_key(k) ==> after.nodes@[k].1 == new.nodes@[k].1
            &&& !new.nodes@.contains_key(k) && base.nodes@.contains_key(k) ==> after.nodes@[k]
                == base.nodes@[k]
            &&& after.nodes@.contains_key(k) ==> base.nodes@.contains_key(k)
                || new.nodes@.contains_key(k)
        },
        after.nodes@.contains_key(k) && !after.nodes@[k].1.is_dir ==> after.nodes@[k].1 == (
        if new.nodes@.contains_key(k) {
            new.nodes@[k].1
        } else {
            base.nodes@[k].1
        }),
{
    let items = choose|items: Items|
        #![trigger rehashed(items, infos, after.nodes.items())]
        in_path_order(items) && items_map(items) == overlaid(base.nodes@, new.nodes@) && rehashed(
            items,
            infos,
            after.nodes.items(),
        );
    assert(up_to_date(items, infos, after.nodes.items(), k));
}

/// No key in the list is longer than this.
spec fn longest(items: Items) -> nat
    decreases items.len(),
{
    if items.len() == 0 {
        0
    } else if item_key(items.last()).len() > longest(items.drop_last()) {
        item_key(items.last()).len()
    } else {
        longest(items.drop_last())
    }
}

proof fn lemma_longest(items: Items, i: int)
    requires
        0 <= i < items.len(),
    ensures
        item_key(items[i]).len() <= longest(items),
    decreases items.len(),
{
    if i < items.len() - 1 {
        lemma_longest(items.drop_last(), i);
    }
}

/// The second of two merges with the same snapshot agrees with the first on
/// every path of at least `m` components.
proof fn lemma_merges_agree(
    once: Snapshot,
    mid: Items,
    twice: Snapshot,
    again: Items,
    base: Snapshot,
    new: Snapshot,
    infos: Map<PathKey, (Seq<u8>, DirInfo)>,
    m: nat,
    k: PathKey,
)
    requires
        in_path_order(once.nodes.items()),
        in_path_order(twice.nodes.items()),
        items_map(mid) == overlaid(base.nodes@, new.nodes@),
        rehashed(mid, infos, once.nodes.items()),
        items_map(again) == overlaid(once.nodes@, new.nodes@),
        rehashed(again, infos, twice.nodes.items()),
        k.len() >= m,
    ensures
        same_at(once.nodes.items(), twice.nodes.items(), k),
    decreases longest(once.nodes.items()) + longest(twice.nodes.items()) + 1 - m,
{
    let a = once.nodes.items();
    let b = twice.nodes.items();
    if m > longest(a) + longest(b) {
        if items_map(a).contains_key(k) {
            lemma_longest(a, key_index(a, k));
        }
        if items_map(b).contains_key(k) {
            lemma_longest(b, key_index(b, k));
        }
    } else {
        assert forall|c: PathKey| is_child(c, k) implies #[trigger] same_at(a, b, c) by {
            assert(c.len() == k.len() + 1) by {
                assert(c.drop_last() == k);
            }
            lemma_merges_agree(once, mid, twice, again, base, new, infos, m + 1, c);
        }
        assert forall|c: PathKey| is_child(c, k) implies (#[trigger] items_map(a).contains_key(c)
            <==> items_map(b).contains_key(c)) by {
            assert(same_at(a, b, c));
        }
        assert forall|c: PathKey| is_child(c, k) implies (#[trigger] items_map(b).contains_key(c)
            <==> items_map(a).contains_key(c)) by {
            assert(same_at(a, b, c));
        }
        assert forall|c: PathKey|
            is_child(c, k) && items_map(a).contains_key(c) implies #[trigger] items_map(a)[c]
            == items_map(b)[c] by {
            assert(same_at(a, b, c));
        }
        lemma_same_children(a, b, k, true);
        assert(up_to_date(mid, infos, a, k));
        assert(up_to_date(again, infos, b, k));
    }
}

/// Merging the same snapshot again changes nothing.
pub proof fn law_merging_again_changes_nothing(
    once: Snapshot,
    twice: Snapshot,
    base: Snapshot,
    new: Snapshot,
    infos: Map<PathKey, (Seq<u8>, DirInfo)>,
)
    requires
        is_merge_of(once, base, new, infos),
        is_merge_of(twice, once, new, infos),
    ensures
        twice.nodes.items() == once.nodes.items(),
        twice.timestamp == once.timestamp,
        twice.version == once.version,
        twice.root@ == once.root@,
{
    let a = once.nodes.items();
    let b = twice.nodes.items();
    let mid = choose|items: Items|
        #![trigger rehashed(items, infos, a)]
        in_path_order(items) && items_map(items) == overlaid(base.nodes@, new.nodes@) && rehashed(
            items,
            infos,
            a,
        );
    let again = choose|items: Items|
        #![trigger rehashed(items, infos, b)]
        in_path_order(items) && items_map(items) == overlaid(once.nodes@, new.nodes@) && rehashed(
            items,
            infos,
            b,
        );
    assert forall|item: (Seq<u8>, FileNode)| #[trigger] a.contains(item) <==> b.contains(item) by {
        let k = item_key(item);
        lemma_merges_agree(once, mid, twice, again, base, new, infos, 0, k);
        if a.contains(item) {
            let i = choose|i: int| 0 <= i < a.len() && a[i] == item;
            lemma_key_index(a, i);
            assert(b[key_index(b, k)] == item);
        }
        if b.contains(item) {
            let i = choose|i: int| 0 <= i < b.len() && b[i] == item;
            lemma_key_index(b, i);
            assert(a[key_index(a, k)] == item);
        }
    }
    lemma_same_items(a, b);
}

/// Directories that are up to date stay as they are when they are brought up
/// to date again.
pub proof fn law_rehash_settles(
    before: Items,
    infos: Map<PathKey, (Seq<u8>, DirInfo)>,
    after: Items,
)
    requires
        rehashed(before, infos, after),
    ensures
        rehashed(after, infos, after),
{
    assert forall|k: PathKey| #[trigger] up_to_date(after, infos, after, k) by {
        assert(up_to_date(before, infos, after, k));
    }
}

/// After an update the file's node is what was read, and no path is touched
/// but the file and the directories above it.
proof fn lemma_put(
    before: Monitor,
    path: FilePath,
    content: FileContent,
    content_changed: bool,
    infos: Map<PathKey, (Seq<u8>, DirInfo)>,
    now: i64,
    after: Monitor,
    k: PathKey,
)
    requires
        file_put(before, path, node_for(content), content_changed, infos, now, after),
    ensures
        node_at(items_map(after.nodes()), path.key()) == Some(node_for(content)),
        k != path.key() && !ancestors(path.key(), before.snapshot().root.key()).contains(k)
            ==> same_at(before.nodes(), after.nodes(), k),
{
    let mid = choose|mid: Items|
        #![trigger carried_over(before, mid, path, content_changed, infos, after)]
        {
            &&& in_path_order(mid)
            &&& items_map(mid) == items_map(before.nodes()).insert(
                path.key(),
                (
                    if items_map(before.nodes()).contains_key(path.key()) {
                        items_map(before.nodes())[path.key()].0
                    } else {
                        path@
                    },
                    node_for(content),
                ),
            )
            &&& carried_over(before, mid, path, content_changed, infos, after)
            &&& forall|k: PathKey|
                #![trigger after.times().contains_key(k)]
                time_after(before, mid, path, content_changed, true, now, after, k)
        };
    let up = ancestors(path.key(), before.snapshot().root.key());
    lemma_not_above_itself(path.key(), before.snapshot().root.key());
    if content_changed {
        assert(raised_at(mid, infos, path@, up, after.nodes(), path.key()));
        assert(raised_at(mid, infos, path@, up, after.nodes(), k));
    }
}

/// What was just read is known: taking it in again does nothing, and checking
/// the file against it finds no change.
pub proof fn law_update_settles(
    before: Monitor,
    path: FilePath,
    content: FileContent,
    infos: Map<PathKey, (Seq<u8>, DirInfo)>,
    now: i64,
    r: (bool, Option<i64>, bool),
    after: Monitor,
    is_file: bool,
    later_infos: Map<PathKey, (Seq<u8>, DirInfo)>,
    later: i64,
    again: (bool, Option<i64>, bool),
    end: Monitor,
)
    requires
        update_outcome(before, path, true, content, infos, now, r, after),
        r.0,
        update_outcome(after, path, is_file, content, later_infos, later, again, end),
    ensures
        again == (false, None::<i64>, false),
        same_state(after, end),
        items_map(after.nodes()).contains_key(path.key()),
        !recheck_changed(items_map(after.nodes())[path.key()].1, Recheck::Read(content)),
{
    let known = node_at(items_map(before.nodes()), path.key());
    lemma_put(
        before,
        path,
        content,
        content_new(known, content),
        infos,
        now,
        after,
        path.key(),
    );
}

/// An update leaves every path alone but the file and the directories above it
/// within the root.
pub proof fn law_update_touches_nothing_else(
    before: Monitor,
    path: FilePath,
    is_file: bool,
    content: FileContent,
    infos: Map<PathKey, (Seq<u8>, DirInfo)>,
    now: i64,
    r: (bool, Option<i64>, bool),
    after: Monitor,
    k: PathKey,
)
    requires
        update_outcome(before, path, is_file, content, infos, now, r, after),
        k != path.key(),
        !ancestors(path.key(), before.snapshot().root.key()).contains(k),
    ensures
        same_at(before.nodes(), after.nodes(), k),
{
    if r.0 {
        let known = node_at(items_map(before.nodes()), path.key());
        lemma_put(before, path, content, content_new(known, content), infos, now, after, k);
    }
}

/// When new contents have been taken in, the directory right above the file is
/// up to date with the files in it.
pub proof fn law_update_reaches_the_directory(
    before: Monitor,
    path: FilePath,
    content: FileContent,
    infos: Map<PathKey, (Seq<u8>, DirInfo)>,
    now: i64,
    r: (bool, Option<i64>, bool),
    after: Monitor,
)
    requires
        update_outcome(before, path, true, content, infos, now, r, after),
        r.0,
        r.2,
        has_parent(path.key()),
        key_within(path.key().drop_last(), before.snapshot().root.key()),
    ensures
        node_at(items_map(after.nodes()), path.key().drop_last()) == Some(
            rehashed_node(after.nodes(), infos, path.key().drop_last()),
        ),
{
    let known = node_at(items_map(before.nodes()), path.key());
    lemma_put(before, path, content, true, infos, now, after, path.key());
    let root = before.snapshot().root.key();
    let up = ancestors(path.key(), root);
    let dir = path.key().drop_last();
    let items = after.nodes();
    assert(up[0] == dir);
    assert(up.contains(dir));
    let p = stands_in(dir, true);
    let z = key_index(items, path.key());
    assert(p(items[z]));
    items.lemma_filter_contains(p, z);
    assert(children_of(items, dir, true).len() > 0);
    let mid = choose|mid: Items|
        #![trigger carried_over(before, mid, path, true, infos, after)]
        {
            &&& in_path_order(mid)
            &&& items_map(mid) == items_map(before.nodes()).insert(
                path.key(),
                (
                    if items_map(before.nodes()).contains_key(path.key()) {
                        items_map(before.nodes())[path.key()].0
                    } else {
                        path@
                    },
                    node_for(content),
                ),
            )
            &&& carried_over(before, mid, path, true, infos, after)
            &&& forall|k: PathKey|
                #![trigger after.times().contains_key(k)]
                time_after(before, mid, path, true, true, now, after, k)
        };
    assert(raised_at(mid, infos, path@, up, items, dir));
}

/// A path that was taken out is not known any more, and no other path is
/// touched but the directories above it.
pub proof fn law_removed_is_unknown(
    before: Monitor,
    path: FilePath,
    infos: Map<PathKey, (Seq<u8>, DirInfo)>,
    now: i64,
    after: Monitor,
)
    requires
        file_taken(before, path, infos, now, after),
    ensures
        !items_map(after.nodes()).contains_key(path.key()),
        forall|k: PathKey|
            k != path.key() && !ancestors(path.key(), before.snapshot().root.key()).contains(k)
                ==> #[trigger] same_at(before.nodes(), after.nodes(), k),
{
    let mid = choose|mid: Items|
        #![trigger carried_over(before, mid, path, true, infos, after)]
        {
            &&& in_path_order(mid)
            &&& items_map(mid) == items_map(before.nodes()).remove(path.key())
            &&& carried_over(before, mid, path, true, infos, after)
            &&& forall|k: PathKey|
                #![trigger after.times().contains_key(k)]
                time_after(before, mid, path, true, false, now, after, k)
        };
    let root = before.snapshot().root.key();
    let up = ancestors(path.key(), root);
    lemma_not_above_itself(path.key(), root);
    assert(raised_at(mid, infos, path@, up, after.nodes(), path.key()));
    assert forall|k: PathKey| k != path.key() && !up.contains(k) implies #[trigger] same_at(
        before.nodes(),
        after.nodes(),
        k,
    ) by {
        assert(raised_at(mid, infos, path@, up, after.nodes(), k));
    }
}

} // verus!
