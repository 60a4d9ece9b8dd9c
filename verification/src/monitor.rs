//! Watching a file tree and keeping a snapshot of it current.
use std::collections::HashMap;
use vstd::prelude::*;
use crate::bubble::{
    ancestors, lemma_ancestors, marked, raised, recalculate_parent_hashes, stamped, time_at,
};
use crate::diff::{change_details, details_of, node_at};
use crate::node::{clamp_nlink, file_node_of, held_nlink, DirInfo, FileNode, Items};
use crate::path::{FilePath, PathKey};
use crate::path_map::{in_path_order, items_map, PathMap};
use crate::snapshot::{limit_bytes, FileContent, Snapshot};
use self::watch::WatchCount;

pub mod event;
pub mod recheck;
pub mod watch;

verus! {

/// Keeps a snapshot current.
pub struct Monitor {
    snapshot: Snapshot,
    critical_dirs: Vec<FilePath>,
    watched_dirs: PathMap<()>,
    watches: WatchCount,
    max_size_bytes: u64,
    change_times: PathMap<i64>,
    watch_map: HashMap<i32, FilePath>,
}

impl Monitor {
    /// The snapshot as it stands.
    pub closed spec fn snapshot(&self) -> Snapshot {
        self.snapshot
    }

    /// Its nodes in path order.
    pub open spec fn nodes(&self) -> Items {
        self.snapshot().nodes.items()
    }

    /// When paths were last seen to change.
    pub closed spec fn times(&self) -> Map<PathKey, (Seq<u8>, i64)> {
        self.change_times@
    }

    /// Directories that are watched first.
    pub closed spec fn critical(&self) -> Seq<FilePath> {
        self.critical_dirs@
    }

    /// Directories that are watched.
    pub closed spec fn watched(&self) -> PathMap<()> {
        self.watched_dirs
    }

    /// How many watches may be used.
    pub closed spec fn budget(&self) -> nat {
        self.watches.spec_budget()
    }

    /// How many watches are used.
    pub closed spec fn used(&self) -> nat {
        self.watches.spec_used()
    }

    /// Files of this size and above are left out.
    pub closed spec fn max_bytes(&self) -> int {
        self.max_size_bytes as int
    }

    /// The directory of each watch.
    pub closed spec fn watch_dirs(&self) -> Map<i32, FilePath> {
        self.watch_map@
    }

    /// Watches, limits and the frame of the snapshot are the same.
    pub open spec fn same_frame(&self, other: &Monitor) -> bool {
        &&& self.snapshot().version == other.snapshot().version
        &&& self.snapshot().timestamp == other.snapshot().timestamp
        &&& self.snapshot().root@ == other.snapshot().root@
        &&& self.critical() == other.critical()
        &&& self.watched() == other.watched()
        &&& self.budget() == other.budget()
        &&& self.used() == other.used()
        &&& self.max_bytes() == other.max_bytes()
        &&& self.watch_dirs() == other.watch_dirs()
    }

    /// A monitor over a snapshot. Nothing is watched yet.
    pub fn new(
        snapshot: Snapshot,
        critical_dirs: Vec<FilePath>,
        watch_budget: usize,
        max_size_mb: u64,
    ) -> (r: Monitor)
        requires
            limit_bytes(max_size_mb) <= u64::MAX,
        ensures
            r.snapshot() == snapshot,
            r.critical() == critical_dirs@,
            r.times() == Map::<PathKey, (Seq<u8>, i64)>::empty(),
            r.watched()@ == Map::<PathKey, (Seq<u8>, ())>::empty(),
            r.watch_dirs() == Map::<i32, FilePath>::empty(),
            r.budget() == watch_budget,
            r.used() == 0,
            r.max_bytes() == limit_bytes(max_size_mb),
            r.max_bytes() == max_size_mb * 1048576,
    {
        Monitor {
            snapshot,
            critical_dirs,
            watched_dirs: PathMap::new(),
            watches: WatchCount::new(watch_budget),
            max_size_bytes: max_size_mb * 1024 * 1024,
            change_times: PathMap::new(),
            watch_map: HashMap::new(),
        }
    }
}

/// Modification time, mode, owner, links, extended attributes or flags differ
/// from what the node holds.
pub open spec fn metadata_differs(node: FileNode, content: FileContent) -> bool {
    ||| node.mtime != content.stat.mtime
    ||| node.mode != content.stat.mode
    ||| node.uid != content.stat.uid
    ||| node.gid != content.stat.gid
    ||| node.nlink != held_nlink(content.stat.nlink)
    ||| node.xattrs_hash != content.extras.xattrs_hash
    ||| node.flags != content.extras.flags
}

fn has_other_metadata(node: &FileNode, content: &FileContent) -> (r: bool)
    ensures
        r == metadata_differs(*node, *content),
{
    node.mtime != content.stat.mtime || node.mode != content.stat.mode || node.uid
        != content.stat.uid || node.gid != content.stat.gid || node.nlink != clamp_nlink(
        content.stat.nlink,
    ) || node.xattrs_hash != content.extras.xattrs_hash || node.flags != content.extras.flags
}

/// The contents of a file are new: it was not known, or its checksum differs.
pub open spec fn content_new(node: Option<FileNode>, content: FileContent) -> bool {
    node is None || node->0.hash != content.hash
}

/// Something about a file is new.
pub open spec fn anything_new(node: Option<FileNode>, content: FileContent) -> bool {
    content_new(node, content) || metadata_differs(node->0, content)
}

/// The node for what was read of a file.
pub open spec fn node_for(content: FileContent) -> FileNode {
    file_node_of(content.hash, content.stat, content.extras)
}

/// The change of one file, already made in `mid`, carried over to the
/// directories above it.
pub open spec fn carried_over(
    before: Monitor,
    mid: Items,
    path: FilePath,
    content_changed: bool,
    infos: Map<PathKey, (Seq<u8>, DirInfo)>,
    after: Monitor,
) -> bool {
    let up = ancestors(path.key(), before.snapshot().root.key());
    if content_changed {
        raised(mid, infos, path@, up, after.nodes())
    } else {
        after.nodes() == mid
    }
}

/// What becomes of the change time of one path: the changed file has the time
/// `stamp`, where there is one, and the directories above it as they are
/// marked.
pub open spec fn time_after(
    before: Monitor,
    mid: Items,
    path: FilePath,
    content_changed: bool,
    stamp: bool,
    now: i64,
    after: Monitor,
    k: PathKey,
) -> bool {
    let up = ancestors(path.key(), before.snapshot().root.key());
    if stamp && k == path.key() {
        after.times().contains_key(k) && after.times()[k] == stamped(before.times(), k, path@, now)
    } else {
        time_at(
            before.times(),
            path@,
            now,
            marked(mid, after.nodes(), up, content_changed, k),
            after.times(),
            k,
        )
    }
}

/// `after` is `before` with a file put in at `now`: its node is there, the
/// directories above it follow, and it and they have their change times.
pub open spec fn file_put(
    before: Monitor,
    path: FilePath,
    node: FileNode,
    content_changed: bool,
    infos: Map<PathKey, (Seq<u8>, DirInfo)>,
    now: i64,
    after: Monitor,
) -> bool {
    exists|mid: Items|
        #![trigger carried_over(before, mid, path, content_changed, infos, after)]
        {
            &&& in_path_order(mid)
            &&& items_map(mid) == items_map(before.nodes()).insert(
                path.key(),
                (
                    if items_map(before.nodes()).contains_key(path.key()) {
                        items_map(before.nodes())[path.key()].0
                    } else {
                        path@
                    },
                    node,
                ),
            )
            &&& carried_over(before, mid, path, content_changed, infos, after)
            &&& forall|k: PathKey|
                #![trigger after.times().contains_key(k)]
                time_after(before, mid, path, content_changed, true, now, after, k)
        }
}

/// `after` is `before` with a file taken out at `now`, and the directories
/// above it follow.
pub open spec fn file_taken(
    before: Monitor,
    path: FilePath,
    infos: Map<PathKey, (Seq<u8>, DirInfo)>,
    now: i64,
    after: Monitor,
) -> bool {
    exists|mid: Items|
        #![trigger carried_over(before, mid, path, true, infos, after)]
        {
            &&& in_path_order(mid)
            &&& items_map(mid) == items_map(before.nodes()).remove(path.key())
            &&& carried_over(before, mid, path, true, infos, after)
            &&& forall|k: PathKey|
                #![trigger after.times().contains_key(k)]
                time_after(before, mid, path, true, false, now, after, k)
        }
}

/// Nodes and change times are the same.
pub open spec fn same_state(a: Monitor, b: Monitor) -> bool {
    a.nodes() == b.nodes() && a.times() == b.times()
}

/// What an update of a file does and returns: nothing where the path is no
/// file, or too large, or nothing about it is new.
pub open spec fn update_outcome(
    before: Monitor,
    path: FilePath,
    is_file: bool,
    content: FileContent,
    infos: Map<PathKey, (Seq<u8>, DirInfo)>,
    now: i64,
    r: (bool, Option<i64>, bool),
    after: Monitor,
) -> bool {
    let known = node_at(items_map(before.nodes()), path.key());
    &&& after.same_frame(&before)
    &&& in_path_order(after.nodes())
    &&& if is_file && content.stat.len < before.max_bytes() && anything_new(known, content) {
        &&& r == (true, Some(now), content_new(known, content))
        &&& file_put(
            before,
            path,
            node_for(content),
            content_new(known, content),
            infos,
            now,
            after,
        )
    } else {
        r == (false, None::<i64>, false) && same_state(before, after)
    }
}

/// A directory above a path is shorter than the path.
pub proof fn lemma_not_above_itself(key: PathKey, root: PathKey)
    ensures
        !ancestors(key, root).contains(key),
{
    lemma_ancestors(key, root);
    if ancestors(key, root).contains(key) {
        let i = choose|i: int| 0 <= i < ancestors(key, root).len() && ancestors(key, root)[i] == key;
        assert(ancestors(key, root)[i].len() < key.len());
    }
}

/// What becomes of a path that is taken out.
pub open spec fn remove_outcome(
    before: Monitor,
    path: FilePath,
    infos: Map<PathKey, (Seq<u8>, DirInfo)>,
    now: i64,
    was_known: bool,
    after: Monitor,
) -> bool {
    &&& was_known == items_map(before.nodes()).contains_key(path.key())
    &&& was_known ==> file_taken(before, path, infos, now, after)
    &&& !was_known ==> same_state(before, after)
}

/// The contents of a path are to be read: it is a file below the limit.
pub open spec fn is_wanted(is_file: bool, len: u64, max_bytes: int) -> bool {
    is_file && len < max_bytes
}

impl Monitor {
    /// Whether the contents of a path are to be read: it is a file below the
    /// size limit.
    pub fn wants_file(&self, is_file: bool, len: u64) -> (r: bool)
        ensures
            r == (is_file && len < self.max_bytes()),
            r == is_wanted(is_file, len, self.max_bytes()),
    {
        is_file && len < self.max_size_bytes
    }

    /// Takes in what was read of a path. Tells whether anything was new, when
    /// it was seen, and whether the contents were new. `infos` holds what is
    /// known of the directories above.
    pub fn update_file(
        &mut self,
        path: &FilePath,
        is_file: bool,
        content: &FileContent,
        infos: &PathMap<DirInfo>,
        now: i64,
    ) -> (r: (bool, Option<i64>, bool))
        ensures
            update_outcome(*old(self), *path, is_file, *content, infos@, now, r, *final(self)),
    {
        let ghost before = *self;
        let _ = self.snapshot.nodes.len();
        if !self.wants_file(is_file, content.stat.len) {
            return (false, None, false);
        }
        let (content_changed, metadata_changed) = match self.snapshot.nodes.get(path) {
            Some(node) => (node.hash != content.hash, has_other_metadata(node, content)),
            None => (true, true),
        };
        if !content_changed && !metadata_changed {
            return (false, None, false);
        }
        let node = FileNode::of_file(content.hash, &content.stat, content.extras.clone());
        self.snapshot.nodes.insert(path.clone(), node);
        let ghost mid = self.snapshot.nodes.items();
        let ghost times = self.change_times@;
        recalculate_parent_hashes(
            &mut self.snapshot.nodes,
            &mut self.change_times,
            &self.snapshot.root,
            path,
            content_changed,
            infos,
            now,
        );
        let ghost times1 = self.change_times@;
        self.change_times.insert(path.clone(), now);
        proof {
            let after = *self;
            let up = ancestors(path.key(), before.snapshot().root.key());
            lemma_not_above_itself(path.key(), before.snapshot().root.key());
            assert(carried_over(before, mid, *path, content_changed, infos@, after));
            assert forall|k: PathKey| #![trigger after.times().contains_key(k)]
                time_after(before, mid, *path, content_changed, true, now, after, k) by {
                let _ = times1.contains_key(k);
                let _ = times1.contains_key(path.key());
            }
        }
        (true, Some(now), content_changed)
    }

    /// Takes a path out. Tells whether it was known.
    pub fn remove_file(&mut self, path: &FilePath, infos: &PathMap<DirInfo>, now: i64) -> (r: bool)
        ensures
            final(self).same_frame(old(self)),
            in_path_order(final(self).nodes()),
            r == items_map(old(self).nodes()).contains_key(path.key()),
            r ==> file_taken(*old(self), *path, infos@, now, *final(self)),
            !r ==> same_state(*old(self), *final(self)),
            remove_outcome(*old(self), *path, infos@, now, r, *final(self)),
    {
        let ghost before = *self;
        let _ = self.snapshot.nodes.len();
        if !self.snapshot.nodes.contains(path) {
            return false;
        }
        let _ = self.snapshot.nodes.remove(path);
        let ghost mid = self.snapshot.nodes.items();
        recalculate_parent_hashes(
            &mut self.snapshot.nodes,
            &mut self.change_times,
            &self.snapshot.root,
            path,
            true,
            infos,
            now,
        );
        proof {
            let after = *self;
            assert(carried_over(before, mid, *path, true, infos@, after));
            assert forall|k: PathKey| #![trigger after.times().contains_key(k)]
                time_after(before, mid, *path, true, false, now, after, k) by {}
        }
        true
    }
}

/// What was read of one file of a batch.
#[derive(Debug)]
pub struct Reading {
    pub path: FilePath,
    pub content: FileContent,
}

/// What an update of one file of a batch came to.
#[derive(Debug)]
pub struct Update {
    pub path: FilePath,
    pub updated: bool,
    pub change_time: Option<i64>,
    pub content_changed: bool,
    /// What was new; empty where nothing was.
    pub details: String,
}

/// One step of a batch.
pub open spec fn batch_step(
    before: Monitor,
    reading: Reading,
    infos: Map<PathKey, (Seq<u8>, DirInfo)>,
    now: i64,
    update: Update,
    after: Monitor,
) -> bool {
    let known = node_at(items_map(before.nodes()), reading.path.key());
    &&& update_outcome(
        before,
        reading.path,
        true,
        reading.content,
        infos,
        now,
        (update.updated, update.change_time, update.content_changed),
        after,
    )
    &&& update.path@ == reading.path@
    &&& update.details@ == if update.updated {
        details_of(known, node_for(reading.content))
    } else {
        Seq::empty()
    }
}

/// A batch is its files taken in one after the other.
pub open spec fn batch_outcome(
    before: Monitor,
    batch: Seq<Reading>,
    infos: Map<PathKey, (Seq<u8>, DirInfo)>,
    now: i64,
    updates: Seq<Update>,
    after: Monitor,
) -> bool
    decreases batch.len(),
{
    if batch.len() == 0 {
        updates.len() == 0 && after == before
    } else {
        &&& updates.len() == batch.len()
        &&& exists|mid: Monitor|
            batch_outcome(before, batch.drop_last(), infos, now, updates.drop_last(), mid)
                && #[trigger] batch_step(mid, batch.last(), infos, now, updates.last(), after)
    }
}

proof fn lemma_batch_step(
    before: Monitor,
    batch: Seq<Reading>,
    infos: Map<PathKey, (Seq<u8>, DirInfo)>,
    now: i64,
    updates: Seq<Update>,
    mid: Monitor,
    reading: Reading,
    update: Update,
    after: Monitor,
)
    requires
        updates.len() == batch.len(),
        batch_outcome(before, batch, infos, now, updates, mid),
        batch_step(mid, reading, infos, now, update, after),
    ensures
        batch_outcome(before, batch.push(reading), infos, now, updates.push(update), after),
{
    let more = batch.push(reading);
    let further = updates.push(update);
    assert(more.drop_last() =~= batch);
    assert(further.drop_last() =~= updates);
    assert(batch_outcome(before, more.drop_last(), infos, now, further.drop_last(), mid));
    assert(batch_step(mid, more.last(), infos, now, further.last(), after));
}

impl Monitor {
    /// Takes in what was read of several files, one after the other.
    pub fn update_files_batch(
        &mut self,
        batch: &Vec<Reading>,
        infos: &PathMap<DirInfo>,
        now: i64,
    ) -> (r: Vec<Update>)
        ensures
            batch_outcome(*old(self), batch@, infos@, now, r@, *final(self)),
    {
        let mut updates: Vec<Update> = Vec::new();
        let mut i: usize = 0;
        assert(batch@.take(0) =~= Seq::empty());
        while i < batch.len()
            invariant
                i <= batch@.len(),
                updates@.len() == i,
                batch_outcome(*old(self), batch@.take(i as int), infos@, now, updates@, *self),
            decreases batch@.len() - i,
        {
            let reading = &batch[i];
            let ghost mid = *self;
            let ghost before = updates@;
            let ghost first = batch@.take(i as int);
            let details = match self.snapshot.nodes.get(&reading.path) {
                Some(node) => {
                    let content = &reading.content;
                    let fresh = FileNode::of_file(content.hash, &content.stat, content.extras.clone());
                    change_details(Some(node), &fresh)
                },
                None => "new".to_string(),
            };
            let (updated, change_time, content_changed) = self.update_file(
                &reading.path,
                true,
                &reading.content,
                infos,
                now,
            );
            let update = Update {
                path: reading.path.clone(),
                updated,
                change_time,
                content_changed,
                details: if updated {
                    details
                } else {
                    String::new()
                },
            };
            updates.push(update);
            proof {
                assert(batch@.take(i + 1) =~= first.push(*reading));
                assert(updates@ =~= before.push(update));
                assert(update.details@ =~= if update.updated {
                    details_of(
                        node_at(items_map(mid.nodes()), reading.path.key()),
                        node_for(reading.content),
                    )
                } else {
                    Seq::empty()
                });
                assert(batch_step(mid, *reading, infos@, now, update, *self));
                lemma_batch_step(
                    *old(self),
                    first,
                    infos@,
                    now,
                    before,
                    mid,
                    *reading,
                    update,
                    *self,
                );
            }
            i = i + 1;
        }
        assert(batch@.take(i as int) =~= batch@);
        updates
    }
}

} // verus!
