//! Looking at everything again.
use vstd::prelude::*;
use crate::monitor::{anything_new, has_other_metadata, Monitor};
use crate::node::{borrowed_items, FileNode, Items};
use crate::path::{components, is_child, key_within, FilePath, PathKey};
use crate::path_map::{
    in_path_order, item_key, items_map, key_index, lemma_key_index, PathMap,
};
use crate::snapshot::{path_texts, same_snapshot, FileContent, Snapshot};
use crate::tree::{
    children_of, lemma_child_listed, lemma_filter_step, lemma_listed_child, select_children,
};

verus! {

/// What became of a file since it was listed.
#[derive(Debug)]
pub enum Recheck {
    Gone,
    Unreadable,
    Read(FileContent),
}

/// A listed file counts as changed: it is gone, or something about it is new.
pub open spec fn recheck_changed(node: FileNode, recheck: Recheck) -> bool {
    match recheck {
        Recheck::Gone => true,
        Recheck::Unreadable => false,
        Recheck::Read(content) => anything_new(Some(node), content),
    }
}

/// The texts of the listed files that count as changed.
pub open spec fn changed_texts(listed: Seq<(FilePath, FileNode)>, rechecks: Seq<Recheck>) -> Seq<
    Seq<u8>,
>
    decreases listed.len(),
{
    if listed.len() == 0 {
        Seq::empty()
    } else {
        let before = changed_texts(listed.drop_last(), rechecks.drop_last());
        if recheck_changed(listed.last().1, rechecks.last()) {
            before.push(listed.last().0@)
        } else {
            before
        }
    }
}

/// Entries of a list as items.
pub open spec fn listed_items(listed: Seq<(FilePath, FileNode)>) -> Items {
    listed.map_values(|e: (FilePath, FileNode)| (e.0@, e.1))
}

/// A file.
pub open spec fn is_file_item() -> spec_fn((Seq<u8>, FileNode)) -> bool {
    |item: (Seq<u8>, FileNode)| !item.1.is_dir
}

/// A directory at or below `root`.
pub open spec fn is_dir_under(root: PathKey) -> spec_fn((Seq<u8>, FileNode)) -> bool {
    |item: (Seq<u8>, FileNode)| item.1.is_dir && key_within(item_key(item), root)
}

/// The texts of items.
pub open spec fn item_texts(items: Items) -> Seq<Seq<u8>> {
    items.map_values(|item: (Seq<u8>, FileNode)| item.0)
}

/// The entries that are read again.
pub open spec fn items_to_check(nodes: Items) -> Items {
    nodes.filter(is_file_item())
}

/// The directories that are searched for new files.
pub open spec fn items_to_search(nodes: Items, root: PathKey) -> Items {
    nodes.filter(is_dir_under(root))
}

/// What becomes of the time of a change when old ones are forgotten.
pub open spec fn time_kept(
    before: Map<PathKey, (Seq<u8>, i64)>,
    now: i64,
    max_age: i64,
    after: Map<PathKey, (Seq<u8>, i64)>,
    k: PathKey,
) -> bool {
    &&& after.contains_key(k) <==> before.contains_key(k) && !outdated(before[k].1, now, max_age)
    &&& after.contains_key(k) ==> after[k] == before[k]
}

/// Seen more than `max_age` seconds ago.
pub open spec fn outdated(time: i64, now: i64, max_age: i64) -> bool {
    now - time > max_age
}

impl Monitor {
    /// When a path was last seen to change.
    pub fn get_change_time(&self, path: &FilePath) -> (r: Option<i64>)
        ensures
            r is Some <==> self.times().contains_key(path.key()),
            r matches Some(time) ==> time == self.times()[path.key()].1,
    {
        match self.change_times.get(path) {
            Some(time) => Some(*time),
            None => None,
        }
    }

    /// All change times.
    pub fn get_all_change_times(&self) -> (r: PathMap<i64>)
        ensures
            r@ == self.times(),
    {
        let r = self.change_times.clone();
        assert(r.items() =~= self.change_times.items()) by {
            assert forall|j: int| 0 <= j < r.items().len() implies r.items()[j]
                == self.change_times.items()[j] by {
                assert(cloned(self.change_times.items()[j].1, r.items()[j].1));
            }
        }
        r
    }

    /// Forgets changes that were seen more than `max_age` seconds ago.
    pub fn cleanup_old_change_times(&mut self, max_age: i64, now: i64)
        ensures
            final(self).same_frame(old(self)),
            final(self).nodes() == old(self).nodes(),
            forall|k: PathKey| #[trigger]
                final(self).times().contains_key(k) <==> old(self).times().contains_key(k)
                    && !outdated(old(self).times()[k].1, now, max_age),
            forall|k: PathKey| #[trigger]
                final(self).times().contains_key(k) <==> old(self).times().contains_key(k) && now
                    - old(self).times()[k].1 <= max_age,
            forall|k: PathKey| #[trigger]
                final(self).times().contains_key(k) ==> final(self).times()[k]
                    == old(self).times()[k],
            forall|k: PathKey|
                #![trigger final(self).times().contains_key(k)]
                time_kept(old(self).times(), now, max_age, final(self).times(), k),
    {
        let ghost all = self.change_times.items();
        let total = self.change_times.len();
        let mut kept: PathMap<i64> = PathMap::new();
        let mut i: usize = 0;
        while i < total
            invariant
                i <= total == all.len(),
                all == self.change_times.items(),
                in_path_order(all),
                *self == *old(self),
                forall|k: PathKey| #[trigger]
                    kept@.contains_key(k) <==> exists|j: int|
                        0 <= j < i && #[trigger] item_key(all[j]) == k && !outdated(
                            all[j].1,
                            now,
                            max_age,
                        ),
                forall|k: PathKey| #[trigger] kept@.contains_key(k) ==> kept@[k] == items_map(all)[k],
            decreases total - i,
        {
            let path = self.change_times.path_at(i);
            let time: i64 = *self.change_times.value_at(i);
            let ghost before = kept@;
            let ghost key = item_key(all[i as int]);
            proof {
                lemma_key_index(all, i as int);
                if before.contains_key(key) {
                    let j = choose|j: int|
                        0 <= j < i && #[trigger] item_key(all[j]) == key && !outdated(
                            all[j].1,
                            now,
                            max_age,
                        );
                    lemma_key_index(all, j);
                }
            }
            let age: i128 = now as i128 - time as i128;
            if age <= max_age as i128 {
                kept.insert(path.clone(), time);
            }
            proof {
                assert forall|k: PathKey| #[trigger]
                    kept@.contains_key(k) <==> exists|j: int|
                    0 <= j < i + 1 && #[trigger] item_key(all[j]) == k && !outdated(
                        all[j].1,
                        now,
                        max_age,
                    ) by {
                    if kept@.contains_key(k) {
                        if before.contains_key(k) {
                            let j = choose|j: int|
                                0 <= j < i && #[trigger] item_key(all[j]) == k && !outdated(
                                    all[j].1,
                                    now,
                                    max_age,
                                );
                            assert(item_key(all[j]) == k);
                        } else {
                            assert(item_key(all[i as int]) == k);
                        }
                    }
                }
                assert forall|k: PathKey| #[trigger] kept@.contains_key(k) implies kept@[k]
                    == items_map(all)[k] by {
                    assert(k != key ==> before.contains_key(k));
                }
            }
            i = i + 1;
        }
        proof {
            assert forall|k: PathKey| #[trigger]
                kept@.contains_key(k) <==> old(self).times().contains_key(k) && !outdated(
                old(self).times()[k].1,
                now,
                max_age,
            ) by {
                if kept@.contains_key(k) {
                    let j = choose|j: int|
                        0 <= j < i && #[trigger] item_key(all[j]) == k && !outdated(
                            all[j].1,
                            now,
                            max_age,
                        );
                    lemma_key_index(all, j);
                }
                if items_map(all).contains_key(k) && !outdated(items_map(all)[k].1, now, max_age) {
                    let j = key_index(all, k);
                    assert(item_key(all[j]) == k && !outdated(all[j].1, now, max_age));
                }
            }
        }
        self.change_times = kept;
    }

    /// The files of the snapshot with their nodes, to be read again.
    pub fn files_to_check(&self) -> (r: Vec<(FilePath, FileNode)>)
        ensures
            listed_items(r@) == self.nodes().filter(is_file_item()),
            listed_items(r@) == items_to_check(self.nodes()),
    {
        let ghost items = self.nodes();
        let ghost p = is_file_item();
        let nodes = &self.snapshot.nodes;
        let total = nodes.len();
        let mut r: Vec<(FilePath, FileNode)> = Vec::new();
        let mut i: usize = 0;
        proof {
            reveal(Seq::filter);
            assert(listed_items(r@) =~= items.take(0).filter(p));
        }
        while i < total
            invariant
                i <= total == items.len(),
                items == nodes.items(),
                p == is_file_item(),
                listed_items(r@) == items.take(i as int).filter(p),
            decreases total - i,
        {
            let ghost before = r@;
            let node = nodes.value_at(i);
            proof {
                lemma_filter_step(items, p, i as int);
            }
            if !node.is_dir {
                let entry = (nodes.path_at(i).clone(), node.clone());
                r.push(entry);
                assert(listed_items(r@) =~= listed_items(before).push((entry.0@, entry.1)));
            }
            i = i + 1;
        }
        assert(items.take(i as int) =~= items);
        r
    }

    /// The listed files that changed since: those that are gone, and those of
    /// which something is new.
    pub fn verify_all_files(listed: &Vec<(FilePath, FileNode)>, rechecks: &Vec<Recheck>) -> (r: Vec<
        FilePath,
    >)
        requires
            listed@.len() == rechecks@.len(),
        ensures
            path_texts(r@) == changed_texts(listed@, rechecks@),
    {
        let mut r: Vec<FilePath> = Vec::new();
        let mut i: usize = 0;
        assert(listed@.take(0) =~= Seq::empty());
        assert(path_texts(r@) =~= Seq::empty());
        while i < listed.len()
            invariant
                i <= listed@.len() == rechecks@.len(),
                path_texts(r@) == changed_texts(listed@.take(i as int), rechecks@.take(i as int)),
            decreases listed@.len() - i,
        {
            let ghost before = r@;
            let node = &listed[i].1;
            proof {
                assert(listed@.take(i + 1).drop_last() =~= listed@.take(i as int));
                assert(rechecks@.take(i + 1).drop_last() =~= rechecks@.take(i as int));
            }
            let changed = match &rechecks[i] {
                Recheck::Gone => true,
                Recheck::Unreadable => false,
                Recheck::Read(content) => content.hash != node.hash || has_other_metadata(
                    node,
                    content,
                ),
            };
            if changed {
                let path = listed[i].0.clone();
                r.push(path);
                assert(path_texts(r@) =~= path_texts(before).push(path@));
            }
            i = i + 1;
        }
        assert(listed@.take(i as int) =~= listed@);
        assert(rechecks@.take(i as int) =~= rechecks@);
        r
    }

    /// The directories of the snapshot at or below its root, to be searched for
    /// new files.
    pub fn dirs_to_scan(&self) -> (r: Vec<FilePath>)
        ensures
            path_texts(r@) == item_texts(
                self.nodes().filter(is_dir_under(self.snapshot().root.key())),
            ),
            path_texts(r@) == item_texts(
                items_to_search(self.nodes(), self.snapshot().root.key()),
            ),
    {
        let ghost items = self.nodes();
        let root = &self.snapshot.root;
        let ghost p = is_dir_under(root.key());
        let nodes = &self.snapshot.nodes;
        let total = nodes.len();
        let mut r: Vec<FilePath> = Vec::new();
        let mut i: usize = 0;
        proof {
            reveal(Seq::filter);
            assert(path_texts(r@) =~= item_texts(items.take(0).filter(p)));
        }
        while i < total
            invariant
                i <= total == items.len(),
                items == nodes.items(),
                p == is_dir_under(root.key()),
                path_texts(r@) == item_texts(items.take(i as int).filter(p)),
            decreases total - i,
        {
            let ghost before = r@;
            let path = nodes.path_at(i);
            proof {
                lemma_filter_step(items, p, i as int);
            }
            if nodes.value_at(i).is_dir && path.starts_with(root) {
                let found = path.clone();
                r.push(found);
                proof {
                    assert(path_texts(r@) =~= path_texts(before).push(found@));
                    assert(item_texts(items.take(i + 1).filter(p)) =~= item_texts(
                        items.take(i as int).filter(p),
                    ).push(items[i as int].0));
                }
            }
            i = i + 1;
        }
        assert(items.take(i as int) =~= items);
        r
    }

    /// A path text that the snapshot does not know.
    pub open spec fn is_unknown(&self) -> spec_fn(Seq<u8>) -> bool {
        |text: Seq<u8>| !items_map(self.nodes()).contains_key(components(text))
    }

    /// The files found that the snapshot does not know yet.
    pub fn scan_for_new_files(&self, found: &Vec<FilePath>) -> (r: Vec<FilePath>)
        ensures
            path_texts(r@) == path_texts(found@).filter(self.is_unknown()),
    {
        let ghost p = self.is_unknown();
        let ghost all = path_texts(found@);
        let mut r: Vec<FilePath> = Vec::new();
        let mut i: usize = 0;
        proof {
            reveal(Seq::filter);
            assert(path_texts(r@) =~= all.take(0).filter(p));
        }
        while i < found.len()
            invariant
                i <= found@.len(),
                all == path_texts(found@),
                p == self.is_unknown(),
                path_texts(r@) == all.take(i as int).filter(p),
            decreases found@.len() - i,
        {
            let ghost before = r@;
            proof {
                reveal(Seq::filter);
                assert(all.take(i + 1).drop_last() =~= all.take(i as int));
                assert(all.take(i + 1).last() == found@[i as int]@);
            }
            if !self.snapshot.nodes.contains(&found[i]) {
                let path = found[i].clone();
                r.push(path);
                assert(path_texts(r@) =~= path_texts(before).push(path@));
            }
            i = i + 1;
        }
        assert(all.take(i as int) =~= all);
        r
    }

    /// A copy of the snapshot as it stands.
    pub fn get_snapshot(&self) -> (r: Snapshot)
        ensures
            same_snapshot(r, self.snapshot()),
    {
        self.snapshot.clone()
    }
}

impl Monitor {
    /// The path belongs to the view of a directory: the directory itself, the
    /// one above it, or what stands directly in it.
    pub open spec fn in_view(dir: PathKey, k: PathKey) -> bool {
        k == dir || is_child(dir, k) || is_child(k, dir)
    }

    /// The root, and the nodes that belong to the view of a directory.
    pub fn get_directory_snapshot(&self, dir: &FilePath) -> (r: (FilePath, PathMap<FileNode>))
        ensures
            r.0@ == self.snapshot().root@,
            forall|k: PathKey| #[trigger]
                r.1@.contains_key(k) <==> items_map(self.nodes()).contains_key(k)
                    && Monitor::in_view(dir.key(), k),
            forall|k: PathKey| #[trigger]
                r.1@.contains_key(k) ==> r.1@[k] == items_map(self.nodes())[k],
            in_path_order(r.1.items()),
    {
        let nodes = &self.snapshot.nodes;
        let ghost items = nodes.items();
        let ghost all = items_map(items);
        let mut view: PathMap<FileNode> = PathMap::new();
        if let Some(parent) = dir.parent() {
            if let Some(path) = nodes.stored_path(&parent) {
                if let Some(node) = nodes.get(&parent) {
                    proof {
                        lemma_stored_key(items, parent.key());
                    }
                    view.insert(path.clone(), node.clone());
                }
            }
        }
        proof {
            assert forall|k: PathKey| #[trigger]
                view@.contains_key(k) <==> all.contains_key(k) && is_child(dir.key(), k) by {}
        }
        if let Some(path) = nodes.stored_path(dir) {
            if let Some(node) = nodes.get(dir) {
                proof {
                    lemma_stored_key(items, dir.key());
                }
                view.insert(path.clone(), node.clone());
            }
        }
        let children = select_children(nodes, dir, false);
        let ghost listing = children_of(items, dir.key(), false);
        let ghost base = view@;
        proof {
            assert forall|k: PathKey| #[trigger]
                base.contains_key(k) <==> all.contains_key(k) && (k == dir.key() || is_child(
                    dir.key(),
                    k,
                )) by {}
        }
        let mut i: usize = 0;
        while i < children.len()
            invariant
                i <= children@.len(),
                items == nodes.items(),
                all == items_map(items),
                in_path_order(items),
                listing == children_of(items, dir.key(), false),
                borrowed_items(children@) == listing,
                listing.len() == children@.len(),
                forall|k: PathKey| #[trigger]
                    base.contains_key(k) <==> all.contains_key(k) && (k == dir.key() || is_child(
                        dir.key(),
                        k,
                    )),
                forall|k: PathKey| #[trigger]
                    view@.contains_key(k) <==> base.contains_key(k) || exists|j: int|
                        0 <= j < i && item_key(#[trigger] listing[j]) == k,
                forall|k: PathKey| #[trigger] view@.contains_key(k) ==> view@[k] == all[k],
            decreases children@.len() - i,
        {
            let path = children[i].0;
            let node = children[i].1;
            let ghost before = view@;
            let ghost key = item_key(listing[i as int]);
            proof {
                assert(listing[i as int] == (path@, *node));
                lemma_listed_child(items, dir.key(), i as int);
            }
            view.insert(path.clone(), node.clone());
            proof {
                assert(before.contains_key(key) ==> before[key].0 == path@);
                assert forall|k: PathKey| #[trigger]
                    view@.contains_key(k) <==> base.contains_key(k) || exists|j: int|
                    0 <= j < i + 1 && item_key(#[trigger] listing[j]) == k by {
                    if before.contains_key(k) && !base.contains_key(k) {
                        let j = choose|j: int| 0 <= j < i && item_key(#[trigger] listing[j]) == k;
                        assert(item_key(listing[j]) == k);
                    }
                    assert(item_key(listing[i as int]) == key);
                }
                assert forall|k: PathKey| #[trigger] view@.contains_key(k) implies view@[k] == all[k] by {
                    assert(k != key ==> before.contains_key(k));
                }
            }
            i = i + 1;
        }
        proof {
            assert forall|k: PathKey| #[trigger]
                view@.contains_key(k) <==> all.contains_key(k) && Monitor::in_view(dir.key(), k) by {
                if view@.contains_key(k) && !base.contains_key(k) {
                    let j = choose|j: int| 0 <= j < i && item_key(#[trigger] listing[j]) == k;
                    lemma_listed_child(items, dir.key(), j);
                }
                if all.contains_key(k) && is_child(k, dir.key()) {
                    lemma_child_listed(items, dir.key(), k);
                }
            }
        }
        let root = self.snapshot.root.clone();
        let _ = view.len();
        (root, view)
    }
}

/// An item stands under its own key.
proof fn lemma_stored_key(items: Items, k: PathKey)
    requires
        items_map(items).contains_key(k),
    ensures
        item_key(items_map(items)[k]) == k,
{
}

} // verus!
