//! What a watch over a tree takes in, finds and forgets, field by field.
use vstd::prelude::*;
use vstd::utf8::encode_utf8;
use crate::bubble::{ancestors, raised_at};
use crate::debounce::{
    give_step, hold_step, paths_of, poll_step, ready, save_step, update_step, DebounceTracker,
};
use crate::diff::node_at;
use crate::digest::xxh3_64;
use crate::laws::differences::{law_parts_name_what_differs, lemma_lists_files, lists_files_in};
use crate::monitor::event::{counts, Change, FileEvent, RawEvent};
use crate::monitor::recheck::{
    changed_texts, is_dir_under, is_file_item, items_to_check, items_to_search, time_kept, Recheck,
};
use crate::monitor::watch::{
    critical_texts, is_used_up, lists_path, next_step, watch_step, WatchSetup,
};
use crate::monitor::{
    batch_step, carried_over, content_new, file_put, file_taken, is_wanted,
    lemma_not_above_itself, node_for, remove_outcome, time_after, update_outcome, Monitor, Reading,
    Update,
};
use crate::node::{held_size, listing_bytes, DirInfo, FileNode, Items};
use crate::path::{has_parent, joined_text, key_within, FilePath, PathKey};
use crate::path_map::{in_path_order, item_key, items_map, lemma_key_index};
use crate::report::{texts_to_watch, update_texts};
use crate::snapshot::{texts_under, FileContent};
use crate::text::lossy_utf8;
use crate::tree::children_of;

verus! {

/// The directories above a path that a change of it reaches: those whose
/// components begin the path's, as far down from the root of the watch as they
/// go.
pub proof fn law_a_change_reaches_the_directories_above(key: PathKey, root: PathKey, k: PathKey)
    ensures
        ancestors(key, root).contains(k) <==> {
            &&& k.len() < key.len()
            &&& k.is_prefix_of(key)
            &&& root.is_prefix_of(k)
            &&& forall|m: int| k.len() <= m < key.len() ==> #[trigger] key[m] != seq![47u8]
        },
    decreases key.len(),
{
    let up = ancestors(key, root);
    let dir = key.drop_last();
    let below = {
        &&& k.len() < key.len()
        &&& k.is_prefix_of(key)
        &&& root.is_prefix_of(k)
        &&& forall|m: int| k.len() <= m < key.len() ==> #[trigger] key[m] != seq![47u8]
    };
    if key.len() == 0 {
        assert(up =~= Seq::empty());
    } else if !has_parent(key) {
        assert(key[key.len() - 1] == seq![47u8]);
        assert(up =~= Seq::empty());
    } else if !key_within(dir, root) {
        assert(up =~= Seq::empty());
        if below {
            assert(root.is_prefix_of(dir)) by {
                assert(k.is_prefix_of(dir));
            }
        }
    } else {
        law_a_change_reaches_the_directories_above(dir, root, k);
        let further = ancestors(dir, root);
        assert(up == seq![dir] + further);
        assert(up.contains(k) <==> k == dir || further.contains(k)) by {
            if up.contains(k) {
                let i = choose|i: int| 0 <= i < up.len() && up[i] == k;
                if i > 0 {
                    assert(further[i - 1] == k);
                }
            }
            if k == dir {
                assert(up[0] == k);
            }
            if further.contains(k) {
                let i = choose|i: int| 0 <= i < further.len() && further[i] == k;
                assert(up[i + 1] == k);
            }
        }
        if k == dir {
            assert(below);
        }
        if further.contains(k) {
            assert forall|m: int| k.len() <= m < key.len() implies #[trigger] key[m] != seq![47u8] by {
                if m < dir.len() {
                    assert(dir[m] == key[m]);
                }
            }
            assert(k.is_prefix_of(key));
        }
        if below && k != dir {
            assert(k.len() < dir.len()) by {
                if k.len() == dir.len() {
                    assert(k =~= dir);
                }
            }
            assert(k.is_prefix_of(dir));
            assert forall|m: int| k.len() <= m < dir.len() implies #[trigger] dir[m] != seq![47u8] by {
                assert(dir[m] == key[m]);
            }
        }
    }
}

/// An update takes in a file below the limit that is not known, or of which the
/// checksum or one of the fields looked at differs, and nothing else. What it
/// takes in is held field by field from then on, with its time.
pub proof fn law_update_takes_in_what_differs(
    before: Monitor,
    path: FilePath,
    is_file: bool,
    content: FileContent,
    infos: Map<PathKey, (Seq<u8>, DirInfo)>,
    now: i64,
    r: (bool, Option<i64>, bool),
    after: Monitor,
)
    requires
        update_outcome(before, path, is_file, content, infos, now, r, after),
    ensures
        ({
            let k = path.key();
            let held = items_map(before.nodes());
            let known = held.contains_key(k);
            let node = items_map(after.nodes())[k].1;
            &&& r.0 <==> is_file && content.stat.len < before.max_bytes() && (!known
                || held[k].1.hash != content.hash || held[k].1.mtime != content.stat.mtime
                || held[k].1.mode != content.stat.mode || held[k].1.uid != content.stat.uid
                || held[k].1.gid != content.stat.gid || held[k].1.nlink as int != (if content.stat.nlink > 65535 {
                    65535int
                } else {
                    content.stat.nlink as int
                }) || held[k].1.xattrs_hash != content.extras.xattrs_hash || held[k].1.flags
                != content.extras.flags)
            &&& r.2 <==> r.0 && (!known || held[k].1.hash != content.hash)
            &&& r.1 == if r.0 {
                Some(now)
            } else {
                None::<i64>
            }
            &&& !r.0 ==> after.nodes() == before.nodes() && after.times() == before.times()
            &&& r.0 ==> {
                &&& items_map(after.nodes()).contains_key(k)
                &&& node.hash == content.hash
                &&& node.size == content.stat.len
                &&& !node.is_dir
                &&& node.uid == content.stat.uid
                &&& node.gid == content.stat.gid
                &&& node.mode == content.stat.mode
                &&& node.mtime == content.stat.mtime
                &&& node.atime == content.stat.atime
                &&& node.ctime == content.stat.ctime
                &&& node.nlink as int == (if content.stat.nlink > 65535 {
                    65535int
                } else {
                    content.stat.nlink as int
                })
                &&& node.xattrs_hash == content.extras.xattrs_hash
                &&& node.lsm_context == content.extras.lsm_context
                &&& node.flags == content.extras.flags
                &&& after.times().contains_key(k)
                &&& after.times()[k].1 == now
            }
        }),
{
    let k = path.key();
    let known = node_at(items_map(before.nodes()), k);
    if r.0 {
        let mid = put_between(before, path, content, content_new(known, content), infos, now, after);
        lemma_put_between(before, path, content, content_new(known, content), infos, now, after);
        lemma_not_above_itself(k, before.snapshot().root.key());
        let up = ancestors(k, before.snapshot().root.key());
        if content_new(known, content) {
            assert(raised_at(mid, infos, path@, up, after.nodes(), k));
        }
        let _ = after.times().contains_key(k);
        assert(time_after(
            before,
            mid,
            path,
            content_new(known, content),
            true,
            now,
            after,
            k,
        ));
    }
}

/// The nodes between putting a file in and carrying the change over.
spec fn put_between(
    before: Monitor,
    path: FilePath,
    content: FileContent,
    content_changed: bool,
    infos: Map<PathKey, (Seq<u8>, DirInfo)>,
    now: i64,
    after: Monitor,
) -> Items {
    choose|mid: Items|
        #![trigger carried_over(before, mid, path, content_changed, infos, after)]
        {
            &&& in_path_order(mid)
            &&& items_map(mid) == items_map(before.nodes()).insert(
                path.key(),
                (
                    if items_map(before.nodes()).contains_key(path.key()) {
                        items_map(before.nodes())[path.key()].0
                    } else {
                        path@
                    },
                    node_for(content),
                ),
            )
            &&& carried_over(before, mid, path, content_changed, infos, after)
            &&& forall|k: PathKey|
                #![trigger after.times().contains_key(k)]
                time_after(before, mid, path, content_changed, true, now, after, k)
        }
}

proof fn lemma_put_between(
    before: Monitor,
    path: FilePath,
    content: FileContent,
    content_changed: bool,
    infos: Map<PathKey, (Seq<u8>, DirInfo)>,
    now: i64,
    after: Monitor,
)
    requires
        file_put(before, path, node_for(content), content_changed, infos, now, after),
    ensures
        ({
            let mid = put_between(before, path, content, content_changed, infos, now, after);
            &&& in_path_order(mid)
            &&& items_map(mid) == items_map(before.nodes()).insert(
                path.key(),
                (
                    if items_map(before.nodes()).contains_key(path.key()) {
                        items_map(before.nodes())[path.key()].0
                    } else {
                        path@
                    },
                    node_for(content),
                ),
            )
            &&& carried_over(before, mid, path, content_changed, infos, after)
            &&& forall|k: PathKey|
                #![trigger after.times().contains_key(k)]
                time_after(before, mid, path, content_changed, true, now, after, k)
        }),
{
}

/// What an update does to a directory above the file, in scope: with new
/// contents its checksum is taken over the files directly in it, and it counts
/// as changed where that made a new checksum; with nothing but new metadata it
/// stays as it is and counts as changed.
pub proof fn law_update_carries_over(
    before: Monitor,
    path: FilePath,
    content: FileContent,
    infos: Map<PathKey, (Seq<u8>, DirInfo)>,
    now: i64,
    r: (bool, Option<i64>, bool),
    after: Monitor,
    k: PathKey,
    listing: Items,
)
    requires
        update_outcome(before, path, true, content, infos, now, r, after),
        r.0,
        k.len() < path.key().len(),
        k.is_prefix_of(path.key()),
        before.snapshot().root.key().is_prefix_of(k),
        forall|m: int| k.len() <= m < path.key().len() ==> #[trigger] path.key()[m] != seq![47u8],
        lists_files_in(listing, after.nodes(), k),
        listing.len() > 0,
    ensures
        ({
            let held = items_map(before.nodes());
            let now_held = items_map(after.nodes());
            if r.2 {
                &&& now_held.contains_key(k)
                &&& now_held[k].1.is_dir
                &&& now_held[k].1.hash == xxh3_64(listing_bytes(listing))
                &&& now_held[k].1.size == held_size(listing)
                &&& if held.contains_key(k) && held[k].1.hash == now_held[k].1.hash {
                    &&& after.times().contains_key(k) <==> before.times().contains_key(k)
                    &&& before.times().contains_key(k) ==> after.times()[k] == before.times()[k]
                } else {
                    after.times().contains_key(k) && after.times()[k].1 == now
                }
            } else {
                &&& now_held.contains_key(k) == held.contains_key(k)
                &&& held.contains_key(k) ==> now_held[k] == held[k]
                &&& after.times().contains_key(k)
                &&& after.times()[k].1 == now
            }
        }),
{
    let root = before.snapshot().root.key();
    let known = node_at(items_map(before.nodes()), path.key());
    let changed = content_new(known, content);
    let up = ancestors(path.key(), root);
    let mid = put_between(before, path, content, changed, infos, now, after);
    lemma_put_between(before, path, content, changed, infos, now, after);
    law_a_change_reaches_the_directories_above(path.key(), root, k);
    lemma_lists_files(after.nodes(), k);
    lemma_same_listing(listing, children_of(after.nodes(), k, true), after.nodes(), k);
    let _ = after.times().contains_key(k);
    assert(time_after(before, mid, path, changed, true, now, after, k));
    if changed {
        assert(raised_at(mid, infos, path@, up, after.nodes(), k));
    }
}

proof fn lemma_same_listing(a: Items, b: Items, nodes: Items, dir: PathKey)
    requires
        lists_files_in(a, nodes, dir),
        lists_files_in(b, nodes, dir),
    ensures
        a == b,
{
    assert forall|item: (Seq<u8>, FileNode)| #[trigger] a.contains(item) <==> b.contains(item) by {
        let _ = b.contains(item);
    }
    crate::path_map::lemma_same_items(a, b);
}

/// A file that was listed and looked at again counts as changed where it is
/// gone, or where it could be read and its checksum or one of the fields looked
/// at differs from what was listed. One after the other, no file is lost and
/// none is added.
pub proof fn law_check_finds_each_change(
    listed: Seq<(FilePath, FileNode)>,
    rechecks: Seq<Recheck>,
    file: (FilePath, FileNode),
    recheck: Recheck,
)
    requires
        listed.len() == rechecks.len(),
    ensures
        changed_texts(Seq::empty(), Seq::empty()) == Seq::<Seq<u8>>::empty(),
        ({
            let changed = match recheck {
                Recheck::Gone => true,
                Recheck::Unreadable => false,
                Recheck::Read(content) => {
                    ||| file.1.hash != content.hash
                    ||| file.1.mtime != content.stat.mtime
                    ||| file.1.mode != content.stat.mode
                    ||| file.1.uid != content.stat.uid
                    ||| file.1.gid != content.stat.gid
                    ||| file.1.nlink as int != (if content.stat.nlink > 65535 {
                        65535int
                    } else {
                        content.stat.nlink as int
                    })
                    ||| file.1.xattrs_hash != content.extras.xattrs_hash
                    ||| file.1.flags != content.extras.flags
                },
            };
            changed_texts(listed.push(file), rechecks.push(recheck)) == if changed {
                changed_texts(listed, rechecks).push(file.0@)
            } else {
                changed_texts(listed, rechecks)
            }
        }),
{
    assert(listed.push(file).drop_last() =~= listed);
    assert(rechecks.push(recheck).drop_last() =~= rechecks);
}

/// What an update of a known file would take in, the check finds too, and
/// nothing else that was read.
pub proof fn law_check_finds_what_an_update_takes_in(
    before: Monitor,
    path: FilePath,
    content: FileContent,
    infos: Map<PathKey, (Seq<u8>, DirInfo)>,
    now: i64,
    r: (bool, Option<i64>, bool),
    after: Monitor,
)
    requires
        update_outcome(before, path, true, content, infos, now, r, after),
        items_map(before.nodes()).contains_key(path.key()),
        content.stat.len < before.max_bytes(),
    ensures
        ({
            let node = items_map(before.nodes())[path.key()].1;
            let found = changed_texts(seq![(path, node)], seq![Recheck::Read(content)]);
            &&& r.0 ==> found == seq![path@]
            &&& !r.0 ==> found == Seq::<Seq<u8>>::empty()
        }),
{
    let node = items_map(before.nodes())[path.key()].1;
    let none = Seq::<(FilePath, FileNode)>::empty();
    let nothing = Seq::<Recheck>::empty();
    law_update_takes_in_what_differs(before, path, true, content, infos, now, r, after);
    law_check_finds_each_change(none, nothing, (path, node), Recheck::Read(content));
    assert(none.push((path, node)) =~= seq![(path, node)]);
    assert(nothing.push(Recheck::Read(content)) =~= seq![Recheck::Read(content)]);
    assert(Seq::<Seq<u8>>::empty().push(path@) =~= seq![path@]);
}

/// The files that are looked at again are all files of the snapshot, and the
/// directories searched are all of its directories at or below its root.
pub proof fn law_everything_is_looked_at_again(nodes: Items, root: PathKey, i: int)
    requires
        0 <= i < nodes.len(),
    ensures
        nodes.filter(is_file_item()).contains(nodes[i]) <==> !nodes[i].1.is_dir,
        nodes.filter(is_dir_under(root)).contains(nodes[i]) <==> nodes[i].1.is_dir
            && root.is_prefix_of(item_key(nodes[i])),
        items_to_check(nodes).contains(nodes[i]) <==> !nodes[i].1.is_dir,
        items_to_search(nodes, root).contains(nodes[i]) <==> nodes[i].1.is_dir
            && root.is_prefix_of(item_key(nodes[i])),
{
    broadcast use vstd::seq_lib::group_filter_ensures;

    let p = is_file_item();
    let q = is_dir_under(root);
    if p(nodes[i]) {
        nodes.lemma_filter_contains(p, i);
    }
    if q(nodes[i]) {
        nodes.lemma_filter_contains(q, i);
    }
    if nodes.filter(p).contains(nodes[i]) {
        nodes.lemma_filter_contains_rev(p, nodes[i]);
        assert(p(nodes[i]));
    }
    if nodes.filter(q).contains(nodes[i]) {
        nodes.lemma_filter_contains_rev(q, nodes[i]);
        assert(q(nodes[i]));
    }
}

/// Of the files found, those are new that the snapshot has no node for.
pub proof fn law_new_files_are_those_not_held(monitor: Monitor, found: Seq<Seq<u8>>, i: int)
    requires
        0 <= i < found.len(),
    ensures
        found.filter(monitor.is_unknown()).contains(found[i]) <==> !items_map(
            monitor.nodes(),
        ).contains_key(crate::path::components(found[i])),
{
    broadcast use vstd::seq_lib::group_filter_ensures;

    let p = monitor.is_unknown();
    if p(found[i]) {
        found.lemma_filter_contains(p, i);
    }
    if found.filter(p).contains(found[i]) {
        found.lemma_filter_contains_rev(p, found[i]);
        assert(p(found[i]));
    }
}

/// What an update of a batch is put down to names the fields that differ, or
/// says that the file is new.
pub proof fn law_details_name_what_differs(
    before: Monitor,
    reading: Reading,
    infos: Map<PathKey, (Seq<u8>, DirInfo)>,
    now: i64,
    update: Update,
    after: Monitor,
)
    requires
        batch_step(before, reading, infos, now, update, after),
    ensures
        !update.updated ==> update.details@.len() == 0,
        update.updated && !items_map(before.nodes()).contains_key(reading.path.key())
            ==> update.details@ == "new"@,
        update.updated && items_map(before.nodes()).contains_key(reading.path.key()) ==> exists|
            parts: Seq<Seq<char>>,
        |
            #![trigger crate::text::joined(parts, "+"@)]
            {
                let node = items_map(before.nodes())[reading.path.key()].1;
                let content = reading.content;
                &&& update.details@ == crate::text::joined(parts, "+"@)
                &&& parts.contains("content"@) <==> node.hash != content.hash
                &&& parts.contains("mode"@) <==> node.mode != content.stat.mode
                &&& parts.contains("uid"@) <==> node.uid != content.stat.uid
                &&& parts.contains("gid"@) <==> node.gid != content.stat.gid
                &&& parts.contains("mtime"@) <==> node.mtime != content.stat.mtime
                &&& parts.contains("xattrs"@) <==> node.xattrs_hash != content.extras.xattrs_hash
                &&& parts.contains("flags"@) <==> node.flags != content.extras.flags
            },
{
    let k = reading.path.key();
    if update.updated && items_map(before.nodes()).contains_key(k) {
        let node = items_map(before.nodes())[k].1;
        let fresh = node_for(reading.content);
        law_parts_name_what_differs(node, fresh);
        let parts = crate::diff::part_names(node, fresh);
        assert(update.details@ == crate::text::joined(parts, "+"@));
    }
}

/// A path that is taken out leaves the directories above it, in scope, with
/// checksums over the files that remain directly in them, where any do.
pub proof fn law_removal_carries_over(
    before: Monitor,
    path: FilePath,
    infos: Map<PathKey, (Seq<u8>, DirInfo)>,
    now: i64,
    after: Monitor,
    k: PathKey,
    listing: Items,
)
    requires
        file_taken(before, path, infos, now, after),
        in_path_order(after.nodes()),
        k.len() < path.key().len(),
        k.is_prefix_of(path.key()),
        before.snapshot().root.key().is_prefix_of(k),
        forall|m: int| k.len() <= m < path.key().len() ==> #[trigger] path.key()[m] != seq![47u8],
        lists_files_in(listing, after.nodes(), k),
    ensures
        !items_map(after.nodes()).contains_key(path.key()),
        ({
            let held = items_map(before.nodes());
            let now_held = items_map(after.nodes());
            if listing.len() > 0 {
                &&& now_held.contains_key(k)
                &&& now_held[k].1.is_dir
                &&& now_held[k].1.hash == xxh3_64(listing_bytes(listing))
                &&& !held.contains_key(k) || held[k].1.hash != now_held[k].1.hash
                    ==> after.times().contains_key(k) && after.times()[k].1 == now
            } else {
                &&& now_held.contains_key(k) == held.contains_key(k)
                &&& held.contains_key(k) ==> now_held[k] == held[k]
            }
        }),
{
    let mid = choose|mid: Items|
        #![trigger carried_over(before, mid, path, true, infos, after)]
        {
            &&& in_path_order(mid)
            &&& items_map(mid) == items_map(before.nodes()).remove(path.key())
            &&& carried_over(before, mid, path, true, infos, after)
            &&& forall|k: PathKey|
                #![trigger after.times().contains_key(k)]
                time_after(before, mid, path, true, false, now, after, k)
        };
    let root = before.snapshot().root.key();
    let up = ancestors(path.key(), root);
    law_a_change_reaches_the_directories_above(path.key(), root, k);
    lemma_not_above_itself(path.key(), root);
    lemma_lists_files(after.nodes(), k);
    lemma_same_listing(listing, children_of(after.nodes(), k, true), after.nodes(), k);
    let _ = after.times().contains_key(k);
    assert(time_after(before, mid, path, true, false, now, after, k));
    assert(raised_at(mid, infos, path@, up, after.nodes(), k));
    assert(raised_at(mid, infos, path@, up, after.nodes(), path.key()));
}

/// What the kernel reports becomes an event as its bits say: a removal, of the
/// entry or of the directory itself, in any case; a creation, or a change of
/// contents or attributes, where a file stands there now. Reports on unknown
/// watches and of other kinds become none.
pub proof fn law_events_follow_their_bits(monitor: Monitor, raw: Seq<RawEvent>, event: RawEvent)
    ensures
        monitor.events_of(Seq::empty()) == Seq::<(Change, Seq<u8>)>::empty(),
        ({
            let dir = monitor.watch_dirs()[event.watch]@;
            let text = match event.name {
                Some(name) => joined_text(dir, encode_utf8(lossy_utf8(name@))),
                None => dir,
            };
            let before = monitor.events_of(raw);
            let gone = event.mask & 0x200 != 0 || event.mask & 0x400 != 0;
            let created = event.mask & 0x100 != 0;
            let modified = event.mask & 0x2 != 0 || event.mask & 0x4 != 0;
            monitor.events_of(raw.push(event)) == if !monitor.watch_dirs().contains_key(
                event.watch,
            ) {
                before
            } else if gone {
                before.push((Change::Removed, text))
            } else if created && event.is_file {
                before.push((Change::Created, text))
            } else if !created && modified && event.is_file {
                before.push((Change::Modified, text))
            } else {
                before
            }
        }),
{
    assert(raw.push(event).drop_last() =~= raw);
}

/// Events part into paths to read again and paths to take out, none lost.
pub proof fn law_events_part_by_removal(events: Seq<FileEvent>, event: FileEvent)
    ensures
        paths_of(Seq::empty(), true).len() == 0 && paths_of(Seq::empty(), false).len() == 0,
        match event {
            FileEvent::Removed(path) => paths_of(events.push(event), true) == paths_of(
                events,
                true,
            ).push(path@) && paths_of(events.push(event), false) == paths_of(events, false),
            FileEvent::Created(path) => paths_of(events.push(event), false) == paths_of(
                events,
                false,
            ).push(path@) && paths_of(events.push(event), true) == paths_of(events, true),
            FileEvent::Modified(path) => paths_of(events.push(event), false) == paths_of(
                events,
                false,
            ).push(path@) && paths_of(events.push(event), true) == paths_of(events, true),
        },
{
    assert(events.push(event).drop_last() =~= events);
}

/// A critical directory is watched where it exists and lies at or below the
/// scanned one, in the order given.
pub proof fn law_critical_directories_in_scope_are_watched(
    critical: Seq<FilePath>,
    exists_now: Seq<bool>,
    dir: FilePath,
    is_there: bool,
    root: PathKey,
)
    requires
        critical.len() == exists_now.len(),
    ensures
        critical_texts(Seq::empty(), Seq::empty(), root).len() == 0,
        critical_texts(critical.push(dir), exists_now.push(is_there), root) == if is_there
            && root.is_prefix_of(dir.key()) {
            critical_texts(critical, exists_now, root).push(dir@)
        } else {
            critical_texts(critical, exists_now, root)
        },
{
    assert(critical.push(dir).drop_last() =~= critical);
    assert(exists_now.push(is_there).drop_last() =~= exists_now);
}

/// A held change is given out when as many seconds as were asked for have passed
/// since it was last seen, and not before; it waits on exactly where it is not
/// given out.
pub proof fn law_change_is_given_out_after_its_seconds(
    before: DebounceTracker,
    now: u64,
    given: Seq<(Seq<u8>, Seq<char>)>,
    after: DebounceTracker,
    k: PathKey,
)
    requires
        give_step(before, now, given, after),
        before.pending@.contains_key(k),
        before.pending@[k].1.0 <= now,
    ensures
        now - before.pending@[k].1.0 >= before.debounce_seconds * 1_000_000_000 <==> exists|x: int|
            0 <= x < given.len() && crate::path::components(#[trigger] given[x].0) == k,
        now - before.pending@[k].1.0 < before.debounce_seconds * 1_000_000_000
            <==> after.pending@.contains_key(k),
        after.pending@.contains_key(k) ==> after.pending@[k] == before.pending@[k],
{
    crate::debounce::lemma_taken_out(before.pending.items(), now, before.debounce_seconds, k);
}

/// A change that is noted again waits from then on, so it is not given out
/// before the seconds have passed anew.
pub proof fn law_another_change_starts_the_wait_anew(
    before: DebounceTracker,
    path: FilePath,
    details: Seq<char>,
    seen: u64,
    held: DebounceTracker,
    now: u64,
    given: Seq<(Seq<u8>, Seq<char>)>,
    after: DebounceTracker,
)
    requires
        hold_step(before, path, details, seen, held),
        give_step(held, now, given, after),
        seen <= now,
        now - seen < before.debounce_seconds * 1_000_000_000,
    ensures
        forall|x: int|
            0 <= x < given.len() ==> crate::path::components(#[trigger] given[x].0) != path.key(),
        after.pending@.contains_key(path.key()),
{
    assert(held.pending@.contains_key(path.key()));
    law_change_is_given_out_after_its_seconds(held, now, given, after, path.key());
}

/// A tick is a tenth of a second: everything is looked at again after as many
/// tens of ticks as the interval has seconds, and never where that is switched
/// off.
pub proof fn law_interval_is_over_after_its_seconds(
    ticks: u64,
    poll_interval: u64,
    no_scan: bool,
    is_over: bool,
    after: u64,
)
    requires
        ticks < u64::MAX,
        poll_step(ticks, poll_interval, no_scan, is_over, after),
    ensures
        is_over <==> !no_scan && ticks + 1 >= poll_interval * 10,
        is_over ==> after == 0,
        !is_over ==> after == ticks + 1,
{
}

/// Every tenth round is saved.
pub proof fn law_every_tenth_round_is_saved(rounds: u64, is_due: bool, after: u64)
    requires
        rounds < 10,
        save_step(rounds, is_due, after),
    ensures
        is_due <==> rounds == 9,
        after == (rounds + 1) % 10,
{
}

/// Directories are watched in their order, each once, for as long as the budget
/// lasts, and none beyond it.
pub proof fn law_watches_keep_order_and_budget(
    before: WatchSetup,
    used: nat,
    budget: nat,
    r: Option<FilePath>,
    after: WatchSetup,
)
    requires
        before.taken <= before.to_watch@.len(),
        next_step(before, used, budget, r, after),
    ensures
        r is Some <==> before.taken < before.to_watch@.len() && used < budget,
        r is Some ==> r->0@ == before.to_watch@[before.taken as int]@ && after.taken == before.taken
            + 1,
        r is None ==> after.taken == before.to_watch@.len(),
        after.to_watch == before.to_watch,
{
}

/// The critical directories in scope are those at or below the scanned one.
pub proof fn law_in_scope_is_at_or_below(texts: Seq<Seq<u8>>, root: PathKey, i: int)
    requires
        0 <= i < texts.len(),
    ensures
        texts_under(texts, root).contains(texts[i]) <==> root.is_prefix_of(
            crate::path::components(texts[i]),
        ),
{
    broadcast use vstd::seq_lib::group_filter_ensures;

    let p = |t: Seq<u8>| key_within(crate::path::components(t), root);
    if p(texts[i]) {
        texts.lemma_filter_contains(p, i);
    }
    if texts.filter(p).contains(texts[i]) {
        texts.lemma_filter_contains_rev(p, texts[i]);
        assert(p(texts[i]));
    }
}

/// What is said about updates: a line for each that found anything new.
pub proof fn law_each_update_has_its_line(label: Seq<char>, updates: Seq<Update>, update: Update)
    ensures
        update_texts(label, Seq::empty()).len() == 0,
        update_texts(label, updates.push(update)) == if update.updated {
            update_texts(label, updates).push(
                label + " ("@ + update.details@ + "): "@ + lossy_utf8(update.path@),
            )
        } else {
            update_texts(label, updates)
        },
{
    assert(updates.push(update).drop_last() =~= updates);
}

/// A change keeps the text under which its path is first noted.
pub proof fn law_times_keep_their_text(
    before: Monitor,
    path: FilePath,
    content: FileContent,
    infos: Map<PathKey, (Seq<u8>, DirInfo)>,
    now: i64,
    r: (bool, Option<i64>, bool),
    after: Monitor,
    k: PathKey,
)
    requires
        update_outcome(before, path, true, content, infos, now, r, after),
        before.times().contains_key(k),
    ensures
        after.times().contains_key(k),
        after.times()[k].0 == before.times()[k].0,
        after.times()[k].1 == before.times()[k].1 || after.times()[k].1 == now,
{
    if r.0 {
        let known = node_at(items_map(before.nodes()), path.key());
        let changed = content_new(known, content);
        let mid = put_between(before, path, content, changed, infos, now, after);
        lemma_put_between(before, path, content, changed, infos, now, after);
        let _ = after.times().contains_key(k);
        assert(time_after(before, mid, path, changed, true, now, after, k));
    }
}

/// The view of a directory takes the directory, the one above it and what stands
/// directly in it, and nothing else.
pub proof fn law_view_takes_what_is_near(dir: PathKey, k: PathKey)
    ensures
        Monitor::in_view(dir, k) <==> {
            ||| k == dir
            ||| dir.len() > 0 && dir.last() != seq![47u8] && k == dir.drop_last()
            ||| k.len() > 0 && k.last() != seq![47u8] && k.drop_last() == dir
        },
{
}

/// A change that seems to lie ahead has waited for no time at all.
pub proof fn law_change_ahead_has_not_waited(
    before: DebounceTracker,
    now: u64,
    given: Seq<(Seq<u8>, Seq<char>)>,
    after: DebounceTracker,
    k: PathKey,
)
    requires
        give_step(before, now, given, after),
        before.pending@.contains_key(k),
        now < before.pending@[k].1.0,
    ensures
        after.pending@.contains_key(k) <==> before.debounce_seconds > 0,
{
}

/// An update with something to say waits where changes are held and is told at
/// once where they are not; any other is passed over.
pub proof fn law_updates_are_told_or_wait(
    before: Option<DebounceTracker>,
    update: Update,
    now: u64,
    told: Option<(FilePath, String)>,
    after: Option<DebounceTracker>,
)
    requires
        update_step(before, update, now, told, after),
    ensures
        told is Some <==> before is None && update.updated && update.details@.len() > 0,
        told matches Some(report) ==> report.0@ == update.path@ && report.1@ == update.details@,
        after is Some <==> before is Some,
        before is Some && update.updated && update.details@.len() > 0 ==> {
            &&& after->0.pending@.contains_key(update.path.key())
            &&& after->0.pending@[update.path.key()].1.0 == now
            &&& after->0.pending@[update.path.key()].1.1@ == update.details@
        },
        !update.updated || update.details@.len() == 0 ==> after == before,
{
}

/// A path that is not held is not taken out, and nothing changes; one that is
/// held is gone afterwards. When it was seen to change stays as it was.
pub proof fn law_only_what_is_held_is_taken_out(
    before: Monitor,
    path: FilePath,
    infos: Map<PathKey, (Seq<u8>, DirInfo)>,
    now: i64,
    was_known: bool,
    after: Monitor,
)
    requires
        remove_outcome(before, path, infos, now, was_known, after),
        in_path_order(before.nodes()),
    ensures
        was_known <==> items_map(before.nodes()).contains_key(path.key()),
        !was_known ==> after.nodes() == before.nodes() && after.times() == before.times(),
        was_known ==> !items_map(after.nodes()).contains_key(path.key()),
        after.times().contains_key(path.key()) <==> before.times().contains_key(path.key()),
        before.times().contains_key(path.key()) ==> after.times()[path.key()]
            == before.times()[path.key()],
{
    if was_known {
        let root = before.snapshot().root.key();
        let up = ancestors(path.key(), root);
        let mid = choose|mid: Items|
            #![trigger carried_over(before, mid, path, true, infos, after)]
            {
                &&& in_path_order(mid)
                &&& items_map(mid) == items_map(before.nodes()).remove(path.key())
                &&& carried_over(before, mid, path, true, infos, after)
                &&& forall|k: PathKey|
                    #![trigger after.times().contains_key(k)]
                    time_after(before, mid, path, true, false, now, after, k)
            };
        assert(raised_at(mid, infos, path@, up, after.nodes(), path.key()));
        lemma_not_above_itself(path.key(), root);
        let _ = after.times().contains_key(path.key());
        assert(time_after(before, mid, path, true, false, now, after, path.key()));
    }
}

/// The contents of files below the limit are read, and of nothing else.
pub proof fn law_small_files_are_read(is_file: bool, len: u64, max_bytes: int)
    ensures
        is_wanted(is_file, len, max_bytes) <==> is_file && len < max_bytes,
{
}

/// A removal that a watch sees is about the directory that the watch was set on
/// last, or about the name in it.
pub proof fn law_events_are_about_the_watched_directory(
    before: Monitor,
    dir: FilePath,
    watch: i32,
    after: Monitor,
    event: RawEvent,
)
    requires
        watch_step(before, dir, watch, after),
        event.is_file,
        event.mask & 0x200 != 0,
    ensures
        after.used() == before.used() + 1,
        event.watch == watch && event.name is None ==> after.events_of(seq![event]) == seq![
            (Change::Removed, dir@),
        ],
        event.watch == watch && event.name is Some ==> after.events_of(seq![event]) == seq![
            (Change::Removed, joined_text(dir@, encode_utf8(lossy_utf8(event.name->0@)))),
        ],
        event.watch != watch ==> after.events_of(seq![event]) == before.events_of(seq![event]),
{
    let raw = seq![event];
    assert(raw.drop_last() =~= Seq::<RawEvent>::empty());
    assert(after.events_of(raw.drop_last()) =~= Seq::empty());
    assert(before.events_of(raw.drop_last()) =~= Seq::empty());
}

/// What is watched of a list of directories: those at or below the root, and the
/// root once more only where the list does not name it.
pub proof fn law_root_is_always_watched(texts: Seq<Seq<u8>>, root: FilePath, i: int)
    ensures
        exists|x: int|
            0 <= x < texts_to_watch(texts, root).len() && crate::path::components(
                #[trigger] texts_to_watch(texts, root)[x],
            ) == root.key(),
        0 <= i < texts.len() && root.key().is_prefix_of(crate::path::components(texts[i]))
            ==> texts_to_watch(texts, root).contains(texts[i]),
        0 <= i < texts.len() && !root.key().is_prefix_of(crate::path::components(texts[i]))
            ==> !texts_to_watch(texts, root).contains(texts[i]),
        texts_to_watch(texts, root).len() <= texts.len() + 1,
{
    let inside = texts_under(texts, root.key());
    let all = texts_to_watch(texts, root);
    let p = |t: Seq<u8>| key_within(crate::path::components(t), root.key());
    texts.lemma_filter_len(p);
    if lists_path(inside, root.key()) {
        let x = choose|x: int|
            0 <= x < inside.len() && crate::path::components(#[trigger] inside[x]) == root.key();
        assert(crate::path::components(all[x]) == root.key());
    } else {
        assert(crate::path::components(all[inside.len() as int]) == root.key());
    }
    if 0 <= i < texts.len() {
        law_in_scope_is_at_or_below(texts, root.key(), i);
        if inside.contains(texts[i]) {
            let x = choose|x: int| 0 <= x < inside.len() && inside[x] == texts[i];
            assert(all[x] == texts[i]);
        } else if all.contains(texts[i]) {
            let x = choose|x: int| 0 <= x < all.len() && all[x] == texts[i];
            assert(x == inside.len());
        }
    }
}

/// An update leaves everything but nodes and times of change as it is: when and
/// of what the snapshot was taken, and what is watched.
pub proof fn law_update_keeps_everything_else(
    before: Monitor,
    path: FilePath,
    is_file: bool,
    content: FileContent,
    infos: Map<PathKey, (Seq<u8>, DirInfo)>,
    now: i64,
    r: (bool, Option<i64>, bool),
    after: Monitor,
)
    requires
        update_outcome(before, path, is_file, content, infos, now, r, after),
    ensures
        after.snapshot().version == before.snapshot().version,
        after.snapshot().timestamp == before.snapshot().timestamp,
        after.snapshot().root@ == before.snapshot().root@,
        after.critical() == before.critical(),
        after.watched() == before.watched(),
        after.watch_dirs() == before.watch_dirs(),
        after.used() == before.used(),
        after.budget() == before.budget(),
        after.max_bytes() == before.max_bytes(),
{
}

/// What is given out of a change is what was last said about it, and only what
/// waited is given out.
pub proof fn law_change_is_given_out_as_it_was_told(
    before: DebounceTracker,
    now: u64,
    given: Seq<(Seq<u8>, Seq<char>)>,
    after: DebounceTracker,
    x: int,
)
    requires
        give_step(before, now, given, after),
        0 <= x < given.len(),
    ensures
        ({
            let k = crate::path::components(given[x].0);
            &&& before.pending@.contains_key(k)
            &&& given[x].0 == before.pending@[k].0
            &&& given[x].1 == before.pending@[k].1.1@
        }),
{
    broadcast use vstd::seq_lib::group_filter_ensures;

    let items = before.pending.items();
    let p = ready(now, before.debounce_seconds);
    let taken = items.filter(p);
    assert(taken.contains(taken[x]));
    items.lemma_filter_contains_rev(p, taken[x]);
    let z = choose|z: int| 0 <= z < items.len() && items[z] == taken[x];
    lemma_key_index(items, z);
}

/// A time of change is forgotten when it lies further back than the given age,
/// and kept as it is until then.
pub proof fn law_old_times_are_forgotten(
    before: Map<PathKey, (Seq<u8>, i64)>,
    now: i64,
    max_age: i64,
    after: Map<PathKey, (Seq<u8>, i64)>,
    k: PathKey,
)
    requires
        time_kept(before, now, max_age, after, k),
        before.contains_key(k),
    ensures
        now - before[k].1 > max_age ==> !after.contains_key(k),
        now - before[k].1 <= max_age ==> after.contains_key(k) && after[k] == before[k],
{
}

/// The budget is used up when as many watches are set as it allows.
pub proof fn law_budget_is_used_up_at_its_end(used: nat, budget: nat)
    ensures
        is_used_up(used, budget) <==> !(used < budget),
{
}

} // verus!
