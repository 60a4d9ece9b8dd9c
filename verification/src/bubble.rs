//! A change to a file carries over to the directories above it.
use vstd::prelude::*;
use crate::node::{DirInfo, FileNode, Items};
use crate::path::{components, has_parent, is_child, key_within, shortest, FilePath, PathKey};
use crate::path_map::{in_path_order, items_map, PathMap};
use crate::tree::{
    children_of, lemma_same_children, rehash_directory, rehashed_node, same_at, select_children,
};

verus! {

/// The directories above a path, the nearest first, as far as they lie at or
/// below `root`.
pub open spec fn ancestors(key: PathKey, root: PathKey) -> Seq<PathKey>
    decreases key.len(),
{
    if !has_parent(key) || !key_within(key.drop_last(), root) {
        Seq::empty()
    } else {
        seq![key.drop_last()] + ancestors(key.drop_last(), root)
    }
}

/// How a path's text names a directory above it.
pub open spec fn text_for(path: Seq<u8>, dir: PathKey) -> Seq<u8> {
    path.take(choose|n: int| #[trigger] shortest(path, n, dir))
}

/// The text is what a path's text has for a directory above it.
pub open spec fn names_above(path: Seq<u8>, text: Seq<u8>, dir: PathKey) -> bool {
    text == path.take(text.len() as int) && shortest(path, text.len() as int, dir)
}

/// There is one such text.
pub proof fn lemma_names_above(path: Seq<u8>, text: Seq<u8>, dir: PathKey)
    requires
        names_above(path, text, dir),
    ensures
        text == text_for(path, dir),
{
    let n = choose|n: int| #[trigger] shortest(path, n, dir);
    assert(shortest(path, text.len() as int, dir));
    assert(n == text.len());
}

/// The directories above a path are its beginnings, each one component shorter
/// than the one before.
pub proof fn lemma_ancestors(key: PathKey, root: PathKey)
    ensures
        ancestors(key, root).len() <= key.len(),
        forall|i: int|
            0 <= i < ancestors(key, root).len() ==> #[trigger] ancestors(key, root)[i] == key.take(
                key.len() - 1 - i,
            ),
    decreases key.len(),
{
    let up = ancestors(key, root);
    if up.len() > 0 {
        let dir = key.drop_last();
        lemma_ancestors(dir, root);
        let further = ancestors(dir, root);
        assert(up == seq![dir] + further);
        assert forall|i: int| 0 <= i < up.len() implies #[trigger] up[i] == key.take(
            key.len() - 1 - i,
        ) by {
            if i > 0 {
                assert(up[i] == further[i - 1]);
                assert(dir.take(dir.len() - 1 - (i - 1)) =~= key.take(key.len() - 1 - i));
            } else {
                assert(key.take(key.len() - 1) =~= dir);
            }
        }
    }
}

/// The keys of paths.
pub open spec fn path_keys(paths: Seq<FilePath>) -> Seq<PathKey> {
    paths.map_values(|p: FilePath| p.key())
}

/// The directories above a path, the nearest first, as far as they lie at or
/// below `root`.
pub fn ancestors_in_scope(path: &FilePath, root: &FilePath) -> (r: Vec<FilePath>)
    ensures
        path_keys(r@) == ancestors(path.key(), root.key()),
        forall|i: int|
            #![trigger r@[i]]
            0 <= i < r@.len() ==> r@[i]@ == text_for(path@, r@[i].key()),
{
    let mut r: Vec<FilePath> = Vec::new();
    let mut current = path.parent();
    let ghost mut below = path.key();
    assert(path_keys(r@) + ancestors(below, root.key()) =~= ancestors(path.key(), root.key()));
    loop
        invariant
            path_keys(r@) + ancestors(below, root.key()) == ancestors(path.key(), root.key()),
            current is Some <==> has_parent(below),
            current matches Some(dir) ==> dir.key() == below.drop_last() && names_above(
                path@,
                dir@,
                dir.key(),
            ),
            forall|i: int|
                #![trigger r@[i]]
                0 <= i < r@.len() ==> r@[i]@ == text_for(path@, r@[i].key()),
        ensures
            path_keys(r@) == ancestors(path.key(), root.key()),
            forall|i: int|
                #![trigger r@[i]]
                0 <= i < r@.len() ==> r@[i]@ == text_for(path@, r@[i].key()),
        decreases below.len(),
    {
        let dir = match current {
            Some(dir) => dir,
            None => {
                assert(path_keys(r@) + ancestors(below, root.key()) =~= path_keys(r@));
                break;
            },
        };
        if !dir.starts_with(root) {
            assert(path_keys(r@) + ancestors(below, root.key()) =~= path_keys(r@));
            break;
        }
        let ghost before = r@;
        let up = dir.parent();
        proof {
            lemma_names_above(path@, dir@, dir.key());
            if up is Some {
                let above = up->0;
                let n = above@.len() as int;
                assert(dir@.take(n) =~= path@.take(n));
                assert forall|m: int| 0 <= m < n implies components(#[trigger] path@.take(m))
                    != above.key() by {
                    assert(dir@.take(m) =~= path@.take(m));
                }
                assert(names_above(path@, above@, above.key()));
            }
            assert(ancestors(below, root.key()) == seq![dir.key()] + ancestors(dir.key(), root.key()));
            below = dir.key();
        }
        r.push(dir);
        current = up;
        proof {
            assert(path_keys(r@) =~= path_keys(before).push(below));
            assert(path_keys(r@) + ancestors(below, root.key()) =~= path_keys(before) + (seq![below]
                + ancestors(below, root.key())));
        }
    }
    r
}

/// One entry of `after`: a directory above the path that holds files has the
/// node that its files call for, everything else is as it was.
pub open spec fn raised_at(
    before: Items,
    infos: Map<PathKey, (Seq<u8>, DirInfo)>,
    path: Seq<u8>,
    up: Seq<PathKey>,
    after: Items,
    k: PathKey,
) -> bool {
    if up.contains(k) && children_of(after, k, true).len() > 0 {
        &&& items_map(after).contains_key(k)
        &&& items_map(after)[k].1 == rehashed_node(after, infos, k)
        &&& items_map(after)[k].0 == if items_map(before).contains_key(k) {
            items_map(before)[k].0
        } else {
            text_for(path, k)
        }
    } else {
        same_at(before, after, k)
    }
}

/// `after` is `before` with the directories `up` above a path brought up to
/// date with the files directly in them.
pub open spec fn raised(
    before: Items,
    infos: Map<PathKey, (Seq<u8>, DirInfo)>,
    path: Seq<u8>,
    up: Seq<PathKey>,
    after: Items,
) -> bool {
    forall|k: PathKey| #[trigger] raised_at(before, infos, path, up, after, k)
}

/// A directory above a changed file that counts as changed with it: it holds
/// files, and its own checksum is new where the contents of the file changed.
pub open spec fn marked(
    before: Items,
    after: Items,
    up: Seq<PathKey>,
    content_changed: bool,
    k: PathKey,
) -> bool {
    &&& up.contains(k)
    &&& children_of(after, k, true).len() > 0
    &&& content_changed ==> !items_map(before).contains_key(k) || items_map(before)[k].1.hash
        != items_map(after)[k].1.hash
}

/// The entry of a path in the table of change times after it changed at `now`.
pub open spec fn stamped(
    times: Map<PathKey, (Seq<u8>, i64)>,
    k: PathKey,
    text: Seq<u8>,
    now: i64,
) -> (Seq<u8>, i64) {
    (
        if times.contains_key(k) {
            times[k].0
        } else {
            text
        },
        now,
    )
}

/// One entry of the table of change times: now for a directory that counts as
/// changed, as it was for everything else.
pub open spec fn time_at(
    times: Map<PathKey, (Seq<u8>, i64)>,
    path: Seq<u8>,
    now: i64,
    is_marked: bool,
    after: Map<PathKey, (Seq<u8>, i64)>,
    k: PathKey,
) -> bool {
    if is_marked {
        after.contains_key(k) && after[k] == stamped(times, k, text_for(path, k), now)
    } else {
        &&& after.contains_key(k) <==> times.contains_key(k)
        &&& times.contains_key(k) ==> after[k] == times[k]
    }
}

/// The entry of a directory is not among what stands in a directory that is
/// no shorter.
proof fn lemma_children_keep(
    cur: Items,
    next: Items,
    at: PathKey,
    item: (Seq<u8>, FileNode),
    k: PathKey,
)
    requires
        in_path_order(cur),
        in_path_order(next),
        items_map(next) == items_map(cur).insert(at, item),
        at.len() <= k.len(),
    ensures
        children_of(next, k, true) == children_of(cur, k, true),
{
    assert(!is_child(at, k)) by {
        if is_child(at, k) {
            assert(at.drop_last() == k);
        }
    }
    lemma_same_children(cur, next, k, true);
}

/// Taking one more directory into account.
proof fn lemma_climb(
    before: Items,
    infos: Map<PathKey, (Seq<u8>, DirInfo)>,
    path: Seq<u8>,
    done: Seq<PathKey>,
    cur: Items,
    next: Items,
    key: PathKey,
)
    requires
        in_path_order(cur),
        in_path_order(next),
        raised(before, infos, path, done, cur),
        !done.contains(key),
        forall|i: int| 0 <= i < done.len() ==> (#[trigger] done[i]).len() > key.len(),
        if children_of(cur, key, true).len() > 0 {
            items_map(next) == items_map(cur).insert(
                key,
                (
                    if items_map(cur).contains_key(key) {
                        items_map(cur)[key].0
                    } else {
                        text_for(path, key)
                    },
                    rehashed_node(cur, infos, key),
                ),
            )
        } else {
            next == cur
        },
    ensures
        raised(before, infos, path, done.push(key), next),
        forall|k: PathKey|
            done.push(key).contains(k) ==> #[trigger] children_of(next, k, true) == children_of(
                cur,
                k,
                true,
            ),
        forall|k: PathKey| k != key ==> #[trigger] same_at(cur, next, k),
{
    let more = done.push(key);
    let item = items_map(next)[key];
    assert(same_at(before, cur, key)) by {
        assert(raised_at(before, infos, path, done, cur, key));
    }
    assert forall|k: PathKey| more.contains(k) implies #[trigger] children_of(next, k, true)
        == children_of(cur, k, true) by {
        if children_of(cur, key, true).len() > 0 {
            let i = choose|i: int| 0 <= i < more.len() && more[i] == k;
            assert(i < done.len() ==> done[i] == k);
            lemma_children_keep(cur, next, key, item, k);
        }
    }
    assert forall|k: PathKey| #[trigger] raised_at(before, infos, path, more, next, k) by {
        assert(raised_at(before, infos, path, done, cur, k));
        if more.contains(k) {
            assert(children_of(next, k, true) == children_of(cur, k, true));
            if k != key {
                let i = choose|i: int| 0 <= i < more.len() && more[i] == k;
                assert(done[i] == k);
            }
        } else {
            assert(!done.contains(k)) by {
                if done.contains(k) {
                    let i = choose|i: int| 0 <= i < done.len() && done[i] == k;
                    assert(more[i] == k);
                }
            }
            assert(k != key) by {
                assert(more[done.len() as int] == key);
            }
        }
        assert(more[done.len() as int] == key);
    }
}

/// Carries a change of a file over to the directories above it. Where its
/// contents changed their checksums are taken anew; a directory whose checksum
/// is new, or in any case where only metadata changed, counts as changed now.
pub fn recalculate_parent_hashes(
    nodes: &mut PathMap<FileNode>,
    times: &mut PathMap<i64>,
    root: &FilePath,
    path: &FilePath,
    content_changed: bool,
    infos: &PathMap<DirInfo>,
    now: i64,
)
    ensures
        in_path_order(old(nodes).items()),
        in_path_order(final(nodes).items()),
        content_changed ==> raised(
            old(nodes).items(),
            infos@,
            path@,
            ancestors(path.key(), root.key()),
            final(nodes).items(),
        ),
        !content_changed ==> final(nodes).items() == old(nodes).items(),
        forall|k: PathKey|
            #![trigger final(times)@.contains_key(k)]
            time_at(
                old(times)@,
                path@,
                now,
                marked(
                    old(nodes).items(),
                    final(nodes).items(),
                    ancestors(path.key(), root.key()),
                    content_changed,
                    k,
                ),
                final(times)@,
                k,
            ),
{
    let dirs = ancestors_in_scope(path, root);
    let ghost up = ancestors(path.key(), root.key());
    let ghost before = nodes.items();
    let ghost times0 = times@;
    let _ = nodes.len();
    let mut i: usize = 0;
    proof {
        lemma_ancestors(path.key(), root.key());
        assert(up.take(0) =~= Seq::empty());
        assert forall|k: PathKey| #[trigger] raised_at(before, infos@, path@, up.take(0), before, k) by {
            assert(!up.take(0).contains(k));
        }
        assert forall|k: PathKey| #[trigger]
            times@.contains_key(k) implies !marked(before, before, up.take(0), content_changed, k) by {}
    }
    while i < dirs.len()
        invariant
            i <= dirs@.len(),
            dirs@.len() == up.len(),
            path_keys(dirs@) == up,
            up.len() <= path.key().len(),
            forall|j: int|
                0 <= j < up.len() ==> #[trigger] up[j] == path.key().take(path.key().len() - 1 - j),
            forall|j: int|
                #![trigger dirs@[j]]
                0 <= j < dirs@.len() ==> dirs@[j]@ == text_for(path@, dirs@[j].key()),
            in_path_order(before),
            in_path_order(nodes.items()),
            content_changed ==> raised(before, infos@, path@, up.take(i as int), nodes.items()),
            !content_changed ==> nodes.items() == before,
            forall|k: PathKey|
                #![trigger times@.contains_key(k)]
                time_at(
                    times0,
                    path@,
                    now,
                    marked(before, nodes.items(), up.take(i as int), content_changed, k),
                    times@,
                    k,
                ),
        decreases dirs@.len() - i,
    {
        let dir = &dirs[i];
        let ghost key = up[i as int];
        let ghost done = up.take(i as int);
        let ghost cur = nodes.items();
        let ghost times1 = times@;
        proof {
            assert(path_keys(dirs@)[i as int] == dir.key());
            assert(up.take(i + 1) =~= done.push(key));
            assert forall|j: int| 0 <= j < done.len() implies (#[trigger] done[j]).len() > key.len() by {
                assert(done[j] == up[j]);
            }
            assert(!done.contains(key)) by {
                if done.contains(key) {
                    let j = choose|j: int| 0 <= j < done.len() && done[j] == key;
                    assert(done[j].len() > key.len());
                }
            }
        }
        if content_changed {
            let previous: Option<u64> = match nodes.get(dir) {
                Some(node) => Some(node.hash),
                None => None,
            };
            let hash: Option<u64> = rehash_directory(nodes, dir, infos);
            proof {
                lemma_climb(before, infos@, path@, done, cur, nodes.items(), key);
                assert(raised_at(before, infos@, path@, done, cur, key));
            }
            if hash.is_some() && hash != previous {
                times.insert(dir.clone(), now);
            }
        } else if select_children(nodes, dir, true).len() > 0 {
            times.insert(dir.clone(), now);
        }
        proof {
            let next = nodes.items();
            assert forall|k: PathKey| #![trigger times@.contains_key(k)]
                time_at(
                    times0,
                    path@,
                    now,
                    marked(before, next, done.push(key), content_changed, k),
                    times@,
                    k,
                ) by {
                assert(time_at(
                    times0,
                    path@,
                    now,
                    marked(before, cur, done, content_changed, k),
                    times1,
                    k,
                )) by {
                    let _ = times1.contains_key(k);
                }
                assert(done.push(key).contains(k) <==> done.contains(k) || k == key) by {
                    assert(done.push(key)[done.len() as int] == key);
                    if done.contains(k) {
                        let j = choose|j: int| 0 <= j < done.len() && done[j] == k;
                        assert(done.push(key)[j] == k);
                    }
                }
                if content_changed {
                    if done.push(key).contains(k) {
                        assert(children_of(next, k, true) == children_of(cur, k, true));
                    }
                    if k != key {
                        assert(same_at(cur, next, k));
                    }
                    assert(raised_at(before, infos@, path@, done, cur, k));
                }
            }
        }
        i = i + 1;
    }
    proof {
        assert(up.take(i as int) =~= up);
    }
}

} // verus!
