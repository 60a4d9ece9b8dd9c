//! Two snapshots side by side: what part of them is compared, what is said
//! about it, and how far up one can look.
use vstd::prelude::*;
use crate::bubble::{path_keys, text_for};
use crate::diff::{changed_parts, part_names};
use crate::node::{FileNode, Items};
use crate::path::{components, has_parent, key_within, shortest, FilePath, PathKey};
use crate::path_map::{in_path_order, item_key, items_map, lemma_key_index, PathMap};
use crate::snapshot::Snapshot;
use crate::text::{join_texts, joined, lossy_utf8, text_views};

verus! {

/// The narrower of two roots where one lies in the other, and the newer one
/// where neither does.
pub open spec fn scope_text(old_root: Seq<u8>, new_root: Seq<u8>) -> Seq<u8> {
    if key_within(components(new_root), components(old_root)) {
        new_root
    } else if key_within(components(old_root), components(new_root)) {
        old_root
    } else {
        new_root
    }
}

/// The part of the tree in which two snapshots are compared.
pub fn compare_scope(old_root: &FilePath, new_root: &FilePath) -> (r: FilePath)
    ensures
        r@ == scope_text(old_root@, new_root@),
{
    if new_root.starts_with(old_root) {
        new_root.clone()
    } else if old_root.starts_with(new_root) {
        old_root.clone()
    } else {
        new_root.clone()
    }
}

/// What is said about an entry of the newer snapshot: that it was added or
/// modified, and in what way. Nothing is said about one that is the same, or
/// out of scope.
pub open spec fn newer_line(
    item: (Seq<u8>, FileNode),
    old_nodes: Map<PathKey, (Seq<u8>, FileNode)>,
    scope: PathKey,
) -> Seq<Seq<char>> {
    let k = item_key(item);
    if !key_within(k, scope) {
        Seq::empty()
    } else if !old_nodes.contains_key(k) {
        seq!["Added: "@ + lossy_utf8(item.0)]
    } else {
        let parts = part_names(old_nodes[k].1, item.1);
        if parts.len() == 0 {
            Seq::empty()
        } else {
            seq!["Modified ("@ + joined(parts, "+"@) + "): "@ + lossy_utf8(item.0)]
        }
    }
}

/// What is said about the entries of the newer snapshot.
pub open spec fn newer_lines(
    items: Items,
    old_nodes: Map<PathKey, (Seq<u8>, FileNode)>,
    scope: PathKey,
) -> Seq<Seq<char>>
    decreases items.len(),
{
    if items.len() == 0 {
        Seq::empty()
    } else {
        newer_lines(items.drop_last(), old_nodes, scope) + newer_line(
            items.last(),
            old_nodes,
            scope,
        )
    }
}

/// What is said about the entries of the older snapshot: which of those in
/// scope were removed.
pub open spec fn removed_lines(
    items: Items,
    new_nodes: Map<PathKey, (Seq<u8>, FileNode)>,
    scope: PathKey,
) -> Seq<Seq<char>>
    decreases items.len(),
{
    if items.len() == 0 {
        Seq::empty()
    } else {
        let before = removed_lines(items.drop_last(), new_nodes, scope);
        let k = item_key(items.last());
        if key_within(k, scope) && !new_nodes.contains_key(k) {
            before.push("Removed: "@ + lossy_utf8(items.last().0))
        } else {
            before
        }
    }
}

fn labelled(label: &str, path: &FilePath) -> (r: String)
    ensures
        r@ == label@ + lossy_utf8(path@),
{
    let mut r = String::new();
    r.append(label);
    r.append(path.to_string_lossy().as_str());
    assert(r@ =~= label@ + lossy_utf8(path@));
    r
}

fn say_newer(
    lines: &mut Vec<String>,
    path: &FilePath,
    node: &FileNode,
    old_nodes: &PathMap<FileNode>,
    scope: &FilePath,
)
    ensures
        text_views(final(lines)@) == text_views(old(lines)@) + newer_line(
            (path@, *node),
            old_nodes@,
            scope.key(),
        ),
{
    let ghost before = lines@;
    if path.starts_with(scope) {
        match old_nodes.get(path) {
            Some(old_node) => {
                let parts = changed_parts(old_node, node);
                assert(text_views(parts@).len() == parts@.len());
                if parts.len() > 0 {
                    let mut line = String::new();
                    line.append("Modified (");
                    line.append(join_texts(&parts, "+").as_str());
                    line.append("): ");
                    line.append(path.to_string_lossy().as_str());
                    assert(line@ =~= "Modified ("@ + joined(text_views(parts@), "+"@) + "): "@
                        + lossy_utf8(path@));
                    lines.push(line);
                }
            },
            None => {
                lines.push(labelled("Added: ", path));
            },
        }
    }
    assert(text_views(lines@) =~= text_views(before) + newer_line(
        (path@, *node),
        old_nodes@,
        scope.key(),
    ));
}

/// The lines about the changes from one snapshot to the next.
pub open spec fn comparison_texts(older: Snapshot, newer: Snapshot) -> Seq<Seq<char>> {
    let scope = components(scope_text(older.root@, newer.root@));
    newer_lines(newer.nodes.items(), older.nodes@, scope) + removed_lines(
        older.nodes.items(),
        newer.nodes@,
        scope,
    )
}

/// What there is to say about the changes from one snapshot to the next: what
/// was added and modified, in path order, then what was removed.
pub fn comparison_log(old_snapshot: &Snapshot, new_snapshot: &Snapshot) -> (r: Vec<String>)
    ensures
        ({
            let scope = components(scope_text(old_snapshot.root@, new_snapshot.root@));
            text_views(r@) == newer_lines(
                new_snapshot.nodes.items(),
                old_snapshot.nodes@,
                scope,
            ) + removed_lines(old_snapshot.nodes.items(), new_snapshot.nodes@, scope)
        }),
        text_views(r@) == comparison_texts(*old_snapshot, *new_snapshot),
{
    let scope = compare_scope(&old_snapshot.root, &new_snapshot.root);
    let ghost newer = new_snapshot.nodes.items();
    let ghost older = old_snapshot.nodes.items();
    let mut lines: Vec<String> = Vec::new();
    let new_len = new_snapshot.nodes.len();
    let old_len = old_snapshot.nodes.len();
    let mut i: usize = 0;
    assert(newer.take(0) =~= Seq::empty());
    assert(text_views(lines@) =~= Seq::empty());
    while i < new_len
        invariant
            i <= new_len == newer.len(),
            newer == new_snapshot.nodes.items(),
            text_views(lines@) == newer_lines(
                newer.take(i as int),
                old_snapshot.nodes@,
                scope.key(),
            ),
        decreases new_len - i,
    {
        proof {
            assert(newer.take(i + 1).drop_last() =~= newer.take(i as int));
        }
        say_newer(
            &mut lines,
            new_snapshot.nodes.path_at(i),
            new_snapshot.nodes.value_at(i),
            &old_snapshot.nodes,
            &scope,
        );
        i = i + 1;
    }
    assert(newer.take(i as int) =~= newer);
    let ghost said = text_views(lines@);
    let mut j: usize = 0;
    assert(older.take(0) =~= Seq::empty());
    assert(text_views(lines@) =~= said + removed_lines(
        older.take(0),
        new_snapshot.nodes@,
        scope.key(),
    ));
    while j < old_len
        invariant
            j <= old_len == older.len(),
            older == old_snapshot.nodes.items(),
            text_views(lines@) == said + removed_lines(
                older.take(j as int),
                new_snapshot.nodes@,
                scope.key(),
            ),
        decreases old_len - j,
    {
        let ghost before = lines@;
        let path = old_snapshot.nodes.path_at(j);
        proof {
            assert(older.take(j + 1).drop_last() =~= older.take(j as int));
        }
        if path.starts_with(&scope) && !new_snapshot.nodes.contains(path) {
            let line = labelled("Removed: ", path);
            lines.push(line);
            assert(text_views(lines@) =~= text_views(before).push(line@));
        }
        j = j + 1;
        assert(text_views(lines@) =~= said + removed_lines(
            older.take(j as int),
            new_snapshot.nodes@,
            scope.key(),
        ));
    }
    assert(older.take(j as int) =~= older);
    lines
}

/// A path and everything above it, the nearest first.
pub open spec fn upward(key: PathKey) -> Seq<PathKey>
    decreases key.len(),
{
    if has_parent(key) {
        seq![key] + upward(key.drop_last())
    } else {
        seq![key]
    }
}

/// The nearest of a path and what stands above it that is on the list.
pub open spec fn nearest(key: PathKey, list: Seq<PathKey>) -> Option<PathKey>
    decreases key.len(),
{
    if list.contains(key) {
        Some(key)
    } else if has_parent(key) {
        nearest(key.drop_last(), list)
    } else {
        None
    }
}

/// The directory that two roots have in common: the higher one where one lies
/// in the other, otherwise the nearest that stands above both. Where nothing
/// does, the older root.
pub open spec fn shared_root(old_root: Seq<u8>, new_root: Seq<u8>) -> Seq<u8> {
    let a = components(old_root);
    let b = components(new_root);
    if key_within(b, a) {
        old_root
    } else if key_within(a, b) {
        new_root
    } else {
        match nearest(b, upward(a)) {
            Some(k) => if k == b {
                new_root
            } else {
                text_for(new_root, k)
            },
            None => old_root,
        }
    }
}

fn path_and_above(path: &FilePath) -> (r: Vec<FilePath>)
    ensures
        path_keys(r@) == upward(path.key()),
{
    let mut r: Vec<FilePath> = Vec::new();
    let mut current = path.clone();
    assert(path_keys(r@) + upward(current.key()) =~= upward(path.key()));
    loop
        invariant_except_break
            path_keys(r@) + upward(current.key()) == upward(path.key()),
        ensures
            path_keys(r@) == upward(path.key()),
        decreases current.key().len(),
    {
        let ghost before = r@;
        let ghost key = current.key();
        let up = current.parent();
        r.push(current);
        assert(path_keys(r@) =~= path_keys(before).push(key));
        match up {
            Some(dir) => {
                assert(path_keys(r@) + upward(dir.key()) =~= path_keys(before) + (seq![key] + upward(
                    dir.key(),
                )));
                current = dir;
            },
            None => {
                assert(path_keys(r@) =~= path_keys(before) + seq![key]);
                break;
            },
        }
    }
    r
}

fn holds_path(paths: &Vec<FilePath>, path: &FilePath) -> (r: bool)
    ensures
        r == path_keys(paths@).contains(path.key()),
{
    let ghost keys = path_keys(paths@);
    let mut i: usize = 0;
    while i < paths.len()
        invariant
            i <= paths@.len(),
            keys == path_keys(paths@),
            forall|j: int| 0 <= j < i ==> #[trigger] keys[j] != path.key(),
        decreases paths@.len() - i,
    {
        assert(keys[i as int] == paths@[i as int].key());
        if paths[i].same(path) {
            return true;
        }
        i = i + 1;
    }
    false
}

/// The directory above which one does not look when two snapshots are
/// compared. The older root lies at or below it; so does the newer one, unless
/// the two have nothing in common.
pub fn navigation_root(old_root: &FilePath, new_root: &FilePath) -> (r: FilePath)
    ensures
        r@ == shared_root(old_root@, new_root@),
        key_within(old_root.key(), r.key()),
        key_within(new_root.key(), r.key()) || (nearest(
            new_root.key(),
            upward(old_root.key()),
        ) is None && r@ == old_root@),
{
    proof {
        lemma_upward(old_root.key());
    }
    if new_root.starts_with(old_root) {
        return old_root.clone();
    }
    if old_root.starts_with(new_root) {
        return new_root.clone();
    }
    let old_ancestors = path_and_above(old_root);
    let ghost list = upward(old_root.key());
    let mut current = new_root.clone();
    loop
        invariant
            path_keys(old_ancestors@) == list,
            list == upward(old_root.key()),
            !key_within(new_root.key(), old_root.key()),
            !key_within(old_root.key(), new_root.key()),
            key_within(new_root.key(), current.key()),
            forall|i: int| 0 <= i < list.len() ==> key_within(old_root.key(), #[trigger] list[i]),
            nearest(current.key(), list) == nearest(new_root.key(), list),
            current.key().len() <= new_root.key().len(),
            if current.key().len() == new_root.key().len() {
                current@ == new_root@
            } else {
                current@ == text_for(new_root@, current.key()) && current@ == new_root@.take(
                    current@.len() as int,
                ) && shortest(new_root@, current@.len() as int, current.key())
            },
        decreases current.key().len(),
    {
        if holds_path(&old_ancestors, &current) {
            proof {
                let i = choose|i: int| 0 <= i < list.len() && list[i] == current.key();
                assert(key_within(old_root.key(), list[i]));
            }
            return current;
        }
        match current.parent() {
            Some(dir) => {
                proof {
                    let n = dir@.len() as int;
                    assert(dir@ =~= new_root@.take(n));
                    assert forall|m: int| 0 <= m < n implies components(
                        #[trigger] new_root@.take(m),
                    ) != dir.key() by {
                        assert(current@.take(m) =~= new_root@.take(m));
                    }
                    assert(shortest(new_root@, n, dir.key()));
                    let other = choose|x: int| #[trigger] shortest(new_root@, x, dir.key());
                    assert(other == n);
                }
                current = dir;
            },
            None => {
                return old_root.clone();
            },
        }
    }
}

proof fn lemma_upward(key: PathKey)
    ensures
        forall|i: int| 0 <= i < upward(key).len() ==> key_within(key, #[trigger] upward(key)[i]),
    decreases key.len(),
{
    if has_parent(key) {
        let up = upward(key.drop_last());
        lemma_upward(key.drop_last());
        assert forall|i: int| 0 <= i < upward(key).len() implies key_within(
            key,
            #[trigger] upward(key)[i],
        ) by {
            if i > 0 {
                assert(upward(key)[i] == up[i - 1]);
                assert(key_within(key.drop_last(), up[i - 1]));
            }
        }
    }
}

proof fn lemma_nothing_to_say(items: Items, n: int, scope: PathKey)
    requires
        in_path_order(items),
        0 <= n <= items.len(),
    ensures
        newer_lines(items.take(n), items_map(items), scope).len() == 0,
        removed_lines(items.take(n), items_map(items), scope).len() == 0,
    decreases n,
{
    if n > 0 {
        lemma_nothing_to_say(items, n - 1, scope);
        lemma_key_index(items, n - 1);
        assert(items.take(n).drop_last() =~= items.take(n - 1));
        assert(items.take(n).last() == items[n - 1]);
        assert(part_names(items[n - 1].1, items[n - 1].1).len() == 0);
    }
}

/// There is nothing to say about a snapshot and itself.
pub proof fn law_nothing_to_say_about_the_same(items: Items, scope: PathKey)
    requires
        in_path_order(items),
    ensures
        newer_lines(items, items_map(items), scope) + removed_lines(items, items_map(items), scope)
            == Seq::<Seq<char>>::empty(),
{
    lemma_nothing_to_say(items, items.len() as int, scope);
    assert(items.take(items.len() as int) =~= items);
    assert(newer_lines(items, items_map(items), scope) + removed_lines(
        items,
        items_map(items),
        scope,
    ) =~= Seq::<Seq<char>>::empty());
}

} // verus!
