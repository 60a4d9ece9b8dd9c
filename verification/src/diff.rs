//! Differences between two snapshots.
use vstd::prelude::*;
use crate::node::{context_view, same_context, FileNode, Items};
use crate::order::Order;
use crate::path::{key_lt, lemma_key_transitive, FilePath, PathKey};
use crate::path_map::{
    has_key, in_path_order, item_key, items_map, key_index, lemma_key_absent, lemma_key_index,
    PathMap,
};
use crate::snapshot::Snapshot;
use crate::text::{join_texts, joined, text_views};

verus! {

/// What became of a path from one snapshot to the next.
#[derive(Debug, Clone, Copy, PartialEq, Eq, Structural)]
pub enum DiffStatus {
    Added,
    Removed,
    /// The contents differ.
    Modified,
    /// The contents are the same; owner, mode, extended attributes or security
    /// context differ.
    PermChanged,
    Unchanged,
}

/// One path of a comparison.
#[derive(Debug)]
pub struct DiffNode {
    pub path: FilePath,
    pub status: DiffStatus,
    pub old_node: Option<FileNode>,
    pub new_node: Option<FileNode>,
    pub is_dir: bool,
    pub change_time: Option<i64>,
}

/// The mode bit that runs a program as its owner.
pub const SUID: u32 = 0o4000;

/// The mode bit that runs a program as its group.
pub const SGID: u32 = 0o2000;

/// The node has the mode bit.
pub open spec fn has_bit(node: FileNode, bit: u32) -> bool {
    node.mode & bit != 0
}

pub(crate) fn clone_node(node: &Option<FileNode>) -> (r: Option<FileNode>)
    ensures
        r == *node,
{
    match node {
        Some(n) => Some(n.clone()),
        None => None,
    }
}

/// Two comparisons of a path say the same.
pub open spec fn same_diff(a: DiffNode, b: DiffNode) -> bool {
    &&& a.path@ == b.path@
    &&& a.status == b.status
    &&& a.old_node == b.old_node
    &&& a.new_node == b.new_node
    &&& a.is_dir == b.is_dir
    &&& a.change_time == b.change_time
}

impl Clone for DiffNode {
    fn clone(&self) -> (r: DiffNode)
        ensures
            same_diff(r, *self),
    {
        DiffNode {
            path: self.path.clone(),
            status: self.status,
            old_node: clone_node(&self.old_node),
            new_node: clone_node(&self.new_node),
            is_dir: self.is_dir,
            change_time: self.change_time,
        }
    }
}

impl DiffNode {
    /// Whether an entry of both snapshots gained or lost the bit that runs a
    /// program as its owner.
    pub fn has_suid_change(&self) -> (r: bool)
        ensures
            r == (self.old_node is Some && self.new_node is Some && has_bit(self.old_node->0, SUID)
                != has_bit(self.new_node->0, SUID)),
            r == (self.old_node is Some && self.new_node is Some && (self.old_node->0.mode & 0o4000
                != 0) != (self.new_node->0.mode & 0o4000 != 0)),
    {
        match (&self.old_node, &self.new_node) {
            (Some(old_node), Some(new_node)) => {
                let old_suid = old_node.mode & SUID != 0;
                let new_suid = new_node.mode & SUID != 0;
                old_suid != new_suid
            },
            _ => false,
        }
    }

    /// Whether an entry of both snapshots gained or lost the bit that runs a
    /// program as its group.
    pub fn has_sgid_change(&self) -> (r: bool)
        ensures
            r == (self.old_node is Some && self.new_node is Some && has_bit(self.old_node->0, SGID)
                != has_bit(self.new_node->0, SGID)),
            r == (self.old_node is Some && self.new_node is Some && (self.old_node->0.mode & 0o2000
                != 0) != (self.new_node->0.mode & 0o2000 != 0)),
    {
        match (&self.old_node, &self.new_node) {
            (Some(old_node), Some(new_node)) => {
                let old_sgid = old_node.mode & SGID != 0;
                let new_sgid = new_node.mode & SGID != 0;
                old_sgid != new_sgid
            },
            _ => false,
        }
    }

    /// Whether the entry now runs as its owner.
    pub fn is_now_suid(&self) -> (r: bool)
        ensures
            r == (self.new_node is Some && has_bit(self.new_node->0, SUID)),
            r == (self.new_node is Some && self.new_node->0.mode & 0o4000 != 0),
    {
        match &self.new_node {
            Some(new_node) => new_node.mode & SUID != 0,
            None => false,
        }
    }
}

/// Owner, mode, extended attributes or security context differ.
pub open spec fn perm_changed(a: FileNode, b: FileNode) -> bool {
    ||| a.mode != b.mode
    ||| a.uid != b.uid
    ||| a.gid != b.gid
    ||| a.xattrs_hash != b.xattrs_hash
    ||| context_view(a.lsm_context) != context_view(b.lsm_context)
}

/// What became of a path that is in one snapshot or the other.
pub open spec fn status_of(a: Option<FileNode>, b: Option<FileNode>) -> DiffStatus {
    match (a, b) {
        (None, _) => DiffStatus::Added,
        (Some(_), None) => DiffStatus::Removed,
        (Some(x), Some(y)) => if x.hash != y.hash {
            DiffStatus::Modified
        } else if perm_changed(x, y) {
            DiffStatus::PermChanged
        } else {
            DiffStatus::Unchanged
        },
    }
}

/// The node of a path, where there is one.
pub open spec fn node_at(map: Map<PathKey, (Seq<u8>, FileNode)>, k: PathKey) -> Option<FileNode> {
    if map.contains_key(k) {
        Some(map[k].1)
    } else {
        None
    }
}

/// The comparison of a path that is in one snapshot or the other. The later
/// node tells whether it is a directory and when it changed.
pub open spec fn compares(
    d: DiffNode,
    a: Map<PathKey, (Seq<u8>, FileNode)>,
    b: Map<PathKey, (Seq<u8>, FileNode)>,
) -> bool {
    let k = d.path.key();
    let latest = if b.contains_key(k) {
        b[k].1
    } else {
        a[k].1
    };
    &&& a.contains_key(k) || b.contains_key(k)
    &&& d.path@ == (if a.contains_key(k) {
        a[k].0
    } else {
        b[k].0
    })
    &&& d.old_node == node_at(a, k)
    &&& d.new_node == node_at(b, k)
    &&& d.status == status_of(node_at(a, k), node_at(b, k))
    &&& d.is_dir == latest.is_dir
    &&& d.change_time == Some(latest.ctime)
}

/// Comparisons in path order, no path twice.
pub open spec fn diffs_in_order(diffs: Seq<DiffNode>) -> bool {
    forall|i: int, j: int|
        0 <= i < j < diffs.len() ==> key_lt(
            (#[trigger] diffs[i]).path.key(),
            (#[trigger] diffs[j]).path.key(),
        )
}

/// One of the comparisons is about the path.
pub open spec fn tells_of(diffs: Seq<DiffNode>, k: PathKey) -> bool {
    exists|i: int| 0 <= i < diffs.len() && (#[trigger] diffs[i]).path.key() == k
}

/// The comparison of two snapshots: every path of either, once, in path order.
pub open spec fn is_diff_of(
    diffs: Seq<DiffNode>,
    a: Map<PathKey, (Seq<u8>, FileNode)>,
    b: Map<PathKey, (Seq<u8>, FileNode)>,
) -> bool {
    &&& diffs_in_order(diffs)
    &&& forall|k: PathKey| #[trigger]
        tells_of(diffs, k) <==> a.contains_key(k) || b.contains_key(k)
    &&& forall|i: int| 0 <= i < diffs.len() ==> compares(#[trigger] diffs[i], a, b)
}

/// Whether owner, mode, extended attributes or security context differ.
fn permissions_differ(a: &FileNode, b: &FileNode) -> (r: bool)
    ensures
        r == perm_changed(*a, *b),
{
    a.mode != b.mode || a.uid != b.uid || a.gid != b.gid || a.xattrs_hash != b.xattrs_hash
        || !same_context(&a.lsm_context, &b.lsm_context)
}

fn added(path: &FilePath, node: &FileNode) -> (r: DiffNode)
    ensures
        r.path@ == path@,
        r.status == DiffStatus::Added,
        r.old_node is None,
        r.new_node == Some(*node),
        r.is_dir == node.is_dir,
        r.change_time == Some(node.ctime),
{
    DiffNode {
        path: path.clone(),
        status: DiffStatus::Added,
        old_node: None,
        new_node: Some(node.clone()),
        is_dir: node.is_dir,
        change_time: Some(node.ctime),
    }
}

fn removed(path: &FilePath, node: &FileNode) -> (r: DiffNode)
    ensures
        r.path@ == path@,
        r.status == DiffStatus::Removed,
        r.old_node == Some(*node),
        r.new_node is None,
        r.is_dir == node.is_dir,
        r.change_time == Some(node.ctime),
{
    DiffNode {
        path: path.clone(),
        status: DiffStatus::Removed,
        old_node: Some(node.clone()),
        new_node: None,
        is_dir: node.is_dir,
        change_time: Some(node.ctime),
    }
}

fn compared(path: &FilePath, old_node: &FileNode, new_node: &FileNode) -> (r: DiffNode)
    ensures
        r.path@ == path@,
        r.status == status_of(Some(*old_node), Some(*new_node)),
        r.old_node == Some(*old_node),
        r.new_node == Some(*new_node),
        r.is_dir == new_node.is_dir,
        r.change_time == Some(new_node.ctime),
{
    let status = if old_node.hash != new_node.hash {
        DiffStatus::Modified
    } else if permissions_differ(old_node, new_node) {
        DiffStatus::PermChanged
    } else {
        DiffStatus::Unchanged
    };
    DiffNode {
        path: path.clone(),
        status,
        old_node: Some(old_node.clone()),
        new_node: Some(new_node.clone()),
        is_dir: new_node.is_dir,
        change_time: Some(new_node.ctime),
    }
}

/// All comparisons come before the items from `from` on.
spec fn below(diffs: Seq<DiffNode>, items: Items, from: int) -> bool {
    forall|x: int, y: int|
        0 <= x < diffs.len() && from <= y < items.len() ==> key_lt(
            (#[trigger] diffs[x]).path.key(),
            item_key(#[trigger] items[y]),
        )
}

/// The items of `a` before `i` come before the items of `b` from `j` on.
spec fn passed(a: Items, i: int, b: Items, j: int) -> bool {
    forall|x: int, y: int|
        0 <= x < i && j <= y < b.len() ==> key_lt(
            #[trigger] item_key(a[x]),
            #[trigger] item_key(b[y]),
        )
}

/// How far a comparison has come.
spec fn so_far(diffs: Seq<DiffNode>, a: Items, i: int, b: Items, j: int) -> bool {
    &&& 0 <= i <= a.len()
    &&& 0 <= j <= b.len()
    &&& in_path_order(a)
    &&& in_path_order(b)
    &&& diffs_in_order(diffs)
    &&& below(diffs, a, i)
    &&& below(diffs, b, j)
    &&& passed(a, i, b, j)
    &&& passed(b, j, a, i)
    &&& forall|x: int| 0 <= x < i ==> tells_of(diffs, #[trigger] item_key(a[x]))
    &&& forall|x: int| 0 <= x < j ==> tells_of(diffs, #[trigger] item_key(b[x]))
    &&& forall|x: int|
        0 <= x < diffs.len() ==> compares(#[trigger] diffs[x], items_map(a), items_map(b))
}

/// Adding the comparison of the next path leads from one state to the next.
proof fn lemma_step(
    diffs: Seq<DiffNode>,
    a: Items,
    i: int,
    b: Items,
    j: int,
    d: DiffNode,
    di: int,
    dj: int,
)
    requires
        so_far(diffs, a, i, b, j),
        0 <= di <= 1,
        0 <= dj <= 1,
        di + dj > 0,
        i + di <= a.len(),
        j + dj <= b.len(),
        di == 1 ==> item_key(a[i]) == d.path.key(),
        dj == 1 ==> item_key(b[j]) == d.path.key(),
        di == 0 && i < a.len() ==> key_lt(d.path.key(), item_key(a[i])),
        dj == 0 && j < b.len() ==> key_lt(d.path.key(), item_key(b[j])),
        compares(d, items_map(a), items_map(b)),
    ensures
        so_far(diffs.push(d), a, i + di, b, j + dj),
{
    let k = d.path.key();
    let next = diffs.push(d);
    assert forall|y: int| i + di <= y < a.len() implies key_lt(k, #[trigger] item_key(a[y])) by {
        if y > i {
            assert(key_lt(item_key(a[i]), item_key(a[y])));
            if di == 0 {
                lemma_key_transitive(k, item_key(a[i]), item_key(a[y]));
            }
        }
    }
    assert forall|y: int| j + dj <= y < b.len() implies key_lt(k, #[trigger] item_key(b[y])) by {
        if y > j {
            assert(key_lt(item_key(b[j]), item_key(b[y])));
            if dj == 0 {
                lemma_key_transitive(k, item_key(b[j]), item_key(b[y]));
            }
        }
    }
    assert(diffs_in_order(next)) by {
        assert forall|x: int, y: int| 0 <= x < y < next.len() implies key_lt(
            (#[trigger] next[x]).path.key(),
            (#[trigger] next[y]).path.key(),
        ) by {
            if y == diffs.len() {
                if di == 1 {
                    assert(key_lt(diffs[x].path.key(), item_key(a[i])));
                } else {
                    assert(key_lt(diffs[x].path.key(), item_key(b[j])));
                }
            }
        }
    }
    assert(below(next, a, i + di)) by {
        assert forall|x: int, y: int|
            0 <= x < next.len() && i + di <= y < a.len() implies key_lt(
            (#[trigger] next[x]).path.key(),
            item_key(#[trigger] a[y]),
        ) by {
            if x < diffs.len() {
                assert(key_lt(diffs[x].path.key(), item_key(a[y])));
            } else {
                assert(key_lt(k, item_key(a[y])));
            }
        }
    }
    assert(below(next, b, j + dj)) by {
        assert forall|x: int, y: int|
            0 <= x < next.len() && j + dj <= y < b.len() implies key_lt(
            (#[trigger] next[x]).path.key(),
            item_key(#[trigger] b[y]),
        ) by {
            if x < diffs.len() {
                assert(key_lt(diffs[x].path.key(), item_key(b[y])));
            } else {
                assert(key_lt(k, item_key(b[y])));
            }
        }
    }
    assert(tells_of(next, k)) by {
        assert(next[diffs.len() as int].path.key() == k);
    }
    assert forall|x: PathKey| tells_of(diffs, x) implies #[trigger] tells_of(next, x) by {
        let z = choose|z: int| 0 <= z < diffs.len() && (#[trigger] diffs[z]).path.key() == x;
        assert(next[z] == diffs[z]);
    }
    assert forall|x: int| 0 <= x < i + di implies tells_of(next, #[trigger] item_key(a[x])) by {
        if x < i {
            assert(tells_of(diffs, item_key(a[x])));
        }
    }
    assert forall|x: int| 0 <= x < j + dj implies tells_of(next, #[trigger] item_key(b[x])) by {
        if x < j {
            assert(tells_of(diffs, item_key(b[x])));
        }
    }
}

/// The next item of one list alone is in that list only.
proof fn lemma_alone(a: Items, i: int, b: Items, j: int)
    requires
        in_path_order(a),
        in_path_order(b),
        0 <= i < a.len(),
        0 <= j <= b.len(),
        passed(b, j, a, i),
        j < b.len() ==> key_lt(item_key(a[i]), item_key(b[j])),
    ensures
        items_map(a).contains_key(item_key(a[i])),
        items_map(a)[item_key(a[i])] == a[i],
        !items_map(b).contains_key(item_key(a[i])),
{
    let k = item_key(a[i]);
    lemma_key_index(a, i);
    assert forall|x: int| j <= x < b.len() implies key_lt(k, #[trigger] item_key(b[x])) by {
        if x > j {
            lemma_key_transitive(k, item_key(b[j]), item_key(b[x]));
        }
    }
    lemma_key_absent(b, j, k);
}

/// Compares two sets of nodes path by path.
pub fn diff_nodes(old_nodes: &PathMap<FileNode>, new_nodes: &PathMap<FileNode>) -> (r: Vec<DiffNode>)
    ensures
        is_diff_of(r@, old_nodes@, new_nodes@),
{
    let ghost a = old_nodes.items();
    let ghost b = new_nodes.items();
    let old_len = old_nodes.len();
    let new_len = new_nodes.len();
    let mut diffs: Vec<DiffNode> = Vec::new();
    let mut i: usize = 0;
    let mut j: usize = 0;
    while i < old_len || j < new_len
        invariant
            a == old_nodes.items(),
            b == new_nodes.items(),
            old_len == a.len(),
            new_len == b.len(),
            so_far(diffs@, a, i as int, b, j as int),
        decreases old_len - i + new_len - j,
    {
        let order = if i == old_len {
            Order::Greater
        } else if j == new_len {
            Order::Less
        } else {
            old_nodes.path_at(i).compare(new_nodes.path_at(j))
        };
        let ghost before = diffs@;
        match order {
            Order::Less => {
                let d = removed(old_nodes.path_at(i), old_nodes.value_at(i));
                proof {
                    lemma_alone(a, i as int, b, j as int);
                    lemma_step(before, a, i as int, b, j as int, d, 1, 0);
                }
                diffs.push(d);
                i = i + 1;
            },
            Order::Greater => {
                let d = added(new_nodes.path_at(j), new_nodes.value_at(j));
                proof {
                    lemma_alone(b, j as int, a, i as int);
                    lemma_step(before, a, i as int, b, j as int, d, 0, 1);
                }
                diffs.push(d);
                j = j + 1;
            },
            Order::Equal => {
                let d = compared(old_nodes.path_at(i), old_nodes.value_at(i), new_nodes.value_at(j));
                proof {
                    lemma_key_index(a, i as int);
                    lemma_key_index(b, j as int);
                    lemma_step(before, a, i as int, b, j as int, d, 1, 1);
                }
                diffs.push(d);
                i = i + 1;
                j = j + 1;
            },
        }
    }
    proof {
        assert forall|k: PathKey| #[trigger]
            tells_of(diffs@, k) <==> old_nodes@.contains_key(k) || new_nodes@.contains_key(k) by {
            if tells_of(diffs@, k) {
                let x = choose|x: int| 0 <= x < diffs@.len() && (#[trigger] diffs@[x]).path.key() == k;
                assert(compares(diffs@[x], items_map(a), items_map(b)));
            }
            if has_key(a, k) {
                assert(tells_of(diffs@, item_key(a[key_index(a, k)])));
            }
            if has_key(b, k) {
                assert(tells_of(diffs@, item_key(b[key_index(b, k)])));
            }
        }
    }
    diffs
}

/// Compares two snapshots path by path.
pub fn diff_snapshots(old_snapshot: &Snapshot, new_snapshot: &Snapshot) -> (r: Vec<DiffNode>)
    ensures
        is_diff_of(r@, old_snapshot.nodes@, new_snapshot.nodes@),
{
    diff_nodes(&old_snapshot.nodes, &new_snapshot.nodes)
}

/// A snapshot does not differ from itself.
pub proof fn law_no_difference_from_itself(
    diffs: Seq<DiffNode>,
    a: Map<PathKey, (Seq<u8>, FileNode)>,
)
    requires
        is_diff_of(diffs, a, a),
    ensures
        forall|i: int| 0 <= i < diffs.len() ==> (#[trigger] diffs[i]).status == DiffStatus::Unchanged,
{
    assert forall|i: int| 0 <= i < diffs.len() implies (#[trigger] diffs[i]).status
        == DiffStatus::Unchanged by {
        assert(compares(diffs[i], a, a));
    }
}

/// The status of a path when the two snapshots change places.
pub open spec fn mirrored(status: DiffStatus) -> DiffStatus {
    match status {
        DiffStatus::Added => DiffStatus::Removed,
        DiffStatus::Removed => DiffStatus::Added,
        other => other,
    }
}

/// Comparing the other way round gives the same paths with what was added and
/// what was removed exchanged.
pub proof fn law_diff_mirrors(
    there: Seq<DiffNode>,
    back: Seq<DiffNode>,
    a: Map<PathKey, (Seq<u8>, FileNode)>,
    b: Map<PathKey, (Seq<u8>, FileNode)>,
)
    requires
        is_diff_of(there, a, b),
        is_diff_of(back, b, a),
    ensures
        forall|k: PathKey| #[trigger] tells_of(there, k) <==> tells_of(back, k),
        forall|i: int, j: int|
            0 <= i < there.len() && 0 <= j < back.len() && (#[trigger] there[i]).path.key() == (
            #[trigger] back[j]).path.key() ==> {
                &&& back[j].status == mirrored(there[i].status)
                &&& back[j].old_node == there[i].new_node
                &&& back[j].new_node == there[i].old_node
            },
{
    assert forall|i: int, j: int|
        0 <= i < there.len() && 0 <= j < back.len() && (#[trigger] there[i]).path.key() == (
        #[trigger] back[j]).path.key() implies {
        &&& back[j].status == mirrored(there[i].status)
        &&& back[j].old_node == there[i].new_node
        &&& back[j].new_node == there[i].old_node
    } by {
        assert(compares(there[i], a, b));
        assert(compares(back[j], b, a));
    }
}

/// A list of one text or of none.
pub open spec fn named_if(named: bool, text: Seq<char>) -> Seq<Seq<char>> {
    if named {
        seq![text]
    } else {
        Seq::empty()
    }
}

/// The names of what differs between two nodes.
pub open spec fn part_names(a: FileNode, b: FileNode) -> Seq<Seq<char>> {
    named_if(a.hash != b.hash, "content"@) + named_if(a.mode != b.mode, "mode"@) + named_if(
        a.uid != b.uid,
        "uid"@,
    ) + named_if(a.gid != b.gid, "gid"@) + named_if(a.nlink != b.nlink, "nlink"@) + named_if(
        a.mtime != b.mtime,
        "mtime"@,
    ) + named_if(a.xattrs_hash != b.xattrs_hash, "xattrs"@) + named_if(a.flags != b.flags, "flags"@)
}

/// Adds a name to a list.
pub(crate) fn push_if(list: &mut Vec<String>, named: bool, text: &str)
    ensures
        text_views(final(list)@) == text_views(old(list)@) + named_if(named, text@),
{
    let ghost before = list@;
    if named {
        list.push(text.to_string());
    }
    assert(text_views(list@) =~= text_views(before) + named_if(named, text@));
}

/// Names what differs between two nodes.
pub fn changed_parts(old_node: &FileNode, new_node: &FileNode) -> (r: Vec<String>)
    ensures
        text_views(r@) == part_names(*old_node, *new_node),
{
    let mut changes: Vec<String> = Vec::new();
    assert(text_views(changes@) =~= Seq::empty());
    push_if(&mut changes, old_node.hash != new_node.hash, "content");
    push_if(&mut changes, old_node.mode != new_node.mode, "mode");
    push_if(&mut changes, old_node.uid != new_node.uid, "uid");
    push_if(&mut changes, old_node.gid != new_node.gid, "gid");
    push_if(&mut changes, old_node.nlink != new_node.nlink, "nlink");
    push_if(&mut changes, old_node.mtime != new_node.mtime, "mtime");
    push_if(&mut changes, old_node.xattrs_hash != new_node.xattrs_hash, "xattrs");
    push_if(&mut changes, old_node.flags != new_node.flags, "flags");
    assert(text_views(changes@) =~= part_names(*old_node, *new_node));
    changes
}

/// What an update of a path is put down to: what differs, or that the path is
/// new.
pub open spec fn details_of(a: Option<FileNode>, b: FileNode) -> Seq<char> {
    match a {
        Some(node) => joined(part_names(node, b), "+"@),
        None => "new"@,
    }
}

/// Says what an update of a path is put down to.
pub fn change_details(old_node: Option<&FileNode>, new_node: &FileNode) -> (r: String)
    ensures
        r@ == details_of(
            match old_node {
                Some(node) => Some(*node),
                None => None,
            },
            *new_node,
        ),
{
    match old_node {
        Some(node) => join_texts(&changed_parts(node, new_node), "+"),
        None => "new".to_string(),
    }
}

} // verus!
