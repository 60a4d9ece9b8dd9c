//! Snapshots: what a directory tree held at one moment.
use vstd::prelude::*;
use vstd::utf8::encode_utf8;
use crate::node::{file_node_of, DirInfo, Extras, FileNode, Items, Stat};
use crate::path::{components, is_under_any, key_within, FilePath, PathKey};
use crate::path_map::{in_path_order, items_map, lemma_take_map, PathMap};
use crate::progress::tree_steps;
use crate::text::{decimal, number_text};
use crate::tree::{
    clone_tree, directories_of, grow_tree, grown, holds_entry, rehash_directories, rehashed,
    text_above,
};

verus! {

/// A line of the activity log.
#[derive(Debug)]
pub struct LogEntry {
    pub timestamp: i64,
    pub message: String,
}

impl Clone for LogEntry {
    fn clone(&self) -> (r: LogEntry)
        ensures
            r == *self,
    {
        LogEntry { timestamp: self.timestamp, message: self.message.clone() }
    }
}

/// Directories that are watched first.
pub const DEFAULT_CRITICAL_DIRS: [&'static str; 7] = [
    "/etc",
    "/bin",
    "/sbin",
    "/usr/bin",
    "/usr/sbin",
    "/boot",
    "/root",
];

/// The bytes of texts.
pub open spec fn text_paths(texts: Seq<String>) -> Seq<Seq<u8>> {
    texts.map_values(|t: String| encode_utf8(t@))
}

/// The texts of paths.
pub open spec fn path_texts(paths: Seq<FilePath>) -> Seq<Seq<u8>> {
    paths.map_values(|p: FilePath| p@)
}

/// Turns texts into paths.
pub fn paths_from(texts: &Vec<String>) -> (r: Vec<FilePath>)
    ensures
        path_texts(r@) == text_paths(texts@),
{
    let mut r: Vec<FilePath> = Vec::new();
    let mut i: usize = 0;
    while i < texts.len()
        invariant
            i <= texts@.len(),
            path_texts(r@) == text_paths(texts@).take(i as int),
        decreases texts@.len() - i,
    {
        let ghost before = r@;
        let path = FilePath::from_text(texts[i].as_str());
        r.push(path);
        assert(path_texts(r@) =~= path_texts(before).push(path@));
        i = i + 1;
        assert(path_texts(r@) =~= text_paths(texts@).take(i as int));
    }
    assert(path_texts(r@) =~= text_paths(texts@));
    r
}

/// The texts of paths at or below a root.
pub open spec fn texts_under(texts: Seq<Seq<u8>>, root: PathKey) -> Seq<Seq<u8>> {
    texts.filter(|t: Seq<u8>| key_within(components(t), root))
}

/// The critical directories that lie under the scanned one, in the order given.
pub fn get_critical_dirs_in_scope(scan_root: &FilePath, critical_dirs: &Vec<String>) -> (r: Vec<
    FilePath,
>)
    ensures
        path_texts(r@) == text_paths(critical_dirs@).filter(
            |t: Seq<u8>| key_within(components(t), scan_root.key()),
        ),
        path_texts(r@) == texts_under(text_paths(critical_dirs@), scan_root.key()),
{
    let ghost wanted = |t: Seq<u8>| key_within(components(t), scan_root.key());
    let ghost all = text_paths(critical_dirs@);
    let mut r: Vec<FilePath> = Vec::new();
    let mut i: usize = 0;
    proof {
        reveal(Seq::filter);
        assert(path_texts(r@) =~= all.take(0).filter(wanted));
    }
    while i < critical_dirs.len()
        invariant
            i <= critical_dirs@.len(),
            all == text_paths(critical_dirs@),
            wanted == (|t: Seq<u8>| key_within(components(t), scan_root.key())),
            path_texts(r@) == all.take(i as int).filter(wanted),
        decreases critical_dirs@.len() - i,
    {
        let ghost before = r@;
        let path = FilePath::from_text(critical_dirs[i].as_str());
        proof {
            reveal(Seq::filter);
            assert(all.take(i + 1).drop_last() =~= all.take(i as int));
            assert(all.take(i + 1).last() == path@);
        }
        if path.starts_with(scan_root) {
            r.push(path);
            assert(path_texts(r@) =~= path_texts(before).push(path@));
        }
        i = i + 1;
    }
    assert(all.take(i as int) =~= all);
    r
}

/// Layout of snapshot files that this version writes.
pub const SNAPSHOT_VERSION: u32 = 1;

/// What a directory tree held at one moment.
#[derive(Debug)]
pub struct Snapshot {
    /// Layout version of the snapshot.
    pub version: u32,
    /// Seconds since the epoch at which it was taken.
    pub timestamp: i64,
    /// The directory that was scanned.
    pub root: FilePath,
    /// All files and directories.
    pub nodes: PathMap<FileNode>,
}

/// Two snapshots say the same.
pub open spec fn same_snapshot(a: Snapshot, b: Snapshot) -> bool {
    &&& a.version == b.version
    &&& a.timestamp == b.timestamp
    &&& a.root@ == b.root@
    &&& a.nodes.items() == b.nodes.items()
}

impl Clone for Snapshot {
    fn clone(&self) -> (r: Snapshot)
        ensures
            same_snapshot(r, *self),
    {
        Snapshot {
            version: self.version,
            timestamp: self.timestamp,
            root: self.root.clone(),
            nodes: clone_tree(&self.nodes),
        }
    }
}

/// What is said about a snapshot of a newer layout.
pub open spec fn newer_version_text(version: u32) -> Seq<char> {
    "Snapshot version "@ + decimal(version as int) + " is newer than supported version "@ + decimal(
        SNAPSHOT_VERSION as int,
    ) + ". Please upgrade diffie."@
}

/// What is said about a snapshot of an older layout.
pub open spec fn older_version_text(version: u32) -> Seq<char> {
    "[WARN] Snapshot version "@ + decimal(version as int) + " is older than current version "@
        + decimal(SNAPSHOT_VERSION as int) + ". Some features may not work correctly."@
}

impl Snapshot {
    /// Refuses a snapshot of a newer layout.
    pub fn check_version(&self) -> (r: Result<(), String>)
        ensures
            r is Ok <==> self.version <= SNAPSHOT_VERSION,
            r matches Err(text) ==> text@ == newer_version_text(self.version),
    {
        if self.version > SNAPSHOT_VERSION {
            let mut text = String::new();
            text.append("Snapshot version ");
            text.append(number_text(self.version as u64, 10).as_str());
            text.append(" is newer than supported version ");
            text.append(number_text(SNAPSHOT_VERSION as u64, 10).as_str());
            text.append(". Please upgrade diffie.");
            assert(text@ =~= newer_version_text(self.version));
            Err(text)
        } else {
            Ok(())
        }
    }

    /// The warning that goes with a snapshot of an older layout.
    pub fn version_warning(&self) -> (r: Option<String>)
        ensures
            r is Some <==> self.version < SNAPSHOT_VERSION,
            r matches Some(text) ==> text@ == older_version_text(self.version),
    {
        if self.version < SNAPSHOT_VERSION {
            let mut text = String::new();
            text.append("[WARN] Snapshot version ");
            text.append(number_text(self.version as u64, 10).as_str());
            text.append(" is older than current version ");
            text.append(number_text(SNAPSHOT_VERSION as u64, 10).as_str());
            text.append(". Some features may not work correctly.");
            assert(text@ =~= older_version_text(self.version));
            Some(text)
        } else {
            None
        }
    }
}

/// What a walk over a directory tree finds at an entry.
#[derive(Debug, Clone, Copy, PartialEq, Eq, Structural)]
pub enum EntryKind {
    File,
    Dir,
    Other,
}

/// What was read of a file: its checksum and what the file system tells.
#[derive(Debug, PartialEq)]
pub struct FileContent {
    pub hash: u64,
    pub stat: Stat,
    pub extras: Extras,
}

/// One entry of a walk.
#[derive(Debug)]
pub struct WalkEntry {
    /// The canonical path, where the entry has one.
    pub path: Option<FilePath>,
    pub kind: EntryKind,
    /// The length of a file, where it could be read.
    pub len: Option<u64>,
    /// What was read of the file; nothing where it could not be read.
    pub content: Option<FileContent>,
}

/// Bytes of a size limit that is given in megabytes.
pub open spec fn limit_bytes(max_size_mb: u64) -> int {
    max_size_mb * 1048576
}

/// An entry that belongs in a snapshot: it is not under a skipped directory,
/// and it is a directory or a file below the size limit.
pub open spec fn wanted(
    path: Option<FilePath>,
    kind: EntryKind,
    len: Option<u64>,
    skip: Seq<Seq<u8>>,
    max_bytes: int,
) -> bool {
    &&& path is Some
    &&& !is_skipped(path->0.key(), skip)
    &&& match kind {
        EntryKind::File => len is Some && len->0 < max_bytes,
        EntryKind::Dir => true,
        EntryKind::Other => false,
    }
}

/// The path is one of the skipped directories or lies under one.
pub open spec fn is_skipped(key: PathKey, skip: Seq<Seq<u8>>) -> bool {
    exists|i: int| 0 <= i < skip.len() && key_within(key, components(#[trigger] skip[i]))
}

/// Whether an entry belongs in a snapshot.
pub fn wants_entry(
    path: &Option<FilePath>,
    kind: EntryKind,
    len: Option<u64>,
    skip_paths: &Vec<FilePath>,
    max_size_mb: u64,
) -> (r: bool)
    requires
        limit_bytes(max_size_mb) <= u64::MAX,
    ensures
        r == wanted(*path, kind, len, path_texts(skip_paths@), limit_bytes(max_size_mb)),
{
    let max_bytes = max_size_mb * 1024 * 1024;
    let ghost skip = path_texts(skip_paths@);
    match path {
        Some(p) => {
            let under = is_under_any(p, skip_paths);
            proof {
                if under {
                    let i = choose|i: int|
                        0 <= i < skip_paths@.len() && key_within(p.key(), #[trigger] skip_paths@[i].key());
                    assert(skip[i] == skip_paths@[i]@);
                }
                if is_skipped(p.key(), skip) {
                    let i = choose|i: int|
                        0 <= i < skip.len() && key_within(p.key(), components(#[trigger] skip[i]));
                    assert(skip[i] == skip_paths@[i]@);
                    assert(key_within(p.key(), skip_paths@[i].key()));
                }
            }
            if under {
                return false;
            }
            match kind {
                EntryKind::File => match len {
                    Some(n) => n < max_bytes,
                    None => false,
                },
                EntryKind::Dir => true,
                EntryKind::Other => false,
            }
        },
        None => false,
    }
}

/// The files of a walk: every wanted file that could be read. Where a path comes
/// twice the later reading counts.
pub open spec fn walk_files(walk: Seq<WalkEntry>, skip: Seq<Seq<u8>>, max_bytes: int) -> Map<
    PathKey,
    (Seq<u8>, FileNode),
>
    decreases walk.len(),
{
    if walk.len() == 0 {
        Map::empty()
    } else {
        let before = walk_files(walk.drop_last(), skip, max_bytes);
        let entry = walk.last();
        if wanted(entry.path, entry.kind, entry.len, skip, max_bytes) && entry.kind
            == EntryKind::File && entry.content is Some {
            let path = entry.path->0;
            let content = entry.content->0;
            before.insert(
                path.key(),
                (
                    if before.contains_key(path.key()) {
                        before[path.key()].0
                    } else {
                        path@
                    },
                    file_node_of(content.hash, content.stat, content.extras),
                ),
            )
        } else {
            before
        }
    }
}

/// Collects the files of a walk.
pub fn collect_files(walk: &Vec<WalkEntry>, skip_dirs: &Vec<String>, max_size_mb: u64) -> (r: PathMap<
    FileNode,
>)
    requires
        limit_bytes(max_size_mb) <= u64::MAX,
    ensures
        in_path_order(r.items()),
        r@ == walk_files(walk@, text_paths(skip_dirs@), limit_bytes(max_size_mb)),
{
    let skip_paths = paths_from(skip_dirs);
    let ghost skip = text_paths(skip_dirs@);
    let mut files: PathMap<FileNode> = PathMap::new();
    let mut i: usize = 0;
    assert(walk@.take(0) =~= Seq::empty());
    while i < walk.len()
        invariant
            i <= walk@.len(),
            limit_bytes(max_size_mb) <= u64::MAX,
            skip == path_texts(skip_paths@),
            in_path_order(files.items()),
            files@ == walk_files(walk@.take(i as int), skip, limit_bytes(max_size_mb)),
        decreases walk@.len() - i,
    {
        let entry = &walk[i];
        proof {
            assert(walk@.take(i + 1).drop_last() =~= walk@.take(i as int));
            assert(walk@.take(i + 1).last() == *entry);
        }
        if entry.kind == EntryKind::File && wants_entry(
            &entry.path,
            entry.kind,
            entry.len,
            &skip_paths,
            max_size_mb,
        ) {
            if let Some(path) = &entry.path {
                if let Some(content) = &entry.content {
                    let node = FileNode::of_file(content.hash, &content.stat, content.extras.clone());
                    files.insert(path.clone(), node);
                }
            }
        }
        i = i + 1;
    }
    assert(walk@.take(i as int) =~= walk@);
    files
}

/// The directories of a walk: every wanted one.
pub open spec fn walk_dirs(walk: Seq<WalkEntry>, skip: Seq<Seq<u8>>, max_bytes: int) -> Map<
    PathKey,
    (Seq<u8>, ()),
>
    decreases walk.len(),
{
    if walk.len() == 0 {
        Map::empty()
    } else {
        let before = walk_dirs(walk.drop_last(), skip, max_bytes);
        let entry = walk.last();
        if wanted(entry.path, entry.kind, entry.len, skip, max_bytes) && entry.kind
            == EntryKind::Dir {
            let path = entry.path->0;
            before.insert(
                path.key(),
                (
                    if before.contains_key(path.key()) {
                        before[path.key()].0
                    } else {
                        path@
                    },
                    (),
                ),
            )
        } else {
            before
        }
    }
}

/// The directories that a snapshot has nodes for: those of the walk, and those
/// that directly hold one of the files.
pub open spec fn has_dirs(
    dirs: Map<PathKey, (Seq<u8>, ())>,
    walked: Map<PathKey, (Seq<u8>, ())>,
    files: Items,
) -> bool {
    &&& forall|k: PathKey| #[trigger]
        dirs.contains_key(k) <==> walked.contains_key(k) || holds_entry(files, k, false)
    &&& forall|k: PathKey| #[trigger]
        dirs.contains_key(k) ==> if walked.contains_key(k) {
            dirs[k].0 == walked[k].0
        } else {
            text_above(files, k, dirs[k].0)
        }
}

/// Collects the directories that a snapshot of a walk has nodes for. `files`
/// are the files of the walk.
pub fn collect_dirs(
    walk: &Vec<WalkEntry>,
    skip_dirs: &Vec<String>,
    max_size_mb: u64,
    files: &PathMap<FileNode>,
) -> (r: PathMap<()>)
    requires
        limit_bytes(max_size_mb) <= u64::MAX,
    ensures
        in_path_order(r.items()),
        has_dirs(
            r@,
            walk_dirs(walk@, text_paths(skip_dirs@), limit_bytes(max_size_mb)),
            files.items(),
        ),
{
    let skip_paths = paths_from(skip_dirs);
    let ghost skip = text_paths(skip_dirs@);
    let ghost walked = walk_dirs(walk@, skip, limit_bytes(max_size_mb));
    let mut dirs: PathMap<()> = PathMap::new();
    let mut i: usize = 0;
    assert(walk@.take(0) =~= Seq::empty());
    while i < walk.len()
        invariant
            i <= walk@.len(),
            limit_bytes(max_size_mb) <= u64::MAX,
            skip == path_texts(skip_paths@),
            dirs@ == walk_dirs(walk@.take(i as int), skip, limit_bytes(max_size_mb)),
        decreases walk@.len() - i,
    {
        let entry = &walk[i];
        proof {
            assert(walk@.take(i + 1).drop_last() =~= walk@.take(i as int));
            assert(walk@.take(i + 1).last() == *entry);
        }
        if entry.kind == EntryKind::Dir && wants_entry(
            &entry.path,
            entry.kind,
            entry.len,
            &skip_paths,
            max_size_mb,
        ) {
            if let Some(path) = &entry.path {
                dirs.insert(path.clone(), ());
            }
        }
        i = i + 1;
    }
    assert(walk@.take(i as int) =~= walk@);
    let parents = directories_of(files, false);
    let ghost over = parents.items();
    let total = parents.len();
    let mut j: usize = 0;
    proof {
        assert(over.take(0) =~= Seq::empty());
        assert(dirs@ =~= overlaid(walked, items_map(over.take(0))));
    }
    while j < total
        invariant
            j <= total == over.len(),
            over == parents.items(),
            in_path_order(over),
            dirs@ == overlaid(walked, items_map(over.take(j as int))),
        decreases total - j,
    {
        let path = parents.path_at(j).clone();
        proof {
            lemma_take_map(over, j as int);
            assert(over[j as int] == (path@, ()));
        }
        dirs.insert(path, ());
        j = j + 1;
        assert(dirs@ =~= overlaid(walked, items_map(over.take(j as int))));
    }
    proof {
        assert(over.take(j as int) =~= over);
        assert forall|k: PathKey| #[trigger] dirs@.contains_key(k) <==> walked.contains_key(k)
            || holds_entry(files.items(), k, false) by {
            assert(parents@.contains_key(k) <==> holds_entry(files.items(), k, false));
        }
        assert forall|k: PathKey| #[trigger] dirs@.contains_key(k) implies if walked.contains_key(
            k,
        ) {
            dirs@[k].0 == walked[k].0
        } else {
            text_above(files.items(), k, dirs@[k].0)
        } by {
            if !walked.contains_key(k) {
                assert(parents@.contains_key(k));
                assert(text_above(files.items(), k, parents@[k].0));
            }
        }
    }
    let _ = dirs.len();
    dirs
}

/// The nodes are those of a walk: its files, and its directories over them.
pub open spec fn are_nodes_of(
    nodes: Items,
    files: Map<PathKey, (Seq<u8>, FileNode)>,
    walked: Map<PathKey, (Seq<u8>, ())>,
    infos: Map<PathKey, (Seq<u8>, DirInfo)>,
) -> bool {
    exists|items: Items, dirs: Map<PathKey, (Seq<u8>, ())>|
        #![trigger grown(items, dirs, infos, nodes)]
        in_path_order(items) && items_map(items) == files && has_dirs(dirs, walked, items) && grown(
            items,
            dirs,
            infos,
            nodes,
        )
}

/// `snapshot` is what a walk at that time amounts to.
pub open spec fn is_snapshot_of(
    snapshot: Snapshot,
    root: Seq<u8>,
    walk: Seq<WalkEntry>,
    skip: Seq<Seq<u8>>,
    max_bytes: int,
    infos: Map<PathKey, (Seq<u8>, DirInfo)>,
    timestamp: i64,
) -> bool {
    &&& snapshot.version == SNAPSHOT_VERSION
    &&& snapshot.timestamp == timestamp
    &&& snapshot.root@ == root
    &&& in_path_order(snapshot.nodes.items())
    &&& are_nodes_of(
        snapshot.nodes.items(),
        walk_files(walk, skip, max_bytes),
        walk_dirs(walk, skip, max_bytes),
        infos,
    )
}

/// The snapshot is taken of what the walk found, without the directories to
/// skip, and of files below the limit.
pub open spec fn is_taken(
    snapshot: Snapshot,
    root: Seq<u8>,
    skip_dirs: Seq<String>,
    max_size_mb: u64,
    walk: Seq<WalkEntry>,
    infos: Map<PathKey, (Seq<u8>, DirInfo)>,
    timestamp: i64,
) -> bool {
    is_snapshot_of(
        snapshot,
        root,
        walk,
        text_paths(skip_dirs),
        limit_bytes(max_size_mb),
        infos,
        timestamp,
    )
}

/// Takes a snapshot from what a walk over `root` found and read.
pub fn create_snapshot(
    root: FilePath,
    skip_dirs: &Vec<String>,
    max_size_mb: u64,
    walk: &Vec<WalkEntry>,
    infos: &PathMap<DirInfo>,
    timestamp: i64,
) -> (r: Snapshot)
    requires
        limit_bytes(max_size_mb) <= u64::MAX,
    ensures
        is_snapshot_of(
            r,
            root@,
            walk@,
            text_paths(skip_dirs@),
            limit_bytes(max_size_mb),
            infos@,
            timestamp,
        ),
        is_taken(r, root@, skip_dirs@, max_size_mb, walk@, infos@, timestamp),
{
    let quiet = |_current: usize, _total: usize| {};
    create_snapshot_with_progress(root, skip_dirs, max_size_mb, walk, infos, timestamp, Some(quiet))
}

/// Takes a snapshot from what a walk over `root` found and read, and tells the
/// callback how far it has come: the percentages of `tree_steps`.
pub fn create_snapshot_with_progress<F: Fn(usize, usize)>(
    root: FilePath,
    skip_dirs: &Vec<String>,
    max_size_mb: u64,
    walk: &Vec<WalkEntry>,
    infos: &PathMap<DirInfo>,
    timestamp: i64,
    progress_callback: Option<F>,
) -> (r: Snapshot)
    requires
        limit_bytes(max_size_mb) <= u64::MAX,
        progress_callback matches Some(cb) ==> forall|p: usize|
            p <= 100 ==> #[trigger] call_requires(cb, (p, 100usize)),
    ensures
        is_snapshot_of(
            r,
            root@,
            walk@,
            text_paths(skip_dirs@),
            limit_bytes(max_size_mb),
            infos@,
            timestamp,
        ),
        is_taken(r, root@, skip_dirs@, max_size_mb, walk@, infos@, timestamp),
{
    let files = collect_files(walk, skip_dirs, max_size_mb);
    let dirs = collect_dirs(walk, skip_dirs, max_size_mb, &files);
    let steps = tree_steps(dirs.len());
    let ghost items = files.items();
    if let Some(cb) = &progress_callback {
        cb(steps[0], 100);
    }
    let nodes = grow_tree(files, &dirs, infos, &steps, &progress_callback);
    if let Some(cb) = &progress_callback {
        cb(steps[steps.len() - 2], 100);
    }
    let snapshot = Snapshot { version: SNAPSHOT_VERSION, timestamp, root, nodes };
    if let Some(cb) = &progress_callback {
        cb(steps[steps.len() - 1], 100);
    }
    assert(grown(items, dirs@, infos@, snapshot.nodes.items()));
    snapshot
}

/// One map laid over another: the values of `over` count, the path texts of
/// `under` stay.
pub open spec fn overlaid<V>(
    under: Map<PathKey, (Seq<u8>, V)>,
    over: Map<PathKey, (Seq<u8>, V)>,
) -> Map<PathKey, (Seq<u8>, V)> {
    Map::new(
        |k: PathKey| under.contains_key(k) || over.contains_key(k),
        |k: PathKey|
            if !over.contains_key(k) {
                under[k]
            } else if under.contains_key(k) {
                (under[k].0, over[k].1)
            } else {
                over[k]
            },
    )
}

/// `after` is `base` with the nodes of `new` laid over its own and every
/// directory brought up to date with the files directly in it.
pub open spec fn is_merge_of(
    after: Snapshot,
    base: Snapshot,
    new: Snapshot,
    infos: Map<PathKey, (Seq<u8>, DirInfo)>,
) -> bool {
    &&& after.version == base.version
    &&& after.root@ == base.root@
    &&& after.timestamp == new.timestamp
    &&& in_path_order(after.nodes.items())
    &&& exists|items: Items|
        #![trigger rehashed(items, infos, after.nodes.items())]
        in_path_order(items) && items_map(items) == overlaid(base.nodes@, new.nodes@) && rehashed(
            items,
            infos,
            after.nodes.items(),
        )
}

/// Lays the nodes of a newer snapshot over those of an older one.
pub fn merge_snapshots(base: &mut Snapshot, new: &Snapshot, infos: &PathMap<DirInfo>)
    ensures
        is_merge_of(*final(base), *old(base), *new, infos@),
{
    let ghost under = base.nodes@;
    let ghost over = new.nodes.items();
    let total = new.nodes.len();
    let mut i: usize = 0;
    proof {
        assert(over.take(0) =~= Seq::empty());
        assert(base.nodes@ =~= overlaid(under, items_map(over.take(0))));
    }
    while i < total
        invariant
            i <= total == over.len(),
            over == new.nodes.items(),
            in_path_order(over),
            base.version == old(base).version,
            base.root@ == old(base).root@,
            base.nodes@ == overlaid(under, items_map(over.take(i as int))),
        decreases total - i,
    {
        let path = new.nodes.path_at(i).clone();
        let node = new.nodes.value_at(i).clone();
        let ghost before = base.nodes@;
        proof {
            lemma_take_map(over, i as int);
        }
        base.nodes.insert(path, node);
        i = i + 1;
        assert(base.nodes@ =~= overlaid(under, items_map(over.take(i as int))));
    }
    base.timestamp = new.timestamp;
    proof {
        assert(over.take(i as int) =~= over);
    }
    let ghost items = base.nodes.items();
    rehash_directories(&mut base.nodes, infos);
    assert(rehashed(items, infos@, base.nodes.items()));
}

/// A layout other than the first is told of by its number.
pub proof fn law_other_layouts_are_named(version: u32)
    ensures
        newer_version_text(version) == "Snapshot version "@ + decimal(version as int)
            + " is newer than supported version "@ + decimal(1) + ". Please upgrade diffie."@,
        older_version_text(version) == "[WARN] Snapshot version "@ + decimal(version as int)
            + " is older than current version "@ + decimal(1)
            + ". Some features may not work correctly."@,
{
}

/// A copy says the same of everything: layout, time, root, and every path with
/// its node.
pub proof fn law_copies_say_the_same(a: Snapshot, b: Snapshot)
    requires
        same_snapshot(a, b),
    ensures
        a.version == b.version,
        a.timestamp == b.timestamp,
        a.root@ == b.root@,
        a.nodes.items() == b.nodes.items(),
        a.nodes@ == b.nodes@,
{
}

} // verus!
