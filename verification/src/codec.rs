//! Snapshot files: nodes as plain records, written with bincode and packed
//! with zstd.
use bincode::Options;
use vstd::prelude::*;
use vstd::utf8::{decode_utf8, decode_utf8_encode_utf8, encode_utf8, valid_utf8};
use crate::node::{clone_text, context_view, FileNode, Items};
use crate::path::{components, key_lt, FilePath, PathKey};
use crate::path_map::{
    in_path_order, item_key, items_map, key_index, lemma_key_index, lemma_same_items,
    lemma_take_map, PathMap,
};
use crate::snapshot::{newer_version_text, Snapshot, SNAPSHOT_VERSION};
use crate::text::from_utf8;

verus! {

/// `std::io::Error`, carried through as it came.
#[verifier::external_type_specification]
#[verifier::external_body]
pub struct ExIoError(std::io::Error);

/// `bincode::ErrorKind`, carried through as it came.
#[verifier::external_type_specification]
#[verifier::external_body]
pub struct ExBincodeErrorKind(bincode::ErrorKind);

/// The fields of a node in a snapshot file, in their order there: checksum,
/// size, whether it is a directory, user, group, mode, modification time,
/// status change time, links, checksum of the extended attributes, security
/// context, flags.
pub type NodeRecord = (
    u64,
    u64,
    bool,
    u32,
    u32,
    u32,
    i64,
    i64,
    u16,
    u64,
    Option<String>,
    u32,
);

/// A snapshot in a snapshot file: version, time, root, and the nodes with
/// their paths.
pub type SnapshotRecord = (u32, i64, String, Vec<(String, NodeRecord)>);

/// What a node's record says.
pub type NodeRecordView = (
    u64,
    u64,
    bool,
    u32,
    u32,
    u32,
    i64,
    i64,
    u16,
    u64,
    Option<Seq<char>>,
    u32,
);

/// What a snapshot's record says.
pub type SnapshotRecordView = (u32, i64, Seq<char>, Seq<(Seq<char>, NodeRecordView)>);

/// What `bincode::serialize` writes for a record.
pub uninterp spec fn bincode_bytes(record: SnapshotRecordView) -> Seq<u8>;

/// The record that `bincode::deserialize` reads from bytes, where it reads one.
pub uninterp spec fn bincode_record(bytes: Seq<u8>) -> Option<SnapshotRecordView>;

/// The data that `zstd::decode_all` unpacks, where it unpacks any.
pub uninterp spec fn zstd_decoded(bytes: Seq<u8>) -> Option<Seq<u8>>;

/// The record that `bincode` reads from a `zstd::stream::read::Decoder` over the
/// bytes, where it reads one.
pub uninterp spec fn stream_record(bytes: Seq<u8>) -> Option<SnapshotRecordView>;

/// Calls `bincode::serialize`, which sets no limit and fails on no record of
/// numbers and texts. What it writes reads back as the same record.
#[verifier::external_body]
fn bincode_serialize(record: &SnapshotRecord) -> (r: Result<Vec<u8>, bincode::Error>)
    ensures
        r is Ok,
        r matches Ok(bytes) ==> bytes@ == bincode_bytes(record.deep_view()) && bincode_record(bytes@)
            == Some(record.deep_view()),
{
    bincode::serialize(record)
}

/// Calls `bincode::deserialize`. Which bytes hold a record is not spelled out.
#[verifier::external_body]
fn bincode_deserialize(bytes: &[u8]) -> (r: Result<SnapshotRecord, bincode::Error>)
    ensures
        r is Ok <==> bincode_record(bytes@) is Some,
        r matches Ok(record) ==> bincode_record(bytes@) == Some(record.deep_view()),
{
    bincode::deserialize(bytes)
}

/// Calls `zstd::encode_all` with level 10. What it packs unpacks to the same
/// data. It is one frame, and reading a frame hands all of its data on before
/// anything behind it is looked at: so a record that the data hold is read from
/// the packed bytes too, whatever follows them. The packed bytes themselves may
/// differ from one machine to the next, and packing may fail for want of memory:
/// neither is spelled out.
#[verifier::external_body]
fn zstd_encode(data: &[u8]) -> (r: Result<Vec<u8>, std::io::Error>)
    ensures
        r matches Ok(bytes) ==> zstd_decoded(bytes@) == Some(data@),
        r matches Ok(bytes) ==> forall|rest: Seq<u8>|
            bincode_record(data@) is Some ==> #[trigger] stream_record(bytes@ + rest)
                == bincode_record(data@),
{
    zstd::encode_all(data, 10)
}

/// Calls `zstd::decode_all`, which reads to the end of the bytes and fails on
/// any damage. What the packed data look like is not spelled out.
#[verifier::external_body]
fn zstd_decode(bytes: &[u8]) -> (r: Result<Vec<u8>, std::io::Error>)
    ensures
        r is Ok <==> zstd_decoded(bytes@) is Some,
        r matches Ok(data) ==> zstd_decoded(bytes@) == Some(data@),
{
    zstd::decode_all(bytes)
}

/// Calls `bincode`'s `deserialize_from` on a `zstd::stream::read::Decoder` over
/// the bytes, which unpacks no more than the record needs. The limit on its
/// size, the largest that a buffer can have, turns a length that no buffer could
/// hold into an error. Which bytes hold a record is not spelled out.
#[verifier::external_body]
fn stream_deserialize(bytes: &[u8]) -> (r: Result<SnapshotRecord, bincode::Error>)
    ensures
        r is Ok <==> stream_record(bytes@) is Some,
        r matches Ok(record) ==> stream_record(bytes@) == Some(record.deep_view()),
{
    let decoder = zstd::stream::read::Decoder::new(bytes)?;
    bincode::DefaultOptions::new()
        .with_fixint_encoding()
        .allow_trailing_bytes()
        .with_limit(isize::MAX as u64)
        .deserialize_from(decoder)
}

/// Why a snapshot cannot be written.
#[derive(Debug)]
pub enum SaveError {
    /// A path is not UTF-8.
    PathNotText,
    /// The data could not be packed.
    Compression(std::io::Error),
}

/// Why a snapshot cannot be read.
#[derive(Debug)]
pub enum LoadError {
    /// The data could not be unpacked.
    Compression(std::io::Error),
    /// The data hold no snapshot.
    Format(bincode::Error),
    /// The snapshot is of a newer layout.
    Version(String),
}

/// The record of a node. The access time is left out.
pub open spec fn node_record(node: FileNode) -> NodeRecordView {
    (
        node.hash,
        node.size,
        node.is_dir,
        node.uid,
        node.gid,
        node.mode,
        node.mtime,
        node.ctime,
        node.nlink,
        node.xattrs_hash,
        context_view(node.lsm_context),
        node.flags,
    )
}

/// The record of an entry.
pub open spec fn item_record(item: (Seq<u8>, FileNode)) -> (Seq<char>, NodeRecordView) {
    (decode_utf8(item.0), node_record(item.1))
}

/// The record of a snapshot.
pub open spec fn snapshot_record(snapshot: Snapshot) -> SnapshotRecordView {
    (
        snapshot.version,
        snapshot.timestamp,
        decode_utf8(snapshot.root@),
        snapshot.nodes.items().map_values(|item: (Seq<u8>, FileNode)| item_record(item)),
    )
}

/// Every path of the snapshot is UTF-8.
pub open spec fn paths_are_text(snapshot: Snapshot) -> bool {
    &&& valid_utf8(snapshot.root@)
    &&& forall|i: int|
        0 <= i < snapshot.nodes.items().len() ==> valid_utf8(#[trigger] snapshot.nodes.items()[i].0)
}

fn path_text(path: &FilePath) -> (r: Option<String>)
    ensures
        r is Some <==> valid_utf8(path@),
        r matches Some(text) ==> text@ == decode_utf8(path@),
{
    from_utf8(vstd::slice::slice_to_vec(path.as_bytes()))
}

fn record_of_node(node: &FileNode) -> (r: NodeRecord)
    ensures
        r.deep_view() == node_record(*node),
{
    (
        node.hash,
        node.size,
        node.is_dir,
        node.uid,
        node.gid,
        node.mode,
        node.mtime,
        node.ctime,
        node.nlink,
        node.xattrs_hash,
        clone_text(&node.lsm_context),
        node.flags,
    )
}

/// Turns a snapshot into its record; there is none where a path is not UTF-8.
pub fn record_of_snapshot(snapshot: &Snapshot) -> (r: Option<SnapshotRecord>)
    ensures
        r is Some <==> paths_are_text(*snapshot),
        r matches Some(record) ==> record.deep_view() == snapshot_record(*snapshot),
{
    let ghost items = snapshot.nodes.items();
    let ghost records = items.map_values(|item: (Seq<u8>, FileNode)| item_record(item));
    let root = match path_text(&snapshot.root) {
        Some(root) => root,
        None => {
            return None;
        },
    };
    let total = snapshot.nodes.len();
    let mut nodes: Vec<(String, NodeRecord)> = Vec::new();
    let mut i: usize = 0;
    assert(nodes.deep_view() =~= records.take(0));
    while i < total
        invariant
            i <= total == items.len(),
            items == snapshot.nodes.items(),
            records == items.map_values(|item: (Seq<u8>, FileNode)| item_record(item)),
            nodes.deep_view() == records.take(i as int),
            forall|j: int| 0 <= j < i ==> valid_utf8(#[trigger] items[j].0),
        decreases total - i,
    {
        let path = match path_text(snapshot.nodes.path_at(i)) {
            Some(path) => path,
            None => {
                assert(!valid_utf8(items[i as int].0));
                return None;
            },
        };
        let ghost before = nodes.deep_view();
        let entry = (path, record_of_node(snapshot.nodes.value_at(i)));
        nodes.push(entry);
        assert(nodes.deep_view() =~= before.push(entry.deep_view()));
        assert(entry.deep_view() == records[i as int]);
        i = i + 1;
        assert(nodes.deep_view() =~= records.take(i as int));
    }
    assert(records.take(i as int) =~= records);
    let record = (snapshot.version, snapshot.timestamp, root, nodes);
    assert(record.deep_view() == snapshot_record(*snapshot));
    Some(record)
}

/// `bytes` is a file of the snapshot: unpacked as a whole or read from the
/// start, whatever follows it, it gives the snapshot's record.
pub open spec fn holds_snapshot(bytes: Seq<u8>, snapshot: Snapshot) -> bool {
    &&& paths_are_text(snapshot)
    &&& zstd_decoded(bytes) == Some(bincode_bytes(snapshot_record(snapshot)))
    &&& bincode_record(bincode_bytes(snapshot_record(snapshot))) == Some(snapshot_record(snapshot))
    &&& forall|rest: Seq<u8>| #[trigger]
        stream_record(bytes + rest) == Some(snapshot_record(snapshot))
}

/// What is returned for packed data, or for the failure to pack them.
pub fn pack_outcome(packed: Result<Vec<u8>, std::io::Error>) -> (r: Result<Vec<u8>, SaveError>)
    ensures
        r == match packed {
            Ok(bytes) => Ok::<Vec<u8>, SaveError>(bytes),
            Err(e) => Err(SaveError::Compression(e)),
        },
{
    match packed {
        Ok(bytes) => Ok(bytes),
        Err(e) => Err(SaveError::Compression(e)),
    }
}

/// The file of a snapshot. There is one where every path is UTF-8, unless
/// memory is too short for packing.
pub fn save_snapshot(snapshot: &Snapshot) -> (r: Result<Vec<u8>, SaveError>)
    ensures
        r matches Ok(bytes) ==> holds_snapshot(bytes@, *snapshot),
        r matches Err(SaveError::PathNotText) <==> !paths_are_text(*snapshot),
{
    match record_of_snapshot(snapshot) {
        Some(record) => {
            let data = bincode_serialize(&record).unwrap();
            pack_outcome(zstd_encode(data.as_slice()))
        },
        None => Err(SaveError::PathNotText),
    }
}

/// The entries of a record as a map. Where a path comes twice the later node
/// counts.
pub open spec fn record_map(entries: Seq<(Seq<char>, NodeRecordView)>) -> Map<
    PathKey,
    (Seq<u8>, NodeRecordView),
>
    decreases entries.len(),
{
    if entries.len() == 0 {
        Map::empty()
    } else {
        let before = record_map(entries.drop_last());
        let text = encode_utf8(entries.last().0);
        let key = components(text);
        before.insert(
            key,
            (
                if before.contains_key(key) {
                    before[key].0
                } else {
                    text
                },
                entries.last().1,
            ),
        )
    }
}

/// The nodes are those of the record. Their access times are zero.
pub open spec fn nodes_match(
    nodes: Map<PathKey, (Seq<u8>, FileNode)>,
    entries: Map<PathKey, (Seq<u8>, NodeRecordView)>,
) -> bool {
    &&& forall|k: PathKey| #[trigger] nodes.contains_key(k) <==> entries.contains_key(k)
    &&& forall|k: PathKey| #[trigger]
        nodes.contains_key(k) ==> nodes[k].0 == entries[k].0 && node_record(nodes[k].1)
            == entries[k].1 && nodes[k].1.atime == 0
}

/// The snapshot is what the record says.
pub open spec fn restored(snapshot: Snapshot, record: SnapshotRecordView) -> bool {
    &&& snapshot.version == record.0
    &&& snapshot.timestamp == record.1
    &&& snapshot.root@ == encode_utf8(record.2)
    &&& in_path_order(snapshot.nodes.items())
    &&& nodes_match(snapshot.nodes@, record_map(record.3))
}

fn node_of_record(record: &NodeRecord) -> (r: FileNode)
    ensures
        node_record(r) == record.deep_view(),
        r.atime == 0,
{
    FileNode {
        hash: record.0,
        size: record.1,
        is_dir: record.2,
        uid: record.3,
        gid: record.4,
        mode: record.5,
        mtime: record.6,
        atime: 0,
        ctime: record.7,
        nlink: record.8,
        xattrs_hash: record.9,
        lsm_context: clone_text(&record.10),
        flags: record.11,
    }
}

/// Turns a record into a snapshot.
pub fn snapshot_of_record(record: &SnapshotRecord) -> (r: Snapshot)
    ensures
        restored(r, record.deep_view()),
{
    let ghost entries = record.3.deep_view();
    let mut nodes: PathMap<FileNode> = PathMap::new();
    let mut i: usize = 0;
    assert(entries.take(0) =~= Seq::empty());
    while i < record.3.len()
        invariant
            i <= record.3@.len(),
            entries == record.3.deep_view(),
            entries.len() == record.3@.len(),
            in_path_order(nodes.items()),
            nodes_match(nodes@, record_map(entries.take(i as int))),
        decreases record.3@.len() - i,
    {
        let entry = &record.3[i];
        proof {
            assert(entries[i as int] == entry.deep_view());
            assert(entries.take(i + 1).drop_last() =~= entries.take(i as int));
            assert(entries.take(i + 1).last() == entry.deep_view());
        }
        let ghost before = nodes@;
        let path = FilePath::from_text(entry.0.as_str());
        let node = node_of_record(&entry.1);
        nodes.insert(path, node);
        i = i + 1;
        proof {
            let now = record_map(entries.take(i as int));
            assert forall|k: PathKey| #[trigger] nodes@.contains_key(k) <==> now.contains_key(k) by {
                assert(before.contains_key(k) <==> record_map(entries.take(i - 1)).contains_key(k));
            }
            assert forall|k: PathKey| #[trigger] nodes@.contains_key(k) implies nodes@[k].0
                == now[k].0 && node_record(nodes@[k].1) == now[k].1 && nodes@[k].1.atime == 0 by {
                assert(k != path.key() ==> before.contains_key(k));
                assert(before.contains_key(path.key()) ==> before[path.key()].0
                    == record_map(entries.take(i - 1))[path.key()].0);
            }
        }
    }
    assert(entries.take(i as int) =~= entries);
    Snapshot {
        version: record.0,
        timestamp: record.1,
        root: FilePath::from_text(record.2.as_str()),
        nodes,
    }
}

/// The outcome of reading a record, where there is one.
pub open spec fn read_outcome(
    record: Option<SnapshotRecordView>,
    r: Result<Snapshot, LoadError>,
) -> bool {
    match record {
        None => r matches Err(LoadError::Format(_)),
        Some(record) => if record.0 > SNAPSHOT_VERSION {
            r matches Err(LoadError::Version(text)) && text@ == newer_version_text(record.0)
        } else {
            r matches Ok(snapshot) && restored(snapshot, record)
        },
    }
}

/// Turns what was read into a snapshot and checks its version.
pub fn accept_record(read: Result<SnapshotRecord, bincode::Error>) -> (r: Result<
    Snapshot,
    LoadError,
>)
    ensures
        match read {
            Ok(record) => read_outcome(Some(record.deep_view()), r),
            Err(e) => r == Err::<Snapshot, LoadError>(LoadError::Format(e)),
        },
{
    match read {
        Ok(record) => {
            let snapshot = snapshot_of_record(&record);
            match snapshot.check_version() {
                Ok(()) => Ok(snapshot),
                Err(text) => Err(LoadError::Version(text)),
            }
        },
        Err(e) => Err(LoadError::Format(e)),
    }
}

/// Reads a snapshot file that lies in memory as a whole. Any damage to the
/// packed data is refused.
pub fn load_snapshot_mmap(bytes: &[u8]) -> (r: Result<Snapshot, LoadError>)
    ensures
        match zstd_decoded(bytes@) {
            None => r matches Err(LoadError::Compression(_)),
            Some(data) => read_outcome(bincode_record(data), r),
        },
{
    match zstd_decode(bytes) {
        Ok(data) => accept_record(bincode_deserialize(data.as_slice())),
        Err(e) => Err(LoadError::Compression(e)),
    }
}

/// Reads a snapshot file from its start, no further than the snapshot needs.
pub fn load_snapshot(bytes: &[u8]) -> (r: Result<Snapshot, LoadError>)
    ensures
        read_outcome(stream_record(bytes@), r),
{
    accept_record(stream_deserialize(bytes))
}

/// The records of entries in path order hold the same map as the entries.
proof fn lemma_record_map(items: Items, i: int)
    requires
        in_path_order(items),
        0 <= i <= items.len(),
        forall|j: int| 0 <= j < items.len() ==> valid_utf8(#[trigger] items[j].0),
    ensures
        ({
            let map = record_map(items.take(i).map_values(|item: (Seq<u8>, FileNode)| item_record(item)));
            let held = items_map(items.take(i));
            &&& forall|k: PathKey| #[trigger] map.contains_key(k) <==> held.contains_key(k)
            &&& forall|k: PathKey| #[trigger]
                map.contains_key(k) ==> map[k] == (held[k].0, node_record(held[k].1))
        }),
    decreases i,
{
    let f = |item: (Seq<u8>, FileNode)| item_record(item);
    let records = items.take(i).map_values(f);
    if i == 0 {
        assert(records =~= Seq::empty());
        assert(items.take(0) =~= Seq::empty());
    } else {
        lemma_record_map(items, i - 1);
        lemma_take_map(items, i - 1);
        let before = items.take(i - 1).map_values(f);
        let item = items[i - 1];
        assert(records.drop_last() =~= before);
        assert(records.last() == item_record(item));
        assert(valid_utf8(items[i - 1].0));
        decode_utf8_encode_utf8(item.0);
        assert(encode_utf8(records.last().0) == item.0);
        let key = item_key(item);
        assert(!record_map(before).contains_key(key)) by {
            assert(record_map(before).contains_key(key) <==> items_map(items.take(i - 1)).contains_key(key));
        }
        let map = record_map(records);
        let held = items_map(items.take(i));
        assert(map == record_map(before).insert(key, (item.0, node_record(item.1))));
        assert forall|k: PathKey| #[trigger] map.contains_key(k) <==> held.contains_key(k) by {
            assert(record_map(before).contains_key(k) <==> items_map(items.take(i - 1)).contains_key(k));
        }
        assert forall|k: PathKey| #[trigger] map.contains_key(k) implies map[k] == (
            held[k].0,
            node_record(held[k].1),
        ) by {
            if k != key {
                assert(record_map(before).contains_key(k));
            }
        }
    }
}

/// A node as it comes back from a file: everything but the access time.
pub open spec fn kept(a: (Seq<u8>, FileNode), b: (Seq<u8>, FileNode)) -> bool {
    a.0 == b.0 && node_record(a.1) == node_record(b.1) && b.1.atime == 0
}

/// The outcome of loading gives a snapshot back, down to the last node; only
/// access times are forgotten. A snapshot of a newer layout is refused.
pub open spec fn gives_back(snapshot: Snapshot, r: Result<Snapshot, LoadError>) -> bool {
    if snapshot.version <= SNAPSHOT_VERSION {
        &&& r matches Ok(loaded)
        &&& loaded.version == snapshot.version
        &&& loaded.timestamp == snapshot.timestamp
        &&& loaded.root@ == snapshot.root@
        &&& loaded.nodes.items().len() == snapshot.nodes.items().len()
        &&& forall|i: int|
            0 <= i < loaded.nodes.items().len() ==> kept(
                snapshot.nodes.items()[i],
                #[trigger] loaded.nodes.items()[i],
            )
    } else {
        r matches Err(LoadError::Version(text)) && text@ == newer_version_text(snapshot.version)
    }
}

proof fn lemma_restored(snapshot: Snapshot, r: Result<Snapshot, LoadError>)
    requires
        in_path_order(snapshot.nodes.items()),
        paths_are_text(snapshot),
        read_outcome(Some(snapshot_record(snapshot)), r),
    ensures
        gives_back(snapshot, r),
{
    if snapshot.version <= SNAPSHOT_VERSION {
        let loaded = r->Ok_0;
        let items = snapshot.nodes.items();
        let back = loaded.nodes.items();
        decode_utf8_encode_utf8(snapshot.root@);
        lemma_record_map(items, items.len() as int);
        assert(items.take(items.len() as int) =~= items);
        lemma_same_texts(items, back);
    }
}

/// What is loaded from the file of a snapshot is that snapshot, unpacked as a
/// whole or read from the start.
pub proof fn law_load_gives_back_what_was_saved(
    snapshot: Snapshot,
    bytes: Seq<u8>,
    whole: Result<Snapshot, LoadError>,
    from_start: Result<Snapshot, LoadError>,
)
    requires
        in_path_order(snapshot.nodes.items()),
        holds_snapshot(bytes, snapshot),
        zstd_decoded(bytes) matches Some(data) ==> read_outcome(bincode_record(data), whole),
        read_outcome(stream_record(bytes), from_start),
    ensures
        gives_back(snapshot, whole),
        gives_back(snapshot, from_start),
{
    assert(bytes + Seq::<u8>::empty() =~= bytes);
    lemma_restored(snapshot, whole);
    lemma_restored(snapshot, from_start);
}

/// Whatever follows the file of a snapshot, what is read from the start is that
/// snapshot.
pub proof fn law_what_follows_does_no_harm(
    snapshot: Snapshot,
    file: Seq<u8>,
    rest: Seq<u8>,
    r: Result<Snapshot, LoadError>,
)
    requires
        in_path_order(snapshot.nodes.items()),
        holds_snapshot(file, snapshot),
        read_outcome(stream_record(file + rest), r),
    ensures
        gives_back(snapshot, r),
{
    lemma_restored(snapshot, r);
}

/// Two lists in path order whose maps hold the same texts have them at the
/// same places.
proof fn lemma_same_texts(a: Items, b: Items)
    requires
        in_path_order(a),
        in_path_order(b),
        forall|k: PathKey| #[trigger] items_map(b).contains_key(k) <==> items_map(a).contains_key(k),
        forall|k: PathKey| #[trigger]
            items_map(b).contains_key(k) ==> kept(items_map(a)[k], items_map(b)[k]),
    ensures
        a.len() == b.len(),
        forall|i: int| 0 <= i < b.len() ==> kept(a[i], #[trigger] b[i]),
{
    let f = |item: (Seq<u8>, FileNode)| (item.0, ());
    let at = a.map_values(f);
    let bt = b.map_values(f);
    assert(in_path_order(at)) by {
        assert forall|i: int, j: int| 0 <= i < j < at.len() implies key_lt(
            #[trigger] item_key(at[i]),
            #[trigger] item_key(at[j]),
        ) by {
            assert(key_lt(item_key(a[i]), item_key(a[j])));
        }
    }
    assert(in_path_order(bt)) by {
        assert forall|i: int, j: int| 0 <= i < j < bt.len() implies key_lt(
            #[trigger] item_key(bt[i]),
            #[trigger] item_key(bt[j]),
        ) by {
            assert(key_lt(item_key(b[i]), item_key(b[j])));
        }
    }
    assert forall|item: (Seq<u8>, ())| #[trigger] at.contains(item) <==> bt.contains(item) by {
        if at.contains(item) {
            let i = choose|i: int| 0 <= i < at.len() && at[i] == item;
            lemma_key_index(a, i);
            let k = item_key(a[i]);
            assert(items_map(b).contains_key(k));
            let j = key_index(b, k);
            lemma_key_index(b, j);
            assert(bt[j] == item);
        }
        if bt.contains(item) {
            let i = choose|i: int| 0 <= i < bt.len() && bt[i] == item;
            lemma_key_index(b, i);
            let k = item_key(b[i]);
            assert(items_map(a).contains_key(k));
            let j = key_index(a, k);
            lemma_key_index(a, j);
            assert(at[j] == item);
        }
    }
    lemma_same_items(at, bt);
    assert(at.len() == a.len());
    assert forall|i: int| 0 <= i < b.len() implies kept(a[i], #[trigger] b[i]) by {
        assert(at[i] == bt[i]);
        lemma_key_index(a, i);
        lemma_key_index(b, i);
        assert(items_map(b).contains_key(item_key(b[i])));
    }
}

/// What is loaded from the file of a snapshot has every field of every node but
/// the access time as it was.
pub proof fn law_every_field_comes_back(
    snapshot: Snapshot,
    bytes: Seq<u8>,
    whole: Result<Snapshot, LoadError>,
    from_start: Result<Snapshot, LoadError>,
    i: int,
)
    requires
        in_path_order(snapshot.nodes.items()),
        snapshot.version <= 1,
        holds_snapshot(bytes, snapshot),
        zstd_decoded(bytes) matches Some(data) ==> read_outcome(bincode_record(data), whole),
        read_outcome(stream_record(bytes), from_start),
        0 <= i < snapshot.nodes.items().len(),
    ensures
        whole is Ok,
        from_start is Ok,
        ({
            let old_item = snapshot.nodes.items()[i];
            let x = old_item.1;
            let a = whole->Ok_0.nodes.items()[i];
            let b = from_start->Ok_0.nodes.items()[i];
            &&& a.0 == old_item.0
            &&& b.0 == old_item.0
            &&& a.1.hash == x.hash && b.1.hash == x.hash
            &&& a.1.size == x.size && b.1.size == x.size
            &&& a.1.is_dir == x.is_dir && b.1.is_dir == x.is_dir
            &&& a.1.uid == x.uid && b.1.uid == x.uid
            &&& a.1.gid == x.gid && b.1.gid == x.gid
            &&& a.1.mode == x.mode && b.1.mode == x.mode
            &&& a.1.mtime == x.mtime && b.1.mtime == x.mtime
            &&& a.1.ctime == x.ctime && b.1.ctime == x.ctime
            &&& a.1.nlink == x.nlink && b.1.nlink == x.nlink
            &&& a.1.xattrs_hash == x.xattrs_hash && b.1.xattrs_hash == x.xattrs_hash
            &&& a.1.flags == x.flags && b.1.flags == x.flags
            &&& a.1.lsm_context is Some <==> x.lsm_context is Some
            &&& b.1.lsm_context is Some <==> x.lsm_context is Some
            &&& x.lsm_context is Some ==> a.1.lsm_context->0@ == x.lsm_context->0@
                && b.1.lsm_context->0@ == x.lsm_context->0@
            &&& a.1.atime == 0 && b.1.atime == 0
        }),
{
    law_load_gives_back_what_was_saved(snapshot, bytes, whole, from_start);
    assert(kept(snapshot.nodes.items()[i], whole->Ok_0.nodes.items()[i]));
    assert(kept(snapshot.nodes.items()[i], from_start->Ok_0.nodes.items()[i]));
}

/// A file of any layout but a newer one is accepted, and one of a newer layout
/// is refused.
pub proof fn law_only_newer_layouts_are_refused(
    record: SnapshotRecordView,
    r: Result<Snapshot, LoadError>,
)
    requires
        read_outcome(Some(record), r),
    ensures
        r is Ok <==> record.0 <= 1,
        r is Err <==> r matches Err(LoadError::Version(_)),
{
}

/// Where a record names a path twice, the first text and the last node count;
/// every other path keeps its own.
pub proof fn law_last_node_of_a_path_counts(
    entries: Seq<(Seq<char>, NodeRecordView)>,
    entry: (Seq<char>, NodeRecordView),
    k: PathKey,
)
    ensures
        ({
            let before = record_map(entries);
            let after = record_map(entries.push(entry));
            let named = components(encode_utf8(entry.0)) == k;
            &&& named ==> after.contains_key(k) && after[k].1 == entry.1
            &&& named && before.contains_key(k) ==> after[k].0 == before[k].0
            &&& named && !before.contains_key(k) ==> after[k].0 == encode_utf8(entry.0)
            &&& !named ==> (after.contains_key(k) <==> before.contains_key(k))
            &&& !named && before.contains_key(k) ==> after[k] == before[k]
        }),
        record_map(Seq::empty()).dom().is_empty(),
{
    assert(entries.push(entry).drop_last() =~= entries);
}

} // verus!
