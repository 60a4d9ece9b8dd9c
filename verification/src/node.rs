//! What a snapshot holds about one file or directory.
use vstd::prelude::*;
use vstd::bytes::{spec_u64_to_le_bytes, u64_to_le_bytes};
use vstd::utf8::encode_utf8;
use crate::digest::{xxh3_64, FileHasher};
use crate::path::FilePath;
use crate::text::{lossy_utf8, text_bytes};

verus! {

/// A file or directory as a snapshot remembers it.
#[derive(Debug, PartialEq)]
pub struct FileNode {
    pub hash: u64,
    pub size: u64,
    pub is_dir: bool,
    pub uid: u32,
    pub gid: u32,
    pub mode: u32,
    pub mtime: i64,
    /// Not kept in snapshot files.
    pub atime: i64,
    pub ctime: i64,
    pub nlink: u16,
    pub xattrs_hash: u64,
    /// SELinux or AppArmor context.
    pub lsm_context: Option<String>,
    /// File attributes, as `chattr` sets them.
    pub flags: u32,
}

/// A copy of an optional text.
pub(crate) fn clone_text(text: &Option<String>) -> (r: Option<String>)
    ensures
        r == *text,
{
    match text {
        Some(s) => Some(s.clone()),
        None => None,
    }
}

/// The text of a security context.
pub open spec fn context_view(context: Option<String>) -> Option<Seq<char>> {
    match context {
        Some(text) => Some(text@),
        None => None,
    }
}

/// Whether two security contexts are the same.
pub(crate) fn same_context(a: &Option<String>, b: &Option<String>) -> (r: bool)
    ensures
        r == (context_view(*a) == context_view(*b)),
{
    match (a, b) {
        (Some(x), Some(y)) => *x == *y,
        (None, None) => true,
        _ => false,
    }
}

impl Clone for FileNode {
    fn clone(&self) -> (r: FileNode)
        ensures
            r == *self,
    {
        FileNode {
            hash: self.hash,
            size: self.size,
            is_dir: self.is_dir,
            uid: self.uid,
            gid: self.gid,
            mode: self.mode,
            mtime: self.mtime,
            atime: self.atime,
            ctime: self.ctime,
            nlink: self.nlink,
            xattrs_hash: self.xattrs_hash,
            lsm_context: clone_text(&self.lsm_context),
            flags: self.flags,
        }
    }
}

/// What the file system tells about an entry.
#[derive(Debug, Clone, Copy, PartialEq, Eq)]
pub struct Stat {
    pub len: u64,
    pub uid: u32,
    pub gid: u32,
    pub mode: u32,
    pub mtime: i64,
    pub atime: i64,
    pub ctime: i64,
    pub nlink: u64,
}

/// What is read about an entry besides its metadata.
#[derive(Debug, PartialEq)]
pub struct Extras {
    pub xattrs_hash: u64,
    pub lsm_context: Option<String>,
    pub flags: u32,
}

impl Clone for Extras {
    fn clone(&self) -> (r: Extras)
        ensures
            r == *self,
    {
        Extras {
            xattrs_hash: self.xattrs_hash,
            lsm_context: clone_text(&self.lsm_context),
            flags: self.flags,
        }
    }
}

/// What is known about a directory besides its entries. The metadata may be
/// out of reach.
#[derive(Debug, PartialEq)]
pub struct DirInfo {
    pub stat: Option<Stat>,
    pub extras: Extras,
}

/// A directory of which nothing can be read.
pub open spec fn unknown_dir() -> DirInfo {
    DirInfo {
        stat: None,
        extras: Extras {
            xattrs_hash: xxh3_64(Seq::<u8>::empty()),
            lsm_context: None,
            flags: 0,
        },
    }
}

impl DirInfo {
    /// A directory of which nothing can be read.
    pub fn unknown() -> (r: DirInfo)
        ensures
            r == unknown_dir(),
    {
        DirInfo {
            stat: None,
            extras: Extras {
                xattrs_hash: FileHasher::new().digest(),
                lsm_context: None,
                flags: 0,
            },
        }
    }
}

impl Clone for DirInfo {
    fn clone(&self) -> (r: DirInfo)
        ensures
            r == *self,
    {
        DirInfo { stat: self.stat, extras: self.extras.clone() }
    }
}

/// The link count as a snapshot holds it: at most the largest `u16`.
pub open spec fn held_nlink(nlink: u64) -> u16 {
    if nlink <= u16::MAX {
        nlink as u16
    } else {
        u16::MAX
    }
}

pub(crate) fn clamp_nlink(nlink: u64) -> (r: u16)
    ensures
        r == held_nlink(nlink),
{
    if nlink <= u16::MAX as u64 {
        nlink as u16
    } else {
        u16::MAX
    }
}

/// The node of a file.
pub open spec fn file_node_of(hash: u64, stat: Stat, extras: Extras) -> FileNode {
    FileNode {
        hash,
        size: stat.len,
        is_dir: false,
        uid: stat.uid,
        gid: stat.gid,
        mode: stat.mode,
        mtime: stat.mtime,
        atime: stat.atime,
        ctime: stat.ctime,
        nlink: held_nlink(stat.nlink),
        xattrs_hash: extras.xattrs_hash,
        lsm_context: extras.lsm_context,
        flags: extras.flags,
    }
}

/// The node of a directory: zeros where its metadata is out of reach.
pub open spec fn dir_node_of(hash: u64, size: u64, info: DirInfo) -> FileNode {
    FileNode {
        hash,
        size,
        is_dir: true,
        uid: if info.stat is Some { info.stat->0.uid } else { 0 },
        gid: if info.stat is Some { info.stat->0.gid } else { 0 },
        mode: if info.stat is Some { info.stat->0.mode } else { 0 },
        mtime: if info.stat is Some { info.stat->0.mtime } else { 0 },
        atime: if info.stat is Some { info.stat->0.atime } else { 0 },
        ctime: if info.stat is Some { info.stat->0.ctime } else { 0 },
        nlink: if info.stat is Some { held_nlink(info.stat->0.nlink) } else { 0 },
        xattrs_hash: info.extras.xattrs_hash,
        lsm_context: info.extras.lsm_context,
        flags: info.extras.flags,
    }
}

impl FileNode {
    /// The node of a file with this checksum and metadata.
    pub fn of_file(hash: u64, stat: &Stat, extras: Extras) -> (r: FileNode)
        ensures
            r == file_node_of(hash, *stat, extras),
    {
        FileNode {
            hash,
            size: stat.len,
            is_dir: false,
            uid: stat.uid,
            gid: stat.gid,
            mode: stat.mode,
            mtime: stat.mtime,
            atime: stat.atime,
            ctime: stat.ctime,
            nlink: clamp_nlink(stat.nlink),
            xattrs_hash: extras.xattrs_hash,
            lsm_context: extras.lsm_context,
            flags: extras.flags,
        }
    }

    /// The node of a directory.
    pub fn of_dir(hash: u64, size: u64, info: DirInfo) -> (r: FileNode)
        ensures
            r == dir_node_of(hash, size, info),
    {
        let stat = match info.stat {
            Some(stat) => stat,
            None => Stat {
                len: 0,
                uid: 0,
                gid: 0,
                mode: 0,
                mtime: 0,
                atime: 0,
                ctime: 0,
                nlink: 0,
            },
        };
        FileNode {
            hash,
            size,
            is_dir: true,
            uid: stat.uid,
            gid: stat.gid,
            mode: stat.mode,
            mtime: stat.mtime,
            atime: stat.atime,
            ctime: stat.ctime,
            nlink: clamp_nlink(stat.nlink),
            xattrs_hash: info.extras.xattrs_hash,
            lsm_context: info.extras.lsm_context,
            flags: info.extras.flags,
        }
    }
}

/// Entries of a directory: path texts and nodes.
pub type Items = Seq<(Seq<u8>, FileNode)>;

/// Borrowed entries as items.
pub open spec fn borrowed_items(entries: Seq<(&FilePath, &FileNode)>) -> Items {
    entries.map_values(|e: (&FilePath, &FileNode)| (e.0@, *e.1))
}

/// What goes into the checksum for one entry: its own checksum, low byte
/// first, and the text of its path.
pub open spec fn entry_bytes(item: (Seq<u8>, FileNode)) -> Seq<u8> {
    spec_u64_to_le_bytes(item.1.hash) + encode_utf8(lossy_utf8(item.0))
}

/// What goes into the checksum of a directory: its entries one after the
/// other.
pub open spec fn listing_bytes(items: Items) -> Seq<u8>
    decreases items.len(),
{
    if items.len() == 0 {
        Seq::empty()
    } else {
        listing_bytes(items.drop_last()) + entry_bytes(items.last())
    }
}

/// The checksum of a directory with these entries.
pub fn hash_directory(entries: &Vec<(&FilePath, &FileNode)>) -> (r: u64)
    ensures
        r == xxh3_64(listing_bytes(borrowed_items(entries@))),
{
    let ghost items = borrowed_items(entries@);
    let mut hasher = FileHasher::new();
    let mut i: usize = 0;
    assert(items.take(0) =~= Seq::empty());
    while i < entries.len()
        invariant
            i <= entries@.len(),
            items == borrowed_items(entries@),
            hasher@ == listing_bytes(items.take(i as int)),
        decreases entries@.len() - i,
    {
        let path = entries[i].0;
        let node = entries[i].1;
        let ghost before = hasher@;
        hasher.update(u64_to_le_bytes(node.hash).as_slice());
        hasher.update(text_bytes(path.to_string_lossy().as_str()).as_slice());
        proof {
            assert(items[i as int] == (path@, *node));
            assert(items.take(i + 1).drop_last() =~= items.take(i as int));
            assert(hasher@ =~= before + entry_bytes(items[i as int]));
        }
        i = i + 1;
    }
    assert(items.take(i as int) =~= items);
    hasher.digest()
}

/// The sizes of the entries added up.
pub open spec fn total_size(items: Items) -> nat
    decreases items.len(),
{
    if items.len() == 0 {
        0
    } else {
        total_size(items.drop_last()) + items.last().1.size as nat
    }
}

/// The sizes added up, as far as 64 bits hold the sum.
pub open spec fn held_size(items: Items) -> u64 {
    (total_size(items) % 0x1_0000_0000_0000_0000) as u64
}

pub(crate) fn sum_sizes(entries: &Vec<(&FilePath, &FileNode)>) -> (r: u64)
    ensures
        r == held_size(borrowed_items(entries@)),
{
    let ghost items = borrowed_items(entries@);
    let mut sum: u64 = 0;
    let mut i: usize = 0;
    assert(items.take(0) =~= Seq::empty());
    while i < entries.len()
        invariant
            i <= entries@.len(),
            items == borrowed_items(entries@),
            sum == held_size(items.take(i as int)),
        decreases entries@.len() - i,
    {
        proof {
            assert(items[i as int].1 == *entries@[i as int].1);
            assert(items.take(i + 1).drop_last() =~= items.take(i as int));
        }
        sum = sum.wrapping_add(entries[i].1.size);
        i = i + 1;
    }
    assert(items.take(i as int) =~= items);
    sum
}

} // verus!
