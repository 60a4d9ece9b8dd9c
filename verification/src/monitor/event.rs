//! Events about files.
use vstd::prelude::*;
use vstd::utf8::encode_utf8;
use crate::monitor::Monitor;
use crate::path::{joined_text, FilePath};
use crate::text::{from_utf8_lossy, lossy_utf8, text_bytes};

verus! {

/// Something that happened to a file.
#[derive(Debug)]
pub enum FileEvent {
    Created(FilePath),
    Modified(FilePath),
    Removed(FilePath),
}

/// What a watcher reports about a path.
#[derive(Debug, Clone, Copy, PartialEq, Eq, Structural)]
pub enum Change {
    Created,
    Modified,
    Removed,
    Other,
}

/// What happened, and the text of the path.
pub open spec fn event_view(event: FileEvent) -> (Change, Seq<u8>) {
    match event {
        FileEvent::Created(path) => (Change::Created, path@),
        FileEvent::Modified(path) => (Change::Modified, path@),
        FileEvent::Removed(path) => (Change::Removed, path@),
    }
}

impl Clone for FileEvent {
    fn clone(&self) -> (r: FileEvent)
        ensures
            event_view(r) == event_view(*self),
    {
        match self {
            FileEvent::Created(path) => FileEvent::Created(path.clone()),
            FileEvent::Modified(path) => FileEvent::Modified(path.clone()),
            FileEvent::Removed(path) => FileEvent::Removed(path.clone()),
        }
    }
}

/// A change that counts as an event: a removal in any case, since nothing is
/// left to look at, and any other where the path is a file.
pub open spec fn counts(change: Change, is_file: bool) -> bool {
    match change {
        Change::Removed => true,
        Change::Created => is_file,
        Change::Modified => is_file,
        Change::Other => false,
    }
}

/// The event for a change of a path.
pub fn file_event(change: Change, path: FilePath, is_file: bool) -> (r: Option<FileEvent>)
    ensures
        r is Some <==> counts(change, is_file),
        r matches Some(event) ==> event_view(event) == (change, path@),
{
    match change {
        Change::Removed => Some(FileEvent::Removed(path)),
        Change::Created => if is_file {
            Some(FileEvent::Created(path))
        } else {
            None
        },
        Change::Modified => if is_file {
            Some(FileEvent::Modified(path))
        } else {
            None
        },
        Change::Other => None,
    }
}

/// The kernel's mask bits for events.
pub const IN_MODIFY: u32 = 0x2;

pub const IN_ATTRIB: u32 = 0x4;

pub const IN_CREATE: u32 = 0x100;

pub const IN_DELETE: u32 = 0x200;

pub const IN_DELETE_SELF: u32 = 0x400;

/// What an event mask says: a removal before a creation before a modification.
pub open spec fn mask_change(mask: u32) -> Change {
    if mask & IN_DELETE != 0 || mask & IN_DELETE_SELF != 0 {
        Change::Removed
    } else if mask & IN_CREATE != 0 {
        Change::Created
    } else if mask & IN_MODIFY != 0 || mask & IN_ATTRIB != 0 {
        Change::Modified
    } else {
        Change::Other
    }
}

/// Reads an event mask.
pub fn change_of_mask(mask: u32) -> (r: Change)
    ensures
        r == mask_change(mask),
{
    if mask & IN_DELETE != 0 || mask & IN_DELETE_SELF != 0 {
        Change::Removed
    } else if mask & IN_CREATE != 0 {
        Change::Created
    } else if mask & IN_MODIFY != 0 || mask & IN_ATTRIB != 0 {
        Change::Modified
    } else {
        Change::Other
    }
}

/// An event as the kernel reports it: the watch it belongs to, its mask, the
/// name of the entry in the watched directory, and whether a file stands there
/// now.
#[derive(Debug)]
pub struct RawEvent {
    pub watch: i32,
    pub mask: u32,
    pub name: Option<Vec<u8>>,
    pub is_file: bool,
}

/// The path of an event: the entry in the watched directory, or the directory
/// itself where no entry is named.
pub open spec fn event_text(dir: Seq<u8>, name: Option<Vec<u8>>) -> Seq<u8> {
    match name {
        Some(name) => joined_text(dir, encode_utf8(lossy_utf8(name@))),
        None => dir,
    }
}

impl Monitor {
    /// The path that an event is about, where its watch is known.
    pub fn event_path(&self, watch: i32, name: &Option<Vec<u8>>) -> (r: Option<FilePath>)
        ensures
            r is Some <==> self.watch_dirs().contains_key(watch),
            r matches Some(path) ==> path@ == event_text(self.watch_dirs()[watch]@, *name),
    {
        broadcast use vstd::std_specs::hash::group_hash_axioms;

        match self.watch_map.get(&watch) {
            Some(dir) => match name {
                Some(name) => {
                    let text = from_utf8_lossy(name.as_slice());
                    Some(dir.join(text_bytes(text.as_str()).as_slice()))
                },
                None => Some(dir.clone()),
            },
            None => None,
        }
    }

    /// The events that count, as they came.
    pub open spec fn events_of(&self, raw: Seq<RawEvent>) -> Seq<(Change, Seq<u8>)>
        decreases raw.len(),
    {
        if raw.len() == 0 {
            Seq::empty()
        } else {
            let before = self.events_of(raw.drop_last());
            let event = raw.last();
            if self.watch_dirs().contains_key(event.watch) && counts(
                mask_change(event.mask),
                event.is_file,
            ) {
                before.push(
                    (
                        mask_change(event.mask),
                        event_text(self.watch_dirs()[event.watch]@, event.name),
                    ),
                )
            } else {
                before
            }
        }
    }

    /// Turns the kernel's events into events about files.
    pub fn process_events(&self, raw: &Vec<RawEvent>) -> (r: Vec<FileEvent>)
        ensures
            r@.map_values(|e: FileEvent| event_view(e)) == self.events_of(raw@),
    {
        let ghost view = |e: FileEvent| event_view(e);
        let mut events: Vec<FileEvent> = Vec::new();
        let mut i: usize = 0;
        assert(raw@.take(0) =~= Seq::empty());
        assert(events@.map_values(view) =~= Seq::empty());
        while i < raw.len()
            invariant
                i <= raw@.len(),
                view == (|e: FileEvent| event_view(e)),
                events@.map_values(view) == self.events_of(raw@.take(i as int)),
            decreases raw@.len() - i,
        {
            let event = &raw[i];
            let ghost before = events@;
            proof {
                assert(raw@.take(i + 1).drop_last() =~= raw@.take(i as int));
                assert(raw@.take(i + 1).last() == *event);
            }
            if let Some(path) = self.event_path(event.watch, &event.name) {
                if let Some(seen) = file_event(change_of_mask(event.mask), path, event.is_file) {
                    events.push(seen);
                    assert(events@.map_values(view) =~= before.map_values(view).push(
                        event_view(seen),
                    ));
                }
            }
            i = i + 1;
        }
        assert(raw@.take(i as int) =~= raw@);
        events
    }
}

} // verus!
