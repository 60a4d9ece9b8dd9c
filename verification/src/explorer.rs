//! The state of the interactive view, and what keys do to it.
use vstd::prelude::*;
use vstd::utf8::encode_utf8;
use crate::browse::{diff_views, is_view, list_view, monitor_times, nav_entries, Sources};
use crate::bubble::{lemma_names_above, text_for};
use crate::diff::DiffNode;
use crate::monitor::Monitor;
use crate::path::{components, has_parent, is_child, key_within, FilePath, PathKey};
use crate::path_map::{items_map, PathMap};
use crate::snapshot::{same_snapshot, LogEntry, Snapshot};
use crate::text::{chars_text, lossy_utf8, text_chars, trim_range, trimmed};

verus! {

/// The state of the interactive view.
#[derive(Debug)]
pub struct App {
    pub old_snapshot: Snapshot,
    pub new_snapshot: Snapshot,
    pub current_dir: FilePath,
    pub selected: usize,
    pub show_unchanged: bool,
    pub live_mode: bool,
    /// Seconds for which a change counts as recent; zero for ever.
    pub time_window: i64,
    /// The topmost directory that can be looked at.
    pub navigation_root: FilePath,
    pub show_hash_popup: bool,
    pub show_log: bool,
    pub log_selected: usize,
    /// Checksums that were asked for.
    pub sha256_cache: PathMap<String>,
    pub show_save_popup: bool,
    pub save_filename: String,
}

/// The time windows, each leading to the next.
pub open spec fn next_window(window: i64) -> i64 {
    if window == 10 {
        30
    } else if window == 30 {
        60
    } else if window == 60 {
        300
    } else if window == 300 {
        0
    } else {
        10
    }
}

/// What the view of the current directory is made from.
pub open spec fn app_sources(app: App, monitor: Option<&Monitor>) -> Sources {
    Sources {
        current: match monitor {
            Some(m) => items_map(m.nodes()),
            None => app.new_snapshot.nodes@,
        },
        older: app.old_snapshot.nodes@,
        times: monitor_times(monitor),
    }
}

/// The current directory is the topmost one or lies below it.
pub open spec fn inside(app: App) -> bool {
    key_within(app.current_dir.key(), app.navigation_root.key())
}

/// The state after going to another directory.
pub open spec fn moved(before: App, text: Seq<u8>, after: App) -> bool {
    &&& after.current_dir@ == text
    &&& after == App { current_dir: after.current_dir, selected: 0, ..before }
}

/// The state after going into what is selected: nothing changes where that is
/// no directory.
pub open spec fn went_into(before: App, items: Seq<DiffNode>, after: App) -> bool {
    if before.selected < items.len() && items[before.selected as int].is_dir {
        moved(before, items[before.selected as int].path@, after)
    } else {
        after == before
    }
}

/// The state after going up: nothing changes at the topmost directory, or where
/// nothing stands above.
pub open spec fn went_up(before: App, after: App) -> bool {
    let dir = before.current_dir.key();
    if dir != before.navigation_root.key() && has_parent(dir) {
        &&& moved(before, text_for(before.current_dir@, dir.drop_last()), after)
        &&& after.current_dir.key() == dir.drop_last()
    } else {
        after == before
    }
}

/// The selected entry, where it is not a directory.
pub open spec fn hash_path(app: App, items: Seq<DiffNode>) -> Option<Seq<u8>> {
    if app.selected < items.len() && !items[app.selected as int].is_dir {
        Some(items[app.selected as int].path@)
    } else {
        None
    }
}

/// The text of a checksum that was asked for.
pub open spec fn hash_text(outcome: Result<String, String>) -> Seq<char> {
    match outcome {
        Ok(hash) => hash@,
        Err(error) => "Error: "@ + error@,
    }
}

/// What is logged about a checksum that was asked for.
pub open spec fn hash_message(path: Seq<u8>, outcome: Result<String, String>) -> Seq<char> {
    match outcome {
        Ok(hash) => "SHA-256 computed: "@ + lossy_utf8(path) + " = "@ + hash@,
        Err(error) => "SHA-256 error for "@ + lossy_utf8(path) + ": "@ + error@,
    }
}

/// The view as it starts.
pub open spec fn is_start(
    old_snapshot: Snapshot,
    new_snapshot: Snapshot,
    live_mode: bool,
    navigation_root: FilePath,
    app: App,
) -> bool {
    &&& app.old_snapshot == old_snapshot
    &&& app.new_snapshot == new_snapshot
    &&& app.current_dir@ == old_snapshot.root@
    &&& app.selected == 0
    &&& app.show_unchanged
    &&& app.live_mode == live_mode
    &&& app.time_window == 30
    &&& app.navigation_root == navigation_root
    &&& !app.show_hash_popup
    &&& !app.show_log
    &&& !app.show_save_popup
}

impl App {
    /// The view at the start: all of the older snapshot's root.
    pub fn new(
        old_snapshot: Snapshot,
        new_snapshot: Snapshot,
        live_mode: bool,
        navigation_root: FilePath,
    ) -> (r: App)
        ensures
            r.old_snapshot == old_snapshot,
            r.new_snapshot == new_snapshot,
            r.current_dir@ == old_snapshot.root@,
            r.selected == 0,
            r.show_unchanged,
            r.live_mode == live_mode,
            r.time_window == 30,
            r.navigation_root == navigation_root,
            !r.show_hash_popup,
            !r.show_log,
            r.log_selected == 0,
            r.sha256_cache@ == Map::<PathKey, (Seq<u8>, String)>::empty(),
            !r.show_save_popup,
            r.save_filename@ == Seq::<char>::empty(),
            is_start(old_snapshot, new_snapshot, live_mode, navigation_root, r),
    {
        let current_dir = old_snapshot.root.clone();
        App {
            old_snapshot,
            new_snapshot,
            current_dir,
            selected: 0,
            show_unchanged: true,
            live_mode,
            time_window: 30,
            navigation_root,
            show_hash_popup: false,
            show_log: false,
            log_selected: 0,
            sha256_cache: PathMap::new(),
            show_save_popup: false,
            save_filename: String::new(),
        }
    }

    /// Goes on to the next time window.
    pub fn cycle_time_window(&mut self)
        ensures
            *final(self) == (App { time_window: next_window(old(self).time_window), ..*old(self) }),
    {
        self.time_window = match self.time_window {
            10 => 30,
            30 => 60,
            60 => 300,
            300 => 0,
            _ => 10,
        };
    }

    /// Takes over the snapshot that the monitor has come to.
    pub fn refresh_full_snapshot(&mut self, monitor: &Monitor)
        ensures
            same_snapshot(final(self).new_snapshot, monitor.snapshot()),
            *final(self) == (App { new_snapshot: final(self).new_snapshot, ..*old(self) }),
    {
        self.new_snapshot = monitor.get_snapshot();
    }

    /// The view of the current directory.
    pub fn get_filtered_items(&self, monitor: Option<&Monitor>) -> (r: Vec<DiffNode>)
        ensures
            is_view(
                diff_views(r@),
                app_sources(*self, monitor),
                self.current_dir@,
                self.navigation_root.key(),
                self.show_unchanged,
            ),
    {
        let ghost s = app_sources(*self, monitor);
        match monitor {
            Some(m) => {
                let (_, nodes) = m.get_directory_snapshot(&self.current_dir);
                list_view(
                    &nodes,
                    &self.old_snapshot.nodes,
                    monitor,
                    &self.current_dir,
                    &self.navigation_root,
                    self.show_unchanged,
                    Ghost(s),
                )
            },
            None => list_view(
                &self.new_snapshot.nodes,
                &self.old_snapshot.nodes,
                monitor,
                &self.current_dir,
                &self.navigation_root,
                self.show_unchanged,
                Ghost(s),
            ),
        }
    }

    /// Goes into the selected directory.
    pub fn navigate_into(&mut self, items: &Vec<DiffNode>)
        ensures
            went_into(*old(self), items@, *final(self)),
    {
        if self.selected < items.len() {
            let item = &items[self.selected];
            if item.is_dir {
                self.current_dir = item.path.clone();
                self.selected = 0;
            }
        }
    }

    /// Goes up one directory.
    pub fn navigate_up(&mut self)
        ensures
            went_up(*old(self), *final(self)),
    {
        if !self.current_dir.same(&self.navigation_root) {
            if let Some(parent) = self.current_dir.parent() {
                proof {
                    lemma_names_above(self.current_dir@, parent@, parent.key());
                }
                self.current_dir = parent;
                self.selected = 0;
            }
        }
    }

    /// The file whose checksum is asked for.
    pub fn hash_target(&self, items: &Vec<DiffNode>) -> (r: Option<FilePath>)
        ensures
            r is Some <==> hash_path(*self, items@) is Some,
            r matches Some(path) ==> path@ == hash_path(*self, items@)->0,
    {
        if self.selected < items.len() {
            let item = &items[self.selected];
            if !item.is_dir {
                return Some(item.path.clone());
            }
        }
        None
    }

    /// What is logged before a checksum is computed.
    pub fn hash_start_message(path: &FilePath) -> (r: String)
        ensures
            r@ == "Computing SHA-256 for: "@ + lossy_utf8(path@),
    {
        let mut r = String::new();
        r.append("Computing SHA-256 for: ");
        r.append(path.to_string_lossy().as_str());
        assert(r@ =~= "Computing SHA-256 for: "@ + lossy_utf8(path@));
        r
    }

    /// Takes in a checksum, or why there is none, and shows it. Gives back what
    /// is to be logged.
    pub fn record_hash(&mut self, path: FilePath, outcome: Result<String, String>) -> (r: String)
        ensures
            r@ == hash_message(path@, outcome),
            final(self).sha256_cache@.dom() == old(self).sha256_cache@.dom().insert(path.key()),
            final(self).sha256_cache@[path.key()].1@ == hash_text(outcome),
            forall|k: PathKey|
                k != path.key() ==> #[trigger] final(self).sha256_cache@[k] == old(
                    self,
                ).sha256_cache@[k],
            *final(self) == (App {
                sha256_cache: final(self).sha256_cache,
                show_hash_popup: true,
                ..*old(self)
            }),
    {
        let mut message = String::new();
        let mut text = String::new();
        match &outcome {
            Ok(hash) => {
                message.append("SHA-256 computed: ");
                message.append(path.to_string_lossy().as_str());
                message.append(" = ");
                message.append(hash.as_str());
                text.append(hash.as_str());
            },
            Err(error) => {
                message.append("SHA-256 error for ");
                message.append(path.to_string_lossy().as_str());
                message.append(": ");
                message.append(error.as_str());
                text.append("Error: ");
                text.append(error.as_str());
            },
        }
        proof {
            assert(message@ =~= hash_message(path@, outcome));
            assert(text@ =~= hash_text(outcome));
        }
        self.sha256_cache.insert(path, text);
        self.show_hash_popup = true;
        assert(self.sha256_cache@.dom() =~= old(self).sha256_cache@.dom().insert(path.key()));
        message
    }

    /// Asks for the name of a file to save to, with a name to start from.
    pub fn open_save_popup(&mut self, filename: String)
        ensures
            *final(self) == (App { save_filename: filename, show_save_popup: true, ..*old(self) }),
    {
        self.save_filename = filename;
        self.show_save_popup = true;
    }
}

/// A key.
#[derive(Debug, Clone, Copy, PartialEq, Eq, Structural)]
pub enum Key {
    Char(char),
    Enter,
    Esc,
    Backspace,
    Up,
    Down,
    Left,
    Right,
    PageUp,
    PageDown,
    Other,
}

/// A key that was pressed, and whether the control key was held.
#[derive(Debug, Clone, Copy, PartialEq, Eq, Structural)]
pub struct KeyPress {
    pub key: Key,
    pub control: bool,
}

/// What is to be done about a key outside of the view.
#[derive(Debug)]
pub enum Action {
    Stay,
    Quit,
    /// Save the snapshot to the file.
    Save(String),
    /// Ask for a file to save to.
    AskFilename,
    /// Compute the checksum of the file.
    Hash(FilePath),
}

/// One step down, or several, but not past the last of `total`.
pub open spec fn stepped_down(at: usize, step: usize, total: usize) -> usize {
    let last = if total == 0 {
        0
    } else {
        total - 1
    };
    if at + step < last {
        (at + step) as usize
    } else {
        last as usize
    }
}

/// One step up, or several, but not past the first.
pub open spec fn stepped_up(at: usize, step: usize) -> usize {
    if at < step {
        0
    } else {
        (at - step) as usize
    }
}

fn step_down(at: usize, step: usize, total: usize) -> (r: usize)
    ensures
        r == stepped_down(at, step, total),
{
    let last: usize = if total == 0 {
        0
    } else {
        total - 1
    };
    if at < last && step < last - at {
        at + step
    } else {
        last
    }
}

fn step_up(at: usize, step: usize) -> (r: usize)
    ensures
        r == stepped_up(at, step),
{
    if at < step {
        0
    } else {
        at - step
    }
}

/// The keys that end the program.
pub open spec fn is_quit(key: KeyPress) -> bool {
    key.key == Key::Char('q') || (key.key == Key::Char('c') && key.control)
}

fn quits(key: KeyPress) -> (r: bool)
    ensures
        r == is_quit(key),
{
    key.key == Key::Char('q') || (key.key == Key::Char('c') && key.control)
}

/// Where the first colon of a text stands.
pub open spec fn first_colon(s: Seq<char>) -> Option<int>
    decreases s.len(),
{
    if s.len() == 0 {
        None
    } else if s[0] == ':' {
        Some(0)
    } else {
        match first_colon(s.drop_first()) {
            Some(i) => Some(i + 1),
            None => None,
        }
    }
}

/// What a log message says behind its first colon.
pub open spec fn path_part(message: Seq<char>) -> Seq<char> {
    match first_colon(message) {
        Some(i) => trimmed(message.skip(i + 1)),
        None => Seq::empty(),
    }
}

/// The directory that a log message points to: the one above the path behind
/// its first colon.
pub open spec fn pointed_to(message: Seq<char>) -> Option<Seq<u8>> {
    let path = encode_utf8(path_part(message));
    let key = components(path);
    if path_part(message).len() > 0 && has_parent(key) {
        Some(text_for(path, key.drop_last()))
    } else {
        None
    }
}

proof fn lemma_first_colon(s: Seq<char>, i: int)
    requires
        0 <= i <= s.len(),
        forall|j: int| 0 <= j < i ==> s[j] != ':',
    ensures
        first_colon(s) == (match first_colon(s.skip(i)) {
            Some(n) => Some(n + i),
            None => None,
        }),
    decreases i,
{
    if i > 0 {
        let rest = s.drop_first();
        assert forall|j: int| 0 <= j < i - 1 implies rest[j] != ':' by {
            assert(rest[j] == s[j + 1]);
        }
        lemma_first_colon(rest, i - 1);
        assert(rest.skip(i - 1) =~= s.skip(i));
    } else {
        assert(s.skip(0) =~= s);
    }
}

/// The directory that a log message points to.
pub fn goto_target(message: &str) -> (r: Option<FilePath>)
    ensures
        r is Some <==> pointed_to(message@) is Some,
        r matches Some(dir) ==> dir@ == pointed_to(message@)->0 && dir.key() == components(
            encode_utf8(path_part(message@)),
        ).drop_last(),
{
    let chars = text_chars(message);
    let ghost all = message@;
    let mut i: usize = 0;
    while i < chars.len() && chars[i] != ':'
        invariant
            i <= chars@.len(),
            chars@ == all,
            forall|j: int| 0 <= j < i ==> all[j] != ':',
        decreases chars@.len() - i,
    {
        i = i + 1;
    }
    proof {
        lemma_first_colon(all, i as int);
    }
    if i == chars.len() {
        assert(all.skip(i as int) =~= Seq::empty());
        return None;
    }
    assert(all.skip(i as int)[0] == ':');
    let rest = vstd::slice::slice_subrange(chars.as_slice(), i + 1, chars.len());
    assert(rest@ =~= all.skip(i + 1));
    let (from, to) = trim_range(rest);
    if from == to {
        return None;
    }
    let text = chars_text(rest, from, to);
    let path = FilePath::from_text(text.as_str());
    match path.parent() {
        Some(dir) => {
            proof {
                lemma_names_above(path@, dir@, dir.key());
            }
            Some(dir)
        },
        None => None,
    }
}

/// The state after a key while a file name is asked for.
pub open spec fn typed(before: App, key: Key, action: Action, after: App) -> bool {
    match key {
        Key::Enter => {
            &&& action matches Action::Save(name) && name@ == before.save_filename@
            &&& after == App { show_save_popup: false, ..before }
        },
        Key::Esc => {
            &&& action is Stay
            &&& after.save_filename@ == Seq::<char>::empty()
            &&& after == App {
                show_save_popup: false,
                save_filename: after.save_filename,
                ..before
            }
        },
        Key::Backspace => {
            &&& action is Stay
            &&& after.save_filename@ == if before.save_filename@.len() == 0 {
                before.save_filename@
            } else {
                before.save_filename@.drop_last()
            }
            &&& after == App { save_filename: after.save_filename, ..before }
        },
        Key::Char(c) => {
            &&& action is Stay
            &&& after.save_filename@ == before.save_filename@.push(c)
            &&& after == App { save_filename: after.save_filename, ..before }
        },
        _ => action is Stay && after == before,
    }
}

/// The state after Enter in the log: the view goes to the directory that the
/// selected message points to, where that lies inside.
pub open spec fn went_to_logged(before: App, log: Seq<LogEntry>, after: App) -> bool {
    let at = log.len() - 1 - before.log_selected;
    let target = pointed_to(log[at].message@);
    if before.log_selected < log.len() && target is Some && key_within(
        components(encode_utf8(path_part(log[at].message@))).drop_last(),
        before.navigation_root.key(),
    ) {
        &&& after.current_dir@ == target->0
        &&& after.current_dir.key() == components(
            encode_utf8(path_part(log[at].message@)),
        ).drop_last()
        &&& key_within(after.current_dir.key(), before.navigation_root.key())
        &&& after == App {
            current_dir: after.current_dir,
            selected: 0,
            show_log: false,
            log_selected: 0,
            ..before
        }
    } else {
        after == before
    }
}

/// The state after a key while the log is shown.
pub open spec fn key_in_log(
    before: App,
    key: KeyPress,
    log: Seq<LogEntry>,
    action: Action,
    after: App,
) -> bool {
    if is_quit(key) {
        action is Quit && after == before
    } else {
        &&& action is Stay
        &&& match key.key {
            Key::Char('l') | Key::Char('L') => after == (App {
                show_log: false,
                log_selected: 0,
                ..before
            }),
            Key::Down | Key::Char('j') => after == (App {
                log_selected: stepped_down(before.log_selected, 1, log.len() as usize),
                ..before
            }),
            Key::Up | Key::Char('k') => after == (App {
                log_selected: stepped_up(before.log_selected, 1),
                ..before
            }),
            Key::PageDown => after == (App {
                log_selected: stepped_down(before.log_selected, 10, log.len() as usize),
                ..before
            }),
            Key::PageUp => after == (App {
                log_selected: stepped_up(before.log_selected, 10),
                ..before
            }),
            Key::Enter => went_to_logged(before, log, after),
            _ => after == before,
        }
    }
}

/// The state after a key in the view itself. `seen` is the number of lines on
/// the screen, `items` the lines as they are now.
pub open spec fn key_in_view(
    before: App,
    key: KeyPress,
    seen: usize,
    items: Seq<DiffNode>,
    action: Action,
    after: App,
) -> bool {
    if is_quit(key) {
        action is Quit && after == before
    } else {
        match key.key {
            Key::Char('l') | Key::Char('L') => action is Stay && after == (App {
                show_log: !before.show_log,
                log_selected: 0,
                ..before
            }),
            Key::Down | Key::Char('j') => action is Stay && after == (App {
                selected: stepped_down(before.selected, 1, seen),
                ..before
            }),
            Key::Up | Key::Char('k') => action is Stay && after == (App {
                selected: stepped_up(before.selected, 1),
                ..before
            }),
            Key::Enter | Key::Right => action is Stay && went_into(before, items, after),
            Key::Backspace | Key::Left => action is Stay && went_up(before, after),
            Key::Char('h') | Key::Char('H') => {
                &&& after == before
                &&& match hash_path(before, items) {
                    Some(text) => action matches Action::Hash(path) && path@ == text,
                    None => action is Stay,
                }
            },
            Key::Char('u') | Key::Char('U') => action is Stay && after == (App {
                show_unchanged: !before.show_unchanged,
                selected: 0,
                ..before
            }),
            Key::Char('t') | Key::Char('T') => action is Stay && after == (App {
                time_window: next_window(before.time_window),
                ..before
            }),
            Key::Char('s') | Key::Char('S') => {
                &&& after == before
                &&& if before.live_mode {
                    action is AskFilename
                } else {
                    action is Stay
                }
            },
            _ => action is Stay && after == before,
        }
    }
}

/// The state after a key: it goes to whatever lies on top.
pub open spec fn key_pressed(
    before: App,
    key: KeyPress,
    seen: usize,
    items: Seq<DiffNode>,
    log: Seq<LogEntry>,
    action: Action,
    after: App,
) -> bool {
    if before.show_hash_popup {
        action is Stay && after == (App { show_hash_popup: false, ..before })
    } else if before.show_save_popup {
        typed(before, key.key, action, after)
    } else if before.show_log {
        key_in_log(before, key, log, action, after)
    } else {
        key_in_view(before, key, seen, items, action, after)
    }
}

/// The text without its last character.
fn without_last(text: &String) -> (r: String)
    ensures
        r@ == if text@.len() == 0 {
            text@
        } else {
            text@.drop_last()
        },
{
    let chars = text_chars(text.as_str());
    if chars.len() == 0 {
        return text.clone();
    }
    let r = chars_text(chars.as_slice(), 0, chars.len() - 1);
    assert(r@ =~= text@.drop_last());
    r
}

impl App {
    fn handle_typing(&mut self, key: Key) -> (r: Action)
        ensures
            typed(*old(self), key, r, *final(self)),
    {
        match key {
            Key::Enter => {
                self.show_save_popup = false;
                Action::Save(self.save_filename.clone())
            },
            Key::Esc => {
                self.show_save_popup = false;
                self.save_filename = String::new();
                Action::Stay
            },
            Key::Backspace => {
                self.save_filename = without_last(&self.save_filename);
                Action::Stay
            },
            Key::Char(c) => {
                self.save_filename.push(c);
                Action::Stay
            },
            _ => Action::Stay,
        }
    }

    fn goto_logged(&mut self, log: &Vec<LogEntry>)
        ensures
            went_to_logged(*old(self), log@, *final(self)),
    {
        if self.log_selected < log.len() {
            let entry = &log[log.len() - 1 - self.log_selected];
            if let Some(parent) = goto_target(entry.message.as_str()) {
                if parent.starts_with(&self.navigation_root) {
                    self.current_dir = parent;
                    self.selected = 0;
                    self.show_log = false;
                    self.log_selected = 0;
                }
            }
        }
    }

    fn handle_log_key(&mut self, key: KeyPress, log: &Vec<LogEntry>) -> (r: Action)
        ensures
            key_in_log(*old(self), key, log@, r, *final(self)),
    {
        if quits(key) {
            return Action::Quit;
        }
        match key.key {
            Key::Char('l') | Key::Char('L') => {
                self.show_log = false;
                self.log_selected = 0;
            },
            Key::Down | Key::Char('j') => {
                self.log_selected = step_down(self.log_selected, 1, log.len());
            },
            Key::Up | Key::Char('k') => {
                self.log_selected = step_up(self.log_selected, 1);
            },
            Key::PageDown => {
                self.log_selected = step_down(self.log_selected, 10, log.len());
            },
            Key::PageUp => {
                self.log_selected = step_up(self.log_selected, 10);
            },
            Key::Enter => {
                self.goto_logged(log);
            },
            _ => {},
        }
        Action::Stay
    }

    fn handle_view_key(&mut self, key: KeyPress, seen: usize, items: &Vec<DiffNode>) -> (r: Action)
        ensures
            key_in_view(*old(self), key, seen, items@, r, *final(self)),
    {
        if quits(key) {
            return Action::Quit;
        }
        match key.key {
            Key::Char('l') | Key::Char('L') => {
                self.show_log = !self.show_log;
                self.log_selected = 0;
                Action::Stay
            },
            Key::Down | Key::Char('j') => {
                self.selected = step_down(self.selected, 1, seen);
                Action::Stay
            },
            Key::Up | Key::Char('k') => {
                self.selected = step_up(self.selected, 1);
                Action::Stay
            },
            Key::Enter | Key::Right => {
                self.navigate_into(items);
                Action::Stay
            },
            Key::Backspace | Key::Left => {
                self.navigate_up();
                Action::Stay
            },
            Key::Char('h') | Key::Char('H') => match self.hash_target(items) {
                Some(path) => Action::Hash(path),
                None => Action::Stay,
            },
            Key::Char('u') | Key::Char('U') => {
                self.show_unchanged = !self.show_unchanged;
                self.selected = 0;
                Action::Stay
            },
            Key::Char('t') | Key::Char('T') => {
                self.cycle_time_window();
                Action::Stay
            },
            Key::Char('s') | Key::Char('S') => if self.live_mode {
                Action::AskFilename
            } else {
                Action::Stay
            },
            _ => Action::Stay,
        }
    }

    /// Takes in a key. `seen` is the number of lines on the screen, `items` the
    /// lines as they are now.
    pub fn handle_key(
        &mut self,
        key: KeyPress,
        seen: usize,
        items: &Vec<DiffNode>,
        log: &Vec<LogEntry>,
    ) -> (r: Action)
        ensures
            key_pressed(*old(self), key, seen, items@, log@, r, *final(self)),
    {
        if self.show_hash_popup {
            self.show_hash_popup = false;
            Action::Stay
        } else if self.show_save_popup {
            self.handle_typing(key.key)
        } else if self.show_log {
            self.handle_log_key(key, log)
        } else {
            self.handle_view_key(key, seen, items)
        }
    }
}

/// Whatever key is pressed, the view does not leave the topmost directory.
pub proof fn law_keys_stay_inside(
    before: App,
    key: KeyPress,
    seen: usize,
    items: Seq<DiffNode>,
    log: Seq<LogEntry>,
    action: Action,
    after: App,
    s: Sources,
)
    requires
        inside(before),
        is_view(
            diff_views(items),
            s,
            before.current_dir@,
            before.navigation_root.key(),
            before.show_unchanged,
        ),
        key_pressed(before, key, seen, items, log, action, after),
    ensures
        inside(after),
        after.navigation_root == before.navigation_root,
{
    let list = diff_views(items);
    let dir = before.current_dir.key();
    let root = before.navigation_root.key();
    let nav = nav_entries(s, before.current_dir@, root);
    let n = nav.len() as int;
    let at = before.selected as int;
    if at < items.len() {
        assert(list[at].0 == items[at].path@);
        if at < n {
            assert(list.take(n)[at] == nav[at]);
            lemma_up_inside(before.current_dir, root);
        } else {
            assert(list.skip(n)[at - n] == list[at]);
            assert(is_child(components(list[at].0), dir));
            assert(items[at].path.key().drop_last() == dir);
        }
    }
    lemma_up_inside(before.current_dir, root);
}

/// Above a directory below the topmost one one is still inside.
proof fn lemma_up_inside(dir: FilePath, root: PathKey)
    ensures
        has_parent(dir.key()) && dir.key() != root && key_within(dir.key(), root) ==> key_within(
            dir.key().drop_last(),
            root,
        ),
{
    if has_parent(dir.key()) && dir.key() != root && key_within(dir.key(), root) {
        assert(root.len() < dir.key().len()) by {
            if root.len() == dir.key().len() {
                assert(root =~= dir.key());
            }
        }
        assert(root.is_prefix_of(dir.key().drop_last()));
    }
}

/// Five steps through the time windows lead back to the start, by way of ten
/// seconds, half a minute, a minute, five minutes and no end.
pub proof fn law_time_windows_cycle(window: i64)
    requires
        window == 0 || window == 10 || window == 30 || window == 60 || window == 300,
    ensures
        next_window(0) == 10 && next_window(10) == 30 && next_window(30) == 60 && next_window(60)
            == 300 && next_window(300) == 0,
        next_window(next_window(next_window(next_window(next_window(window))))) == window,
{
}

} // verus!
