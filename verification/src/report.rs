//! What the tools print and log, and how they are invoked.
use vstd::prelude::*;
use crate::display::{log_line, log_text};
use crate::monitor::recheck::is_file_item;
use crate::monitor::watch::{lists, lists_path, numbered, numbered_text};
use crate::monitor::Update;
use crate::node::{FileNode, Items};
use crate::path::{components, key_within, FilePath};
use crate::path_map::PathMap;
use crate::snapshot::{
    get_critical_dirs_in_scope, path_texts, text_paths, texts_under, LogEntry,
};
use crate::text::{decimal, lossy_utf8, number_text, text_views};
use crate::tree::lemma_filter_step;

verus! {

/// A directory.
pub open spec fn is_dir_item() -> spec_fn((Seq<u8>, FileNode)) -> bool {
    |item: (Seq<u8>, FileNode)| item.1.is_dir
}

/// How many of the entries are no directories.
pub open spec fn files_among(items: Items) -> nat {
    items.filter(is_file_item()).len()
}

/// How many of the entries are directories.
pub open spec fn dirs_among(items: Items) -> nat {
    items.filter(is_dir_item()).len()
}

/// How many files and how many directories there are.
pub fn count_nodes(nodes: &PathMap<FileNode>) -> (r: (usize, usize))
    ensures
        r.0 == nodes.items().filter(is_file_item()).len(),
        r.1 == nodes.items().filter(is_dir_item()).len(),
        r.0 + r.1 == nodes.items().len(),
        r.0 == files_among(nodes.items()),
        r.1 == dirs_among(nodes.items()),
{
    let ghost items = nodes.items();
    let total = nodes.len();
    let mut files: usize = 0;
    let mut dirs: usize = 0;
    let mut i: usize = 0;
    proof {
        reveal(Seq::filter);
        assert(items.take(0).filter(is_file_item()).len() == 0);
        assert(items.take(0).filter(is_dir_item()).len() == 0);
    }
    while i < total
        invariant
            i <= total == items.len(),
            items == nodes.items(),
            files == items.take(i as int).filter(is_file_item()).len(),
            dirs == items.take(i as int).filter(is_dir_item()).len(),
            files + dirs == i,
        decreases total - i,
    {
        proof {
            lemma_filter_step(items, is_file_item(), i as int);
            lemma_filter_step(items, is_dir_item(), i as int);
        }
        if nodes.value_at(i).is_dir {
            dirs = dirs + 1;
        } else {
            files = files + 1;
        }
        i = i + 1;
    }
    assert(items.take(i as int) =~= items);
    (files, dirs)
}

/// What is said about an update.
pub open spec fn update_text(label: Seq<char>, update: Update) -> Seq<char> {
    label + " ("@ + update.details@ + "): "@ + lossy_utf8(update.path@)
}

/// Says what an update came to.
pub fn update_line(label: &str, update: &Update) -> (r: String)
    ensures
        r@ == update_text(label@, *update),
{
    let mut r = String::new();
    r.append(label);
    r.append(" (");
    r.append(update.details.as_str());
    r.append("): ");
    r.append(update.path.to_string_lossy().as_str());
    assert(r@ =~= update_text(label@, *update));
    r
}

/// What is said about the updates that found anything new.
pub open spec fn update_texts(label: Seq<char>, updates: Seq<Update>) -> Seq<Seq<char>>
    decreases updates.len(),
{
    if updates.len() == 0 {
        Seq::empty()
    } else {
        let before = update_texts(label, updates.drop_last());
        if updates.last().updated {
            before.push(update_text(label, updates.last()))
        } else {
            before
        }
    }
}

/// Says what updates came to that found anything new.
pub fn update_lines(label: &str, updates: &Vec<Update>) -> (r: Vec<String>)
    ensures
        text_views(r@) == update_texts(label@, updates@),
{
    let mut r: Vec<String> = Vec::new();
    let mut i: usize = 0;
    assert(updates@.take(0) =~= Seq::empty());
    assert(text_views(r@) =~= Seq::empty());
    while i < updates.len()
        invariant
            i <= updates@.len(),
            text_views(r@) == update_texts(label@, updates@.take(i as int)),
        decreases updates@.len() - i,
    {
        let ghost before = r@;
        proof {
            assert(updates@.take(i + 1).drop_last() =~= updates@.take(i as int));
            assert(updates@.take(i + 1).last() == updates@[i as int]);
        }
        if updates[i].updated {
            let line = update_line(label, &updates[i]);
            r.push(line);
            assert(text_views(r@) =~= text_views(before).push(line@));
        }
        i = i + 1;
    }
    assert(updates@.take(i as int) =~= updates@);
    r
}

/// The lines that are printed where nothing can be shown on a screen.
pub open spec fn brief_texts(log: Seq<LogEntry>) -> Seq<Seq<char>> {
    if log.len() == 0 {
        seq!["No changes detected."@]
    } else {
        log.map_values(|e: LogEntry| log_text(e))
    }
}

/// What is printed where nothing can be shown on a screen: the log, the oldest
/// line first, or that there is nothing to tell.
pub fn brief_lines(log: &Vec<LogEntry>) -> (r: Vec<String>)
    ensures
        log@.len() == 0 ==> text_views(r@) == seq!["No changes detected."@],
        log@.len() > 0 ==> text_views(r@) == log@.map_values(|e: LogEntry| log_text(e)),
        text_views(r@) == brief_texts(log@),
{
    let mut r: Vec<String> = Vec::new();
    if log.len() == 0 {
        r.push("No changes detected.".to_string());
        assert(text_views(r@) =~= seq!["No changes detected."@]);
        return r;
    }
    let mut i: usize = 0;
    while i < log.len()
        invariant
            i <= log@.len(),
            r@.len() == i,
            forall|j: int| 0 <= j < i ==> (#[trigger] r@[j])@ == log_text(log@[j]),
        decreases log@.len() - i,
    {
        r.push(log_line(&log[i]));
        i = i + 1;
    }
    assert(text_views(r@) =~= log@.map_values(|e: LogEntry| log_text(e)));
    r
}

/// What is said where not every directory can be watched.
pub open spec fn budget_texts(used: usize, budget: usize, dirs: usize, no_scan: bool) -> Seq<
    Seq<char>,
> {
    seq![
        numbered(
            "\u{26a0}\u{fe0f}  WARNING: inotify/FSEvents watch budget exceeded! ("@,
            used as int,
            "/"@,
        ) + decimal(budget as int) + " watches used)"@,
        numbered("Only "@, dirs as int, " directories are being watched"@),
    ] + if no_scan {
        seq![
            "\u{26a0}\u{fe0f}  --no-scan enabled but not all directories can be watched!"@,
            "Changes in unwatched directories will NOT be detected!"@,
            "Consider removing --no-scan or increasing inotify limits."@,
        ]
    } else {
        seq!["Periodic polling will catch changes in unwatched directories."@]
    }
}

/// Says that not every directory can be watched.
pub fn budget_warnings(used: usize, budget: usize, dirs: usize, no_scan: bool) -> (r: Vec<String>)
    ensures
        text_views(r@) == budget_texts(used, budget, dirs, no_scan),
{
    let mut r: Vec<String> = Vec::new();
    let mut first = numbered_text(
        "\u{26a0}\u{fe0f}  WARNING: inotify/FSEvents watch budget exceeded! (",
        used as u64,
        "/",
    );
    first.append(number_text(budget as u64, 10).as_str());
    first.append(" watches used)");
    r.push(first);
    r.push(numbered_text("Only ", dirs as u64, " directories are being watched"));
    if no_scan {
        r.push(
            "\u{26a0}\u{fe0f}  --no-scan enabled but not all directories can be watched!".to_string(),
        );
        r.push("Changes in unwatched directories will NOT be detected!".to_string());
        r.push("Consider removing --no-scan or increasing inotify limits.".to_string());
    } else {
        r.push("Periodic polling will catch changes in unwatched directories.".to_string());
    }
    assert(text_views(r@) =~= budget_texts(used, budget, dirs, no_scan));
    r
}

/// The directories to watch: those in scope, and the root.
pub open spec fn texts_to_watch(texts: Seq<Seq<u8>>, root: FilePath) -> Seq<Seq<u8>> {
    let inside = texts_under(texts, root.key());
    if lists_path(inside, root.key()) {
        inside
    } else {
        inside.push(root@)
    }
}

/// The critical directories in scope, and the watched root itself where it is
/// not one of them.
pub fn watch_list(root: &FilePath, critical_dirs: &Vec<String>) -> (r: Vec<FilePath>)
    ensures
        ({
            let inside = text_paths(critical_dirs@).filter(
                |t: Seq<u8>| key_within(components(t), root.key()),
            );
            path_texts(r@) == if lists_path(inside, root.key()) {
                inside
            } else {
                inside.push(root@)
            }
        }),
        path_texts(r@) == texts_to_watch(text_paths(critical_dirs@), *root),
{
    let mut r = get_critical_dirs_in_scope(root, critical_dirs);
    if !lists(&r, root) {
        let ghost before = r@;
        let copy = root.clone();
        r.push(copy);
        assert(path_texts(r@) =~= path_texts(before).push(copy@));
    }
    r
}

/// What the view is asked to show.
#[derive(Debug, Clone, Copy, PartialEq, Eq, Structural)]
pub enum Mode {
    /// A directory as it changes, against a snapshot given or taken now.
    Live,
    /// Two snapshots.
    Compare,
}

/// What is wrong with an invocation.
#[derive(Debug, Clone, Copy, PartialEq, Eq, Structural)]
pub enum Misuse {
    SecondSnapshotWithLive,
    FirstSnapshotMissing,
    SecondSnapshotMissing,
}

/// What the view is asked to show, by which of its arguments are given.
pub open spec fn mode_for(live: bool, first: bool, second: bool) -> Result<Mode, Misuse> {
    if live && second {
        Err(Misuse::SecondSnapshotWithLive)
    } else if live {
        Ok(Mode::Live)
    } else if !first {
        Err(Misuse::FirstSnapshotMissing)
    } else if !second {
        Err(Misuse::SecondSnapshotMissing)
    } else {
        Ok(Mode::Compare)
    }
}

/// Finds out what the view is asked to show.
pub fn choose_mode(live: bool, first: bool, second: bool) -> (r: Result<Mode, Misuse>)
    ensures
        r == if live && second {
            Err::<Mode, Misuse>(Misuse::SecondSnapshotWithLive)
        } else if live {
            Ok(Mode::Live)
        } else if !first {
            Err(Misuse::FirstSnapshotMissing)
        } else if !second {
            Err(Misuse::SecondSnapshotMissing)
        } else {
            Ok(Mode::Compare)
        },
        r == mode_for(live, first, second),
{
    if live && second {
        Err(Misuse::SecondSnapshotWithLive)
    } else if live {
        Ok(Mode::Live)
    } else if !first {
        Err(Misuse::FirstSnapshotMissing)
    } else if !second {
        Err(Misuse::SecondSnapshotMissing)
    } else {
        Ok(Mode::Compare)
    }
}

/// What is said about a misuse.
pub open spec fn misuse_text(misuse: Misuse) -> Seq<char> {
    match misuse {
        Misuse::SecondSnapshotWithLive => "Cannot use snapshot2 with --live mode. Valid usages:\n  1. Compare snapshots: dshow snapshot1 snapshot2\n  2. Live mode: dshow --live /path\n  3. Live with reference: dshow snapshot1 --live /path"@,
        Misuse::FirstSnapshotMissing => "Must provide snapshot1 or --live"@,
        Misuse::SecondSnapshotMissing => "Must provide snapshot2 or --live"@,
    }
}

impl Misuse {
    /// Says what is wrong.
    pub fn message(&self) -> (r: String)
        ensures
            r@ == misuse_text(*self),
    {
        match self {
            Misuse::SecondSnapshotWithLive => "Cannot use snapshot2 with --live mode. Valid usages:\n  1. Compare snapshots: dshow snapshot1 snapshot2\n  2. Live mode: dshow --live /path\n  3. Live with reference: dshow snapshot1 --live /path".to_string(),
            Misuse::FirstSnapshotMissing => "Must provide snapshot1 or --live".to_string(),
            Misuse::SecondSnapshotMissing => "Must provide snapshot2 or --live".to_string(),
        }
    }
}

} // verus!
