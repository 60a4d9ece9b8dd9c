//! Titles, details and popups of the interactive view.
use vstd::prelude::*;
use crate::diff::DiffNode;
use crate::display::{
    file_label, flags_text, format_mode, format_system_flags, mode_text, readable_time,
    system_flag_names, time_text, System,
};
use crate::explorer::App;
use crate::node::FileNode;
use crate::path::{component_rank, PathKey};
use crate::path_map::PathMap;
use crate::text::{
    decimal, decimal_text, digits, join_texts, joined, lossy_utf8, number_text, padded_hex,
    text_views, zero_padded,
};

verus! {

/// How a time window is written: in seconds, or in minutes from one on.
pub open spec fn window_text(window: i64) -> Seq<char> {
    if window == 0 {
        "all"@
    } else if window < 60 {
        decimal(window as int) + "s"@
    } else {
        decimal(window as int / 60) + "m"@
    }
}

/// Writes a time window.
pub fn format_window(window: i64) -> (r: String)
    ensures
        r@ == window_text(window),
{
    if window == 0 {
        return "all".to_string();
    }
    let (number, unit) = if window < 60 {
        (decimal_text(window), "s")
    } else {
        (number_text(window as u64 / 60, 10), "m")
    };
    let mut r = number;
    r.append(unit);
    assert(r@ =~= window_text(window));
    r
}

/// How the current directory is written.
pub open spec fn dir_text(dir: Seq<u8>, is_root: bool) -> Seq<char> {
    if is_root {
        lossy_utf8(dir) + " (root)"@
    } else {
        lossy_utf8(dir)
    }
}

/// One of the lines has a time of change.
pub open spec fn any_change(items: Seq<DiffNode>) -> bool {
    exists|i: int| 0 <= i < items.len() && (#[trigger] items[i]).change_time is Some
}

/// The title of the view.
pub open spec fn title_text(app: App, items: Seq<DiffNode>) -> Seq<char> {
    let start = "\u{1f4c2} "@ + dir_text(
        app.current_dir@,
        app.current_dir.key() == app.old_snapshot.root.key(),
    ) + " | "@ + decimal(items.len() as int) + " items | "@;
    if app.live_mode {
        start + "LIVE \u{26a1} "@ + (if any_change(items) {
            "monitoring"@
        } else {
            "waiting"@
        }) + " | [t]ime:"@ + window_text(app.time_window)
            + " [\u{21b5}]enter [\u{2190}/backspace]up [s]ave [h]ash [l]og [u]nchanged [q/^C]uit"@
    } else {
        start + "[\u{21b5}]enter [\u{2190}/backspace]up [h]ash [l]og [u]nchanged [q/^C]uit"@
    }
}

fn has_change(items: &Vec<DiffNode>) -> (r: bool)
    ensures
        r == any_change(items@),
{
    let mut i: usize = 0;
    while i < items.len()
        invariant
            i <= items@.len(),
            forall|j: int| 0 <= j < i ==> (#[trigger] items@[j]).change_time is None,
        decreases items@.len() - i,
    {
        if items[i].change_time.is_some() {
            return true;
        }
        i = i + 1;
    }
    false
}

/// Writes the title of the view.
pub fn title(app: &App, items: &Vec<DiffNode>) -> (r: String)
    ensures
        r@ == title_text(*app, items@),
{
    let mut r = String::new();
    r.append("\u{1f4c2} ");
    r.append(app.current_dir.to_string_lossy().as_str());
    if app.current_dir.same(&app.old_snapshot.root) {
        r.append(" (root)");
    }
    r.append(" | ");
    r.append(number_text(items.len() as u64, 10).as_str());
    r.append(" items | ");
    if app.live_mode {
        r.append("LIVE \u{26a1} ");
        if has_change(items) {
            r.append("monitoring");
        } else {
            r.append("waiting");
        }
        r.append(" | [t]ime:");
        r.append(format_window(app.time_window).as_str());
        r.append(
            " [\u{21b5}]enter [\u{2190}/backspace]up [s]ave [h]ash [l]og [u]nchanged [q/^C]uit",
        );
    } else {
        r.append("[\u{21b5}]enter [\u{2190}/backspace]up [h]ash [l]og [u]nchanged [q/^C]uit");
    }
    assert(r@ =~= title_text(*app, items@));
    r
}

/// The first line about a node.
pub open spec fn owner_line(node: FileNode) -> Seq<char> {
    "uid:"@ + decimal(node.uid as int) + " gid:"@ + decimal(node.gid as int) + " mode:"@ + mode_text(
        node.mode,
    ) + " size:"@ + decimal(node.size as int) + " nlink:"@ + decimal(node.nlink as int)
}

/// The line about a node's times.
pub open spec fn times_line(node: FileNode) -> Seq<char> {
    "     mtime:"@ + time_text(node.mtime) + " atime:"@ + time_text(node.atime) + " ctime:"@
        + time_text(node.ctime)
}

/// The line about a node's extended attributes, where it has any: their names,
/// or their checksum where no names can be read.
pub open spec fn xattr_lines(node: FileNode, keys: Seq<Seq<char>>) -> Seq<Seq<char>> {
    if node.xattrs_hash == 0 {
        Seq::empty()
    } else if keys.len() > 0 {
        seq!["     xattrs: "@ + joined(keys, ", "@)]
    } else {
        seq!["     xattrs_hash: "@ + zero_padded(digits(node.xattrs_hash as nat, 16), 16)]
    }
}

/// The line about a node's flags, on a system that has any.
pub open spec fn flag_lines(node: FileNode, system: System) -> Seq<Seq<char>> {
    if system == System::Other {
        Seq::empty()
    } else {
        seq!["     flags:"@ + flags_text(node.flags, system_flag_names(system, node.flags))]
    }
}

/// What is said about a node.
pub open spec fn node_lines(node: FileNode, keys: Seq<Seq<char>>, system: System) -> Seq<Seq<char>> {
    seq![owner_line(node), times_line(node)] + flag_lines(node, system) + xattr_lines(node, keys)
}

fn owner_text(node: &FileNode) -> (r: String)
    ensures
        r@ == owner_line(*node),
{
    let mut r = String::new();
    r.append("uid:");
    r.append(number_text(node.uid as u64, 10).as_str());
    r.append(" gid:");
    r.append(number_text(node.gid as u64, 10).as_str());
    r.append(" mode:");
    r.append(format_mode(node.mode).as_str());
    r.append(" size:");
    r.append(number_text(node.size, 10).as_str());
    r.append(" nlink:");
    r.append(number_text(node.nlink as u64, 10).as_str());
    assert(r@ =~= owner_line(*node));
    r
}

fn times_text(node: &FileNode) -> (r: String)
    ensures
        r@ == times_line(*node),
{
    let mut r = String::new();
    r.append("     mtime:");
    r.append(readable_time(node.mtime).as_str());
    r.append(" atime:");
    r.append(readable_time(node.atime).as_str());
    r.append(" ctime:");
    r.append(readable_time(node.ctime).as_str());
    assert(r@ =~= times_line(*node));
    r
}

fn prefixed(start: &str, text: &String) -> (r: String)
    ensures
        r@ == start@ + text@,
{
    let mut r = String::new();
    r.append(start);
    r.append(text.as_str());
    assert(r@ =~= start@ + text@);
    r
}

/// Writes what is said about a node. `keys` are the names of the extended
/// attributes.
pub fn describe_node(node: &FileNode, keys: &Vec<String>, system: System) -> (r: Vec<String>)
    ensures
        text_views(r@) == node_lines(*node, text_views(keys@), system),
{
    let mut r: Vec<String> = Vec::new();
    r.push(owner_text(node));
    r.push(times_text(node));
    if system != System::Other {
        r.push(prefixed("     flags:", &format_system_flags(system, node.flags)));
    }
    assert(text_views(keys@).len() == keys@.len());
    if node.xattrs_hash != 0 {
        if keys.len() > 0 {
            r.push(prefixed("     xattrs: ", &join_texts(keys, ", ")));
        } else {
            r.push(prefixed("     xattrs_hash: ", &padded_hex(node.xattrs_hash, 16)));
        }
    }
    assert(text_views(r@) =~= node_lines(*node, text_views(keys@), system));
    r
}

/// What is said about a selected entry: about its older node, and about its
/// newer one with the checksum that was asked for.
#[derive(Debug)]
pub struct Details {
    pub path: String,
    pub older: Vec<String>,
    pub newer: Vec<String>,
}

/// The line with the checksum of a file, where one was asked for.
pub open spec fn sha256_lines(
    node: FileNode,
    key: PathKey,
    cache: Map<PathKey, (Seq<u8>, String)>,
) -> Seq<Seq<char>> {
    if !node.is_dir && cache.contains_key(key) {
        seq!["     sha256:"@ + cache[key].1@]
    } else {
        Seq::empty()
    }
}

/// What is said about an entry.
pub open spec fn is_about(
    details: Details,
    diff: DiffNode,
    keys: Seq<Seq<char>>,
    cache: Map<PathKey, (Seq<u8>, String)>,
    system: System,
) -> bool {
    &&& details.path@ == lossy_utf8(diff.path@)
    &&& text_views(details.older@) == match diff.old_node {
        Some(node) => node_lines(node, keys, system),
        None => Seq::empty(),
    }
    &&& text_views(details.newer@) == match diff.new_node {
        Some(node) => node_lines(node, keys, system) + sha256_lines(node, diff.path.key(), cache),
        None => Seq::empty(),
    }
}

/// Writes what is said about an entry.
pub fn details(
    diff: &DiffNode,
    keys: &Vec<String>,
    cache: &PathMap<String>,
    system: System,
) -> (r: Details)
    ensures
        r.path@ == lossy_utf8(diff.path@),
        text_views(r.older@) == match diff.old_node {
            Some(node) => node_lines(node, text_views(keys@), system),
            None => Seq::empty(),
        },
        text_views(r.newer@) == match diff.new_node {
            Some(node) => node_lines(node, text_views(keys@), system) + sha256_lines(
                node,
                diff.path.key(),
                cache@,
            ),
            None => Seq::empty(),
        },
        is_about(r, *diff, text_views(keys@), cache@, system),
{
    let older: Vec<String> = match &diff.old_node {
        Some(node) => describe_node(node, keys, system),
        None => Vec::new(),
    };
    let mut newer: Vec<String> = Vec::new();
    if let Some(node) = &diff.new_node {
        newer = describe_node(node, keys, system);
        if !node.is_dir {
            if let Some(sum) = cache.get(&diff.path) {
                newer.push(prefixed("     sha256:", sum));
            }
        }
        assert(text_views(newer@) =~= node_lines(*node, text_views(keys@), system) + sha256_lines(
            *node,
            diff.path.key(),
            cache@,
        ));
    }
    let r = Details { path: diff.path.to_string_lossy(), older, newer };
    assert(diff.old_node is None ==> text_views(r.older@) =~= Seq::empty());
    assert(diff.new_node is None ==> text_views(r.newer@) =~= Seq::empty());
    r
}

/// The name under which a checksum is shown.
pub open spec fn popup_name(app: App, items: Seq<DiffNode>) -> Seq<char> {
    let key = items[app.selected as int].path.key();
    if app.selected < items.len() && key.len() > 0 && component_rank(key.last()) == 3 {
        lossy_utf8(key.last())
    } else {
        "unknown"@
    }
}

/// The name and the checksum to show.
pub fn hash_popup(app: &App, items: &Vec<DiffNode>) -> (r: (String, Option<String>))
    ensures
        r.0@ == popup_name(*app, items@),
        r.1 is Some <==> app.selected < items@.len() && app.sha256_cache@.contains_key(
            items@[app.selected as int].path.key(),
        ),
        r.1 matches Some(sum) ==> sum@ == app.sha256_cache@[items@[app.selected as int].path.key()].1@,
{
    if app.selected < items.len() {
        let path = &items[app.selected].path;
        let sum = match app.sha256_cache.get(path) {
            Some(sum) => Some(sum.clone()),
            None => None,
        };
        (file_label(path, "unknown"), sum)
    } else {
        ("unknown".to_string(), None)
    }
}

/// A part of the screen.
#[derive(Debug, Clone, Copy, PartialEq, Eq, Structural)]
pub struct Area {
    pub x: u16,
    pub y: u16,
    pub width: u16,
    pub height: u16,
}

/// The smaller of two numbers.
pub open spec fn least(a: int, b: int) -> int {
    if a < b {
        a
    } else {
        b
    }
}

/// What is left of a number, at least nothing.
pub open spec fn left_of(a: int, b: int) -> int {
    if a < b {
        0
    } else {
        a - b
    }
}

/// The part of a screen in its middle that has this size.
pub open spec fn centered(width: int, height: int, screen_width: int, screen_height: int) -> Area {
    Area {
        x: (left_of(screen_width, width) / 2) as u16,
        y: (left_of(screen_height, height) / 2) as u16,
        width: width as u16,
        height: height as u16,
    }
}

fn reduce(a: u16, b: u16) -> (r: u16)
    ensures
        r == left_of(a as int, b as int),
{
    if a < b {
        0
    } else {
        a - b
    }
}

fn at_most(a: u16, b: u16) -> (r: u16)
    ensures
        r == least(a as int, b as int),
{
    if a < b {
        a
    } else {
        b
    }
}

fn center(width: u16, height: u16, screen_width: u16, screen_height: u16) -> (r: Area)
    ensures
        r == centered(width as int, height as int, screen_width as int, screen_height as int),
{
    Area {
        x: reduce(screen_width, width) / 2,
        y: reduce(screen_height, height) / 2,
        width,
        height,
    }
}

/// The area lies on the screen.
pub open spec fn fits(area: Area, screen_width: u16, screen_height: u16) -> bool {
    area.x + area.width <= screen_width && area.y + area.height <= screen_height
}

/// The place of a checksum on the screen.
pub open spec fn hash_area(screen_width: int, screen_height: int) -> Area {
    centered(
        least(70, left_of(screen_width, 6)),
        least(8, left_of(screen_height, 6)),
        screen_width,
        screen_height,
    )
}

/// The place of the log on the screen.
pub open spec fn log_area(screen_width: int, screen_height: int) -> Area {
    centered(left_of(screen_width, 4), left_of(screen_height, 4), screen_width, screen_height)
}

/// The place on the screen where a name is typed.
pub open spec fn save_area(screen_width: int, screen_height: int) -> Area {
    centered(least(60, left_of(screen_width, 6)), 7, screen_width, screen_height)
}

/// Where a checksum is shown.
pub fn hash_popup_area(screen_width: u16, screen_height: u16) -> (r: Area)
    ensures
        r == centered(
            least(70, left_of(screen_width as int, 6)),
            least(8, left_of(screen_height as int, 6)),
            screen_width as int,
            screen_height as int,
        ),
        fits(r, screen_width, screen_height),
        r == hash_area(screen_width as int, screen_height as int),
{
    let width = at_most(70, reduce(screen_width, 6));
    let height = at_most(8, reduce(screen_height, 6));
    center(width, height, screen_width, screen_height)
}

/// Where the log is shown.
pub fn log_popup_area(screen_width: u16, screen_height: u16) -> (r: Area)
    ensures
        r == centered(
            left_of(screen_width as int, 4),
            left_of(screen_height as int, 4),
            screen_width as int,
            screen_height as int,
        ),
        fits(r, screen_width, screen_height),
        r == log_area(screen_width as int, screen_height as int),
{
    center(reduce(screen_width, 4), reduce(screen_height, 4), screen_width, screen_height)
}

/// Where the name of a file is asked for.
pub fn save_popup_area(screen_width: u16, screen_height: u16) -> (r: Area)
    ensures
        r == centered(
            least(60, left_of(screen_width as int, 6)),
            7,
            screen_width as int,
            screen_height as int,
        ),
        screen_height >= 7 ==> fits(r, screen_width, screen_height),
        r == save_area(screen_width as int, screen_height as int),
{
    let width = at_most(60, reduce(screen_width, 6));
    center(width, 7, screen_width, screen_height)
}

/// The name of a snapshot file made from a point in time.
pub fn dated_filename(stamp: &str) -> (r: String)
    ensures
        r@ == "snapshot-"@ + stamp@ + ".snap"@,
{
    let mut r = String::new();
    r.append("snapshot-");
    r.append(stamp);
    r.append(".snap");
    assert(r@ =~= "snapshot-"@ + stamp@ + ".snap"@);
    r
}

/// The name that is offered.
pub open spec fn offered_name(
    persist: bool,
    reference: Option<String>,
    stamp: Seq<char>,
) -> Seq<char> {
    if persist {
        match reference {
            Some(name) => name@,
            None => "snapshot.snap"@,
        }
    } else {
        "snapshot-"@ + stamp + ".snap"@
    }
}

/// The name that is offered for a snapshot file: that of the reference
/// snapshot where changes are to persist, otherwise one made from the time.
pub fn default_filename(persist: bool, reference: &Option<String>, stamp: &str) -> (r: String)
    ensures
        r@ == if persist {
            match *reference {
                Some(name) => name@,
                None => "snapshot.snap"@,
            }
        } else {
            "snapshot-"@ + stamp@ + ".snap"@
        },
        r@ == offered_name(persist, *reference, stamp@),
{
    if persist {
        match reference {
            Some(name) => name.clone(),
            None => "snapshot.snap".to_string(),
        }
    } else {
        dated_filename(stamp)
    }
}

} // verus!
