//! What is written on the screen and in reports, told by what it is about.
use vstd::prelude::*;
use crate::diff::DiffNode;
use crate::display::{
    log_texts, mode_text, row_name, row_text, status_mark, strftime_text, text_if, time_text,
    System,
};
use crate::explorer::{hash_message, hash_text, App};
use crate::monitor::watch::{startup_lines, InotifyLimits};
use crate::node::{FileNode, Items};
use crate::panels::{
    any_change, hash_area, is_about, log_area, node_lines, offered_name, popup_name, save_area,
    title_text, window_text, Area, Details,
};
use crate::path::{component_rank, PathKey};
use crate::progress::{progress_line, report_step, share, ProgressReporter};
use crate::report::{
    brief_texts, budget_texts, dirs_among, files_among, misuse_text, mode_for, Misuse, Mode,
};
use crate::snapshot::LogEntry;
use crate::text::{decimal, digits, joined, lossy_utf8, text_views, zero_padded};

verus! {

/// The part that is done of a whole, in whole units: nothing at the start,
/// everything at the end, and never less than before.
pub proof fn law_shares_grow_to_the_whole(done: nat, more: nat, total: nat, span: nat)
    requires
        0 < total,
        done <= more <= total,
    ensures
        share(0, total, span) == 0,
        share(total, total, span) == span,
        share(done, total, span) <= share(more, total, span) <= span,
        share(done, total, span) * total <= done * span < (share(done, total, span) + 1) * total,
{
    vstd::arithmetic::div_mod::lemma_fundamental_div_mod((done * span) as int, total as int);
    assert(total * span / total == span) by (nonlinear_arith)
        requires
            0 < total,
    ;
    assert(0nat * span == 0) by (nonlinear_arith);
    assert(done * span <= more * span <= total * span) by (nonlinear_arith)
        requires
            done <= more <= total,
    ;
    vstd::arithmetic::div_mod::lemma_div_is_ordered(
        (done * span) as int,
        (more * span) as int,
        total as int,
    );
    vstd::arithmetic::div_mod::lemma_div_is_ordered(
        (more * span) as int,
        (total * span) as int,
        total as int,
    );
    let q = (done * span) as int / total as int;
    assert(q * total == total * q) by (nonlinear_arith);
    assert((q + 1) * total == q * total + total) by (nonlinear_arith);
}

/// Progress is shown where it has grown by five percent or more since it was
/// last shown, and at a hundred percent.
pub proof fn law_progress_is_shown_by_fives(
    before: ProgressReporter,
    current: nat,
    total: nat,
    shown: Option<String>,
    after: ProgressReporter,
)
    requires
        0 < total,
        current <= total,
        report_step(before, current, total, shown, after),
    ensures
        shown is Some <==> current * 100 / total >= before.last + 5 || current * 100 / total == 100,
        shown is Some ==> after.last == current * 100 / total,
        shown is None ==> after.last == before.last,
        shown is Some ==> shown->0@ == progress_line(current, total),
{
}

/// What the arguments of the view ask for: a directory as it changes, with at
/// most one snapshot to hold it against, or two snapshots.
pub proof fn law_arguments_ask_for_one_thing(live: bool, first: bool, second: bool)
    ensures
        mode_for(live, first, second) == Ok::<Mode, Misuse>(Mode::Live) <==> live && !second,
        mode_for(live, first, second) == Ok::<Mode, Misuse>(Mode::Compare) <==> !live && first
            && second,
        mode_for(live, first, second) == Err::<Mode, Misuse>(Misuse::SecondSnapshotWithLive)
            <==> live && second,
        mode_for(live, first, second) == Err::<Mode, Misuse>(Misuse::FirstSnapshotMissing)
            <==> !live && !first,
        mode_for(live, first, second) == Err::<Mode, Misuse>(Misuse::SecondSnapshotMissing)
            <==> !live && first && !second,
{
}

/// Every entry is counted once: as a directory where it is one, and as a file
/// where it is not.
pub proof fn law_every_entry_is_counted(items: Items, item: (Seq<u8>, FileNode))
    ensures
        files_among(Seq::empty()) == 0,
        dirs_among(Seq::empty()) == 0,
        item.1.is_dir ==> dirs_among(items.push(item)) == dirs_among(items) + 1 && files_among(
            items.push(item),
        ) == files_among(items),
        !item.1.is_dir ==> files_among(items.push(item)) == files_among(items) + 1 && dirs_among(
            items.push(item),
        ) == dirs_among(items),
{
    reveal(Seq::filter);
    assert(items.push(item).drop_last() =~= items);
}

/// The log is shown with the latest line first and printed with the oldest
/// first; each line gives the time and the message. Where nothing is logged,
/// what is printed says so.
pub proof fn law_log_has_a_line_for_each_entry(log: Seq<LogEntry>, i: int)
    requires
        0 <= i < log.len(),
    ensures
        log_texts(log).len() == log.len(),
        brief_texts(log).len() == log.len(),
        brief_texts(log)[i] == "["@ + time_text(log[i].timestamp) + "] "@ + log[i].message@,
        log_texts(log)[log.len() - 1 - i] == "["@ + time_text(log[i].timestamp) + "] "@
            + log[i].message@,
        brief_texts(Seq::empty()) == seq!["No changes detected."@],
{
}

/// A window over the screen lies in its middle, to within one place, and leaves
/// the margin that it is given.
pub proof fn law_windows_lie_in_the_middle(width: u16, height: u16)
    ensures
        lies_in_the_middle(hash_area(width as int, height as int), width, height),
        lies_in_the_middle(log_area(width as int, height as int), width, height),
        height >= 7 ==> lies_in_the_middle(save_area(width as int, height as int), width, height),
        save_area(width as int, height as int).height == 7,
        width >= 76 ==> hash_area(width as int, height as int).width == 70,
        6 <= width < 76 ==> hash_area(width as int, height as int).width == width - 6,
        height >= 14 ==> hash_area(width as int, height as int).height == 8,
        6 <= height < 14 ==> hash_area(width as int, height as int).height == height - 6,
        width >= 66 ==> save_area(width as int, height as int).width == 60,
        6 <= width < 66 ==> save_area(width as int, height as int).width == width - 6,
        width >= 4 ==> log_area(width as int, height as int).width == width - 4,
        height >= 4 ==> log_area(width as int, height as int).height == height - 4,
{
}

/// As much room on the left as on the right and above as below, to within one
/// place.
pub open spec fn lies_in_the_middle(area: Area, width: u16, height: u16) -> bool {
    &&& 0 <= width - area.width - 2 * area.x <= 1
    &&& 0 <= height - area.height - 2 * area.y <= 1
}

/// The name that is offered is that of the reference where changes are kept and
/// there is one, and tells the time where they are not.
pub proof fn law_offered_name_is_the_reference(reference: Option<String>, stamp: Seq<char>)
    ensures
        reference is Some ==> offered_name(true, reference, stamp) == reference->0@,
        reference is None ==> offered_name(true, reference, stamp) == "snapshot.snap"@,
        offered_name(false, reference, stamp) == "snapshot-"@ + stamp + ".snap"@,
{
}

/// What is said about an entry: each side tells of its own node or is empty, and
/// the newer one ends with the checksum where one was computed of a file.
pub proof fn law_each_side_tells_of_its_node(
    details: Details,
    diff: DiffNode,
    keys: Seq<Seq<char>>,
    cache: Map<PathKey, (Seq<u8>, String)>,
    system: System,
)
    requires
        is_about(details, diff, keys, cache, system),
    ensures
        diff.old_node is None ==> details.older@.len() == 0,
        diff.new_node is None ==> details.newer@.len() == 0,
        diff.old_node is Some ==> text_views(details.older@) == node_lines(
            diff.old_node->0,
            keys,
            system,
        ),
        diff.new_node is Some && (diff.new_node->0.is_dir || !cache.contains_key(diff.path.key()))
            ==> text_views(details.newer@) == node_lines(diff.new_node->0, keys, system),
        diff.new_node is Some && !diff.new_node->0.is_dir && cache.contains_key(diff.path.key())
            ==> text_views(details.newer@) == node_lines(diff.new_node->0, keys, system).push(
            "     sha256:"@ + cache[diff.path.key()].1@,
        ),
{
    assert(text_views(details.older@).len() == details.older@.len());
    assert(text_views(details.newer@).len() == details.newer@.len());
    if diff.new_node is Some {
        let lines = node_lines(diff.new_node->0, keys, system);
        assert(lines + Seq::<Seq<char>>::empty() =~= lines);
        assert(lines + seq!["     sha256:"@ + cache[diff.path.key()].1@] =~= lines.push(
            "     sha256:"@ + cache[diff.path.key()].1@,
        ));
    }
}

/// The lines about a node: user, group, mode, size and links; then the three
/// times; then the flags, where the system has any; then the names of the
/// extended attributes, or their checksum where the names are not known, or
/// nothing where there are none.
pub proof fn law_lines_tell_every_field(node: FileNode, keys: Seq<Seq<char>>, system: System)
    ensures
        ({
            let lines = node_lines(node, keys, system);
            let flags: int = if system == System::Other {
                0
            } else {
                1
            };
            let attrs: int = if node.xattrs_hash == 0 {
                0
            } else {
                1
            };
            &&& lines.len() == 2 + flags + attrs
            &&& lines[0] == "uid:"@ + decimal(node.uid as int) + " gid:"@ + decimal(node.gid as int)
                + " mode:"@ + mode_text(node.mode) + " size:"@ + decimal(node.size as int)
                + " nlink:"@ + decimal(node.nlink as int)
            &&& lines[1] == "     mtime:"@ + time_text(node.mtime) + " atime:"@ + time_text(
                node.atime,
            ) + " ctime:"@ + time_text(node.ctime)
            &&& node.xattrs_hash != 0 && keys.len() > 0 ==> lines[2 + flags] == "     xattrs: "@
                + joined(keys, ", "@)
            &&& node.xattrs_hash != 0 && keys.len() == 0 ==> lines[2 + flags]
                == "     xattrs_hash: "@ + zero_padded(digits(node.xattrs_hash as nat, 16), 16)
        }),
{
}

/// A row is named by the last part of its path, except the directory itself and
/// the one above it.
pub proof fn law_rows_are_named(diff: DiffNode, dir: PathKey)
    ensures
        ({
            let k = diff.path.key();
            let icon = if diff.is_dir {
                "\u{1f4c1} "@
            } else {
                "\u{1f4c4} "@
            };
            let mark = status_mark(diff.status);
            &&& k == dir ==> row_text(diff, dir, false) == icon + "."@ + mark
            &&& k != dir && dir.len() > 0 && dir.last() != seq![47u8] && k == dir.drop_last()
                ==> row_text(diff, dir, false) == icon + ".."@ + mark
            &&& k.len() == dir.len() + 1 && component_rank(k.last()) == 3 ==> row_text(
                diff,
                dir,
                false,
            ) == icon + lossy_utf8(k.last()) + mark
        }),
{
    let k = diff.path.key();
    let icon = if diff.is_dir {
        "\u{1f4c1} "@
    } else {
        "\u{1f4c4} "@
    };
    let name = row_name(diff.path@, k, dir);
    let plain = icon + name + status_mark(diff.status);
    assert(plain + text_if(false, " \u{26a1}"@) =~= plain);
}

/// The title names the directory, and says of the topmost one that it is; it
/// counts the entries. That of a live view says that it monitors where an entry
/// has a time of change, that it waits where none has, and how far back a change
/// counts as recent.
pub proof fn law_title_tells_whether_anything_changed(app: App, items: Seq<DiffNode>)
    ensures
        any_change(items) <==> !forall|i: int|
            0 <= i < items.len() ==> (#[trigger] items[i]).change_time is None,
        ({
            let name = lossy_utf8(app.current_dir@);
            let counted = " | "@ + decimal(items.len() as int) + " items | "@;
            let start = if app.current_dir.key() == app.old_snapshot.root.key() {
                "\u{1f4c2} "@ + (name + " (root)"@) + counted
            } else {
                "\u{1f4c2} "@ + name + counted
            };
            &&& !app.live_mode ==> title_text(app, items) == start
                + "[\u{21b5}]enter [\u{2190}/backspace]up [h]ash [l]og [u]nchanged [q/^C]uit"@
            &&& app.live_mode ==> title_text(app, items) == start + "LIVE \u{26a1} "@ + (
            if any_change(items) {
                "monitoring"@
            } else {
                "waiting"@
            }) + " | [t]ime:"@ + window_text(app.time_window)
                + " [\u{21b5}]enter [\u{2190}/backspace]up [s]ave [h]ash [l]og [u]nchanged [q/^C]uit"@
        }),
{
    let name = if app.current_dir.key() == app.old_snapshot.root.key() {
        lossy_utf8(app.current_dir@) + " (root)"@
    } else {
        lossy_utf8(app.current_dir@)
    };
    let number = decimal(items.len() as int);
    assert("\u{1f4c2} "@ + name + " | "@ + number + " items | "@ =~= "\u{1f4c2} "@ + name + (
    " | "@ + number + " items | "@));
}

/// A checksum is shown under the name of the chosen entry.
pub proof fn law_checksum_is_shown_by_name(app: App, items: Seq<DiffNode>)
    ensures
        app.selected >= items.len() ==> popup_name(app, items) == "unknown"@,
        app.selected < items.len() && items[app.selected as int].path.key().len() > 0
            && component_rank(items[app.selected as int].path.key().last()) == 3 ==> popup_name(
            app,
            items,
        ) == lossy_utf8(items[app.selected as int].path.key().last()),
{
}

/// What is kept and said of a checksum: the checksum itself, or why there is
/// none.
pub proof fn law_failed_checksums_say_why(path: Seq<u8>, outcome: Result<String, String>)
    ensures
        outcome is Ok ==> hash_text(outcome) == outcome->Ok_0@ && hash_message(path, outcome)
            == "SHA-256 computed: "@ + lossy_utf8(path) + " = "@ + outcome->Ok_0@,
        outcome is Err ==> hash_text(outcome) == "Error: "@ + outcome->Err_0@ && hash_message(
            path,
            outcome,
        ) == "SHA-256 error for "@ + lossy_utf8(path) + ": "@ + outcome->Err_0@,
{
}

/// A warning about used up watches says how many are used and may be, and how
/// many directories are watched, and is longer where nothing else finds changes.
pub proof fn law_warning_tells_the_numbers(used: usize, budget: usize, dirs: usize)
    ensures
        budget_texts(used, budget, dirs, true).len() == 5,
        budget_texts(used, budget, dirs, false).len() == 3,
        budget_texts(used, budget, dirs, true)[1] == "Only "@ + decimal(dirs as int)
            + " directories are being watched"@,
        budget_texts(used, budget, dirs, false).take(2) == budget_texts(
            used,
            budget,
            dirs,
            true,
        ).take(2),
        budget_texts(used, budget, dirs, true)[0]
            == "\u{26a0}\u{fe0f}  WARNING: inotify/FSEvents watch budget exceeded! ("@ + decimal(
            used as int,
        ) + "/"@ + decimal(budget as int) + " watches used)"@,
{
}

/// What is told at the start: each limit, the budget and the largest size, each
/// in its line.
pub proof fn law_start_tells_each_limit(
    limits: InotifyLimits,
    watch_budget: usize,
    max_size_mb: u64,
)
    ensures
        ({
            let lines = startup_lines(limits, watch_budget, max_size_mb);
            &&& lines.len() == 7
            &&& lines[2] == "  max_user_watches: "@ + decimal(limits.max_user_watches as int) + ""@
            &&& lines[3] == "  max_user_instances: "@ + decimal(limits.max_user_instances as int)
                + ""@
            &&& lines[4] == "  max_queued_events: "@ + decimal(limits.max_queued_events as int)
                + ""@
            &&& lines[5] == "  Using 70% budget: "@ + decimal(watch_budget as int) + " watches"@
            &&& lines[6] == "  Max file size: "@ + decimal(max_size_mb as int) + " MB"@
        }),
{
}

/// The bar of a progress line is always as wide, filled by the part that is
/// done, and followed by the percentage.
pub proof fn law_bar_is_filled_by_what_is_done(current: nat, total: nat)
    requires
        0 < total,
        current <= total,
    ensures
        exists|bar: Seq<char>|
            #![trigger bar.len()]
            {
                &&& bar.len() == 50
                &&& progress_line(current, total) == "Progress: ["@ + bar + "] "@ + decimal(
                    (current * 100 / total) as int,
                ) + "%"@
                &&& forall|i: int|
                    0 <= i < 50 ==> bar[i] == (if i < current * 50 / total {
                        '\u{2588}'
                    } else {
                        '\u{2591}'
                    })
            },
{
    law_shares_grow_to_the_whole(current, total, total, 50);
    let filled = share(current, total, 50);
    let bar = Seq::new(filled, |i: int| '\u{2588}') + Seq::new(
        (50 - filled) as nat,
        |i: int| '\u{2591}',
    );
    assert(bar.len() == 50);
    assert(progress_line(current, total) =~= "Progress: ["@ + bar + "] "@ + decimal(
        share(current, total, 100) as int,
    ) + "%"@);
}

/// Times from the first to the last year that can be written are written as
/// dates, all others as seconds.
pub proof fn law_times_are_written_as_dates(seconds: i64)
    ensures
        -377705023201 <= seconds <= 253402207200 ==> time_text(seconds) == strftime_text(
            seconds,
            "%Y-%m-%d %H:%M:%S"@,
        ),
        !(-377705023201 <= seconds <= 253402207200) ==> time_text(seconds) == decimal(
            seconds as int,
        ),
{
}

/// What is wrong with an invocation is said in its own words.
pub proof fn law_misuse_says_what_is_missing()
    ensures
        misuse_text(Misuse::FirstSnapshotMissing) == "Must provide snapshot1 or --live"@,
        misuse_text(Misuse::SecondSnapshotMissing) == "Must provide snapshot2 or --live"@,
{
}

} // verus!
