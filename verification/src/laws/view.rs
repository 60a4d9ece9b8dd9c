//! What the interactive view shows, field by field.
use vstd::prelude::*;
use vstd::utf8::encode_utf8;
use crate::browse::{
    entry_at, entry_key, is_listing, is_view, known, lists_key, nav_entries, shown, Entry, Sources,
};
use crate::diff::{named_if, DiffNode, DiffStatus};
use crate::display::{
    bsd_flag_names, flag_names, mode_text, recent, row_text, status_mark, system_flag_names,
    text_if, tone_of, System, Tone,
};
use crate::explorer::{
    app_sources, first_colon, inside, is_start, key_pressed, next_window, path_part, stepped_down,
    stepped_up, went_into, went_up, Action, App, Key, KeyPress,
};
use crate::laws::differences::lemma_named;
use crate::monitor::Monitor;
use crate::panels::window_text;
use crate::path::{component_rank, components, is_child, FilePath, PathKey};
use crate::path_map::items_map;
use crate::progress::steps_for;
use crate::snapshot::{LogEntry, Snapshot};
use crate::text::{decimal, digits, trimmed};

verus! {

/// A line of a directory says exactly what became of its path: it is new; its
/// contents differ; its contents are the same and mode, user, group, links,
/// extended attributes or flags differ; all of these are the same; or it is not
/// there any more.
pub proof fn law_lines_tell_what_differs(
    list: Seq<Entry>,
    s: Sources,
    dir: PathKey,
    show_unchanged: bool,
    i: int,
)
    requires
        is_listing(list, s, dir, show_unchanged),
        0 <= i < list.len(),
    ensures
        ({
            let k = components(list[i].0);
            let x = s.older[k].1;
            let y = s.current[k].1;
            let status = list[i].1;
            let same_metadata = x.mode == y.mode && x.uid == y.uid && x.gid == y.gid && x.nlink
                == y.nlink && x.xattrs_hash == y.xattrs_hash && x.flags == y.flags;
            &&& status == DiffStatus::Removed <==> !s.current.contains_key(k)
            &&& s.current.contains_key(k) ==> {
                &&& status == DiffStatus::Added <==> !s.older.contains_key(k)
                &&& list[i].3 == Some(y)
                &&& list[i].4 == y.is_dir
                &&& list[i].0 == s.current[k].0
            }
            &&& s.current.contains_key(k) && s.older.contains_key(k) ==> {
                &&& status == DiffStatus::Modified <==> x.hash != y.hash
                &&& status == DiffStatus::PermChanged <==> x.hash == y.hash && !same_metadata
                &&& status == DiffStatus::Unchanged <==> x.hash == y.hash && same_metadata
            }
            &&& s.older.contains_key(k) <==> list[i].2 is Some
            &&& s.older.contains_key(k) ==> list[i].2 == Some(x)
            &&& !s.current.contains_key(k) ==> list[i].3 is None
            &&& !s.current.contains_key(k) && s.older.contains_key(k) ==> list[i].4 == x.is_dir
            &&& status != DiffStatus::Unchanged && s.times is Some && s.times->0.contains_key(k)
                ==> list[i].5 == Some(s.times->0[k].1)
            &&& s.times is None || !s.times->0.contains_key(k) ==> list[i].5 is None
        }),
{
    let k = entry_key(list[i]);
    assert(list[i] == entry_at(s, k));
}

/// A path directly in a directory has its line where it is there, was there, or
/// was seen to change, unless unchanged entries are hidden and it is the same as
/// it was: then checksum, mode, user, group, links, extended attributes and
/// flags are equal.
pub proof fn law_what_is_hidden_is_the_same(
    list: Seq<Entry>,
    s: Sources,
    dir: Seq<u8>,
    root: PathKey,
    show_unchanged: bool,
    k: PathKey,
)
    requires
        is_view(list, s, dir, root, show_unchanged),
        k.len() > 0,
        k.last() != seq![47u8],
        k.drop_last() == components(dir),
        s.current.contains_key(k) || s.older.contains_key(k) || (s.times is Some
            && s.times->0.contains_key(k)),
        forall|i: int|
            nav_entries(s, dir, root).len() <= i < list.len() ==> components(#[trigger] list[i].0)
                != k,
    ensures
        !show_unchanged,
        s.current.contains_key(k),
        s.older.contains_key(k),
        s.older[k].1.hash == s.current[k].1.hash,
        s.older[k].1.mode == s.current[k].1.mode,
        s.older[k].1.uid == s.current[k].1.uid,
        s.older[k].1.gid == s.current[k].1.gid,
        s.older[k].1.nlink == s.current[k].1.nlink,
        s.older[k].1.xattrs_hash == s.current[k].1.xattrs_hash,
        s.older[k].1.flags == s.current[k].1.flags,
{
    let n = nav_entries(s, dir, root).len() as int;
    let rest = list.skip(n);
    assert(is_child(k, components(dir)));
    assert(known(s, k));
    if lists_key(rest, k) {
        let i = choose|i: int| 0 <= i < rest.len() && entry_key(#[trigger] rest[i]) == k;
        assert(list[n + i] == rest[i]);
        assert(components(list[n + i].0) == k);
    }
    assert(!shown(entry_at(s, k), show_unchanged));
}

/// While unchanged entries are hidden no line tells of an unchanged one.
pub proof fn law_hidden_entries_have_no_line(
    list: Seq<Entry>,
    s: Sources,
    dir: PathKey,
    i: int,
)
    requires
        is_listing(list, s, dir, false),
        0 <= i < list.len(),
    ensures
        list[i].1 != DiffStatus::Unchanged,
{
}

/// Directories come before everything else.
pub proof fn law_directories_come_first(
    list: Seq<Entry>,
    s: Sources,
    dir: PathKey,
    show_unchanged: bool,
    i: int,
    j: int,
)
    requires
        is_listing(list, s, dir, show_unchanged),
        0 <= i < list.len(),
        0 <= j < list.len(),
        list[i].4,
        !list[j].4,
    ensures
        i < j,
{
    if j < i {
        assert(crate::browse::entry_lt(list[j], list[i]));
    }
}

/// The first line is the directory itself, with its older and its current node;
/// the second is the one above where that lies at or below the topmost one.
pub proof fn law_first_lines_lead_around(
    list: Seq<Entry>,
    s: Sources,
    dir: Seq<u8>,
    root: PathKey,
    show_unchanged: bool,
)
    requires
        is_view(list, s, dir, root, show_unchanged),
    ensures
        ({
            let k = components(dir);
            let up = k.drop_last();
            &&& list.len() > 0
            &&& list[0].0 == dir
            &&& list[0].1 == DiffStatus::Unchanged
            &&& list[0].4
            &&& list[0].5 is None
            &&& list[0].2 is Some <==> s.older.contains_key(k)
            &&& s.older.contains_key(k) ==> list[0].2 == Some(s.older[k].1)
            &&& list[0].3 is Some <==> s.current.contains_key(k)
            &&& s.current.contains_key(k) ==> list[0].3 == Some(s.current[k].1)
            &&& k.len() > 0 && k.last() != seq![47u8] && root.is_prefix_of(up) ==> {
                &&& list.len() > 1
                &&& components(list[1].0) == up
                &&& list[1].4
                &&& list[1].1 == DiffStatus::Unchanged
            }
        }),
{
    let nav = nav_entries(s, dir, root);
    let n = nav.len() as int;
    assert(list.take(n)[0] == nav[0]);
    if n == 2 {
        assert(list.take(n)[1] == nav[1]);
    }
}

/// Steps up and down stay on the list and go as far as they say.
pub proof fn law_steps_stay_on_the_list(at: usize, step: usize, total: usize)
    requires
        total > 0,
        at < total,
    ensures
        stepped_down(at, step, total) < total,
        at + step < total ==> stepped_down(at, step, total) == at + step,
        at + step >= total ==> stepped_down(at, step, total) == total - 1,
        stepped_up(at, step) <= at,
        at >= step ==> stepped_up(at, step) == at - step,
        at < step ==> stepped_up(at, step) == 0,
{
}

/// What the keys of the view do, each by its name. Nothing but the quit keys
/// ends the program, and nothing but the hash key asks for a checksum.
pub proof fn law_keys_do_what_they_say(
    before: App,
    key: KeyPress,
    seen: usize,
    items: Seq<DiffNode>,
    log: Seq<LogEntry>,
    action: Action,
    after: App,
)
    requires
        key_pressed(before, key, seen, items, log, action, after),
        !before.show_hash_popup,
        !before.show_save_popup,
        !before.show_log,
    ensures
        action is Quit <==> key.key == Key::Char('q') || (key.key == Key::Char('c') && key.control),
        after.old_snapshot == before.old_snapshot,
        after.new_snapshot == before.new_snapshot,
        after.navigation_root == before.navigation_root,
        after.live_mode == before.live_mode,
        key.key == Key::Char('u') || key.key == Key::Char('U') ==> after.show_unchanged
            == !before.show_unchanged && after.selected == 0,
        !(key.key == Key::Char('u') || key.key == Key::Char('U')) ==> after.show_unchanged
            == before.show_unchanged,
        (key.key == Key::Char('t') || key.key == Key::Char('T')) ==> after.time_window
            == next_window(before.time_window),
        !(key.key == Key::Char('t') || key.key == Key::Char('T')) ==> after.time_window
            == before.time_window,
        after.show_log <==> key.key == Key::Char('l') || key.key == Key::Char('L'),
        (key.key == Key::Char('s') || key.key == Key::Char('S')) && before.live_mode <==> action
            is AskFilename,
        action is Hash ==> key.key == Key::Char('h') || key.key == Key::Char('H'),
        (key.key == Key::Char('h') || key.key == Key::Char('H')) && before.selected < items.len()
            && !items[before.selected as int].is_dir ==> action is Hash && action->Hash_0@
            == items[before.selected as int].path@,
        (key.key == Key::Enter || key.key == Key::Right) && before.selected < items.len()
            && items[before.selected as int].is_dir ==> after.current_dir@
            == items[before.selected as int].path@ && after.selected == 0,
        (key.key == Key::Backspace || key.key == Key::Left) && before.current_dir.key()
            != before.navigation_root.key() && before.current_dir.key().len() > 0
            && before.current_dir.key().last() != seq![47u8] ==> after.current_dir.key()
            == before.current_dir.key().drop_last() && after.selected == 0,
        !(key.key == Key::Enter || key.key == Key::Right || key.key == Key::Backspace || key.key
            == Key::Left) ==> after.current_dir == before.current_dir,
        action is Save ==> false,
{
}

/// A typed name is changed by its keys alone, and Enter saves to it as it
/// stands.
pub proof fn law_typing_changes_the_name(
    before: App,
    key: KeyPress,
    seen: usize,
    items: Seq<DiffNode>,
    log: Seq<LogEntry>,
    action: Action,
    after: App,
)
    requires
        key_pressed(before, key, seen, items, log, action, after),
        !before.show_hash_popup,
        before.show_save_popup,
    ensures
        action is Save <==> key.key == Key::Enter,
        action is Save ==> action->Save_0@ == before.save_filename@,
        !(action is Save) ==> action is Stay,
        after.show_save_popup <==> key.key != Key::Enter && key.key != Key::Esc,
        key.key is Char ==> after.save_filename@ == before.save_filename@.push(key.key->Char_0),
        key.key == Key::Backspace && before.save_filename@.len() > 0 ==> after.save_filename@
            == before.save_filename@.drop_last(),
        key.key == Key::Esc ==> after.save_filename@.len() == 0,
        after.current_dir == before.current_dir,
        after.selected == before.selected,
{
}

/// In the log the keys move on the log, and Enter goes to the directory above
/// the path that the chosen message tells of, where that is inside.
pub proof fn law_log_keys_stay_in_the_log(
    before: App,
    key: KeyPress,
    seen: usize,
    items: Seq<DiffNode>,
    log: Seq<LogEntry>,
    action: Action,
    after: App,
)
    requires
        key_pressed(before, key, seen, items, log, action, after),
        !before.show_hash_popup,
        !before.show_save_popup,
        before.show_log,
        log.len() <= usize::MAX,
    ensures
        action is Quit <==> key.key == Key::Char('q') || (key.key == Key::Char('c') && key.control),
        !(action is Quit) ==> action is Stay,
        key.key != Key::Enter ==> after.current_dir == before.current_dir && after.selected
            == before.selected,
        key.key == Key::Down || key.key == Key::Char('j') ==> after.log_selected == if log.len() == 0 {
            0
        } else if before.log_selected + 1 < log.len() {
            before.log_selected + 1
        } else {
            log.len() - 1
        },
        key.key == Key::Up || key.key == Key::Char('k') ==> after.log_selected
            == if before.log_selected == 0 {
            0
        } else {
            before.log_selected - 1
        },
        key.key == Key::Char('l') || key.key == Key::Char('L') ==> !after.show_log
            && after.log_selected == 0,
        after.show_unchanged == before.show_unchanged,
        after.current_dir != before.current_dir ==> before.navigation_root.key().is_prefix_of(
            after.current_dir.key(),
        ) && !after.show_log,
{
}

/// What a log message points to is what stands behind its first colon.
pub proof fn law_path_stands_behind_the_first_colon(label: Seq<char>, rest: Seq<char>)
    requires
        forall|i: int| 0 <= i < label.len() ==> label[i] != ':',
    ensures
        path_part(label.push(':') + rest) == trimmed(rest),
        first_colon(label) is None,
    decreases label.len(),
{
    let all = label.push(':') + rest;
    lemma_colon(label, rest);
    assert(all.skip(label.len() as int + 1) =~= rest);
}

proof fn lemma_colon(label: Seq<char>, rest: Seq<char>)
    requires
        forall|i: int| 0 <= i < label.len() ==> label[i] != ':',
    ensures
        first_colon(label.push(':') + rest) == Some(label.len() as int),
        first_colon(label) is None,
    decreases label.len(),
{
    let all = label.push(':') + rest;
    if label.len() == 0 {
        assert(all[0] == ':');
    } else {
        let less = label.drop_first();
        assert forall|i: int| 0 <= i < less.len() implies less[i] != ':' by {
            assert(less[i] == label[i + 1]);
        }
        lemma_colon(less, rest);
        assert(all.drop_first() =~= less.push(':') + rest);
        assert(all[0] == label[0]);
    }
}

/// A change is recent for as long as the window says after it was seen, and for
/// ever where the window is zero.
pub proof fn law_recent_is_within_the_window(change_time: i64, now: i64, window: i64)
    ensures
        !recent(None, now, window),
        window != 0 ==> (recent(Some(change_time), now, window) <==> now - change_time <= window),
        recent(Some(change_time), now, 0),
{
}

/// The permission bits are written in octal, and each special bit has its
/// letter.
pub proof fn law_mode_shows_its_bits(mode: u32)
    ensures
        mode & 0o7000 == 0 ==> mode_text(mode) == digits((mode & 0o777) as nat, 8),
        mode & 0o7000 == 0o4000 ==> mode_text(mode) == digits((mode & 0o777) as nat, 8) + "s"@,
        mode & 0o7000 == 0o2000 ==> mode_text(mode) == digits((mode & 0o777) as nat, 8) + "g"@,
        mode & 0o7000 == 0o1000 ==> mode_text(mode) == digits((mode & 0o777) as nat, 8) + "t"@,
        mode & 0o7000 == 0o6000 ==> mode_text(mode) == digits((mode & 0o777) as nat, 8) + "s"@
            + "g"@,
        mode & 0o7000 == 0o7000 ==> mode_text(mode) == digits((mode & 0o777) as nat, 8) + "s"@
            + "g"@ + "t"@,
{
    assert(mode & 0o7000 == 0 ==> mode & 0o4000 == 0 && mode & 0o2000 == 0 && mode & 0o1000 == 0)
        by (bit_vector);
    assert(mode & 0o7000 == 0o4000 ==> mode & 0o4000 != 0 && mode & 0o2000 == 0 && mode & 0o1000
        == 0) by (bit_vector);
    assert(mode & 0o7000 == 0o2000 ==> mode & 0o4000 == 0 && mode & 0o2000 != 0 && mode & 0o1000
        == 0) by (bit_vector);
    assert(mode & 0o7000 == 0o1000 ==> mode & 0o4000 == 0 && mode & 0o2000 == 0 && mode & 0o1000
        != 0) by (bit_vector);
    assert(mode & 0o7000 == 0o6000 ==> mode & 0o4000 != 0 && mode & 0o2000 != 0 && mode & 0o1000
        == 0) by (bit_vector);
    assert(mode & 0o7000 == 0o7000 ==> mode & 0o4000 != 0 && mode & 0o2000 != 0 && mode & 0o1000
        != 0) by (bit_vector);
    let start = digits((mode & 0o777) as nat, 8);
    assert(start + Seq::<char>::empty() =~= start);
    assert(start + "s"@ + Seq::<char>::empty() =~= start + "s"@);
    assert(start + "g"@ + Seq::<char>::empty() =~= start + "g"@);
    assert(start + "s"@ + "g"@ + Seq::<char>::empty() =~= start + "s"@ + "g"@);
}

/// Each file attribute is named where its bit is set and only there.
pub proof fn law_flags_are_named_by_their_bits(flags: u32)
    ensures
        flag_names(flags).contains("immutable"@) <==> flags & 0x10 != 0,
        flag_names(flags).contains("append"@) <==> flags & 0x20 != 0,
        flag_names(flags).contains("nodump"@) <==> flags & 0x40 != 0,
        flag_names(flags).contains("noatime"@) <==> flags & 0x80 != 0,
        flag_names(flags).contains("compr"@) <==> flags & 0x1000 != 0,
        flag_names(flags).contains("sync"@) <==> flags & 0x8000 != 0,
        flag_names(flags).contains("nocomp"@) <==> flags & 0x10000 != 0,
        flag_names(flags).contains("encrypt"@) <==> flags & 0x40000 != 0,
{
    lemma_flag_words_differ();
    let p0 = Seq::<Seq<char>>::empty();
    let p1 = p0 + named_if(flags & 0x00000010 != 0, "immutable"@);
    let p2 = p1 + named_if(flags & 0x00000020 != 0, "append"@);
    let p3 = p2 + named_if(flags & 0x00000040 != 0, "nodump"@);
    let p4 = p3 + named_if(flags & 0x00000080 != 0, "noatime"@);
    let p5 = p4 + named_if(flags & 0x00001000 != 0, "compr"@);
    let p6 = p5 + named_if(flags & 0x00008000 != 0, "sync"@);
    let p7 = p6 + named_if(flags & 0x00010000 != 0, "nocomp"@);
    let p8 = p7 + named_if(flags & 0x00040000 != 0, "encrypt"@);
    lemma_named(p0, flags & 0x00000010 != 0, "immutable"@);
    lemma_named(p1, flags & 0x00000020 != 0, "append"@);
    lemma_named(p2, flags & 0x00000040 != 0, "nodump"@);
    lemma_named(p3, flags & 0x00000080 != 0, "noatime"@);
    lemma_named(p4, flags & 0x00001000 != 0, "compr"@);
    lemma_named(p5, flags & 0x00008000 != 0, "sync"@);
    lemma_named(p6, flags & 0x00010000 != 0, "nocomp"@);
    lemma_named(p7, flags & 0x00040000 != 0, "encrypt"@);
    assert(p1 =~= named_if(flags & 0x00000010 != 0, "immutable"@));
    assert(p8 == flag_names(flags));
}

proof fn lemma_flag_words_differ()
    ensures
        "immutable"@ != "append"@ && "immutable"@ != "nodump"@ && "immutable"@ != "noatime"@,
        "immutable"@ != "compr"@ && "immutable"@ != "sync"@ && "immutable"@ != "nocomp"@,
        "immutable"@ != "encrypt"@ && "append"@ != "nodump"@ && "append"@ != "noatime"@,
        "append"@ != "compr"@ && "append"@ != "sync"@ && "append"@ != "nocomp"@,
        "append"@ != "encrypt"@ && "nodump"@ != "noatime"@ && "nodump"@ != "compr"@,
        "nodump"@ != "sync"@ && "nodump"@ != "nocomp"@ && "nodump"@ != "encrypt"@,
        "noatime"@ != "compr"@ && "noatime"@ != "sync"@ && "noatime"@ != "nocomp"@,
        "noatime"@ != "encrypt"@ && "compr"@ != "sync"@ && "compr"@ != "nocomp"@,
        "compr"@ != "encrypt"@ && "sync"@ != "nocomp"@ && "sync"@ != "encrypt"@,
        "nocomp"@ != "encrypt"@,
{
    reveal_strlit("immutable");
    reveal_strlit("append");
    reveal_strlit("nodump");
    reveal_strlit("noatime");
    reveal_strlit("compr");
    reveal_strlit("sync");
    reveal_strlit("nocomp");
    reveal_strlit("encrypt");
    assert("immutable"@[0] == 'i' && "append"@[0] == 'a' && "nodump"@[0] == 'n');
    assert("noatime"@[0] == 'n' && "compr"@[0] == 'c' && "sync"@[0] == 's');
    assert("nocomp"@[0] == 'n' && "encrypt"@[0] == 'e');
    assert("nodump"@[2] == 'd' && "noatime"@[2] == 'a' && "nocomp"@[2] == 'c');
}

/// A line of the view is marked by its status, and a recent change by a flash.
pub proof fn law_rows_are_marked(diff: DiffNode, dir: PathKey)
    ensures
        status_mark(DiffStatus::Added) == " [+]"@,
        status_mark(DiffStatus::Removed) == " [-]"@,
        status_mark(DiffStatus::Modified) == " [~]"@,
        status_mark(DiffStatus::PermChanged) == " [p]"@,
        status_mark(DiffStatus::Unchanged) == ""@,
        diff.status != DiffStatus::Unchanged ==> row_text(diff, dir, true) == row_text(
            diff,
            dir,
            false,
        ) + " \u{26a1}"@,
        diff.status == DiffStatus::Unchanged ==> row_text(diff, dir, true) == row_text(
            diff,
            dir,
            false,
        ),
{
    let plain = row_text(diff, dir, false);
    assert(row_text(diff, dir, true) =~= plain + text_if(
        diff.status != DiffStatus::Unchanged,
        " \u{26a1}"@,
    ));
    assert(plain + Seq::<char>::empty() =~= plain);
}

/// An entry of both snapshots that gained or lost the right to run as its owner
/// or its group stands out, whatever else became of it.
pub proof fn law_gained_rights_stand_out(diff: DiffNode, is_recent: bool)
    requires
        diff.old_node is Some,
        diff.new_node is Some,
    ensures
        tone_of(diff, is_recent) == Tone::Alarm <==> ((diff.old_node->0.mode & 0o4000 != 0) != (
        diff.new_node->0.mode & 0o4000 != 0)) || ((diff.old_node->0.mode & 0o2000 != 0) != (
        diff.new_node->0.mode & 0o2000 != 0)),
{
}

/// What a view is made from: the nodes that the monitor holds now where there is
/// one, and those of the newer snapshot where there is none, against those of
/// the older snapshot.
pub proof fn law_view_is_of_what_is_there_now(app: App, monitor: Option<&Monitor>)
    ensures
        app_sources(app, monitor).older == app.old_snapshot.nodes@,
        monitor is None ==> app_sources(app, monitor).current == app.new_snapshot.nodes@
            && app_sources(app, monitor).times is None,
        monitor is Some ==> app_sources(app, monitor).current == items_map(monitor->0.nodes())
            && app_sources(app, monitor).times == Some(monitor->0.times()),
{
}

/// The percentages that are told never fall, and end at a hundred.
pub proof fn law_progress_never_falls(dirs: nat, i: int, j: int)
    requires
        dirs <= usize::MAX,
        0 <= i <= j < steps_for(dirs).len(),
    ensures
        steps_for(dirs).len() == dirs + 3,
        80 <= steps_for(dirs)[i] <= steps_for(dirs)[j] <= 100,
        steps_for(dirs)[0] == 80,
        steps_for(dirs).last() == 100,
{
    let steps = steps_for(dirs);
    lemma_step(dirs, i);
    lemma_step(dirs, j);
    if 1 <= i <= j <= dirs {
        assert(i * 15 <= j * 15);
        vstd::arithmetic::div_mod::lemma_div_is_ordered(i * 15, j * 15, dirs as int);
    }
}

proof fn lemma_step(dirs: nat, i: int)
    requires
        0 <= i < steps_for(dirs).len(),
    ensures
        1 <= i <= dirs ==> steps_for(dirs)[i] == 80 + i * 15 / (dirs as int) && steps_for(dirs)[i]
            <= 95,
        80 <= steps_for(dirs)[i] <= 100,
{
    if 1 <= i <= dirs {
        assert(0 <= i * 15 / (dirs as int) <= 15) by (nonlinear_arith)
            requires
                1 <= i <= dirs,
        ;
    }
}

/// A window below a minute is written in seconds, any other in minutes.
pub proof fn law_windows_are_written_in_their_unit(window: i64)
    ensures
        0 < window < 60 ==> window_text(window) == decimal(window as int) + "s"@,
        window >= 60 ==> window_text(window) == decimal(window as int / 60) + "m"@,
        window_text(0) == "all"@,
{
}

/// Only a change has a time.
pub proof fn law_what_is_the_same_has_no_time(
    list: Seq<Entry>,
    s: Sources,
    dir: PathKey,
    show_unchanged: bool,
    i: int,
)
    requires
        is_listing(list, s, dir, show_unchanged),
        0 <= i < list.len(),
        list[i].1 == DiffStatus::Unchanged,
    ensures
        list[i].5 is None,
{
    assert(list[i] == entry_at(s, entry_key(list[i])));
}

/// Among directories, and among everything else, names come in the order of
/// their bytes: the first byte that differs decides.
pub proof fn law_names_come_in_order(
    list: Seq<Entry>,
    s: Sources,
    dir: PathKey,
    show_unchanged: bool,
    i: int,
    j: int,
    n: int,
)
    requires
        is_listing(list, s, dir, show_unchanged),
        0 <= i < list.len(),
        0 <= j < list.len(),
        list[i].4 == list[j].4,
        component_rank(components(list[i].0).last()) == 3,
        component_rank(components(list[j].0).last()) == 3,
        0 <= n < components(list[i].0).last().len(),
        n < components(list[j].0).last().len(),
        components(list[i].0).last().take(n) == components(list[j].0).last().take(n),
        components(list[i].0).last()[n] < components(list[j].0).last()[n],
    ensures
        i < j,
{
    let a = components(list[i].0);
    let b = components(list[j].0);
    assert(entry_key(list[i]) == a && entry_key(list[j]) == b);
    assert(is_child(a, dir) && is_child(b, dir));
    crate::order::law_first_byte_that_differs_decides(a.last(), b.last(), n);
    let m = dir.len() as int;
    assert(a.take(m) =~= dir && b.take(m) =~= dir);
    crate::path::lemma_key_lt_skip(b, a, m);
    assert(a.skip(m)[0] == a.last() && b.skip(m)[0] == b.last());
    crate::path::lemma_component_total(a.last(), b.last());
    if j < i {
        assert(crate::browse::entry_lt(list[j], list[i]));
    }
}

/// Steps in the view move the selection and nothing else, and what cannot be
/// entered, left or hashed is left alone.
pub proof fn law_keys_move_the_selection(
    before: App,
    key: KeyPress,
    seen: usize,
    items: Seq<DiffNode>,
    log: Seq<LogEntry>,
    action: Action,
    after: App,
)
    requires
        key_pressed(before, key, seen, items, log, action, after),
        !before.show_hash_popup,
        !before.show_save_popup,
        !before.show_log,
    ensures
        key.key == Key::Down || key.key == Key::Char('j') ==> after.selected == if seen == 0 {
            0
        } else if before.selected + 1 < seen {
            before.selected + 1
        } else {
            seen - 1
        },
        key.key == Key::Up || key.key == Key::Char('k') ==> after.selected == if before.selected
            == 0 {
            0
        } else {
            before.selected - 1
        },
        (key.key == Key::Enter || key.key == Key::Right) && !(before.selected < items.len()
            && items[before.selected as int].is_dir) ==> after == before,
        (key.key == Key::Backspace || key.key == Key::Left) && (before.current_dir.key()
            == before.navigation_root.key() || before.current_dir.key().len() == 0
            || before.current_dir.key().last() == seq![47u8]) ==> after == before,
        action is Hash ==> before.selected < items.len() && !items[before.selected as int].is_dir,
        after.sha256_cache == before.sha256_cache,
        after.save_filename == before.save_filename,
        after.show_hash_popup == before.show_hash_popup,
        after.show_save_popup == before.show_save_popup,
{
}

/// In the log the newest entry stands first. Enter follows the chosen one: to
/// the directory above the path that it tells of, where that is inside. Page
/// keys go by ten.
pub proof fn law_enter_follows_the_log(
    before: App,
    key: KeyPress,
    seen: usize,
    items: Seq<DiffNode>,
    log: Seq<LogEntry>,
    action: Action,
    after: App,
)
    requires
        key_pressed(before, key, seen, items, log, action, after),
        !before.show_hash_popup,
        !before.show_save_popup,
        before.show_log,
        before.log_selected < log.len() <= usize::MAX,
    ensures
        ({
            let message = log[log.len() - 1 - before.log_selected].message@;
            let k = components(encode_utf8(path_part(message)));
            let inside = path_part(message).len() > 0 && k.len() > 0 && k.last() != seq![47u8]
                && before.navigation_root.key().is_prefix_of(k.drop_last());
            &&& key.key == Key::Enter && inside ==> {
                &&& after.current_dir.key() == k.drop_last()
                &&& after.selected == 0
                &&& !after.show_log
                &&& after.log_selected == 0
            }
            &&& key.key == Key::Enter && !inside ==> after == before
        }),
        key.key == Key::PageDown ==> after.log_selected == if before.log_selected + 10
            < log.len() {
            before.log_selected + 10
        } else {
            log.len() - 1
        },
        key.key == Key::PageUp ==> after.log_selected == if before.log_selected < 10 {
            0
        } else {
            before.log_selected - 10
        },
{
}

/// A checksum that is shown is closed by any key, which does nothing else.
pub proof fn law_any_key_closes_the_checksum(
    before: App,
    key: KeyPress,
    seen: usize,
    items: Seq<DiffNode>,
    log: Seq<LogEntry>,
    action: Action,
    after: App,
)
    requires
        key_pressed(before, key, seen, items, log, action, after),
        before.show_hash_popup,
    ensures
        action is Stay,
        !after.show_hash_popup,
        after.current_dir == before.current_dir,
        after.selected == before.selected,
        after.show_log == before.show_log,
        after.show_save_popup == before.show_save_popup,
        after.save_filename == before.save_filename,
        after.time_window == before.time_window,
        after.show_unchanged == before.show_unchanged,
{
}

/// Going into a directory of the list and up again leads back.
pub proof fn law_up_leads_back(
    before: App,
    items: Seq<DiffNode>,
    between: App,
    after: App,
)
    requires
        went_into(before, items, between),
        went_up(between, after),
        before.selected < items.len(),
        items[before.selected as int].is_dir,
        items[before.selected as int].path.key().len() > 0,
        items[before.selected as int].path.key().last() != seq![47u8],
        items[before.selected as int].path.key().drop_last() == before.current_dir.key(),
        before.navigation_root.key().is_prefix_of(before.current_dir.key()),
    ensures
        after.current_dir.key() == before.current_dir.key(),
        after.selected == 0,
{
    let k = items[before.selected as int].path.key();
    assert(k.drop_last().len() < k.len());
}

/// The attributes of BSD files have bits of their own, and each system its own
/// names.
#[verifier::spinoff_prover]
#[verifier::rlimit(40)]
pub proof fn law_bsd_flags_are_named_by_their_bits(flags: u32)
    ensures
        bsd_flag_names(flags).contains("nodump"@) <==> flags & 0x1 != 0,
        bsd_flag_names(flags).contains("immutable"@) <==> flags & 0x2 != 0,
        bsd_flag_names(flags).contains("append"@) <==> flags & 0x4 != 0,
        bsd_flag_names(flags).contains("opaque"@) <==> flags & 0x8 != 0,
        bsd_flag_names(flags).contains("compressed"@) <==> flags & 0x20 != 0,
        bsd_flag_names(flags).contains("tracked"@) <==> flags & 0x40 != 0,
        bsd_flag_names(flags).contains("hidden"@) <==> flags & 0x8000 != 0,
        bsd_flag_names(flags).contains("archived"@) <==> flags & 0x10000 != 0,
        bsd_flag_names(flags).contains("sys-immutable"@) <==> flags & 0x20000 != 0,
        bsd_flag_names(flags).contains("sys-append"@) <==> flags & 0x40000 != 0,
        system_flag_names(System::Linux, flags) == flag_names(flags),
        system_flag_names(System::MacOs, flags) == bsd_flag_names(flags),
        system_flag_names(System::Other, flags).len() == 0,
{
    lemma_bsd_words_differ();
    let p0 = Seq::<Seq<char>>::empty();
    let p1 = p0 + named_if(flags & 0x00000001 != 0, "nodump"@);
    let p2 = p1 + named_if(flags & 0x00000002 != 0, "immutable"@);
    let p3 = p2 + named_if(flags & 0x00000004 != 0, "append"@);
    let p4 = p3 + named_if(flags & 0x00000008 != 0, "opaque"@);
    let p5 = p4 + named_if(flags & 0x00000020 != 0, "compressed"@);
    let p6 = p5 + named_if(flags & 0x00000040 != 0, "tracked"@);
    let p7 = p6 + named_if(flags & 0x00008000 != 0, "hidden"@);
    let p8 = p7 + named_if(flags & 0x00010000 != 0, "archived"@);
    let p9 = p8 + named_if(flags & 0x00020000 != 0, "sys-immutable"@);
    let p10 = p9 + named_if(flags & 0x00040000 != 0, "sys-append"@);
    lemma_named(p0, flags & 0x00000001 != 0, "nodump"@);
    lemma_named(p1, flags & 0x00000002 != 0, "immutable"@);
    lemma_named(p2, flags & 0x00000004 != 0, "append"@);
    lemma_named(p3, flags & 0x00000008 != 0, "opaque"@);
    lemma_named(p4, flags & 0x00000020 != 0, "compressed"@);
    lemma_named(p5, flags & 0x00000040 != 0, "tracked"@);
    lemma_named(p6, flags & 0x00008000 != 0, "hidden"@);
    lemma_named(p7, flags & 0x00010000 != 0, "archived"@);
    lemma_named(p8, flags & 0x00020000 != 0, "sys-immutable"@);
    lemma_named(p9, flags & 0x00040000 != 0, "sys-append"@);
    assert(p1 =~= named_if(flags & 0x00000001 != 0, "nodump"@));
    assert(p10 == bsd_flag_names(flags));
}

proof fn lemma_bsd_words_differ()
    ensures
        "nodump"@ != "immutable"@ && "nodump"@ != "append"@ && "nodump"@ != "opaque"@,
        "nodump"@ != "compressed"@ && "nodump"@ != "tracked"@ && "nodump"@ != "hidden"@,
        "nodump"@ != "archived"@ && "nodump"@ != "sys-immutable"@ && "nodump"@ != "sys-append"@,
        "immutable"@ != "append"@ && "immutable"@ != "opaque"@ && "immutable"@ != "compressed"@,
        "immutable"@ != "tracked"@ && "immutable"@ != "hidden"@ && "immutable"@ != "archived"@,
        "immutable"@ != "sys-immutable"@ && "immutable"@ != "sys-append"@,
        "append"@ != "opaque"@ && "append"@ != "compressed"@ && "append"@ != "tracked"@,
        "append"@ != "hidden"@ && "append"@ != "archived"@ && "append"@ != "sys-immutable"@,
        "append"@ != "sys-append"@ && "opaque"@ != "compressed"@ && "opaque"@ != "tracked"@,
        "opaque"@ != "hidden"@ && "opaque"@ != "archived"@ && "opaque"@ != "sys-immutable"@,
        "opaque"@ != "sys-append"@ && "compressed"@ != "tracked"@ && "compressed"@ != "hidden"@,
        "compressed"@ != "archived"@ && "compressed"@ != "sys-immutable"@,
        "compressed"@ != "sys-append"@ && "tracked"@ != "hidden"@ && "tracked"@ != "archived"@,
        "tracked"@ != "sys-immutable"@ && "tracked"@ != "sys-append"@ && "hidden"@ != "archived"@,
        "hidden"@ != "sys-immutable"@ && "hidden"@ != "sys-append"@,
        "archived"@ != "sys-immutable"@ && "archived"@ != "sys-append"@,
        "sys-immutable"@ != "sys-append"@,
{
    reveal_strlit("nodump");
    reveal_strlit("immutable");
    reveal_strlit("append");
    reveal_strlit("opaque");
    reveal_strlit("compressed");
    reveal_strlit("tracked");
    reveal_strlit("hidden");
    reveal_strlit("archived");
    reveal_strlit("sys-immutable");
    reveal_strlit("sys-append");
    assert("nodump"@[0] == 'n' && "immutable"@[0] == 'i' && "append"@[0] == 'a');
    assert("opaque"@[0] == 'o' && "compressed"@[0] == 'c' && "tracked"@[0] == 't');
    assert("hidden"@[0] == 'h' && "archived"@[0] == 'a' && "append"@[1] == 'p');
    assert("archived"@[1] == 'r' && "sys-immutable"@[0] == 's' && "sys-append"@[0] == 's');
    assert("sys-immutable"@[4] == 'i' && "sys-append"@[4] == 'a');
}

/// The view starts at the root of the older snapshot, with everything shown, and
/// a change counts as recent for half a minute.
pub proof fn law_view_starts_at_the_older_root(
    old_snapshot: Snapshot,
    new_snapshot: Snapshot,
    live_mode: bool,
    navigation_root: FilePath,
    app: App,
)
    requires
        is_start(old_snapshot, new_snapshot, live_mode, navigation_root, app),
    ensures
        app.current_dir@ == old_snapshot.root@,
        app.old_snapshot == old_snapshot,
        app.new_snapshot == new_snapshot,
        app.navigation_root == navigation_root,
        app.live_mode == live_mode,
        app.selected == 0,
        app.show_unchanged,
        app.time_window == 30,
        !app.show_hash_popup && !app.show_log && !app.show_save_popup,
        inside(app) <==> navigation_root.key().is_prefix_of(old_snapshot.root.key()),
{
}

/// An entry is coloured by its status, and a recent change otherwise than an old
/// one, except what is gone and what is the same.
pub proof fn law_entries_are_coloured_by_status(diff: DiffNode, is_recent: bool)
    requires
        diff.old_node is None || diff.new_node is None || diff.old_node->0.mode
            == diff.new_node->0.mode,
    ensures
        tone_of(diff, is_recent) == Tone::Added <==> diff.status == DiffStatus::Added && !is_recent,
        tone_of(diff, is_recent) == Tone::AddedRecent <==> diff.status == DiffStatus::Added
            && is_recent,
        tone_of(diff, is_recent) == Tone::Removed <==> diff.status == DiffStatus::Removed,
        tone_of(diff, is_recent) == Tone::Modified <==> diff.status == DiffStatus::Modified
            && !is_recent,
        tone_of(diff, is_recent) == Tone::ModifiedRecent <==> diff.status == DiffStatus::Modified
            && is_recent,
        tone_of(diff, is_recent) == Tone::PermChanged <==> diff.status == DiffStatus::PermChanged
            && !is_recent,
        tone_of(diff, is_recent) == Tone::PermChangedRecent <==> diff.status
            == DiffStatus::PermChanged && is_recent,
        tone_of(diff, is_recent) == Tone::Plain <==> diff.status == DiffStatus::Unchanged,
{
}

} // verus!
