//! What the view says: modes, flags, times, lines and titles.
use vstd::prelude::*;
use crate::diff::{has_bit, named_if, push_if, DiffNode, DiffStatus, SGID, SUID};
use crate::path::{component_rank, FilePath, PathKey};
use crate::snapshot::LogEntry;
use crate::text::{
    decimal, decimal_text, digit_char, digits, from_utf8_lossy, join_texts, joined, lossy_utf8, number_text,
    padded_hex, text_views, zero_padded,
};

verus! {

/// The mode bit that keeps others from deleting.
pub const STICKY: u32 = 0o1000;

/// A text, or nothing.
pub open spec fn text_if(given: bool, text: Seq<char>) -> Seq<char> {
    if given {
        text
    } else {
        Seq::empty()
    }
}

/// The permission bits in octal, followed by a letter for each special bit.
pub open spec fn mode_text(mode: u32) -> Seq<char> {
    digits((mode & 0o777) as nat, 8) + text_if(mode & SUID != 0, "s"@) + text_if(
        mode & SGID != 0,
        "g"@,
    ) + text_if(mode & STICKY != 0, "t"@)
}

/// Writes a mode.
pub fn format_mode(mode: u32) -> (r: String)
    ensures
        r@ == mode_text(mode),
{
    let mut r = number_text((mode & 0o777) as u64, 8);
    if mode & SUID != 0 {
        r.append("s");
    }
    if mode & SGID != 0 {
        r.append("g");
    }
    if mode & STICKY != 0 {
        r.append("t");
    }
    assert(r@ =~= mode_text(mode));
    r
}

/// The names of the file attributes that are set.
pub open spec fn flag_names(flags: u32) -> Seq<Seq<char>> {
    named_if(flags & 0x00000010 != 0, "immutable"@) + named_if(flags & 0x00000020 != 0, "append"@)
        + named_if(flags & 0x00000040 != 0, "nodump"@) + named_if(
        flags & 0x00000080 != 0,
        "noatime"@,
    ) + named_if(flags & 0x00001000 != 0, "compr"@) + named_if(flags & 0x00008000 != 0, "sync"@)
        + named_if(flags & 0x00010000 != 0, "nocomp"@) + named_if(
        flags & 0x00040000 != 0,
        "encrypt"@,
    )
}

/// The names of the BSD file flags that are set.
pub open spec fn bsd_flag_names(flags: u32) -> Seq<Seq<char>> {
    named_if(flags & 0x00000001 != 0, "nodump"@) + named_if(flags & 0x00000002 != 0, "immutable"@)
        + named_if(flags & 0x00000004 != 0, "append"@) + named_if(
        flags & 0x00000008 != 0,
        "opaque"@,
    ) + named_if(flags & 0x00000020 != 0, "compressed"@) + named_if(
        flags & 0x00000040 != 0,
        "tracked"@,
    ) + named_if(flags & 0x00008000 != 0, "hidden"@) + named_if(
        flags & 0x00010000 != 0,
        "archived"@,
    ) + named_if(flags & 0x00020000 != 0, "sys-immutable"@) + named_if(
        flags & 0x00040000 != 0,
        "sys-append"@,
    )
}

/// Flags in hexadecimal, with the names that are known.
pub open spec fn flags_text(flags: u32, names: Seq<Seq<char>>) -> Seq<char> {
    let number = "0x"@ + zero_padded(digits(flags as nat, 16), 8);
    if names.len() == 0 {
        number
    } else {
        number + " ("@ + joined(names, ", "@) + ")"@
    }
}

fn write_flags(flags: u32, names: &Vec<String>) -> (r: String)
    ensures
        r@ == flags_text(flags, text_views(names@)),
{
    let mut r = String::new();
    r.append("0x");
    r.append(padded_hex(flags as u64, 8).as_str());
    assert(text_views(names@).len() == names@.len());
    if names.len() > 0 {
        r.append(" (");
        r.append(join_texts(names, ", ").as_str());
        r.append(")");
    }
    assert(r@ =~= flags_text(flags, text_views(names@)));
    r
}

/// Writes file attributes.
pub fn format_flags(flags: u32) -> (r: String)
    ensures
        r@ == flags_text(flags, flag_names(flags)),
{
    let mut names: Vec<String> = Vec::new();
    assert(text_views(names@) =~= Seq::empty());
    push_if(&mut names, flags & 0x00000010 != 0, "immutable");
    push_if(&mut names, flags & 0x00000020 != 0, "append");
    push_if(&mut names, flags & 0x00000040 != 0, "nodump");
    push_if(&mut names, flags & 0x00000080 != 0, "noatime");
    push_if(&mut names, flags & 0x00001000 != 0, "compr");
    push_if(&mut names, flags & 0x00008000 != 0, "sync");
    push_if(&mut names, flags & 0x00010000 != 0, "nocomp");
    push_if(&mut names, flags & 0x00040000 != 0, "encrypt");
    assert(text_views(names@) =~= flag_names(flags));
    write_flags(flags, &names)
}

/// Writes BSD file flags.
pub fn format_bsd_flags(flags: u32) -> (r: String)
    ensures
        r@ == flags_text(flags, bsd_flag_names(flags)),
{
    let mut names: Vec<String> = Vec::new();
    assert(text_views(names@) =~= Seq::empty());
    push_if(&mut names, flags & 0x00000001 != 0, "nodump");
    push_if(&mut names, flags & 0x00000002 != 0, "immutable");
    push_if(&mut names, flags & 0x00000004 != 0, "append");
    push_if(&mut names, flags & 0x00000008 != 0, "opaque");
    push_if(&mut names, flags & 0x00000020 != 0, "compressed");
    push_if(&mut names, flags & 0x00000040 != 0, "tracked");
    push_if(&mut names, flags & 0x00008000 != 0, "hidden");
    push_if(&mut names, flags & 0x00010000 != 0, "archived");
    push_if(&mut names, flags & 0x00020000 != 0, "sys-immutable");
    push_if(&mut names, flags & 0x00040000 != 0, "sys-append");
    assert(text_views(names@) =~= bsd_flag_names(flags));
    write_flags(flags, &names)
}

/// Systems that differ in the flags that a file can have.
#[derive(Debug, Clone, Copy, PartialEq, Eq, Structural)]
pub enum System {
    Linux,
    MacOs,
    Other,
}

/// The names of the flags that are set, as far as the system has names.
pub open spec fn system_flag_names(system: System, flags: u32) -> Seq<Seq<char>> {
    match system {
        System::Linux => flag_names(flags),
        System::MacOs => bsd_flag_names(flags),
        System::Other => Seq::empty(),
    }
}

/// Writes flags as they are named on a system.
pub fn format_system_flags(system: System, flags: u32) -> (r: String)
    ensures
        r@ == flags_text(flags, system_flag_names(system, flags)),
{
    match system {
        System::Linux => format_flags(flags),
        System::MacOs => format_bsd_flags(flags),
        System::Other => format_plain_flags(flags),
    }
}

/// Writes flags whose names are not known.
pub fn format_plain_flags(flags: u32) -> (r: String)
    ensures
        r@ == flags_text(flags, Seq::empty()),
{
    let names: Vec<String> = Vec::new();
    assert(text_views(names@) =~= Seq::empty());
    write_flags(flags, &names)
}

/// The text of a time as `jiff::Timestamp::strftime` writes it.
pub uninterp spec fn strftime_text(seconds: i64, format: Seq<char>) -> Seq<char>;

/// Calls `jiff::Timestamp::from_second`, which takes the seconds between the
/// years -9999 and 9999, and `strftime` on the result, which writes the time in
/// UTC. What a format makes of a time is not spelled out.
#[verifier::external_body]
fn strftime(seconds: i64, format: &str) -> (r: Option<String>)
    ensures
        r is Some <==> -377705023201 <= seconds <= 253402207200,
        r matches Some(text) ==> text@ == strftime_text(seconds, format@),
{
    jiff::Timestamp::from_second(seconds).ok().map(|ts| ts.strftime(format).to_string())
}

/// How a time is written: the date and the time of day, or the seconds as they
/// are where no date belongs to them.
pub open spec fn time_text(seconds: i64) -> Seq<char> {
    if -377705023201 <= seconds <= 253402207200 {
        strftime_text(seconds, "%Y-%m-%d %H:%M:%S"@)
    } else {
        decimal(seconds as int)
    }
}

/// Writes a time.
pub fn readable_time(seconds: i64) -> (r: String)
    ensures
        r@ == time_text(seconds),
{
    let date = strftime(seconds, "%Y-%m-%d %H:%M:%S");
    time_or_seconds(date, seconds)
}

/// A date, or the seconds where there is none.
pub fn time_or_seconds(date: Option<String>, seconds: i64) -> (r: String)
    ensures
        r@ == match date {
            Some(text) => text@,
            None => decimal(seconds as int),
        },
{
    match date {
        Some(text) => text,
        None => decimal_text(seconds),
    }
}

/// A line of the log.
pub open spec fn log_text(entry: LogEntry) -> Seq<char> {
    "["@ + time_text(entry.timestamp) + "] "@ + entry.message@
}

/// Writes a line of the log.
pub fn log_line(entry: &LogEntry) -> (r: String)
    ensures
        r@ == log_text(*entry),
{
    let mut r = String::new();
    r.append("[");
    r.append(readable_time(entry.timestamp).as_str());
    r.append("] ");
    r.append(entry.message.as_str());
    assert(r@ =~= log_text(*entry));
    r
}

/// The lines of the log, the latest first.
pub open spec fn log_texts(log: Seq<LogEntry>) -> Seq<Seq<char>> {
    log.reverse().map_values(|e: LogEntry| log_text(e))
}

/// Writes the log, the latest line first.
pub fn log_lines(log: &Vec<LogEntry>) -> (r: Vec<String>)
    ensures
        text_views(r@) == log@.reverse().map_values(|e: LogEntry| log_text(e)),
        text_views(r@) == log_texts(log@),
{
    let ghost lines = log@.reverse().map_values(|e: LogEntry| log_text(e));
    let mut r: Vec<String> = Vec::new();
    let mut i: usize = log.len();
    assert(text_views(r@) =~= lines.take(0));
    while i > 0
        invariant
            i <= log@.len(),
            lines == log@.reverse().map_values(|e: LogEntry| log_text(e)),
            text_views(r@) == lines.take(log@.len() - i),
        decreases i,
    {
        i = i - 1;
        let ghost before = r@;
        let line = log_line(&log[i]);
        r.push(line);
        assert(text_views(r@) =~= text_views(before).push(line@));
        assert(lines[log@.len() - 1 - i] == log_text(log@[i as int]));
        assert(text_views(r@) =~= lines.take(log@.len() - i));
    }
    assert(lines.take(log@.len() as int) =~= lines);
    r
}

/// A change counts as recent: it lies within the window, or the window is
/// without end.
pub open spec fn recent(change_time: Option<i64>, now: i64, window: i64) -> bool {
    change_time is Some && (window == 0 || now - change_time->0 <= window)
}

/// Whether a change counts as recent.
pub fn is_recent(change_time: Option<i64>, now: i64, window: i64) -> (r: bool)
    ensures
        r == recent(change_time, now, window),
{
    match change_time {
        Some(time) => {
            let age: i128 = now as i128 - time as i128;
            window == 0 || age <= window as i128
        },
        None => false,
    }
}

/// The name of a line: the directory itself, the one above it, or the last
/// component of the path.
pub open spec fn row_name(path: Seq<u8>, key: PathKey, dir: PathKey) -> Seq<char> {
    if key == dir {
        "."@
    } else if crate::path::is_child(dir, key) {
        ".."@
    } else if key.len() > 0 && component_rank(key.last()) == 3 {
        lossy_utf8(key.last())
    } else {
        "/"@
    }
}

/// The mark of a status.
pub open spec fn status_mark(status: DiffStatus) -> Seq<char> {
    match status {
        DiffStatus::Added => " [+]"@,
        DiffStatus::Removed => " [-]"@,
        DiffStatus::Modified => " [~]"@,
        DiffStatus::PermChanged => " [p]"@,
        DiffStatus::Unchanged => ""@,
    }
}

/// A line of the view.
pub open spec fn row_text(diff: DiffNode, dir: PathKey, is_recent: bool) -> Seq<char> {
    (if diff.is_dir {
        "\u{1f4c1} "@
    } else {
        "\u{1f4c4} "@
    }) + row_name(diff.path@, diff.path.key(), dir) + status_mark(diff.status) + text_if(
        is_recent && diff.status != DiffStatus::Unchanged,
        " \u{26a1}"@,
    )
}

pub(crate) fn file_label(path: &FilePath, otherwise: &str) -> (r: String)
    ensures
        r@ == if path.key().len() > 0 && component_rank(path.key().last()) == 3 {
            lossy_utf8(path.key().last())
        } else {
            otherwise@
        },
{
    match path.file_name() {
        Some(name) => from_utf8_lossy(name),
        None => otherwise.to_string(),
    }
}

/// Writes a line of the view.
pub fn row(diff: &DiffNode, dir: &FilePath, is_recent: bool) -> (r: String)
    ensures
        r@ == row_text(*diff, dir.key(), is_recent),
{
    let name = if diff.path.same(dir) {
        ".".to_string()
    } else if dir.is_child_of(&diff.path) {
        "..".to_string()
    } else {
        file_label(&diff.path, "/")
    };
    let mut r = String::new();
    if diff.is_dir {
        r.append("\u{1f4c1} ");
    } else {
        r.append("\u{1f4c4} ");
    }
    r.append(name.as_str());
    match diff.status {
        DiffStatus::Added => {
            r.append(" [+]");
        },
        DiffStatus::Removed => {
            r.append(" [-]");
        },
        DiffStatus::Modified => {
            r.append(" [~]");
        },
        DiffStatus::PermChanged => {
            r.append(" [p]");
        },
        DiffStatus::Unchanged => {
            r.append("");
        },
    }
    if is_recent && diff.status != DiffStatus::Unchanged {
        r.append(" \u{26a1}");
    }
    assert(r@ =~= row_text(*diff, dir.key(), is_recent));
    r
}

/// How a line of the view is to look.
#[derive(Debug, Clone, Copy, PartialEq, Eq, Structural)]
pub enum Tone {
    Plain,
    Added,
    AddedRecent,
    Removed,
    Modified,
    ModifiedRecent,
    PermChanged,
    PermChangedRecent,
    /// A program gained or lost the right to run as its owner or group.
    Alarm,
}

/// How a line of the view is to look.
pub open spec fn tone_of(diff: DiffNode, is_recent: bool) -> Tone {
    let both = diff.old_node is Some && diff.new_node is Some;
    if both && (has_bit(diff.old_node->0, SUID) != has_bit(diff.new_node->0, SUID) || has_bit(
        diff.old_node->0,
        SGID,
    ) != has_bit(diff.new_node->0, SGID)) {
        Tone::Alarm
    } else {
        match (diff.status, is_recent) {
            (DiffStatus::Added, false) => Tone::Added,
            (DiffStatus::Added, true) => Tone::AddedRecent,
            (DiffStatus::Removed, _) => Tone::Removed,
            (DiffStatus::Modified, false) => Tone::Modified,
            (DiffStatus::Modified, true) => Tone::ModifiedRecent,
            (DiffStatus::PermChanged, false) => Tone::PermChanged,
            (DiffStatus::PermChanged, true) => Tone::PermChangedRecent,
            (DiffStatus::Unchanged, _) => Tone::Plain,
        }
    }
}

/// Finds out how a line of the view is to look.
pub fn tone(diff: &DiffNode, is_recent: bool) -> (r: Tone)
    ensures
        r == tone_of(*diff, is_recent),
{
    if diff.has_suid_change() || diff.has_sgid_change() {
        return Tone::Alarm;
    }
    match (diff.status, is_recent) {
        (DiffStatus::Added, false) => Tone::Added,
        (DiffStatus::Added, true) => Tone::AddedRecent,
        (DiffStatus::Removed, _) => Tone::Removed,
        (DiffStatus::Modified, false) => Tone::Modified,
        (DiffStatus::Modified, true) => Tone::ModifiedRecent,
        (DiffStatus::PermChanged, false) => Tone::PermChanged,
        (DiffStatus::PermChanged, true) => Tone::PermChangedRecent,
        (DiffStatus::Unchanged, _) => Tone::Plain,
    }
}

proof fn lemma_digit_tells(a: int, b: int)
    requires
        0 <= a < 16,
        0 <= b < 16,
        digit_char(a) == digit_char(b),
    ensures
        a == b,
{
}

/// A number of at most `width` hexadecimal digits, with zeros in front, is its
/// higher part followed by its last digit.
proof fn lemma_padded_step(n: nat, width: nat)
    requires
        width > 1,
    ensures
        zero_padded(digits(n, 16), width) == zero_padded(digits(n / 16, 16), (width - 1) as nat).push(
            digit_char((n % 16) as int),
        ),
{
    let all = zero_padded(digits(n, 16), width);
    let high = zero_padded(digits(n / 16, 16), (width - 1) as nat);
    reveal_with_fuel(digits, 2);
    if n < 16 {
        assert(n / 16 == 0 && n % 16 == n);
        assert(digits(n, 16) =~= seq![digit_char(n as int)]);
        assert(digits(0, 16) =~= seq!['0']);
        assert(all =~= high.push(digit_char(n as int)));
    } else {
        assert(digits(n, 16) =~= digits(n / 16, 16).push(digit_char((n % 16) as int)));
        assert(all =~= high.push(digit_char((n % 16) as int)));
    }
}

/// How many numbers there are of so many hexadecimal digits.
spec fn places(width: nat) -> nat
    decreases width,
{
    if width == 0 {
        1
    } else {
        16 * places((width - 1) as nat)
    }
}

proof fn lemma_padded_tells(a: nat, b: nat, width: nat)
    requires
        width > 0,
        zero_padded(digits(a, 16), width) == zero_padded(digits(b, 16), width),
        a < places(width),
        b < places(width),
    ensures
        a == b,
    decreases width,
{
    reveal_with_fuel(places, 2);
    if width == 1 {
        assert(digits(a, 16) =~= seq![digit_char(a as int)]);
        assert(digits(b, 16) =~= seq![digit_char(b as int)]);
        assert(zero_padded(digits(a, 16), 1)[0] == zero_padded(digits(b, 16), 1)[0]);
        lemma_digit_tells(a as int, b as int);
    } else {
        lemma_padded_step(a, width);
        lemma_padded_step(b, width);
        let x = zero_padded(digits(a / 16, 16), (width - 1) as nat);
        let y = zero_padded(digits(b / 16, 16), (width - 1) as nat);
        let c = digit_char((a % 16) as int);
        let d = digit_char((b % 16) as int);
        assert(x.push(c).drop_last() =~= x);
        assert(y.push(d).drop_last() =~= y);
        assert(x.push(c).last() == c);
        assert(y.push(d).last() == d);
        lemma_digit_tells((a % 16) as int, (b % 16) as int);
        lemma_padded_tells(a / 16, b / 16, (width - 1) as nat);
    }
}

proof fn lemma_padded_len(n: nat, width: nat)
    requires
        width > 0,
        n < places(width),
    ensures
        zero_padded(digits(n, 16), width).len() == width,
    decreases width,
{
    reveal_with_fuel(places, 2);
    if width > 1 {
        lemma_padded_step(n, width);
        lemma_padded_len(n / 16, (width - 1) as nat);
    }
}

/// Different flags are written differently, whatever names go with them.
pub proof fn law_flags_are_told_apart(
    a: u32,
    a_names: Seq<Seq<char>>,
    b: u32,
    b_names: Seq<Seq<char>>,
)
    requires
        flags_text(a, a_names) == flags_text(b, b_names),
    ensures
        a == b,
{
    reveal_strlit("0x");
    reveal_with_fuel(places, 9);
    let x = zero_padded(digits(a as nat, 16), 8);
    let y = zero_padded(digits(b as nat, 16), 8);
    lemma_padded_len(a as nat, 8);
    lemma_padded_len(b as nat, 8);
    assert(flags_text(a, a_names).subrange(2, 10) =~= x);
    assert(flags_text(b, b_names).subrange(2, 10) =~= y);
    lemma_padded_tells(a as nat, b as nat, 8);
}

} // verus!
