//! How far a scan has come.
use vstd::prelude::*;
use crate::text::{decimal, number_text};

verus! {

/// The part of `span` that belongs to `done` of `total` steps, rounded down.
pub open spec fn share(done: nat, total: nat, span: nat) -> nat {
    done * span / (if total == 0 { 1 } else { total })
}

/// Computes a share of a span.
pub(crate) fn compute_share(done: usize, total: usize, span: usize) -> (r: usize)
    requires
        done <= total || total == 0 && done == 0,
    ensures
        r == share(done as nat, total as nat, span as nat),
        r <= span,
{
    let whole: usize = if total == 0 {
        1
    } else {
        total
    };
    proof {
        assert(0 <= done * span <= usize::MAX * usize::MAX) by (nonlinear_arith)
            requires
                done <= usize::MAX,
                span <= usize::MAX,
        ;
        assert(usize::MAX * usize::MAX <= u128::MAX) by (nonlinear_arith)
            requires
                usize::MAX <= u64::MAX,
        ;
        assert(0 <= done * span / (whole as int) <= span) by (nonlinear_arith)
            requires
                0 < whole,
                done <= whole,
        ;
    }
    let product: u128 = done as u128 * span as u128;
    (product / whole as u128) as usize
}

/// The percentage of the scan while files are read: from 10 to 80.
pub fn file_progress(done: usize, total: usize) -> (r: usize)
    requires
        done <= total,
    ensures
        r == 10 + share(done as nat, total as nat, 70),
        10 <= r <= 80,
{
    10 + compute_share(done, total, 70)
}

/// The percentage of the scan while directories are put together: from 80 to
/// 95.
pub fn dir_progress(done: usize, total: usize) -> (r: usize)
    requires
        done <= total,
    ensures
        r == 80 + share(done as nat, total as nat, 15),
        80 <= r <= 95,
{
    80 + compute_share(done, total, 15)
}

/// The percentages that are told, in their order, while a tree is put together
/// over so many directories: one before the first, one for each, and two at the
/// end.
pub open spec fn steps_for(dirs: nat) -> Seq<usize> {
    seq![80usize] + Seq::new(
        dirs,
        |i: int| (80 + share((i + 1) as nat, dirs, 15)) as usize,
    ) + seq![95usize, 100usize]
}

/// The percentages that are told while a tree is put together.
pub fn tree_steps(dirs: usize) -> (r: Vec<usize>)
    ensures
        r@ == steps_for(dirs as nat),
        forall|i: int| 0 <= i < r@.len() ==> #[trigger] r@[i] <= 100,
{
    let mut r: Vec<usize> = Vec::new();
    r.push(80);
    let mut i: usize = 0;
    while i < dirs
        invariant
            i <= dirs,
            r@.len() == i + 1,
            r@[0] == 80,
            forall|j: int|
                1 <= j <= i ==> #[trigger] r@[j] == 80 + share(j as nat, dirs as nat, 15) && r@[j]
                    <= 95,
        decreases dirs - i,
    {
        i = i + 1;
        r.push(dir_progress(i, dirs));
    }
    r.push(95);
    r.push(100);
    assert(r@ =~= steps_for(dirs as nat));
    r
}

/// Width of the progress bar in characters.
pub const BAR_WIDTH: usize = 50;

/// The line that shows a percentage.
pub open spec fn progress_line(current: nat, total: nat) -> Seq<char> {
    let filled = share(current, total, BAR_WIDTH as nat);
    "Progress: ["@ + Seq::new(filled, |i: int| '\u{2588}') + Seq::new(
        (BAR_WIDTH - filled) as nat,
        |i: int| '\u{2591}',
    ) + "] "@ + decimal(share(current, total, 100) as int) + "%"@
}

/// Which percentages are worth a line: every fifth, and the last.
#[derive(Debug)]
pub struct ProgressReporter {
    pub last: usize,
}

/// The percentage is far enough from the last one shown, or it is the end.
pub open spec fn worth_showing(last: nat, percentage: nat) -> bool {
    percentage >= last + 5 || percentage == 100
}

fn repeat(c: char, n: usize) -> (r: String)
    ensures
        r@ == Seq::new(n as nat, |i: int| c),
{
    let mut r = String::new();
    let mut i: usize = 0;
    assert(r@ =~= Seq::new(0, |i: int| c));
    while i < n
        invariant
            i <= n,
            r@ == Seq::new(i as nat, |i: int| c),
        decreases n - i,
    {
        r.push(c);
        i = i + 1;
        assert(r@ =~= Seq::new(i as nat, |i: int| c));
    }
    r
}

/// What is shown for `current` of `total`, and what is kept of it.
pub open spec fn report_step(
    before: ProgressReporter,
    current: nat,
    total: nat,
    shown: Option<String>,
    after: ProgressReporter,
) -> bool {
    let percentage = share(current, total, 100);
    if worth_showing(before.last as nat, percentage) {
        &&& after.last == percentage
        &&& shown matches Some(line) && line@ == progress_line(current, total)
    } else {
        shown is None && after == before
    }
}

impl ProgressReporter {
    /// Nothing shown yet.
    pub fn new() -> (r: ProgressReporter)
        ensures
            r.last == 0,
    {
        ProgressReporter { last: 0 }
    }

    /// The line to show for `current` of `total`, where there is one to show.
    pub fn report(&mut self, current: usize, total: usize) -> (r: Option<String>)
        requires
            0 < total,
            current <= total,
        ensures
            ({
                let percentage = share(current as nat, total as nat, 100);
                if worth_showing(old(self).last as nat, percentage) {
                    &&& final(self).last == percentage
                    &&& r matches Some(line) && line@ == progress_line(current as nat, total as nat)
                } else {
                    r is None && *final(self) == *old(self)
                }
            }),
            report_step(*old(self), current as nat, total as nat, r, *final(self)),
    {
        let percentage = compute_share(current, total, 100);
        let due = percentage == 100 || (percentage >= self.last && percentage - self.last >= 5);
        if !due {
            return None;
        }
        self.last = percentage;
        let filled = compute_share(current, total, BAR_WIDTH);
        let mut line = String::new();
        line.append("Progress: [");
        line.append(repeat('\u{2588}', filled).as_str());
        line.append(repeat('\u{2591}', BAR_WIDTH - filled).as_str());
        line.append("] ");
        line.append(number_text(percentage as u64, 10).as_str());
        line.append("%");
        assert(line@ =~= progress_line(current as nat, total as nat));
        Some(line)
    }
}

} // verus!
