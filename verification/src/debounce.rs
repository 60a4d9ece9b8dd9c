//! When to report a change, and when to look again.
use vstd::prelude::*;
use crate::monitor::event::{event_view, Change, FileEvent};
use crate::monitor::Update;
use crate::path::{components, FilePath, PathKey};
use crate::path_map::{
    in_path_order, item_key, items_map, key_index, lemma_key_index, PathMap,
};
use crate::snapshot::path_texts;
use crate::text::text_chars;

verus! {

/// Nanoseconds in a second.
pub const NANOS_PER_SEC: u64 = 1_000_000_000;

/// Changes that wait until their file has been left alone for a while.
#[derive(Debug)]
pub struct DebounceTracker {
    /// The time of the last change, in nanoseconds, and what it was.
    pub pending: PathMap<(u64, String)>,
    pub debounce_seconds: u64,
}

/// How much time has passed, at least none.
pub open spec fn passed_since(last: u64, now: u64) -> int {
    if now < last {
        0
    } else {
        now - last
    }
}

/// The file has been left alone for long enough.
pub open spec fn is_stable(last: u64, now: u64, seconds: u64) -> bool {
    passed_since(last, now) >= seconds * NANOS_PER_SEC
}

fn stable(last: u64, now: u64, seconds: u64) -> (r: bool)
    ensures
        r == is_stable(last, now, seconds),
{
    let since: u64 = if now < last {
        0
    } else {
        now - last
    };
    assert(seconds * NANOS_PER_SEC <= u128::MAX) by (nonlinear_arith)
        requires
            seconds <= u64::MAX,
            NANOS_PER_SEC == 1_000_000_000,
    ;
    since as u128 >= seconds as u128 * NANOS_PER_SEC as u128
}

/// A change to be reported: the path and what it was.
pub open spec fn report_views(list: Seq<(FilePath, String)>) -> Seq<(Seq<u8>, Seq<char>)> {
    list.map_values(|e: (FilePath, String)| (e.0@, e.1@))
}

/// The changes whose file has been left alone for long enough.
pub open spec fn ready(now: u64, seconds: u64) -> spec_fn((Seq<u8>, (u64, String))) -> bool {
    |item: (Seq<u8>, (u64, String))| is_stable(item.1.0, now, seconds)
}

/// The reports for some changes.
pub open spec fn reports(items: Seq<(Seq<u8>, (u64, String))>) -> Seq<(Seq<u8>, Seq<char>)> {
    items.map_values(|item: (Seq<u8>, (u64, String))| (item.0, item.1.1@))
}

/// A change that was noted waits from then on; whatever waited under the same
/// path is forgotten.
pub open spec fn hold_step(
    before: DebounceTracker,
    path: FilePath,
    details: Seq<char>,
    now: u64,
    after: DebounceTracker,
) -> bool {
    &&& after.debounce_seconds == before.debounce_seconds
    &&& after.pending@.dom() == before.pending@.dom().insert(path.key())
    &&& after.pending@[path.key()].1.0 == now
    &&& after.pending@[path.key()].1.1@ == details
    &&& forall|k: PathKey|
        k != path.key() ==> #[trigger] after.pending@[k] == before.pending@[k]
}

/// What is given out at a time, and what waits on.
pub open spec fn give_step(
    before: DebounceTracker,
    now: u64,
    given: Seq<(Seq<u8>, Seq<char>)>,
    after: DebounceTracker,
) -> bool {
    &&& in_path_order(before.pending.items())
    &&& given == reports(before.pending.items().filter(ready(now, before.debounce_seconds)))
    &&& after.debounce_seconds == before.debounce_seconds
    &&& forall|k: PathKey| #[trigger]
        after.pending@.contains_key(k) <==> before.pending@.contains_key(k) && !is_stable(
            before.pending@[k].1.0,
            now,
            before.debounce_seconds,
        )
    &&& forall|k: PathKey| #[trigger]
        after.pending@.contains_key(k) ==> after.pending@[k] == before.pending@[k]
}

impl DebounceTracker {
    /// Nothing waits yet.
    pub fn new(debounce_seconds: u64) -> (r: DebounceTracker)
        ensures
            r.pending@ == Map::<PathKey, (Seq<u8>, (u64, String))>::empty(),
            r.debounce_seconds == debounce_seconds,
    {
        DebounceTracker { pending: PathMap::new(), debounce_seconds }
    }

    /// Takes note of a change. Nothing is to be reported at once.
    pub fn record_change(&mut self, path: FilePath, details: String, now: u64) -> (r: bool)
        ensures
            !r,
            final(self).debounce_seconds == old(self).debounce_seconds,
            final(self).pending@ == old(self).pending@.insert(
                path.key(),
                (
                    if old(self).pending@.contains_key(path.key()) {
                        old(self).pending@[path.key()].0
                    } else {
                        path@
                    },
                    (now, details),
                ),
            ),
            hold_step(*old(self), path, details@, now, *final(self)),
    {
        self.pending.insert(path, (now, details));
        assert(self.pending@.dom() =~= old(self).pending@.dom().insert(path.key()));
        false
    }

    /// Gives out the changes whose file has been left alone for long enough, in
    /// path order, and keeps the others.
    pub fn get_stable_changes(&mut self, now: u64) -> (r: Vec<(FilePath, String)>)
        ensures
            report_views(r@) == reports(
                old(self).pending.items().filter(ready(now, old(self).debounce_seconds)),
            ),
            forall|k: PathKey| #[trigger]
                final(self).pending@.contains_key(k) <==> old(self).pending@.contains_key(k)
                    && !is_stable(old(self).pending@[k].1.0, now, old(self).debounce_seconds),
            forall|k: PathKey| #[trigger]
                final(self).pending@.contains_key(k) ==> final(self).pending@[k] == old(
                    self,
                ).pending@[k],
            final(self).debounce_seconds == old(self).debounce_seconds,
            give_step(*old(self), now, report_views(r@), *final(self)),
    {
        let ghost items = self.pending.items();
        let ghost all = self.pending@;
        let seconds = self.debounce_seconds;
        let ghost p = ready(now, seconds);
        let total = self.pending.len();
        let mut stable_now: Vec<(FilePath, String)> = Vec::new();
        let mut i: usize = 0;
        proof {
            reveal(Seq::filter);
            assert(report_views(stable_now@) =~= reports(items.take(0).filter(p)));
        }
        while i < total
            invariant
                i <= total == items.len(),
                *self == *old(self),
                items == self.pending.items(),
                p == ready(now, seconds),
                report_views(stable_now@) == reports(items.take(i as int).filter(p)),
            decreases total - i,
        {
            let ghost before = stable_now@;
            let value = self.pending.value_at(i);
            proof {
                reveal(Seq::filter);
                assert(items.take(i + 1).drop_last() =~= items.take(i as int));
                assert(items.take(i + 1).last() == items[i as int]);
            }
            if stable(value.0, now, seconds) {
                let entry = (self.pending.path_at(i).clone(), value.1.clone());
                stable_now.push(entry);
                proof {
                    assert(report_views(stable_now@) =~= report_views(before).push(
                        (entry.0@, entry.1@),
                    ));
                    assert(reports(items.take(i + 1).filter(p)) =~= reports(
                        items.take(i as int).filter(p),
                    ).push((items[i as int].0, items[i as int].1.1@)));
                }
            }
            i = i + 1;
        }
        assert(items.take(i as int) =~= items);
        let ghost gone = report_views(stable_now@);
        let mut j: usize = 0;
        proof {
            assert forall|k: PathKey| !#[trigger] taken_out(gone, 0, k) by {}
        }
        while j < stable_now.len()
            invariant
                j <= stable_now@.len(),
                gone == report_views(stable_now@),
                self.debounce_seconds == seconds,
                forall|k: PathKey| #[trigger]
                    self.pending@.contains_key(k) <==> all.contains_key(k) && !taken_out(
                        gone,
                        j as int,
                        k,
                    ),
                forall|k: PathKey| #[trigger]
                    self.pending@.contains_key(k) ==> self.pending@[k] == all[k],
            decreases stable_now@.len() - j,
        {
            let path = &stable_now[j].0;
            let ghost before = self.pending@;
            let _ = self.pending.remove(path);
            proof {
                assert(gone[j as int].0 == path@);
                assert forall|k: PathKey| #[trigger]
                    self.pending@.contains_key(k) <==> all.contains_key(k) && !taken_out(
                    gone,
                    j + 1,
                    k,
                ) by {
                    assert(before.contains_key(k) <==> all.contains_key(k) && !taken_out(
                        gone,
                        j as int,
                        k,
                    ));
                    assert(taken_out(gone, j + 1, k) <==> taken_out(gone, j as int, k) || k
                        == path.key()) by {
                        if taken_out(gone, j as int, k) {
                            let x = choose|x: int|
                                0 <= x < j && components(#[trigger] gone[x].0) == k;
                            assert(components(gone[x].0) == k);
                        }
                        assert(components(gone[j as int].0) == path.key());
                    }
                }
            }
            j = j + 1;
        }
        proof {
            assert forall|k: PathKey| #[trigger]
                self.pending@.contains_key(k) <==> all.contains_key(k) && !is_stable(
                all[k].1.0,
                now,
                seconds,
            ) by {
                assert(self.pending@.contains_key(k) <==> all.contains_key(k) && !taken_out(
                    gone,
                    j as int,
                    k,
                ));
                lemma_taken_out(items, now, seconds, k);
            }
        }
        stable_now
    }
}

/// One of the first reports is about the path.
pub open spec fn taken_out(gone: Seq<(Seq<u8>, Seq<char>)>, n: int, k: PathKey) -> bool {
    exists|x: int| 0 <= x < n && components(#[trigger] gone[x].0) == k
}

/// What is given out is what has been left alone for long enough.
pub proof fn lemma_taken_out(items: Seq<(Seq<u8>, (u64, String))>, now: u64, seconds: u64, k: PathKey)
    requires
        in_path_order(items),
    ensures
        ({
            let gone = reports(items.filter(ready(now, seconds)));
            taken_out(gone, gone.len() as int, k) <==> items_map(items).contains_key(k) && is_stable(
                items_map(items)[k].1.0,
                now,
                seconds,
            )
        }),
{
    broadcast use vstd::seq_lib::group_filter_ensures;

    let p = ready(now, seconds);
    let kept = items.filter(p);
    let gone = reports(kept);
    if taken_out(gone, gone.len() as int, k) {
        let x = choose|x: int|
            0 <= x < gone.len() && components(#[trigger] gone[x].0) == k;
        assert(kept.contains(kept[x]));
        items.lemma_filter_contains_rev(p, kept[x]);
        let z = choose|z: int| 0 <= z < items.len() && items[z] == kept[x];
        lemma_key_index(items, z);
        assert(item_key(items[z]) == k);
        assert(p(kept[x]));
    }
    if items_map(items).contains_key(k) && is_stable(items_map(items)[k].1.0, now, seconds) {
        let z = key_index(items, k);
        assert(p(items[z]));
        items.lemma_filter_contains(p, z);
        let x = choose|x: int| 0 <= x < kept.len() && kept[x] == items[z];
        assert(gone[x].0 == items[z].0);
        assert(components(gone[x].0) == k);
    }
}

/// Counts the tenths of a second until everything is looked at again.
#[derive(Debug)]
pub struct PollClock {
    pub ticks: u64,
}

/// The count after one more tick.
pub open spec fn ticked(ticks: u64) -> u64 {
    if ticks == u64::MAX {
        ticks
    } else {
        (ticks + 1) as u64
    }
}

/// One tick of the clock: whether the interval is over, and the count from then
/// on.
pub open spec fn poll_step(
    ticks: u64,
    poll_interval: u64,
    no_scan: bool,
    is_over: bool,
    after: u64,
) -> bool {
    &&& is_over == (!no_scan && ticked(ticks) * 100 >= poll_interval * 1000)
    &&& after == if is_over {
        0
    } else {
        ticked(ticks)
    }
}

impl PollClock {
    /// Starts counting.
    pub fn new() -> (r: PollClock)
        ensures
            r.ticks == 0,
    {
        PollClock { ticks: 0 }
    }

    /// Counts one tick of a tenth of a second. Tells whether the interval is
    /// over, and starts anew where it is. With `no_scan` it is never over.
    pub fn tick(&mut self, poll_interval: u64, no_scan: bool) -> (r: bool)
        ensures
            r == (!no_scan && ticked(old(self).ticks) * 100 >= poll_interval * 1000),
            final(self).ticks == if r {
                0
            } else {
                ticked(old(self).ticks)
            },
            poll_step(old(self).ticks, poll_interval, no_scan, r, final(self).ticks),
    {
        if self.ticks < u64::MAX {
            self.ticks = self.ticks + 1;
        }
        if no_scan || (self.ticks as u128) * 100 < (poll_interval as u128) * 1000 {
            return false;
        }
        self.ticks = 0;
        true
    }
}

/// Counts the rounds until the snapshot is saved again.
#[derive(Debug)]
pub struct SaveClock {
    pub rounds: u64,
}

/// Rounds from one save to the next.
pub const SAVE_INTERVAL: u64 = 10;

/// One round: whether it is time to save, and the count from then on.
pub open spec fn save_step(rounds: u64, is_due: bool, after: u64) -> bool {
    &&& is_due == (rounds + 1 == SAVE_INTERVAL)
    &&& after == if is_due {
        0
    } else {
        (rounds + 1) as u64
    }
}

impl SaveClock {
    /// Starts counting.
    pub fn new() -> (r: SaveClock)
        ensures
            r.rounds == 0,
    {
        SaveClock { rounds: 0 }
    }

    /// Counts one round. Tells whether it is time to save, and starts anew
    /// where it is.
    pub fn tick(&mut self) -> (r: bool)
        requires
            old(self).rounds < SAVE_INTERVAL,
        ensures
            r == (old(self).rounds + 1 == SAVE_INTERVAL),
            final(self).rounds == if r {
                0
            } else {
                (old(self).rounds + 1) as u64
            },
            final(self).rounds < SAVE_INTERVAL,
            save_step(old(self).rounds, r, final(self).rounds),
    {
        self.rounds = self.rounds + 1;
        if self.rounds >= SAVE_INTERVAL {
            self.rounds = 0;
            true
        } else {
            false
        }
    }
}

/// The texts of the paths that some events removed, or that they did not.
pub open spec fn paths_of(events: Seq<FileEvent>, removed: bool) -> Seq<Seq<u8>>
    decreases events.len(),
{
    if events.len() == 0 {
        Seq::empty()
    } else {
        let before = paths_of(events.drop_last(), removed);
        let (change, path) = event_view(events.last());
        if (change == Change::Removed) == removed {
            before.push(path)
        } else {
            before
        }
    }
}

/// Parts events into paths to read and paths to take out.
pub fn partition_events(events: &Vec<FileEvent>) -> (r: (Vec<FilePath>, Vec<FilePath>))
    ensures
        path_texts(r.0@) == paths_of(events@, false),
        path_texts(r.1@) == paths_of(events@, true),
{
    let mut to_update: Vec<FilePath> = Vec::new();
    let mut to_remove: Vec<FilePath> = Vec::new();
    let mut i: usize = 0;
    assert(events@.take(0) =~= Seq::empty());
    assert(path_texts(to_update@) =~= Seq::empty());
    assert(path_texts(to_remove@) =~= Seq::empty());
    while i < events.len()
        invariant
            i <= events@.len(),
            path_texts(to_update@) == paths_of(events@.take(i as int), false),
            path_texts(to_remove@) == paths_of(events@.take(i as int), true),
        decreases events@.len() - i,
    {
        let ghost updates = to_update@;
        let ghost removals = to_remove@;
        proof {
            assert(events@.take(i + 1).drop_last() =~= events@.take(i as int));
            assert(events@.take(i + 1).last() == events@[i as int]);
        }
        match &events[i] {
            FileEvent::Created(path) | FileEvent::Modified(path) => {
                let copy = path.clone();
                to_update.push(copy);
                assert(path_texts(to_update@) =~= path_texts(updates).push(copy@));
            },
            FileEvent::Removed(path) => {
                let copy = path.clone();
                to_remove.push(copy);
                assert(path_texts(to_remove@) =~= path_texts(removals).push(copy@));
            },
        }
        i = i + 1;
    }
    assert(events@.take(i as int) =~= events@);
    (to_update, to_remove)
}

/// Whether an update is worth a report: something was new, and there is
/// something to say about it.
pub fn is_reportable(update: &Update) -> (r: bool)
    ensures
        r == (update.updated && update.details@.len() > 0),
{
    update.updated && text_chars(update.details.as_str()).len() > 0
}

/// What becomes of an update: it is told at once, or it waits, or there is
/// nothing to say about it.
pub open spec fn update_step(
    before: Option<DebounceTracker>,
    update: Update,
    now: u64,
    told: Option<(FilePath, String)>,
    after: Option<DebounceTracker>,
) -> bool {
    if !update.updated || update.details@.len() == 0 {
        told is None && after == before
    } else if before is Some {
        &&& told is None
        &&& after is Some
        &&& hold_step(before->0, update.path, update.details@, now, after->0)
    } else {
        told == Some((update.path, update.details)) && after is None
    }
}

/// Takes in an update. Gives back what is to be reported at once: nothing where
/// the update is not worth a report, and nothing where changes wait until their
/// file is left alone, in which case it is noted.
pub fn report_or_hold(tracker: &mut Option<DebounceTracker>, update: Update, now: u64) -> (r: Option<
    (FilePath, String),
>)
    ensures
        (*final(tracker)) is Some <==> (*old(tracker)) is Some,
        if update.updated && update.details@.len() > 0 {
            match *old(tracker) {
                Some(before) => {
                    &&& r is None
                    &&& (*final(tracker))->0.debounce_seconds == before.debounce_seconds
                    &&& (*final(tracker))->0.pending@ == before.pending@.insert(
                        update.path.key(),
                        (
                            if before.pending@.contains_key(update.path.key()) {
                                before.pending@[update.path.key()].0
                            } else {
                                update.path@
                            },
                            (now, update.details),
                        ),
                    )
                },
                None => r == Some((update.path, update.details)),
            }
        } else {
            r is None && *final(tracker) == *old(tracker)
        },
        update_step(*old(tracker), update, now, r, *final(tracker)),
{
    if !is_reportable(&update) {
        return None;
    }
    match tracker {
        Some(held) => {
            let _ = held.record_change(update.path, update.details, now);
            None
        },
        None => Some((update.path, update.details)),
    }
}

/// A change is given out once: what was given out does not wait any more, so
/// it is not given out again unless it changes again.
pub proof fn law_stable_change_is_reported_once(
    before: DebounceTracker,
    now: u64,
    after: DebounceTracker,
    later: u64,
    k: PathKey,
)
    requires
        in_path_order(after.pending.items()),
        forall|k: PathKey| #[trigger]
            after.pending@.contains_key(k) <==> before.pending@.contains_key(k) && !is_stable(
                before.pending@[k].1.0,
                now,
                before.debounce_seconds,
            ),
        before.pending@.contains_key(k),
        is_stable(before.pending@[k].1.0, now, before.debounce_seconds),
    ensures
        ({
            let given = reports(after.pending.items().filter(ready(later, after.debounce_seconds)));
            !taken_out(given, given.len() as int, k)
        }),
{
    assert(!after.pending@.contains_key(k));
    lemma_taken_out(after.pending.items(), later, after.debounce_seconds, k);
}

} // verus!
