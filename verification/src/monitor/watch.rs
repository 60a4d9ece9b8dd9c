//! Which directories are watched, and how many may be.
use vstd::prelude::*;
use crate::monitor::Monitor;
use crate::path::{components, key_within, FilePath, PathKey};
use crate::snapshot::path_texts;
use crate::text::{
    decimal, is_digit, is_white_space, law_trimming_takes_off_white_space,
    law_written_number_is_read_back, lemma_digits_are_digits, lossy_utf8, number_or, number_text, parsed_usize, text_views, trimmed,
};

verus! {

/// What the kernel allows a user to watch.
#[derive(Debug, Clone, Copy)]
pub struct InotifyLimits {
    pub max_user_watches: usize,
    pub max_user_instances: usize,
    pub max_queued_events: usize,
}

/// The number in a limit file, or the default where it holds none.
pub open spec fn limit_value(text: Seq<char>, default: usize) -> usize {
    match parsed_usize(trimmed(text)) {
        Some(n) => n,
        None => default,
    }
}

impl InotifyLimits {
    /// The limits of a system that has no inotify: nothing can be watched with
    /// it.
    pub fn without_inotify() -> (r: InotifyLimits)
        ensures
            r.max_user_watches == 0,
            r.max_user_instances == 0,
            r.max_queued_events == 0,
    {
        InotifyLimits { max_user_watches: 0, max_user_instances: 0, max_queued_events: 0 }
    }

    /// The limits from the contents of the kernel's three limit files.
    pub fn read_from_procfs(max_user_watches: &str, max_user_instances: &str, max_queued_events: &str) -> (r:
        InotifyLimits)
        ensures
            r.max_user_watches == limit_value(max_user_watches@, 8192),
            r.max_user_instances == limit_value(max_user_instances@, 128),
            r.max_queued_events == limit_value(max_queued_events@, 16384),
            limits_in(max_user_watches@, max_user_instances@, max_queued_events@, r),
    {
        InotifyLimits {
            max_user_watches: number_or(max_user_watches, 8192),
            max_user_instances: number_or(max_user_instances, 128),
            max_queued_events: number_or(max_queued_events, 16384),
        }
    }
}

/// The limits that the three limit files give.
pub open spec fn limits_in(
    watches: Seq<char>,
    instances: Seq<char>,
    events: Seq<char>,
    limits: InotifyLimits,
) -> bool {
    &&& limits.max_user_watches == limit_value(watches, 8192)
    &&& limits.max_user_instances == limit_value(instances, 128)
    &&& limits.max_queued_events == limit_value(events, 16384)
}

/// No more watches can be set.
pub open spec fn is_used_up(used: nat, budget: nat) -> bool {
    used >= budget
}

/// A watch on a directory is noted.
pub open spec fn watch_step(before: Monitor, dir: FilePath, watch: i32, after: Monitor) -> bool {
    &&& after.used() == before.used() + 1
    &&& after.budget() == before.budget()
    &&& after.watch_dirs().contains_key(watch)
    &&& after.watch_dirs()[watch]@ == dir@
    &&& forall|w: i32|
        w != watch ==> (#[trigger] after.watch_dirs().contains_key(w)
            <==> before.watch_dirs().contains_key(w))
    &&& forall|w: i32|
        w != watch ==> #[trigger] after.watch_dirs()[w] == before.watch_dirs()[w]
}

/// How many watches may be used, and how many are: never more than may be.
#[derive(Debug, Clone, Copy)]
pub struct WatchCount {
    budget: usize,
    used: usize,
}

impl WatchCount {
    #[verifier::type_invariant]
    spec fn within_budget(self) -> bool {
        self.used <= self.budget
    }

    /// How many watches may be used.
    pub closed spec fn spec_budget(&self) -> nat {
        self.budget as nat
    }

    /// How many watches are used.
    pub closed spec fn spec_used(&self) -> nat {
        self.used as nat
    }

    /// No watch used yet.
    pub fn new(budget: usize) -> (r: WatchCount)
        ensures
            r.spec_budget() == budget,
            r.spec_used() == 0,
    {
        WatchCount { budget, used: 0 }
    }

    /// How many watches may be used.
    pub fn budget(&self) -> (r: usize)
        ensures
            r == self.spec_budget(),
    {
        self.budget
    }

    /// How many watches are used.
    pub fn used(&self) -> (r: usize)
        ensures
            r == self.spec_used(),
            r <= self.spec_budget(),
    {
        proof {
            use_type_invariant(self);
        }
        self.used
    }

    /// One watch more.
    pub fn one_more(self) -> (r: WatchCount)
        requires
            self.spec_used() < self.spec_budget(),
        ensures
            r.spec_budget() == self.spec_budget(),
            r.spec_used() == self.spec_used() + 1,
    {
        WatchCount { budget: self.budget, used: self.used + 1 }
    }
}

/// A text made of a beginning, a number and an end.
pub open spec fn numbered(start: Seq<char>, n: int, end: Seq<char>) -> Seq<char> {
    start + decimal(n) + end
}

pub(crate) fn numbered_text(start: &str, n: u64, end: &str) -> (r: String)
    ensures
        r@ == numbered(start@, n as int, end@),
{
    let mut r = String::new();
    r.append(start);
    r.append(number_text(n, 10).as_str());
    r.append(end);
    assert(r@ =~= numbered(start@, n as int, end@));
    r
}

/// What is logged when watching starts.
pub open spec fn startup_lines(limits: InotifyLimits, watch_budget: usize, max_size_mb: u64) -> Seq<
    Seq<char>,
> {
    seq![
        "Platform: Linux (inotify)"@,
        "inotify limits:"@,
        numbered("  max_user_watches: "@, limits.max_user_watches as int, ""@),
        numbered("  max_user_instances: "@, limits.max_user_instances as int, ""@),
        numbered("  max_queued_events: "@, limits.max_queued_events as int, ""@),
        numbered("  Using 70% budget: "@, watch_budget as int, " watches"@),
        numbered("  Max file size: "@, max_size_mb as int, " MB"@),
    ]
}

/// Says what is logged when watching starts.
pub fn startup_messages(limits: &InotifyLimits, watch_budget: usize, max_size_mb: u64) -> (r: Vec<
    String,
>)
    ensures
        text_views(r@) == startup_lines(*limits, watch_budget, max_size_mb),
{
    let mut r: Vec<String> = Vec::new();
    r.push("Platform: Linux (inotify)".to_string());
    r.push("inotify limits:".to_string());
    r.push(numbered_text("  max_user_watches: ", limits.max_user_watches as u64, ""));
    r.push(numbered_text("  max_user_instances: ", limits.max_user_instances as u64, ""));
    r.push(numbered_text("  max_queued_events: ", limits.max_queued_events as u64, ""));
    r.push(numbered_text("  Using 70% budget: ", watch_budget as u64, " watches"));
    r.push(numbered_text("  Max file size: ", max_size_mb, " MB"));
    assert(text_views(r@) =~= startup_lines(*limits, watch_budget, max_size_mb));
    r
}

/// The critical directories that exist and lie at or below the scanned one.
pub open spec fn critical_texts(critical: Seq<FilePath>, exists_now: Seq<bool>, root: PathKey) -> Seq<
    Seq<u8>,
>
    decreases critical.len(),
{
    if critical.len() == 0 {
        Seq::empty()
    } else {
        let before = critical_texts(critical.drop_last(), exists_now.drop_last(), root);
        if exists_now.last() && key_within(critical.last().key(), root) {
            before.push(critical.last()@)
        } else {
            before
        }
    }
}

/// One of the texts names the path.
pub open spec fn lists_path(texts: Seq<Seq<u8>>, key: PathKey) -> bool {
    exists|i: int| 0 <= i < texts.len() && components(#[trigger] texts[i]) == key
}

/// A list with those of further paths that it does not name yet.
pub open spec fn with_walked(texts: Seq<Seq<u8>>, walked: Seq<Seq<u8>>) -> Seq<Seq<u8>>
    decreases walked.len(),
{
    if walked.len() == 0 {
        texts
    } else {
        let before = with_walked(texts, walked.drop_last());
        if lists_path(before, components(walked.last())) {
            before
        } else {
            before.push(walked.last())
        }
    }
}

/// Whether one of the paths is `path`.
pub fn lists(paths: &Vec<FilePath>, path: &FilePath) -> (r: bool)
    ensures
        r == lists_path(path_texts(paths@), path.key()),
{
    let ghost texts = path_texts(paths@);
    let mut i: usize = 0;
    while i < paths.len()
        invariant
            i <= paths@.len(),
            texts == path_texts(paths@),
            forall|j: int| 0 <= j < i ==> components(#[trigger] texts[j]) != path.key(),
        decreases paths@.len() - i,
    {
        assert(texts[i as int] == paths@[i as int]@);
        if paths[i].same(path) {
            return true;
        }
        i = i + 1;
    }
    false
}

/// Watches being set up: the directories in their order, how many of them have
/// been taken, and what is to be logged.
#[derive(Debug)]
pub struct WatchSetup {
    pub to_watch: Vec<FilePath>,
    pub taken: usize,
    pub messages: Vec<String>,
}

/// The next step of setting up watches: the directory to watch, if there is one,
/// and how things stand from then on.
pub open spec fn next_step(
    before: WatchSetup,
    used: nat,
    budget: nat,
    r: Option<FilePath>,
    after: WatchSetup,
) -> bool {
    &&& after.to_watch == before.to_watch
    &&& if before.taken == before.texts().len() {
        r is None && after == before
    } else if used >= budget {
        &&& r is None
        &&& after.taken == before.texts().len()
    } else {
        &&& r matches Some(dir) && dir@ == before.texts()[before.taken as int]
        &&& after.taken == before.taken + 1
        &&& after.messages == before.messages
    }
}

impl WatchSetup {
    /// No more directories have been taken than there are.
    pub open spec fn wf(&self) -> bool {
        self.taken <= self.to_watch@.len()
    }

    /// The texts of the directories.
    pub open spec fn texts(&self) -> Seq<Seq<u8>> {
        path_texts(self.to_watch@)
    }

    /// The messages as texts.
    pub open spec fn lines(&self) -> Seq<Seq<char>> {
        text_views(self.messages@)
    }

    fn note(&mut self, message: String)
        ensures
            final(self).to_watch == old(self).to_watch,
            final(self).taken == old(self).taken,
            final(self).lines() == old(self).lines().push(message@),
    {
        let ghost before = self.messages@;
        self.messages.push(message);
        assert(text_views(self.messages@) =~= text_views(before).push(message@));
    }

    /// The next directory to watch. There is none once all have been taken, and
    /// none more once the budget is used up, which is noted.
    pub fn next(&mut self, monitor: &Monitor) -> (r: Option<FilePath>)
        requires
            old(self).wf(),
        ensures
            final(self).wf(),
            final(self).to_watch == old(self).to_watch,
            if old(self).taken == old(self).texts().len() {
                r is None && *final(self) == *old(self)
            } else if monitor.used() >= monitor.budget() {
                &&& r is None
                &&& final(self).taken == old(self).texts().len()
                &&& final(self).lines() == old(self).lines().push("\u{26a0} Watch budget exhausted"@)
            } else {
                &&& r matches Some(dir) && dir@ == old(self).texts()[old(self).taken as int]
                &&& final(self).taken == old(self).taken + 1
                &&& final(self).messages == old(self).messages
            },
            next_step(*old(self), monitor.used(), monitor.budget(), r, *final(self)),
    {
        if self.taken == self.to_watch.len() {
            return None;
        }
        if monitor.watches.used() >= monitor.watches.budget() {
            self.taken = self.to_watch.len();
            self.note("\u{26a0} Watch budget exhausted".to_string());
            return None;
        }
        let dir = self.to_watch[self.taken].clone();
        self.taken = self.taken + 1;
        Some(dir)
    }

    /// Notes that a directory could not be watched.
    pub fn failed(&mut self, dir: &FilePath, error: &str)
        ensures
            final(self).to_watch == old(self).to_watch,
            final(self).taken == old(self).taken,
            final(self).lines() == old(self).lines().push(
                "\u{2717} Failed to watch "@ + lossy_utf8(dir@) + ": "@ + error@,
            ),
    {
        let mut text = String::new();
        text.append("\u{2717} Failed to watch ");
        text.append(dir.to_string_lossy().as_str());
        text.append(": ");
        text.append(error);
        assert(text@ =~= "\u{2717} Failed to watch "@ + lossy_utf8(dir@) + ": "@ + error@);
        self.note(text);
    }

    /// Notes what came of it.
    pub fn finish(&mut self, monitor: &Monitor)
        ensures
            final(self).to_watch == old(self).to_watch,
            final(self).taken == old(self).taken,
            final(self).lines() == old(self).lines() + seq![
                "\n=== Watch Summary ==="@,
                numbered("Total watches used: "@, monitor.used() as int, " / "@) + decimal(
                    monitor.budget() as int,
                ),
                numbered("Watched directories: "@, monitor.watched().items().len() as int, ""@),
            ],
    {
        let ghost before = self.lines();
        self.note("\n=== Watch Summary ===".to_string());
        let mut used = numbered_text("Total watches used: ", monitor.watches.used() as u64, " / ");
        used.append(number_text(monitor.watches.budget() as u64, 10).as_str());
        self.note(used);
        self.note(numbered_text("Watched directories: ", monitor.watched_dirs.len() as u64, ""));
        assert(self.lines() =~= before + seq![
            "\n=== Watch Summary ==="@,
            numbered("Total watches used: "@, monitor.used() as int, " / "@) + decimal(
                monitor.budget() as int,
            ),
            numbered("Watched directories: "@, monitor.watched().items().len() as int, ""@),
        ]);
    }
}

impl Monitor {
    /// Starts setting up watches: the critical directories that exist in the
    /// scanned tree first, then the directories that a walk found.
    pub fn setup_watches(
        &self,
        scan_root: &FilePath,
        exists_now: &Vec<bool>,
        walked: &Vec<FilePath>,
    ) -> (r: WatchSetup)
        requires
            exists_now@.len() == self.critical().len(),
        ensures
            r.wf(),
            r.taken == 0,
            r.texts() == with_walked(
                critical_texts(self.critical(), exists_now@, scan_root.key()),
                path_texts(walked@),
            ),
            r.lines() == seq![
                numbered("Setting up inotify watches (budget: "@, self.budget() as int, ")"@),
                numbered("Found "@, r.texts().len() as int, " directories to watch"@),
            ],
    {
        let critical = &self.critical_dirs;
        let mut to_watch: Vec<FilePath> = Vec::new();
        let mut i: usize = 0;
        assert(critical@.take(0) =~= Seq::empty());
        assert(path_texts(to_watch@) =~= Seq::empty());
        while i < critical.len()
            invariant
                i <= critical@.len() == exists_now@.len(),
                path_texts(to_watch@) == critical_texts(
                    critical@.take(i as int),
                    exists_now@.take(i as int),
                    scan_root.key(),
                ),
            decreases critical@.len() - i,
        {
            let ghost before = to_watch@;
            proof {
                assert(critical@.take(i + 1).drop_last() =~= critical@.take(i as int));
                assert(exists_now@.take(i + 1).drop_last() =~= exists_now@.take(i as int));
            }
            if exists_now[i] && critical[i].starts_with(scan_root) {
                let dir = critical[i].clone();
                to_watch.push(dir);
                assert(path_texts(to_watch@) =~= path_texts(before).push(dir@));
            }
            i = i + 1;
        }
        assert(critical@.take(i as int) =~= critical@);
        assert(exists_now@.take(i as int) =~= exists_now@);
        let ghost first = path_texts(to_watch@);
        let ghost further = path_texts(walked@);
        let mut j: usize = 0;
        assert(further.take(0) =~= Seq::empty());
        while j < walked.len()
            invariant
                j <= walked@.len(),
                further == path_texts(walked@),
                path_texts(to_watch@) == with_walked(first, further.take(j as int)),
            decreases walked@.len() - j,
        {
            let ghost before = to_watch@;
            proof {
                assert(further.take(j + 1).drop_last() =~= further.take(j as int));
                assert(further.take(j + 1).last() == walked@[j as int]@);
            }
            if !lists(&to_watch, &walked[j]) {
                let dir = walked[j].clone();
                to_watch.push(dir);
                assert(path_texts(to_watch@) =~= path_texts(before).push(dir@));
            }
            j = j + 1;
        }
        assert(further.take(j as int) =~= further);
        let total = to_watch.len();
        let mut setup = WatchSetup { to_watch, taken: 0, messages: Vec::new() };
        assert(setup.lines() =~= Seq::empty());
        setup.note(
            numbered_text("Setting up inotify watches (budget: ", self.watches.budget() as u64, ")"),
        );
        setup.note(numbered_text("Found ", total as u64, " directories to watch"));
        assert(setup.lines() =~= seq![
            numbered("Setting up inotify watches (budget: "@, self.budget() as int, ")"@),
            numbered("Found "@, setup.texts().len() as int, " directories to watch"@),
        ]);
        setup
    }

    /// Takes note of a watch on a directory.
    pub fn add_watch(&mut self, dir: FilePath, watch: i32)
        requires
            old(self).used() < old(self).budget(),
        ensures
            final(self).used() == old(self).used() + 1,
            final(self).budget() == old(self).budget(),
            final(self).used() <= final(self).budget(),
            final(self).watched()@ == old(self).watched()@.insert(
                dir.key(),
                (
                    if old(self).watched()@.contains_key(dir.key()) {
                        old(self).watched()@[dir.key()].0
                    } else {
                        dir@
                    },
                    (),
                ),
            ),
            final(self).watch_dirs().dom() == old(self).watch_dirs().dom().insert(watch),
            final(self).watch_dirs()[watch]@ == dir@,
            forall|w: i32|
                w != watch ==> #[trigger] final(self).watch_dirs()[w] == old(self).watch_dirs()[w],
            final(self).snapshot() == old(self).snapshot(),
            final(self).times() == old(self).times(),
            final(self).critical() == old(self).critical(),
            final(self).max_bytes() == old(self).max_bytes(),
            watch_step(*old(self), dir, watch, *final(self)),
    {
        broadcast use vstd::std_specs::hash::group_hash_axioms;

        self.watched_dirs.insert(dir.clone(), ());
        let _ = self.watch_map.insert(watch, dir);
        assert(self.watch_map@.dom() =~= old(self).watch_map@.dom().insert(watch));
        self.watches = self.watches.one_more();
    }

    /// How many watches are used, how many may be, and how many directories are
    /// watched.
    pub fn get_watch_stats(&self) -> (r: (usize, usize, usize))
        ensures
            r.0 == self.used(),
            r.1 == self.budget(),
            r.2 == self.watched().items().len(),
            r.0 <= r.1,
    {
        (self.watches.used(), self.watches.budget(), self.watched_dirs.len())
    }

    /// Whether the budget is used up.
    pub fn is_watch_budget_exceeded(&self) -> (r: bool)
        ensures
            r == (self.used() >= self.budget()),
            r == is_used_up(self.used(), self.budget()),
    {
        self.watches.used() >= self.watches.budget()
    }
}

/// The critical directories come first, in their order, and no directory that
/// was found is left out.
pub proof fn law_critical_directories_first(texts: Seq<Seq<u8>>, walked: Seq<Seq<u8>>)
    ensures
        texts.is_prefix_of(with_walked(texts, walked)),
        forall|i: int|
            0 <= i < walked.len() ==> lists_path(
                with_walked(texts, walked),
                components(#[trigger] walked[i]),
            ),
    decreases walked.len(),
{
    if walked.len() > 0 {
        let rest = walked.drop_last();
        let before = with_walked(texts, rest);
        let all = with_walked(texts, walked);
        law_critical_directories_first(texts, rest);
        assert(texts =~= all.take(texts.len() as int)) by {
            assert(texts =~= before.take(texts.len() as int));
        }
        assert forall|i: int| 0 <= i < walked.len() implies lists_path(
            all,
            components(#[trigger] walked[i]),
        ) by {
            if i < rest.len() {
                assert(rest[i] == walked[i]);
                let j = choose|j: int|
                    0 <= j < before.len() && components(#[trigger] before[j]) == components(rest[i]);
                assert(all[j] == before[j]);
            } else if !lists_path(before, components(walked.last())) {
                assert(all[before.len() as int] == walked.last());
            }
        }
    }
}

/// A limit file with a number in it, whatever white space is around it, gives
/// that number.
pub proof fn law_limit_is_the_number_in_its_file(
    front: Seq<char>,
    n: usize,
    back: Seq<char>,
    default: usize,
)
    requires
        forall|i: int| 0 <= i < front.len() ==> is_white_space(#[trigger] front[i]),
        forall|i: int| 0 <= i < back.len() ==> is_white_space(#[trigger] back[i]),
    ensures
        limit_value(front + decimal(n as int) + back, default) == n,
{
    let text = decimal(n as int);
    law_written_number_is_read_back(n);
    lemma_digits_are_digits(n as nat);
    assert(is_digit(text[0]) && is_digit(text[text.len() - 1]));
    law_trimming_takes_off_white_space(front, text, back);
}

/// Each limit is the number in its own file, and without one what the kernel
/// starts with: 8192 watches, 128 instances, 16384 events.
pub proof fn law_each_limit_has_its_file(
    watches: Seq<char>,
    instances: Seq<char>,
    events: Seq<char>,
    limits: InotifyLimits,
)
    requires
        limits_in(watches, instances, events, limits),
    ensures
        parsed_usize(trimmed(watches)) is None ==> limits.max_user_watches == 8192,
        parsed_usize(trimmed(watches)) is Some ==> limits.max_user_watches == parsed_usize(
            trimmed(watches),
        )->0,
        parsed_usize(trimmed(instances)) is None ==> limits.max_user_instances == 128,
        parsed_usize(trimmed(instances)) is Some ==> limits.max_user_instances == parsed_usize(
            trimmed(instances),
        )->0,
        parsed_usize(trimmed(events)) is None ==> limits.max_queued_events == 16384,
        parsed_usize(trimmed(events)) is Some ==> limits.max_queued_events == parsed_usize(
            trimmed(events),
        )->0,
{
}

/// A walked directory is watched after those before it, unless it is among them
/// already, under whatever text.
pub proof fn law_no_directory_is_watched_twice(
    texts: Seq<Seq<u8>>,
    walked: Seq<Seq<u8>>,
    text: Seq<u8>,
)
    ensures
        ({
            let before = with_walked(texts, walked);
            let after = with_walked(texts, walked.push(text));
            let is_listed = exists|i: int|
                0 <= i < before.len() && components(#[trigger] before[i]) == components(text);
            &&& is_listed ==> after == before
            &&& !is_listed ==> after == before.push(text)
        }),
        with_walked(texts, Seq::empty()) == texts,
{
    assert(walked.push(text).drop_last() =~= walked);
}

} // verus!
