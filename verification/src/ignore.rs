//! Which changes are not worth a line.
use vstd::prelude::*;
use vstd::slice::slice_subrange;
use crate::path::{FilePath, SEPARATOR};
use crate::text::{chars_text, from_utf8_lossy, lossy_utf8, text_chars, text_views};

verus! {

/// The pattern is one that `glob::Pattern::new` compiles.
pub uninterp spec fn glob_valid(pattern: Seq<char>) -> bool;

/// What the error of `glob::Pattern::new` says about a pattern.
pub uninterp spec fn glob_error(pattern: Seq<char>) -> Seq<char>;

/// A text matches a pattern, as `glob::Pattern::matches` finds it.
pub uninterp spec fn glob_matches(pattern: Seq<char>, text: Seq<char>) -> bool;

/// Calls `glob::Pattern::new`: nothing where the pattern is valid, and what is
/// wrong with it where it is not. Which patterns are valid is not spelled out.
#[verifier::external_body]
fn check_pattern(pattern: &str) -> (r: Result<(), String>)
    ensures
        r is Ok <==> glob_valid(pattern@),
        r matches Err(text) ==> text@ == glob_error(pattern@),
{
    glob::Pattern::new(pattern).map(|_| ()).map_err(|e| e.to_string())
}

/// Calls `glob::Pattern::matches` on a compiled pattern. Which texts match is
/// not spelled out; a pattern that does not compile matches none.
#[verifier::external_body]
fn match_pattern(pattern: &str, text: &str) -> (r: bool)
    ensures
        r == glob_matches(pattern@, text@),
        r ==> glob_valid(pattern@),
{
    glob::Pattern::new(pattern).is_ok_and(|p| p.matches(text))
}

/// A text without the stars at its end.
pub open spec fn without_stars(text: Seq<char>) -> Seq<char>
    decreases text.len(),
{
    if text.len() > 0 && text.last() == '*' {
        without_stars(text.drop_last())
    } else {
        text
    }
}

/// Takes the stars off the end of a text.
pub fn strip_stars(text: &str) -> (r: String)
    ensures
        r@ == without_stars(text@),
{
    let chars = text_chars(text);
    let mut n: usize = chars.len();
    assert(text@.take(n as int) =~= text@);
    while n > 0 && chars[n - 1] == '*'
        invariant
            n <= chars@.len(),
            chars@ == text@,
            without_stars(text@.take(n as int)) == without_stars(text@),
        decreases n,
    {
        assert(text@.take(n as int).drop_last() =~= text@.take(n - 1));
        n = n - 1;
    }
    let r = chars_text(chars.as_slice(), 0, n);
    assert(r@ =~= text@.take(n as int));
    r
}

/// A pattern for a directory without the stars at its end that stand for what
/// is in it, and without the separators before them. The root stays.
pub open spec fn dir_pattern(pattern: Seq<char>) -> Seq<char> {
    without_separators(without_stars(pattern))
}

/// A text without the separators at its end; a lone separator stays.
pub open spec fn without_separators(text: Seq<char>) -> Seq<char>
    decreases text.len(),
{
    if text.len() > 1 && text.last() == '/' {
        without_separators(text.drop_last())
    } else {
        text
    }
}

/// Takes the separators off the end of a text.
fn strip_separators(text: &str) -> (r: String)
    ensures
        r@ == without_separators(text@),
{
    let chars = text_chars(text);
    let mut n: usize = chars.len();
    assert(text@.take(n as int) =~= text@);
    while n > 1 && chars[n - 1] == '/'
        invariant
            n <= chars@.len(),
            chars@ == text@,
            without_separators(text@.take(n as int)) == without_separators(text@),
        decreases n,
    {
        assert(text@.take(n as int).drop_last() =~= text@.take(n - 1));
        n = n - 1;
    }
    let r = chars_text(chars.as_slice(), 0, n);
    assert(r@ =~= text@.take(n as int));
    r
}

/// The pattern for the directory itself.
pub fn directory_of_pattern(pattern: &str) -> (r: String)
    ensures
        r@ == dir_pattern(pattern@),
{
    strip_separators(strip_stars(pattern).as_str())
}

/// The first `n` bytes of a path's text name the path itself or a directory
/// above it: they end where a component ends.
pub open spec fn ends_component(path: Seq<u8>, n: int) -> bool {
    ||| n == path.len()
    ||| n == 1 && path[0] == SEPARATOR
    ||| 0 < n < path.len() && path[n] == SEPARATOR && path[n - 1] != SEPARATOR
}

/// The pattern matches the text of a path as it stands, or that of a directory
/// above the path as the pattern for a directory.
pub open spec fn fits(pattern: Seq<char>, path: Seq<u8>, n: int) -> bool {
    let text = lossy_utf8(path.take(n));
    glob_matches(pattern, text) || (n < path.len() && glob_matches(dir_pattern(pattern), text))
}

/// Patterns for files and for directories whose changes are left out.
#[derive(Debug)]
pub struct IgnoreFilter {
    pub file_patterns: Vec<String>,
    pub dir_patterns: Vec<String>,
}

/// The valid ones of some patterns.
pub open spec fn valid_patterns(texts: Seq<Seq<char>>) -> Seq<Seq<char>> {
    texts.filter(|t: Seq<char>| glob_valid(t))
}

/// What is said about the invalid ones of some patterns.
pub open spec fn warnings_about(label: Seq<char>, texts: Seq<Seq<char>>) -> Seq<Seq<char>>
    decreases texts.len(),
{
    if texts.len() == 0 {
        Seq::empty()
    } else {
        let before = warnings_about(label, texts.drop_last());
        let last = texts.last();
        if glob_valid(last) {
            before
        } else {
            before.push(label + last + "': "@ + glob_error(last))
        }
    }
}

fn sort_out(label: &str, patterns: Vec<String>, warnings: &mut Vec<String>) -> (r: Vec<String>)
    ensures
        text_views(r@) == valid_patterns(text_views(patterns@)),
        text_views(final(warnings)@) == text_views(old(warnings)@) + warnings_about(
            label@,
            text_views(patterns@),
        ),
{
    let ghost all = text_views(patterns@);
    let ghost p = |t: Seq<char>| glob_valid(t);
    let ghost said = text_views(warnings@);
    let mut kept: Vec<String> = Vec::new();
    let mut i: usize = 0;
    proof {
        reveal(Seq::filter);
        assert(text_views(kept@) =~= all.take(0).filter(p));
        assert(all.take(0) =~= Seq::empty());
        assert(text_views(warnings@) =~= said + warnings_about(label@, all.take(0)));
    }
    while i < patterns.len()
        invariant
            i <= patterns@.len(),
            all == text_views(patterns@),
            p == (|t: Seq<char>| glob_valid(t)),
            text_views(kept@) == all.take(i as int).filter(p),
            text_views(warnings@) == said + warnings_about(label@, all.take(i as int)),
        decreases patterns@.len() - i,
    {
        let pattern = &patterns[i];
        let ghost kept0 = kept@;
        let ghost warnings0 = warnings@;
        proof {
            reveal(Seq::filter);
            assert(all.take(i + 1).drop_last() =~= all.take(i as int));
            assert(all.take(i + 1).last() == pattern@);
        }
        match check_pattern(pattern.as_str()) {
            Ok(()) => {
                let copy = pattern.clone();
                kept.push(copy);
                assert(text_views(kept@) =~= text_views(kept0).push(copy@));
            },
            Err(error) => {
                let mut text = String::new();
                text.append(label);
                text.append(pattern.as_str());
                text.append("': ");
                text.append(error.as_str());
                assert(text@ =~= label@ + pattern@ + "': "@ + glob_error(pattern@));
                warnings.push(text);
                assert(text_views(warnings@) =~= text_views(warnings0).push(text@));
            },
        }
        i = i + 1;
        assert(text_views(warnings@) =~= said + warnings_about(label@, all.take(i as int)));
    }
    assert(all.take(i as int) =~= all);
    kept
}

/// A path is left out: it matches a file pattern, or a directory pattern covers
/// it.
pub open spec fn ignored(filter: IgnoreFilter, path: Seq<u8>) -> bool {
    ||| exists|i: int|
        0 <= i < filter.file_patterns@.len() && glob_matches(
            (#[trigger] filter.file_patterns@[i])@,
            lossy_utf8(path),
        )
    ||| exists|i: int|
        0 <= i < filter.dir_patterns@.len() && covers((#[trigger] filter.dir_patterns@[i])@, path)
}

/// A directory pattern covers a path: it matches the path as it stands, or a
/// directory above the path with or without what stands for its contents. The
/// empty path is above everything.
pub open spec fn covers(pattern: Seq<char>, path: Seq<u8>) -> bool {
    ||| dir_pattern(pattern).len() == 0
    ||| exists|n: int|
        0 <= n <= path.len() && #[trigger] ends_component(path, n) && fits(pattern, path, n)
}

/// Whether the first `n` bytes of a path's text end where a component ends.
fn at_component_end(path: &[u8], n: usize) -> (r: bool)
    requires
        n <= path@.len(),
    ensures
        r == ends_component(path@, n as int),
{
    n == path.len() || (n == 1 && path[0] == SEPARATOR) || (n > 0 && path[n] == SEPARATOR && path[n
        - 1] != SEPARATOR)
}

/// One of the ends is at `n`.
pub open spec fn has_end(ends: Seq<usize>, n: int) -> bool {
    exists|i: int| 0 <= i < ends.len() && (#[trigger] ends[i]) == n
}

/// Where the texts of a path and of the directories above it end, the longest
/// first.
pub fn component_ends(path: &FilePath) -> (r: Vec<usize>)
    ensures
        forall|i: int|
            0 <= i < r@.len() ==> (#[trigger] r@[i]) <= path@.len() && ends_component(
                path@,
                r@[i] as int,
            ),
        forall|i: int, j: int| 0 <= i < j < r@.len() ==> r@[i] > r@[j],
        forall|n: int|
            0 <= n <= path@.len() && #[trigger] ends_component(path@, n) ==> has_end(r@, n),
{
    let bytes = path.as_bytes();
    let mut r: Vec<usize> = Vec::new();
    let mut n: usize = bytes.len();
    loop
        invariant
            bytes@ == path@,
            n <= bytes@.len(),
            forall|i: int|
                0 <= i < r@.len() ==> n < (#[trigger] r@[i]) <= path@.len() && ends_component(
                    path@,
                    r@[i] as int,
                ),
            forall|i: int, j: int| 0 <= i < j < r@.len() ==> r@[i] > r@[j],
            forall|m: int|
                n < m <= bytes@.len() && #[trigger] ends_component(path@, m) ==> has_end(r@, m),
        decreases n,
    {
        if at_component_end(bytes, n) {
            let ghost before = r@;
            r.push(n);
            proof {
                assert(r@[before.len() as int] == n);
                assert forall|x: int| has_end(before, x) implies #[trigger] has_end(r@, x) by {
                    let i = choose|i: int| 0 <= i < before.len() && (#[trigger] before[i]) == x;
                    assert(r@[i] == x);
                }
            }
        }
        if n == 0 {
            return r;
        }
        n = n - 1;
    }
}

/// Whether a directory pattern covers a path.
fn dir_covers(pattern: &str, path: &FilePath) -> (r: bool)
    ensures
        r == covers(pattern@, path@),
{
    let bytes = path.as_bytes();
    let directory = directory_of_pattern(pattern);
    if text_chars(directory.as_str()).len() == 0 {
        return true;
    }
    let ends = component_ends(path);
    let mut i: usize = 0;
    while i < ends.len()
        invariant
            bytes@ == path@,
            directory@ == dir_pattern(pattern@),
            i <= ends@.len(),
            forall|j: int|
                0 <= j < ends@.len() ==> (#[trigger] ends@[j]) <= path@.len() && ends_component(
                    path@,
                    ends@[j] as int,
                ),
            forall|j: int|
                0 <= j < i ==> !fits(pattern@, path@, #[trigger] ends@[j] as int),
        decreases ends@.len() - i,
    {
        let n = ends[i];
        let text = from_utf8_lossy(slice_subrange(bytes, 0, n));
        assert(bytes@.subrange(0, n as int) =~= path@.take(n as int));
        if match_pattern(pattern, text.as_str()) || (n < bytes.len() && match_pattern(
            directory.as_str(),
            text.as_str(),
        )) {
            assert(ends_component(path@, n as int));
            return true;
        }
        i = i + 1;
    }
    assert forall|n: int| 0 <= n <= path@.len() && #[trigger] ends_component(path@, n) implies !fits(
        pattern@,
        path@,
        n,
    ) by {
        assert(has_end(ends@, n));
        let j = choose|j: int| 0 <= j < ends@.len() && (#[trigger] ends@[j]) == n;
        assert(!fits(pattern@, path@, ends@[j] as int));
    }
    false
}

/// What is told of a change, unless its path is left out.
pub open spec fn line_about(
    filter: IgnoreFilter,
    path: Seq<u8>,
    details: Seq<char>,
    line: Option<String>,
) -> bool {
    &&& line is None <==> ignored(filter, path)
    &&& line matches Some(text) ==> text@ == lossy_utf8(path) + ": "@ + details
}

impl IgnoreFilter {
    /// A filter of the valid patterns, and what is to be said about the others.
    pub fn new(ignore_files: Vec<String>, ignore_dirs: Vec<String>) -> (r: (
        IgnoreFilter,
        Vec<String>,
    ))
        ensures
            text_views(r.0.file_patterns@) == valid_patterns(text_views(ignore_files@)),
            text_views(r.0.dir_patterns@) == valid_patterns(text_views(ignore_dirs@)),
            text_views(r.1@) == warnings_about(
                "[WARN] Invalid file pattern '"@,
                text_views(ignore_files@),
            ) + warnings_about("[WARN] Invalid directory pattern '"@, text_views(ignore_dirs@)),
    {
        let mut warnings: Vec<String> = Vec::new();
        let ghost none = text_views(warnings@);
        assert(none =~= Seq::empty());
        let ghost about_files = warnings_about(
            "[WARN] Invalid file pattern '"@,
            text_views(ignore_files@),
        );
        let file_patterns = sort_out("[WARN] Invalid file pattern '", ignore_files, &mut warnings);
        assert(text_views(warnings@) =~= about_files);
        let dir_patterns = sort_out(
            "[WARN] Invalid directory pattern '",
            ignore_dirs,
            &mut warnings,
        );
        (IgnoreFilter { file_patterns, dir_patterns }, warnings)
    }

    /// Whether a path is left out.
    pub fn should_ignore(&self, path: &FilePath) -> (r: bool)
        ensures
            r == ignored(*self, path@),
    {
        let text = path.to_string_lossy();
        let mut i: usize = 0;
        while i < self.file_patterns.len()
            invariant
                i <= self.file_patterns@.len(),
                text@ == lossy_utf8(path@),
                forall|j: int|
                    0 <= j < i ==> !glob_matches(
                        (#[trigger] self.file_patterns@[j])@,
                        lossy_utf8(path@),
                    ),
            decreases self.file_patterns@.len() - i,
        {
            if match_pattern(self.file_patterns[i].as_str(), text.as_str()) {
                return true;
            }
            i = i + 1;
        }
        let mut k: usize = 0;
        while k < self.dir_patterns.len()
            invariant
                k <= self.dir_patterns@.len(),
                forall|j: int| 0 <= j < k ==> !covers((#[trigger] self.dir_patterns@[j])@, path@),
            decreases self.dir_patterns@.len() - k,
        {
            if dir_covers(self.dir_patterns[k].as_str(), path) {
                return true;
            }
            k = k + 1;
        }
        false
    }

    /// The line about a change, unless the path is left out.
    pub fn change_line(&self, path: &FilePath, details: &str) -> (r: Option<String>)
        ensures
            r is None <==> ignored(*self, path@),
            r matches Some(line) ==> line@ == lossy_utf8(path@) + ": "@ + details@,
        line_about(*self, path@, details@, r),
    {
        if self.should_ignore(path) {
            return None;
        }
        let mut line = path.to_string_lossy();
        line.append(": ");
        line.append(details);
        assert(line@ =~= lossy_utf8(path@) + ": "@ + details@);
        Some(line)
    }
}

/// Everything in a directory that a pattern matches is left out, however deep.
pub proof fn law_what_is_in_a_matching_directory_is_ignored(
    filter: IgnoreFilter,
    i: int,
    dir: Seq<u8>,
    rest: Seq<u8>,
)
    requires
        0 <= i < filter.dir_patterns@.len(),
        glob_matches(filter.dir_patterns@[i]@, lossy_utf8(dir)) || glob_matches(
            dir_pattern(filter.dir_patterns@[i]@),
            lossy_utf8(dir),
        ),
        dir.len() > 0,
        dir.last() != SEPARATOR,
    ensures
        ignored(filter, dir.push(SEPARATOR) + rest),
{
    let path = dir.push(SEPARATOR) + rest;
    let n = dir.len() as int;
    assert(path.take(n) =~= dir);
    assert(ends_component(path, n));
    assert(fits(filter.dir_patterns@[i]@, path, n));
    assert(covers(filter.dir_patterns@[i]@, path));
}

/// A directory pattern that names something leaves out nothing but what it
/// matches and what is in a directory that it matches: a path that merely begins with the same characters
/// stays.
pub proof fn law_only_matching_directories_are_ignored(filter: IgnoreFilter, path: Seq<u8>)
    requires
        ignored(filter, path),
        filter.file_patterns@.len() == 0,
        forall|i: int|
            0 <= i < filter.dir_patterns@.len() ==> dir_pattern(
                (#[trigger] filter.dir_patterns@[i])@,
            ).len() > 0,
    ensures
        exists|i: int, n: int|
            0 <= i < filter.dir_patterns@.len() && 0 <= n <= path.len() && ends_component(path, n)
                && #[trigger] fits(filter.dir_patterns@[i]@, path, n),
{
    let i = choose|i: int|
        0 <= i < filter.dir_patterns@.len() && covers((#[trigger] filter.dir_patterns@[i])@, path);
    let n = choose|n: int|
        0 <= n <= path.len() && #[trigger] ends_component(path, n) && fits(
            filter.dir_patterns@[i]@,
            path,
            n,
        );
    assert(fits(filter.dir_patterns@[i]@, path, n));
}

/// A path is left out exactly where a file pattern matches it, where a directory
/// pattern matches it or a directory above it, where a directory pattern without
/// what stands for its contents matches a directory above it, or where nothing
/// is left of a directory pattern. Texts of directories above end before a
/// separator, or are the root.
pub proof fn law_left_out_is_what_patterns_match(filter: IgnoreFilter, path: Seq<u8>)
    ensures
        ignored(filter, path) <==> {
            ||| exists|i: int|
                0 <= i < filter.file_patterns@.len() && glob_matches(
                    (#[trigger] filter.file_patterns@[i])@,
                    lossy_utf8(path),
                )
            ||| exists|i: int|
                0 <= i < filter.dir_patterns@.len() && glob_matches(
                    (#[trigger] filter.dir_patterns@[i])@,
                    lossy_utf8(path),
                )
            ||| exists|i: int, n: int|
                {
                    &&& 0 <= i < filter.dir_patterns@.len()
                    &&& 0 < n < path.len()
                    &&& (path[n] == 47 && path[n - 1] != 47) || (n == 1 && path[0] == 47)
                    &&& glob_matches(
                        (#[trigger] filter.dir_patterns@[i])@,
                        #[trigger] lossy_utf8(path.take(n)),
                    ) || glob_matches(
                        dir_pattern(filter.dir_patterns@[i]@),
                        lossy_utf8(path.take(n)),
                    )
                }
            ||| exists|i: int|
                0 <= i < filter.dir_patterns@.len() && dir_pattern(
                    (#[trigger] filter.dir_patterns@[i])@,
                ).len() == 0
        },
{
    let len = path.len() as int;
    assert(path.take(len) =~= path);
    assert forall|i: int| 0 <= i < filter.dir_patterns@.len() && glob_matches(
        (#[trigger] filter.dir_patterns@[i])@,
        lossy_utf8(path),
    ) implies ignored(filter, path) by {
        assert(ends_component(path, len));
        assert(fits(filter.dir_patterns@[i]@, path, len));
        assert(covers(filter.dir_patterns@[i]@, path));
    }
    assert forall|i: int, n: int|
        {
            &&& 0 <= i < filter.dir_patterns@.len()
            &&& 0 < n < path.len()
            &&& (path[n] == 47 && path[n - 1] != 47) || (n == 1 && path[0] == 47)
            &&& glob_matches(
                (#[trigger] filter.dir_patterns@[i])@,
                #[trigger] lossy_utf8(path.take(n)),
            ) || glob_matches(dir_pattern(filter.dir_patterns@[i]@), lossy_utf8(path.take(n)))
        } implies ignored(filter, path) by {
        assert(ends_component(path, n));
        assert(fits(filter.dir_patterns@[i]@, path, n));
        assert(covers(filter.dir_patterns@[i]@, path));
    }
    assert forall|i: int| 0 <= i < filter.dir_patterns@.len() && dir_pattern(
        (#[trigger] filter.dir_patterns@[i])@,
    ).len() == 0 implies ignored(filter, path) by {
        assert(covers(filter.dir_patterns@[i]@, path));
    }
    if ignored(filter, path) && !(exists|i: int|
        0 <= i < filter.file_patterns@.len() && glob_matches(
            (#[trigger] filter.file_patterns@[i])@,
            lossy_utf8(path),
        )) {
        let i = choose|i: int|
            0 <= i < filter.dir_patterns@.len() && covers(
                (#[trigger] filter.dir_patterns@[i])@,
                path,
            );
        let pattern = filter.dir_patterns@[i]@;
        if dir_pattern(pattern).len() > 0 {
            let n = choose|n: int|
                0 <= n <= path.len() && #[trigger] ends_component(path, n) && fits(
                    pattern,
                    path,
                    n,
                );
            if n < len {
                assert(0 < n);
                assert(glob_matches(filter.dir_patterns@[i]@, lossy_utf8(path.take(n)))
                    || glob_matches(dir_pattern(filter.dir_patterns@[i]@), lossy_utf8(path.take(n))));
            }
        }
    }
}

/// With or without a separator and stars behind it, a pattern stands for the
/// same directory.
pub proof fn law_stars_stand_for_what_is_in_a_directory(pattern: Seq<char>)
    requires
        pattern.len() > 0,
        pattern.last() != '*',
        pattern.last() != '/',
    ensures
        dir_pattern(pattern) == pattern,
        dir_pattern(pattern.push('/')) == pattern,
        dir_pattern(pattern.push('/').push('*')) == pattern,
        dir_pattern(pattern.push('/').push('*').push('*')) == pattern,
        dir_pattern(pattern.push('*')) == pattern,
{
    let slash = pattern.push('/');
    let one = slash.push('*');
    let two = one.push('*');
    reveal_with_fuel(without_stars, 3);
    reveal_with_fuel(without_separators, 3);
    assert(slash.drop_last() =~= pattern);
    assert(one.drop_last() =~= slash);
    assert(two.drop_last() =~= one);
    assert(pattern.push('*').drop_last() =~= pattern);
    assert(slash.last() == '/' && one.last() == '*' && two.last() == '*');
    assert(without_stars(pattern) == pattern);
    assert(without_stars(slash) == slash);
    assert(without_stars(one) == slash);
    assert(without_stars(two) == slash);
    assert(without_stars(pattern.push('*')) == pattern);
    assert(without_separators(pattern) == pattern);
    assert(without_separators(slash) == pattern);
}

/// Every valid pattern is used, and every invalid one is told of.
pub proof fn law_patterns_are_used_or_told_of(
    label: Seq<char>,
    texts: Seq<Seq<char>>,
    text: Seq<char>,
)
    ensures
        valid_patterns(Seq::empty()).len() == 0,
        warnings_about(label, Seq::empty()).len() == 0,
        glob_valid(text) ==> valid_patterns(texts.push(text)) == valid_patterns(texts).push(text)
            && warnings_about(label, texts.push(text)) == warnings_about(label, texts),
        !glob_valid(text) ==> valid_patterns(texts.push(text)) == valid_patterns(texts)
            && warnings_about(label, texts.push(text)) == warnings_about(label, texts).push(
            label + text + "': "@ + glob_error(text),
        ),
{
    reveal(Seq::filter);
    assert(texts.push(text).drop_last() =~= texts);
}

/// Of a pattern that is all separators one is left.
pub proof fn law_a_separator_is_left(text: Seq<char>)
    requires
        text.len() > 0,
    ensures
        without_separators(text).len() > 0,
        without_separators(text).is_prefix_of(text),
        without_separators(text).len() > 1 ==> without_separators(text).last() != '/',
        forall|i: int| without_separators(text).len() <= i < text.len() ==> text[i] == '/',
    decreases text.len(),
{
    if text.len() > 1 && text.last() == '/' {
        law_a_separator_is_left(text.drop_last());
        assert forall|i: int| without_separators(text).len() <= i < text.len() implies text[i]
            == '/' by {
            if i < text.len() - 1 {
                assert(text.drop_last()[i] == text[i]);
            }
        }
    }
}

/// A change is told of with its path and what became of it, unless a pattern
/// takes its path.
pub proof fn law_only_what_is_left_out_is_not_told(
    filter: IgnoreFilter,
    path: Seq<u8>,
    details: Seq<char>,
    line: Option<String>,
)
    requires
        line_about(filter, path, details, line),
    ensures
        filter.file_patterns@.len() == 0 && filter.dir_patterns@.len() == 0 ==> line is Some,
        line is Some ==> line->0@ == lossy_utf8(path) + ": "@ + details,
        (exists|i: int|
            0 <= i < filter.file_patterns@.len() && glob_matches(
                (#[trigger] filter.file_patterns@[i])@,
                lossy_utf8(path),
            )) ==> line is None,
{
}

} // verus!
