//! Access control lists: who gets more than the mode of a file allows.
use vstd::prelude::*;
use crate::diff::{named_if, push_if};
use crate::path::{is_under_any, key_within, FilePath, PathKey};
use crate::text::{decimal, join_texts, joined, number_text, text_chars, text_views};

verus! {

/// The permission to read.
pub const PERM_READ: u32 = 4;

/// The permission to write.
pub const PERM_WRITE: u32 = 2;

/// The permission to run, or to search a directory.
pub const PERM_EXECUTE: u32 = 1;

/// Whom an entry is about.
#[derive(Debug, Clone, Copy, PartialEq, Eq, Structural)]
pub enum AclKind {
    User,
    Group,
    Mask,
    Other,
    Unknown,
}

/// An entry of an access control list.
#[derive(Debug)]
pub struct AclEntry {
    pub kind: AclKind,
    /// The user or group; empty for the owner and the owning group.
    pub name: String,
    pub perms: u32,
    /// The entry is for what will be made in a directory, not for the directory
    /// itself.
    pub is_default: bool,
    pub allow: bool,
}

/// The names of permissions.
pub open spec fn perm_names(perms: u32) -> Seq<Seq<char>> {
    named_if(perms & PERM_READ != 0, "read"@) + named_if(perms & PERM_WRITE != 0, "write"@)
        + named_if(perms & PERM_EXECUTE != 0, "execute"@)
}

/// Names permissions, with commas between the names. Bits that mean nothing are
/// left out.
fn perm_to_string(perms: u32) -> (r: String)
    ensures
        r@ == joined(perm_names(perms), ","@),
{
    let mut names: Vec<String> = Vec::new();
    assert(text_views(names@) =~= Seq::empty());
    push_if(&mut names, perms & PERM_READ != 0, "read");
    push_if(&mut names, perms & PERM_WRITE != 0, "write");
    push_if(&mut names, perms & PERM_EXECUTE != 0, "execute");
    assert(text_views(names@) =~= perm_names(perms));
    join_texts(&names, ",")
}

/// How permissions are written.
pub open spec fn perm_text(perms: u32) -> Seq<char> {
    let text = joined(perm_names(perms), ","@);
    if text.len() == 0 {
        "none"@
    } else {
        text
    }
}

/// Writes permissions.
pub fn perm_display(perms: u32) -> (r: String)
    ensures
        r@ == perm_text(perms),
{
    let text = perm_to_string(perms);
    if text_chars(text.as_str()).len() == 0 {
        "none".to_string()
    } else {
        text
    }
}

/// The permissions of one octal digit of a mode.
pub open spec fn octet_perms(bits: u32) -> u32 {
    bits & 7
}

/// The permissions of one octal digit of a mode.
pub fn mode_octet_to_perm(bits: u32) -> (r: u32)
    ensures
        r == octet_perms(bits),
{
    let read: u32 = if bits & 4 != 0 {
        PERM_READ
    } else {
        0
    };
    let write: u32 = if bits & 2 != 0 {
        PERM_WRITE
    } else {
        0
    };
    let execute: u32 = if bits & 1 != 0 {
        PERM_EXECUTE
    } else {
        0
    };
    assert(read | write | execute == bits & 7) by (bit_vector)
        requires
            read == if bits & 4 != 0 { 4u32 } else { 0u32 },
            write == if bits & 2 != 0 { 2u32 } else { 0u32 },
            execute == if bits & 1 != 0 { 1u32 } else { 0u32 },
    ;
    read | write | execute
}

/// The user or group whose name is known, or else the number.
pub fn name_or_number(name: Option<String>, id: u32) -> (r: String)
    ensures
        r@ == match name {
            Some(text) => text@,
            None => decimal(id as int),
        },
{
    match name {
        Some(text) => text,
        None => number_text(id as u64, 10),
    }
}

/// The entry sets a baseline: it is for the path itself, of the kind, and
/// without a name, or the mask.
pub open spec fn sets(entry: AclEntry, kind: AclKind) -> bool {
    !entry.is_default && entry.kind == kind && (kind == AclKind::Mask || entry.name@.len() == 0)
}

/// The permissions of the first entry that sets a baseline, or else those
/// given.
pub open spec fn baseline(entries: Seq<AclEntry>, kind: AclKind, otherwise: u32) -> u32
    decreases entries.len(),
{
    if entries.len() == 0 {
        otherwise
    } else if sets(entries[0], kind) {
        entries[0].perms
    } else {
        baseline(entries.drop_first(), kind, otherwise)
    }
}

fn is_empty(text: &String) -> (r: bool)
    ensures
        r == (text@.len() == 0),
{
    text_chars(text.as_str()).len() == 0
}

fn find_baseline(entries: &Vec<AclEntry>, kind: AclKind, otherwise: u32) -> (r: u32)
    ensures
        r == baseline(entries@, kind, otherwise),
{
    let mut i: usize = 0;
    assert(entries@.skip(0) =~= entries@);
    while i < entries.len()
        invariant
            i <= entries@.len(),
            baseline(entries@.skip(i as int), kind, otherwise) == baseline(
                entries@,
                kind,
                otherwise,
            ),
        decreases entries@.len() - i,
    {
        let entry = &entries[i];
        assert(entries@.skip(i as int)[0] == *entry);
        if !entry.is_default && entry.kind == kind && (kind == AclKind::Mask || is_empty(
            &entry.name,
        )) {
            return entry.perms;
        }
        assert(entries@.skip(i as int).drop_first() =~= entries@.skip(i + 1));
        i = i + 1;
    }
    otherwise
}

/// Who owns a path, and what owner and owning group may do with it, and how
/// much anybody else can be given.
#[derive(Debug)]
pub struct Ownership {
    pub owner: String,
    pub group: String,
    pub user_baseline: u32,
    pub group_baseline: u32,
    pub mask: u32,
}

/// What is left of permissions behind a mask.
pub open spec fn effective(entry: AclEntry, o: Ownership) -> u32 {
    entry.perms & o.mask
}

/// An entry gives a named user or group something that the mode of the file
/// does not give already. Entries that deny, and those for what will be made in
/// a directory, give nothing.
pub open spec fn gives_more(entry: AclEntry, o: Ownership) -> bool {
    let given = effective(entry, o);
    &&& entry.allow
    &&& !entry.is_default
    &&& given != 0
    &&& entry.name@.len() > 0
    &&& match entry.kind {
        AclKind::User => !(entry.name@ == o.owner@ && given & !o.user_baseline == 0),
        AclKind::Group => !(entry.name@ == o.group@ && given & !o.group_baseline == 0),
        _ => false,
    }
}

/// What is said about an entry.
pub open spec fn finding_text(entry: AclEntry, o: Ownership) -> Seq<char> {
    (if entry.kind == AclKind::User {
        "user "@
    } else {
        "group "@
    }) + entry.name@ + " has "@ + perm_text(effective(entry, o)) + " permissions"@
}

/// What is said about the entries.
pub open spec fn finding_texts(entries: Seq<AclEntry>, o: Ownership) -> Seq<Seq<char>>
    decreases entries.len(),
{
    if entries.len() == 0 {
        Seq::empty()
    } else {
        let before = finding_texts(entries.drop_last(), o);
        if gives_more(entries.last(), o) {
            before.push(finding_text(entries.last(), o))
        } else {
            before
        }
    }
}

fn grants(entry: &AclEntry, o: &Ownership) -> (r: bool)
    ensures
        r == gives_more(*entry, *o),
{
    let given = entry.perms & o.mask;
    if !entry.allow || entry.is_default || given == 0 || is_empty(&entry.name) {
        return false;
    }
    match entry.kind {
        AclKind::User => !(entry.name == o.owner && given & !o.user_baseline == 0),
        AclKind::Group => !(entry.name == o.group && given & !o.group_baseline == 0),
        _ => false,
    }
}

fn finding(entry: &AclEntry, o: &Ownership) -> (r: String)
    ensures
        r@ == finding_text(*entry, *o),
{
    let mut r = String::new();
    if entry.kind == AclKind::User {
        r.append("user ");
    } else {
        r.append("group ");
    }
    r.append(entry.name.as_str());
    r.append(" has ");
    r.append(perm_display(entry.perms & o.mask).as_str());
    r.append(" permissions");
    assert(r@ =~= finding_text(*entry, *o));
    r
}

/// Says which entries give somebody more than the mode of the file does.
pub fn audit_entries(entries: &Vec<AclEntry>, o: &Ownership) -> (r: Vec<String>)
    ensures
        text_views(r@) == finding_texts(entries@, *o),
{
    let mut findings: Vec<String> = Vec::new();
    let mut i: usize = 0;
    assert(entries@.take(0) =~= Seq::empty());
    assert(text_views(findings@) =~= Seq::empty());
    while i < entries.len()
        invariant
            i <= entries@.len(),
            text_views(findings@) == finding_texts(entries@.take(i as int), *o),
        decreases entries@.len() - i,
    {
        let ghost before = findings@;
        proof {
            assert(entries@.take(i + 1).drop_last() =~= entries@.take(i as int));
            assert(entries@.take(i + 1).last() == entries@[i as int]);
        }
        if grants(&entries[i], o) {
            let text = finding(&entries[i], o);
            findings.push(text);
            assert(text_views(findings@) =~= text_views(before).push(text@));
        }
        i = i + 1;
    }
    assert(entries@.take(i as int) =~= entries@);
    findings
}

/// What owner and owning group may do according to the list and the mode.
pub open spec fn ownership(entries: Seq<AclEntry>, mode: u32, o: Ownership) -> bool {
    &&& o.user_baseline == baseline(entries, AclKind::User, octet_perms((mode >> 6) & 7))
    &&& o.group_baseline == baseline(entries, AclKind::Group, octet_perms((mode >> 3) & 7))
    &&& o.mask == baseline(entries, AclKind::Mask, PERM_READ | PERM_WRITE | PERM_EXECUTE)
}

/// The findings about a path, by its list, its mode and who owns it.
pub open spec fn audited(
    entries: Seq<AclEntry>,
    mode: u32,
    owner: Seq<char>,
    group: Seq<char>,
    findings: Seq<Seq<char>>,
) -> bool {
    exists|o: Ownership|
        #![trigger finding_texts(entries, o)]
        o.owner@ == owner && o.group@ == group && ownership(entries, mode, o) && findings
            == finding_texts(entries, o)
}

/// Says which entries of a path's list give somebody more than its mode does.
pub fn audit_path(entries: &Vec<AclEntry>, mode: u32, owner: &str, group: &str) -> (r: Vec<String>)
    ensures
        exists|o: Ownership|
            #![trigger finding_texts(entries@, o)]
            o.owner@ == owner@ && o.group@ == group@ && ownership(entries@, mode, o) && text_views(
                r@,
            ) == finding_texts(entries@, o),
        audited(entries@, mode, owner@, group@, text_views(r@)),
{
    let user_baseline = find_baseline(
        entries,
        AclKind::User,
        mode_octet_to_perm((mode >> 6) & 7),
    );
    let group_baseline = find_baseline(
        entries,
        AclKind::Group,
        mode_octet_to_perm((mode >> 3) & 7),
    );
    let mask = find_baseline(entries, AclKind::Mask, PERM_READ | PERM_WRITE | PERM_EXECUTE);
    let o = Ownership {
        owner: owner.to_string(),
        group: group.to_string(),
        user_baseline,
        group_baseline,
        mask,
    };
    audit_entries(entries, &o)
}

/// Findings are reported of a path that lies in none of the directories left
/// out.
pub open spec fn reported(findings: nat, key: PathKey, left_out: Seq<FilePath>) -> bool {
    findings > 0 && forall|i: int|
        0 <= i < left_out.len() ==> !key_within(key, (#[trigger] left_out[i]).key())
}

/// Whether the findings about a path are reported.
pub fn is_reported(findings: &Vec<String>, path: &FilePath, do_not_report: &Vec<FilePath>) -> (r:
    bool)
    ensures
        r == (findings@.len() > 0 && !exists|i: int|
            0 <= i < do_not_report@.len() && key_within(
                path.key(),
                #[trigger] do_not_report@[i].key(),
            )),
        r == reported(findings@.len(), path.key(), do_not_report@),
{
    findings.len() > 0 && !is_under_any(path, do_not_report)
}

/// A filter takes the first entry of a list, or leaves it out, and goes on with
/// the rest.
proof fn lemma_filter_front(entries: Seq<AclEntry>, p: spec_fn(AclEntry) -> bool)
    requires
        entries.len() > 0,
    ensures
        entries.filter(p) == (if p(entries[0]) {
            seq![entries[0]]
        } else {
            Seq::empty()
        }) + entries.drop_first().filter(p),
    decreases entries.len(),
{
    reveal(Seq::filter);
    if entries.len() == 1 {
        assert(entries.drop_first() =~= Seq::empty());
        assert(entries.drop_last() =~= Seq::empty());
        assert(entries.drop_first().filter(p) =~= Seq::empty());
        assert(entries.drop_last().filter(p) =~= Seq::empty());
    } else {
        lemma_filter_front(entries.drop_last(), p);
        assert(entries.drop_last().drop_first() =~= entries.drop_first().drop_last());
    }
    assert(entries.filter(p) =~= (if p(entries[0]) {
        seq![entries[0]]
    } else {
        Seq::empty()
    }) + entries.drop_first().filter(p));
}

/// Entries that set no baseline can go without a change to it.
proof fn lemma_baseline_of_kept(
    entries: Seq<AclEntry>,
    p: spec_fn(AclEntry) -> bool,
    kind: AclKind,
    otherwise: u32,
)
    requires
        forall|e: AclEntry| !#[trigger] p(e) ==> !sets(e, kind),
    ensures
        baseline(entries.filter(p), kind, otherwise) == baseline(entries, kind, otherwise),
    decreases entries.len(),
{
    if entries.len() == 0 {
        reveal(Seq::filter);
        assert(entries.filter(p) =~= entries);
    } else {
        let rest = entries.drop_first();
        lemma_filter_front(entries, p);
        lemma_baseline_of_kept(rest, p, kind, otherwise);
        let kept = entries.filter(p);
        if p(entries[0]) {
            assert(kept[0] == entries[0]);
            assert(kept.drop_first() =~= rest.filter(p));
        } else {
            assert(kept =~= rest.filter(p));
        }
    }
}

/// Entries that give nothing can go without a change to what is said.
proof fn lemma_findings_of_kept(
    entries: Seq<AclEntry>,
    p: spec_fn(AclEntry) -> bool,
    o: Ownership,
)
    requires
        forall|e: AclEntry| !#[trigger] p(e) ==> !gives_more(e, o),
    ensures
        finding_texts(entries.filter(p), o) == finding_texts(entries, o),
    decreases entries.len(),
{
    reveal(Seq::filter);
    if entries.len() == 0 {
        assert(entries.filter(p) =~= entries);
    } else {
        let rest = entries.drop_last();
        lemma_findings_of_kept(rest, p, o);
        let kept = entries.filter(p);
        if p(entries.last()) {
            assert(kept == rest.filter(p).push(entries.last()));
            assert(kept.drop_last() =~= rest.filter(p));
            assert(kept.last() == entries.last());
        } else {
            assert(kept == rest.filter(p));
        }
    }
}

/// An entry for the path itself.
pub open spec fn is_own() -> spec_fn(AclEntry) -> bool {
    |entry: AclEntry| !entry.is_default
}

/// Entries for what will be made in a directory do not count: without them the
/// baselines and the findings are the same.
pub proof fn law_default_entries_do_not_count(entries: Seq<AclEntry>, mode: u32, o: Ownership)
    ensures
        finding_texts(entries.filter(is_own()), o) == finding_texts(entries, o),
        ownership(entries.filter(is_own()), mode, o) == ownership(entries, mode, o),
{
    let p = is_own();
    lemma_baseline_of_kept(entries, p, AclKind::User, octet_perms((mode >> 6) & 7));
    lemma_baseline_of_kept(entries, p, AclKind::Group, octet_perms((mode >> 3) & 7));
    lemma_baseline_of_kept(entries, p, AclKind::Mask, PERM_READ | PERM_WRITE | PERM_EXECUTE);
    lemma_findings_of_kept(entries, p, o);
}

/// Anything but an entry that denies something to a named user or group.
pub open spec fn is_no_denial() -> spec_fn(AclEntry) -> bool {
    |entry: AclEntry| entry.allow || entry.name@.len() == 0 || entry.kind == AclKind::Mask
}

/// Entries that deny something to a named user or group do not count, wherever
/// they stand: without them the baselines and the findings are the same.
pub proof fn law_denials_do_not_count(entries: Seq<AclEntry>, mode: u32, o: Ownership)
    ensures
        finding_texts(entries.filter(is_no_denial()), o) == finding_texts(entries, o),
        ownership(entries.filter(is_no_denial()), mode, o) == ownership(entries, mode, o),
{
    let p = is_no_denial();
    lemma_baseline_of_kept(entries, p, AclKind::User, octet_perms((mode >> 6) & 7));
    lemma_baseline_of_kept(entries, p, AclKind::Group, octet_perms((mode >> 3) & 7));
    lemma_baseline_of_kept(entries, p, AclKind::Mask, PERM_READ | PERM_WRITE | PERM_EXECUTE);
    lemma_findings_of_kept(entries, p, o);
}

/// Whoever gets more than the mode of the file gives is reported, wherever the
/// entry stands in the list.
pub proof fn law_extra_access_is_reported(entries: Seq<AclEntry>, i: int, o: Ownership)
    requires
        0 <= i < entries.len(),
        gives_more(entries[i], o),
    ensures
        finding_texts(entries, o).contains(finding_text(entries[i], o)),
    decreases entries.len(),
{
    let rest = entries.drop_last();
    let before = finding_texts(rest, o);
    let all = finding_texts(entries, o);
    if i == entries.len() - 1 {
        assert(all[before.len() as int] == finding_text(entries[i], o));
    } else {
        law_extra_access_is_reported(rest, i, o);
        let j = choose|j: int| 0 <= j < before.len() && before[j] == finding_text(entries[i], o);
        assert(all[j] == before[j]);
    }
}

} // verus!
