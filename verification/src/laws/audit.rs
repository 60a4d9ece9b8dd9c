//! What an audit of access control lists reports, told by the entries' fields.
use vstd::prelude::*;
use crate::acl::{
    audited, baseline, finding_text, finding_texts, gives_more, ownership, perm_names, perm_text,
    reported, AclEntry, AclKind, Ownership,
};
use crate::diff::named_if;
use crate::laws::differences::lemma_named;
use crate::path::{FilePath, PathKey};
use crate::text::joined;

verus! {

/// Every entry that allows a named user other than the owner, or a named group
/// other than the owning one, anything behind the mask has its finding, whatever
/// owner and owning group may do. Entries for what will be made in a directory
/// are not meant.
pub proof fn law_access_of_others_is_reported(
    entries: Seq<AclEntry>,
    mode: u32,
    o: Ownership,
    i: int,
)
    requires
        ownership(entries, mode, o),
        0 <= i < entries.len(),
        entries[i].allow,
        !entries[i].is_default,
        entries[i].name@.len() > 0,
        entries[i].perms & o.mask != 0,
        (entries[i].kind == AclKind::User && entries[i].name@ != o.owner@) || (entries[i].kind
            == AclKind::Group && entries[i].name@ != o.group@),
    ensures
        finding_texts(entries, o).contains(
            (if entries[i].kind == AclKind::User {
                "user "@
            } else {
                "group "@
            }) + entries[i].name@ + " has "@ + perm_text(entries[i].perms & o.mask)
                + " permissions"@,
        ),
{
    assert(gives_more(entries[i], o));
    crate::acl::law_extra_access_is_reported(entries, i, o);
}

/// An entry for the owner, or for the owning group, has its finding where it
/// allows something behind the mask that the owner, or the owning group, may not
/// do already.
pub proof fn law_access_beyond_the_own_is_reported(
    entries: Seq<AclEntry>,
    mode: u32,
    o: Ownership,
    i: int,
)
    requires
        ownership(entries, mode, o),
        0 <= i < entries.len(),
        entries[i].allow,
        !entries[i].is_default,
        entries[i].name@.len() > 0,
        (entries[i].kind == AclKind::User && entries[i].perms & o.mask & !o.user_baseline != 0) || (
        entries[i].kind == AclKind::Group && entries[i].perms & o.mask & !o.group_baseline != 0),
    ensures
        finding_texts(entries, o).contains(
            (if entries[i].kind == AclKind::User {
                "user "@
            } else {
                "group "@
            }) + entries[i].name@ + " has "@ + perm_text(entries[i].perms & o.mask)
                + " permissions"@,
        ),
{
    let perms = entries[i].perms;
    let mask = o.mask;
    let user = o.user_baseline;
    let group = o.group_baseline;
    assert(perms & mask == 0 ==> perms & mask & !user == 0 && perms & mask & !group == 0)
        by (bit_vector);
    assert(gives_more(entries[i], o));
    crate::acl::law_extra_access_is_reported(entries, i, o);
}

/// There is one finding for each entry that allows a named user or group
/// something behind the mask, but for the owner and the owning group where they
/// may do that already; and there is no other finding.
pub proof fn law_one_finding_for_each_extra_access(
    entries: Seq<AclEntry>,
    entry: AclEntry,
    o: Ownership,
)
    ensures
        finding_texts(Seq::empty(), o).len() == 0,
        ({
            let given = entry.perms & o.mask;
            let counts = entry.allow && !entry.is_default && given != 0 && entry.name@.len() > 0 && ((
            entry.kind == AclKind::User && (entry.name@ != o.owner@ || given & !o.user_baseline
                != 0)) || (entry.kind == AclKind::Group && (entry.name@ != o.group@ || given
                & !o.group_baseline != 0)));
            finding_texts(entries.push(entry), o) == if counts {
                finding_texts(entries, o).push(
                    (if entry.kind == AclKind::User {
                        "user "@
                    } else {
                        "group "@
                    }) + entry.name@ + " has "@ + perm_text(given) + " permissions"@,
                )
            } else {
                finding_texts(entries, o)
            }
        }),
{
    assert(entries.push(entry).drop_last() =~= entries);
    assert(gives_more(entry, o) ==> finding_text(entry, o) == (if entry.kind == AclKind::User {
        "user "@
    } else {
        "group "@
    }) + entry.name@ + " has "@ + perm_text(entry.perms & o.mask) + " permissions"@);
}

proof fn lemma_baseline_first(entries: Seq<AclEntry>, kind: AclKind, otherwise: u32, i: int)
    requires
        0 <= i <= entries.len(),
        forall|j: int|
            #![trigger entries[j]]
            0 <= j < i ==> entries[j].is_default || entries[j].kind != kind || (kind
                != AclKind::Mask && entries[j].name@.len() > 0),
        i < entries.len() ==> !entries[i].is_default && entries[i].kind == kind && (kind
            == AclKind::Mask || entries[i].name@.len() == 0),
    ensures
        baseline(entries, kind, otherwise) == if i < entries.len() {
            entries[i].perms
        } else {
            otherwise
        },
    decreases entries.len(),
{
    if entries.len() > 0 && i > 0 {
        let rest = entries.drop_first();
        assert(entries[0].is_default || entries[0].kind != kind || (kind != AclKind::Mask
            && entries[0].name@.len() > 0));
        assert forall|j: int|
            #![trigger rest[j]]
            0 <= j < i - 1 implies rest[j].is_default || rest[j].kind != kind || (kind
            != AclKind::Mask && rest[j].name@.len() > 0) by {
            assert(rest[j] == entries[j + 1]);
        }
        lemma_baseline_first(rest, kind, otherwise, i - 1);
    }
}

/// What owner and owning group may do is what the first entry without a name
/// says, and the mask is what the first mask entry says, not counting entries
/// for what will be made in a directory. Where there is no such entry, owner and
/// owning group have what the mode says, and nothing is masked.
pub proof fn law_baselines_come_from_the_list_or_the_mode(
    entries: Seq<AclEntry>,
    mode: u32,
    o: Ownership,
    kind: AclKind,
    i: int,
)
    requires
        ownership(entries, mode, o),
        kind == AclKind::User || kind == AclKind::Group || kind == AclKind::Mask,
        0 <= i <= entries.len(),
        forall|j: int|
            #![trigger entries[j]]
            0 <= j < i ==> entries[j].is_default || entries[j].kind != kind || (kind
                != AclKind::Mask && entries[j].name@.len() > 0),
        i < entries.len() ==> !entries[i].is_default && entries[i].kind == kind && (kind
            == AclKind::Mask || entries[i].name@.len() == 0),
    ensures
        ({
            let value = if kind == AclKind::User {
                o.user_baseline
            } else if kind == AclKind::Group {
                o.group_baseline
            } else {
                o.mask
            };
            value == if i < entries.len() {
                entries[i].perms
            } else if kind == AclKind::User {
                (mode >> 6) & 7
            } else if kind == AclKind::Group {
                (mode >> 3) & 7
            } else {
                7
            }
        }),
{
    assert(4u32 | 2u32 | 1u32 == 7u32) by (bit_vector);
    assert(((mode >> 6) & 7) & 7 == (mode >> 6) & 7) by (bit_vector);
    assert(((mode >> 3) & 7) & 7 == (mode >> 3) & 7) by (bit_vector);
    lemma_baseline_first(entries, kind, if kind == AclKind::User {
        (mode >> 6) & 7
    } else if kind == AclKind::Group {
        (mode >> 3) & 7
    } else {
        7
    }, i);
}

/// Each permission is named where its bit is set and only there.
pub proof fn law_permissions_are_named_by_their_bits(perms: u32)
    ensures
        perm_names(perms).contains("read"@) <==> perms & 4 != 0,
        perm_names(perms).contains("write"@) <==> perms & 2 != 0,
        perm_names(perms).contains("execute"@) <==> perms & 1 != 0,
        perms & 7 == 0 ==> perm_text(perms) == "none"@,
        perms & 7 != 0 ==> perm_text(perms) == joined(perm_names(perms), ","@),
{
    reveal_strlit("read");
    reveal_strlit("write");
    reveal_strlit("execute");
    assert("read"@[0] == 'r' && "write"@[0] == 'w' && "execute"@[0] == 'e');
    let p0 = Seq::<Seq<char>>::empty();
    let p1 = p0 + named_if(perms & 4 != 0, "read"@);
    let p2 = p1 + named_if(perms & 2 != 0, "write"@);
    lemma_named(p0, perms & 4 != 0, "read"@);
    lemma_named(p1, perms & 2 != 0, "write"@);
    lemma_named(p2, perms & 1 != 0, "execute"@);
    assert(p1 =~= named_if(perms & 4 != 0, "read"@));
    assert(p2 + named_if(perms & 1 != 0, "execute"@) == perm_names(perms));
    assert(perms & 7 == 0 <==> perms & 4 == 0 && perms & 2 == 0 && perms & 1 == 0) by (bit_vector);
    let names = perm_names(perms);
    if perms & 7 == 0 {
        assert(names.len() == 0);
        assert(joined(names, ","@).len() == 0);
    } else {
        assert(names.len() > 0);
        assert(names[0].len() > 0) by {
            assert(names.contains(names[0]));
        }
        lemma_joined_len(names, ","@);
    }
}

proof fn lemma_joined_len(list: Seq<Seq<char>>, sep: Seq<char>)
    requires
        list.len() > 0,
    ensures
        joined(list, sep).len() >= list[0].len(),
    decreases list.len(),
{
    if list.len() > 1 {
        lemma_joined_len(list.drop_last(), sep);
    }
}

/// Findings are reported of every path that lies neither at nor below a
/// directory that is left out, and of no other.
pub proof fn law_only_what_is_left_out_is_not_reported(
    findings: nat,
    key: PathKey,
    left_out: Seq<FilePath>,
)
    ensures
        reported(findings, key, left_out) ==> findings > 0,
        findings > 0 && !reported(findings, key, left_out) ==> exists|i: int|
            0 <= i < left_out.len() && (#[trigger] left_out[i]).key().is_prefix_of(key),
        forall|i: int|
            0 <= i < left_out.len() && (#[trigger] left_out[i]).key().is_prefix_of(key)
                ==> !reported(findings, key, left_out),
{
}

/// Where a list has no mask, whatever it allows a named user other than the
/// owner, or a named group other than the owning one, is found, whatever the
/// owner and the group may do.
pub proof fn law_audit_finds_the_access_of_others(
    entries: Seq<AclEntry>,
    mode: u32,
    owner: Seq<char>,
    group: Seq<char>,
    findings: Seq<Seq<char>>,
    i: int,
)
    requires
        audited(entries, mode, owner, group, findings),
        0 <= i < entries.len(),
        entries[i].allow,
        !entries[i].is_default,
        entries[i].name@.len() > 0,
        entries[i].perms & 7 != 0,
        forall|j: int| 0 <= j < entries.len() ==> (#[trigger] entries[j]).kind != AclKind::Mask,
    ensures
        entries[i].kind == AclKind::User && entries[i].name@ != owner ==> findings.contains(
            "user "@ + entries[i].name@ + " has "@ + perm_text(entries[i].perms & 7)
                + " permissions"@,
        ),
        entries[i].kind == AclKind::Group && entries[i].name@ != group ==> findings.contains(
            "group "@ + entries[i].name@ + " has "@ + perm_text(entries[i].perms & 7)
                + " permissions"@,
        ),
        findings.len() <= entries.len(),
{
    let o = choose|o: Ownership|
        #![trigger finding_texts(entries, o)]
        o.owner@ == owner && o.group@ == group && ownership(entries, mode, o) && findings
            == finding_texts(entries, o);
    law_baselines_come_from_the_list_or_the_mode(
        entries,
        mode,
        o,
        AclKind::Mask,
        entries.len() as int,
    );
    if (entries[i].kind == AclKind::User && entries[i].name@ != owner) || (entries[i].kind
        == AclKind::Group && entries[i].name@ != group) {
        law_access_of_others_is_reported(entries, mode, o, i);
    }
    lemma_findings_bound(entries, o);
}

proof fn lemma_findings_bound(entries: Seq<AclEntry>, o: Ownership)
    ensures
        finding_texts(entries, o).len() <= entries.len(),
    decreases entries.len(),
{
    if entries.len() > 0 {
        lemma_findings_bound(entries.drop_last(), o);
    }
}

} // verus!
