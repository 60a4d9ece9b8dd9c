//! Extended attributes.
use vstd::prelude::*;
use vstd::utf8::{decode_utf8, encode_utf8, valid_utf8};
use crate::digest::{xxh3_64, FileHasher};
use crate::node::context_view;
use crate::order::{bytes_lt, compare_bytes, lemma_bytes_total, lemma_bytes_transitive, Order};
use crate::text::{from_utf8, from_utf8_lossy, lossy_utf8, text_bytes};

verus! {

/// The bytes of each list of bytes.
pub open spec fn byte_views(list: Seq<Vec<u8>>) -> Seq<Seq<u8>> {
    list.map_values(|v: Vec<u8>| v@)
}

/// `order` names each place of `keys` once, the keys in ascending order.
pub open spec fn sorts(order: Seq<usize>, keys: Seq<Seq<u8>>) -> bool {
    &&& order.len() == keys.len() <= usize::MAX
    &&& order.no_duplicates()
    &&& forall|i: int| 0 <= i < order.len() ==> (#[trigger] order[i]) < keys.len()
    &&& forall|i: int, j: int|
        0 <= i < j < order.len() ==> !bytes_lt(
            keys[(#[trigger] order[j]) as int],
            keys[(#[trigger] order[i]) as int],
        )
}

/// `order` names places of `keys`, each once, the keys in ascending order.
spec fn sorts_first(order: Seq<usize>, keys: Seq<Seq<u8>>, n: int) -> bool {
    &&& order.len() == n
    &&& order.no_duplicates()
    &&& forall|i: int| 0 <= i < order.len() ==> (#[trigger] order[i]) < n
    &&& forall|i: int, j: int|
        0 <= i < j < order.len() ==> !bytes_lt(
            keys[(#[trigger] order[j]) as int],
            keys[(#[trigger] order[i]) as int],
        )
}

/// Puts a place where its key belongs.
fn place(order: &mut Vec<usize>, keys: &Vec<Vec<u8>>, n: usize)
    requires
        n < keys@.len(),
        sorts_first(old(order)@, byte_views(keys@), n as int),
    ensures
        sorts_first(final(order)@, byte_views(keys@), n + 1),
{
    let ghost views = byte_views(keys@);
    let ghost before = order@;
    let key = &keys[n];
    assert(views[n as int] == key@);
    let mut at: usize = order.len();
    while at > 0 && is_less(key, &keys[order[at - 1]])
        invariant
            at <= order@.len(),
            order@ == before,
            n < keys@.len(),
            views == byte_views(keys@),
            key@ == views[n as int],
            sorts_first(before, views, n as int),
            forall|i: int| at <= i < before.len() ==> bytes_lt(key@, views[(#[trigger] before[i]) as int]),
        decreases at,
    {
        assert(views[before[at - 1] as int] == keys@[before[at - 1] as int]@);
        at = at - 1;
    }
    order.insert(at, n);
    proof {
        let after = order@;
        assert(after =~= before.insert(at as int, n));
        assert forall|i: int| 0 <= i < after.len() implies (#[trigger] after[i]) < n + 1 by {
            let x = if i < at { i } else { i - 1 };
            if i != at {
                assert(after[i] == before[x]);
            }
        }
        assert(after.no_duplicates()) by {
            assert forall|i: int, j: int| 0 <= i < after.len() && 0 <= j < after.len() && i
                != j implies after[i] != after[j] by {
                let x = if i < at { i } else { i - 1 };
                let y = if j < at { j } else { j - 1 };
                if i != at {
                    assert(after[i] == before[x] && before[x] < n);
                }
                if j != at {
                    assert(after[j] == before[y] && before[y] < n);
                }
            }
        }
        assert forall|i: int, j: int| 0 <= i < j < after.len() implies !bytes_lt(
            views[(#[trigger] after[j]) as int],
            views[(#[trigger] after[i]) as int],
        ) by {
            let x = if i < at { i } else { i - 1 };
            let y = if j < at { j } else { j - 1 };
            if i == at {
                assert(after[j] == before[y]);
                assert(bytes_lt(key@, views[before[y] as int]));
                lemma_bytes_total(key@, views[before[y] as int]);
            } else if j == at {
                assert(after[i] == before[x]);
                let last = views[before[at - 1] as int];
                assert(!bytes_lt(key@, last)) by {
                    assert(views[before[at - 1] as int] == keys@[before[at - 1] as int]@);
                }
                if bytes_lt(key@, views[before[x] as int]) {
                    if x < at - 1 {
                        assert(!bytes_lt(last, views[before[x] as int]));
                        lemma_bytes_total(last, views[before[x] as int]);
                        if views[before[x] as int] != last {
                            lemma_bytes_transitive(key@, views[before[x] as int], last);
                        }
                    }
                }
            } else {
                assert(after[i] == before[x] && after[j] == before[y]);
            }
        }
    }
}

fn is_less(a: &Vec<u8>, b: &Vec<u8>) -> (r: bool)
    ensures
        r == bytes_lt(a@, b@),
{
    match compare_bytes(a.as_slice(), b.as_slice()) {
        Order::Less => true,
        _ => false,
    }
}

/// The places of the keys in ascending order.
pub fn sorted_order(keys: &Vec<Vec<u8>>) -> (r: Vec<usize>)
    ensures
        sorts(r@, byte_views(keys@)),
{
    let mut order: Vec<usize> = Vec::new();
    let mut n: usize = 0;
    while n < keys.len()
        invariant
            n <= keys@.len(),
            sorts_first(order@, byte_views(keys@), n as int),
        decreases keys@.len() - n,
    {
        place(&mut order, keys, n);
        n = n + 1;
    }
    order
}

/// The attributes' names and values, in some order, as they go into the
/// checksum. What cannot be read is left out.
pub open spec fn attr_bytes(
    names: Seq<Seq<u8>>,
    values: Seq<Option<Seq<u8>>>,
    order: Seq<usize>,
) -> Seq<u8>
    decreases order.len(),
{
    if order.len() == 0 {
        Seq::empty()
    } else {
        let before = attr_bytes(names, values, order.drop_last());
        let at = order.last() as int;
        match values[at] {
            Some(data) => before + names[at] + data,
            None => before,
        }
    }
}

/// The values that could be read.
pub open spec fn value_views(values: Seq<Option<Vec<u8>>>) -> Seq<Option<Seq<u8>>> {
    values.map_values(
        |v: Option<Vec<u8>>|
            match v {
                Some(data) => Some(data@),
                None => None,
            },
    )
}

/// The checksum of extended attributes: their names in ascending order, each
/// with its value.
pub fn get_xattrs_hash(names: &Vec<Vec<u8>>, values: &Vec<Option<Vec<u8>>>) -> (r: u64)
    requires
        names@.len() == values@.len(),
    ensures
        exists|order: Seq<usize>|
            #![trigger sorts(order, byte_views(names@))]
            sorts(order, byte_views(names@)) && r == xxh3_64(
                attr_bytes(byte_views(names@), value_views(values@), order),
            ),
{
    let order = sorted_order(names);
    let ghost all = byte_views(names@);
    let ghost data = value_views(values@);
    let mut hasher = FileHasher::new();
    let mut i: usize = 0;
    assert(order@.take(0) =~= Seq::empty());
    while i < order.len()
        invariant
            i <= order@.len(),
            sorts(order@, all),
            all == byte_views(names@),
            data == value_views(values@),
            names@.len() == values@.len(),
            hasher@ == attr_bytes(all, data, order@.take(i as int)),
        decreases order@.len() - i,
    {
        let at = order[i];
        let ghost before = hasher@;
        proof {
            assert(order@.take(i + 1).drop_last() =~= order@.take(i as int));
            assert(order@.take(i + 1).last() == at);
            assert(all[at as int] == names@[at as int]@);
        }
        if let Some(value) = &values[at] {
            hasher.update(names[at].as_slice());
            hasher.update(value.as_slice());
            assert(hasher@ =~= before + all[at as int] + value@);
        }
        i = i + 1;
    }
    assert(order@.take(i as int) =~= order@);
    hasher.digest()
}

/// The texts of names, as far as they are text.
pub open spec fn lossy_texts(names: Seq<Seq<u8>>) -> Seq<Seq<char>> {
    names.map_values(|name: Seq<u8>| lossy_utf8(name))
}

/// The bytes of those texts, by which they are ordered.
pub open spec fn lossy_bytes(names: Seq<Seq<u8>>) -> Seq<Seq<u8>> {
    names.map_values(|name: Seq<u8>| encode_utf8(lossy_utf8(name)))
}

/// The names of extended attributes for display, in ascending order.
pub fn get_xattrs_keys(names: &Vec<Vec<u8>>) -> (r: Vec<String>)
    ensures
        exists|order: Seq<usize>|
            #![trigger sorts(order, lossy_bytes(byte_views(names@)))]
            sorts(order, lossy_bytes(byte_views(names@))) && r@.map_values(|s: String| s@) == order.map_values(
                |at: usize| lossy_texts(byte_views(names@))[at as int],
            ),
{
    let ghost all = lossy_texts(byte_views(names@));
    let ghost encoded = lossy_bytes(byte_views(names@));
    let mut keys: Vec<Vec<u8>> = Vec::new();
    let mut i: usize = 0;
    while i < names.len()
        invariant
            i <= names@.len(),
            all == lossy_texts(byte_views(names@)),
            encoded == lossy_bytes(byte_views(names@)),
            keys@.len() == i,
            forall|j: int| 0 <= j < i ==> (#[trigger] keys@[j])@ == encoded[j],
        decreases names@.len() - i,
    {
        let text = from_utf8_lossy(names[i].as_slice());
        assert(all[i as int] == text@);
        keys.push(text_bytes(text.as_str()));
        i = i + 1;
    }
    assert(byte_views(keys@) =~= encoded);
    let order = sorted_order(&keys);
    let mut r: Vec<String> = Vec::new();
    let mut j: usize = 0;
    while j < order.len()
        invariant
            j <= order@.len(),
            all == lossy_texts(byte_views(names@)),
            sorts(order@, encoded),
            encoded.len() == names@.len(),
            r@.len() == j,
            forall|x: int| 0 <= x < j ==> (#[trigger] r@[x])@ == all[order@[x] as int],
        decreases order@.len() - j,
    {
        let at = order[j];
        let text = from_utf8_lossy(names[at].as_slice());
        assert(all[at as int] == text@);
        r.push(text);
        j = j + 1;
    }
    proof {
        let pick = |at: usize| lossy_texts(byte_views(names@))[at as int];
        assert(r@.map_values(|s: String| s@) =~= order@.map_values(pick));
        assert(sorts(order@, encoded));
    }
    r
}

/// Bytes up to the first zero.
pub open spec fn up_to_zero(bytes: Seq<u8>) -> Seq<u8>
    decreases bytes.len(),
{
    if bytes.len() == 0 || bytes[0] == 0 {
        Seq::empty()
    } else {
        seq![bytes[0]] + up_to_zero(bytes.drop_first())
    }
}

/// The security context that an attribute holds, where it is text.
pub open spec fn context_in(value: Option<Vec<u8>>) -> Option<Seq<char>> {
    match value {
        Some(data) => if valid_utf8(up_to_zero(data@)) {
            Some(decode_utf8(up_to_zero(data@)))
        } else {
            None
        },
        None => None,
    }
}

fn read_context(value: &Option<Vec<u8>>) -> (r: Option<String>)
    ensures
        r is Some <==> context_in(*value) is Some,
        r matches Some(text) ==> context_in(*value) == Some(text@),
{
    match value {
        Some(data) => {
            let mut bytes: Vec<u8> = Vec::new();
            let mut i: usize = 0;
            assert(data@.skip(0) =~= data@);
            assert(bytes@ + up_to_zero(data@) =~= up_to_zero(data@));
            while i < data.len() && data[i] != 0
                invariant
                    i <= data@.len(),
                    bytes@ + up_to_zero(data@.skip(i as int)) == up_to_zero(data@),
                decreases data@.len() - i,
            {
                let ghost before = bytes@;
                let ghost rest = data@.skip(i as int);
                bytes.push(data[i]);
                i = i + 1;
                proof {
                    assert(rest.drop_first() =~= data@.skip(i as int));
                    assert(rest[0] == data@[i - 1]);
                    assert(bytes@ + up_to_zero(data@.skip(i as int)) =~= before + (seq![rest[0]]
                        + up_to_zero(rest.drop_first())));
                }
            }
            assert(bytes@ =~= up_to_zero(data@)) by {
                let rest = data@.skip(i as int);
                assert(rest.len() > 0 ==> rest[0] == data@[i as int]);
                assert(up_to_zero(rest) =~= Seq::empty());
            }
            from_utf8(bytes)
        },
        None => None,
    }
}

/// The security context that counts.
pub open spec fn context_of(selinux: Option<Vec<u8>>, apparmor: Option<Vec<u8>>) -> Option<
    Seq<char>,
> {
    if context_in(selinux) is Some {
        context_in(selinux)
    } else {
        context_in(apparmor)
    }
}

/// The security context of a path: that of SELinux, or else that of AppArmor.
pub fn get_lsm_context(selinux: &Option<Vec<u8>>, apparmor: &Option<Vec<u8>>) -> (r: Option<String>)
    ensures
        ({
            let wanted = if context_in(*selinux) is Some {
                context_in(*selinux)
            } else {
                context_in(*apparmor)
            };
            &&& r is Some <==> wanted is Some
            &&& r matches Some(text) ==> wanted == Some(text@)
        }),
        context_view(r) == context_of(*selinux, *apparmor),
{
    match read_context(selinux) {
        Some(text) => Some(text),
        None => read_context(apparmor),
    }
}

/// An attribute: its name, and its value where that could be read.
pub type Attr = (Seq<u8>, Option<Seq<u8>>);

/// Attributes in a list.
pub open spec fn attrs_of(names: Seq<Seq<u8>>, values: Seq<Option<Seq<u8>>>) -> Seq<Attr> {
    Seq::new(names.len(), |i: int| (names[i], values[i]))
}

/// What attributes put into the checksum.
spec fn fed(list: Seq<Attr>) -> Seq<u8>
    decreases list.len(),
{
    if list.len() == 0 {
        Seq::empty()
    } else {
        match list.last().1 {
            Some(data) => fed(list.drop_last()) + list.last().0 + data,
            None => fed(list.drop_last()),
        }
    }
}

spec fn ascending(list: Seq<Attr>) -> bool {
    forall|i: int, j: int|
        0 <= i < j < list.len() ==> bytes_lt((#[trigger] list[i]).0, (#[trigger] list[j]).0)
}

proof fn lemma_same_attrs(a: Seq<Attr>, b: Seq<Attr>)
    requires
        ascending(a),
        ascending(b),
        forall|x: Attr| #[trigger] a.contains(x) <==> b.contains(x),
    ensures
        a == b,
    decreases a.len(),
{
    if a.len() == 0 {
        if b.len() > 0 {
            assert(b.contains(b[0]));
            assert(a.contains(b[0]));
        }
        assert(a =~= b);
    } else {
        assert(a.contains(a.last()));
        let y = choose|y: int| 0 <= y < b.len() && b[y] == a.last();
        assert(b.contains(b.last()));
        assert(a.contains(b.last()));
        let x = choose|x: int| 0 <= x < a.len() && a[x] == b.last();
        if y < b.len() - 1 {
            assert(bytes_lt(b[y].0, b[b.len() - 1].0));
            lemma_bytes_total(b[y].0, b.last().0);
            if x < a.len() - 1 {
                assert(bytes_lt(a[x].0, a[a.len() - 1].0));
            }
        }
        assert(a.last() == b.last());
        let a1 = a.drop_last();
        let b1 = b.drop_last();
        assert(ascending(a1)) by {
            assert forall|i: int, j: int| 0 <= i < j < a1.len() implies bytes_lt(
                (#[trigger] a1[i]).0,
                (#[trigger] a1[j]).0,
            ) by {
                assert(bytes_lt(a[i].0, a[j].0));
            }
        }
        assert(ascending(b1)) by {
            assert forall|i: int, j: int| 0 <= i < j < b1.len() implies bytes_lt(
                (#[trigger] b1[i]).0,
                (#[trigger] b1[j]).0,
            ) by {
                assert(bytes_lt(b[i].0, b[j].0));
            }
        }
        assert forall|e: Attr| #[trigger] a1.contains(e) <==> b1.contains(e) by {
            if a1.contains(e) {
                let i = choose|i: int| 0 <= i < a1.len() && a1[i] == e;
                assert(a[i] == e);
                assert(a.contains(e));
                let j = choose|j: int| 0 <= j < b.len() && b[j] == e;
                if j == b.len() - 1 {
                    assert(bytes_lt(a[i].0, a[a.len() - 1].0));
                    lemma_bytes_total(e.0, e.0);
                }
                assert(b1[j] == e);
            }
            if b1.contains(e) {
                let i = choose|i: int| 0 <= i < b1.len() && b1[i] == e;
                assert(b[i] == e);
                assert(b.contains(e));
                assert(a.contains(e));
                let j = choose|j: int| 0 <= j < a.len() && a[j] == e;
                if j == a.len() - 1 {
                    assert(bytes_lt(b[i].0, b[b.len() - 1].0));
                    lemma_bytes_total(e.0, e.0);
                }
                assert(a1[j] == e);
            }
        }
        lemma_same_attrs(a1, b1);
        assert(a =~= a1.push(a.last()));
        assert(b =~= b1.push(b.last()));
    }
}

/// The attributes in an order.
spec fn arranged(names: Seq<Seq<u8>>, values: Seq<Option<Seq<u8>>>, order: Seq<usize>) -> Seq<Attr> {
    order.map_values(|at: usize| (names[at as int], values[at as int]))
}

proof fn lemma_fed(names: Seq<Seq<u8>>, values: Seq<Option<Seq<u8>>>, order: Seq<usize>)
    ensures
        attr_bytes(names, values, order) == fed(arranged(names, values, order)),
    decreases order.len(),
{
    if order.len() > 0 {
        lemma_fed(names, values, order.drop_last());
        assert(arranged(names, values, order).drop_last() =~= arranged(
            names,
            values,
            order.drop_last(),
        ));
    }
}

/// Distinct names in ascending order, each attribute in its place.
proof fn lemma_arranged(names: Seq<Seq<u8>>, values: Seq<Option<Seq<u8>>>, order: Seq<usize>)
    requires
        sorts(order, names),
        names.no_duplicates(),
    ensures
        ascending(arranged(names, values, order)),
        forall|x: Attr| #[trigger]
            arranged(names, values, order).contains(x) <==> attrs_of(names, values).contains(x),
{
    let list = arranged(names, values, order);
    let all = attrs_of(names, values);
    assert forall|i: int, j: int| 0 <= i < j < list.len() implies bytes_lt(
        (#[trigger] list[i]).0,
        (#[trigger] list[j]).0,
    ) by {
        lemma_bytes_total(list[i].0, list[j].0);
        assert(order[i] != order[j]);
        assert(order[i] < names.len() && order[j] < names.len());
        assert(names[order[i] as int] != names[order[j] as int]);
    }
    let n = names.len();
    assert forall|x: Attr| #[trigger] list.contains(x) <==> all.contains(x) by {
        if list.contains(x) {
            let i = choose|i: int| 0 <= i < list.len() && list[i] == x;
            assert(order[i] < n);
            assert(all[order[i] as int] == x);
        }
        if all.contains(x) {
            let i = choose|i: int| 0 <= i < all.len() && all[i] == x;
            lemma_order_reaches(order, n, i as usize);
            let j = choose|j: int| 0 <= j < order.len() && order[j] == i as usize;
            assert(list[j] == x);
        }
    }
}

/// As many distinct places as there are reach every place.
proof fn lemma_order_reaches(order: Seq<usize>, n: nat, at: usize)
    requires
        order.len() == n <= usize::MAX,
        order.no_duplicates(),
        forall|i: int| 0 <= i < order.len() ==> (#[trigger] order[i]) < n,
        at < n,
    ensures
        order.contains(at),
{
    let reached = order.to_set();
    order.unique_seq_to_set();
    let places: Set<usize> = Set::new(|x: usize| x < n);
    lemma_places(n);
    assert(reached.subset_of(places)) by {
        assert forall|x: usize| reached.contains(x) implies places.contains(x) by {
            let i = choose|i: int| 0 <= i < order.len() && order[i] == x;
            assert(order[i] < n);
        }
    }
    vstd::set_lib::lemma_subset_equality(reached, places);
    assert(reached.contains(at));
}

/// There are as many places below `n` as `n` says.
proof fn lemma_places(n: nat)
    requires
        n <= usize::MAX + 1,
    ensures
        Set::<usize>::new(|x: usize| x < n).finite(),
        Set::<usize>::new(|x: usize| x < n).len() == n,
    decreases n,
{
    let places: Set<usize> = Set::new(|x: usize| x < n);
    if n == 0 {
        assert(places =~= Set::empty());
    } else {
        let last = (n - 1) as usize;
        let fewer: Set<usize> = Set::new(|x: usize| x < n - 1);
        lemma_places((n - 1) as nat);
        assert(Set::<usize>::new(|x: usize| x < (n - 1) as nat) =~= fewer);
        assert(places =~= fewer.insert(last));
    }
}

/// The checksum of extended attributes does not depend on the order in which
/// they are listed.
pub proof fn law_listing_order_does_not_matter(
    a_names: Seq<Seq<u8>>,
    a_values: Seq<Option<Seq<u8>>>,
    a_order: Seq<usize>,
    b_names: Seq<Seq<u8>>,
    b_values: Seq<Option<Seq<u8>>>,
    b_order: Seq<usize>,
)
    requires
        a_names.no_duplicates(),
        b_names.no_duplicates(),
        forall|x: Attr| #[trigger]
            attrs_of(a_names, a_values).contains(x) <==> attrs_of(b_names, b_values).contains(x),
        sorts(a_order, a_names),
        sorts(b_order, b_names),
    ensures
        attr_bytes(a_names, a_values, a_order) == attr_bytes(b_names, b_values, b_order),
{
    lemma_arranged(a_names, a_values, a_order);
    lemma_arranged(b_names, b_values, b_order);
    let a = arranged(a_names, a_values, a_order);
    let b = arranged(b_names, b_values, b_order);
    assert forall|x: Attr| #[trigger] a.contains(x) <==> b.contains(x) by {
        assert(attrs_of(a_names, a_values).contains(x) <==> attrs_of(b_names, b_values).contains(x));
    }
    lemma_same_attrs(a, b);
    lemma_fed(a_names, a_values, a_order);
    lemma_fed(b_names, b_values, b_order);
}

/// A security context ends before the first zero, or where the value ends.
pub proof fn law_context_ends_at_the_first_zero(value: Seq<u8>)
    ensures
        up_to_zero(value).is_prefix_of(value),
        forall|i: int| 0 <= i < up_to_zero(value).len() ==> #[trigger] up_to_zero(value)[i] != 0,
        up_to_zero(value).len() < value.len() ==> value[up_to_zero(value).len() as int] == 0,
    decreases value.len(),
{
    if value.len() > 0 && value[0] != 0 {
        let rest = value.drop_first();
        law_context_ends_at_the_first_zero(rest);
        let text = up_to_zero(rest);
        let all = up_to_zero(value);
        assert(all == seq![value[0]] + text);
        assert(all =~= value.take(all.len() as int)) by {
            assert(text =~= rest.take(text.len() as int));
        }
        assert forall|i: int| 0 <= i < all.len() implies #[trigger] all[i] != 0 by {
            if i > 0 {
                assert(all[i] == text[i - 1]);
            }
        }
    }
}

/// What goes into the checksum of extended attributes: for each that could be
/// read, its name and then its value.
pub proof fn law_attributes_are_names_and_values(
    names: Seq<Seq<u8>>,
    values: Seq<Option<Seq<u8>>>,
    order: Seq<usize>,
    at: usize,
)
    ensures
        attr_bytes(names, values, Seq::empty()) == Seq::<u8>::empty(),
        values[at as int] is Some ==> attr_bytes(names, values, order.push(at)) == attr_bytes(
            names,
            values,
            order,
        ) + names[at as int] + values[at as int]->0,
        values[at as int] is None ==> attr_bytes(names, values, order.push(at)) == attr_bytes(
            names,
            values,
            order,
        ),
{
    assert(order.push(at).drop_last() =~= order);
}

/// A readable context of SELinux counts before any of AppArmor.
pub proof fn law_selinux_counts_first(selinux: Option<Vec<u8>>, apparmor: Option<Vec<u8>>)
    ensures
        selinux is Some && valid_utf8(up_to_zero(selinux->0@)) ==> context_of(selinux, apparmor)
            == Some(decode_utf8(up_to_zero(selinux->0@))),
        (selinux is None || !valid_utf8(up_to_zero(selinux->0@))) && apparmor is Some
            && valid_utf8(up_to_zero(apparmor->0@)) ==> context_of(selinux, apparmor) == Some(
            decode_utf8(up_to_zero(apparmor->0@)),
        ),
        (selinux is None || !valid_utf8(up_to_zero(selinux->0@))) && (apparmor is None
            || !valid_utf8(up_to_zero(apparmor->0@))) ==> context_of(selinux, apparmor) is None,
{
}

/// Names are sorted by their bytes, and each is written out as it is.
pub proof fn law_names_are_sorted(names: Seq<Seq<u8>>, order: Seq<usize>, i: int, j: int)
    requires
        sorts(order, lossy_bytes(names)),
        0 <= i < j < order.len(),
    ensures
        order.len() == names.len(),
        order[i] != order[j],
        !bytes_lt(
            encode_utf8(lossy_utf8(names[order[j] as int])),
            encode_utf8(lossy_utf8(names[order[i] as int])),
        ),
        lossy_texts(names)[order[i] as int] == lossy_utf8(names[order[i] as int]),
{
    let _ = (order[i], order[j]);
}

} // verus!
