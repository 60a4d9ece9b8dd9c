//! A map from paths to values, kept in path order.
use vstd::prelude::*;
use crate::order::Order;
use crate::path::{components, key_lt, lemma_key_total, lemma_key_transitive, FilePath, PathKey};

verus! {

/// The key of an item.
pub open spec fn item_key<V>(item: (Seq<u8>, V)) -> PathKey {
    components(item.0)
}

/// In path order, no path twice.
pub open spec fn in_path_order<V>(items: Seq<(Seq<u8>, V)>) -> bool {
    forall|i: int, j: int|
        0 <= i < j < items.len() ==> key_lt(#[trigger] item_key(items[i]), #[trigger] item_key(items[j]))
}

/// Some item has the key.
pub open spec fn has_key<V>(items: Seq<(Seq<u8>, V)>, key: PathKey) -> bool {
    exists|i: int| 0 <= i < items.len() && #[trigger] item_key(items[i]) == key
}

/// Where the item with the key stands.
pub open spec fn key_index<V>(items: Seq<(Seq<u8>, V)>, key: PathKey) -> int {
    choose|i: int| 0 <= i < items.len() && #[trigger] item_key(items[i]) == key
}

/// The items as a map from keys to path texts and values.
pub open spec fn items_map<V>(items: Seq<(Seq<u8>, V)>) -> Map<PathKey, (Seq<u8>, V)> {
    Map::new(|key: PathKey| has_key(items, key), |key: PathKey| items[key_index(items, key)])
}

/// In a map each key stands for one item.
pub proof fn lemma_key_index<V>(items: Seq<(Seq<u8>, V)>, i: int)
    requires
        in_path_order(items),
        0 <= i < items.len(),
    ensures
        has_key(items, item_key(items[i])),
        key_index(items, item_key(items[i])) == i,
        items_map(items).contains_key(item_key(items[i])),
        items_map(items)[item_key(items[i])] == items[i],
{
    let key = item_key(items[i]);
    let j = key_index(items, key);
    if j != i {
        lemma_key_total(key, key);
    }
}

/// A key that lies strictly between two neighbours is not in the map.
pub proof fn lemma_key_absent<V>(items: Seq<(Seq<u8>, V)>, at: int, key: PathKey)
    requires
        0 <= at <= items.len(),
        forall|i: int| 0 <= i < at ==> key_lt(#[trigger] item_key(items[i]), key),
        forall|i: int| at <= i < items.len() ==> key_lt(key, #[trigger] item_key(items[i])),
    ensures
        !has_key(items, key),
        !items_map(items).contains_key(key),
{
    if has_key(items, key) {
        let j = key_index(items, key);
        lemma_key_total(key, item_key(items[j]));
    }
}

/// A map from paths to values.
#[derive(Debug)]
pub struct PathMap<V> {
    entries: Vec<(FilePath, V)>,
}

/// The texts and values of entries.
pub open spec fn entry_items<V>(entries: Seq<(FilePath, V)>) -> Seq<(Seq<u8>, V)> {
    entries.map_values(|e: (FilePath, V)| (e.0@, e.1))
}

impl<V> View for PathMap<V> {
    type V = Map<PathKey, (Seq<u8>, V)>;

    open spec fn view(&self) -> Map<PathKey, (Seq<u8>, V)> {
        items_map(self.items())
    }
}

impl<V> PathMap<V> {
    /// The path texts and values in path order.
    pub closed spec fn items(&self) -> Seq<(Seq<u8>, V)> {
        entry_items(self.entries@)
    }

    #[verifier::type_invariant]
    spec fn ordered(self) -> bool {
        in_path_order(entry_items(self.entries@))
    }

    /// The map without entries.
    pub fn new() -> (r: PathMap<V>)
        ensures
            r.items() == Seq::<(Seq<u8>, V)>::empty(),
            r@ == Map::<PathKey, (Seq<u8>, V)>::empty(),
    {
        let r = PathMap { entries: Vec::new() };
        assert(r.items() =~= Seq::<(Seq<u8>, V)>::empty());
        assert(r@ =~= Map::<PathKey, (Seq<u8>, V)>::empty());
        r
    }

    /// How many entries there are.
    pub fn len(&self) -> (r: usize)
        ensures
            r == self.items().len(),
            in_path_order(self.items()),
    {
        proof {
            use_type_invariant(self);
        }
        self.entries.len()
    }

    /// The path of one entry.
    pub fn path_at(&self, i: usize) -> (r: &FilePath)
        requires
            i < self.items().len(),
        ensures
            r@ == self.items()[i as int].0,
    {
        &self.entries[i].0
    }

    /// The value of one entry.
    pub fn value_at(&self, i: usize) -> (r: &V)
        requires
            i < self.items().len(),
        ensures
            *r == self.items()[i as int].1,
    {
        &self.entries[i].1
    }

    /// Where `path` stands, or where it would have to stand.
    fn find(&self, path: &FilePath) -> (r: (usize, bool))
        ensures
            in_path_order(self.items()),
            r.0 <= self.items().len(),
            r.1 ==> r.0 < self.items().len() && item_key(self.items()[r.0 as int]) == path.key(),
            !r.1 ==> forall|i: int|
                0 <= i < r.0 ==> key_lt(#[trigger] item_key(self.items()[i]), path.key()),
            !r.1 ==> forall|i: int|
                r.0 <= i < self.items().len() ==> key_lt(
                    path.key(),
                    #[trigger] item_key(self.items()[i]),
                ),
    {
        proof {
            use_type_invariant(self);
        }
        let ghost items = self.items();
        let mut low: usize = 0;
        let mut high: usize = self.entries.len();
        while low < high
            invariant
                items == self.items(),
                in_path_order(items),
                low <= high <= items.len(),
                items.len() == self.entries@.len(),
                forall|i: int| 0 <= i < low ==> key_lt(#[trigger] item_key(items[i]), path.key()),
                forall|i: int|
                    high <= i < items.len() ==> key_lt(path.key(), #[trigger] item_key(items[i])),
            decreases high - low,
        {
            let mid = low + (high - low) / 2;
            assert(items[mid as int].0 == self.entries@[mid as int].0@);
            let ghost mid_key = item_key(items[mid as int]);
            match self.entries[mid].0.compare(path) {
                Order::Equal => {
                    return (mid, true);
                },
                Order::Less => {
                    proof {
                        assert forall|i: int| 0 <= i < mid + 1 implies key_lt(
                            #[trigger] item_key(items[i]),
                            path.key(),
                        ) by {
                            if i < mid {
                                lemma_key_transitive(item_key(items[i]), mid_key, path.key());
                            }
                        }
                    }
                    low = mid + 1;
                },
                Order::Greater => {
                    proof {
                        assert forall|i: int| mid <= i < items.len() implies key_lt(
                            path.key(),
                            #[trigger] item_key(items[i]),
                        ) by {
                            if i > mid {
                                lemma_key_transitive(path.key(), mid_key, item_key(items[i]));
                            }
                        }
                    }
                    high = mid;
                },
            }
        }
        (low, false)
    }

    /// How many entries come before `path`.
    pub fn lower_bound(&self, path: &FilePath) -> (r: usize)
        ensures
            r <= self.items().len(),
            in_path_order(self.items()),
            forall|i: int| 0 <= i < r ==> key_lt(#[trigger] item_key(self.items()[i]), path.key()),
            forall|i: int|
                r <= i < self.items().len() ==> !key_lt(
                    #[trigger] item_key(self.items()[i]),
                    path.key(),
                ),
    {
        let found = self.find(path);
        proof {
            assert forall|i: int| found.0 <= i < self.items().len() implies !key_lt(
                #[trigger] item_key(self.items()[i]),
                path.key(),
            ) by {
                lemma_key_total(item_key(self.items()[i]), path.key());
            }
        }
        found.0
    }

    /// The value for a path.
    pub fn get(&self, path: &FilePath) -> (r: Option<&V>)
        ensures
            r is Some <==> self@.contains_key(path.key()),
            r matches Some(v) ==> *v == self@[path.key()].1,
            in_path_order(self.items()),
    {
        let found = self.find(path);
        if found.1 {
            proof {
                lemma_key_index(self.items(), found.0 as int);
            }
            Some(self.value_at(found.0))
        } else {
            proof {
                lemma_key_absent(self.items(), found.0 as int, path.key());
            }
            None
        }
    }

    /// The path under which an entry is stored.
    pub fn stored_path(&self, path: &FilePath) -> (r: Option<&FilePath>)
        ensures
            r is Some <==> self@.contains_key(path.key()),
            r matches Some(p) ==> p@ == self@[path.key()].0,
    {
        let found = self.find(path);
        if found.1 {
            proof {
                lemma_key_index(self.items(), found.0 as int);
            }
            Some(self.path_at(found.0))
        } else {
            proof {
                lemma_key_absent(self.items(), found.0 as int, path.key());
            }
            None
        }
    }

    /// Whether a path has a value.
    pub fn contains(&self, path: &FilePath) -> (r: bool)
        ensures
            r == self@.contains_key(path.key()),
    {
        self.get(path).is_some()
    }

    /// Gives a path a value. An entry that is there already keeps the text of
    /// its path.
    pub fn insert(&mut self, path: FilePath, value: V)
        ensures
            final(self)@ == old(self)@.insert(
                path.key(),
                (
                    if old(self)@.contains_key(path.key()) {
                        old(self)@[path.key()].0
                    } else {
                        path@
                    },
                    value,
                ),
            ),
            in_path_order(final(self).items()),
    {
        let ghost key = path.key();
        let found = self.find(&path);
        let ghost before = self.items();
        let mut entries: Vec<(FilePath, V)> = Vec::new();
        std::mem::swap(&mut entries, &mut self.entries);
        let ghost old_entries = entries@;
        if found.1 {
            proof {
                lemma_key_index(before, found.0 as int);
            }
            let ghost item = (before[found.0 as int].0, value);
            entries[found.0].1 = value;
            proof {
                assert(entry_items(entries@) =~= before.update(found.0 as int, item));
                lemma_update_keeps_order(before, found.0 as int, item);
                lemma_update_map(before, found.0 as int, item);
            }
            self.entries = entries;
        } else {
            let ghost item = (path@, value);
            proof {
                lemma_key_absent(before, found.0 as int, key);
                lemma_insert_keeps_order(before, found.0 as int, item);
                lemma_insert_map(before, found.0 as int, item);
            }
            entries.insert(found.0, (path, value));
            assert(entry_items(entries@) =~= before.insert(found.0 as int, item));
            self.entries = entries;
        }
    }

    /// Takes a path out of the map.
    pub fn remove(&mut self, path: &FilePath) -> (r: Option<V>)
        ensures
            final(self)@ == old(self)@.remove(path.key()),
            r is Some <==> old(self)@.contains_key(path.key()),
            r matches Some(v) ==> v == old(self)@[path.key()].1,
            in_path_order(final(self).items()),
    {
        let found = self.find(path);
        let ghost before = self.items();
        if found.1 {
            proof {
                lemma_key_index(before, found.0 as int);
                lemma_remove_map(before, found.0 as int);
            }
            let mut entries: Vec<(FilePath, V)> = Vec::new();
            std::mem::swap(&mut entries, &mut self.entries);
            let taken = entries.remove(found.0);
            assert(entry_items(entries@) =~= before.remove(found.0 as int));
            self.entries = entries;
            Some(taken.1)
        } else {
            proof {
                lemma_key_absent(before, found.0 as int, path.key());
                assert(self@ =~= self@.remove(path.key()));
            }
            None
        }
    }
}

impl<V: Clone> Clone for PathMap<V> {
    fn clone(&self) -> (r: PathMap<V>)
        ensures
            r.items().len() == self.items().len(),
            forall|i: int|
                #![trigger r.items()[i]]
                0 <= i < r.items().len() ==> r.items()[i].0 == self.items()[i].0 && cloned::<V>(
                    self.items()[i].1,
                    r.items()[i].1,
                ),
    {
        proof {
            use_type_invariant(self);
        }
        let mut entries: Vec<(FilePath, V)> = Vec::new();
        let mut i: usize = 0;
        while i < self.entries.len()
            invariant
                in_path_order(self.items()),
                i <= self.entries@.len(),
                entries@.len() == i,
                forall|j: int|
                    #![trigger entries@[j]]
                    0 <= j < i ==> entries@[j].0@ == self.entries@[j].0@ && cloned::<V>(
                        self.entries@[j].1,
                        entries@[j].1,
                    ),
            decreases self.entries@.len() - i,
        {
            let path = self.entries[i].0.clone();
            let value = self.entries[i].1.clone();
            entries.push((path, value));
            i = i + 1;
        }
        assert forall|a: int, b: int|
            0 <= a < b < entry_items(entries@).len() implies key_lt(
            #[trigger] item_key(entry_items(entries@)[a]),
            #[trigger] item_key(entry_items(entries@)[b]),
        ) by {
            assert(item_key(entry_items(entries@)[a]) == item_key(self.items()[a]));
            assert(item_key(entry_items(entries@)[b]) == item_key(self.items()[b]));
        }
        PathMap { entries }
    }
}

proof fn lemma_update_keeps_order<V>(items: Seq<(Seq<u8>, V)>, at: int, item: (Seq<u8>, V))
    requires
        in_path_order(items),
        0 <= at < items.len(),
        item_key(item) == item_key(items[at]),
    ensures
        in_path_order(items.update(at, item)),
{
    let after = items.update(at, item);
    assert forall|i: int, j: int| 0 <= i < j < after.len() implies key_lt(
        #[trigger] item_key(after[i]),
        #[trigger] item_key(after[j]),
    ) by {
        assert(item_key(after[i]) == item_key(items[i]));
        assert(item_key(after[j]) == item_key(items[j]));
    }
}

proof fn lemma_update_map<V>(items: Seq<(Seq<u8>, V)>, at: int, item: (Seq<u8>, V))
    requires
        in_path_order(items),
        0 <= at < items.len(),
        item_key(item) == item_key(items[at]),
    ensures
        items_map(items.update(at, item)) == items_map(items).insert(item_key(item), item),
{
    let after = items.update(at, item);
    lemma_update_keeps_order(items, at, item);
    let wanted = items_map(items).insert(item_key(item), item);
    assert forall|i: int| 0 <= i < items.len() implies item_key(#[trigger] after[i]) == item_key(
        items[i],
    ) by {}
    assert forall|k: PathKey| #[trigger]
        items_map(after).contains_key(k) == wanted.contains_key(k) by {
        if has_key(after, k) {
            let i = key_index(after, k);
            assert(item_key(items[i]) == k);
        }
        if has_key(items, k) {
            let i = key_index(items, k);
            assert(item_key(after[i]) == k);
        }
        assert(item_key(after[at]) == item_key(item));
    }
    assert forall|k: PathKey| items_map(after).contains_key(k) implies #[trigger] items_map(after)[k]
        == wanted[k] by {
        let i = key_index(after, k);
        lemma_key_index(after, i);
        lemma_key_index(items, i);
        lemma_key_index(items, at);
    }
    assert(items_map(after) =~= wanted);
}

proof fn lemma_insert_keeps_order<V>(items: Seq<(Seq<u8>, V)>, at: int, item: (Seq<u8>, V))
    requires
        in_path_order(items),
        0 <= at <= items.len(),
        forall|i: int| 0 <= i < at ==> key_lt(#[trigger] item_key(items[i]), item_key(item)),
        forall|i: int|
            at <= i < items.len() ==> key_lt(item_key(item), #[trigger] item_key(items[i])),
    ensures
        in_path_order(items.insert(at, item)),
{
    let after = items.insert(at, item);
    assert forall|i: int, j: int| 0 <= i < j < after.len() implies key_lt(
        #[trigger] item_key(after[i]),
        #[trigger] item_key(after[j]),
    ) by {
        let a = if i < at { i } else { i - 1 };
        let b = if j < at { j } else { j - 1 };
        if i != at {
            assert(item_key(after[i]) == item_key(items[a]));
        }
        if j != at {
            assert(item_key(after[j]) == item_key(items[b]));
        }
    }
}

proof fn lemma_insert_map<V>(items: Seq<(Seq<u8>, V)>, at: int, item: (Seq<u8>, V))
    requires
        in_path_order(items),
        0 <= at <= items.len(),
        forall|i: int| 0 <= i < at ==> key_lt(#[trigger] item_key(items[i]), item_key(item)),
        forall|i: int|
            at <= i < items.len() ==> key_lt(item_key(item), #[trigger] item_key(items[i])),
    ensures
        items_map(items.insert(at, item)) == items_map(items).insert(item_key(item), item),
{
    let after = items.insert(at, item);
    lemma_insert_keeps_order(items, at, item);
    let wanted = items_map(items).insert(item_key(item), item);
    assert forall|k: PathKey| #[trigger]
        items_map(after).contains_key(k) == wanted.contains_key(k) by {
        if has_key(after, k) {
            let i = key_index(after, k);
            if i != at {
                assert(item_key(items[if i < at { i } else { i - 1 }]) == k);
            }
        }
        if has_key(items, k) {
            let i = key_index(items, k);
            assert(item_key(after[if i < at { i } else { i + 1 }]) == k);
        }
        assert(item_key(after[at]) == item_key(item));
    }
    assert forall|k: PathKey| items_map(after).contains_key(k) implies #[trigger] items_map(after)[k]
        == wanted[k] by {
        let i = key_index(after, k);
        lemma_key_index(after, i);
        lemma_key_index(after, at);
        if i != at {
            let j = if i < at { i } else { i - 1 };
            assert(after[i] == items[j]);
            lemma_key_index(items, j);
            lemma_key_total(k, item_key(item));
        }
    }
    assert(items_map(after) =~= wanted);
}

proof fn lemma_remove_map<V>(items: Seq<(Seq<u8>, V)>, at: int)
    requires
        in_path_order(items),
        0 <= at < items.len(),
    ensures
        in_path_order(items.remove(at)),
        items_map(items.remove(at)) == items_map(items).remove(item_key(items[at])),
{
    let after = items.remove(at);
    assert forall|i: int, j: int| 0 <= i < j < after.len() implies key_lt(
        #[trigger] item_key(after[i]),
        #[trigger] item_key(after[j]),
    ) by {
        let a = if i < at { i } else { i + 1 };
        let b = if j < at { j } else { j + 1 };
        assert(item_key(after[i]) == item_key(items[a]));
        assert(item_key(after[j]) == item_key(items[b]));
    }
    let gone = item_key(items[at]);
    let wanted = items_map(items).remove(gone);
    assert forall|k: PathKey| #[trigger]
        items_map(after).contains_key(k) == wanted.contains_key(k) by {
        if has_key(after, k) {
            let i = key_index(after, k);
            let j = if i < at { i } else { i + 1 };
            assert(item_key(items[j]) == k);
            lemma_key_index(items, j);
            lemma_key_index(items, at);
        }
        if has_key(items, k) && k != gone {
            let i = key_index(items, k);
            assert(item_key(after[if i < at { i } else { i - 1 }]) == k);
        }
    }
    assert forall|k: PathKey| items_map(after).contains_key(k) implies #[trigger] items_map(after)[k]
        == wanted[k] by {
        let i = key_index(after, k);
        let j = if i < at { i } else { i + 1 };
        lemma_key_index(after, i);
        lemma_key_index(items, j);
        lemma_key_index(items, at);
    }
    assert(items_map(after) =~= wanted);
}

/// The items up to one of them, as a map, grow by that item.
pub proof fn lemma_take_map<V>(items: Seq<(Seq<u8>, V)>, i: int)
    requires
        in_path_order(items),
        0 <= i < items.len(),
    ensures
        in_path_order(items.take(i)),
        !items_map(items.take(i)).contains_key(item_key(items[i])),
        items_map(items.take(i + 1)) == items_map(items.take(i)).insert(
            item_key(items[i]),
            items[i],
        ),
{
    let first = items.take(i);
    assert forall|a: int, b: int| 0 <= a < b < first.len() implies key_lt(
        #[trigger] item_key(first[a]),
        #[trigger] item_key(first[b]),
    ) by {
        assert(key_lt(item_key(items[a]), item_key(items[b])));
    }
    assert forall|a: int| 0 <= a < i implies key_lt(
        #[trigger] item_key(first[a]),
        item_key(items[i]),
    ) by {
        assert(key_lt(item_key(items[a]), item_key(items[i])));
    }
    lemma_key_absent(first, i, item_key(items[i]));
    lemma_insert_map(first, i, items[i]);
    assert(first.insert(i, items[i]) =~= items.take(i + 1));
}

/// Two lists in path order that hold the same items are the same list.
pub proof fn lemma_same_items<V>(a: Seq<(Seq<u8>, V)>, b: Seq<(Seq<u8>, V)>)
    requires
        in_path_order(a),
        in_path_order(b),
        forall|item: (Seq<u8>, V)| #[trigger] a.contains(item) <==> b.contains(item),
    ensures
        a == b,
    decreases a.len(),
{
    if a.len() == 0 {
        if b.len() > 0 {
            assert(b.contains(b[0]));
            assert(a.contains(b[0]));
        }
        assert(a =~= b);
    } else {
        assert(a.contains(a[0]));
        assert(b.len() > 0);
        assert(b.contains(b[0]));
        assert(a.contains(b[0]));
        let i = choose|i: int| 0 <= i < a.len() && a[i] == b[0];
        let j = choose|j: int| 0 <= j < b.len() && b[j] == a[0];
        if i > 0 && j > 0 {
            assert(key_lt(item_key(a[0]), item_key(a[i])));
            assert(key_lt(item_key(b[0]), item_key(b[j])));
            lemma_key_total(item_key(a[0]), item_key(b[0]));
        }
        assert(a[0] == b[0]);
        let a1 = a.drop_first();
        let b1 = b.drop_first();
        assert(in_path_order(a1)) by {
            assert forall|x: int, y: int| 0 <= x < y < a1.len() implies key_lt(
                #[trigger] item_key(a1[x]),
                #[trigger] item_key(a1[y]),
            ) by {
                assert(key_lt(item_key(a[x + 1]), item_key(a[y + 1])));
            }
        }
        assert(in_path_order(b1)) by {
            assert forall|x: int, y: int| 0 <= x < y < b1.len() implies key_lt(
                #[trigger] item_key(b1[x]),
                #[trigger] item_key(b1[y]),
            ) by {
                assert(key_lt(item_key(b[x + 1]), item_key(b[y + 1])));
            }
        }
        assert forall|item: (Seq<u8>, V)| #[trigger] a1.contains(item) implies b1.contains(
            item,
        ) by {
            let x = choose|x: int| 0 <= x < a1.len() && a1[x] == item;
            assert(a[x + 1] == item);
            assert(a.contains(item));
            let y = choose|y: int| 0 <= y < b.len() && b[y] == item;
            if y == 0 {
                assert(key_lt(item_key(a[0]), item_key(a[x + 1])));
                lemma_key_total(item_key(item), item_key(item));
            }
            assert(b1[y - 1] == item);
        }
        assert forall|item: (Seq<u8>, V)| #[trigger] b1.contains(item) implies a1.contains(
            item,
        ) by {
            let x = choose|x: int| 0 <= x < b1.len() && b1[x] == item;
            assert(b[x + 1] == item);
            assert(b.contains(item));
            assert(a.contains(item));
            let y = choose|y: int| 0 <= y < a.len() && a[y] == item;
            if y == 0 {
                assert(key_lt(item_key(b[0]), item_key(b[x + 1])));
                lemma_key_total(item_key(item), item_key(item));
            }
            assert(a1[y - 1] == item);
        }
        lemma_same_items(a1, b1);
        assert(a =~= seq![a[0]] + a1);
        assert(b =~= seq![b[0]] + b1);
    }
}

} // verus!
