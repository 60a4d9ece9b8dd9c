//! Paths of a Unix file system.
//!
//! A path is the text that names a file, any bytes at all, together with the
//! components that the text stands for. Two paths name the same entry when
//! their components agree: repeated separators, a trailing separator and inner
//! `.` pieces make no difference.
use vstd::prelude::*;
use vstd::slice::{slice_subrange, slice_to_vec};
use vstd::utf8::{decode_utf8, encode_utf8, valid_utf8};
use crate::text::{from_utf8_lossy, lossy_utf8, text_bytes};
use crate::order::{bytes_lt, compare_bytes, lemma_bytes_total, lemma_bytes_transitive, Order};

verus! {

/// `/`
pub const SEPARATOR: u8 = 0x2f;

/// `.`
pub const DOT: u8 = 0x2e;

/// What a path stands for: the components in order, `/` for the root.
pub type PathKey = Seq<Seq<u8>>;

/// The text cut at every separator.
pub open spec fn pieces(text: Seq<u8>) -> Seq<Seq<u8>>
    decreases text.len(),
{
    if text.len() == 0 {
        seq![Seq::<u8>::empty()]
    } else {
        let rest = pieces(text.drop_last());
        if text.last() == SEPARATOR {
            rest.push(Seq::<u8>::empty())
        } else {
            rest.drop_last().push(rest.last().push(text.last()))
        }
    }
}

/// A piece that names something: neither empty nor `.`.
pub open spec fn is_name(piece: Seq<u8>) -> bool {
    piece.len() > 0 && piece != seq![DOT]
}

/// The pieces that name something.
pub open spec fn names(list: Seq<Seq<u8>>) -> Seq<Seq<u8>> {
    list.filter(|piece: Seq<u8>| is_name(piece))
}

/// Where the path starts: at the root, at an explicit `.`, or nowhere in
/// particular.
pub open spec fn anchor(text: Seq<u8>) -> Seq<Seq<u8>> {
    if text.len() > 0 && text[0] == SEPARATOR {
        seq![seq![SEPARATOR]]
    } else if text.len() > 0 && text[0] == DOT && (text.len() == 1 || text[1] == SEPARATOR) {
        seq![seq![DOT]]
    } else {
        Seq::empty()
    }
}

/// The components of a path text.
pub open spec fn components(text: Seq<u8>) -> PathKey {
    anchor(text) + names(pieces(text))
}

/// `key` stands below `base`, or is `base` itself.
pub open spec fn key_within(key: PathKey, base: PathKey) -> bool {
    base.is_prefix_of(key)
}

/// Whether something stands above `key`: it is neither empty nor the root.
pub open spec fn has_parent(key: PathKey) -> bool {
    key.len() > 0 && key.last() != seq![SEPARATOR]
}

/// `key` stands directly below `dir`.
pub open spec fn is_child(key: PathKey, dir: PathKey) -> bool {
    has_parent(key) && key.drop_last() == dir
}

/// Components of different kinds are ordered by kind: the root, `.`, `..`,
/// then the names.
pub open spec fn component_rank(c: Seq<u8>) -> int {
    if c == seq![SEPARATOR] {
        0
    } else if c == seq![DOT] {
        1
    } else if c == seq![DOT, DOT] {
        2
    } else {
        3
    }
}

/// The order of two components.
pub open spec fn component_lt(a: Seq<u8>, b: Seq<u8>) -> bool {
    component_rank(a) < component_rank(b) || (component_rank(a) == component_rank(b) && bytes_lt(
        a,
        b,
    ))
}

/// The order of paths: component by component, a prefix first.
pub open spec fn key_lt(a: PathKey, b: PathKey) -> bool
    decreases a.len(),
{
    if b.len() == 0 {
        false
    } else if a.len() == 0 {
        true
    } else if a[0] != b[0] {
        component_lt(a[0], b[0])
    } else {
        key_lt(a.drop_first(), b.drop_first())
    }
}

pub proof fn lemma_component_total(a: Seq<u8>, b: Seq<u8>)
    ensures
        a == b || component_lt(a, b) || component_lt(b, a),
        !(component_lt(a, b) && component_lt(b, a)),
        a == b ==> !component_lt(a, b),
{
    lemma_bytes_total(a, b);
}

pub proof fn lemma_component_transitive(a: Seq<u8>, b: Seq<u8>, c: Seq<u8>)
    requires
        component_lt(a, b),
        component_lt(b, c),
    ensures
        component_lt(a, c),
{
    if component_rank(a) == component_rank(b) && component_rank(b) == component_rank(c) {
        lemma_bytes_transitive(a, b, c);
    }
}

/// The order of paths is total: of two keys, exactly one comes first, or they
/// are the same.
pub proof fn lemma_key_total(a: PathKey, b: PathKey)
    ensures
        a == b || key_lt(a, b) || key_lt(b, a),
        !(key_lt(a, b) && key_lt(b, a)),
        a == b ==> !key_lt(a, b),
    decreases a.len(),
{
    if a.len() > 0 && b.len() > 0 {
        if a[0] == b[0] {
            lemma_key_total(a.drop_first(), b.drop_first());
            assert(a == seq![a[0]] + a.drop_first());
            assert(b == seq![b[0]] + b.drop_first());
        } else {
            lemma_component_total(a[0], b[0]);
        }
    }
}

pub proof fn lemma_key_transitive(a: PathKey, b: PathKey, c: PathKey)
    requires
        key_lt(a, b),
        key_lt(b, c),
    ensures
        key_lt(a, c),
    decreases a.len(),
{
    if a.len() > 0 && b.len() > 0 && c.len() > 0 {
        if a[0] == b[0] && b[0] == c[0] {
            lemma_key_transitive(a.drop_first(), b.drop_first(), c.drop_first());
        } else if a[0] != b[0] && b[0] != c[0] {
            lemma_component_transitive(a[0], b[0], c[0]);
            lemma_component_total(a[0], b[0]);
            lemma_component_total(b[0], c[0]);
        }
    }
}

/// Paths that agree up to some component are ordered by what follows it.
pub proof fn lemma_key_lt_skip(a: PathKey, b: PathKey, n: int)
    requires
        0 <= n <= a.len(),
        n <= b.len(),
        a.take(n) == b.take(n),
    ensures
        key_lt(a, b) == key_lt(a.skip(n), b.skip(n)),
    decreases n,
{
    if n == 0 {
        assert(a.skip(0) == a);
        assert(b.skip(0) == b);
    } else {
        assert(a[0] == a.take(n)[0] && b[0] == b.take(n)[0]);
        assert(a.drop_first().take(n - 1) =~= b.drop_first().take(n - 1)) by {
            assert forall|i: int| 0 <= i < n - 1 implies #[trigger] a.drop_first().take(n - 1)[i]
                == b.drop_first().take(n - 1)[i] by {
                assert(a.take(n)[i + 1] == b.take(n)[i + 1]);
            }
        }
        lemma_key_lt_skip(a.drop_first(), b.drop_first(), n - 1);
        assert(a.drop_first().skip(n - 1) =~= a.skip(n));
        assert(b.drop_first().skip(n - 1) =~= b.skip(n));
    }
}

/// What stands directly below a directory comes behind it.
pub proof fn lemma_child_after(key: PathKey, dir: PathKey)
    requires
        is_child(key, dir),
    ensures
        key_lt(dir, key),
        key_within(key, dir),
        key != dir,
    decreases dir.len(),
{
    assert(key.take(dir.len() as int) =~= dir);
    assert(dir.take(dir.len() as int) =~= dir);
    lemma_key_lt_skip(dir, key, dir.len() as int);
    assert(key.len() == dir.len() + 1);
}

/// What stands at or below a directory comes in one piece: between the
/// directory and an entry below it there is nothing else.
pub proof fn lemma_within_between(dir: PathKey, a: PathKey, b: PathKey)
    requires
        !key_lt(a, dir),
        key_lt(a, b),
        key_within(b, dir),
    ensures
        key_within(a, dir),
    decreases dir.len(),
{
    if dir.len() > 0 {
        assert(b[0] == b.take(dir.len() as int)[0]);
        assert(a.len() > 0);
        lemma_component_total(a[0], dir[0]);
        assert(a[0] == dir[0]);
        assert(key_within(b.drop_first(), dir.drop_first())) by {
            assert(b.drop_first().take(dir.len() - 1) =~= b.take(dir.len() as int).drop_first());
        }
        lemma_within_between(dir.drop_first(), a.drop_first(), b.drop_first());
        assert forall|i: int| 0 <= i < dir.len() implies i < a.len() && dir[i] == a[i] by {
            if i > 0 {
                assert(dir.drop_first()[i - 1] == a.drop_first()[i - 1]);
            }
        }
        assert(a.take(dir.len() as int) =~= dir);
    }
}

/// Where in `text` the components stand: each part is the text of its
/// component and ends the shortest prefix that holds it.
spec fn well_shaped(parts: Seq<(usize, usize)>, text: Seq<u8>) -> bool {
    let key = components(text);
    &&& parts.len() == key.len()
    &&& forall|j: int|
        #![trigger parts[j]]
        0 <= j < parts.len() ==> {
            &&& parts[j].0 <= parts[j].1 <= text.len()
            &&& text.subrange(parts[j].0 as int, parts[j].1 as int) == key[j]
            &&& shortest(text, parts[j].1 as int, key.take(j + 1))
        }
}

proof fn lemma_pieces_nonempty(text: Seq<u8>)
    ensures
        pieces(text).len() > 0,
    decreases text.len(),
{
    if text.len() > 0 {
        lemma_pieces_nonempty(text.drop_last());
    }
}

proof fn lemma_names_push(list: Seq<Seq<u8>>, piece: Seq<u8>)
    ensures
        names(list.push(piece)) == if is_name(piece) {
            names(list).push(piece)
        } else {
            names(list)
        },
{
    reveal(Seq::filter);
    assert(list.push(piece).drop_last() =~= list);
}

/// Reading one more byte of the text.
proof fn lemma_pieces_step(text: Seq<u8>, i: int)
    requires
        0 <= i < text.len(),
    ensures
        pieces(text.take(i)).len() > 0,
        text[i] == SEPARATOR ==> pieces(text.take(i + 1)) == pieces(text.take(i)).push(
            Seq::<u8>::empty(),
        ),
        text[i] != SEPARATOR ==> pieces(text.take(i + 1)) == pieces(
            text.take(i),
        ).drop_last().push(pieces(text.take(i)).last().push(text[i])),
{
    assert(text.take(i + 1).drop_last() =~= text.take(i));
    lemma_pieces_nonempty(text.take(i));
}

/// How many bytes the components hold.
spec fn weight(list: Seq<Seq<u8>>) -> nat
    decreases list.len(),
{
    if list.len() == 0 {
        0
    } else {
        weight(list.drop_last()) + list.last().len()
    }
}

proof fn lemma_weight_push(list: Seq<Seq<u8>>, piece: Seq<u8>)
    ensures
        weight(list.push(piece)) == weight(list) + piece.len(),
{
    assert(list.push(piece).drop_last() =~= list);
}

proof fn lemma_weight_add(a: Seq<Seq<u8>>, b: Seq<Seq<u8>>)
    ensures
        weight(a + b) == weight(a) + weight(b),
    decreases b.len(),
{
    if b.len() == 0 {
        assert(a + b =~= a);
    } else {
        assert((a + b).drop_last() =~= a + b.drop_last());
        lemma_weight_add(a, b.drop_last());
    }
}

/// One more byte of text never takes a component away, and the last byte of a
/// name adds to it.
proof fn lemma_weight_step(text: Seq<u8>, i: int)
    requires
        0 <= i < text.len(),
    ensures
        weight(components(text.take(i))) <= weight(components(text.take(i + 1))),
        is_name(pieces(text.take(i + 1)).last()) && text[i] != SEPARATOR ==> weight(
            components(text.take(i)),
        ) < weight(components(text.take(i + 1))),
{
    let now = text.take(i);
    let next = text.take(i + 1);
    lemma_pieces_step(text, i);
    let before = pieces(now);
    lemma_weight_add(anchor(now), names(before));
    lemma_weight_add(anchor(next), names(pieces(next)));
    reveal_with_fuel(weight, 2);
    assert(weight(seq![seq![SEPARATOR]]) == 1) by {
        assert(seq![seq![SEPARATOR]].drop_last() =~= Seq::<Seq<u8>>::empty());
    }
    assert(weight(seq![seq![DOT]]) == 1) by {
        assert(seq![seq![DOT]].drop_last() =~= Seq::<Seq<u8>>::empty());
    }
    assert(before =~= before.drop_last().push(before.last()));
    lemma_names_push(before.drop_last(), before.last());
    lemma_weight_push(names(before.drop_last()), before.last());
    if text[i] == SEPARATOR {
        lemma_names_push(before, Seq::<u8>::empty());
        assert(weight(anchor(now)) <= weight(anchor(next)));
    } else {
        let grown = before.last().push(text[i]);
        lemma_names_push(before.drop_last(), grown);
        lemma_weight_push(names(before.drop_last()), grown);
        reveal_with_fuel(pieces, 3);
        if i == 0 {
            assert(now =~= Seq::<u8>::empty());
            assert(grown =~= seq![text[0]]);
        } else if i == 1 {
            assert(now =~= Seq::<u8>::empty().push(text[0]));
            assert(now.drop_last() =~= Seq::<u8>::empty());
            if text[0] == SEPARATOR {
                assert(before.last() =~= Seq::<u8>::empty());
            } else {
                assert(before.last() =~= seq![text[0]]);
            }
            assert(next[0] == text[0] && next[1] == text[1]);
        } else {
            assert(next[0] == now[0] && next[1] == now[1]);
        }
        if before.last().len() > 0 {
            assert(grown.len() >= 2);
            assert(is_name(grown));
        } else if i > 0 {
            assert(weight(anchor(now)) == weight(anchor(next)));
        }
    }
}

proof fn lemma_weight_monotone(text: Seq<u8>, m: int, n: int)
    requires
        0 <= m <= n <= text.len(),
    ensures
        weight(components(text.take(m))) <= weight(components(text.take(n))),
    decreases n - m,
{
    if m < n {
        lemma_weight_monotone(text, m, n - 1);
        lemma_weight_step(text, n - 1);
    }
}

/// `n` bytes of `text` are the least that have the components `key`.
pub open spec fn shortest(text: Seq<u8>, n: int, key: PathKey) -> bool {
    &&& 0 <= n <= text.len()
    &&& components(text.take(n)) == key
    &&& forall|m: int| 0 <= m < n ==> components(#[trigger] text.take(m)) != key
}

/// The prefix that ends where a name ends is the shortest with its components.
proof fn lemma_shortest(text: Seq<u8>, n: int)
    requires
        0 < n <= text.len(),
        text[n - 1] != SEPARATOR,
        is_name(pieces(text.take(n)).last()),
    ensures
        shortest(text, n, components(text.take(n))),
{
    let key = components(text.take(n));
    lemma_weight_step(text, n - 1);
    assert forall|m: int| 0 <= m < n implies components(#[trigger] text.take(m)) != key by {
        lemma_weight_monotone(text, m, n - 1);
    }
}

/// A path: its text and where in it the components stand.
#[derive(Debug)]
pub struct FilePath {
    bytes: Vec<u8>,
    parts: Vec<(usize, usize)>,
}

impl View for FilePath {
    type V = Seq<u8>;

    closed spec fn view(&self) -> Seq<u8> {
        self.bytes@
    }
}

impl FilePath {
    #[verifier::type_invariant]
    spec fn parts_match(self) -> bool {
        well_shaped(self.parts@, self.bytes@)
    }

    /// The components of the path.
    pub open spec fn key(&self) -> PathKey {
        components(self@)
    }
}

proof fn lemma_nothing_read(text: Seq<u8>)
    ensures
        pieces(text.take(0)).len() == 1,
        pieces(text.take(0)).last() == text.subrange(0, 0),
        names(pieces(text.take(0)).drop_last()) == Seq::<Seq<u8>>::empty(),
        anchor(text) + names(pieces(text.take(0)).drop_last()) == anchor(text),
        components(text.take(0)) == Seq::<Seq<u8>>::empty(),
{
    assert(text.take(0) =~= Seq::<u8>::empty());
    assert(text.subrange(0, 0) =~= Seq::<u8>::empty());
    assert(pieces(text.take(0)) =~= Seq::<Seq<u8>>::empty().push(Seq::<u8>::empty()));
    assert(pieces(text.take(0)).drop_last() =~= Seq::<Seq<u8>>::empty());
    reveal(Seq::filter);
    assert(names(Seq::<Seq<u8>>::empty()) =~= Seq::<Seq<u8>>::empty());
    lemma_names_push(Seq::empty(), Seq::<u8>::empty());
    assert(anchor(text) + names(pieces(text.take(0)).drop_last()) =~= anchor(text));
    assert(components(text.take(0)) =~= Seq::<Seq<u8>>::empty());
}

proof fn lemma_anchor(text: Seq<u8>)
    requires
        anchor(text).len() > 0,
    ensures
        anchor(text).len() == 1,
        text.len() > 0,
        text.subrange(0, 1) == anchor(text)[0],
        shortest(text, 1, anchor(text).take(1)),
{
    let one = text.take(1);
    lemma_nothing_read(text);
    lemma_pieces_step(text, 0);
    assert(text.subrange(0, 1) =~= seq![text[0]]);
    let none = pieces(text.take(0));
    lemma_names_push(none.drop_last(), Seq::<u8>::empty());
    assert(none =~= none.drop_last().push(Seq::<u8>::empty()));
    if text[0] == SEPARATOR {
        lemma_names_push(none, Seq::<u8>::empty());
    } else {
        assert(none.last().push(DOT) =~= seq![DOT]);
        lemma_names_push(none.drop_last(), seq![DOT]);
    }
    assert(names(pieces(one)) =~= Seq::<Seq<u8>>::empty());
    assert(components(one) =~= anchor(text));
    assert(anchor(text).take(1) =~= anchor(text));
}

/// Finds the components of a path text.
fn find_parts(bytes: &Vec<u8>) -> (parts: Vec<(usize, usize)>)
    ensures
        well_shaped(parts@, bytes@),
{
    let ghost text = bytes@;
    let mut parts: Vec<(usize, usize)> = Vec::new();
    let len = bytes.len();
    if len > 0 && (bytes[0] == SEPARATOR || (bytes[0] == DOT && (len == 1 || bytes[1]
        == SEPARATOR))) {
        parts.push((0, 1));
        proof {
            lemma_anchor(text);
        }
    }
    proof {
        lemma_nothing_read(text);
    }
    let mut start: usize = 0;
    let mut i: usize = 0;
    let ghost mut found: PathKey = anchor(text);
    loop
        invariant_except_break
            found == anchor(text) + names(pieces(text.take(i as int)).drop_last()),
        invariant
            text == bytes@,
            len == bytes@.len(),
            start <= i <= len,
            forall|j: int| start <= j < i ==> text[j] != SEPARATOR,
            pieces(text.take(i as int)).len() > 0,
            pieces(text.take(i as int)).last() == text.subrange(start as int, i as int),
            parts@.len() == found.len(),
            forall|j: int|
                #![trigger parts@[j]]
                0 <= j < parts@.len() ==> {
                    &&& parts@[j].0 <= parts@[j].1 <= text.len()
                    &&& text.subrange(parts@[j].0 as int, parts@[j].1 as int) == found[j]
                    &&& shortest(text, parts@[j].1 as int, found.take(j + 1))
                },
        ensures
            found == components(text),
        decreases len - i,
    {
        let at_end = i == len || bytes[i] == SEPARATOR;
        if at_end {
            let ghost piece = text.subrange(start as int, i as int);
            let ghost before = pieces(text.take(i as int));
            let names_something = i > start && !(i - start == 1 && bytes[start] == DOT);
            proof {
                assert(before =~= before.drop_last().push(piece));
                lemma_names_push(before.drop_last(), piece);
                if names_something {
                    assert(is_name(piece)) by {
                        if piece == seq![DOT] {
                            assert(piece.len() == 1 && piece[0] == DOT);
                        }
                    }
                } else if i > start {
                    assert(piece =~= seq![DOT]);
                }
            }
            if names_something {
                parts.push((start, i));
                proof {
                    let upto = text.take(i as int);
                    assert(anchor(upto) =~= anchor(text));
                    let longer = found.push(piece);
                    assert(components(upto) =~= longer);
                    assert(text.subrange(start as int, i as int).last() == text[i - 1]);
                    assert(text[i - 1] != SEPARATOR);
                    lemma_shortest(text, i as int);
                    assert forall|j: int| 0 <= j < longer.len() implies #[trigger] longer.take(j + 1)
                        =~= (if j < found.len() { found.take(j + 1) } else { longer }) by {}
                    found = longer;
                }
            }
            assert(found =~= anchor(text) + names(before));
            if i == len {
                assert(text.take(i as int) =~= text);
                break;
            }
            proof {
                lemma_pieces_step(text, i as int);
                assert(pieces(text.take(i + 1)).drop_last() =~= before);
                assert(text.subrange(i + 1, i + 1) =~= Seq::<u8>::empty());
            }
            start = i + 1;
            i = i + 1;
        } else {
            proof {
                lemma_pieces_step(text, i as int);
                let before = pieces(text.take(i as int));
                assert(pieces(text.take(i + 1)).drop_last() =~= before.drop_last());
                assert(text.subrange(start as int, i + 1) =~= text.subrange(
                    start as int,
                    i as int,
                ).push(text[i as int]));
            }
            i = i + 1;
        }
    }
    parts
}

impl FilePath {
    /// The path with the given text.
    pub fn from_bytes(bytes: Vec<u8>) -> (r: FilePath)
        ensures
            r@ == bytes@,
    {
        let parts = find_parts(&bytes);
        FilePath { bytes, parts }
    }

    /// The path that a text names.
    pub fn from_text(text: &str) -> (r: FilePath)
        ensures
            r@ == encode_utf8(text@),
    {
        FilePath::from_bytes(text_bytes(text))
    }

    /// The bytes of the path's text.
    pub fn as_bytes(&self) -> (r: &[u8])
        ensures
            r@ == self@,
    {
        self.bytes.as_slice()
    }

    /// The path as text, for people to read.
    pub fn to_string_lossy(&self) -> (r: String)
        ensures
            r@ == lossy_utf8(self@),
            valid_utf8(self@) ==> r@ == decode_utf8(self@),
    {
        from_utf8_lossy(self.bytes.as_slice())
    }

    /// How many components the path has.
    pub fn depth(&self) -> (r: usize)
        ensures
            r == self.key().len(),
    {
        proof {
            use_type_invariant(self);
        }
        self.parts.len()
    }

    /// One component.
    fn component(&self, j: usize) -> (r: &[u8])
        requires
            j < self.key().len(),
        ensures
            r@ == self.key()[j as int],
    {
        proof {
            use_type_invariant(self);
        }
        let part = self.parts[j];
        slice_subrange(self.bytes.as_slice(), part.0, part.1)
    }

    /// Whether the path stands at or below `base`, component by component.
    pub fn starts_with(&self, base: &FilePath) -> (r: bool)
        ensures
            r == key_within(self.key(), base.key()),
    {
        let n = base.depth();
        if n > self.depth() {
            return false;
        }
        let mut j: usize = 0;
        while j < n
            invariant
                j <= n == base.key().len() <= self.key().len(),
                forall|i: int| 0 <= i < j ==> self.key()[i] == base.key()[i],
            decreases n - j,
        {
            match compare_bytes(self.component(j), base.component(j)) {
                Order::Equal => {},
                _ => {
                    assert(self.key().take(n as int)[j as int] != base.key()[j as int]);
                    return false;
                },
            }
            j = j + 1;
        }
        true
    }

    /// Whether the path stands directly below `dir`.
    pub fn is_child_of(&self, dir: &FilePath) -> (r: bool)
        ensures
            r == is_child(self.key(), dir.key()),
    {
        let n = self.depth();
        if n == 0 || n - 1 != dir.depth() {
            return false;
        }
        let last = self.component(n - 1);
        if last.len() == 1 && last[0] == SEPARATOR {
            assert(last@ =~= seq![SEPARATOR]);
            return false;
        }
        assert(last@ != seq![SEPARATOR]);
        assert(self.key().take(n - 1) =~= self.key().drop_last());
        self.starts_with(dir)
    }

    /// Whether two paths name the same entry.
    pub fn same(&self, other: &FilePath) -> (r: bool)
        ensures
            r == (self.key() == other.key()),
    {
        let r = self.depth() == other.depth() && self.starts_with(other);
        proof {
            if r {
                assert(self.key() =~= other.key());
            }
        }
        r
    }

    /// Compares two paths component by component.
    pub fn compare(&self, other: &FilePath) -> (r: Order)
        ensures
            r == Order::Less <==> key_lt(self.key(), other.key()),
            r == Order::Equal <==> self.key() == other.key(),
            r == Order::Greater <==> key_lt(other.key(), self.key()),
    {
        let m = self.depth();
        let n = other.depth();
        let ghost a = self.key();
        let ghost b = other.key();
        proof {
            lemma_key_total(a, b);
        }
        let mut j: usize = 0;
        while j < m && j < n
            invariant
                a == self.key(),
                b == other.key(),
                j <= m == a.len(),
                j <= n == b.len(),
                a.take(j as int) == b.take(j as int),
                a == b || key_lt(a, b) || key_lt(b, a),
                !(key_lt(a, b) && key_lt(b, a)),
                a == b ==> !key_lt(a, b),
            decreases m - j,
        {
            proof {
                lemma_key_lt_skip(a, b, j as int);
                lemma_key_lt_skip(b, a, j as int);
                assert(a.skip(j as int)[0] == a[j as int]);
                assert(b.skip(j as int)[0] == b[j as int]);
                lemma_component_total(a[j as int], b[j as int]);
            }
            match compare_components(self.component(j), other.component(j)) {
                Order::Less => {
                    return Order::Less;
                },
                Order::Greater => {
                    return Order::Greater;
                },
                Order::Equal => {},
            }
            assert(a.take(j + 1) =~= a.take(j as int).push(a[j as int]));
            assert(b.take(j + 1) =~= b.take(j as int).push(b[j as int]));
            j = j + 1;
        }
        proof {
            lemma_key_lt_skip(a, b, j as int);
            lemma_key_lt_skip(b, a, j as int);
            if j == m && j == n {
                assert(a.take(j as int) =~= a && b.take(j as int) =~= b);
            }
        }
        if j < n {
            Order::Less
        } else if j < m {
            Order::Greater
        } else {
            Order::Equal
        }
    }

    /// The path without its last component, where it has one to lose: the
    /// shortest piece of the text with the components that remain.
    pub fn parent(&self) -> (r: Option<FilePath>)
        ensures
            r is Some <==> has_parent(self.key()),
            r matches Some(dir) ==> {
                &&& dir.key() == self.key().drop_last()
                &&& dir@ == self@.take(dir@.len() as int)
                &&& shortest(self@, dir@.len() as int, self.key().drop_last())
            },
    {
        proof {
            use_type_invariant(self);
        }
        let n = self.depth();
        if n == 0 {
            return None;
        }
        let last = self.component(n - 1);
        if last.len() == 1 && last[0] == SEPARATOR {
            assert(last@ =~= seq![SEPARATOR]);
            return None;
        }
        assert(self.key().last() != seq![SEPARATOR]);
        let end: usize = if n == 1 {
            0
        } else {
            self.parts[n - 2].1
        };
        proof {
            lemma_nothing_read(self@);
            if n == 1 {
                assert(self.key().drop_last() =~= Seq::<Seq<u8>>::empty());
            } else {
                assert(self.key().take(n - 1) =~= self.key().drop_last());
                assert(self.parts@[n - 2].1 <= self@.len());
            }
            assert(self@.subrange(0, end as int) =~= self@.take(end as int));
        }
        Some(FilePath::from_bytes(slice_to_vec(slice_subrange(self.bytes.as_slice(), 0, end))))
    }

    /// The last component, where it is a name.
    pub fn file_name(&self) -> (r: Option<&[u8]>)
        ensures
            r is Some <==> self.key().len() > 0 && component_rank(self.key().last()) == 3,
            r matches Some(name) ==> name@ == self.key().last(),
    {
        let n = self.depth();
        if n == 0 {
            return None;
        }
        let last = self.component(n - 1);
        if rank(last) == 3 {
            Some(last)
        } else {
            None
        }
    }

    /// The path of `name` taken from here.
    pub fn join(&self, name: &[u8]) -> (r: FilePath)
        ensures
            r@ == joined_text(self@, name@),
    {
        if name.len() > 0 && name[0] == SEPARATOR {
            return FilePath::from_bytes(slice_to_vec(name));
        }
        let mut bytes = slice_to_vec(self.bytes.as_slice());
        if bytes.len() > 0 && bytes[bytes.len() - 1] != SEPARATOR {
            bytes.push(SEPARATOR);
        }
        bytes.extend_from_slice(name);
        assert(bytes@ =~= joined_text(self@, name@));
        FilePath::from_bytes(bytes)
    }
}

/// The text of `name` taken from the directory `dir`: `name` itself where it
/// starts at the root, otherwise `name` behind `dir` and a separator.
pub open spec fn joined_text(dir: Seq<u8>, name: Seq<u8>) -> Seq<u8> {
    if name.len() > 0 && name[0] == SEPARATOR {
        name
    } else if dir.len() > 0 && dir.last() != SEPARATOR {
        dir.push(SEPARATOR) + name
    } else {
        dir + name
    }
}

impl Clone for FilePath {
    fn clone(&self) -> (r: FilePath)
        ensures
            r@ == self@,
    {
        proof {
            use_type_invariant(self);
        }
        FilePath {
            bytes: slice_to_vec(self.bytes.as_slice()),
            parts: slice_to_vec(self.parts.as_slice()),
        }
    }
}

fn rank(c: &[u8]) -> (r: u8)
    ensures
        r == component_rank(c@),
{
    if c.len() == 1 && c[0] == SEPARATOR {
        assert(c@ =~= seq![SEPARATOR]);
        0
    } else if c.len() == 1 && c[0] == DOT {
        assert(c@ =~= seq![DOT]);
        1
    } else if c.len() == 2 && c[0] == DOT && c[1] == DOT {
        assert(c@ =~= seq![DOT, DOT]);
        2
    } else {
        assert(c@ != seq![SEPARATOR] && c@ != seq![DOT] && c@ != seq![DOT, DOT]);
        3
    }
}

fn compare_components(a: &[u8], b: &[u8]) -> (r: Order)
    ensures
        r == Order::Less <==> component_lt(a@, b@),
        r == Order::Equal <==> a@ == b@,
        r == Order::Greater <==> component_lt(b@, a@),
{
    let ra = rank(a);
    let rb = rank(b);
    if ra < rb {
        Order::Less
    } else if rb < ra {
        Order::Greater
    } else {
        compare_bytes(a, b)
    }
}

/// Whether the path stands at or below one of the directories.
pub fn is_under_any(path: &FilePath, dirs: &Vec<FilePath>) -> (r: bool)
    ensures
        r == exists|i: int| 0 <= i < dirs@.len() && key_within(path.key(), #[trigger] dirs@[i].key()),
{
    let mut i: usize = 0;
    while i < dirs.len()
        invariant
            i <= dirs@.len(),
            forall|j: int| 0 <= j < i ==> !key_within(path.key(), #[trigger] dirs@[j].key()),
        decreases dirs@.len() - i,
    {
        if path.starts_with(&dirs[i]) {
            return true;
        }
        i = i + 1;
    }
    false
}

proof fn lemma_pieces_of_name(text: Seq<u8>, name: Seq<u8>)
    requires
        text.len() == 0 || text.last() == SEPARATOR,
        forall|i: int| 0 <= i < name.len() ==> name[i] != SEPARATOR,
    ensures
        pieces(text + name) == pieces(text).drop_last().push(name),
    decreases name.len(),
{
    lemma_pieces_nonempty(text);
    if name.len() == 0 {
        assert(text + name =~= text);
        assert(name =~= Seq::<u8>::empty());
        assert(pieces(text).last() =~= Seq::<u8>::empty());
        assert(pieces(text) =~= pieces(text).drop_last().push(name));
    } else {
        let less = name.drop_last();
        assert forall|i: int| 0 <= i < less.len() implies less[i] != SEPARATOR by {
            assert(less[i] == name[i]);
        }
        lemma_pieces_of_name(text, less);
        assert((text + name).drop_last() =~= text + less);
        assert((text + name).last() == name.last());
        let rest = pieces(text + less);
        assert(rest.drop_last() =~= pieces(text).drop_last());
        assert(less.push(name.last()) =~= name);
    }
}

/// A name taken from a directory is one component more: the components of the
/// directory, then the name.
pub proof fn law_name_is_one_component_more(dir: Seq<u8>, name: Seq<u8>)
    requires
        name.len() > 0,
        name != seq![46u8],
        forall|i: int| 0 <= i < name.len() ==> name[i] != 47,
    ensures
        components(joined_text(dir, name)) == components(dir).push(name),
        dir.len() > 0 && dir.last() != 47 ==> joined_text(dir, name) == dir + seq![47u8] + name,
{
    let all = joined_text(dir, name);
    let text = if dir.len() > 0 && dir.last() != SEPARATOR {
        dir.push(SEPARATOR)
    } else {
        dir
    };
    assert(all == text + name);
    assert(all =~= if dir.len() > 0 && dir.last() != 47 {
        dir + seq![47u8] + name
    } else {
        all
    });
    lemma_pieces_of_name(text, name);
    lemma_pieces_nonempty(dir);
    let first = pieces(text).drop_last();
    lemma_names_push(first, name);
    lemma_names_push(first, Seq::<u8>::empty());
    if dir.len() > 0 && dir.last() != SEPARATOR {
        assert(text.drop_last() =~= dir);
        assert(pieces(text) == pieces(dir).push(Seq::<u8>::empty()));
        assert(first =~= pieces(dir));
    } else {
        lemma_pieces_nonempty(text);
        assert(pieces(text).last() =~= Seq::<u8>::empty());
        assert(pieces(text) =~= first.push(Seq::<u8>::empty()));
    }
    assert(names(pieces(all)) == names(pieces(dir)).push(name));
    if dir.len() == 0 {
        assert(all =~= name);
        assert(anchor(all) =~= Seq::<Seq<u8>>::empty()) by {
            if name[0] == DOT && name.len() == 1 {
                assert(name =~= seq![46u8]);
            }
        }
        assert(anchor(dir) =~= Seq::<Seq<u8>>::empty());
    } else {
        assert(all[0] == dir[0]);
        if dir.len() == 1 {
            assert(dir[0] != SEPARATOR ==> all[1] == SEPARATOR);
        } else {
            assert(all[1] == dir[1]);
        }
        assert(anchor(all) == anchor(dir));
    }
    assert(components(all) =~= components(dir).push(name));
}

/// What stands in a directory stands below it, and directly below nothing else.
pub proof fn law_entry_stands_below_its_directory(dir: PathKey, name: Seq<u8>)
    requires
        name != seq![47u8],
    ensures
        is_child(dir.push(name), dir),
        key_within(dir.push(name), dir),
        !key_within(dir, dir.push(name)),
        forall|other: PathKey| #[trigger] is_child(dir.push(name), other) ==> other == dir,
{
    assert(dir.push(name).drop_last() =~= dir);
}

/// The root comes before `.`, that before `..`, and these before every name.
pub proof fn law_kinds_come_in_order(name: Seq<u8>)
    requires
        name != seq![47u8],
        name != seq![46u8],
        name != seq![46u8, 46u8],
    ensures
        component_lt(seq![47u8], seq![46u8]),
        component_lt(seq![46u8], seq![46u8, 46u8]),
        component_lt(seq![46u8, 46u8], name),
{
    assert(seq![47u8][0] != seq![46u8][0]);
    assert(seq![47u8].len() != seq![46u8, 46u8].len());
    assert(seq![46u8].len() != seq![46u8, 46u8].len());
}

/// A directory comes before everything in it.
pub proof fn law_directories_come_before_their_entries(dir: PathKey, key: PathKey)
    requires
        dir.is_prefix_of(key),
        dir != key,
    ensures
        key_lt(dir, key),
        !key_lt(key, dir),
{
    let n = dir.len() as int;
    if n == key.len() {
        assert(dir =~= key);
    }
    assert(dir.take(n) =~= key.take(n)) by {
        assert forall|i: int| 0 <= i < n implies dir.take(n)[i] == key.take(n)[i] by {
            assert(dir[i] == key[i]);
        }
    }
    lemma_key_lt_skip(dir, key, n);
    lemma_key_total(dir, key);
}

/// A separator at the end of a path, and a dot behind one, name nothing more.
pub proof fn law_separators_and_dots_add_nothing(text: Seq<u8>)
    requires
        text.len() > 0,
    ensures
        components(text.push(47u8)) == components(text),
        components(text.push(47u8).push(46u8)) == components(text),
{
    let ended = text.push(47u8);
    let dotted = ended.push(46u8);
    lemma_pieces_nonempty(text);
    lemma_pieces_nonempty(ended);
    assert(ended.drop_last() =~= text);
    assert(dotted.drop_last() =~= ended);
    assert(pieces(ended) =~= pieces(text).push(Seq::<u8>::empty()));
    assert(Seq::<u8>::empty().push(46u8) =~= seq![46u8]);
    assert(pieces(dotted) =~= pieces(text).push(seq![46u8]));
    lemma_names_push(pieces(text), Seq::<u8>::empty());
    lemma_names_push(pieces(text), seq![46u8]);
    assert(ended[0] == text[0] && dotted[0] == text[0]);
    if text.len() > 1 {
        assert(ended[1] == text[1] && dotted[1] == text[1]);
    }
    assert(anchor(ended) == anchor(text) && anchor(dotted) == anchor(text));
}

/// A path that starts at the root, or at the dot of the directory it is read in,
/// keeps that as its first component.
pub proof fn law_start_of_a_path_is_kept(rest: Seq<u8>)
    ensures
        components(seq![47u8] + rest).len() > 0,
        components(seq![47u8] + rest)[0] == seq![47u8],
        components(seq![46u8, 47u8] + rest).len() > 0,
        components(seq![46u8, 47u8] + rest)[0] == seq![46u8],
{
    let rooted = seq![47u8] + rest;
    let dotted = seq![46u8, 47u8] + rest;
    assert(rooted[0] == 47u8);
    assert(dotted[0] == 46u8 && dotted[1] == 47u8);
    assert(anchor(rooted) == seq![seq![47u8]]);
    assert(anchor(dotted) == seq![seq![46u8]]);
}

} // verus!
