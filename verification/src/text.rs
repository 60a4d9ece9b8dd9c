//! Text: numbers written out, trimming, searching, and the way between bytes
//! and characters.
use vstd::prelude::*;
use vstd::utf8::{decode_utf8, encode_utf8, valid_utf8};

verus! {

/// `String::push` appends one character.
pub assume_specification[ String::push ](s: &mut String, ch: char)
    ensures
        final(s)@ == old(s)@.push(ch),
;

/// What `String::from_utf8_lossy` reads from bytes.
pub uninterp spec fn lossy_utf8(bytes: Seq<u8>) -> Seq<char>;

/// Calls `String::from_utf8_lossy`: valid UTF-8 is decoded as it stands; what
/// stands in for invalid bytes is not spelled out.
#[verifier::external_body]
pub(crate) fn from_utf8_lossy(bytes: &[u8]) -> (r: String)
    ensures
        r@ == lossy_utf8(bytes@),
        valid_utf8(bytes@) ==> r@ == decode_utf8(bytes@),
{
    String::from_utf8_lossy(bytes).into_owned()
}

/// Calls `String::from_utf8`: the decoded text where the bytes are UTF-8, and
/// nothing where they are not.
#[verifier::external_body]
pub(crate) fn from_utf8(bytes: Vec<u8>) -> (r: Option<String>)
    ensures
        r is Some <==> valid_utf8(bytes@),
        r matches Some(text) ==> text@ == decode_utf8(bytes@),
{
    String::from_utf8(bytes).ok()
}

/// The bytes of a text.
pub fn text_bytes(text: &str) -> (r: Vec<u8>)
    ensures
        r@ == encode_utf8(text@),
{
    vstd::slice::slice_to_vec(text.as_bytes())
}

/// The characters of a text, one by one.
pub fn text_chars(text: &str) -> (r: Vec<char>)
    ensures
        r@ == text@,
{
    let mut r: Vec<char> = Vec::new();
    for c in it: text.chars()
        invariant
            it.seq() == text@,
            r@ == text@.take(it.index() as int),
    {
        assert(text@.take(it.index() + 1) =~= text@.take(it.index() as int).push(c));
        r.push(c);
    }
    assert(text@.take(text@.len() as int) =~= text@);
    r
}

/// The text made of some characters.
pub fn chars_text(chars: &[char], from: usize, to: usize) -> (r: String)
    requires
        from <= to <= chars@.len(),
    ensures
        r@ == chars@.subrange(from as int, to as int),
{
    let mut r = String::new();
    let mut i: usize = from;
    assert(chars@.subrange(from as int, from as int) =~= Seq::<char>::empty());
    while i < to
        invariant
            from <= i <= to <= chars@.len(),
            r@ == chars@.subrange(from as int, i as int),
        decreases to - i,
    {
        r.push(chars[i]);
        assert(chars@.subrange(from as int, i + 1) =~= chars@.subrange(from as int, i as int).push(
            chars@[i as int],
        ));
        i = i + 1;
    }
    r
}

/// The digit for a value below sixteen.
pub open spec fn digit_char(d: int) -> char {
    seq!['0', '1', '2', '3', '4', '5', '6', '7', '8', '9', 'a', 'b', 'c', 'd', 'e', 'f'][d]
}

/// A number written in a base, without leading zeros.
pub open spec fn digits(n: nat, base: nat) -> Seq<char>
    decreases n,
{
    if base < 2 || n < base {
        seq![digit_char(n as int)]
    } else {
        proof {
            assert(n / base < n) by (nonlinear_arith)
                requires
                    2 <= base <= n,
            ;
        }
        digits(n / base, base).push(digit_char((n % base) as int))
    }
}

/// A number written in decimal.
pub open spec fn decimal(n: int) -> Seq<char> {
    if n < 0 {
        seq!['-'] + digits((-n) as nat, 10)
    } else {
        digits(n as nat, 10)
    }
}

/// `text` with zeros in front up to a width.
pub open spec fn zero_padded(text: Seq<char>, width: nat) -> Seq<char> {
    if text.len() >= width {
        text
    } else {
        Seq::new((width - text.len()) as nat, |i: int| '0') + text
    }
}

pub(crate) fn digit(d: u64) -> (c: char)
    requires
        d < 16,
    ensures
        c == digit_char(d as int),
{
    match d {
        0 => '0',
        1 => '1',
        2 => '2',
        3 => '3',
        4 => '4',
        5 => '5',
        6 => '6',
        7 => '7',
        8 => '8',
        9 => '9',
        10 => 'a',
        11 => 'b',
        12 => 'c',
        13 => 'd',
        14 => 'e',
        _ => 'f',
    }
}

/// Writes a number in a base.
pub fn number_text(n: u64, base: u64) -> (r: String)
    requires
        2 <= base <= 16,
    ensures
        r@ == digits(n as nat, base as nat),
    decreases n,
{
    if n < base {
        let mut r = String::new();
        r.push(digit(n));
        assert(r@ =~= seq![digit_char(n as int)]);
        r
    } else {
        proof {
            assert(n / base < n) by (nonlinear_arith)
                requires
                    2 <= base <= n,
            ;
            assert(n % base < base) by (nonlinear_arith)
                requires
                    2 <= base,
            ;
        }
        let mut r = number_text(n / base, base);
        r.push(digit(n % base));
        r
    }
}

/// Writes a number in decimal.
pub fn decimal_text(n: i64) -> (r: String)
    ensures
        r@ == decimal(n as int),
{
    if n < 0 {
        let magnitude: u64 = (-(n + 1)) as u64 + 1;
        let rest = number_text(magnitude, 10);
        let mut r = String::new();
        r.push('-');
        r.append(rest.as_str());
        assert(r@ =~= seq!['-'] + rest@);
        r
    } else {
        number_text(n as u64, 10)
    }
}

/// Writes a number in hexadecimal with at least `width` digits.
pub fn padded_hex(n: u64, width: usize) -> (r: String)
    ensures
        r@ == zero_padded(digits(n as nat, 16), width as nat),
{
    let tail = number_text(n, 16);
    let len = text_chars(tail.as_str()).len();
    let mut r = String::new();
    if len < width {
        let mut i: usize = 0;
        assert(Seq::new(0, |i: int| '0') =~= Seq::<char>::empty());
        while i < width - len
            invariant
                len < width,
                i <= width - len,
                r@ == Seq::new(i as nat, |i: int| '0'),
            decreases width - len - i,
        {
            r.push('0');
            i = i + 1;
            assert(r@ =~= Seq::new(i as nat, |i: int| '0'));
        }
        r.append(tail.as_str());
        r
    } else {
        tail
    }
}

/// Each byte as two hexadecimal digits.
pub open spec fn hex(bytes: Seq<u8>) -> Seq<char>
    decreases bytes.len(),
{
    if bytes.len() == 0 {
        Seq::empty()
    } else {
        hex(bytes.drop_last()).push(digit_char(bytes.last() as int / 16)).push(
            digit_char(bytes.last() as int % 16),
        )
    }
}

/// Writes bytes in hexadecimal.
pub fn hex_text(bytes: &[u8]) -> (r: String)
    ensures
        r@ == hex(bytes@),
{
    let mut r = String::new();
    let mut i: usize = 0;
    assert(bytes@.take(0) =~= Seq::<u8>::empty());
    while i < bytes.len()
        invariant
            i <= bytes@.len(),
            r@ == hex(bytes@.take(i as int)),
        decreases bytes@.len() - i,
    {
        let b = bytes[i];
        r.push(digit((b / 16) as u64));
        r.push(digit((b % 16) as u64));
        assert(bytes@.take(i + 1).drop_last() =~= bytes@.take(i as int));
        i = i + 1;
    }
    assert(bytes@.take(i as int) =~= bytes@);
    r
}

/// The characters with the Unicode property White_Space.
pub open spec fn is_white_space(c: char) -> bool {
    let u = c as u32;
    ||| 0x9 <= u <= 0xd
    ||| u == 0x20
    ||| u == 0x85
    ||| u == 0xa0
    ||| u == 0x1680
    ||| 0x2000 <= u <= 0x200a
    ||| u == 0x2028
    ||| u == 0x2029
    ||| u == 0x202f
    ||| u == 0x205f
    ||| u == 0x3000
}

/// Whether a character is white space.
pub fn white_space(c: char) -> (r: bool)
    ensures
        r == is_white_space(c),
{
    let u = c as u32;
    (0x9 <= u && u <= 0xd) || u == 0x20 || u == 0x85 || u == 0xa0 || u == 0x1680 || (0x2000 <= u
        && u <= 0x200a) || u == 0x2028 || u == 0x2029 || u == 0x202f || u == 0x205f || u == 0x3000
}

/// Without the white space at both ends.
pub open spec fn trimmed(s: Seq<char>) -> Seq<char>
    decreases s.len(),
{
    if s.len() > 0 && is_white_space(s.first()) {
        trimmed(s.drop_first())
    } else if s.len() > 0 && is_white_space(s.last()) {
        trimmed(s.drop_last())
    } else {
        s
    }
}

/// Where the trimmed part of some characters stands.
pub(crate) fn trim_range(chars: &[char]) -> (r: (usize, usize))
    ensures
        r.0 <= r.1 <= chars@.len(),
        chars@.subrange(r.0 as int, r.1 as int) == trimmed(chars@),
{
    let mut from: usize = 0;
    let mut to: usize = chars.len();
    assert(chars@.subrange(0, chars@.len() as int) =~= chars@);
    while from < to && white_space(chars[from])
        invariant
            from <= to == chars@.len(),
            trimmed(chars@.subrange(from as int, to as int)) == trimmed(chars@),
        decreases to - from,
    {
        assert(chars@.subrange(from as int, to as int).drop_first() =~= chars@.subrange(
            from + 1,
            to as int,
        ));
        from = from + 1;
    }
    while from < to && white_space(chars[to - 1])
        invariant
            from <= to <= chars@.len(),
            from < to ==> !is_white_space(chars@[from as int]),
            trimmed(chars@.subrange(from as int, to as int)) == trimmed(chars@),
        decreases to - from,
    {
        assert(chars@.subrange(from as int, to as int).drop_last() =~= chars@.subrange(
            from as int,
            to - 1,
        ));
        to = to - 1;
    }
    (from, to)
}

/// The value of decimal digits.
pub open spec fn number_value(s: Seq<char>) -> nat
    decreases s.len(),
{
    if s.len() == 0 {
        0
    } else {
        (number_value(s.drop_last()) * 10 + (s.last() as u32 - '0' as u32)) as nat
    }
}

pub open spec fn is_digit(c: char) -> bool {
    '0' as u32 <= c as u32 <= '9' as u32
}

/// What is left behind a leading plus sign.
pub open spec fn unsigned_part(s: Seq<char>) -> Seq<char> {
    if s.len() > 0 && s[0] == '+' {
        s.drop_first()
    } else {
        s
    }
}

/// The number that a text stands for: an optional plus sign and at least one
/// digit, no larger than a `usize`.
pub open spec fn parsed_usize(s: Seq<char>) -> Option<usize> {
    let d = unsigned_part(s);
    if d.len() > 0 && d.all(|c: char| is_digit(c)) && number_value(d) <= usize::MAX {
        Some(number_value(d) as usize)
    } else {
        None
    }
}

proof fn lemma_number_value_prefix(s: Seq<char>, n: int)
    requires
        0 <= n <= s.len(),
        forall|i: int| 0 <= i < s.len() ==> is_digit(s[i]),
    ensures
        number_value(s.take(n)) <= number_value(s),
    decreases s.len() - n,
{
    if n < s.len() {
        lemma_number_value_prefix(s, n + 1);
        assert(s.take(n + 1).drop_last() =~= s.take(n));
        assert(is_digit(s[n]));
    } else {
        assert(s.take(n) =~= s);
    }
}

/// Reads a number.
pub(crate) fn parse_usize(chars: &[char], from: usize, to: usize) -> (r: Option<usize>)
    requires
        from <= to <= chars@.len(),
    ensures
        r == parsed_usize(chars@.subrange(from as int, to as int)),
{
    let ghost whole = chars@.subrange(from as int, to as int);
    let ghost d = unsigned_part(whole);
    let start: usize = if from < to && chars[from] == '+' {
        from + 1
    } else {
        from
    };
    assert(d =~= chars@.subrange(start as int, to as int));
    if start == to {
        return None;
    }
    let mut value: usize = 0;
    let mut i: usize = start;
    assert(d.take(0) =~= Seq::<char>::empty());
    while i < to
        invariant
            start <= i <= to <= chars@.len(),
            d == chars@.subrange(start as int, to as int),
            d == unsigned_part(whole),
            whole == chars@.subrange(from as int, to as int),
            forall|j: int| 0 <= j < i - start ==> is_digit(d[j]),
            value == number_value(d.take(i - start)),
        decreases to - i,
    {
        let c = chars[i];
        assert(c == d[i - start]);
        assert(d.take(i - start + 1).drop_last() =~= d.take(i - start));
        if !('0' as u32 <= c as u32 && c as u32 <= '9' as u32) {
            proof {
                if d.all(|c: char| is_digit(c)) {
                    assert((|c: char| is_digit(c))(d[i - start]));
                }
            }
            return None;
        }
        let v: usize = (c as u32 - '0' as u32) as usize;
        let too_large = value > usize::MAX / 10 || value * 10 > usize::MAX - v;
        if too_large {
            proof {
                if d.all(|c: char| is_digit(c)) {
                    assert forall|j: int| 0 <= j < d.len() implies is_digit(d[j]) by {
                        assert((|c: char| is_digit(c))(d[j]));
                    }
                    lemma_number_value_prefix(d, i - start + 1);
                }
            }
            return None;
        }
        value = value * 10 + v;
        i = i + 1;
    }
    proof {
        assert(d.take(to - start) =~= d);
    }
    Some(value)
}

/// Reads the number that a text holds between white space, or gives the
/// default where it holds none.
pub fn number_or(text: &str, default: usize) -> (r: usize)
    ensures
        r == match parsed_usize(trimmed(text@)) {
            Some(n) => n,
            None => default,
        },
{
    let chars = text_chars(text);
    let range = trim_range(chars.as_slice());
    match parse_usize(chars.as_slice(), range.0, range.1) {
        Some(n) => n,
        None => default,
    }
}

/// The texts one after the other, `sep` between each two.
pub open spec fn joined(list: Seq<Seq<char>>, sep: Seq<char>) -> Seq<char>
    decreases list.len(),
{
    if list.len() == 0 {
        Seq::empty()
    } else if list.len() == 1 {
        list[0]
    } else {
        joined(list.drop_last(), sep) + sep + list.last()
    }
}

/// The characters of each text.
pub open spec fn text_views(list: Seq<String>) -> Seq<Seq<char>> {
    list.map_values(|s: String| s@)
}

/// Joins texts.
pub fn join_texts(list: &Vec<String>, sep: &str) -> (r: String)
    ensures
        r@ == joined(text_views(list@), sep@),
{
    let mut r = String::new();
    let mut i: usize = 0;
    let ghost views = text_views(list@);
    assert(views.take(0) =~= Seq::<Seq<char>>::empty());
    while i < list.len()
        invariant
            i <= list@.len(),
            views == text_views(list@),
            r@ == joined(views.take(i as int), sep@),
        decreases list@.len() - i,
    {
        assert(views.take(i + 1).drop_last() =~= views.take(i as int));
        assert(views[i as int] == list@[i as int]@);
        if i > 0 {
            r.append(sep);
        }
        r.append(list[i].as_str());
        i = i + 1;
        assert(r@ =~= joined(views.take(i as int), sep@));
    }
    assert(views.take(i as int) =~= views);
    r
}

proof fn lemma_digit_value(d: int)
    requires
        0 <= d < 10,
    ensures
        is_digit(digit_char(d)),
        digit_char(d) as u32 - '0' as u32 == d,
{
}

/// A number in decimal is made of digits and has its own value.
pub proof fn lemma_digits_are_digits(n: nat)
    ensures
        digits(n, 10).len() > 0,
        forall|i: int| 0 <= i < digits(n, 10).len() ==> is_digit(#[trigger] digits(n, 10)[i]),
        number_value(digits(n, 10)) == n,
    decreases n,
{
    reveal_with_fuel(number_value, 2);
    if n < 10 {
        lemma_digit_value(n as int);
        assert(digits(n, 10).drop_last() =~= Seq::empty());
    } else {
        lemma_digits_are_digits(n / 10);
        lemma_digit_value((n % 10) as int);
        let high = digits(n / 10, 10);
        assert(digits(n, 10) == high.push(digit_char((n % 10) as int)));
        assert(digits(n, 10).drop_last() =~= high);
    }
}

/// A number that is written in decimal is read as that number.
pub proof fn law_written_number_is_read_back(n: usize)
    ensures
        parsed_usize(decimal(n as int)) == Some(n),
{
    lemma_digits_are_digits(n as nat);
    let d = decimal(n as int);
    assert(is_digit(d[0]));
    assert(unsigned_part(d) == d);
    assert(d.all(|c: char| is_digit(c)));
}

/// White space around a text is taken off, and nothing else.
pub proof fn law_trimming_takes_off_white_space(front: Seq<char>, text: Seq<char>, back: Seq<char>)
    requires
        forall|i: int| 0 <= i < front.len() ==> is_white_space(#[trigger] front[i]),
        forall|i: int| 0 <= i < back.len() ==> is_white_space(#[trigger] back[i]),
        text.len() > 0,
        !is_white_space(text.first()),
        !is_white_space(text.last()),
    ensures
        trimmed(front + text + back) == text,
    decreases front.len() + back.len(),
{
    let all = front + text + back;
    if front.len() > 0 {
        let less = front.drop_first();
        assert(all.first() == front[0]);
        assert(all.drop_first() =~= less + text + back);
        assert forall|i: int| 0 <= i < less.len() implies is_white_space(#[trigger] less[i]) by {
            assert(less[i] == front[i + 1]);
        }
        law_trimming_takes_off_white_space(less, text, back);
    } else if back.len() > 0 {
        let less = back.drop_last();
        assert(all.first() == text.first());
        assert(all.last() == back[back.len() - 1]);
        assert(all.drop_last() =~= front + text + less);
        assert forall|i: int| 0 <= i < less.len() implies is_white_space(#[trigger] less[i]) by {
            assert(less[i] == back[i]);
        }
        law_trimming_takes_off_white_space(front, text, less);
    } else {
        assert(all =~= text);
    }
}

/// Joining puts the separator between each two texts.
pub proof fn law_joining_puts_the_separator_between(
    list: Seq<Seq<char>>,
    text: Seq<char>,
    sep: Seq<char>,
)
    ensures
        joined(Seq::empty(), sep) == Seq::<char>::empty(),
        list.len() == 0 ==> joined(list.push(text), sep) == text,
        list.len() > 0 ==> joined(list.push(text), sep) == joined(list, sep) + sep + text,
{
    assert(list.push(text).drop_last() =~= list);
}

/// Each byte is written as two digits, the higher one first.
pub proof fn law_bytes_are_two_digits(bytes: Seq<u8>, b: u8)
    ensures
        hex(Seq::empty()) == Seq::<char>::empty(),
        hex(bytes.push(b)) == hex(bytes) + seq![digit_char(b as int / 16), digit_char(b as int % 16)],
{
    assert(bytes.push(b).drop_last() =~= bytes);
    assert(hex(bytes.push(b)) =~= hex(bytes) + seq![
        digit_char(b as int / 16),
        digit_char(b as int % 16),
    ]);
}

/// A number may have a plus sign, and nothing is no number.
pub proof fn law_plus_signs_are_passed_over(s: Seq<char>)
    requires
        s.len() == 0 || s[0] != '+',
    ensures
        parsed_usize(seq!['+'] + s) == parsed_usize(s),
        s.len() == 0 ==> parsed_usize(s) is None,
{
    assert((seq!['+'] + s).drop_first() =~= s);
    assert((seq!['+'] + s)[0] == '+');
}

/// A negative number is the positive one behind a minus sign.
pub proof fn law_negative_numbers_have_a_sign(n: nat)
    requires
        n > 0,
    ensures
        decimal(-n) == seq!['-'] + decimal(n as int),
{
}

/// Digits are the decimal ones, then the small letters.
pub proof fn law_digits_are_small_letters(d: int)
    ensures
        0 <= d < 10 ==> digit_char(d) as u32 == 48 + d,
        10 <= d < 16 ==> digit_char(d) as u32 == 97 + d - 10,
{
}

/// A text is filled up with zeros in front, to its width and no further.
pub proof fn law_zeros_fill_up(text: Seq<char>, width: nat, i: int)
    ensures
        zero_padded(text, width).len() == if text.len() < width {
            width
        } else {
            text.len()
        },
        0 <= i < width - text.len() ==> zero_padded(text, width)[i] == '0',
        text.is_suffix_of(zero_padded(text, width)),
{
}

/// White space are the control characters from tab to carriage return, the
/// space, the next line, and the spaces and line ends beyond the first 256
/// characters.
pub proof fn law_white_space_is_what_separates(c: char)
    ensures
        (c as u32) < 256 ==> (is_white_space(c) <==> 9 <= c as u32 <= 13 || c as u32 == 32
            || c as u32 == 133 || c as u32 == 160),
        c as u32 >= 256 ==> (is_white_space(c) <==> c as u32 == 5760 || 8192 <= c as u32 <= 8202
            || c as u32 == 8232 || c as u32 == 8233 || c as u32 == 8239 || c as u32 == 8287
            || c as u32 == 12288),
{
}

} // verus!
