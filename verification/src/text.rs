//! Text as sequences of characters: splitting, joining, trimming, decimal numbers and order.

use vstd::prelude::*;
use vstd::utf8::*;

verus! {

/// `String::push` appends one character to the end of the string.
pub assume_specification[ String::push ](s: &mut String, c: char)
    ensures
        final(s)@ == old(s)@.push(c),
;

/// What `str::to_lowercase` returns on a string, by the characters that the string holds.
pub uninterp spec fn lowercase(s: Seq<char>) -> Seq<char>;

/// `str::to_lowercase` maps a string to its Unicode lowercase form. The form is a function of the
/// characters alone and does not depend on a locale; the Unicode tables behind it stay unstated.
pub assume_specification[ str::to_lowercase ](s: &str) -> (r: String)
    ensures
        r@ == lowercase(s@),
;

/// The texts that a sequence of strings holds.
pub open spec fn texts(strings: Seq<String>) -> Seq<Seq<char>> {
    strings.map_values(|s: String| s@)
}

/// The pieces of `s` between the separators, in order; a text without separator is one piece.
pub open spec fn pieces(s: Seq<char>, sep: char) -> Seq<Seq<char>>
    decreases s.len(),
{
    if s.len() == 0 {
        seq![Seq::<char>::empty()]
    } else {
        let before = pieces(s.drop_last(), sep);
        if s.last() == sep {
            before.push(Seq::empty())
        } else {
            before.drop_last().push(before.last().push(s.last()))
        }
    }
}

/// The parts written one after the other with `sep` between neighbours.
pub open spec fn joined(parts: Seq<Seq<char>>, sep: Seq<char>) -> Seq<char>
    decreases parts.len(),
{
    if parts.len() == 0 {
        Seq::empty()
    } else if parts.len() == 1 {
        parts[0]
    } else {
        joined(parts.drop_last(), sep) + sep + parts.last()
    }
}

/// `needle` occurs in `hay`.
pub open spec fn contains_text(hay: Seq<char>, needle: Seq<char>) -> bool {
    exists|i: int|
        0 <= i && i + needle.len() <= hay.len() && #[trigger] hay.subrange(
            i,
            i + needle.len(),
        ) == needle
}

/// The position of the first `c` in `s`.
pub open spec fn first_position(s: Seq<char>, c: char) -> Option<int>
    decreases s.len(),
{
    if s.len() == 0 {
        None
    } else {
        match first_position(s.drop_last(), c) {
            Some(i) => Some(i),
            None => if s.last() == c {
                Some(s.len() - 1)
            } else {
                None
            },
        }
    }
}

/// The characters with the Unicode property White_Space.
pub open spec fn is_white_space(c: char) -> bool {
    ||| '\u{9}' <= c <= '\u{d}'
    ||| c == ' '
    ||| c == '\u{85}'
    ||| c == '\u{a0}'
    ||| c == '\u{1680}'
    ||| '\u{2000}' <= c <= '\u{200a}'
    ||| c == '\u{2028}'
    ||| c == '\u{2029}'
    ||| c == '\u{202f}'
    ||| c == '\u{205f}'
    ||| c == '\u{3000}'
}

/// Which characters a trim takes off the ends of a text.
#[derive(Clone, Copy, Debug, PartialEq, Eq, Structural)]
pub enum Trim {
    WhiteSpace,
    Slash,
}

impl Trim {
    pub open spec fn drops(self, c: char) -> bool {
        match self {
            Trim::WhiteSpace => is_white_space(c),
            Trim::Slash => c == '/',
        }
    }
}

pub open spec fn start_trimmed(s: Seq<char>, trim: Trim) -> Seq<char>
    decreases s.len(),
{
    if s.len() > 0 && trim.drops(s[0]) {
        start_trimmed(s.drop_first(), trim)
    } else {
        s
    }
}

pub open spec fn end_trimmed(s: Seq<char>, trim: Trim) -> Seq<char>
    decreases s.len(),
{
    if s.len() > 0 && trim.drops(s.last()) {
        end_trimmed(s.drop_last(), trim)
    } else {
        s
    }
}

/// `s` without the dropped characters at its two ends.
pub open spec fn trimmed(s: Seq<char>, trim: Trim) -> Seq<char> {
    end_trimmed(start_trimmed(s, trim), trim)
}

/// The character that stands for a decimal digit.
pub open spec fn digit_char(d: int) -> char {
    (d + '0' as int) as char
}

pub open spec fn is_digit(c: char) -> bool {
    '0' <= c <= '9'
}

/// A number in decimal, without leading zeros.
pub open spec fn decimal(n: nat) -> Seq<char>
    decreases n,
{
    if n < 10 {
        seq![digit_char(n as int)]
    } else {
        decimal(n / 10).push(digit_char((n % 10) as int))
    }
}

/// The number that a row of digits stands for.
pub open spec fn digits_value(s: Seq<char>) -> nat
    decreases s.len(),
{
    if s.len() == 0 {
        0
    } else {
        digits_value(s.drop_last()) * 10 + (s.last() as nat - '0' as nat) as nat
    }
}

/// A text read as a `u64`: an optional plus sign and then decimal digits only, at least one of
/// them, whose value fits.
pub open spec fn parsed_u64(s: Seq<char>) -> Option<u64> {
    let digits = without_plus(s);
    if digits.len() > 0 && all_digits(digits) && digits_value(digits) <= u64::MAX {
        Some(digits_value(digits) as u64)
    } else {
        None
    }
}

pub open spec fn without_plus(s: Seq<char>) -> Seq<char> {
    if s.len() > 0 && s[0] == '+' {
        s.skip(1)
    } else {
        s
    }
}

pub open spec fn all_digits(s: Seq<char>) -> bool {
    forall|i: int| 0 <= i < s.len() ==> is_digit(#[trigger] s[i])
}

/// `a` comes before `b` in the order of their characters' code points.
pub open spec fn lex_less(a: Seq<char>, b: Seq<char>) -> bool
    decreases a.len(),
{
    if b.len() == 0 {
        false
    } else if a.len() == 0 {
        true
    } else if a[0] != b[0] {
        a[0] < b[0]
    } else {
        lex_less(a.drop_first(), b.drop_first())
    }
}

/// The characters of a string, in order.
pub fn chars_of(s: &str) -> (chars: Vec<char>)
    ensures
        chars@ == s@,
{
    let mut chars: Vec<char> = Vec::new();
    for c in it: s.chars()
        invariant
            chars@ == it.seq().take(it.index() as int),
            it.seq() == s@,
    {
        chars.push(c);
        assert(it.seq().take(it.index() + 1) =~= it.seq().take(it.index() as int).push(c));
    }
    assert(s@.take(s@.len() as int) =~= s@);
    chars
}

/// The string made of `chars[from..to]`.
pub fn string_between(chars: &Vec<char>, from: usize, to: usize) -> (s: String)
    requires
        from <= to <= chars.len(),
    ensures
        s@ == chars@.subrange(from as int, to as int),
{
    let mut s = String::new();
    let mut i: usize = from;
    while i < to
        invariant
            from <= i <= to <= chars.len(),
            s@ == chars@.subrange(from as int, i as int),
        decreases to - i,
    {
        s.push(chars[i]);
        i += 1;
        assert(chars@.subrange(from as int, i as int) =~= chars@.subrange(
            from as int,
            i - 1,
        ).push(chars@[i - 1]));
    }
    s
}

/// Two strings hold the same characters.
pub fn same_text(a: &str, b: &str) -> (same: bool)
    ensures
        same == (a@ == b@),
{
    let left = chars_of(a);
    let right = chars_of(b);
    if left.len() != right.len() {
        return false;
    }
    let mut i: usize = 0;
    while i < left.len()
        invariant
            left@ == a@,
            right@ == b@,
            i <= left.len() == right.len(),
            forall|k: int| 0 <= k < i ==> left@[k] == right@[k],
        decreases left.len() - i,
    {
        if left[i] != right[i] {
            assert(left@[i as int] != right@[i as int]);
            return false;
        }
        i += 1;
    }
    assert(left@ =~= right@);
    true
}

/// `c` occurs in `s`.
pub fn contains_char(s: &str, c: char) -> (found: bool)
    ensures
        found == s@.contains(c),
{
    let chars = chars_of(s);
    let mut i: usize = 0;
    while i < chars.len()
        invariant
            chars@ == s@,
            i <= chars.len(),
            forall|k: int| 0 <= k < i ==> chars@[k] != c,
        decreases chars.len() - i,
    {
        if chars[i] == c {
            assert(chars@[i as int] == c);
            return true;
        }
        i += 1;
    }
    false
}

/// Splits `s` at every `sep`.
pub fn split(s: &str, sep: char) -> (parts: Vec<String>)
    ensures
        texts(parts@) == pieces(s@, sep),
        parts.len() > 0,
{
    let chars = chars_of(s);
    let mut parts: Vec<String> = Vec::new();
    let mut current = String::new();
    let mut i: usize = 0;
    assert(chars@.take(0) =~= Seq::<char>::empty());
    assert(texts(parts@).push(current@) =~= seq![Seq::<char>::empty()]);
    while i < chars.len()
        invariant
            i <= chars.len(),
            texts(parts@).push(current@) == pieces(chars@.take(i as int), sep),
        decreases chars.len() - i,
    {
        let c = chars[i];
        i += 1;
        let ghost done = texts(parts@);
        assert(chars@.take(i as int).drop_last() =~= chars@.take(i - 1));
        if c == sep {
            parts.push(current);
            current = String::new();
            assert(texts(parts@) =~= done.push(parts@.last()@));
        } else {
            let ghost before = current@;
            current.push(c);
            assert(done.push(before).drop_last() =~= done);
        }
    }
    let ghost done = texts(parts@);
    parts.push(current);
    assert(texts(parts@) =~= done.push(current@));
    assert(chars@.take(chars.len() as int) =~= chars@);
    parts
}

/// The last piece of `s`.
pub fn last_piece(s: &str, sep: char) -> (piece: String)
    ensures
        piece@ == pieces(s@, sep).last(),
{
    let mut parts = split(s, sep);
    assert(texts(parts@).last() == parts@.last()@);
    parts.pop().unwrap()
}

/// The texts that a sequence of borrowed strings holds.
pub open spec fn strs(strings: Seq<&str>) -> Seq<Seq<char>> {
    strings.map_values(|s: &str| s@)
}

/// The given strings, borrowed.
pub fn borrowed<'a>(strings: &'a Vec<String>) -> (r: Vec<&'a str>)
    ensures
        strs(r@) == texts(strings@),
{
    let mut r: Vec<&'a str> = Vec::new();
    let mut i: usize = 0;
    while i < strings.len()
        invariant
            i <= strings.len(),
            strs(r@) == texts(strings@).take(i as int),
        decreases strings.len() - i,
    {
        let ghost before = r@;
        r.push(strings[i].as_str());
        i += 1;
        assert(strs(r@) =~= strs(before).push(strings@[i - 1]@));
        assert(texts(strings@).take(i as int) =~= texts(strings@).take(i - 1).push(
            strings@[i - 1]@,
        ));
    }
    assert(texts(strings@).take(strings.len() as int) =~= texts(strings@));
    r
}

/// Joins the parts with `sep` between neighbours.
pub fn join(parts: &[&str], sep: &str) -> (s: String)
    ensures
        s@ == joined(strs(parts@), sep@),
{
    let mut s = String::new();
    let mut i: usize = 0;
    let ghost all = strs(parts@);
    while i < parts.len()
        invariant
            i <= parts.len(),
            all == strs(parts@),
            s@ == joined(all.take(i as int), sep@),
        decreases parts.len() - i,
    {
        assert(all.take(i + 1).drop_last() =~= all.take(i as int));
        assert(all.take(i + 1).last() == parts@[i as int]@);
        if i > 0 {
            s.append(sep);
        }
        s.append(parts[i]);
        assert(s@ =~= joined(all.take(i + 1), sep@));
        i += 1;
    }
    assert(all.take(all.len() as int) =~= all);
    s
}

pub fn has_white_space_property(c: char) -> (b: bool)
    ensures
        b == is_white_space(c),
{
    ('\u{9}' <= c && c <= '\u{d}') || c == ' ' || c == '\u{85}' || c == '\u{a0}' || c == '\u{1680}'
        || ('\u{2000}' <= c && c <= '\u{200a}') || c == '\u{2028}' || c == '\u{2029}' || c
        == '\u{202f}' || c == '\u{205f}' || c == '\u{3000}'
}

/// Takes the characters that `trim` drops off both ends of `s`.
pub fn trim_ends(s: &str, trim: Trim) -> (r: String)
    ensures
        r@ == trimmed(s@, trim),
{
    let chars = chars_of(s);
    let mut from: usize = 0;
    let mut to: usize = chars.len();
    assert(chars@.skip(0) =~= chars@);
    while from < to && drops(trim, chars[from])
        invariant
            from <= to == chars.len(),
            start_trimmed(chars@, trim) == start_trimmed(chars@.skip(from as int), trim),
        decreases to - from,
    {
        assert(chars@.skip(from as int).drop_first() =~= chars@.skip(from + 1));
        from += 1;
    }
    assert(start_trimmed(chars@, trim) == chars@.skip(from as int));
    assert(chars@.skip(from as int) =~= chars@.subrange(from as int, to as int));
    while from < to && drops(trim, chars[to - 1])
        invariant
            from <= to <= chars.len(),
            trimmed(chars@, trim) == end_trimmed(chars@.subrange(from as int, to as int), trim),
        decreases to - from,
    {
        assert(chars@.subrange(from as int, to as int).drop_last() =~= chars@.subrange(
            from as int,
            to - 1,
        ));
        to -= 1;
    }
    string_between(&chars, from, to)
}

fn drops(trim: Trim, c: char) -> (b: bool)
    ensures
        b == trim.drops(c),
{
    match trim {
        Trim::WhiteSpace => has_white_space_property(c),
        Trim::Slash => c == '/',
    }
}

/// Writes a number in decimal.
pub fn decimal_text(n: u64) -> (s: String)
    ensures
        s@ == decimal(n as nat),
    decreases n,
{
    let mut s = if n < 10 {
        String::new()
    } else {
        decimal_text(n / 10)
    };
    s.push(digit_of((n % 10) as u8));
    s
}

fn digit_of(d: u8) -> (c: char)
    requires
        d < 10,
    ensures
        c == digit_char(d as int),
{
    (48u8 + d) as char
}

/// Reads a text as a `u64`.
pub fn parse_u64(s: &str) -> (n: Option<u64>)
    ensures
        n == parsed_u64(s@),
{
    let chars = chars_of(s);
    let from: usize = if chars.len() > 0 && chars[0] == '+' {
        1
    } else {
        0
    };
    let ghost digits = without_plus(s@);
    assert(digits =~= chars@.skip(from as int));
    if from == chars.len() {
        return None;
    }
    let mut value: u64 = 0;
    let mut i: usize = from;
    while i < chars.len()
        invariant
            from <= i <= chars.len(),
            chars@ == s@,
            digits == without_plus(s@),
            digits == chars@.skip(from as int),
            all_digits(digits.take(i - from)),
            value == digits_value(digits.take(i - from)),
        decreases chars.len() - i,
    {
        let c = chars[i];
        assert(digits[i - from] == c);
        if !('0' <= c && c <= '9') {
            return None;
        }
        let digit = (c as u32 - '0' as u32) as u64;
        assert(digits.take(i + 1 - from).drop_last() =~= digits.take(i - from));
        assert(digits_value(digits.take(i + 1 - from)) == value * 10 + digit);
        if value > u64::MAX / 10 || value * 10 > u64::MAX - digit {
            proof {
                lemma_digits_value_grows(digits, i + 1 - from);
            }
            return None;
        }
        value = value * 10 + digit;
        i += 1;
    }
    assert(digits.take(digits.len() as int) =~= digits);
    Some(value)
}

/// A row of digits stands for at least the number that its first digits stand for.
proof fn lemma_digits_value_grows(s: Seq<char>, n: int)
    requires
        0 <= n <= s.len(),
    ensures
        digits_value(s.take(n)) <= digits_value(s),
    decreases s.len() - n,
{
    if n < s.len() {
        lemma_digits_value_grows(s, n + 1);
        assert(s.take(n + 1).drop_last() =~= s.take(n));
    } else {
        assert(s.take(n) =~= s);
    }
}

/// `a` comes before `b` in the order of their characters' code points.
pub fn text_less(a: &str, b: &str) -> (less: bool)
    ensures
        less == lex_less(a@, b@),
{
    let left = chars_of(a);
    let right = chars_of(b);
    let mut i: usize = 0;
    assert(left@.skip(0) =~= left@);
    assert(right@.skip(0) =~= right@);
    while i < left.len() && i < right.len()
        invariant
            left@ == a@,
            right@ == b@,
            i <= left.len(),
            i <= right.len(),
            lex_less(a@, b@) == lex_less(left@.skip(i as int), right@.skip(i as int)),
        decreases left.len() - i,
    {
        if left[i] != right[i] {
            return left[i] < right[i];
        }
        assert(left@.skip(i as int).drop_first() =~= left@.skip(i + 1));
        assert(right@.skip(i as int).drop_first() =~= right@.skip(i + 1));
        i += 1;
    }
    i < right.len()
}

/// `needle` occurs in `hay`.
pub fn has_text(hay: &str, needle: &str) -> (found: bool)
    ensures
        found == contains_text(hay@, needle@),
{
    let h = chars_of(hay);
    let n = chars_of(needle);
    if n.len() > h.len() {
        return false;
    }
    let last: usize = h.len() - n.len();
    let mut i: usize = 0;
    while i < last
        invariant
            h@ == hay@,
            n@ == needle@,
            last + n.len() == h.len(),
            i <= last,
            forall|k: int|
                0 <= k < i ==> #[trigger] h@.subrange(k, k + needle@.len()) != needle@,
        decreases last - i,
    {
        if text_at(&h, &n, i) {
            return true;
        }
        i += 1;
    }
    text_at(&h, &n, last)
}

fn text_at(hay: &Vec<char>, needle: &Vec<char>, at: usize) -> (found: bool)
    requires
        at + needle.len() <= hay.len(),
    ensures
        found == (hay@.subrange(at as int, at + needle.len()) == needle@),
{
    let mut j: usize = 0;
    while j < needle.len()
        invariant
            at + needle.len() <= hay.len(),
            j <= needle.len(),
            forall|k: int| 0 <= k < j ==> hay@[at + k] == needle@[k],
        decreases needle.len() - j,
    {
        if hay[at + j] != needle[j] {
            assert(hay@.subrange(at as int, at + needle.len())[j as int] != needle@[j as int]);
            return false;
        }
        j += 1;
    }
    assert(hay@.subrange(at as int, at + needle.len()) =~= needle@);
    true
}

/// The position of the first `c`.
pub fn find_char(chars: &Vec<char>, c: char) -> (at: Option<usize>)
    ensures
        at matches Some(i) ==> first_position(chars@, c) == Some(i as int),
        at is None ==> first_position(chars@, c) is None,
        at matches Some(i) ==> i < chars.len(),
{
    let mut i: usize = 0;
    assert(chars@.take(0) =~= Seq::<char>::empty());
    while i < chars.len()
        invariant
            i <= chars.len(),
            first_position(chars@.take(i as int), c) is None,
        decreases chars.len() - i,
    {
        assert(chars@.take(i + 1).drop_last() =~= chars@.take(i as int));
        if chars[i] == c {
            proof {
                lemma_first_position_stays(chars@, c, i + 1);
            }
            return Some(i);
        }
        i += 1;
    }
    assert(chars@.take(chars.len() as int) =~= chars@);
    None
}

proof fn lemma_first_position_stays(s: Seq<char>, c: char, n: int)
    requires
        0 <= n <= s.len(),
        first_position(s.take(n), c) is Some,
    ensures
        first_position(s, c) == first_position(s.take(n), c),
    decreases s.len() - n,
{
    if n < s.len() {
        assert(s.take(n + 1).drop_last() =~= s.take(n));
        lemma_first_position_stays(s, c, n + 1);
    } else {
        assert(s.take(n) =~= s);
    }
}

/// Splitting and joining with the separator undo each other: the pieces of a text joined again
/// are the text.
pub proof fn law_join_of_pieces(s: Seq<char>, sep: char)
    ensures
        pieces(s, sep).len() > 0,
        joined(pieces(s, sep), seq![sep]) == s,
    decreases s.len(),
{
    if s.len() > 0 {
        let before = pieces(s.drop_last(), sep);
        law_join_of_pieces(s.drop_last(), sep);
        assert(s.drop_last().push(s.last()) =~= s);
        if s.last() == sep {
            assert(before.push(Seq::empty()).drop_last() =~= before);
            assert(joined(before.push(Seq::empty()), seq![sep]) =~= s);
        } else {
            let last = before.last().push(s.last());
            let after = before.drop_last().push(last);
            assert(after.drop_last() =~= before.drop_last());
            assert(joined(after, seq![sep]) =~= joined(before, seq![sep]).push(s.last()));
        }
    }
}

/// No piece of a text holds the separator.
pub proof fn law_pieces_hold_no_separator(s: Seq<char>, sep: char)
    ensures
        forall|i: int| 0 <= i < pieces(s, sep).len() ==> !(#[trigger] pieces(s, sep)[i]).contains(sep),
    decreases s.len(),
{
    if s.len() > 0 {
        let before = pieces(s.drop_last(), sep);
        law_join_of_pieces(s.drop_last(), sep);
        law_pieces_hold_no_separator(s.drop_last(), sep);
        if s.last() != sep {
            let last = before.last().push(s.last());
            assert(!before[before.len() - 1].contains(sep));
            assert forall|k: int| 0 <= k < last.len() implies last[k] != sep by {
                if k < before.last().len() {
                    assert(last[k] == before.last()[k]);
                }
            }
        }
    }
}

/// Joined parts fall apart into the same parts again, where there is a part and none of them
/// holds the separator.
pub proof fn law_pieces_of_join(parts: Seq<Seq<char>>, sep: char)
    requires
        parts.len() > 0,
        forall|i: int| 0 <= i < parts.len() ==> !(#[trigger] parts[i]).contains(sep),
    ensures
        pieces(joined(parts, seq![sep]), sep) == parts,
    decreases parts.len(),
{
    let empty = Seq::<char>::empty();
    if parts.len() == 1 {
        assert(!parts[0].contains(sep));
        assert(pieces(empty, sep) =~= Seq::<Seq<char>>::empty().push(empty));
        lemma_pieces_of_tail(empty, parts[0], Seq::empty(), empty, sep);
        assert(empty + parts[0] =~= parts[0]);
        assert(Seq::<Seq<char>>::empty().push(parts[0]) =~= parts);
    } else {
        let front = joined(parts.drop_last(), seq![sep]);
        law_pieces_of_join(parts.drop_last(), sep);
        assert(!parts.last().contains(sep)) by {
            assert(!parts[parts.len() - 1].contains(sep));
        }
        let middle = front.push(sep);
        assert(middle.drop_last() =~= front);
        assert(pieces(middle, sep) == parts.drop_last().push(empty));
        lemma_pieces_of_tail(middle, parts.last(), parts.drop_last(), empty, sep);
        assert(middle + parts.last() =~= joined(parts, seq![sep]));
        assert(empty + parts.last() =~= parts.last());
        assert(parts.drop_last().push(parts.last()) =~= parts);
    }
}

/// Text without separator behind `s` only grows the last piece.
proof fn lemma_pieces_of_tail(
    s: Seq<char>,
    tail: Seq<char>,
    front: Seq<Seq<char>>,
    last: Seq<char>,
    sep: char,
)
    requires
        !tail.contains(sep),
        pieces(s, sep) == front.push(last),
    ensures
        pieces(s + tail, sep) == front.push(last + tail),
    decreases tail.len(),
{
    if tail.len() == 0 {
        assert(s + tail =~= s);
        assert(last + tail =~= last);
    } else {
        let shorter = tail.drop_last();
        assert(tail[tail.len() - 1] == tail.last());
        assert(!shorter.contains(sep)) by {
            if shorter.contains(sep) {
                let k = choose|k: int| 0 <= k < shorter.len() && shorter[k] == sep;
                assert(tail[k] == sep);
            }
        }
        lemma_pieces_of_tail(s, shorter, front, last, sep);
        assert((s + tail).drop_last() =~= s + shorter);
        assert(front.push(last + shorter).drop_last() =~= front);
        assert((last + shorter).push(tail.last()) =~= last + tail);
    }
}

/// A text, a separator and another text have the pieces of the two texts.
pub proof fn lemma_pieces_concat(a: Seq<char>, b: Seq<char>, sep: char)
    ensures
        pieces(a.push(sep) + b, sep) == pieces(a, sep) + pieces(b, sep),
    decreases b.len(),
{
    law_join_of_pieces(b, sep);
    if b.len() == 0 {
        assert(a.push(sep) + b =~= a.push(sep));
        assert(a.push(sep).drop_last() =~= a);
        assert(pieces(a, sep).push(Seq::empty()) =~= pieces(a, sep) + pieces(b, sep));
    } else {
        let front = b.drop_last();
        lemma_pieces_concat(a, front, sep);
        law_join_of_pieces(front, sep);
        assert((a.push(sep) + b).drop_last() =~= a.push(sep) + front);
        let before = pieces(a, sep) + pieces(front, sep);
        assert(before.last() == pieces(front, sep).last());
        assert(before.drop_last() =~= pieces(a, sep) + pieces(front, sep).drop_last());
        assert(pieces(a.push(sep) + b, sep) =~= pieces(a, sep) + pieces(b, sep));
    }
}

/// Joined parts are the first `k` joined, the separator, and the others joined.
pub proof fn lemma_joined_split(parts: Seq<Seq<char>>, sep: Seq<char>, k: int)
    requires
        0 < k < parts.len(),
    ensures
        joined(parts, sep) == joined(parts.take(k), sep) + sep + joined(parts.skip(k), sep),
    decreases parts.len(),
{
    if k == parts.len() - 1 {
        assert(parts.take(k) =~= parts.drop_last());
        assert(parts.skip(k) =~= seq![parts.last()]);
    } else {
        lemma_joined_split(parts.drop_last(), sep, k);
        assert(parts.drop_last().take(k) =~= parts.take(k));
        assert(parts.skip(k).drop_last() =~= parts.drop_last().skip(k));
        assert(parts.skip(k).last() == parts.last());
        assert(joined(parts, sep) =~= joined(parts.take(k), sep) + sep + joined(
            parts.skip(k),
            sep,
        ));
    }
}

/// UTF-8 encodes the two halves of a text one after the other.
pub proof fn lemma_encode_concat(a: Seq<char>, b: Seq<char>)
    ensures
        encode_utf8(a + b) == encode_utf8(a) + encode_utf8(b),
    decreases a.len(),
{
    if a.len() == 0 {
        assert(a + b =~= b);
        assert(encode_utf8(a) + encode_utf8(b) =~= encode_utf8(b));
    } else {
        assert((a + b).drop_first() =~= a.drop_first() + b);
        lemma_encode_concat(a.drop_first(), b);
        assert(encode_utf8(a + b) =~= encode_utf8(a) + encode_utf8(b));
    }
}

/// The place between two halves of a text is a character boundary of its encoding.
pub proof fn lemma_boundary_between(a: Seq<char>, b: Seq<char>)
    ensures
        is_char_boundary(encode_utf8(a + b), encode_utf8(a).len() as int),
    decreases a.len(),
{
    encode_utf8_valid_utf8(a + b);
    if a.len() > 0 {
        assert((a + b).drop_first() =~= a.drop_first() + b);
        lemma_boundary_between(a.drop_first(), b);
        lemma_encode_concat(a, b);
        encode_utf8_first_scalar(a + b);
        assert(pop_first_scalar(encode_utf8(a + b)) =~= encode_utf8(a.drop_first() + b));
    }
}

} // verus!
