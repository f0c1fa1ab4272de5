//! What the operations on texts come to.

use crate::text;
use crate::text::Trim;
use vstd::prelude::*;

verus! {

/// The characters that a trim takes off.
pub open spec fn trimmed_off(trim: Trim, c: char) -> bool {
    match trim {
        Trim::WhiteSpace => text::is_white_space(c),
        Trim::Slash => c == '/',
    }
}

/// `s[from..to]` is what a trim leaves: everything outside is taken off, and what is left neither
/// starts nor ends with something to take off.
pub open spec fn left_by_trim(s: Seq<char>, trim: Trim, from: int, to: int) -> bool {
    &&& 0 <= from <= to <= s.len()
    &&& forall|k: int| 0 <= k < from ==> trimmed_off(trim, #[trigger] s[k])
    &&& forall|k: int| to <= k < s.len() ==> trimmed_off(trim, #[trigger] s[k])
    &&& from < to ==> !trimmed_off(trim, s[from]) && !trimmed_off(trim, s[to - 1])
}

/// A trim takes everything off both ends that it can take off, and nothing else.
pub proof fn law_trim_takes_off_the_ends(s: Seq<char>, trim: Trim)
    ensures
        exists|from: int, to: int| #[trigger]
            left_by_trim(s, trim, from, to) && text::trimmed(s, trim) == s.subrange(from, to),
{
    let from = lemma_start_trimmed(s, trim);
    let rest = s.skip(from);
    let to = from + lemma_end_trimmed(rest, trim);
    assert(rest.take(to - from) =~= s.subrange(from, to));
    assert forall|k: int| to <= k < s.len() implies trimmed_off(trim, #[trigger] s[k]) by {
        assert(trimmed_off(trim, rest[k - from]));
    }
    if from < to {
        assert(rest[0] == s[from]);
        assert(rest[to - from - 1] == s[to - 1]);
    }
    assert(left_by_trim(s, trim, from, to));
}

proof fn lemma_start_trimmed(s: Seq<char>, trim: Trim) -> (from: int)
    ensures
        0 <= from <= s.len(),
        text::start_trimmed(s, trim) == s.skip(from),
        forall|k: int| 0 <= k < from ==> trimmed_off(trim, #[trigger] s[k]),
        from < s.len() ==> !trimmed_off(trim, s[from]),
    decreases s.len(),
{
    if s.len() > 0 && trim.drops(s[0]) {
        let n = lemma_start_trimmed(s.drop_first(), trim);
        assert(s.drop_first().skip(n) =~= s.skip(n + 1));
        assert forall|k: int| 0 <= k < n + 1 implies trimmed_off(trim, #[trigger] s[k]) by {
            if k > 0 {
                assert(trimmed_off(trim, s.drop_first()[k - 1]));
            }
        }
        n + 1
    } else {
        assert(s.skip(0) =~= s);
        0
    }
}

proof fn lemma_end_trimmed(s: Seq<char>, trim: Trim) -> (to: int)
    ensures
        0 <= to <= s.len(),
        text::end_trimmed(s, trim) == s.take(to),
        forall|k: int| to <= k < s.len() ==> trimmed_off(trim, #[trigger] s[k]),
        to > 0 ==> !trimmed_off(trim, s[to - 1]),
    decreases s.len(),
{
    if s.len() > 0 && trim.drops(s.last()) {
        let n = lemma_end_trimmed(s.drop_last(), trim);
        assert(s.drop_last().take(n) =~= s.take(n));
        assert forall|k: int| n <= k < s.len() implies trimmed_off(trim, #[trigger] s[k]) by {
            if k < s.len() - 1 {
                assert(trimmed_off(trim, s.drop_last()[k]));
            }
        }
        n
    } else {
        assert(s.take(s.len() as int) =~= s);
        s.len() as int
    }
}

/// A text is trimmed in one way only: whatever part of it has the ends taken off is what is left,
/// unless nothing is left.
pub proof fn law_trim_leaves_the_middle(s: Seq<char>, trim: Trim, from: int, to: int)
    requires
        left_by_trim(s, trim, from, to),
    ensures
        text::trimmed(s, trim) == s.subrange(from, to),
{
    law_trim_takes_off_the_ends(s, trim);
    let (a, b): (int, int) = choose|a: int, b: int| #[trigger]
        left_by_trim(s, trim, a, b) && text::trimmed(s, trim) == s.subrange(a, b);
    if from < to {
        assert(!(from < a));
        assert(!(b <= to - 1));
        if a < from {
            assert(trimmed_off(trim, s[a]));
        }
        if to < b {
            assert(trimmed_off(trim, s[b - 1]));
        }
    } else {
        if a < b {
            if a < from {
                assert(trimmed_off(trim, s[a]));
            } else {
                assert(trimmed_off(trim, s[a]));
            }
        }
        assert(s.subrange(from, to) =~= s.subrange(a, b));
    }
}

/// A number in decimal consists of digits, starts with no zero unless it is zero, and stands for
/// the number.
pub proof fn law_decimal_stands_for_its_number(n: nat)
    ensures
        text::decimal(n).len() > 0,
        forall|i: int| 0 <= i < text::decimal(n).len() ==> '0' <= #[trigger] text::decimal(n)[i]
            <= '9',
        n > 0 ==> text::decimal(n)[0] != '0',
        n == 0 ==> text::decimal(n) == seq!['0'],
        text::digits_value(text::decimal(n)) == n,
    decreases n,
{
    let s = text::decimal(n);
    if n < 10 {
        assert(s.drop_last() =~= Seq::empty());
        assert(text::digits_value(s.drop_last()) == 0);
    } else {
        law_decimal_stands_for_its_number(n / 10);
        let front = text::decimal(n / 10);
        assert(s.drop_last() =~= front);
        assert(s[0] == front[0]);
        assert forall|i: int| 0 <= i < s.len() implies '0' <= #[trigger] s[i] <= '9' by {
            if i < front.len() {
                assert('0' <= front[i] <= '9');
            }
        }
    }
}

/// Every further digit makes a number ten times as large and adds its own value.
pub proof fn law_digits_count_by_tens(s: Seq<char>, d: char)
    requires
        '0' <= d <= '9',
    ensures
        text::digits_value(Seq::empty()) == 0,
        text::digits_value(s.push(d)) == 10 * text::digits_value(s) + (d as int - 48),
{
    assert(s.push(d).drop_last() =~= s);
}

/// The text consists of decimal digits.
pub open spec fn only_digits(s: Seq<char>) -> bool {
    forall|i: int| 0 <= i < s.len() ==> '0' <= #[trigger] s[i] <= '9'
}

/// A number is read as what its digits stand for, with or without a plus sign in front, as long as
/// it fits in 64 bits.
pub proof fn law_digits_are_read(digits: Seq<char>)
    requires
        digits.len() > 0,
        only_digits(digits),
    ensures
        text::parsed_u64(digits) is Some <==> text::digits_value(digits) < 0x1_0000_0000_0000_0000,
        text::parsed_u64(digits) matches Some(n) ==> n == text::digits_value(digits),
        text::parsed_u64(seq!['+'] + digits) == text::parsed_u64(digits),
{
    let signed = seq!['+'] + digits;
    assert('0' <= digits[0] <= '9');
    assert(digits[0] != '+');
    assert(signed[0] == '+');
    assert(signed.skip(1) =~= digits);
}

/// Every number of 64 bits is read back from its decimal form.
pub proof fn law_decimal_is_read_back(n: u64)
    ensures
        text::parsed_u64(text::decimal(n as nat)) == Some(n),
{
    law_decimal_stands_for_its_number(n as nat);
    law_digits_are_read(text::decimal(n as nat));
}

/// What is not a number is not read: an empty text, a mere plus sign, or a text with anything but
/// digits behind an optional plus sign.
pub proof fn law_other_texts_are_not_read(s: Seq<char>)
    requires
        s.len() == 0 || s == seq!['+'] || exists|i: int|
            0 <= i < s.len() && !('0' <= #[trigger] s[i] <= '9') && (i > 0 || s[0] != '+'),
    ensures
        text::parsed_u64(s) is None,
{
    if s.len() > 0 && s != seq!['+'] {
        let i = choose|i: int|
            0 <= i < s.len() && !('0' <= #[trigger] s[i] <= '9') && (i > 0 || s[0] != '+');
        if s[0] == '+' {
            assert(s.skip(1)[i - 1] == s[i]);
        }
        assert(!text::all_digits(text::without_plus(s)));
    } else if s.len() > 0 {
        assert(s.skip(1).len() == 0);
    }
}

/// The first position of a character is one where it stands, and it stands nowhere before.
pub proof fn law_first_position_is_first(s: Seq<char>, c: char)
    ensures
        match text::first_position(s, c) {
            Some(i) => 0 <= i < s.len() && s[i] == c && forall|k: int|
                0 <= k < i ==> #[trigger] s[k] != c,
            None => forall|k: int| 0 <= k < s.len() ==> #[trigger] s[k] != c,
        },
    decreases s.len(),
{
    if s.len() > 0 {
        law_first_position_is_first(s.drop_last(), c);
        assert(forall|k: int| 0 <= k < s.len() - 1 ==> s.drop_last()[k] == #[trigger] s[k]);
    }
}

/// A text occurs in another one exactly when that one is something, the text, and something.
pub proof fn law_contained_text_has_a_place(before: Seq<char>, needle: Seq<char>, after: Seq<char>)
    ensures
        text::contains_text(before + needle + after, needle),
        text::contains_text(before, needle) ==> exists|i: int|
            0 <= i <= before.len() - needle.len() && #[trigger] before.skip(i).take(
                needle.len() as int,
            ) == needle,
{
    let hay = before + needle + after;
    let at = before.len() as int;
    assert(hay.subrange(at, at + needle.len()) =~= needle);
    if text::contains_text(before, needle) {
        let i = choose|i: int|
            0 <= i && i + needle.len() <= before.len() && #[trigger] before.subrange(
                i,
                i + needle.len(),
            ) == needle;
        assert(before.skip(i).take(needle.len() as int) =~= before.subrange(i, i + needle.len()));
    }
}

/// The first difference decides which of two texts comes first, and a text comes before its
/// continuations.
pub proof fn law_first_difference_decides(
    common: Seq<char>,
    x: char,
    y: char,
    a: Seq<char>,
    b: Seq<char>,
)
    requires
        x < y,
    ensures
        text::lex_less(common + seq![x] + a, common + seq![y] + b),
        !text::lex_less(common + seq![y] + b, common + seq![x] + a),
        text::lex_less(common, common + seq![x] + a),
        !text::lex_less(common + seq![x] + a, common),
        !text::lex_less(common, common),
    decreases common.len(),
{
    let (p, q) = (common + seq![x] + a, common + seq![y] + b);
    if common.len() > 0 {
        let rest = common.drop_first();
        law_first_difference_decides(rest, x, y, a, b);
        assert(p.drop_first() =~= rest + seq![x] + a);
        assert(q.drop_first() =~= rest + seq![y] + b);
    } else {
        assert(p[0] == x && q[0] == y);
    }
}

/// A text without the separator is one piece, and a separator ends a piece and starts the next.
pub proof fn law_separators_part_pieces(a: Seq<char>, b: Seq<char>, sep: char)
    ensures
        !a.contains(sep) ==> text::pieces(a, sep) == seq![a],
        text::pieces(a + seq![sep] + b, sep) == text::pieces(a, sep) + text::pieces(b, sep),
{
    text::lemma_pieces_concat(a, b, sep);
    assert(a + seq![sep] + b =~= a.push(sep) + b);
    if !a.contains(sep) {
        assert forall|i: int| 0 <= i < seq![a].len() implies !(#[trigger] seq![a][i]).contains(
            sep,
        ) by {}
        text::law_pieces_of_join(seq![a], sep);
    }
}

/// One more part is joined with the separator in front of it.
pub proof fn law_join_puts_separators_between(
    parts: Seq<Seq<char>>,
    part: Seq<char>,
    sep: Seq<char>,
)
    ensures
        text::joined(Seq::empty(), sep).len() == 0,
        text::joined(seq![part], sep) == part,
        parts.len() > 0 ==> text::joined(parts.push(part), sep) == text::joined(parts, sep) + sep
            + part,
{
    assert(parts.push(part).drop_last() =~= parts);
}

/// The texts of strings are theirs, in order.
pub proof fn law_texts_are_in_order(strings: Seq<String>, borrowed: Seq<&str>)
    ensures
        text::texts(strings).len() == strings.len(),
        forall|i: int|
            0 <= i < strings.len() ==> #[trigger] text::texts(strings)[i] == strings[i]@,
        text::strs(borrowed).len() == borrowed.len(),
        forall|i: int|
            0 <= i < borrowed.len() ==> #[trigger] text::strs(borrowed)[i] == borrowed[i]@,
{
}

} // verus!
