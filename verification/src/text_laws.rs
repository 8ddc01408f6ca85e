//! What the words for texts and numerals mean, character by character.

use crate::numeral::{
    all_digits, decimal, digit_value, is_digit, lemma_decimal_digits, lemma_value_of_decimal,
    parsed, unsigned_part, value,
};
use crate::text::{
    begins_with, contains_text, find_char, first_line, is_space, lemma_find_char_unique, lines,
    occurs_at, strip_cr, trim_end, trim_start, trimmed,
};
use vstd::prelude::*;

verus! {

// ── Stretches of a text ──────────────────────────────────────────────────────

/// From position `at` on, `hay` has the characters of `needle`, one by one.
pub open spec fn spells(hay: Seq<char>, needle: Seq<char>, at: int) -> bool {
    &&& 0 <= at
    &&& at + needle.len() <= hay.len()
    &&& forall|k: int| 0 <= k < needle.len() ==> hay[at + k] == #[trigger] needle[k]
}

/// A text stands at a place just where each of its characters does.
pub proof fn law_occurs_at(hay: Seq<char>, needle: Seq<char>, at: int)
    ensures
        occurs_at(hay, needle, at) <==> spells(hay, needle, at),
{
    if occurs_at(hay, needle, at) {
        let part = hay.subrange(at, at + needle.len());
        assert forall|k: int| 0 <= k < needle.len() implies hay[at + k] == #[trigger] needle[k] by {
            assert(part[k] == hay[at + k]);
        }
    }
    if spells(hay, needle, at) {
        let part = hay.subrange(at, at + needle.len());
        assert forall|k: int| 0 <= k < needle.len() implies #[trigger] part[k] == needle[k] by {
            assert(hay[at + k] == needle[k]);
        }
        assert(part =~= needle);
    }
}

/// A text holds another just where it spells it from some place on, whatever characters
/// either has.
pub proof fn law_contains_text(hay: Seq<char>, needle: Seq<char>)
    ensures
        contains_text(hay, needle) <==> exists|at: int| #[trigger] spells(hay, needle, at),
{
    if contains_text(hay, needle) {
        let at = choose|at: int| occurs_at(hay, needle, at);
        law_occurs_at(hay, needle, at);
    }
    if exists|at: int| #[trigger] spells(hay, needle, at) {
        let at = choose|at: int| #[trigger] spells(hay, needle, at);
        law_occurs_at(hay, needle, at);
    }
}

/// A text begins with another just where it spells it from the start.
pub proof fn law_begins_with(s: Seq<char>, prefix: Seq<char>)
    ensures
        begins_with(s, prefix) <==> spells(s, prefix, 0),
{
    law_occurs_at(s, prefix, 0);
}

// ── Lines ────────────────────────────────────────────────────────────────────

/// A text without a newline is one line, or none where it is empty.
pub proof fn law_one_line(a: Seq<char>)
    requires
        !a.contains('\n'),
    ensures
        lines(a) == (if a.len() == 0 {
            Seq::<Seq<char>>::empty()
        } else {
            seq![a]
        }),
        first_line(a) == a,
{
    assert forall|i: int| 0 <= i < a.len() implies a[i] != '\n' by {
        assert(a.contains(a[i]));
    }
    lemma_find_char_unique(a, '\n', a.len() as int);
    if a.len() == 0 {
        assert(a =~= Seq::<char>::empty());
    }
}

/// The first newline ends the first line; what follows it has the other lines. A carriage
/// return before the newline belongs to neither.
pub proof fn law_first_line_ends(a: Seq<char>, rest: Seq<char>)
    requires
        !a.contains('\n'),
    ensures
        a.len() > 0 && a[a.len() - 1] == '\r' ==> {
            &&& lines(a + seq!['\n'] + rest) == seq![a.take(a.len() - 1)] + lines(rest)
            &&& first_line(a + seq!['\n'] + rest) == a.take(a.len() - 1)
        },
        !(a.len() > 0 && a[a.len() - 1] == '\r') ==> {
            &&& lines(a + seq!['\n'] + rest) == seq![a] + lines(rest)
            &&& first_line(a + seq!['\n'] + rest) == a
        },
{
    let s = a + seq!['\n'] + rest;
    let n = a.len() as int;
    assert forall|i: int| 0 <= i < n implies s[i] != '\n' by {
        assert(a.contains(a[i]));
        assert(s[i] == a[i]);
    }
    assert(s[n] == '\n');
    lemma_find_char_unique(s, '\n', n);
    assert(s.take(n) =~= a);
    assert(s.skip(n + 1) =~= rest);
    if n > 0 && a[n - 1] == '\r' {
        assert(a.drop_last() =~= a.take(n - 1));
    }
    assert(lines(s) == seq![strip_cr(a)] + lines(rest));
    assert(lines(s)[0] == strip_cr(a));
}

// ── White space ──────────────────────────────────────────────────────────────

/// The characters that count as white space.
pub proof fn law_space(c: char)
    ensures
        is_space(c) <==> c == ' ' || '\t' <= c <= '\r' || c == '\u{85}' || c == '\u{a0}' || c == '\u{1680}' || '\u{2000}'
            <= c <= '\u{200a}' || c == '\u{2028}' || c == '\u{2029}' || c == '\u{202f}' || c == '\u{205f}' || c
            == '\u{3000}',
{
}

/// A text without the white space around it: what is cut off is white space, and what is
/// left neither begins nor ends with any.
pub proof fn law_trimmed(s: Seq<char>)
    ensures
        exists|from: int, to: int|
            #![trigger s.subrange(from, to)]
            {
                &&& 0 <= from <= to <= s.len()
                &&& trimmed(s) == s.subrange(from, to)
                &&& forall|i: int| 0 <= i < from || to <= i < s.len() ==> is_space(#[trigger] s[i])
                &&& from < to ==> !is_space(s[from]) && !is_space(s[to - 1])
            },
{
    let from = lemma_trim_start(s);
    let t = trim_start(s);
    let cut = lemma_trim_end(t);
    let to = from + cut;
    assert(trimmed(s) =~= s.subrange(from, to));
    assert forall|i: int| 0 <= i < from || to <= i < s.len() implies is_space(#[trigger] s[i]) by {
        if i >= to {
            assert(t[i - from] == s[i]);
        }
    }
    if from < to {
        assert(t[0] == s[from]);
        assert(t[cut - 1] == s[to - 1]);
    }
}

/// What is cut off at the start.
proof fn lemma_trim_start(s: Seq<char>) -> (from: int)
    ensures
        0 <= from <= s.len(),
        trim_start(s) == s.skip(from),
        forall|i: int| 0 <= i < from ==> is_space(#[trigger] s[i]),
        from < s.len() ==> !is_space(s[from]),
    decreases s.len(),
{
    if s.len() > 0 && is_space(s[0]) {
        let k = lemma_trim_start(s.skip(1));
        assert(s.skip(1).skip(k) =~= s.skip(k + 1));
        assert forall|i: int| 0 <= i < k + 1 implies is_space(#[trigger] s[i]) by {
            if i > 0 {
                assert(s.skip(1)[i - 1] == s[i]);
            }
        }
        k + 1
    } else {
        assert(s.skip(0) =~= s);
        0
    }
}

/// What is left of the end.
proof fn lemma_trim_end(s: Seq<char>) -> (to: int)
    ensures
        0 <= to <= s.len(),
        trim_end(s) == s.take(to),
        forall|i: int| to <= i < s.len() ==> is_space(#[trigger] s[i]),
        to > 0 ==> !is_space(s[to - 1]),
    decreases s.len(),
{
    if s.len() > 0 && is_space(s.last()) {
        let r = s.drop_last();
        let k = lemma_trim_end(r);
        assert(r.take(k) =~= s.take(k));
        assert forall|i: int| k <= i < s.len() implies is_space(#[trigger] s[i]) by {
            if i < r.len() {
                assert(r[i] == s[i]);
            }
        }
        k
    } else {
        assert(s.take(s.len() as int) =~= s);
        s.len() as int
    }
}

// ── Numerals ─────────────────────────────────────────────────────────────────

/// The digits are the ten characters from `0` to `9`.
pub proof fn law_digits(c: char)
    ensures
        is_digit(c) <==> c == '0' || c == '1' || c == '2' || c == '3' || c == '4' || c == '5' || c == '6'
            || c == '7' || c == '8' || c == '9',
        is_digit(c) ==> digit_value(c) == c as int - 48,
{
}

/// A digit more makes ten of each before it.
pub proof fn law_value_of_one_more(s: Seq<char>, c: char)
    ensures
        value(Seq::<char>::empty()) == 0,
        is_digit(c) ==> value(s.push(c)) == 10 * value(s) + (c as int - 48),
{
    assert(s.push(c).drop_last() =~= s);
}

/// A numeral is made of digits, names its number, and has no zero to begin with but for
/// the number zero itself.
pub proof fn law_numeral(n: nat)
    ensures
        decimal(n).len() > 0,
        forall|i: int| 0 <= i < decimal(n).len() ==> '0' <= #[trigger] decimal(n)[i] <= '9',
        value(decimal(n)) == n,
        decimal(n)[0] == '0' ==> n == 0,
        n == 0 ==> decimal(n) == seq!['0'],
{
    lemma_decimal_digits(n);
    lemma_value_of_decimal(n);
    assert forall|i: int| 0 <= i < decimal(n).len() implies '0' <= #[trigger] decimal(n)[i] <= '9' by {
        assert(is_digit(decimal(n)[i]));
    }
}

/// A number is read from one or more digits, perhaps behind a plus sign, as far as the
/// number is within the limit, and from nothing else.
pub proof fn law_parsed(s: Seq<char>, limit: nat)
    ensures
        s.len() > 0 && s[0] != '+' ==> (parsed(s, limit) is Some <==> (forall|i: int|
            0 <= i < s.len() ==> '0' <= #[trigger] s[i] <= '9') && value(s) <= limit),
        s.len() > 0 && s[0] != '+' && parsed(s, limit) is Some ==> parsed(s, limit) == Some(value(s)),
        s.len() > 0 && s[0] == '+' ==> (parsed(s, limit) is Some <==> s.len() > 1 && (forall|i: int|
            1 <= i < s.len() ==> '0' <= #[trigger] s[i] <= '9') && value(s.skip(1)) <= limit),
        s.len() > 0 && s[0] == '+' && parsed(s, limit) is Some ==> parsed(s, limit) == Some(value(s.skip(1))),
        s.len() == 0 ==> parsed(s, limit) is None,
{
    let d = unsigned_part(s);
    if s.len() > 0 && s[0] == '+' {
        assert(d == s.skip(1));
        if all_digits(d) {
            assert forall|i: int| 1 <= i < s.len() implies '0' <= #[trigger] s[i] <= '9' by {
                assert(is_digit(d[i - 1]));
            }
        }
        if forall|i: int| 1 <= i < s.len() ==> '0' <= #[trigger] s[i] <= '9' {
            assert forall|i: int| 0 <= i < d.len() implies is_digit(#[trigger] d[i]) by {
                assert(s[i + 1] == d[i]);
            }
        }
    } else if s.len() > 0 {
        assert(d == s);
        if all_digits(s) {
            assert forall|i: int| 0 <= i < s.len() implies '0' <= #[trigger] s[i] <= '9' by {
                assert(is_digit(s[i]));
            }
        }
        if forall|i: int| 0 <= i < s.len() ==> '0' <= #[trigger] s[i] <= '9' {
            assert forall|i: int| 0 <= i < s.len() implies is_digit(#[trigger] s[i]) by {}
        }
    }
}

/// The first place of a character has none before it.
pub proof fn law_find_char(a: Seq<char>, c: char, rest: Seq<char>)
    requires
        !a.contains(c),
    ensures
        find_char(a, c) == a.len(),
        find_char(a + seq![c] + rest, c) == a.len(),
{
    let s = a + seq![c] + rest;
    assert forall|i: int| 0 <= i < a.len() implies a[i] != c && s[i] != c by {
        assert(a.contains(a[i]));
        assert(s[i] == a[i]);
    }
    assert(s[a.len() as int] == c);
    lemma_find_char_unique(a, c, a.len() as int);
    lemma_find_char_unique(s, c, a.len() as int);
}

} // verus!
