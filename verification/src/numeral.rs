//! Decimal numerals: writing them, reading them, counting on from them.

use crate::lex::{lemma_lex_extend, lemma_lex_prefix, lex_lt};
use vstd::prelude::*;

verus! {

/// An ASCII decimal digit.
pub open spec fn is_digit(c: char) -> bool {
    '0' <= c && c <= '9'
}

/// Every character is a digit.
pub open spec fn all_digits(s: Seq<char>) -> bool {
    forall|i: int| 0 <= i < s.len() ==> is_digit(#[trigger] s[i])
}

/// What a digit counts for.
pub open spec fn digit_value(c: char) -> nat {
    (c as int - '0' as int) as nat
}

/// The digit that counts for `d`.
pub open spec fn digit_char(d: nat) -> char {
    ('0' as int + d) as char
}

/// The number that a run of digits names; leading zeros do not count.
pub open spec fn value(s: Seq<char>) -> nat
    decreases s.len(),
{
    if s.len() == 0 {
        0
    } else {
        10 * value(s.drop_last()) + digit_value(s.last())
    }
}

/// The shortest run of digits that names `n`.
pub open spec fn decimal(n: nat) -> Seq<char>
    decreases n,
{
    if n < 10 {
        seq![digit_char(n)]
    } else {
        decimal(n / 10).push(digit_char(n % 10))
    }
}

/// The order of characters by code point.
pub open spec fn char_lt() -> spec_fn(char, char) -> bool {
    |a: char, b: char| a < b
}

/// Whether `c` is an ASCII decimal digit.
pub fn digit(c: char) -> (r: bool)
    ensures
        r == is_digit(c),
{
    '0' <= c && c <= '9'
}

/// What a digit counts for.
fn digit_number(c: char) -> (d: u8)
    requires
        is_digit(c),
    ensures
        d as nat == digit_value(c),
        d < 10,
{
    (c as u8) - 48u8
}

/// The digit that counts for `d`.
fn number_digit(d: u8) -> (c: char)
    requires
        d < 10,
    ensures
        c == digit_char(d as nat),
        is_digit(c),
{
    (48u8 + d) as char
}

/// A numeral is made of digits, at least one, and begins with `0` only for zero.
pub proof fn lemma_decimal_digits(n: nat)
    ensures
        decimal(n).len() > 0,
        all_digits(decimal(n)),
        n > 0 ==> decimal(n)[0] != '0',
    decreases n,
{
    if n >= 10 {
        lemma_decimal_digits(n / 10);
    }
}

/// Reading a numeral gives back the number it was written for.
pub proof fn lemma_value_of_decimal(n: nat)
    ensures
        value(decimal(n)) == n,
    decreases n,
{
    reveal_with_fuel(value, 2);
    if n >= 10 {
        lemma_value_of_decimal(n / 10);
        assert(decimal(n).drop_last() =~= decimal(n / 10));
    } else {
        assert(decimal(n).drop_last() =~= Seq::<char>::empty());
    }
}

/// Writes `n` as a decimal numeral.
pub fn decimal_of(n: u64) -> (v: Vec<char>)
    ensures
        v@ == decimal(n as nat),
    decreases n,
{
    if n < 10 {
        let mut v: Vec<char> = Vec::new();
        v.push(number_digit(n as u8));
        assert(v@ =~= decimal(n as nat));
        v
    } else {
        let mut v = decimal_of(n / 10);
        v.push(number_digit((n % 10) as u8));
        v
    }
}

/// `decimal` of a number with one more digit.
proof fn lemma_decimal_step(p: nat, d: nat)
    requires
        d < 10,
    ensures
        p > 0 ==> decimal(10 * p + d) == decimal(p).push(digit_char(d)),
        p == 0 ==> decimal(10 * p + d) == seq![digit_char(d)],
{
    if p > 0 {
        assert((10 * p + d) / 10 == p && (10 * p + d) % 10 == d) by (nonlinear_arith)
            requires
                d < 10,
        ;
    }
}

/// The numeral for the number that the first `k` digits of `v` name.
fn plain_numeral(v: &Vec<char>, k: usize) -> (r: Vec<char>)
    requires
        k <= v@.len(),
        all_digits(v@),
    ensures
        r@ == decimal(value(v@.take(k as int))),
{
    let mut r: Vec<char> = Vec::new();
    r.push('0');
    assert(r@ =~= decimal(0));
    assert(v@.take(0) =~= Seq::<char>::empty());
    let mut i: usize = 0;
    while i < k
        invariant
            i <= k <= v@.len(),
            all_digits(v@),
            r@ == decimal(value(v@.take(i as int))),
        decreases k - i,
    {
        let ghost p = value(v@.take(i as int));
        proof {
            assert(v@.take(i + 1).drop_last() =~= v@.take(i as int));
            assert(v@.take(i + 1).last() == v@[i as int]);
            lemma_decimal_digits(p);
            lemma_decimal_step(p, digit_value(v@[i as int]));
        }
        if r.len() == 1 && r[0] == '0' {
            proof {
                if p > 0 {
                    assert(decimal(p)[0] != '0');
                }
            }
            r.pop();
            r.push(v[i]);
            assert(r@ =~= seq![v@[i as int]]);
        } else {
            proof {
                if p == 0 {
                    assert(decimal(0) =~= seq!['0']);
                }
            }
            r.push(v[i]);
        }
        assert(digit_char(digit_value(v@[i as int])) == v@[i as int]);
        i = i + 1;
    }
    r
}

/// The numeral for one more than the number that the first `k` digits of `v` name.
fn next_numeral_of(v: &Vec<char>, k: usize) -> (r: Vec<char>)
    requires
        k <= v@.len(),
        all_digits(v@),
    ensures
        r@ == decimal(value(v@.take(k as int)) + 1),
    decreases k,
{
    if k == 0 {
        let mut r: Vec<char> = Vec::new();
        r.push('1');
        assert(r@ =~= decimal(1));
        return r;
    }
    let c = v[k - 1];
    proof {
        assert(v@.take(k as int).drop_last() =~= v@.take(k - 1));
        assert(v@.take(k as int).last() == c);
    }
    let ghost p = value(v@.take(k - 1));
    if c == '9' {
        let mut r = next_numeral_of(v, k - 1);
        r.push('0');
        proof {
            lemma_decimal_step(p + 1, 0);
        }
        r
    } else {
        let d = digit_number(c);
        let mut r = plain_numeral(v, k - 1);
        proof {
            lemma_decimal_digits(p);
            lemma_decimal_step(p, (d + 1) as nat);
        }
        if r.len() == 1 && r[0] == '0' {
            proof {
                if p > 0 {
                    assert(decimal(p)[0] != '0');
                }
            }
            r.pop();
            r.push(number_digit(d + 1));
            assert(r@ =~= seq![digit_char((d + 1) as nat)]);
        } else {
            proof {
                if p == 0 {
                    assert(decimal(0) =~= seq!['0']);
                }
            }
            r.push(number_digit(d + 1));
        }
        r
    }
}

/// The numeral for one more than the number that the digits of `v` name.
pub fn next_numeral(v: &Vec<char>) -> (r: Vec<char>)
    requires
        all_digits(v@),
    ensures
        r@ == decimal(value(v@) + 1),
{
    assert(v@.take(v@.len() as int) =~= v@);
    next_numeral_of(v, v.len())
}

/// The numeral for the number that the digits of `v` name.
pub fn without_leading_zeros(v: &Vec<char>) -> (r: Vec<char>)
    requires
        all_digits(v@),
    ensures
        r@ == decimal(value(v@)),
{
    assert(v@.take(v@.len() as int) =~= v@);
    plain_numeral(v, v.len())
}

/// The smaller of two numbers has the shorter numeral, or one of the same length that
/// comes first in the order of text.
pub proof fn lemma_decimal_order(m: nat, n: nat)
    requires
        m < n,
    ensures
        decimal(m).len() <= decimal(n).len(),
        decimal(m).len() == decimal(n).len() ==> lex_lt(decimal(m), decimal(n), char_lt()),
    decreases n,
{
    if n < 10 {
        assert(decimal(m)[0] < decimal(n)[0]);
    } else if m < 10 {
        lemma_decimal_digits(n / 10);
    } else {
        let x = seq![digit_char(m % 10)];
        let y = seq![digit_char(n % 10)];
        assert(decimal(m) =~= decimal(m / 10) + x);
        assert(decimal(n) =~= decimal(n / 10) + y);
        if m / 10 == n / 10 {
            lemma_lex_prefix(decimal(m / 10), x, y, char_lt());
            assert(x[0] < y[0]);
        } else {
            lemma_decimal_order(m / 10, n / 10);
            if decimal(m).len() == decimal(n).len() {
                lemma_lex_extend(decimal(m / 10), decimal(n / 10), x, y, char_lt());
            }
        }
    }
}

// ── Reading ──────────────────────────────────────────────────────────────────

/// The digits of a numeral, behind an optional plus sign.
pub open spec fn unsigned_part(s: Seq<char>) -> Seq<char> {
    if s.len() > 0 && s[0] == '+' {
        s.skip(1)
    } else {
        s
    }
}

/// The number that `s` names, where it is a numeral for one of at most `limit`.
pub open spec fn parsed(s: Seq<char>, limit: nat) -> Option<nat> {
    let digits = unsigned_part(s);
    if digits.len() > 0 && all_digits(digits) && value(digits) <= limit {
        Some(value(digits))
    } else {
        None
    }
}

/// More digits name no smaller a number.
proof fn lemma_value_grows(s: Seq<char>, k: int)
    requires
        0 <= k <= s.len(),
    ensures
        value(s.take(k)) <= value(s),
    decreases s.len(),
{
    if k == s.len() {
        assert(s.take(k) =~= s);
    } else {
        lemma_value_grows(s.drop_last(), k);
        assert(s.drop_last().take(k) =~= s.take(k));
    }
}

/// Reads a decimal numeral of at most `limit`, with an optional plus sign.
pub fn parse_number(v: &Vec<char>, limit: u64) -> (r: Option<u64>)
    ensures
        match r {
            Some(n) => parsed(v@, limit as nat) == Some(n as nat),
            None => parsed(v@, limit as nat) is None,
        },
{
    let start: usize = if v.len() > 0 && v[0] == '+' {
        1
    } else {
        0
    };
    let ghost digits = unsigned_part(v@);
    assert(digits =~= v@.skip(start as int));
    if start == v.len() {
        return None;
    }
    let mut n: u64 = 0;
    let mut i: usize = start;
    assert(digits.take(0) =~= Seq::<char>::empty());
    while i < v.len()
        invariant
            start <= i <= v@.len(),
            start < v@.len(),
            digits == v@.skip(start as int),
            digits == unsigned_part(v@),
            forall|k: int| 0 <= k < i - start ==> is_digit(#[trigger] digits[k]),
            n as nat == value(digits.take(i - start)),
            n <= limit,
        decreases v@.len() - i,
    {
        assert(digits[i - start] == v@[i as int]);
        if !digit(v[i]) {
            return None;
        }
        let d = digit_number(v[i]);
        proof {
            assert(digits.take(i - start + 1).drop_last() =~= digits.take(i - start));
            assert(digits.take(i - start + 1).last() == v@[i as int]);
            lemma_value_grows(digits, i - start + 1);
        }
        if d as u64 > limit || n > (limit - d as u64) / 10 {
            return None;
        }
        n = 10 * n + d as u64;
        i = i + 1;
    }
    assert(digits.take(v@.len() - start) =~= digits);
    Some(n)
}

} // verus!
