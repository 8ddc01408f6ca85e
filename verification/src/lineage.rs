//! How IDs relate to one another: parents, children, siblings.

use crate::id::{
    char_after, child_text, lemma_digits_start_unique, lemma_local_start, lemma_local_start_unique,
    lemma_run_start, lemma_run_start_unique, local_start, next_child_text, next_sibling_text,
    parent_text, run_start,
};
use crate::lex::{lemma_lex_irreflexive, lemma_lex_prefix, lex_lt, lexed};
use crate::numeral::{
    char_lt, decimal, is_digit, lemma_decimal_digits, lemma_value_of_decimal, value,
};
use crate::order::{
    id_lt, key, law_parent_comes_before_child, lemma_child_within_parent, lemma_key_one,
    lemma_key_split, lemma_run_len_unique, lemma_segment_lt_strict_total, lemma_segments_split,
    segment_lt, segment_of, segments, Segment,
};
use vstd::prelude::*;

verus! {

/// An ID that ends in a segment, and not in an empty section.
pub open spec fn has_segment(s: Seq<char>) -> bool {
    s.len() > 0 && s.last() != '/'
}

/// All characters are digits, or all are not, and none opens a section.
pub open spec fn one_kind(t: Seq<char>, digits: bool) -> bool {
    forall|i: int| 0 <= i < t.len() ==> is_digit(#[trigger] t[i]) == digits && t[i] != '/'
}

/// Where the last segment of an ID begins.
pub open spec fn last_start(s: Seq<char>) -> int {
    local_start(s) + run_start(s.skip(local_start(s)))
}

/// The last segment of an ID is of one kind, and stands behind a section mark or a
/// segment of the other kind.
pub proof fn lemma_last_segment(s: Seq<char>)
    requires
        has_segment(s),
    ensures
        local_start(s) <= last_start(s) < s.len(),
        0 <= local_start(s),
        one_kind(s.skip(last_start(s)), is_digit(s.last())),
        last_start(s) > local_start(s) ==> is_digit(s[last_start(s) - 1]) != is_digit(s.last()),
{
    lemma_local_start(s);
    let k = local_start(s);
    assert(k < s.len());
    let local = s.skip(k);
    lemma_run_start(local);
    assert(local.last() == s.last());
    let l = last_start(s);
    let t = s.skip(l);
    assert forall|i: int| 0 <= i < t.len() implies is_digit(#[trigger] t[i]) == is_digit(s.last()) && t[i]
        != '/' by {
        assert(t[i] == local[l - k + i]);
        assert(t[i] == s[l + i]);
    }
    if l > k {
        assert(s[l - 1] == local[l - k - 1]);
    }
}

/// Where the last segment begins in an ID that ends in `t`, behind what `t` cannot be
/// joined with.
proof fn lemma_last_start(head: Seq<char>, t: Seq<char>, digits: bool)
    requires
        t.len() > 0,
        one_kind(t, digits),
        head.len() > 0 && head.last() != '/' ==> is_digit(head.last()) != digits,
    ensures
        local_start(head + t) == local_start(head),
        last_start(head + t) == head.len(),
{
    let s = head + t;
    let k = local_start(head);
    lemma_local_start(head);
    assert(k > 0 ==> s[k - 1] == head[k - 1]);
    assert forall|i: int| k <= i < s.len() implies s[i] != '/' by {
        if i < head.len() {
            assert(s[i] == head[i]);
        } else {
            assert(s[i] == t[i - head.len()]);
        }
    }
    lemma_local_start_unique(s, k);
    let local = s.skip(k);
    let r = head.len() - k;
    assert(local.last() == t[t.len() - 1]);
    assert forall|i: int| r <= i < local.len() implies is_digit(#[trigger] local[i]) == is_digit(local.last()) by {
        assert(local[i] == t[i - r]);
    }
    if r > 0 {
        assert(local[r - 1] == head[head.len() - 1]);
    }
    lemma_run_start_unique(local, r);
}

/// A segment of the other kind behind an ID makes a direct child of it, which comes after
/// it.
pub proof fn law_extending_makes_a_child(s: Seq<char>, t: Seq<char>)
    requires
        has_segment(s),
        t.len() > 0,
        one_kind(t, !is_digit(s.last())),
    ensures
        child_text(s + t, s),
        id_lt(s, s + t),
{
    lemma_last_start(s, t, !is_digit(s.last()));
    lemma_local_start(s);
    let u = s + t;
    assert(u.take(s.len() as int) =~= s);
    assert(local_start(s) < s.len());
    assert(u.len() > s.len());
    law_parent_comes_before_child(u, s);
}

/// The first note of a section is a direct child of the note that the section is below,
/// and comes after it.
pub proof fn law_section_opens_below(s: Seq<char>, t: Seq<char>, digits: bool)
    requires
        t.len() > 0,
        one_kind(t, digits),
    ensures
        child_text(s + seq!['/'] + t, s),
        id_lt(s, s + seq!['/'] + t),
{
    let head = s.push('/');
    assert(head.last() == '/');
    lemma_last_start(head, t, digits);
    lemma_local_start_unique(head, head.len() as int);
    let u = s + seq!['/'] + t;
    assert(u =~= head + t);
    assert(u.take(s.len() as int) =~= s);
    law_parent_comes_before_child(u, s);
}

/// A parent's text begins its children's, and is shorter; only a root is its own parent.
pub proof fn law_parent_is_a_prefix(s: Seq<char>)
    ensures
        parent_text(s) == s || (parent_text(s).len() < s.len() && s.take(parent_text(s).len() as int)
            == parent_text(s)),
{
    if parent_text(s) != s {
        lemma_child_within_parent(s, parent_text(s));
        lemma_local_start(s);
        let k = local_start(s);
        if s.skip(k).len() > 0 {
            lemma_run_start(s.skip(k));
        }
        assert(s.take(parent_text(s).len() as int) =~= parent_text(s));
    }
}

/// The segments of a run of one kind.
pub proof fn lemma_segments_one(t: Seq<char>, digits: bool)
    requires
        t.len() > 0,
        one_kind(t, digits),
    ensures
        segments(t) == seq![segment_of(t)],
{
    assert forall|i: int| 0 <= i < t.len() implies is_digit(#[trigger] t[i]) == is_digit(t[0]) by {}
    lemma_run_len_unique(t, t.len() as int);
    assert(t.take(t.len() as int) =~= t);
    assert(t.skip(t.len() as int) =~= Seq::<char>::empty());
    assert(segments(t.skip(t.len() as int)) =~= Seq::<Segment>::empty());
    assert(segments(t) =~= seq![segment_of(t)]);
}

/// The segments of a part that ends in the run `t`.
pub proof fn lemma_segments_end(x: Seq<char>, t: Seq<char>, digits: bool)
    requires
        t.len() > 0,
        one_kind(t, digits),
        x.len() > 0 ==> is_digit(x.last()) != digits,
    ensures
        segments(x + t) == segments(x).push(segment_of(t)),
{
    lemma_segments_one(t, digits);
    if x.len() == 0 {
        assert(x + t =~= t);
        assert(segments(x) =~= Seq::<Segment>::empty());
        assert(segments(x + t) =~= segments(x).push(segment_of(t)));
    } else {
        assert(is_digit(t[0]) == digits);
        lemma_segments_split(x, t);
        assert(segments(x + t) =~= segments(x).push(segment_of(t)));
    }
}

/// Two IDs that differ in their last segment alone have the same parent, or both are
/// roots.
proof fn lemma_same_parent(head: Seq<char>, a: Seq<char>, b: Seq<char>, digits: bool)
    requires
        a.len() > 0,
        b.len() > 0,
        one_kind(a, digits),
        one_kind(b, digits),
        head.len() > 0 && head.last() != '/' ==> is_digit(head.last()) != digits,
    ensures
        head.len() > 0 ==> parent_text(head + a) == parent_text(head + b),
        head.len() > 0 ==> parent_text(head + a) != head + a && parent_text(head + b) != head + b,
        head.len() == 0 ==> parent_text(head + a) == head + a && parent_text(head + b) == head + b,
{
    lemma_last_start(head, a, digits);
    lemma_last_start(head, b, digits);
    lemma_local_start(head);
    let k = local_start(head);
    let s = head + a;
    let u = head + b;
    let n = head.len() as int;
    assert(s.take(n) =~= head);
    assert(u.take(n) =~= head);
    if k > 0 {
        assert(s.take(k - 1) =~= head.take(k - 1));
        assert(u.take(k - 1) =~= head.take(k - 1));
    }
}

/// The key of an ID that ends in the run `t`: that of what stands before its last
/// section, if there is one, and the segments of the last section.
proof fn lemma_key_end(head: Seq<char>, t: Seq<char>, digits: bool)
    requires
        t.len() > 0,
        one_kind(t, digits),
        head.len() > 0 && head.last() != '/' ==> is_digit(head.last()) != digits,
    ensures
        0 <= local_start(head) <= head.len(),
        local_start(head) > 0 ==> key(head + t) == key(head.take(local_start(head) - 1)).push(
            segments(head.skip(local_start(head))).push(segment_of(t)),
        ),
        local_start(head) == 0 ==> key(head + t) == seq![
            segments(head.skip(local_start(head))).push(segment_of(t)),
        ],
{
    lemma_local_start(head);
    let k = local_start(head);
    let s = head + t;
    let x = head.skip(k);
    if x.len() > 0 {
        assert(x.last() == head.last());
    }
    lemma_segments_end(x, t, digits);
    let local = x + t;
    assert forall|i: int| 0 <= i < local.len() implies local[i] != '/' by {
        if i < x.len() {
            assert(local[i] == head[k + i]);
        } else {
            assert(local[i] == t[i - x.len()]);
        }
    }
    if k > 0 {
        let up = head.take(k - 1);
        assert(s =~= up + seq!['/'] + local);
        lemma_key_split(up, local);
    } else {
        assert(s =~= local);
        lemma_key_one(local);
    }
}

/// Two IDs that differ in their last segment alone stand to each other as those segments
/// do.
proof fn lemma_last_decides(head: Seq<char>, a: Seq<char>, b: Seq<char>, digits: bool)
    requires
        a.len() > 0,
        b.len() > 0,
        one_kind(a, digits),
        one_kind(b, digits),
        head.len() > 0 && head.last() != '/' ==> is_digit(head.last()) != digits,
        segment_lt()(segment_of(a), segment_of(b)),
    ensures
        id_lt(head + a, head + b),
{
    lemma_key_end(head, a, digits);
    lemma_key_end(head, b, digits);
    let k = local_start(head);
    let lt = lexed(segment_lt());
    let p = segments(head.skip(k));
    let pa = p.push(segment_of(a));
    let pb = p.push(segment_of(b));
    assert(lex_lt(pa, pb, segment_lt())) by {
        let sa = seq![segment_of(a)];
        let sb = seq![segment_of(b)];
        assert(pa =~= p + sa);
        assert(pb =~= p + sb);
        lemma_lex_prefix(p, sa, sb, segment_lt());
        lemma_segment_lt_strict_total();
        assert(segment_of(a) != segment_of(b));
    }
    lemma_lex_irreflexive(pb, segment_lt());
    assert(pa != pb);
    assert(lt(pa, pb));
    assert(lex_lt(seq![pa], seq![pb], lt));
    if k > 0 {
        let up = key(head.take(k - 1));
        assert(key(head + a) =~= up + seq![pa]);
        assert(key(head + b) =~= up + seq![pb]);
        lemma_lex_prefix(up, seq![pa], seq![pb], lt);
    }
}

/// A first segment in an empty section, or in an empty ID, comes after the ID without it.
proof fn lemma_first_segment(s: Seq<char>, t: Seq<char>, digits: bool)
    requires
        !has_segment(s),
        t.len() > 0,
        one_kind(t, digits),
    ensures
        id_lt(s, s + t),
{
    lemma_key_end(s, t, digits);
    lemma_local_start_unique(s, s.len() as int);
    let lt = lexed(segment_lt());
    let none = Seq::<Segment>::empty();
    let one = none.push(segment_of(t));
    assert(s.skip(s.len() as int) =~= Seq::<char>::empty());
    assert(segments(s.skip(s.len() as int)) =~= none);
    assert(lt(none, one));
    assert(lex_lt(seq![none], seq![one], lt));
    if s.len() > 0 {
        let up = s.drop_last();
        assert(s.take(s.len() - 1) =~= up);
        assert(s =~= up + seq!['/'] + Seq::<char>::empty());
        lemma_key_split(up, Seq::<char>::empty());
        assert(segments(Seq::<char>::empty()) =~= none);
        assert(key(s) =~= key(up) + seq![none]);
        assert(key(s + t) =~= key(up) + seq![one]);
        lemma_lex_prefix(key(up), seq![none], seq![one], lt);
    } else {
        lemma_key_one(s);
        assert(segments(s) =~= none);
    }
}

/// The ID that `next_child` gives: the first child below an ID that ends in letters, else
/// the next number beside it. Either way it comes after the ID.
pub proof fn law_next_child(s: Seq<char>)
    ensures
        id_lt(s, next_child_text(s)),
        has_segment(s) && !is_digit(s.last()) ==> child_text(next_child_text(s), s),
        has_segment(s) && is_digit(s.last()) && parent_text(s) != s ==> child_text(
            next_child_text(s),
            parent_text(s),
        ),
        has_segment(s) && is_digit(s.last()) && parent_text(s) == s ==> parent_text(next_child_text(s))
            == next_child_text(s),
{
    if !has_segment(s) {
        lemma_digits_start_unique(s, s.len() as int);
        assert(s + seq!['1'] =~= s.push('1'));
        lemma_first_segment(s, seq!['1'], true);
    } else if !is_digit(s.last()) {
        lemma_digits_start_unique(s, s.len() as int);
        assert(s + seq!['1'] =~= s.push('1'));
        law_extending_makes_a_child(s, seq!['1']);
    } else {
        lemma_last_segment(s);
        let l = last_start(s);
        let a = s.skip(l);
        let head = s.take(l);
        assert forall|i: int| l <= i < s.len() implies is_digit(#[trigger] s[i]) by {
            assert(s[i] == a[i - l]);
        }
        lemma_local_start(s);
        lemma_digits_start_unique(s, l);
        let b = decimal(value(a) + 1);
        lemma_decimal_digits(value(a) + 1);
        lemma_value_of_decimal(value(a) + 1);
        assert(one_kind(b, true)) by {
            assert forall|i: int| 0 <= i < b.len() implies is_digit(#[trigger] b[i]) == true && b[i] != '/' by {}
        }
        assert(s =~= head + a);
        assert(is_digit(a[0]) && is_digit(b[0]));
        assert(head.len() > 0 ==> head.last() == s[l - 1]);
        lemma_same_parent(head, a, b, true);
        lemma_last_decides(head, a, b, true);
    }
}

/// The character after one before `z` has the next code point.
proof fn lemma_char_after(c: char)
    requires
        c < 'z',
    ensures
        char_after(c) as int == c as int + 1,
{
}

/// The ID that `next_sibling` gives: the next letter beside an ID that ends in one, else
/// the first letter below it. Either way it comes after the ID.
///
/// An ID that ends in a full stop is left out: the character after it opens a section.
pub proof fn law_next_sibling(s: Seq<char>)
    requires
        s.len() > 0 ==> s.last() != '.',
    ensures
        next_sibling_text(s) matches Some(t) ==> {
            &&& id_lt(s, t)
            &&& has_segment(s) && is_digit(s.last()) ==> child_text(t, s)
            &&& has_segment(s) && !is_digit(s.last()) && parent_text(s) != s ==> child_text(t, parent_text(s))
            &&& has_segment(s) && !is_digit(s.last()) && parent_text(s) == s ==> parent_text(t) == t
        },
{
    if let Some(u) = next_sibling_text(s) {
        if !has_segment(s) {
            assert(s + seq!['a'] =~= s.push('a'));
            lemma_first_segment(s, seq!['a'], false);
        } else if is_digit(s.last()) {
            assert(s + seq!['a'] =~= s.push('a'));
            law_extending_makes_a_child(s, seq!['a']);
        } else {
            lemma_last_segment(s);
            let l = last_start(s);
            let a = s.skip(l);
            let head = s.take(l);
            let c = char_after(s.last());
            assert(a.last() == s.last());
            lemma_char_after(s.last());
            let b = a.drop_last().push(c);
            assert(one_kind(b, false)) by {
                assert forall|i: int| 0 <= i < b.len() implies is_digit(#[trigger] b[i]) == false && b[i]
                    != '/' by {
                    if i < b.len() - 1 {
                        assert(b[i] == a[i]);
                    }
                }
            }
            lemma_local_start(s);
            assert(s =~= head + a);
            assert(u =~= head + b);
            assert(head.len() > 0 ==> head.last() == s[l - 1]);
            assert(segment_lt()(segment_of(a), segment_of(b))) by {
                assert(!is_digit(a[0]) && !is_digit(b[0]));
                let p = a.drop_last();
                assert(a =~= p + seq![s.last()]);
                assert(b =~= p + seq![c]);
                lemma_lex_prefix(p, seq![s.last()], seq![c], char_lt());
                assert(char_lt()(s.last(), c));
            }
            lemma_same_parent(head, a, b, false);
            lemma_last_decides(head, a, b, false);
        }
    }
}

/// Numbers compare by value: 9 comes before 10, whatever stands before them.
pub proof fn law_numbers_compare_by_value(head: Seq<char>, m: nat, n: nat)
    requires
        m < n,
        head.len() > 0 ==> !is_digit(head.last()),
    ensures
        id_lt(head + decimal(m), head + decimal(n)),
{
    let a = decimal(m);
    let b = decimal(n);
    lemma_decimal_digits(m);
    lemma_decimal_digits(n);
    lemma_value_of_decimal(m);
    lemma_value_of_decimal(n);
    assert(is_digit(a[0]) && is_digit(b[0]));
    assert(one_kind(a, true)) by {
        assert forall|i: int| 0 <= i < a.len() implies is_digit(#[trigger] a[i]) == true && a[i] != '/' by {}
    }
    assert(one_kind(b, true)) by {
        assert forall|i: int| 0 <= i < b.len() implies is_digit(#[trigger] b[i]) == true && b[i] != '/' by {}
    }
    lemma_last_decides(head, a, b, true);
}

} // verus!
