//! What IDs mean, character by character, and how they are ordered.

use crate::id::{
    char_after, child_text, find_text, lemma_digits_start_unique, lemma_local_start_unique,
    lemma_run_start_unique, next_child_text, next_sibling_text, parent_text, section_text,
};
use crate::lex::{lex_lt, lexed};
use crate::lineage::{law_extending_makes_a_child, lemma_segments_one, one_kind};
use crate::note::NoteView;
use crate::numeral::{char_lt, decimal, is_digit, value};
use crate::order::{
    id_le, id_lt, id_order, key, key_lt, lemma_id_lt_irreflexive, lemma_id_lt_total,
    lemma_id_lt_transitive, lemma_key_one, lemma_key_split, lemma_segments_split, segment_lt,
    segments, Segment,
};
use crate::sort::{arranged, in_order, with_key};
use crate::text::{find_char, lemma_find_char_unique};
use std::cmp::Ordering;
use vstd::prelude::*;

verus! {

/// All characters are digits.
pub open spec fn only_digits(t: Seq<char>) -> bool {
    forall|i: int| 0 <= i < t.len() ==> '0' <= #[trigger] t[i] <= '9'
}

/// No character is a digit or a `/`.
pub open spec fn no_digits(t: Seq<char>) -> bool {
    forall|i: int| 0 <= i < t.len() ==> !('0' <= #[trigger] t[i] <= '9') && t[i] != '/'
}

/// One run of characters, digits or others.
pub open spec fn one_run(t: Seq<char>) -> bool {
    only_digits(t) || no_digits(t)
}

/// The run `t` cannot be joined with what stands before it.
pub open spec fn begins_anew(head: Seq<char>, t: Seq<char>) -> bool {
    ||| '0' <= head[head.len() - 1] <= '9' && no_digits(t)
    ||| !('0' <= head[head.len() - 1] <= '9') && only_digits(t)
}

/// A run is of one kind.
proof fn lemma_one_run(t: Seq<char>)
    requires
        one_run(t),
    ensures
        exists|digits: bool| #[trigger] one_kind(t, digits),
        only_digits(t) ==> one_kind(t, true),
        no_digits(t) ==> one_kind(t, false),
{
    if only_digits(t) {
        assert forall|i: int| 0 <= i < t.len() implies is_digit(#[trigger] t[i]) == true && t[i] != '/' by {}
        assert(one_kind(t, true));
    }
    if no_digits(t) {
        assert forall|i: int| 0 <= i < t.len() implies is_digit(#[trigger] t[i]) == false && t[i] != '/' by {}
        assert(one_kind(t, false));
    }
}

// ── Parents ──────────────────────────────────────────────────────────────────

/// An ID of one run is a root: it is its own parent.
pub proof fn law_root(t: Seq<char>)
    requires
        one_run(t),
    ensures
        parent_text(t) == t,
{
    assert forall|i: int| 0 <= i < t.len() implies t[i] != '/' by {}
    lemma_local_start_unique(t, 0);
    assert(t.skip(0) =~= t);
    if t.len() > 0 {
        lemma_one_run(t);
        let d = choose|d: bool| #[trigger] one_kind(t, d);
        assert forall|i: int| 0 <= i < t.len() implies is_digit(#[trigger] t[i]) == is_digit(t.last()) by {}
        lemma_run_start_unique(t, 0);
    }
}

/// An ID with one run more is a child of the ID without it.
pub proof fn law_parent_without_last_run(head: Seq<char>, t: Seq<char>)
    requires
        head.len() > 0,
        head[head.len() - 1] != '/',
        t.len() > 0,
        one_run(t),
        begins_anew(head, t),
    ensures
        parent_text(head + t) == head,
        child_text(head + t, head),
{
    lemma_one_run(t);
    if only_digits(t) && no_digits(t) {
        assert('0' <= t[0] <= '9');
    }
    law_extending_makes_a_child(head, t);
}

/// An ID with a section of one run, or an empty one, is a child of the ID that the section
/// is below.
pub proof fn law_parent_without_section(s: Seq<char>, t: Seq<char>)
    requires
        one_run(t),
    ensures
        parent_text(s + seq!['/'] + t) == s,
        child_text(s + seq!['/'] + t, s),
{
    let u = s + seq!['/'] + t;
    let k = s.len() + 1;
    assert(u[k - 1] == '/');
    assert forall|i: int| k <= i < u.len() implies u[i] != '/' by {
        assert(u[i] == t[i - k]);
    }
    lemma_local_start_unique(u, k as int);
    assert(u.skip(k as int) =~= t);
    if t.len() > 0 {
        lemma_one_run(t);
        let d = choose|d: bool| #[trigger] one_kind(t, d);
        assert forall|i: int| 0 <= i < t.len() implies is_digit(#[trigger] t[i]) == is_digit(t.last()) by {}
        lemma_run_start_unique(t, 0);
    }
    assert(u.take(k - 1) =~= s);
}

/// A child is an ID that has another for its parent.
pub proof fn law_child(s: Seq<char>, p: Seq<char>)
    ensures
        child_text(s, p) <==> parent_text(s) == p && s != p,
{
}

// ── The next ID ──────────────────────────────────────────────────────────────

/// The next child: the number at the end and one, or a `1` where there is no number.
pub proof fn law_next_child_text(head: Seq<char>, d: Seq<char>)
    requires
        head.len() > 0 ==> !('0' <= head[head.len() - 1] <= '9'),
        only_digits(d),
    ensures
        d.len() > 0 ==> next_child_text(head + d) == head + decimal(value(d) + 1),
        next_child_text(head) == head + seq!['1'],
{
    let s = head + d;
    assert(head + seq!['1'] =~= head.push('1'));
    if head.len() > 0 {
        assert(!is_digit(head[head.len() - 1]));
    }
    lemma_digits_start_unique(head, head.len() as int);
    if d.len() > 0 {
        assert forall|i: int| head.len() <= i < s.len() implies is_digit(#[trigger] s[i]) by {
            assert(s[i] == d[i - head.len()]);
        }
        if head.len() > 0 {
            assert(s[head.len() - 1] == head[head.len() - 1]);
        }
        lemma_digits_start_unique(s, head.len() as int);
        assert(s.take(head.len() as int) =~= head);
        assert(s.skip(head.len() as int) =~= d);
    }
}

/// The next sibling: the last character moved on by one code point, up to `z`; behind a
/// digit, a `/` or nothing at all, an `a`.
pub proof fn law_next_sibling_text(head: Seq<char>, c: char)
    ensures
        next_sibling_text(Seq::<char>::empty()) == Some(seq!['a']),
        '0' <= c <= '9' || c == '/' ==> next_sibling_text(head.push(c)) == Some(head.push(c).push('a')),
        c >= 'z' ==> next_sibling_text(head.push(c)) is None,
        c < 'z' && !('0' <= c <= '9') && c != '/' ==> (next_sibling_text(head.push(c)) matches Some(t) && t.len()
            == head.len() + 1 && t.take(head.len() as int) == head && t[head.len() as int] as int == c as int + 1),
{
    let s = head.push(c);
    assert(s.last() == c);
    assert(s.drop_last() =~= head);
    assert(Seq::<char>::empty().push('a') =~= seq!['a']);
    if c < 'z' && !('0' <= c <= '9') && c != '/' {
        let t = head.push(char_after(c));
        assert(t.take(head.len() as int) =~= head);
    }
}

/// The section of a draw: what stands before the first `/`, or nothing where there is
/// none.
pub proof fn law_section(a: Seq<char>, rest: Seq<char>)
    requires
        !a.contains('/'),
    ensures
        section_text(a).len() == 0,
        section_text(a + seq!['/'] + rest) == a,
{
    let s = a + seq!['/'] + rest;
    assert forall|i: int| 0 <= i < a.len() implies s[i] != '/' by {
        assert(a.contains(a[i]));
        assert(s[i] == a[i]);
    }
    assert(s[a.len() as int] == '/');
    assert(s.contains('/'));
    lemma_find_char_unique(s, '/', a.len() as int);
    assert(s.take(find_char(s, '/')) =~= a);
}

/// The first place of a text in a list.
pub proof fn law_find_text(s: Seq<Seq<char>>, x: Seq<char>, k: int)
    requires
        0 <= k <= s.len(),
        forall|i: int| 0 <= i < k ==> #[trigger] s[i] != x,
        k < s.len() ==> s[k] == x,
    ensures
        find_text(s, x) == k,
    decreases s.len(),
{
    if s.len() > 0 && k > 0 {
        let t = s.skip(1);
        assert(s[0] != x);
        assert forall|i: int| 0 <= i < k - 1 implies #[trigger] t[i] != x by {
            assert(t[i] == s[i + 1]);
        }
        law_find_text(t, x, k - 1);
    }
}

// ── The order ────────────────────────────────────────────────────────────────

/// Two lists differ first at `i`, where the first has the smaller element or has ended.
pub open spec fn first_differ<T>(a: Seq<T>, b: Seq<T>, lt: spec_fn(T, T) -> bool, i: int) -> bool {
    &&& 0 <= i <= a.len()
    &&& i < b.len()
    &&& forall|k: int| 0 <= k < i ==> #[trigger] a[k] == b[k]
    &&& i == a.len() || (a[i] != b[i] && lt(a[i], b[i]))
}

/// Lists are ordered by the first place where they differ; one that begins another comes
/// before it.
pub proof fn law_lexicographic<T>(a: Seq<T>, b: Seq<T>, lt: spec_fn(T, T) -> bool)
    ensures
        lex_lt(a, b, lt) <==> exists|i: int| #[trigger] first_differ(a, b, lt, i),
    decreases a.len(),
{
    if b.len() > 0 && a.len() > 0 && a[0] == b[0] {
        let a1 = a.skip(1);
        let b1 = b.skip(1);
        law_lexicographic(a1, b1, lt);
        if lex_lt(a, b, lt) {
            let i = choose|i: int| #[trigger] first_differ(a1, b1, lt, i);
            assert forall|k: int| 0 <= k < i + 1 implies #[trigger] a[k] == b[k] by {
                if k > 0 {
                    assert(a1[k - 1] == b1[k - 1]);
                }
            }
            assert(first_differ(a, b, lt, i + 1));
        }
        if exists|i: int| #[trigger] first_differ(a, b, lt, i) {
            let i = choose|i: int| #[trigger] first_differ(a, b, lt, i);
            assert(i > 0);
            assert forall|k: int| 0 <= k < i - 1 implies #[trigger] a1[k] == b1[k] by {
                assert(a[k + 1] == b[k + 1]);
            }
            assert(first_differ(a1, b1, lt, i - 1));
        }
    } else if b.len() > 0 && a.len() == 0 {
        assert(first_differ(a, b, lt, 0));
    } else if b.len() > 0 {
        if lex_lt(a, b, lt) {
            assert(first_differ(a, b, lt, 0));
        }
        if exists|i: int| #[trigger] first_differ(a, b, lt, i) {
            let i = choose|i: int| #[trigger] first_differ(a, b, lt, i);
            if i > 0 {
                assert(a[0] == b[0]);
            }
        }
    }
}

/// Numbers are ordered by what they count, runs of other characters by their characters;
/// a run comes behind all numbers where it begins behind the digits, and before them
/// where it does not.
pub proof fn law_segment_order(m: nat, n: nat, s: Seq<char>, t: Seq<char>)
    ensures
        segment_lt()(Segment::Number(m), Segment::Number(n)) <==> m < n,
        segment_lt()(Segment::Text(s), Segment::Text(t)) <==> exists|i: int| #[trigger]
            first_differ(s, t, char_lt(), i),
        s.len() > 0 && s[0] > '9' ==> segment_lt()(Segment::Number(m), Segment::Text(s)) && !segment_lt()(
            Segment::Text(s),
            Segment::Number(m),
        ),
        s.len() > 0 && s[0] < '0' ==> segment_lt()(Segment::Text(s), Segment::Number(m)) && !segment_lt()(
            Segment::Number(m),
            Segment::Text(s),
        ),
        forall|a: char, b: char| #[trigger] char_lt()(a, b) <==> a < b,
{
    law_lexicographic(s, t, char_lt());
}

/// An ID counts by its sections, and a section by its runs, one after the other.
pub proof fn law_key_by_runs(s: Seq<char>, local: Seq<char>, x: Seq<char>, t: Seq<char>)
    requires
        forall|i: int| 0 <= i < local.len() ==> #[trigger] local[i] != '/',
        t.len() > 0,
        one_run(t),
        x.len() > 0,
        begins_anew(x, t),
    ensures
        key(local) == seq![segments(local)],
        key(s + seq!['/'] + local) == key(s).push(segments(local)),
        segments(Seq::<char>::empty()).len() == 0,
        only_digits(t) ==> segments(t) == seq![Segment::Number(value(t))],
        no_digits(t) ==> segments(t) == seq![Segment::Text(t)],
        segments(x + t) == segments(x) + segments(t),
{
    lemma_key_one(local);
    lemma_key_split(s, local);
    lemma_one_run(t);
    if only_digits(t) {
        lemma_segments_one(t, true);
        assert(is_digit(t[0]));
    } else {
        lemma_segments_one(t, false);
        assert(!is_digit(t[0]));
    }
    assert(is_digit(x.last()) != is_digit(t[0]));
    lemma_segments_split(x, t);
}

/// IDs are ordered by their sections, and sections by their runs.
pub proof fn law_id_order(a: Seq<char>, b: Seq<char>)
    ensures
        id_lt(a, b) <==> exists|i: int| #[trigger] first_differ(key(a), key(b), lexed(segment_lt()), i),
        id_le(a, b) <==> !id_lt(b, a),
        forall|x: Seq<Segment>, y: Seq<Segment>| #[trigger]
            lexed(segment_lt())(x, y) <==> exists|i: int| #[trigger] first_differ(x, y, segment_lt(), i),
{
    law_lexicographic(key(a), key(b), lexed(segment_lt()));
    assert forall|x: Seq<Segment>, y: Seq<Segment>| #[trigger] lexed(segment_lt())(x, y) <==> exists|i: int|
        #[trigger]
        first_differ(x, y, segment_lt(), i) by {
        law_lexicographic(x, y, segment_lt());
    }
}

/// Comparing two IDs says which comes first, or that they count the same.
pub proof fn law_outcome(a: Seq<char>, b: Seq<char>)
    ensures
        id_order(a, b) == Ordering::Less <==> id_lt(a, b),
        id_order(a, b) == Ordering::Greater <==> id_lt(b, a),
        id_order(a, b) == Ordering::Equal <==> key(a) == key(b),
{
    lemma_id_lt_total(a, b);
    lemma_id_lt_irreflexive(a);
    lemma_id_lt_irreflexive(b);
    if id_lt(a, b) && id_lt(b, a) {
        lemma_id_lt_transitive(a, b, a);
    }
}

/// Notes put in order are the same notes, each as often as before, with none before one
/// that it comes behind; those that count the same keep their order.
pub proof fn law_arranged(input: Seq<NoteView>, output: Seq<NoteView>)
    requires
        arranged(input, output),
    ensures
        output.len() == input.len(),
        output.to_multiset() == input.to_multiset(),
        forall|i: int, j: int|
            0 <= i < j < output.len() ==> !id_lt((#[trigger] output[j]).id, (#[trigger] output[i]).id),
        forall|id: Seq<char>| same_key(output, key(id)) == #[trigger] same_key(input, key(id)),
{
    vstd::seq_lib::to_multiset_len(input);
    vstd::seq_lib::to_multiset_len(output);
    assert forall|id: Seq<char>| same_key(output, key(id)) == #[trigger] same_key(input, key(id)) by {
        lemma_same_key(output, key(id));
        lemma_same_key(input, key(id));
        assert(with_key(output, key(id)) == with_key(input, key(id)));
    }
}

/// The notes that count by this key, in their order.
pub open spec fn same_key(s: Seq<NoteView>, k: Seq<Seq<Segment>>) -> Seq<NoteView> {
    s.filter(|n: NoteView| key(n.id) == k)
}

/// The notes with one key, picked from behind or from the front.
proof fn lemma_same_key(s: Seq<NoteView>, k: Seq<Seq<Segment>>)
    ensures
        with_key(s, k) == same_key(s, k),
    decreases s.len(),
{
    reveal(Seq::filter);
    if s.len() > 0 {
        lemma_same_key(s.drop_last(), k);
    }
}

/// A list that is in order.
pub proof fn law_in_order(s: Seq<NoteView>)
    ensures
        in_order(s) <==> forall|i: int, j: int|
            0 <= i < j < s.len() ==> !id_lt((#[trigger] s[j]).id, (#[trigger] s[i]).id),
{
    if in_order(s) {
        assert forall|i: int, j: int| 0 <= i < j < s.len() implies !id_lt((#[trigger] s[j]).id, (#[trigger] s[i]).id) by {
            assert(id_le(s[i].id, s[j].id));
        }
    }
}

/// The keys of IDs are compared section by section.
pub proof fn law_keys_compare(a: Seq<char>, b: Seq<char>)
    ensures
        id_lt(a, b) == key_lt(key(a), key(b)),
        key(a) == key(b) ==> !id_lt(a, b) && !id_lt(b, a),
{
    lemma_id_lt_irreflexive(a);
}

} // verus!
