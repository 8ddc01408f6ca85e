//! The order of IDs: section by section, segment by segment, numbers by value.

use crate::id::{child_text, lemma_local_start, lemma_run_start, local_start, run_start, ID};
use crate::lex::{
    lemma_lex_irreflexive, lemma_lex_prefix, lemma_lex_total, lemma_lex_transitive,
    lemma_lexed_strict_total, lex_lt, lexed, strict_total,
};
use crate::numeral::{
    all_digits, char_lt, decimal, digit, is_digit, lemma_decimal_order, lemma_value_of_decimal,
    value, without_leading_zeros,
};
use crate::text::{
    chars_of, find_char, lemma_find_char, lemma_find_char_unique, position_from, slice_of,
};
use std::cmp::Ordering;
use vstd::prelude::*;

verus! {

/// One segment of an ID, as it counts for the order.
pub enum Segment {
    /// A run of digits counts by the number it names.
    Number(nat),
    /// A run without digits counts by its text.
    Text(Seq<char>),
}

/// What an ID counts by: the segments of each of its sections.
pub type Key = Seq<Seq<Segment>>;

/// The length of the first segment.
pub open spec fn run_len(s: Seq<char>) -> int
    decreases s.len(),
{
    if s.len() <= 1 {
        s.len() as int
    } else if is_digit(s[1]) == is_digit(s[0]) {
        1 + run_len(s.skip(1))
    } else {
        1
    }
}

/// How a run of characters of one kind counts.
pub open spec fn segment_of(run: Seq<char>) -> Segment {
    if is_digit(run[0]) {
        Segment::Number(value(run))
    } else {
        Segment::Text(run)
    }
}

/// The segments of one part.
pub open spec fn segments(s: Seq<char>) -> Seq<Segment>
    decreases s.len(),
    via segments_decreases
{
    if s.len() == 0 {
        Seq::empty()
    } else {
        seq![segment_of(s.take(run_len(s)))] + segments(s.skip(run_len(s)))
    }
}

#[via_fn]
proof fn segments_decreases(s: Seq<char>) {
    if s.len() > 0 {
        lemma_run_len(s);
    }
}

/// What the ID with the text `s` counts by: the segments of each stretch between `/`.
pub open spec fn key(s: Seq<char>) -> Key
    decreases s.len(),
    via key_decreases
{
    let i = find_char(s, '/');
    if i >= s.len() {
        seq![segments(s)]
    } else {
        seq![segments(s.take(i))] + key(s.skip(i + 1))
    }
}

#[via_fn]
proof fn key_decreases(s: Seq<char>) {
    lemma_find_char(s, '/');
}

/// Numbers by value, text by code points. A text stands behind every number where its
/// first character comes after the digits, and before every number otherwise.
pub open spec fn segment_lt() -> spec_fn(Segment, Segment) -> bool {
    |a: Segment, b: Segment|
        match (a, b) {
            (Segment::Number(x), Segment::Number(y)) => x < y,
            (Segment::Text(x), Segment::Text(y)) => lex_lt(x, y, char_lt()),
            (Segment::Number(_), Segment::Text(y)) => y.len() > 0 && y[0] > '9',
            (Segment::Text(x), Segment::Number(_)) => !(x.len() > 0 && x[0] > '9'),
        }
}

/// The order of keys.
pub open spec fn key_lt(a: Key, b: Key) -> bool {
    lex_lt(a, b, lexed(segment_lt()))
}

/// The ID with the text `a` comes before the one with the text `b`.
pub open spec fn id_lt(a: Seq<char>, b: Seq<char>) -> bool {
    key_lt(key(a), key(b))
}

/// `a` does not come after `b`.
pub open spec fn id_le(a: Seq<char>, b: Seq<char>) -> bool {
    !id_lt(b, a)
}

/// The outcome of comparing two IDs.
pub open spec fn id_order(a: Seq<char>, b: Seq<char>) -> Ordering {
    if id_lt(a, b) {
        Ordering::Less
    } else if id_lt(b, a) {
        Ordering::Greater
    } else {
        Ordering::Equal
    }
}

/// `b` begins with `a`, section for section and segment for segment: it stands at `a`
/// or in the subtree below.
pub open spec fn key_within(a: Key, b: Key) -> bool {
    &&& 0 < a.len() <= b.len()
    &&& b.take(a.len() - 1) == a.drop_last()
    &&& a.last().is_prefix_of(b[a.len() - 1])
}

// ── The order is a strict total order on keys ────────────────────────────────

/// Characters are ordered strictly and totally.
pub proof fn lemma_char_lt_strict_total()
    ensures
        strict_total(char_lt()),
{
    let l = char_lt();
    assert forall|a: char, b: char| a == b || #[trigger] l(a, b) || l(b, a) by {
        if !(a < b) && !(b < a) {
            assert(a as int == b as int);
        }
    }
}

/// Segments are ordered strictly and totally.
pub proof fn lemma_segment_lt_strict_total()
    ensures
        strict_total(segment_lt()),
{
    lemma_char_lt_strict_total();
    let c = char_lt();
    let l = segment_lt();
    assert forall|a: Segment| !#[trigger] l(a, a) by {
        if let Segment::Text(x) = a {
            lemma_lex_irreflexive(x, c);
        }
    }
    assert forall|a: Segment, b: Segment, d: Segment| #[trigger] l(a, b) && #[trigger] l(b, d) implies l(
        a,
        d,
    ) by {
        match (a, b, d) {
            (Segment::Text(x), Segment::Text(y), Segment::Text(z)) => {
                lemma_lex_transitive(x, y, z, c);
            },
            (Segment::Text(x), Segment::Number(_), Segment::Text(z)) => {
                if x.len() > 0 {
                    assert(x[0] < z[0]);
                }
            },
            (Segment::Text(x), Segment::Text(y), Segment::Number(_)) => {
                if x.len() > 0 && y.len() > 0 && x[0] != y[0] {
                    assert(c(x[0], y[0]));
                }
            },
            (Segment::Number(_), Segment::Text(y), Segment::Text(z)) => {
                if y.len() > 0 && z.len() > 0 && y[0] != z[0] {
                    assert(c(y[0], z[0]));
                }
            },
            _ => {},
        }
    }
    assert forall|a: Segment, b: Segment| a == b || #[trigger] l(a, b) || l(b, a) by {
        if let (Segment::Text(x), Segment::Text(y)) = (a, b) {
            lemma_lex_total(x, y, c);
        }
    }
}

/// The order of sections.
pub proof fn lemma_part_lt_strict_total()
    ensures
        strict_total(lexed(segment_lt())),
{
    lemma_segment_lt_strict_total();
    lemma_lexed_strict_total(segment_lt());
}

/// No ID comes before itself.
pub proof fn lemma_id_lt_irreflexive(a: Seq<char>)
    ensures
        !id_lt(a, a),
{
    lemma_lex_irreflexive(key(a), lexed(segment_lt()));
}

/// The order of IDs is transitive.
pub proof fn lemma_id_lt_transitive(a: Seq<char>, b: Seq<char>, c: Seq<char>)
    requires
        id_lt(a, b),
        id_lt(b, c),
    ensures
        id_lt(a, c),
{
    lemma_part_lt_strict_total();
    lemma_lex_transitive(key(a), key(b), key(c), lexed(segment_lt()));
}

/// Of two IDs that count differently, one comes before the other, and not both do.
pub proof fn lemma_id_lt_total(a: Seq<char>, b: Seq<char>)
    ensures
        key(a) == key(b) || id_lt(a, b) || id_lt(b, a),
        !(id_lt(a, b) && id_lt(b, a)),
        key(a) == key(b) ==> !id_lt(a, b) && !id_lt(b, a),
{
    lemma_part_lt_strict_total();
    lemma_lex_total(key(a), key(b), lexed(segment_lt()));
    if id_lt(a, b) && id_lt(b, a) {
        lemma_id_lt_transitive(a, b, a);
        lemma_id_lt_irreflexive(a);
    }
    lemma_id_lt_irreflexive(a);
}

/// Not coming after is transitive.
pub proof fn lemma_id_le_transitive(a: Seq<char>, b: Seq<char>, c: Seq<char>)
    requires
        id_le(a, b),
        id_le(b, c),
    ensures
        id_le(a, c),
{
    if id_lt(c, a) {
        lemma_id_lt_total(a, b);
        lemma_id_lt_total(b, c);
        if key(a) != key(b) {
            lemma_id_lt_transitive(c, a, b);
        }
    }
}

// ── Parts and segments ───────────────────────────────────────────────────────

/// The first segment is of one kind, and what follows it is of the other.
pub proof fn lemma_run_len(s: Seq<char>)
    requires
        s.len() > 0,
    ensures
        0 < run_len(s) <= s.len(),
        forall|i: int| 0 <= i < run_len(s) ==> is_digit(#[trigger] s[i]) == is_digit(s[0]),
        run_len(s) < s.len() ==> is_digit(s[run_len(s)]) != is_digit(s[0]),
    decreases s.len(),
{
    if s.len() > 1 && is_digit(s[1]) == is_digit(s[0]) {
        let t = s.skip(1);
        lemma_run_len(t);
        assert forall|i: int| 0 <= i < run_len(s) implies is_digit(#[trigger] s[i]) == is_digit(s[0]) by {
            if i > 0 {
                assert(s[i] == t[i - 1]);
            }
        }
    }
}

/// Only one length has what `lemma_run_len` says.
pub proof fn lemma_run_len_unique(s: Seq<char>, k: int)
    requires
        0 < k <= s.len(),
        forall|i: int| 0 <= i < k ==> is_digit(#[trigger] s[i]) == is_digit(s[0]),
        k < s.len() ==> is_digit(s[k]) != is_digit(s[0]),
    ensures
        run_len(s) == k,
{
    lemma_run_len(s);
    let r = run_len(s);
    if r < k {
        assert(is_digit(s[r]) == is_digit(s[0]));
    } else if k < r {
        assert(is_digit(s[k]) == is_digit(s[0]));
    }
}

/// Segments meet where digits and other characters meet.
pub proof fn lemma_segments_split(a: Seq<char>, b: Seq<char>)
    requires
        a.len() > 0,
        b.len() > 0,
        is_digit(a.last()) != is_digit(b[0]),
    ensures
        segments(a + b) == segments(a) + segments(b),
    decreases a.len(),
{
    lemma_run_len(a);
    let k = run_len(a);
    let s = a + b;
    assert forall|i: int| 0 <= i < k implies is_digit(#[trigger] s[i]) == is_digit(s[0]) by {
        assert(s[i] == a[i]);
    }
    if k == a.len() {
        assert(is_digit(a[k - 1]) == is_digit(a[0]));
    }
    lemma_run_len_unique(s, k);
    assert(s.take(k) =~= a.take(k));
    if k == a.len() {
        assert(s.skip(k) =~= b);
        assert(a.skip(k) =~= Seq::<char>::empty());
        assert(segments(a.skip(k)) =~= Seq::<Segment>::empty());
        assert(segments(a) =~= seq![segment_of(a.take(k))]);
        assert(segments(s) =~= segments(a) + segments(b));
    } else {
        assert(s.skip(k) =~= a.skip(k) + b);
        lemma_segments_split(a.skip(k), b);
        assert(segments(s) =~= segments(a) + segments(b));
    }
}

/// An ID has at least one section.
pub proof fn lemma_key_nonempty(s: Seq<char>)
    ensures
        key(s).len() > 0,
{
    lemma_find_char(s, '/');
}

/// The key of an ID without `/`.
pub proof fn lemma_key_one(s: Seq<char>)
    requires
        forall|i: int| 0 <= i < s.len() ==> s[i] != '/',
    ensures
        key(s) == seq![segments(s)],
{
    lemma_find_char_unique(s, '/', s.len() as int);
}

/// The key of an ID with sections before its last one.
pub proof fn lemma_key_split(a: Seq<char>, b: Seq<char>)
    requires
        forall|i: int| 0 <= i < b.len() ==> b[i] != '/',
    ensures
        key(a + seq!['/'] + b) == key(a).push(segments(b)),
    decreases a.len(),
{
    let s = a + seq!['/'] + b;
    lemma_find_char(a, '/');
    let i = find_char(a, '/');
    assert forall|k: int| 0 <= k < i implies s[k] != '/' by {
        assert(s[k] == a[k]);
    }
    if i == a.len() {
        assert(s[i] == '/');
        lemma_find_char_unique(s, '/', i);
        lemma_key_one(b);
        assert(s.take(i) =~= a);
        assert(s.skip(i + 1) =~= b);
        assert(key(s) =~= key(a).push(segments(b)));
    } else {
        assert(s[i] == a[i]);
        lemma_find_char_unique(s, '/', i);
        assert(s.take(i) =~= a.take(i));
        assert(s.skip(i + 1) =~= a.skip(i + 1) + seq!['/'] + b);
        lemma_key_split(a.skip(i + 1), b);
        assert(key(s) =~= key(a).push(segments(b)));
    }
}

// ── Position in the tree and order ───────────────────────────────────────────

/// The characters behind the last `/`.
pub proof fn lemma_local_part(s: Seq<char>)
    ensures
        0 <= local_start(s) <= s.len(),
        forall|i: int| 0 <= i < s.skip(local_start(s)).len() ==> s.skip(local_start(s))[i] != '/',
        local_start(s) > 0 ==> s == s.take(local_start(s) - 1) + seq!['/'] + s.skip(local_start(s)),
        local_start(s) == 0 ==> s == s.skip(local_start(s)),
{
    lemma_local_start(s);
    let k = local_start(s);
    let local = s.skip(k);
    assert forall|i: int| 0 <= i < local.len() implies local[i] != '/' by {
        assert(local[i] == s[i + k]);
    }
    if k > 0 {
        assert(s =~= s.take(k - 1) + seq!['/'] + local);
    } else {
        assert(s =~= local);
    }
}

/// The segments of a part without its last segment.
proof fn lemma_segments_without_last(local: Seq<char>)
    requires
        run_start(local) > 0,
    ensures
        run_start(local) < local.len(),
        segments(local.take(run_start(local))).is_prefix_of(segments(local)),
        segments(local.take(run_start(local))).len() < segments(local).len(),
{
    lemma_run_start(local);
    let r = run_start(local);
    let x = local.take(r);
    let y = local.skip(r);
    assert(local =~= x + y);
    assert(x.last() == local[r - 1]);
    assert(y[0] == local[r]);
    assert(is_digit(local[r]) == is_digit(local.last()));
    lemma_segments_split(x, y);
    lemma_run_len(y);
    assert(segments(y).len() > 0);
    assert(segments(x) =~= segments(local).subrange(0, segments(x).len() as int));
}

/// A child's key begins with its parent's.
pub proof fn lemma_child_within_parent(s: Seq<char>, p: Seq<char>)
    requires
        child_text(s, p),
    ensures
        key_within(key(p), key(s)),
        key(p) != key(s),
        p.len() < s.len(),
{
    lemma_local_part(s);
    let k = local_start(s);
    let local = s.skip(k);
    let r = run_start(local);
    lemma_key_nonempty(p);
    if r > 0 {
        let x = local.take(r);
        lemma_segments_without_last(local);
        if k > 0 {
            let a = s.take(k - 1);
            assert(p =~= a + seq!['/'] + x);
            lemma_key_split(a, local);
            lemma_key_split(a, x);
            assert(key(s).take(key(p).len() - 1) =~= key(p).drop_last());
            assert(key(s).last() != key(p).last());
        } else {
            assert(p =~= x);
            lemma_key_one(local);
            lemma_key_one(x);
            assert(key(s).take(key(p).len() - 1) =~= key(p).drop_last());
            assert(key(s)[0] != key(p)[0]);
        }
    } else {
        lemma_key_split(p, local);
        assert(key(s).take(key(p).len() - 1) =~= key(p).drop_last());
        assert(key(s)[key(p).len() - 1] == key(p).last());
        assert(key(p).last() =~= key(p).last().subrange(0, key(p).last().len() as int));
    }
}

/// What begins with another key, and is not the same, comes after it.
pub proof fn lemma_within_not_before(a: Key, b: Key)
    requires
        key_within(a, b),
        a != b,
    ensures
        key_lt(a, b),
{
    let lt = lexed(segment_lt());
    let p = a.drop_last();
    let n = p.len() as int;
    assert(a =~= p + seq![a.last()]);
    assert(b =~= p + b.skip(n));
    lemma_lex_prefix(p, seq![a.last()], b.skip(n), lt);
    let x = a.last();
    let y = b[n];
    assert(b.skip(n)[0] == y);
    if x == y {
        assert(seq![x].skip(1) =~= Seq::<Seq<Segment>>::empty());
        if b.len() == a.len() {
            assert(a =~= b);
        }
        assert(lex_lt(seq![x].skip(1), b.skip(n).skip(1), lt));
    } else {
        assert(y =~= x + y.skip(x.len() as int));
        if x.len() == y.len() {
            assert(x =~= y);
        }
        assert(x =~= x + Seq::<Segment>::empty());
        lemma_lex_prefix(x, Seq::<Segment>::empty(), y.skip(x.len() as int), segment_lt());
        assert(lt(x, y));
    }
    assert(lex_lt(seq![x], b.skip(n), lt));
}

/// A parent comes before its children.
pub proof fn law_parent_comes_before_child(s: Seq<char>, p: Seq<char>)
    requires
        child_text(s, p),
    ensures
        id_lt(p, s),
{
    lemma_child_within_parent(s, p);
    lemma_within_not_before(key(p), key(s));
}

/// What stands below something below a note stands below the note.
pub proof fn lemma_within_transitive(a: Key, b: Key, c: Key)
    requires
        key_within(a, b),
        key_within(b, c),
    ensures
        key_within(a, c),
{
    let n = a.len() - 1;
    assert(c.take(b.len() - 1) == b.drop_last());
    assert(c.take(n) =~= a.drop_last()) by {
        assert forall|i: int| 0 <= i < n implies c[i] == a[i] by {
            assert(c.take(b.len() - 1)[i] == b.drop_last()[i]);
            assert(b.take(n)[i] == a.drop_last()[i]);
        }
    }
    if a.len() < b.len() {
        assert(c.take(b.len() - 1)[n] == b.drop_last()[n]);
    } else {
        let x = a.last();
        let y = b.last();
        let z = c[n];
        assert(x.is_prefix_of(z)) by {
            assert(x =~= z.subrange(0, x.len() as int)) by {
                assert forall|i: int| 0 <= i < x.len() implies x[i] == z[i] by {
                    assert(y.subrange(0, x.len() as int)[i] == x[i]);
                    assert(z.subrange(0, y.len() as int)[i] == y[i]);
                }
            }
        }
    }
}

/// A subtree stands together: what comes after a note without standing below it comes
/// after everything that stands below it.
pub proof fn law_subtree_stands_together(s: Seq<char>, d: Seq<char>, y: Seq<char>)
    requires
        key_within(key(s), key(d)),
        id_lt(s, y),
        !key_within(key(s), key(y)),
    ensures
        id_lt(d, y),
{
    let a = key(s);
    let b = key(d);
    let c = key(y);
    assert(c.take(0) =~= a.take(0));
    assert(a.skip(0) =~= a);
    assert(b.skip(0) =~= b);
    assert(c.skip(0) =~= c);
    lemma_subtree_from(a, b, c, 0);
}

/// `law_subtree_stands_together` from the `i`-th section on.
proof fn lemma_subtree_from(a: Key, b: Key, c: Key, i: int)
    requires
        key_within(a, b),
        !key_within(a, c),
        0 <= i < a.len(),
        i <= c.len(),
        c.take(i) == a.take(i),
        lex_lt(a.skip(i), c.skip(i), lexed(segment_lt())),
    ensures
        lex_lt(b.skip(i), c.skip(i), lexed(segment_lt())),
    decreases a.len() - i,
{
    let lt = lexed(segment_lt());
    lemma_part_lt_strict_total();
    lemma_segment_lt_strict_total();
    let n = a.len() - 1;
    assert(i < c.len());
    assert(a.skip(i)[0] == a[i]);
    assert(b.skip(i)[0] == b[i]);
    assert(c.skip(i)[0] == c[i]);
    if i < n {
        assert(b.take(n)[i] == a.drop_last()[i]);
        if a[i] == c[i] {
            assert(c.take(i + 1) =~= a.take(i + 1)) by {
                assert forall|k: int| 0 <= k < i + 1 implies c[k] == a[k] by {
                    if k < i {
                        assert(c.take(i)[k] == a.take(i)[k]);
                    }
                }
            }
            assert(a.skip(i).skip(1) =~= a.skip(i + 1));
            assert(b.skip(i).skip(1) =~= b.skip(i + 1));
            assert(c.skip(i).skip(1) =~= c.skip(i + 1));
            lemma_subtree_from(a, b, c, i + 1);
        }
    } else {
        let x = a[n];
        let u = b[n];
        let v = c[n];
        assert(c.take(n) =~= a.drop_last());
        if x.is_prefix_of(v) {
            assert(key_within(a, c));
        }
        if x == v {
            assert(x.is_prefix_of(v)) by {
                assert(x =~= v.subrange(0, x.len() as int));
            }
        }
        assert(lex_lt(x, v, segment_lt()));
        lemma_prefix_diverges(x, u, v);
        assert(lt(u, v));
        assert(u != v) by {
            lemma_lex_irreflexive(u, segment_lt());
        }
    }
}

/// A section that comes after `x` without beginning with it comes after all that begin
/// with `x`.
proof fn lemma_prefix_diverges(x: Seq<Segment>, u: Seq<Segment>, v: Seq<Segment>)
    requires
        x.is_prefix_of(u),
        !x.is_prefix_of(v),
        lex_lt(x, v, segment_lt()),
    ensures
        lex_lt(u, v, segment_lt()),
    decreases x.len(),
{
    if x.len() == 0 {
        assert(x =~= v.subrange(0, 0));
    } else {
        assert(u.subrange(0, x.len() as int)[0] == x[0]);
        if x[0] == v[0] {
            let x1 = x.skip(1);
            let u1 = u.skip(1);
            let v1 = v.skip(1);
            assert(x1.is_prefix_of(u1)) by {
                assert forall|i: int| 0 <= i < x1.len() implies x1[i] == u1[i] by {
                    assert(u.subrange(0, x.len() as int)[i + 1] == x[i + 1]);
                }
                assert(x1 =~= u1.subrange(0, x1.len() as int));
            }
            if x1.is_prefix_of(v1) {
                assert forall|i: int| 0 <= i < x.len() implies x[i] == v[i] by {
                    if i > 0 {
                        assert(v1.subrange(0, x1.len() as int)[i - 1] == x1[i - 1]);
                    }
                }
                assert(x =~= v.subrange(0, x.len() as int));
            }
            lemma_prefix_diverges(x1, u1, v1);
        }
    }
}

// ── Comparing ────────────────────────────────────────────────────────────────

/// How one value stands to another.
enum Rel {
    Before,
    Same,
    After,
}

/// `r` says how `a` stands to `b` in the order `lt`.
spec fn stands<T>(r: Rel, a: T, b: T, lt: spec_fn(T, T) -> bool) -> bool {
    match r {
        Rel::Before => lt(a, b),
        Rel::Same => a == b,
        Rel::After => lt(b, a),
    }
}

/// Compares two runs of characters by code point.
fn compare_text(a: &Vec<char>, b: &Vec<char>) -> (r: Rel)
    ensures
        stands(r, a@, b@, lexed(char_lt())),
{
    let ghost lt = char_lt();
    let mut i: usize = 0;
    while i < a.len() && i < b.len() && a[i] == b[i]
        invariant
            i <= a@.len(),
            i <= b@.len(),
            a@.take(i as int) == b@.take(i as int),
        decreases a@.len() - i,
    {
        assert(a@.take(i + 1) =~= a@.take(i as int).push(a@[i as int]));
        assert(b@.take(i + 1) =~= b@.take(i as int).push(b@[i as int]));
        i = i + 1;
    }
    proof {
        let p = a@.take(i as int);
        assert(a@ =~= p + a@.skip(i as int));
        assert(b@ =~= p + b@.skip(i as int));
        lemma_lex_prefix(p, a@.skip(i as int), b@.skip(i as int), lt);
        lemma_lex_prefix(p, b@.skip(i as int), a@.skip(i as int), lt);
    }
    if i == a.len() {
        if i == b.len() {
            assert(a@ =~= b@);
            Rel::Same
        } else {
            Rel::Before
        }
    } else if i == b.len() {
        Rel::After
    } else if a[i] < b[i] {
        Rel::Before
    } else {
        Rel::After
    }
}

/// Whether `a` comes before `b` by code point.
pub fn text_before(a: &Vec<char>, b: &Vec<char>) -> (r: bool)
    ensures
        r == lex_lt(a@, b@, char_lt()),
{
    proof {
        lemma_char_lt_strict_total();
        lemma_lex_irreflexive(a@, char_lt());
        if lex_lt(a@, b@, char_lt()) && lex_lt(b@, a@, char_lt()) {
            lemma_lex_transitive(a@, b@, a@, char_lt());
        }
    }
    match compare_text(a, b) {
        Rel::Before => true,
        Rel::Same => false,
        Rel::After => false,
    }
}

/// Compares two runs of digits by the numbers that they name.
fn compare_numbers(a: &Vec<char>, b: &Vec<char>) -> (r: Rel)
    requires
        all_digits(a@),
        all_digits(b@),
    ensures
        match r {
            Rel::Before => value(a@) < value(b@),
            Rel::Same => value(a@) == value(b@),
            Rel::After => value(b@) < value(a@),
        },
{
    let x = without_leading_zeros(a);
    let y = without_leading_zeros(b);
    let ghost m = value(a@);
    let ghost n = value(b@);
    proof {
        lemma_char_lt_strict_total();
        lemma_lexed_strict_total(char_lt());
        if m < n {
            lemma_decimal_order(m, n);
        } else if n < m {
            lemma_decimal_order(n, m);
        }
        lemma_value_of_decimal(m);
        lemma_value_of_decimal(n);
        let l = lexed(char_lt());
        assert(l(decimal(m), decimal(n)) == lex_lt(decimal(m), decimal(n), char_lt()));
        assert(l(decimal(n), decimal(m)) == lex_lt(decimal(n), decimal(m), char_lt()));
        assert(!(l(decimal(m), decimal(n)) && l(decimal(n), decimal(m)))) by {
            if l(decimal(m), decimal(n)) && l(decimal(n), decimal(m)) {
                assert(l(decimal(m), decimal(m)));
            }
        }
    }
    if x.len() < y.len() {
        Rel::Before
    } else if y.len() < x.len() {
        Rel::After
    } else {
        compare_text(&x, &y)
    }
}

/// Compares two segments.
fn compare_segments(a: &Vec<char>, b: &Vec<char>) -> (r: Rel)
    requires
        a@.len() > 0,
        b@.len() > 0,
        forall|i: int| 0 <= i < a@.len() ==> is_digit(#[trigger] a@[i]) == is_digit(a@[0]),
        forall|i: int| 0 <= i < b@.len() ==> is_digit(#[trigger] b@[i]) == is_digit(b@[0]),
    ensures
        stands(r, segment_of(a@), segment_of(b@), segment_lt()),
{
    if digit(a[0]) {
        if digit(b[0]) {
            compare_numbers(a, b)
        } else if b[0] > '9' {
            Rel::Before
        } else {
            Rel::After
        }
    } else if digit(b[0]) {
        if a[0] > '9' {
            Rel::After
        } else {
            Rel::Before
        }
    } else {
        compare_text(a, b)
    }
}

/// Where the segment that begins at `from` ends.
fn segment_end(v: &Vec<char>, from: usize) -> (r: usize)
    requires
        from < v@.len(),
    ensures
        from < r <= v@.len(),
        r - from == run_len(v@.skip(from as int)),
{
    let kind = digit(v[from]);
    let n = v.len();
    let mut i: usize = from + 1;
    while i < n && digit(v[i]) == kind
        invariant
            from < i <= n == v@.len(),
            kind == is_digit(v@[from as int]),
            forall|k: int| from <= k < i ==> is_digit(#[trigger] v@[k]) == kind,
        decreases v@.len() - i,
    {
        i = i + 1;
    }
    proof {
        let s = v@.skip(from as int);
        assert forall|k: int| 0 <= k < i - from implies is_digit(#[trigger] s[k]) == is_digit(s[0]) by {
            assert(s[k] == v@[k + from]);
        }
        lemma_run_len_unique(s, i - from);
    }
    i
}

/// Compares two parts segment by segment, numbers by value.
fn compare_luhmann(a: &Vec<char>, b: &Vec<char>) -> (r: Rel)
    ensures
        stands(r, segments(a@), segments(b@), lexed(segment_lt())),
{
    let ghost lt = segment_lt();
    let mut i: usize = 0;
    let mut j: usize = 0;
    let ghost mut pre = Seq::<Segment>::empty();
    proof {
        assert(a@.skip(0) =~= a@);
        assert(b@.skip(0) =~= b@);
        assert(segments(a@) =~= pre + segments(a@));
        assert(segments(b@) =~= pre + segments(b@));
    }
    while i < a.len() && j < b.len()
        invariant
            i <= a@.len(),
            j <= b@.len(),
            lt == segment_lt(),
            segments(a@) == pre + segments(a@.skip(i as int)),
            segments(b@) == pre + segments(b@.skip(j as int)),
        decreases a@.len() - i,
    {
        let ae = segment_end(a, i);
        let be = segment_end(b, j);
        let x = slice_of(a, i, ae);
        let y = slice_of(b, j, be);
        let ghost u = a@.skip(i as int);
        let ghost v = b@.skip(j as int);
        proof {
            lemma_run_len(u);
            lemma_run_len(v);
            assert(x@ =~= u.take(run_len(u)));
            assert(y@ =~= v.take(run_len(v)));
            assert forall|k: int| 0 <= k < x@.len() implies is_digit(#[trigger] x@[k]) == is_digit(x@[0]) by {
                assert(x@[k] == u[k]);
            }
            assert forall|k: int| 0 <= k < y@.len() implies is_digit(#[trigger] y@[k]) == is_digit(y@[0]) by {
                assert(y@[k] == v[k]);
            }
            assert(u.skip(run_len(u)) =~= a@.skip(ae as int));
            assert(v.skip(run_len(v)) =~= b@.skip(be as int));
            lemma_lex_prefix(pre, segments(u), segments(v), lt);
            lemma_lex_prefix(pre, segments(v), segments(u), lt);
            lemma_segment_lt_strict_total();
            assert(segments(u)[0] == segment_of(x@));
            assert(segments(v)[0] == segment_of(y@));
        }
        match compare_segments(&x, &y) {
            Rel::Before => {
                return Rel::Before;
            },
            Rel::After => {
                return Rel::After;
            },
            Rel::Same => {
                proof {
                    let head = seq![segment_of(x@)];
                    assert(segments(a@) =~= (pre + head) + segments(a@.skip(ae as int)));
                    assert(segments(b@) =~= (pre + head) + segments(b@.skip(be as int)));
                    pre = pre + head;
                }
            },
        }
        i = ae;
        j = be;
    }
    proof {
        lemma_lex_prefix(pre, segments(a@.skip(i as int)), segments(b@.skip(j as int)), lt);
        lemma_lex_prefix(pre, segments(b@.skip(j as int)), segments(a@.skip(i as int)), lt);
        if i < a@.len() {
            assert(segments(a@.skip(i as int)).len() > 0);
        }
        if j < b@.len() {
            assert(segments(b@.skip(j as int)).len() > 0);
        }
    }
    if i < a.len() {
        Rel::After
    } else if j < b.len() {
        Rel::Before
    } else {
        assert(a@.skip(i as int) =~= b@.skip(j as int));
        Rel::Same
    }
}

/// Compares two IDs.
fn compare_ids(a: &ID, b: &ID) -> (r: Rel)
    ensures
        stands(r, key(a@), key(b@), lexed(lexed(segment_lt()))),
{
    let ghost lt = lexed(segment_lt());
    let u = chars_of(a.as_str());
    let v = chars_of(b.as_str());
    let mut i: usize = 0;
    let mut j: usize = 0;
    let ghost mut pre: Key = Seq::empty();
    proof {
        assert(u@.skip(0) =~= u@);
        assert(v@.skip(0) =~= v@);
        assert(key(u@) =~= pre + key(u@));
        assert(key(v@) =~= pre + key(v@));
    }
    loop
        invariant
            u@ == a@,
            v@ == b@,
            i <= u@.len(),
            j <= v@.len(),
            lt == lexed(segment_lt()),
            key(u@) == pre + key(u@.skip(i as int)),
            key(v@) == pre + key(v@.skip(j as int)),
        decreases u@.len() - i,
    {
        let ie = position_from(&u, '/', i);
        let je = position_from(&v, '/', j);
        let x = slice_of(&u, i, ie);
        let y = slice_of(&v, j, je);
        let ghost s = u@.skip(i as int);
        let ghost t = v@.skip(j as int);
        proof {
            lemma_find_char(s, '/');
            lemma_find_char(t, '/');
            assert(x@ =~= s.take(ie - i));
            assert(y@ =~= t.take(je - j));
            assert(s.take(s.len() as int) =~= s);
            assert(t.take(t.len() as int) =~= t);
            lemma_lex_prefix(pre, key(s), key(t), lt);
            lemma_lex_prefix(pre, key(t), key(s), lt);
            lemma_part_lt_strict_total();
            assert(key(s)[0] == segments(x@));
            assert(key(t)[0] == segments(y@));
        }
        match compare_luhmann(&x, &y) {
            Rel::Before => {
                return Rel::Before;
            },
            Rel::After => {
                return Rel::After;
            },
            Rel::Same => {},
        }
        if ie == u.len() {
            if je == v.len() {
                return Rel::Same;
            }
            proof {
                lemma_key_nonempty(t.skip(je - j + 1));
                assert(key(s).skip(1) =~= Seq::<Seq<Segment>>::empty());
                assert(key(t).skip(1) =~= key(t.skip(je - j + 1)));
                assert(lex_lt(key(s).skip(1), key(t).skip(1), lt));
            }
            return Rel::Before;
        }
        if je == v.len() {
            proof {
                lemma_key_nonempty(s.skip(ie - i + 1));
                assert(key(t).skip(1) =~= Seq::<Seq<Segment>>::empty());
                assert(key(s).skip(1) =~= key(s.skip(ie - i + 1)));
                assert(lex_lt(key(t).skip(1), key(s).skip(1), lt));
            }
            return Rel::After;
        }
        proof {
            let head = seq![segments(x@)];
            assert(s.skip(ie - i + 1) =~= u@.skip(ie + 1));
            assert(t.skip(je - j + 1) =~= v@.skip(je + 1));
            assert(key(u@) =~= (pre + head) + key(u@.skip(ie + 1)));
            assert(key(v@) =~= (pre + head) + key(v@.skip(je + 1)));
            pre = pre + head;
        }
        i = ie + 1;
        j = je + 1;
    }
}

impl ID {
    /// Compares two IDs: section by section, segment by segment, numbers by value, so
    /// that `9` comes before `10`.
    pub fn cmp(&self, other: &ID) -> (r: Ordering)
        ensures
            r == id_order(self@, other@),
    {
        proof {
            lemma_id_lt_total(self@, other@);
        }
        match compare_ids(self, other) {
            Rel::Before => Ordering::Less,
            Rel::Same => Ordering::Equal,
            Rel::After => Ordering::Greater,
        }
    }

    /// Whether `self` comes before `other`.
    pub fn comes_before(&self, other: &ID) -> (r: bool)
        ensures
            r == id_lt(self@, other@),
    {
        proof {
            lemma_id_lt_total(self@, other@);
        }
        match compare_ids(self, other) {
            Rel::Before => true,
            Rel::Same => false,
            Rel::After => false,
        }
    }
}

impl PartialOrd for ID {
    fn partial_cmp(&self, other: &ID) -> (r: Option<Ordering>) {
        Some(self.cmp(other))
    }
}

impl vstd::std_specs::cmp::PartialOrdSpecImpl for ID {
    open spec fn obeys_partial_cmp_spec() -> bool {
        true
    }

    open spec fn partial_cmp_spec(&self, other: &ID) -> Option<Ordering> {
        Some(id_order(self@, other@))
    }
}

} // verus!
