//! Subtrees: what stands below an ID, step for step.

use crate::id::{lemma_run_start, local_start, parent_text, run_start};
use crate::lex::{lemma_lex_prefix, lex_lt, lexed};
use crate::lineage::{lemma_segments_end, lemma_segments_one};
use crate::numeral::{all_digits, decimal, digit_char, digit_value, is_digit, value};
use crate::order::{
    id_lt, key, key_within, law_parent_comes_before_child, law_subtree_stands_together,
    lemma_child_within_parent, lemma_id_lt_transitive, lemma_key_nonempty, lemma_key_one,
    lemma_key_split, lemma_local_part, lemma_run_len, lemma_within_transitive, run_len, segment_lt,
    segment_of, segments, Segment,
};
use crate::text::{find_char, lemma_find_char};
use vstd::prelude::*;

verus! {

/// The ID that `steps` steps from parent to parent lead to.
pub open spec fn climbed(s: Seq<char>, steps: nat) -> Seq<char>
    decreases steps,
{
    if steps == 0 {
        s
    } else {
        climbed(parent_text(s), (steps - 1) as nat)
    }
}

/// `s` is `a`, or stands below it: steps from parent to parent lead to `a`.
pub open spec fn stands_below(s: Seq<char>, a: Seq<char>) -> bool {
    exists|steps: nat| #[trigger] climbed(s, steps) == a
}

/// A zero stands at `i`, before other digits of a number that begins with it.
pub open spec fn leading_zero(s: Seq<char>, i: int) -> bool {
    &&& 0 <= i
    &&& i + 1 < s.len()
    &&& s[i] == '0'
    &&& i == 0 || !is_digit(s[i - 1])
    &&& is_digit(s[i + 1])
}

/// No number has a leading zero.
pub open spec fn plain(s: Seq<char>) -> bool {
    forall|i: int| !#[trigger] leading_zero(s, i)
}

// ── Plain IDs are known by their keys ────────────────────────────────────────

/// A run of digits without a leading zero is the numeral of the number it names.
proof fn lemma_decimal_of_value(s: Seq<char>)
    requires
        s.len() > 0,
        all_digits(s),
        s.len() > 1 ==> s[0] != '0',
    ensures
        decimal(value(s)) == s,
    decreases s.len(),
{
    reveal_with_fuel(value, 2);
    let d = digit_value(s.last());
    assert(is_digit(s[s.len() - 1]));
    assert(digit_char(d) == s.last());
    let r = s.drop_last();
    if s.len() == 1 {
        assert(r =~= Seq::<char>::empty());
        assert(decimal(value(s)) =~= s);
    } else {
        assert forall|i: int| 0 <= i < r.len() implies is_digit(#[trigger] r[i]) by {
            assert(r[i] == s[i]);
        }
        assert(r[0] == s[0]);
        lemma_decimal_of_value(r);
        let v = value(r);
        if v == 0 {
            assert(decimal(0)[0] == '0');
        }
        assert((10 * v + d) / 10 == v && (10 * v + d) % 10 == d) by (nonlinear_arith)
            requires
                d < 10,
        ;
        assert(decimal(value(s)) =~= s);
    }
}

/// A run of one kind in a plain part has no leading zero.
proof fn lemma_run_plain(s: Seq<char>)
    requires
        s.len() > 0,
        plain(s),
    ensures
        is_digit(s[0]) ==> decimal(value(s.take(run_len(s)))) == s.take(run_len(s)),
{
    if is_digit(s[0]) {
        lemma_run_len(s);
        let x = s.take(run_len(s));
        assert forall|i: int| 0 <= i < x.len() implies is_digit(#[trigger] x[i]) by {
            assert(x[i] == s[i]);
        }
        if x.len() > 1 && x[0] == '0' {
            assert(is_digit(s[1]));
            assert(leading_zero(s, 0));
        }
        lemma_decimal_of_value(x);
    }
}

/// What follows a run of a plain part is plain.
proof fn lemma_rest_plain(s: Seq<char>)
    requires
        s.len() > 0,
        plain(s),
    ensures
        plain(s.skip(run_len(s))),
{
    lemma_run_len(s);
    let k = run_len(s);
    let t = s.skip(k);
    assert forall|i: int| !#[trigger] leading_zero(t, i) by {
        if leading_zero(t, i) {
            if i == 0 {
                assert(is_digit(s[k - 1]) == is_digit(s[0]));
                assert(t[0] == s[k]);
            } else {
                assert(t[i - 1] == s[i + k - 1]);
            }
            assert(t[i] == s[i + k] && t[i + 1] == s[i + k + 1]);
            assert(leading_zero(s, i + k));
        }
    }
}

/// Plain parts with the same segments are the same.
proof fn lemma_segments_tell(a: Seq<char>, b: Seq<char>)
    requires
        plain(a),
        plain(b),
        segments(a) == segments(b),
    ensures
        a == b,
    decreases a.len(),
{
    if a.len() == 0 {
        if b.len() > 0 {
            assert(segments(b).len() > 0);
        }
        assert(a =~= b);
    } else {
        assert(segments(a).len() > 0);
        assert(b.len() > 0);
        lemma_run_len(a);
        lemma_run_len(b);
        let i = run_len(a);
        let j = run_len(b);
        let x = a.take(i);
        let y = b.take(j);
        assert(segments(a)[0] == segment_of(x));
        assert(segments(b)[0] == segment_of(y));
        assert(x[0] == a[0] && y[0] == b[0]);
        lemma_run_plain(a);
        lemma_run_plain(b);
        assert(x == y);
        lemma_rest_plain(a);
        lemma_rest_plain(b);
        assert(segments(a).skip(1) =~= segments(a.skip(i)));
        assert(segments(b).skip(1) =~= segments(b.skip(j)));
        lemma_segments_tell(a.skip(i), b.skip(j));
        assert(a =~= x + a.skip(i));
        assert(b =~= y + b.skip(j));
    }
}

/// The sections of a plain ID are plain.
proof fn lemma_sections_plain(s: Seq<char>, i: int)
    requires
        plain(s),
        0 <= i < s.len(),
        s[i] == '/',
    ensures
        plain(s.take(i)),
        plain(s.skip(i + 1)),
{
    lemma_prefix_plain(s, i);
    let t = s.skip(i + 1);
    assert forall|k: int| !#[trigger] leading_zero(t, k) by {
        if leading_zero(t, k) {
            if k > 0 {
                assert(t[k - 1] == s[k + i]);
            }
            assert(t[k] == s[k + i + 1] && t[k + 1] == s[k + i + 2]);
            assert(leading_zero(s, k + i + 1));
        }
    }
}

/// What a plain ID begins with is plain.
proof fn lemma_prefix_plain(s: Seq<char>, n: int)
    requires
        plain(s),
        0 <= n <= s.len(),
    ensures
        plain(s.take(n)),
{
    let t = s.take(n);
    assert forall|k: int| !#[trigger] leading_zero(t, k) by {
        if leading_zero(t, k) {
            if k > 0 {
                assert(t[k - 1] == s[k - 1]);
            }
            assert(t[k] == s[k] && t[k + 1] == s[k + 1]);
            assert(leading_zero(s, k));
        }
    }
}

/// Plain IDs with the same key are the same: no two of them stand at one place in the
/// order.
pub proof fn law_key_tells(a: Seq<char>, b: Seq<char>)
    requires
        plain(a),
        plain(b),
        key(a) == key(b),
    ensures
        a == b,
    decreases a.len(),
{
    lemma_find_char(a, '/');
    lemma_find_char(b, '/');
    let i = find_char(a, '/');
    let j = find_char(b, '/');
    if i >= a.len() {
        if j < b.len() {
            lemma_key_nonempty(b.skip(j + 1));
            assert(key(b).len() == 1 + key(b.skip(j + 1)).len());
        }
        assert(key(a)[0] == segments(a) && key(b)[0] == segments(b));
        lemma_segments_tell(a, b);
    } else {
        lemma_key_nonempty(a.skip(i + 1));
        assert(key(a).len() == 1 + key(a.skip(i + 1)).len());
        assert(j < b.len());
        lemma_sections_plain(a, i);
        lemma_sections_plain(b, j);
        assert(key(a)[0] == segments(a.take(i)) && key(b)[0] == segments(b.take(j)));
        lemma_segments_tell(a.take(i), b.take(j));
        assert(key(a).skip(1) =~= key(a.skip(i + 1)));
        assert(key(b).skip(1) =~= key(b.skip(j + 1)));
        law_key_tells(a.skip(i + 1), b.skip(j + 1));
        assert(a =~= a.take(i) + seq!['/'] + a.skip(i + 1));
        assert(b =~= b.take(j) + seq!['/'] + b.skip(j + 1));
    }
}

// ── Steps up ─────────────────────────────────────────────────────────────────

/// What one step up takes from the key: the last segment, or the last section where that
/// has no more than one.
proof fn lemma_parent_key(s: Seq<char>)
    ensures
        parent_text(s) == s ==> key(s).len() == 1 && key(s)[0].len() <= 1,
        parent_text(s) != s ==> {
            ||| {
                &&& key(parent_text(s)).len() == key(s).len()
                &&& key(parent_text(s)).drop_last() == key(s).drop_last()
                &&& key(s).last().len() > 0
                &&& key(parent_text(s)).last() == key(s).last().drop_last()
                &&& key(parent_text(s)).last().len() > 0
            }
            ||| key(parent_text(s)) == key(s).drop_last() && key(s).last().len() <= 1
        },
        key(s).len() > 0,
        key(parent_text(s)).len() > 0,
        parent_text(s).len() <= s.len(),
        parent_text(s) == s.take(parent_text(s).len() as int),
{
    let p = parent_text(s);
    let k = local_start(s);
    let local = s.skip(k);
    let r = run_start(local);
    lemma_local_part(s);
    lemma_key_nonempty(s);
    lemma_key_nonempty(p);
    if local.len() == 0 {
        assert(r == 0);
        assert(segments(local) =~= Seq::<Segment>::empty());
    } else {
        lemma_run_start(local);
        let x = local.take(r);
        let t = local.skip(r);
        assert(local =~= x + t);
        assert(t.last() == local.last());
        assert forall|i: int| 0 <= i < t.len() implies is_digit(#[trigger] t[i]) == is_digit(local.last())
            && t[i] != '/' by {
            assert(t[i] == local[r + i]);
        }
        lemma_segments_one(t, is_digit(local.last()));
        if r == 0 {
            assert(t =~= local);
        } else {
            assert(x.last() == local[r - 1]);
            lemma_segments_end(x, t, is_digit(local.last()));
            assert(segments(local).drop_last() =~= segments(x));
            assert(segments(x).len() > 0);
        }
    }
    if r > 0 {
        let x = local.take(r);
        if k > 0 {
            let a = s.take(k - 1);
            assert(p =~= a + seq!['/'] + x);
            lemma_key_split(a, local);
            lemma_key_split(a, x);
            assert(key(p).drop_last() =~= key(a));
            assert(key(s).drop_last() =~= key(a));
        } else {
            assert(p =~= x);
            lemma_key_one(local);
            lemma_key_one(x);
            assert(key(p).drop_last() =~= key(s).drop_last());
        }
    } else if k > 0 {
        lemma_key_split(p, local);
        assert(key(s).drop_last() =~= key(p));
    } else {
        lemma_key_one(local);
    }
    assert(p =~= s.take(p.len() as int));
}

/// What stands below an ID has a key that begins with the ID's, and comes after it.
pub proof fn law_below_comes_after(s: Seq<char>, a: Seq<char>)
    requires
        stands_below(s, a),
    ensures
        key_within(key(a), key(s)),
        s != a ==> id_lt(a, s),
{
    let steps = choose|steps: nat| #[trigger] climbed(s, steps) == a;
    lemma_climbed_within(s, a, steps);
}

/// `law_below_comes_after`, by the number of steps.
proof fn lemma_climbed_within(s: Seq<char>, a: Seq<char>, steps: nat)
    requires
        climbed(s, steps) == a,
    ensures
        key_within(key(a), key(s)),
        s != a ==> id_lt(a, s),
    decreases steps,
{
    let p = parent_text(s);
    if steps == 0 {
        lemma_key_nonempty(s);
        let k = key(s);
        assert(k.take(k.len() - 1) =~= k.drop_last());
        assert(k.last() =~= k.last().subrange(0, k.last().len() as int));
    } else {
        lemma_climbed_within(p, a, (steps - 1) as nat);
        if p != s {
            lemma_child_within_parent(s, p);
            lemma_within_transitive(key(a), key(p), key(s));
            law_parent_comes_before_child(s, p);
            if p != a {
                lemma_id_lt_transitive(a, p, s);
            }
        }
    }
}

/// What stands below an ID with an empty section at its end has that section too.
proof fn lemma_below_empty(s: Seq<char>, a: Seq<char>, steps: nat)
    requires
        climbed(s, steps) == a,
        key(a).last().len() == 0,
    ensures
        key(s).len() >= key(a).len(),
        key(s).take(key(a).len() - 1) == key(a).drop_last(),
        key(s)[key(a).len() - 1].len() == 0,
    decreases steps,
{
    let p = parent_text(s);
    let n = key(a).len() - 1;
    lemma_key_nonempty(a);
    if steps == 0 {
        assert(key(s).take(n) =~= key(a).drop_last());
    } else {
        lemma_below_empty(p, a, (steps - 1) as nat);
        lemma_parent_key(s);
        if p != s {
            if key(p).len() == key(s).len() {
                assert(n < key(p).len() - 1);
                assert(key(p).drop_last()[n] == key(s).drop_last()[n]);
                assert forall|i: int| 0 <= i < n implies key(s)[i] == key(a)[i] by {
                    assert(key(p).drop_last()[i] == key(s).drop_last()[i]);
                    assert(key(p).take(n)[i] == key(a).drop_last()[i]);
                }
            } else {
                assert(key(p)[n] == key(s)[n]);
                assert forall|i: int| 0 <= i < n implies key(s)[i] == key(a)[i] by {
                    assert(key(p)[i] == key(s)[i]);
                    assert(key(p).take(n)[i] == key(a).drop_last()[i]);
                }
            }
            assert(key(s).take(n) =~= key(a).drop_last());
        }
    }
}

/// An ID whose key begins with that of another stands below it, both being plain, unless
/// it fills a section that the other leaves empty.
proof fn lemma_within_is_below(a: Seq<char>, s: Seq<char>)
    requires
        plain(a),
        plain(s),
        key_within(key(a), key(s)),
        key(a).last().len() > 0 || key(s)[key(a).len() - 1].len() == 0,
    ensures
        stands_below(s, a),
    decreases s.len(),
{
    if key(a) == key(s) {
        law_key_tells(a, s);
        assert(climbed(s, 0) == a);
    } else {
        let p = parent_text(s);
        let ka = key(a);
        let ks = key(s);
        let kp = key(p);
        let n = ka.len() - 1;
        lemma_parent_key(s);
        assert(ka.last() == ks[n].subrange(0, ka.last().len() as int));
        if ka.len() == ks.len() {
            if ka.last().len() == ks.last().len() {
                assert(ka.last() =~= ks.last());
                assert(ka =~= ks) by {
                    assert forall|i: int| 0 <= i < n implies ka[i] == ks[i] by {
                        assert(ks.take(n)[i] == ka.drop_last()[i]);
                    }
                }
            }
            assert(ka.last().len() < ks.last().len());
            assert(ka.last().len() > 0);
        }
        assert(p != s);
        lemma_child_within_parent(s, p);
        assert(ka.len() <= kp.len());
        assert forall|i: int| 0 <= i < n implies kp[i] == ka[i] by {
            assert(ks.take(n)[i] == ka.drop_last()[i]);
            assert(ks.drop_last()[i] == ks[i]);
            if kp.len() == ks.len() {
                assert(kp.drop_last()[i] == ks.drop_last()[i]);
            }
        }
        assert(kp.take(n) =~= ka.drop_last());
        if kp.len() == ks.len() && n < ks.len() - 1 {
            assert(kp.drop_last()[n] == ks.drop_last()[n]);
        }
        assert(ka.last() =~= kp[n].subrange(0, ka.last().len() as int));
        lemma_prefix_plain(s, p.len() as int);
        lemma_within_is_below(a, p);
        let steps = choose|steps: nat| #[trigger] climbed(p, steps) == a;
        assert(climbed(s, steps + 1) == a);
    }
}

/// A subtree stands together, step for step: what comes after an ID without standing
/// below it comes after everything that stands below it. Numbers are written without
/// leading zeros.
pub proof fn law_nothing_between(a: Seq<char>, d: Seq<char>, b: Seq<char>)
    requires
        plain(a),
        plain(b),
        stands_below(d, a),
        id_lt(a, b),
        !stands_below(b, a),
    ensures
        id_lt(d, b),
{
    let ka = key(a);
    let kd = key(d);
    let kb = key(b);
    law_below_comes_after(d, a);
    if !key_within(ka, kb) {
        law_subtree_stands_together(a, d, b);
    } else if ka.last().len() == 0 && kb[ka.len() - 1].len() > 0 {
        let n = ka.len() - 1;
        let steps = choose|steps: nat| #[trigger] climbed(d, steps) == a;
        lemma_below_empty(d, a, steps);
        let lt = lexed(segment_lt());
        assert(kd =~= ka.drop_last() + kd.skip(n));
        assert(kb =~= ka.drop_last() + kb.skip(n));
        assert(kd.skip(n)[0] == kd[n]);
        assert(kb.skip(n)[0] == kb[n]);
        assert(lt(kd[n], kb[n]));
        assert(lex_lt(kd.skip(n), kb.skip(n), lt));
        lemma_lex_prefix(ka.drop_last(), kd.skip(n), kb.skip(n), lt);
    } else {
        lemma_within_is_below(a, b);
    }
}

} // verus!
