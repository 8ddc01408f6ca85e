//! Putting notes in the order of their IDs.

use crate::id::ID;
use crate::note::{Note, NoteView};
use crate::order::{
    id_le, id_lt, key, lemma_id_le_transitive, lemma_id_lt_total, lemma_id_lt_transitive, Key,
};
use vstd::prelude::*;

verus! {

/// No note stands before one that comes earlier.
pub open spec fn in_order(s: Seq<NoteView>) -> bool {
    forall|i: int, j: int| 0 <= i < j < s.len() ==> id_le(#[trigger] s[i].id, #[trigger] s[j].id)
}

/// The notes of `s` whose IDs count as `k`, as they stand.
pub open spec fn with_key(s: Seq<NoteView>, k: Key) -> Seq<NoteView>
    decreases s.len(),
{
    if s.len() == 0 {
        s
    } else if key(s.last().id) == k {
        with_key(s.drop_last(), k).push(s.last())
    } else {
        with_key(s.drop_last(), k)
    }
}

/// `output` holds the notes of `input` in the order of their IDs; notes whose IDs count
/// the same keep the order that they had.
pub open spec fn arranged(input: Seq<NoteView>, output: Seq<NoteView>) -> bool {
    &&& in_order(output)
    &&& forall|k: Key| #[trigger] with_key(output, k) == with_key(input, k)
    &&& output.to_multiset() == input.to_multiset()
}

/// Values that stand for a note: the note itself, or a reference to it.
pub trait Slip: Sized {
    /// The note.
    spec fn slip(&self) -> NoteView;

    /// The note's ID.
    fn slip_id(&self) -> (r: &ID)
        ensures
            r@ == self.slip().id,
    ;
}

impl Slip for Note {
    open spec fn slip(&self) -> NoteView {
        self@
    }

    fn slip_id(&self) -> (r: &ID) {
        self.id()
    }
}

impl Slip for &Note {
    open spec fn slip(&self) -> NoteView {
        (*self)@
    }

    fn slip_id(&self) -> (r: &ID) {
        self.id()
    }
}

/// The notes that a list stands for.
pub open spec fn slips<T: Slip>(s: Seq<T>) -> Seq<NoteView> {
    s.map_values(|t: T| t.slip())
}

/// `with_key` goes through a list from front to back.
pub proof fn lemma_with_key_concat(a: Seq<NoteView>, b: Seq<NoteView>, k: Key)
    ensures
        with_key(a + b, k) == with_key(a, k) + with_key(b, k),
    decreases b.len(),
{
    if b.len() == 0 {
        assert(a + b =~= a);
        assert(with_key(a, k) + with_key(b, k) =~= with_key(a, k));
    } else {
        assert((a + b).drop_last() =~= a + b.drop_last());
        lemma_with_key_concat(a, b.drop_last(), k);
        assert(with_key(a + b, k) =~= with_key(a, k) + with_key(b, k));
    }
}

/// `with_key` of a list that ends in `x`.
proof fn lemma_with_key_push(a: Seq<NoteView>, x: NoteView, k: Key)
    ensures
        with_key(a.push(x), k) == (if key(x.id) == k {
            with_key(a, k).push(x)
        } else {
            with_key(a, k)
        }),
{
    assert(a.push(x).drop_last() =~= a);
}

/// `with_key` of a list that begins with `x`.
proof fn lemma_with_key_cons(x: NoteView, a: Seq<NoteView>, k: Key)
    ensures
        with_key(seq![x] + a, k) == (if key(x.id) == k {
            seq![x] + with_key(a, k)
        } else {
            with_key(a, k)
        }),
{
    lemma_with_key_concat(seq![x], a, k);
    lemma_with_key_push(Seq::empty(), x, k);
    assert(Seq::<NoteView>::empty().push(x) =~= seq![x]);
    assert(with_key(Seq::empty(), k) =~= Seq::<NoteView>::empty());
    assert(with_key(seq![x], k) =~= (if key(x.id) == k {
        seq![x]
    } else {
        Seq::empty()
    }));
    assert(Seq::<NoteView>::empty() + with_key(a, k) =~= with_key(a, k));
}

/// A list in which no ID counts as `k`.
proof fn lemma_with_key_none(a: Seq<NoteView>, k: Key)
    requires
        forall|i: int| 0 <= i < a.len() ==> key(#[trigger] a[i].id) != k,
    ensures
        with_key(a, k) == Seq::<NoteView>::empty(),
    decreases a.len(),
{
    if a.len() > 0 {
        assert forall|i: int| 0 <= i < a.drop_last().len() implies key(#[trigger] a.drop_last()[i].id) != k by {
            assert(a[i].id == a.drop_last()[i].id);
        }
        lemma_with_key_none(a.drop_last(), k);
    }
}

/// What two runs and the notes already taken off them amount to.
spec fn merging(a: Seq<NoteView>, b: Seq<NoteView>, tail: Seq<NoteView>, k: Key) -> Seq<NoteView> {
    with_key(a, k) + with_key(b, k) + with_key(tail, k)
}

/// Taking the last note off the second run.
proof fn lemma_take_second(a: Seq<NoteView>, b: Seq<NoteView>, tail: Seq<NoteView>, x: NoteView, k: Key)
    ensures
        merging(a, b.push(x), tail, k) == merging(a, b, seq![x] + tail, k),
{
    lemma_with_key_push(b, x, k);
    lemma_with_key_cons(x, tail, k);
    assert(merging(a, b.push(x), tail, k) =~= merging(a, b, seq![x] + tail, k));
}

/// Taking the last note off the first run, when it comes after all of the second.
proof fn lemma_take_first(a: Seq<NoteView>, b: Seq<NoteView>, tail: Seq<NoteView>, x: NoteView, k: Key)
    requires
        forall|i: int| 0 <= i < b.len() ==> id_lt(#[trigger] b[i].id, x.id),
    ensures
        merging(a.push(x), b, tail, k) == merging(a, b, seq![x] + tail, k),
{
    lemma_with_key_push(a, x, k);
    lemma_with_key_cons(x, tail, k);
    if key(x.id) == k {
        assert forall|i: int| 0 <= i < b.len() implies key(#[trigger] b[i].id) != k by {
            lemma_id_lt_total(b[i].id, x.id);
        }
        lemma_with_key_none(b, k);
    }
    assert(merging(a.push(x), b, tail, k) =~= merging(a, b, seq![x] + tail, k));
}

/// Every note of `a` may stand before every note of `b`.
spec fn may_precede(a: Seq<NoteView>, b: Seq<NoteView>) -> bool {
    forall|i: int, j: int|
        0 <= i < a.len() && 0 <= j < b.len() ==> id_le(#[trigger] a[i].id, #[trigger] b[j].id)
}

/// Putting a note in front of notes that it may precede.
proof fn lemma_in_order_cons(x: NoteView, t: Seq<NoteView>)
    requires
        in_order(t),
        may_precede(seq![x], t),
    ensures
        in_order(seq![x] + t),
{
    let s = seq![x] + t;
    assert forall|i: int, j: int| 0 <= i < j < s.len() implies id_le(#[trigger] s[i].id, #[trigger] s[j].id) by {
        assert(s[j] == t[j - 1]);
        if i == 0 {
            assert(id_le(seq![x][0].id, t[j - 1].id));
        } else {
            assert(s[i] == t[i - 1]);
        }
    }
}

/// A run in order, without its last note.
proof fn lemma_in_order_drop(s: Seq<NoteView>)
    requires
        in_order(s),
        s.len() > 0,
    ensures
        in_order(s.drop_last()),
        may_precede(s.drop_last(), seq![s.last()]),
{
    let t = s.drop_last();
    assert forall|i: int, j: int| 0 <= i < j < t.len() implies id_le(#[trigger] t[i].id, #[trigger] t[j].id) by {
        assert(t[i] == s[i] && t[j] == s[j]);
    }
    assert forall|i: int, j: int| 0 <= i < t.len() && 0 <= j < 1 implies id_le(
        #[trigger] t[i].id,
        #[trigger] seq![s.last()][j].id,
    ) by {
        assert(t[i] == s[i]);
        assert(id_le(s[i].id, s[s.len() - 1].id));
    }
}

/// Merges two runs in order into one. Where IDs count the same, notes of the first run
/// come first.
fn merge_runs<T: Slip>(first: Vec<T>, second: Vec<T>) -> (r: Vec<T>)
    requires
        in_order(slips(first@)),
        in_order(slips(second@)),
    ensures
        arranged(slips(first@) + slips(second@), slips(r@)),
{
    let ghost whole = slips(first@) + slips(second@);
    let mut a = first;
    let mut b = second;
    // The largest notes, last one first, and the same in order.
    let mut taken: Vec<T> = Vec::new();
    let ghost mut tail = Seq::<NoteView>::empty();
    proof {
        assert(slips(taken@).reverse() =~= tail);
        assert forall|k: Key| #[trigger] with_key(whole, k) == merging(slips(a@), slips(b@), tail, k) by {
            lemma_with_key_concat(slips(a@), slips(b@), k);
            assert(with_key(tail, k) =~= Seq::<NoteView>::empty());
            assert(merging(slips(a@), slips(b@), tail, k) =~= with_key(whole, k));
        }
        vstd::seq_lib::lemma_multiset_commutative(slips(a@), slips(b@));
        lemma_none_counted();
        assert(whole.to_multiset() =~= slips(a@).to_multiset().add(slips(b@).to_multiset()).add(tail.to_multiset()));
    }
    while a.len() > 0 || b.len() > 0
        invariant
            slips(taken@).reverse() == tail,
            in_order(slips(a@)),
            in_order(slips(b@)),
            in_order(tail),
            may_precede(slips(a@), tail),
            may_precede(slips(b@), tail),
            forall|k: Key| #[trigger] with_key(whole, k) == merging(slips(a@), slips(b@), tail, k),
            whole.to_multiset() == slips(a@).to_multiset().add(slips(b@).to_multiset()).add(tail.to_multiset()),
        decreases a@.len() + b@.len(),
    {
        let from_first = if a.len() == 0 {
            false
        } else if b.len() == 0 {
            true
        } else {
            b[b.len() - 1].slip_id().comes_before(a[a.len() - 1].slip_id())
        };
        let ghost va = slips(a@);
        let ghost vb = slips(b@);
        let ghost old_tail = tail;
        let ghost old_taken = slips(taken@);
        if from_first {
            let x = a.pop();
            if let Some(x) = x {
                let ghost n = x.slip();
                taken.push(x);
                proof {
                    assert(slips(a@) =~= va.drop_last());
                    assert(va =~= slips(a@).push(n));
                    tail = seq![n] + tail;
                    assert(slips(taken@) =~= old_taken.push(n));
                    assert(slips(taken@).reverse() =~= tail);
                    lemma_in_order_drop(va);
                    assert(may_precede(seq![n], old_tail)) by {
                        assert(n == va[va.len() - 1]);
                    }
                    lemma_in_order_cons(n, old_tail);
                    assert forall|i: int| 0 <= i < vb.len() implies id_lt(#[trigger] vb[i].id, n.id) by {
                        lemma_before_last(vb, n, i);
                    }
                    lemma_precede_cons(slips(a@), n, old_tail);
                    assert(may_precede(vb, seq![n])) by {
                        assert forall|i: int, j: int| 0 <= i < vb.len() && 0 <= j < 1 implies id_le(
                            #[trigger] vb[i].id,
                            #[trigger] seq![n][j].id,
                        ) by {
                            lemma_id_lt_total(vb[i].id, n.id);
                        }
                    }
                    lemma_precede_cons(vb, n, old_tail);
                    assert forall|k: Key| #[trigger] with_key(whole, k) == merging(
                        slips(a@),
                        slips(b@),
                        tail,
                        k,
                    ) by {
                        lemma_take_first(slips(a@), vb, old_tail, n, k);
                    }
                    lemma_count_moved(slips(a@), n, old_tail);
                    assert(whole.to_multiset() =~= slips(a@).to_multiset().add(vb.to_multiset()).add(
                        tail.to_multiset(),
                    )) by {
                        assert(va.to_multiset().add(vb.to_multiset()).add(old_tail.to_multiset())
                            =~= va.to_multiset().add(old_tail.to_multiset()).add(vb.to_multiset()));
                    }
                }
            }
        } else {
            let x = b.pop();
            if let Some(x) = x {
                let ghost n = x.slip();
                taken.push(x);
                proof {
                    assert(slips(b@) =~= vb.drop_last());
                    assert(vb =~= slips(b@).push(n));
                    tail = seq![n] + tail;
                    assert(slips(taken@) =~= old_taken.push(n));
                    assert(slips(taken@).reverse() =~= tail);
                    lemma_in_order_drop(vb);
                    assert(may_precede(seq![n], old_tail)) by {
                        assert(n == vb[vb.len() - 1]);
                    }
                    lemma_in_order_cons(n, old_tail);
                    lemma_precede_cons(slips(b@), n, old_tail);
                    assert(may_precede(va, seq![n])) by {
                        assert forall|i: int, j: int| 0 <= i < va.len() && 0 <= j < 1 implies id_le(
                            #[trigger] va[i].id,
                            #[trigger] seq![n][j].id,
                        ) by {
                            let l = va.len() - 1;
                            assert(id_le(va[l].id, n.id));
                            if i < l {
                                assert(id_le(va[i].id, va[l].id));
                                lemma_id_le_transitive(va[i].id, va[l].id, n.id);
                            }
                        }
                    }
                    lemma_precede_cons(va, n, old_tail);
                    assert forall|k: Key| #[trigger] with_key(whole, k) == merging(
                        slips(a@),
                        slips(b@),
                        tail,
                        k,
                    ) by {
                        lemma_take_second(va, slips(b@), old_tail, n, k);
                    }
                    lemma_count_moved(slips(b@), n, old_tail);
                    assert(whole.to_multiset() =~= va.to_multiset().add(slips(b@).to_multiset()).add(
                        tail.to_multiset(),
                    )) by {
                        assert(va.to_multiset().add(vb.to_multiset()).add(old_tail.to_multiset())
                            =~= vb.to_multiset().add(old_tail.to_multiset()).add(va.to_multiset()));
                    }
                }
            }
        }
    }
    proof {
        assert(slips(a@) =~= Seq::<NoteView>::empty());
        assert(slips(b@) =~= Seq::<NoteView>::empty());
        assert forall|k: Key| #[trigger] with_key(tail, k) == with_key(whole, k) by {
            assert(with_key(whole, k) == merging(slips(a@), slips(b@), tail, k));
            assert(merging(slips(a@), slips(b@), tail, k) =~= with_key(tail, k));
        }
        lemma_none_counted();
        assert(tail.to_multiset() =~= whole.to_multiset());
        assert(arranged(whole, tail));
    }
    reversed(taken)
}

/// The same notes from back to front.
pub fn reversed<T: Slip>(v: Vec<T>) -> (r: Vec<T>)
    ensures
        slips(r@) == slips(v@).reverse(),
{
    let ghost whole = slips(v@).reverse();
    let mut left = v;
    let mut r: Vec<T> = Vec::new();
    assert(slips(r@) + slips(left@).reverse() =~= whole);
    while left.len() > 0
        invariant
            slips(r@) + slips(left@).reverse() == whole,
        decreases left@.len(),
    {
        let ghost vr = slips(r@);
        let ghost vl = slips(left@);
        if let Some(x) = left.pop() {
            r.push(x);
            proof {
                assert(slips(left@) =~= vl.drop_last());
                assert(vl.last() == x.slip());
                assert(slips(r@) =~= vr.push(x.slip()));
                assert(slips(r@) + slips(left@).reverse() =~= vr + vl.reverse());
            }
        }
    }
    assert(slips(r@) =~= whole);
    r
}

/// A note's key is found among the notes with that key.
proof fn lemma_with_key_has(s: Seq<NoteView>, k: Key)
    requires
        with_key(s, k).len() > 0,
    ensures
        exists|i: int| 0 <= i < s.len() && key((#[trigger] s[i]).id) == k,
    decreases s.len(),
{
    if key(s.last().id) == k {
        assert(s[s.len() - 1] == s.last());
    } else {
        lemma_with_key_has(s.drop_last(), k);
        let i = choose|i: int| 0 <= i < s.drop_last().len() && key((#[trigger] s.drop_last()[i]).id) == k;
        assert(s[i] == s.drop_last()[i]);
    }
}

/// There is only one way to put notes in order.
pub proof fn lemma_arranged_unique(input: Seq<NoteView>, a: Seq<NoteView>, b: Seq<NoteView>)
    requires
        arranged(input, a),
        arranged(input, b),
    ensures
        a == b,
{
    vstd::seq_lib::to_multiset_len(a);
    vstd::seq_lib::to_multiset_len(b);
    lemma_order_unique(a, b);
}

/// Lists in order that agree key by key agree.
proof fn lemma_order_unique(a: Seq<NoteView>, b: Seq<NoteView>)
    requires
        in_order(a),
        in_order(b),
        a.len() == b.len(),
        forall|k: Key| #[trigger] with_key(a, k) == with_key(b, k),
    ensures
        a == b,
    decreases a.len(),
{
    if a.len() == 0 {
        assert(a =~= b);
    } else {
        let x = a.last();
        let y = b.last();
        lemma_last_not_before(a, b);
        lemma_last_not_before(b, a);
        lemma_id_lt_total(x.id, y.id);
        let k = key(x.id);
        assert(with_key(a, k).last() == x);
        assert(with_key(b, k).last() == y);
        lemma_in_order_drop(a);
        lemma_in_order_drop(b);
        let a0 = a.drop_last();
        let b0 = b.drop_last();
        assert forall|j: Key| #[trigger] with_key(a0, j) == with_key(b0, j) by {
            assert(with_key(a, j) == with_key(b, j));
            if j == k {
                assert(with_key(a0, j) =~= with_key(a, j).drop_last());
                assert(with_key(b0, j) =~= with_key(b, j).drop_last());
            }
        }
        lemma_order_unique(a0, b0);
        assert(a =~= a0.push(x));
        assert(b =~= b0.push(y));
    }
}

/// The last note of one of two such lists does not come before that of the other.
proof fn lemma_last_not_before(a: Seq<NoteView>, b: Seq<NoteView>)
    requires
        in_order(a),
        a.len() > 0,
        b.len() > 0,
        forall|k: Key| #[trigger] with_key(a, k) == with_key(b, k),
    ensures
        !id_lt(a.last().id, b.last().id),
{
    let k = key(b.last().id);
    assert(with_key(b, k).len() > 0);
    assert(with_key(a, k) == with_key(b, k));
    lemma_with_key_has(a, k);
    let i = choose|i: int| 0 <= i < a.len() && key((#[trigger] a[i]).id) == k;
    let l = a.len() - 1;
    lemma_id_lt_total(a[i].id, b.last().id);
    if i < l {
        assert(id_le(a[i].id, a[l].id));
    }
}

/// Notes that are in order stay as they are.
pub proof fn lemma_arranged_same(s: Seq<NoteView>)
    requires
        in_order(s),
    ensures
        arranged(s, s),
{
}

/// An empty list counts nothing.
proof fn lemma_none_counted()
    ensures
        Seq::<NoteView>::empty().to_multiset() == vstd::multiset::Multiset::<NoteView>::empty(),
{
    broadcast use vstd::seq_lib::group_to_multiset_ensures;

    assert(Seq::<NoteView>::empty().to_multiset() =~= vstd::multiset::Multiset::<NoteView>::empty());
}

/// The notes of a run in order come before whatever its last note comes before.
proof fn lemma_before_last(s: Seq<NoteView>, n: NoteView, i: int)
    requires
        in_order(s),
        0 <= i < s.len(),
        id_lt(s[s.len() - 1].id, n.id),
    ensures
        id_lt(s[i].id, n.id),
{
    let l = s.len() - 1;
    if i < l {
        assert(id_le(s[i].id, s[l].id));
        lemma_id_lt_total(s[i].id, n.id);
        lemma_id_lt_total(s[i].id, s[l].id);
        if !id_lt(s[i].id, n.id) {
            if key(s[i].id) == key(s[l].id) {
            } else {
                lemma_id_lt_transitive(s[i].id, s[l].id, n.id);
            }
        }
    }
}

/// What may precede a note and the notes behind it may precede them together.
proof fn lemma_precede_cons(a: Seq<NoteView>, n: NoteView, t: Seq<NoteView>)
    requires
        may_precede(a, seq![n]),
        may_precede(seq![n], t),
    ensures
        may_precede(a, seq![n] + t),
{
    let s = seq![n] + t;
    assert forall|i: int, j: int| 0 <= i < a.len() && 0 <= j < s.len() implies id_le(
        #[trigger] a[i].id,
        #[trigger] s[j].id,
    ) by {
        assert(id_le(a[i].id, seq![n][0].id));
        if j > 0 {
            assert(s[j] == t[j - 1]);
            assert(id_le(seq![n][0].id, t[j - 1].id));
            lemma_id_le_transitive(a[i].id, n.id, t[j - 1].id);
        }
    }
}

/// A note moved from the end of one list to the front of another is counted once.
proof fn lemma_count_moved(a: Seq<NoteView>, n: NoteView, t: Seq<NoteView>)
    ensures
        a.push(n).to_multiset().add(t.to_multiset()) == a.to_multiset().add((seq![n] + t).to_multiset()),
{
    broadcast use vstd::seq_lib::group_to_multiset_ensures;

    vstd::seq_lib::lemma_multiset_commutative(seq![n], t);
    assert(seq![n] =~= Seq::<NoteView>::empty().push(n));
    assert(a.push(n).to_multiset().add(t.to_multiset()) =~= a.to_multiset().add((seq![n] + t).to_multiset()));
}

/// Sorts notes by ID. Notes whose IDs count the same keep their order.
pub fn sort_notes<T: Slip>(notes: Vec<T>) -> (r: Vec<T>)
    ensures
        arranged(slips(notes@), slips(r@)),
    decreases notes@.len(),
{
    let ghost all = slips(notes@);
    let n = notes.len();
    if n <= 1 {
        return notes;
    }
    let mut first = notes;
    let second = first.split_off(n / 2);
    let ghost va = slips(first@);
    let ghost vb = slips(second@);
    assert(va + vb =~= all);
    let a = sort_notes(first);
    let b = sort_notes(second);
    let r = merge_runs(a, b);
    proof {
        let sa = slips(a@);
        let sb = slips(b@);
        assert forall|k: Key| #[trigger] with_key(slips(r@), k) == with_key(all, k) by {
            lemma_with_key_concat(va, vb, k);
            lemma_with_key_concat(sa, sb, k);
            assert(with_key(slips(r@), k) == with_key(sa + sb, k));
            assert(with_key(sa, k) == with_key(va, k));
            assert(with_key(sb, k) == with_key(vb, k));
        }
        vstd::seq_lib::lemma_multiset_commutative(va, vb);
        vstd::seq_lib::lemma_multiset_commutative(sa, sb);
    }
    r
}

} // verus!
