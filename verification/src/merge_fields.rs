//! What a merge comes to, note by note and field by field.

use crate::id::next_sibling_text;
use crate::laws::lemma_spot;
use crate::merge::{
    free_sibling, ids, is_free_number, last_sibling, lemma_free_number_exists,
    lemma_siblings_left, merged, merged_one, moved_id, renames_in, sides, siblings_left, united,
    with_links_of, Deed, Place,
};
use crate::merge_laws::{
    apart, descends, free_of, joined, law_merge_keeps_ids_apart, law_ours_survive,
    lemma_descends, lemma_merged_parts, lemma_moved_id, lemma_sides_stretch, lemma_spot_apart,
    lemma_untouched,
};
use crate::model::{cross_links, spot};
use crate::note::NoteView;
use crate::numeral::decimal;
use crate::text::begins_with;
use vstd::prelude::*;

verus! {

// ── Links ────────────────────────────────────────────────────────────────────

/// United links: the links that were there, and behind them, in their order, those of the
/// others that were not there yet, each once.
pub proof fn law_united(links: Seq<Seq<char>>, more: Seq<Seq<char>>) -> (at: Seq<int>)
    ensures
        united(links, more).len() == links.len() + at.len(),
        forall|i: int| 0 <= i < links.len() ==> #[trigger] united(links, more)[i] == links[i],
        forall|k: int|
            0 <= k < at.len() ==> 0 <= #[trigger] at[k] < more.len() && united(links, more)[links.len() + k]
                == more[at[k]],
        forall|k: int, l: int| 0 <= k < l < at.len() ==> #[trigger] at[k] < #[trigger] at[l],
        forall|i: int|
            0 <= i < more.len() ==> (#[trigger] at.contains(i) <==> !links.contains(more[i]) && !more.take(
                i,
            ).contains(more[i])),
        forall|x: Seq<char>| #[trigger]
            united(links, more).contains(x) <==> links.contains(x) || more.contains(x),
    decreases more.len(),
{
    if more.len() == 0 {
        assert(united(links, more) == links);
        Seq::empty()
    } else {
        let r = more.drop_last();
        let n = r.len() as int;
        let x = more.last();
        let a = law_united(links, r);
        let u = united(links, r);
        let w = united(links, more);
        assert(more.take(n) =~= r);
        let fresh = !u.contains(x);
        let at = if fresh {
            a.push(n)
        } else {
            a
        };
        assert forall|i: int| 0 <= i < links.len() implies #[trigger] w[i] == links[i] by {
            assert(u[i] == links[i]);
        }
        assert forall|k: int| 0 <= k < at.len() implies 0 <= #[trigger] at[k] < more.len() && w[links.len() + k]
            == more[at[k]] by {
            if k < a.len() {
                assert(a[k] == at[k]);
                assert(u[links.len() + k] == r[a[k]]);
            }
        }
        assert forall|k: int, l: int| 0 <= k < l < at.len() implies #[trigger] at[k] < #[trigger] at[l] by {
            assert(a[k] == at[k]);
            if l < a.len() {
                assert(a[l] == at[l]);
            }
        }
        assert forall|i: int| 0 <= i < more.len() implies (#[trigger] at.contains(i) <==> !links.contains(more[i])
            && !more.take(i).contains(more[i])) by {
            if i < n {
                assert(r[i] == more[i]);
                assert(r.take(i) =~= more.take(i));
                assert(a.contains(i) <==> !links.contains(r[i]) && !r.take(i).contains(r[i]));
                if a.contains(i) {
                    let k = choose|k: int| 0 <= k < a.len() && a[k] == i;
                    assert(at[k] == i);
                }
                if at.contains(i) {
                    let k = choose|k: int| 0 <= k < at.len() && at[k] == i;
                    assert(a[k] == i);
                }
            } else {
                if fresh {
                    assert(at[a.len() as int] == n);
                } else if at.contains(i) {
                    let k = choose|k: int| 0 <= k < at.len() && at[k] == i;
                    assert(a[k] < r.len());
                }
                assert(u.contains(x) <==> links.contains(x) || r.contains(x));
            }
        }
        assert forall|y: Seq<char>| #[trigger] w.contains(y) <==> links.contains(y) || more.contains(y) by {
            assert(u.contains(y) <==> links.contains(y) || r.contains(y));
            if u.contains(y) {
                let k = choose|k: int| 0 <= k < u.len() && u[k] == y;
                assert(w[k] == y);
            }
            if r.contains(y) {
                let k = choose|k: int| 0 <= k < r.len() && r[k] == y;
                assert(more[k] == y);
            }
            if more.contains(y) && !r.contains(y) {
                let k = choose|k: int| 0 <= k < more.len() && more[k] == y;
                if k < n {
                    assert(r[k] == y);
                }
                assert(y == x);
                if fresh {
                    assert(w[u.len() as int] == x);
                }
            }
            if w.contains(y) && !u.contains(y) {
                let k = choose|k: int| 0 <= k < w.len() && w[k] == y;
                if k < u.len() {
                    assert(u[k] == y);
                }
                assert(more[n] == y);
            }
        }
        at
    }
}

/// A note with the cross-links of another as well: all else is as it was, and its links
/// are those it had, and then those of the other, but for the first of these.
pub proof fn law_links_of_both(n: NoteView, t: NoteView)
    ensures
        with_links_of(n, t).id == n.id,
        with_links_of(n, t).content == n.content,
        with_links_of(n, t).created_at == n.created_at,
        with_links_of(n, t).supersedes == n.supersedes,
        with_links_of(n, t).links.len() >= n.links.len(),
        forall|i: int| 0 <= i < n.links.len() ==> #[trigger] with_links_of(n, t).links[i] == n.links[i],
        forall|l: int| 1 <= l < t.links.len() ==> with_links_of(n, t).links.contains(#[trigger] t.links[l]),
        forall|i: int|
            n.links.len() <= i < with_links_of(n, t).links.len() ==> {
                let x = #[trigger] with_links_of(n, t).links[i];
                &&& !n.links.contains(x)
                &&& exists|l: int| 1 <= l < t.links.len() && #[trigger] t.links[l] == x
            },
        forall|i: int, j: int|
            n.links.len() <= i < j < with_links_of(n, t).links.len() ==> #[trigger] with_links_of(n, t).links[i]
                != #[trigger] with_links_of(n, t).links[j],
{
    let c = cross_links(t);
    let at = law_united(n.links, c);
    let w = with_links_of(n, t).links;
    let k0 = n.links.len() as int;
    assert forall|l: int| 1 <= l < t.links.len() implies w.contains(#[trigger] t.links[l]) by {
        assert(c[l - 1] == t.links[l]);
        assert(c.contains(t.links[l]));
        assert(united(n.links, c).contains(t.links[l]));
    }
    assert forall|i: int| k0 <= i < w.len() implies {
        let x = #[trigger] w[i];
        &&& !n.links.contains(x)
        &&& exists|l: int| 1 <= l < t.links.len() && #[trigger] t.links[l] == x
    } by {
        let k = i - k0;
        assert(w[k0 + k] == c[at[k]]);
        assert(at.contains(at[k]));
        assert(t.links[at[k] + 1] == c[at[k]]);
    }
    assert forall|i: int, j: int| k0 <= i < j < w.len() implies #[trigger] w[i] != #[trigger] w[j] by {
        let k = i - k0;
        let l = j - k0;
        assert(w[k0 + k] == c[at[k]] && w[k0 + l] == c[at[l]]);
        assert(at[k] < at[l]);
        assert(at.contains(at[l]));
        assert(c.take(at[l])[at[k]] == c[at[k]]);
    }
}

// ── Where a note moves to ────────────────────────────────────────────────────

/// The sibling that stands `steps` steps further on in the row, while there is one.
pub open spec fn sibling_after(s: Seq<char>, steps: nat) -> Option<Seq<char>>
    decreases steps,
{
    if steps == 0 {
        Some(s)
    } else {
        match next_sibling_text(s) {
            None => None,
            Some(t) => sibling_after(t, (steps - 1) as nat),
        }
    }
}

/// The free sibling is the first one further on that is not taken; there is none just
/// where all of them are.
pub proof fn law_free_sibling(s: Seq<char>, taken: Seq<Seq<char>>) -> (steps: nat)
    ensures
        free_sibling(s, taken) matches Some(x) ==> {
            &&& steps >= 1
            &&& sibling_after(s, steps) == Some(x)
            &&& !taken.contains(x)
            &&& forall|k: nat|
                1 <= k < steps ==> (#[trigger] sibling_after(s, k) matches Some(y) && taken.contains(y))
        },
        free_sibling(s, taken) is None ==> forall|k: nat|
            k >= 1 ==> (#[trigger] sibling_after(s, k) matches Some(y) ==> taken.contains(y)),
    decreases siblings_left(s),
{
    lemma_siblings_left(s);
    match next_sibling_text(s) {
        None => {
            assert forall|k: nat| k >= 1 implies (#[trigger] sibling_after(s, k) matches Some(y)
                ==> taken.contains(y)) by {}
            0
        },
        Some(t) => {
            assert(sibling_after(t, 0) == Some(t));
            assert(sibling_after(s, 1) == Some(t));
            if taken.contains(t) {
                let n = law_free_sibling(t, taken);
                if free_sibling(s, taken) is Some {
                    assert(sibling_after(s, n + 1) == sibling_after(t, n));
                    assert forall|k: nat| 1 <= k < n + 1 implies (#[trigger] sibling_after(s, k) matches Some(y)
                        && taken.contains(y)) by {
                        assert(sibling_after(s, k) == sibling_after(t, (k - 1) as nat));
                    }
                } else {
                    assert forall|k: nat| k >= 1 implies (#[trigger] sibling_after(s, k) matches Some(y)
                        ==> taken.contains(y)) by {
                        assert(sibling_after(s, k) == sibling_after(t, (k - 1) as nat));
                    }
                }
                n + 1
            } else {
                1
            }
        },
    }
}

/// The row ends at its last sibling.
proof fn lemma_last_sibling(s: Seq<char>) -> (steps: nat)
    ensures
        sibling_after(s, steps) == Some(last_sibling(s)),
        next_sibling_text(last_sibling(s)) is None,
    decreases siblings_left(s),
{
    lemma_siblings_left(s);
    match next_sibling_text(s) {
        None => 0,
        Some(t) => {
            let n = lemma_last_sibling(t);
            assert(sibling_after(s, n + 1) == sibling_after(t, n));
            n + 1
        },
    }
}

/// A note that gives way moves to the first free sibling further on. Where there is none,
/// it moves below the last one, to the first number that is free there.
pub proof fn law_moved_id(s: Seq<char>, taken: Seq<Seq<char>>)
    ensures
        !taken.contains(moved_id(s, taken)),
        (exists|steps: nat|
            {
                &&& steps >= 1
                &&& #[trigger] sibling_after(s, steps) == Some(moved_id(s, taken))
                &&& forall|k: nat|
                    1 <= k < steps ==> (#[trigger] sibling_after(s, k) matches Some(y) && taken.contains(y))
            }) || {
            &&& forall|k: nat|
                k >= 1 ==> (#[trigger] sibling_after(s, k) matches Some(y) ==> taken.contains(y))
            &&& exists|steps: nat, n: nat|
                {
                    &&& #[trigger] sibling_after(s, steps) matches Some(l)
                    &&& next_sibling_text(l) is None
                    &&& n >= 1
                    &&& moved_id(s, taken) == l + #[trigger] decimal(n)
                    &&& forall|m: nat| 1 <= m < n ==> taken.contains(#[trigger] (l + decimal(m)))
                }
        },
{
    let steps = law_free_sibling(s, taken);
    match free_sibling(s, taken) {
        Some(x) => {
            assert(sibling_after(s, steps) == Some(moved_id(s, taken)));
        },
        None => {
            let l = last_sibling(s);
            let far = lemma_last_sibling(s);
            lemma_free_number_exists(l, taken);
            let n = choose|n: nat| is_free_number(l, taken, n);
            assert(is_free_number(l, taken, n));
            assert(sibling_after(s, far) == Some(l));
            assert(moved_id(s, taken) == l + decimal(n));
        },
    }
}

// ── One incoming note more ───────────────────────────────────────────────────

/// Nothing that comes in changes nothing.
pub proof fn law_nothing_comes_in(head: Seq<NoteView>, rename_head: bool, elsewhere: Seq<Seq<char>>)
    ensures
        merged(head, Seq::empty(), rename_head, elsewhere) == (head, Seq::<Deed>::empty()),
{
}

/// One incoming note more, with an ID that no note has: it is put behind the others, just
/// as it came in.
pub proof fn law_one_more_is_added(
    head: Seq<NoteView>,
    theirs: Seq<NoteView>,
    t: NoteView,
    rename_head: bool,
    elsewhere: Seq<Seq<char>>,
)
    requires
        forall|i: int|
            0 <= i < merged(head, theirs, rename_head, elsewhere).0.len() ==> (#[trigger] merged(
                head,
                theirs,
                rename_head,
                elsewhere,
            ).0[i]).id != t.id,
    ensures
        merged(head, theirs.push(t), rename_head, elsewhere).0 == merged(
            head,
            theirs,
            rename_head,
            elsewhere,
        ).0.push(t),
        merged(head, theirs.push(t), rename_head, elsewhere).1 == merged(
            head,
            theirs,
            rename_head,
            elsewhere,
        ).1.push(Deed::Added(t.id)),
{
    let (m, d) = merged(head, theirs, rename_head, elsewhere);
    assert(theirs.push(t).drop_last() =~= theirs);
    lemma_spot(m, t.id);
    let p = spot(m, t.id);
    if p < m.len() {
        assert(m[p].id == t.id);
    }
    assert(d + seq![Deed::Added(t.id)] =~= d.push(Deed::Added(t.id)));
}

/// One incoming note more, with the ID and the content of a note: that note gets its links
/// behind its own, and nothing else happens to it or to any other.
pub proof fn law_one_more_is_united(
    head: Seq<NoteView>,
    theirs: Seq<NoteView>,
    t: NoteView,
    rename_head: bool,
    elsewhere: Seq<Seq<char>>,
    p: int,
)
    requires
        0 <= p < merged(head, theirs, rename_head, elsewhere).0.len(),
        merged(head, theirs, rename_head, elsewhere).0[p].id == t.id,
        merged(head, theirs, rename_head, elsewhere).0[p].content == t.content,
        forall|i: int|
            0 <= i < p ==> (#[trigger] merged(head, theirs, rename_head, elsewhere).0[i]).id != t.id,
    ensures
        ({
            let (m, d) = merged(head, theirs, rename_head, elsewhere);
            let (w, e) = merged(head, theirs.push(t), rename_head, elsewhere);
            &&& w.len() == m.len()
            &&& forall|i: int| 0 <= i < m.len() && i != p ==> #[trigger] w[i] == m[i]
            &&& w[p].id == m[p].id
            &&& w[p].content == m[p].content
            &&& w[p].created_at == m[p].created_at
            &&& w[p].supersedes == m[p].supersedes
            &&& w[p].links == with_links_of(m[p], t).links
            &&& w[p].links.len() > m[p].links.len() ==> e == d.push(Deed::LinksMerged(t.id))
            &&& w[p].links.len() == m[p].links.len() ==> e == d && w == m
        }),
{
    let (m, d) = merged(head, theirs, rename_head, elsewhere);
    let (w, e) = merged(head, theirs.push(t), rename_head, elsewhere);
    assert(theirs.push(t).drop_last() =~= theirs);
    lemma_spot(m, t.id);
    let q = spot(m, t.id);
    assert(q == p) by {
        if q < p {
            assert(m[q].id != t.id);
        }
    }
    law_links_of_both(m[p], t);
    let n = with_links_of(m[p], t);
    assert(d + seq![Deed::LinksMerged(t.id)] =~= d.push(Deed::LinksMerged(t.id)));
    assert(d + Seq::<Deed>::empty() =~= d);
    if n.links.len() == m[p].links.len() {
        assert(n.links =~= m[p].links);
        assert(n == m[p]);
        assert(w =~= m);
    }
}

/// One incoming note more, with the ID of a note and other content: both stay. The one
/// that gives way (ours, or else the incoming one) differs in its ID alone.
pub proof fn law_one_more_gives_way(
    head: Seq<NoteView>,
    theirs: Seq<NoteView>,
    t: NoteView,
    rename_head: bool,
    elsewhere: Seq<Seq<char>>,
    p: int,
)
    requires
        0 <= p < merged(head, theirs, rename_head, elsewhere).0.len(),
        merged(head, theirs, rename_head, elsewhere).0[p].id == t.id,
        merged(head, theirs, rename_head, elsewhere).0[p].content != t.content,
        forall|i: int|
            0 <= i < p ==> (#[trigger] merged(head, theirs, rename_head, elsewhere).0[i]).id != t.id,
    ensures
        ({
            let (m, d) = merged(head, theirs, rename_head, elsewhere);
            let (w, e) = merged(head, theirs.push(t), rename_head, elsewhere);
            let x = moved_id(t.id, ids(m) + elsewhere);
            &&& w.len() == m.len() + 1
            &&& e == d.push(Deed::Renamed { original: t.id, renamed_to: x })
            &&& !ids(m).contains(x)
            &&& !elsewhere.contains(x)
            &&& rename_head ==> {
                &&& w[m.len() as int] == t
                &&& w[m.len() - 1].id == x
                &&& w[m.len() - 1].content == m[p].content
                &&& w[m.len() - 1].links == m[p].links
                &&& w[m.len() - 1].created_at == m[p].created_at
                &&& w[m.len() - 1].supersedes == m[p].supersedes
                &&& forall|i: int| 0 <= i < p ==> #[trigger] w[i] == m[i]
                &&& forall|i: int| p < i < m.len() ==> w[i - 1] == #[trigger] m[i]
            }
            &&& !rename_head ==> {
                &&& w[m.len() as int].id == x
                &&& w[m.len() as int].content == t.content
                &&& w[m.len() as int].links == t.links
                &&& w[m.len() as int].created_at == t.created_at
                &&& w[m.len() as int].supersedes == t.supersedes
                &&& forall|i: int| 0 <= i < m.len() ==> #[trigger] w[i] == m[i]
            }
        }),
{
    let (m, d) = merged(head, theirs, rename_head, elsewhere);
    let (w, e) = merged(head, theirs.push(t), rename_head, elsewhere);
    assert(theirs.push(t).drop_last() =~= theirs);
    lemma_spot(m, t.id);
    let q = spot(m, t.id);
    assert(q == p) by {
        if q < p {
            assert(m[q].id != t.id);
        }
    }
    lemma_moved_id(m, elsewhere, t.id);
    let x = moved_id(t.id, ids(m) + elsewhere);
    let deed = Deed::Renamed { original: t.id, renamed_to: x };
    assert(d + seq![deed] =~= d.push(deed));
}

// ── From what came in ────────────────────────────────────────────────────────

/// A note of ours has the ID of an incoming one and other content, so that it gives way.
pub open spec fn gives_way(theirs: Seq<NoteView>, h: NoteView) -> bool {
    exists|k: int|
        0 <= k < theirs.len() && (#[trigger] theirs[k]).id == h.id && theirs[k].content != h.content
}

/// Where a note in the middle of a merge comes from: it is a note of ours at its own ID,
/// one of ours that gave way, or stands at the ID of an incoming note.
spec fn comes_from(head: Seq<NoteView>, theirs: Seq<NoteView>, n: NoteView) -> bool {
    ||| exists|i: int| 0 <= i < head.len() && (#[trigger] head[i]).id == n.id
    ||| exists|i: int|
        0 <= i < head.len() && (#[trigger] head[i]).content == n.content && gives_way(theirs, head[i])
    ||| exists|k: int| 0 <= k < theirs.len() && (#[trigger] theirs[k]).id == n.id
}

/// While ours give way, every note comes from somewhere: the notes at IDs that no incoming
/// note has had are ours, or gave way.
proof fn lemma_comes_from(
    head: Seq<NoteView>,
    theirs: Seq<NoteView>,
    elsewhere: Seq<Seq<char>>,
    n: NoteView,
)
    requires
        apart(theirs),
        merged(head, theirs, true, elsewhere).0.contains(n),
    ensures
        comes_from(head, theirs, n),
        (exists|k: int| 0 <= k < theirs.len() && (#[trigger] theirs[k]).id == n.id) || (exists|i: int|
            0 <= i < head.len() && #[trigger] descends_at(head[i], theirs, n)),
    decreases theirs.len(),
{
    let w = merged(head, theirs, true, elsewhere).0;
    if theirs.len() == 0 {
        let i = choose|i: int| 0 <= i < w.len() && w[i] == n;
        assert(head[i].id == n.id);
        assert(descends_at(head[i], theirs, n));
    } else {
        let r = theirs.drop_last();
        let t = theirs.last();
        let last = theirs.len() - 1;
        let m = merged(head, r, true, elsewhere).0;
        assert forall|a: int, b: int| 0 <= a < r.len() && 0 <= b < r.len() && a != b implies (#[trigger] r[a]).id
            != (#[trigger] r[b]).id by {
            assert(r[a] == theirs[a] && r[b] == theirs[b]);
        }
        lemma_spot(m, t.id);
        let p = spot(m, t.id);
        let j = choose|j: int| 0 <= j < w.len() && w[j] == n;
        assert(theirs[last] == t);
        if n.id == t.id {
            assert(theirs[last].id == n.id);
        } else if p < m.len() && m[p].content != t.content && j == m.len() - 1 {
            // The note that gave way just now.
            assert(n == (NoteView { id: n.id, ..m[p] }));
            assert(m.contains(m[p]));
            lemma_comes_from(head, r, elsewhere, m[p]);
            if exists|k: int| 0 <= k < r.len() && (#[trigger] r[k]).id == m[p].id {
                let k = choose|k: int| 0 <= k < r.len() && (#[trigger] r[k]).id == m[p].id;
                assert(r[k] == theirs[k]);
                assert(theirs[k].id != theirs[last].id);
            }
            let i = choose|i: int| 0 <= i < head.len() && #[trigger] descends_at(head[i], r, m[p]);
            if head[i].id == m[p].id {
                assert(theirs[last].id == head[i].id && theirs[last].content != head[i].content);
            } else {
                lemma_gives_way(r, theirs, head[i]);
            }
            assert(gives_way(theirs, head[i]));
            assert(descends_at(head[i], theirs, n));
        } else {
            // A note that was there before.
            let a = if p < m.len() && m[p].content != t.content && j >= p {
                j + 1
            } else {
                j
            };
            assert(a < m.len() && m[a].id == n.id && m[a].content == n.content);
            assert(m.contains(m[a]));
            lemma_comes_from(head, r, elsewhere, m[a]);
            if exists|k: int| 0 <= k < r.len() && (#[trigger] r[k]).id == m[a].id {
                let k = choose|k: int| 0 <= k < r.len() && (#[trigger] r[k]).id == m[a].id;
                assert(theirs[k].id == n.id);
            } else {
                let i = choose|i: int| 0 <= i < head.len() && #[trigger] descends_at(head[i], r, m[a]);
                if head[i].id != m[a].id {
                    lemma_gives_way(r, theirs, head[i]);
                }
                assert(descends_at(head[i], theirs, n));
            }
        }
    }
}

/// `n` says what `h` says, at the ID of `h` or having given way.
spec fn descends_at(h: NoteView, theirs: Seq<NoteView>, n: NoteView) -> bool {
    &&& h.content == n.content
    &&& h.id == n.id || gives_way(theirs, h)
}

/// What gives way to some gives way to more.
proof fn lemma_gives_way(r: Seq<NoteView>, theirs: Seq<NoteView>, h: NoteView)
    requires
        r == theirs.drop_last(),
        theirs.len() > 0,
        gives_way(r, h),
    ensures
        gives_way(theirs, h),
{
    let k = choose|k: int|
        0 <= k < r.len() && (#[trigger] r[k]).id == h.id && r[k].content != h.content;
    assert(theirs[k] == r[k]);
}

/// Where ours give way, a note whose ID occurs on the incoming side alone is in the result
/// exactly as it came in, with all its fields, unless a note of ours that gives way has the
/// same content.
pub proof fn law_only_theirs_comes_in_whole(
    head: Seq<NoteView>,
    theirs: Seq<NoteView>,
    elsewhere: Seq<Seq<char>>,
    j: int,
)
    requires
        apart(theirs),
        0 <= j < theirs.len(),
        forall|i: int| 0 <= i < head.len() ==> (#[trigger] head[i]).id != theirs[j].id,
        forall|i: int|
            0 <= i < head.len() && gives_way(theirs, #[trigger] head[i]) ==> head[i].content
                != theirs[j].content,
    ensures
        merged(head, theirs, true, elsewhere).0.contains(theirs[j]),
{
    let t = theirs[j];
    let a = theirs.take(j);
    let m = merged(head, a, true, elsewhere).0;
    lemma_take_apart(theirs, j);
    lemma_spot(m, t.id);
    let p = spot(m, t.id);
    if p < m.len() {
        assert(m.contains(m[p]));
        lemma_comes_from(head, a, elsewhere, m[p]);
        if exists|k: int| 0 <= k < a.len() && (#[trigger] a[k]).id == m[p].id {
            let k = choose|k: int| 0 <= k < a.len() && (#[trigger] a[k]).id == m[p].id;
            assert(a[k] == theirs[k]);
            assert(theirs[k].id != theirs[j].id);
        }
        let i = choose|i: int| 0 <= i < head.len() && #[trigger] descends_at(head[i], a, m[p]);
        let k = choose|k: int|
            0 <= k < a.len() && (#[trigger] a[k]).id == head[i].id && a[k].content != head[i].content;
        assert(theirs[k] == a[k]);
        assert(gives_way(theirs, head[i]));
    }
    lemma_taken_in(head, theirs, elsewhere, j);
}

/// The first incoming notes have different IDs if all have.
proof fn lemma_take_apart(theirs: Seq<NoteView>, j: int)
    requires
        apart(theirs),
        0 <= j <= theirs.len(),
    ensures
        apart(theirs.take(j)),
{
    let a = theirs.take(j);
    assert forall|x: int, y: int| 0 <= x < a.len() && 0 <= y < a.len() && x != y implies (#[trigger] a[x]).id
        != (#[trigger] a[y]).id by {
        assert(a[x] == theirs[x] && a[y] == theirs[y]);
    }
}

/// An incoming note that is added, or that ours gives way to, stays as it came in.
proof fn lemma_taken_in(head: Seq<NoteView>, theirs: Seq<NoteView>, elsewhere: Seq<Seq<char>>, j: int)
    requires
        apart(theirs),
        0 <= j < theirs.len(),
        ({
            let m = merged(head, theirs.take(j), true, elsewhere).0;
            let p = spot(m, theirs[j].id);
            p >= m.len() || m[p].content != theirs[j].content
        }),
    ensures
        merged(head, theirs, true, elsewhere).0.contains(theirs[j]),
{
    let t = theirs[j];
    let m = merged(head, theirs.take(j), true, elsewhere).0;
    let w = merged_one(m, t, true, elsewhere).0;
    let b = theirs.skip(j + 1);
    lemma_spot(m, t.id);
    assert(w[w.len() - 1] == t);
    assert(w.contains(t));
    assert(theirs.take(j + 1).drop_last() =~= theirs.take(j));
    assert(theirs.take(j + 1).last() == t);
    lemma_merged_parts(head, theirs, true, elsewhere, j + 1);
    assert forall|k: int| 0 <= k < b.len() implies (#[trigger] b[k]).id != t.id by {
        assert(b[k] == theirs[j + 1 + k]);
    }
    lemma_untouched(w, b, true, elsewhere, t);
}

/// Where both sides have a note with one ID and different content and ours give way, the
/// incoming one is in the result exactly as it came in, and ours is there too, at another
/// ID, with its content, its date, what it supersedes and its links.
pub proof fn law_both_versions_stay(
    head: Seq<NoteView>,
    theirs: Seq<NoteView>,
    elsewhere: Seq<Seq<char>>,
    i: int,
    j: int,
)
    requires
        apart(head),
        apart(theirs),
        0 <= i < head.len(),
        0 <= j < theirs.len(),
        head[i].id == theirs[j].id,
        head[i].content != theirs[j].content,
    ensures
        merged(head, theirs, true, elsewhere).0.contains(theirs[j]),
        exists|n: NoteView| #[trigger]
            merged(head, theirs, true, elsewhere).0.contains(n) && n.id != head[i].id && n.content
                == head[i].content && n.created_at == head[i].created_at && n.supersedes
                == head[i].supersedes && n.links.len() >= head[i].links.len() && n.links.take(
                head[i].links.len() as int,
            ) == head[i].links,
{
    let h = head[i];
    let t = theirs[j];
    let a = theirs.take(j);
    let b = theirs.skip(j + 1);
    let whole = merged(head, theirs, true, elsewhere).0;
    assert forall|k: int| 0 <= k < a.len() implies (#[trigger] a[k]).id != h.id by {
        assert(a[k] == theirs[k]);
    }
    assert(head.contains(h));
    lemma_untouched(head, a, true, elsewhere, h);
    law_merge_keeps_ids_apart(head, a, true, elsewhere);
    let m = merged(head, a, true, elsewhere).0;
    let p = choose|p: int| 0 <= p < m.len() && m[p] == h;
    lemma_spot_apart(m, p);
    lemma_taken_in(head, theirs, elsewhere, j);
    let w = merged_one(m, t, true, elsewhere).0;
    let x = moved_id(t.id, ids(m) + elsewhere);
    let moved = NoteView { id: x, ..h };
    assert(w[m.len() - 1] == moved);
    assert(theirs.take(j + 1).drop_last() =~= a);
    assert(theirs.take(j + 1).last() == t);
    lemma_merged_parts(head, theirs, true, elsewhere, j + 1);
    law_ours_survive(w, b, true, elsewhere, m.len() - 1);
    let k = choose|k: int| 0 <= k < whole.len() && descends(#[trigger] whole[k], w[m.len() - 1]);
    assert(h.links.take(h.links.len() as int) =~= h.links);
    assert(descends(moved, h));
    lemma_descends(whole[k], moved, h);
    let q = choose|q: int| 0 <= q < whole.len() && whole[q] == t;
    law_merge_keeps_ids_apart(head, theirs, true, elsewhere);
    assert(whole[k].id != h.id) by {
        if whole[k].id == h.id {
            if k != q {
                assert(whole[k].id != whole[q].id);
            }
        }
    }
    assert(whole.contains(whole[k]));
}

/// Whichever side gives way, an incoming note whose content is new is in the result with
/// its content, its date, what it supersedes and its links.
pub proof fn law_new_content_comes_in(
    head: Seq<NoteView>,
    theirs: Seq<NoteView>,
    rename_head: bool,
    elsewhere: Seq<Seq<char>>,
    j: int,
)
    requires
        0 <= j < theirs.len(),
        forall|i: int| 0 <= i < head.len() ==> (#[trigger] head[i]).content != theirs[j].content,
        forall|i: int| 0 <= i < j ==> (#[trigger] theirs[i]).content != theirs[j].content,
    ensures
        exists|n: NoteView| #[trigger]
            merged(head, theirs, rename_head, elsewhere).0.contains(n) && n.content == theirs[j].content
                && n.created_at == theirs[j].created_at && n.supersedes == theirs[j].supersedes
                && n.links.len() >= theirs[j].links.len() && n.links.take(theirs[j].links.len() as int)
                == theirs[j].links,
{
    let t = theirs[j];
    let m = merged(head, theirs.take(j), rename_head, elsewhere).0;
    let w = merged_one(m, t, rename_head, elsewhere).0;
    let whole = merged(head, theirs, rename_head, elsewhere).0;
    lemma_spot(m, t.id);
    let p = spot(m, t.id);
    if p < m.len() {
        assert(m.contains(m[p]));
        let s = law_nothing_from_nowhere(head, theirs.take(j), rename_head, elsewhere, p);
        if head.contains(s) {
            let i = choose|i: int| 0 <= i < head.len() && head[i] == s;
            assert(head[i].content != t.content);
        } else {
            let i = choose|i: int| 0 <= i < j && theirs.take(j)[i] == s;
            assert(theirs[i].content != t.content);
        }
    }
    let n = w[w.len() - 1];
    assert(n.content == t.content && n.created_at == t.created_at && n.supersedes == t.supersedes && n.links
        == t.links);
    assert(theirs.take(j + 1).drop_last() =~= theirs.take(j));
    assert(theirs.take(j + 1).last() == t);
    lemma_merged_parts(head, theirs, rename_head, elsewhere, j + 1);
    law_ours_survive(w, theirs.skip(j + 1), rename_head, elsewhere, w.len() - 1);
    let k = choose|k: int| 0 <= k < whole.len() && descends(#[trigger] whole[k], w[w.len() - 1]);
    assert(whole.contains(whole[k]));
}

/// Nothing comes from nowhere: every note of the result has the content, the date and what
/// it supersedes from one note that was there, and begins with its links.
pub proof fn law_nothing_from_nowhere(
    head: Seq<NoteView>,
    theirs: Seq<NoteView>,
    rename_head: bool,
    elsewhere: Seq<Seq<char>>,
    k: int,
) -> (s: NoteView)
    requires
        0 <= k < merged(head, theirs, rename_head, elsewhere).0.len(),
    ensures
        head.contains(s) || theirs.contains(s),
        merged(head, theirs, rename_head, elsewhere).0[k].content == s.content,
        merged(head, theirs, rename_head, elsewhere).0[k].created_at == s.created_at,
        merged(head, theirs, rename_head, elsewhere).0[k].supersedes == s.supersedes,
        merged(head, theirs, rename_head, elsewhere).0[k].links.len() >= s.links.len(),
        merged(head, theirs, rename_head, elsewhere).0[k].links.take(s.links.len() as int) == s.links,
    decreases theirs.len(),
{
    let w = merged(head, theirs, rename_head, elsewhere).0;
    if theirs.len() == 0 {
        assert(head[k].links.take(head[k].links.len() as int) =~= head[k].links);
        assert(head.contains(head[k]));
        head[k]
    } else {
        let r = theirs.drop_last();
        let t = theirs.last();
        let m = merged(head, r, rename_head, elsewhere).0;
        lemma_spot(m, t.id);
        let p = spot(m, t.id);
        assert(theirs[theirs.len() - 1] == t);
        let clash = p < m.len() && m[p].content != t.content;
        if (p >= m.len() || clash) && k == w.len() - 1 {
            assert(t.links.take(t.links.len() as int) =~= t.links);
            assert(theirs.contains(t));
            t
        } else {
            let a = if clash && rename_head && k == m.len() - 1 {
                p
            } else if clash && rename_head && k >= p {
                k + 1
            } else {
                k
            };
            let s = law_nothing_from_nowhere(head, r, rename_head, elsewhere, a);
            if r.contains(s) {
                let i = choose|i: int| 0 <= i < r.len() && r[i] == s;
                assert(theirs[i] == s);
            }
            if !clash && k == p {
                law_links_of_both(m[p], t);
                assert(w[k].links.take(s.links.len() as int) =~= s.links) by {
                    assert forall|i: int| 0 <= i < s.links.len() implies w[k].links[i] == s.links[i] by {
                        assert(m[p].links.take(s.links.len() as int)[i] == s.links[i]);
                        assert(w[k].links[i] == m[p].links[i]);
                    }
                }
            }
            s
        }
    }
}

// ── The renames of a report ──────────────────────────────────────────────────

/// The renames among some deeds: a pair for each deed that renamed, in order.
pub proof fn law_renames_in(s: Seq<Deed>, d: Deed)
    ensures
        renames_in(Seq::<Deed>::empty()) == Seq::<(Seq<char>, Seq<char>)>::empty(),
        match d {
            Deed::Renamed { original, renamed_to } => renames_in(s.push(d)) == renames_in(s).push(
                (original, renamed_to),
            ),
            Deed::Added(_) => renames_in(s.push(d)) == renames_in(s),
            Deed::LinksMerged(_) => renames_in(s.push(d)) == renames_in(s),
        },
{
    assert(s.push(d).drop_last() =~= s);
}

// ── Conflicts that the file does not end ─────────────────────────────────────

/// A conflict that is not divided is all ours, and one that is divided and not ended is
/// theirs from the divider on.
pub proof fn law_open_conflict(
    before: Seq<Seq<char>>,
    begin: Seq<char>,
    ours: Seq<Seq<char>>,
    divide: Seq<char>,
    theirs: Seq<Seq<char>>,
)
    requires
        free_of(before, "<<<<<<<"@),
        begins_with(begin, "<<<<<<<"@),
        free_of(ours, "======="@),
        begins_with(divide, "======="@),
        free_of(theirs, ">>>>>>>"@),
    ensures
        sides(before + seq![begin] + ours, Place::Normal) == (joined(before) + joined(ours), joined(before)),
        sides(before + seq![begin] + ours + seq![divide] + theirs, Place::Normal) == (
            joined(before) + joined(ours),
            joined(before) + joined(theirs),
        ),
{
    let none = Seq::<Seq<char>>::empty();
    let r1 = seq![begin] + ours;
    assert(before + seq![begin] + ours =~= before + r1);
    assert(r1.skip(1) =~= ours);
    assert(ours + none =~= ours);
    lemma_sides_stretch(before, r1, Place::Normal);
    lemma_sides_stretch(ours, none, Place::Head);
    assert(sides(r1, Place::Normal) == sides(ours, Place::Head));
    assert(joined(before) + (joined(ours) + Seq::<char>::empty()) =~= joined(before) + joined(ours));
    assert(joined(before) + Seq::<char>::empty() =~= joined(before));
    let r3 = seq![divide] + theirs;
    let r2 = seq![begin] + (ours + r3);
    assert(before + seq![begin] + ours + seq![divide] + theirs =~= before + r2);
    assert(r2.skip(1) =~= ours + r3);
    assert(r3.skip(1) =~= theirs);
    assert(theirs + none =~= theirs);
    lemma_sides_stretch(before, r2, Place::Normal);
    lemma_sides_stretch(ours, r3, Place::Head);
    lemma_sides_stretch(theirs, none, Place::Theirs);
    assert(sides(r2, Place::Normal) == sides(ours + r3, Place::Head));
    assert(sides(r3, Place::Head) == sides(theirs, Place::Theirs));
    assert(joined(ours) + Seq::<char>::empty() =~= joined(ours));
    assert(joined(theirs) + Seq::<char>::empty() =~= joined(theirs));
}

} // verus!
