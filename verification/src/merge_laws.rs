//! What holds of merges.

use crate::id::next_sibling_text;
use crate::laws::lemma_spot;
use crate::merge::{
    free_sibling, ids, is_free_number, last_sibling, lemma_free_number_exists,
    lemma_siblings_left, merged, merged_one, moved_id, siblings_left, sides, united,
    with_links_of, Deed, Place,
};
use crate::model::{cross_links, spot};
use crate::note::NoteView;
use crate::sort::arranged;
use crate::text::begins_with;
use vstd::prelude::*;

verus! {

// ── The two sides ────────────────────────────────────────────────────────────

/// Lines, each with a newline behind it.
pub open spec fn joined(ls: Seq<Seq<char>>) -> Seq<char>
    decreases ls.len(),
{
    if ls.len() == 0 {
        Seq::empty()
    } else {
        ls[0].push('\n') + joined(ls.skip(1))
    }
}

/// None of the lines begins with `mark`.
pub open spec fn free_of(ls: Seq<Seq<char>>, mark: Seq<char>) -> bool {
    forall|i: int| 0 <= i < ls.len() ==> !begins_with(#[trigger] ls[i], mark)
}

/// The lines that stand at one place, up to the mark that ends it.
pub proof fn lemma_sides_stretch(ls: Seq<Seq<char>>, rest: Seq<Seq<char>>, at: Place)
    requires
        free_of(
            ls,
            match at {
                Place::Normal => "<<<<<<<"@,
                Place::Head => "======="@,
                Place::Theirs => ">>>>>>>"@,
            },
        ),
    ensures
        sides(ls + rest, at).0 == (if at == Place::Theirs {
            sides(rest, at).0
        } else {
            joined(ls) + sides(rest, at).0
        }),
        sides(ls + rest, at).1 == (if at == Place::Head {
            sides(rest, at).1
        } else {
            joined(ls) + sides(rest, at).1
        }),
    decreases ls.len(),
{
    if ls.len() == 0 {
        assert(ls + rest =~= rest);
        assert(joined(ls) + sides(rest, at).0 =~= sides(rest, at).0);
        assert(joined(ls) + sides(rest, at).1 =~= sides(rest, at).1);
    } else {
        let t = ls.skip(1);
        assert forall|i: int| 0 <= i < t.len() implies #[trigger] t[i] == ls[i + 1] by {}
        lemma_sides_stretch(t, rest, at);
        assert((ls + rest).skip(1) =~= t + rest);
        assert((ls + rest)[0] == ls[0]);
        assert(!begins_with(ls[0], match at {
            Place::Normal => "<<<<<<<"@,
            Place::Head => "======="@,
            Place::Theirs => ">>>>>>>"@,
        }));
        let line = ls[0].push('\n');
        assert(line + (joined(t) + sides(rest, at).0) =~= joined(ls) + sides(rest, at).0);
        assert(line + (joined(t) + sides(rest, at).1) =~= joined(ls) + sides(rest, at).1);
    }
}

/// A file without a conflict reads the same on both sides.
pub proof fn law_no_conflict_no_difference(ls: Seq<Seq<char>>)
    requires
        free_of(ls, "<<<<<<<"@),
    ensures
        sides(ls, Place::Normal) == (joined(ls), joined(ls)),
{
    let none = Seq::<Seq<char>>::empty();
    lemma_sides_stretch(ls, none, Place::Normal);
    assert(ls + none =~= ls);
    assert(joined(ls) + Seq::<char>::empty() =~= joined(ls));
}

/// In a conflict each side gets its own lines, and both get the lines around it.
pub proof fn law_conflict_is_split(
    before: Seq<Seq<char>>,
    begin: Seq<char>,
    ours: Seq<Seq<char>>,
    divide: Seq<char>,
    theirs: Seq<Seq<char>>,
    end: Seq<char>,
    rest: Seq<Seq<char>>,
)
    requires
        free_of(before, "<<<<<<<"@),
        begins_with(begin, "<<<<<<<"@),
        free_of(ours, "======="@),
        begins_with(divide, "======="@),
        free_of(theirs, ">>>>>>>"@),
        begins_with(end, ">>>>>>>"@),
    ensures
        sides(before + seq![begin] + ours + seq![divide] + theirs + seq![end] + rest, Place::Normal) == (
            joined(before) + joined(ours) + sides(rest, Place::Normal).0,
            joined(before) + joined(theirs) + sides(rest, Place::Normal).1,
        ),
{
    let r3 = seq![end] + rest;
    let r2 = seq![divide] + (theirs + r3);
    let r1 = seq![begin] + (ours + r2);
    let whole = before + seq![begin] + ours + seq![divide] + theirs + seq![end] + rest;
    assert(whole =~= before + r1);
    lemma_sides_stretch(before, r1, Place::Normal);
    lemma_sides_stretch(ours, r2, Place::Head);
    lemma_sides_stretch(theirs, r3, Place::Theirs);
    assert(r1.skip(1) =~= ours + r2);
    assert(r2.skip(1) =~= theirs + r3);
    assert(r3.skip(1) =~= rest);
    assert(sides(r1, Place::Normal) == sides(ours + r2, Place::Head));
    assert(sides(r2, Place::Head) == sides(theirs + r3, Place::Theirs));
    assert(sides(r3, Place::Theirs) == sides(rest, Place::Normal));
    let s = sides(rest, Place::Normal);
    assert(joined(before) + (joined(ours) + s.0) =~= joined(before) + joined(ours) + s.0);
    assert(joined(before) + (joined(theirs) + s.1) =~= joined(before) + joined(theirs) + s.1);
}

// ── IDs to move to ───────────────────────────────────────────────────────────

/// A free sibling is free.
pub proof fn law_free_sibling_is_free(s: Seq<char>, taken: Seq<Seq<char>>)
    ensures
        free_sibling(s, taken) matches Some(x) ==> !taken.contains(x),
    decreases siblings_left(s),
{
    lemma_siblings_left(s);
    if let Some(t) = next_sibling_text(s) {
        if taken.contains(t) {
            law_free_sibling_is_free(t, taken);
        }
    }
}

/// A note that has to give way moves to an ID that is not taken, whatever IDs are.
pub proof fn law_moved_id_is_free(s: Seq<char>, taken: Seq<Seq<char>>)
    ensures
        !taken.contains(moved_id(s, taken)),
{
    law_free_sibling_is_free(s, taken);
    lemma_free_number_exists(last_sibling(s), taken);
    let n = choose|n: nat| is_free_number(last_sibling(s), taken, n);
    assert(is_free_number(last_sibling(s), taken, n));
}

/// The ID that a note moves to in a merge is neither one of the draw's nor one that is
/// taken elsewhere.
pub proof fn lemma_moved_id(m: Seq<NoteView>, elsewhere: Seq<Seq<char>>, s: Seq<char>)
    ensures
        !ids(m).contains(moved_id(s, ids(m) + elsewhere)),
        !elsewhere.contains(moved_id(s, ids(m) + elsewhere)),
{
    let taken = ids(m) + elsewhere;
    let x = moved_id(s, taken);
    law_moved_id_is_free(s, taken);
    if ids(m).contains(x) {
        let i = choose|i: int| 0 <= i < ids(m).len() && ids(m)[i] == x;
        assert(taken[i] == x);
    }
    if elsewhere.contains(x) {
        let i = choose|i: int| 0 <= i < elsewhere.len() && elsewhere[i] == x;
        assert(taken[ids(m).len() + i] == x);
    }
}

// ── Merging notes ────────────────────────────────────────────────────────────

/// Links that are there already are not added again.
proof fn lemma_united_none(links: Seq<Seq<char>>, more: Seq<Seq<char>>)
    requires
        forall|i: int| 0 <= i < more.len() ==> links.contains(#[trigger] more[i]),
    ensures
        united(links, more) == links,
    decreases more.len(),
{
    if more.len() > 0 {
        let r = more.drop_last();
        assert forall|i: int| 0 <= i < r.len() implies links.contains(#[trigger] r[i]) by {
            assert(r[i] == more[i]);
        }
        lemma_united_none(links, r);
        assert(more[more.len() - 1] == more.last());
    }
}

/// United links hold the links of both.
pub proof fn lemma_united(links: Seq<Seq<char>>, more: Seq<Seq<char>>)
    ensures
        united(links, more).len() >= links.len(),
        forall|i: int| 0 <= i < links.len() ==> (#[trigger] united(links, more)[i]) == links[i],
        forall|i: int| 0 <= i < more.len() ==> united(links, more).contains(#[trigger] more[i]),
    decreases more.len(),
{
    if more.len() > 0 {
        let r = more.drop_last();
        lemma_united(links, r);
        let u = united(links, r);
        let w = united(links, more);
        assert forall|i: int| 0 <= i < more.len() implies w.contains(#[trigger] more[i]) by {
            if i < r.len() {
                assert(r[i] == more[i]);
                assert(u.contains(r[i]));
                let k = choose|k: int| 0 <= k < u.len() && u[k] == r[i];
                assert(w[k] == more[i]);
            } else if !u.contains(more.last()) {
                assert(w[w.len() - 1] == more[i]);
            }
        }
        assert forall|i: int| 0 <= i < links.len() implies (#[trigger] w[i]) == links[i] by {
            assert(u[i] == links[i]);
        }
    }
}

/// No two notes have the same ID.
pub open spec fn apart(s: Seq<NoteView>) -> bool {
    forall|i: int, j: int| 0 <= i < s.len() && 0 <= j < s.len() && i != j ==> (#[trigger] s[i]).id != (
    #[trigger] s[j]).id
}

/// `m` has the note `t` under its ID, with its content and all its cross-links.
pub open spec fn keeps(m: Seq<NoteView>, t: NoteView) -> bool {
    exists|i: int| 0 <= i < m.len() && #[trigger] has_as(m[i], t)
}

/// `n` has the ID and the content of `t`, and all its cross-links.
pub open spec fn has_as(n: NoteView, t: NoteView) -> bool {
    &&& n.id == t.id
    &&& n.content == t.content
    &&& forall|l: int| 0 <= l < cross_links(t).len() ==> n.links.contains(#[trigger] cross_links(t)[l])
}

/// `n` is the note `h`, perhaps moved to another ID, perhaps with more links.
pub open spec fn descends(n: NoteView, h: NoteView) -> bool {
    &&& n.content == h.content
    &&& n.created_at == h.created_at
    &&& n.supersedes == h.supersedes
    &&& n.links.len() >= h.links.len()
    &&& n.links.take(h.links.len() as int) == h.links
}

/// Where a note stands among notes with different IDs.
pub proof fn lemma_spot_apart(m: Seq<NoteView>, i: int)
    requires
        apart(m),
        0 <= i < m.len(),
    ensures
        spot(m, m[i].id) == i,
{
    lemma_spot(m, m[i].id);
    let p = spot(m, m[i].id);
    if p < i {
        assert(m[p].id != m[i].id);
    } else if p > i {
        assert(m[i].id != m[i].id);
    }
}

/// The IDs of notes, one by one.
pub proof fn lemma_ids(m: Seq<NoteView>, x: Seq<char>)
    ensures
        ids(m).contains(x) <==> exists|i: int| 0 <= i < m.len() && (#[trigger] m[i]).id == x,
{
    if ids(m).contains(x) {
        let i = choose|i: int| 0 <= i < ids(m).len() && ids(m)[i] == x;
        assert(m[i].id == x);
    }
    if exists|i: int| 0 <= i < m.len() && (#[trigger] m[i]).id == x {
        let i = choose|i: int| 0 <= i < m.len() && (#[trigger] m[i]).id == x;
        assert(ids(m)[i] == x);
    }
}

/// One step keeps IDs apart.
proof fn lemma_step_apart(
    m: Seq<NoteView>,
    t: NoteView,
    rename_head: bool,
    elsewhere: Seq<Seq<char>>,
)
    requires
        apart(m),
    ensures
        apart(merged_one(m, t, rename_head, elsewhere).0),
{
    lemma_spot(m, t.id);
    let p = spot(m, t.id);
    let w = merged_one(m, t, rename_head, elsewhere).0;
    if p >= m.len() {
        assert forall|i: int, j: int| 0 <= i < w.len() && 0 <= j < w.len() && i != j implies (
        #[trigger] w[i]).id != (#[trigger] w[j]).id by {
            if i < m.len() {
                assert(m[i] == w[i]);
            }
            if j < m.len() {
                assert(m[j] == w[j]);
            }
        }
    } else if m[p].content == t.content {
        assert forall|i: int, j: int| 0 <= i < w.len() && 0 <= j < w.len() && i != j implies (
        #[trigger] w[i]).id != (#[trigger] w[j]).id by {
            assert(w[i].id == m[i].id);
            assert(w[j].id == m[j].id);
        }
    } else {
        let x = moved_id(t.id, ids(m) + elsewhere);
        lemma_moved_id(m, elsewhere, t.id);
        lemma_ids(m, x);
        lemma_ids(m, t.id);
        assert(m[p].id == t.id);
        assert(x != t.id);
        let n = m.len() as int;
        if rename_head {
            assert forall|i: int, j: int| 0 <= i < w.len() && 0 <= j < w.len() && i != j implies (
            #[trigger] w[i]).id != (#[trigger] w[j]).id by {
                let a = if i < p { i } else { i + 1 };
                let b = if j < p { j } else { j + 1 };
                if i < n - 1 {
                    assert(w[i] == m[a]);
                    assert(m[a].id != m[p].id);
                }
                if j < n - 1 {
                    assert(w[j] == m[b]);
                    assert(m[b].id != m[p].id);
                }
            }
        } else {
            assert forall|i: int, j: int| 0 <= i < w.len() && 0 <= j < w.len() && i != j implies (
            #[trigger] w[i]).id != (#[trigger] w[j]).id by {
                if i < n {
                    assert(w[i] == m[i]);
                }
                if j < n {
                    assert(w[j] == m[j]);
                }
            }
        }
    }
}

/// A merge keeps IDs apart.
pub proof fn law_merge_keeps_ids_apart(
    head: Seq<NoteView>,
    theirs: Seq<NoteView>,
    rename_head: bool,
    elsewhere: Seq<Seq<char>>,
)
    requires
        apart(head),
    ensures
        apart(merged(head, theirs, rename_head, elsewhere).0),
    decreases theirs.len(),
{
    if theirs.len() > 0 {
        law_merge_keeps_ids_apart(head, theirs.drop_last(), rename_head, elsewhere);
        let m = merged(head, theirs.drop_last(), rename_head, elsewhere).0;
        lemma_step_apart(m, theirs.last(), rename_head, elsewhere);
    }
}

/// One step loses none of our notes.
proof fn lemma_step_head(
    m: Seq<NoteView>,
    t: NoteView,
    rename_head: bool,
    elsewhere: Seq<Seq<char>>,
    i: int,
) -> (j: int)
    requires
        0 <= i < m.len(),
    ensures
        0 <= j < merged_one(m, t, rename_head, elsewhere).0.len(),
        descends(merged_one(m, t, rename_head, elsewhere).0[j], m[i]),
{
    lemma_spot(m, t.id);
    let p = spot(m, t.id);
    let w = merged_one(m, t, rename_head, elsewhere).0;
    let same = m[i].links.take(m[i].links.len() as int);
    assert(same =~= m[i].links);
    if p >= m.len() {
        assert(w[i] == m[i]);
        i
    } else if m[p].content == t.content {
        lemma_united(m[p].links, cross_links(t));
        let u = united(m[p].links, cross_links(t));
        assert(u.take(m[p].links.len() as int) =~= m[p].links);
        if i != p {
            assert(w[i] == m[i]);
        }
        i
    } else {
        let x = moved_id(t.id, ids(m) + elsewhere);
        if rename_head {
            if i == p {
                assert(w[m.len() - 1] == (NoteView { id: x, ..m[p] }));
                m.len() - 1
            } else if i < p {
                assert(w[i] == m[i]);
                i
            } else {
                assert(w[i - 1] == m[i]);
                i - 1
            }
        } else {
            assert(w[i] == m[i]);
            i
        }
    }
}

/// What descends from a descendant descends.
pub proof fn lemma_descends(a: NoteView, b: NoteView, c: NoteView)
    requires
        descends(a, b),
        descends(b, c),
    ensures
        descends(a, c),
{
    let n = c.links.len() as int;
    assert(a.links.take(n) =~= c.links) by {
        assert forall|i: int| 0 <= i < n implies a.links[i] == c.links[i] by {
            assert(a.links.take(b.links.len() as int)[i] == b.links[i]);
            assert(b.links.take(n)[i] == c.links[i]);
        }
    }
}

/// No note of ours is lost in a merge: each is there afterwards, perhaps under another ID,
/// perhaps with more links.
pub proof fn law_ours_survive(
    head: Seq<NoteView>,
    theirs: Seq<NoteView>,
    rename_head: bool,
    elsewhere: Seq<Seq<char>>,
    i: int,
)
    requires
        0 <= i < head.len(),
    ensures
        exists|j: int|
            0 <= j < merged(head, theirs, rename_head, elsewhere).0.len() && descends(
                #[trigger] merged(head, theirs, rename_head, elsewhere).0[j],
                head[i],
            ),
    decreases theirs.len(),
{
    if theirs.len() == 0 {
        assert(head[i].links.take(head[i].links.len() as int) =~= head[i].links);
        assert(descends(merged(head, theirs, rename_head, elsewhere).0[i], head[i]));
    } else {
        let m = merged(head, theirs.drop_last(), rename_head, elsewhere).0;
        law_ours_survive(head, theirs.drop_last(), rename_head, elsewhere, i);
        let k = choose|k: int| 0 <= k < m.len() && descends(#[trigger] m[k], head[i]);
        let j = lemma_step_head(m, theirs.last(), rename_head, elsewhere, k);
        lemma_descends(merged(head, theirs, rename_head, elsewhere).0[j], m[k], head[i]);
    }
}

/// One step for another ID leaves a note as it is.
proof fn lemma_step_untouched(
    m: Seq<NoteView>,
    s: NoteView,
    rename_head: bool,
    elsewhere: Seq<Seq<char>>,
    n: NoteView,
)
    requires
        s.id != n.id,
        m.contains(n),
    ensures
        merged_one(m, s, rename_head, elsewhere).0.contains(n),
{
    lemma_spot(m, s.id);
    let p = spot(m, s.id);
    let w = merged_one(m, s, rename_head, elsewhere).0;
    let i = choose|i: int| 0 <= i < m.len() && m[i] == n;
    if p >= m.len() {
        assert(w[i] == n);
    } else if m[p].content == s.content {
        assert(i != p);
        assert(w[i] == n);
    } else {
        assert(i != p);
        if rename_head && i > p {
            assert(w[i - 1] == n);
        } else {
            assert(w[i] == n);
        }
    }
}

/// Steps for other IDs leave a note as it is.
pub proof fn lemma_untouched(
    m: Seq<NoteView>,
    theirs: Seq<NoteView>,
    rename_head: bool,
    elsewhere: Seq<Seq<char>>,
    n: NoteView,
)
    requires
        m.contains(n),
        forall|j: int| 0 <= j < theirs.len() ==> (#[trigger] theirs[j]).id != n.id,
    ensures
        merged(m, theirs, rename_head, elsewhere).0.contains(n),
    decreases theirs.len(),
{
    if theirs.len() > 0 {
        let r = theirs.drop_last();
        assert forall|j: int| 0 <= j < r.len() implies (#[trigger] r[j]).id != n.id by {
            assert(r[j] == theirs[j]);
        }
        lemma_untouched(m, r, rename_head, elsewhere, n);
        assert(theirs[theirs.len() - 1] == theirs.last());
        let w = merged(m, r, rename_head, elsewhere).0;
        lemma_step_untouched(w, theirs.last(), rename_head, elsewhere, n);
    }
}

/// A note that only our side has stays as it is.
pub proof fn law_only_ours_stays(
    head: Seq<NoteView>,
    theirs: Seq<NoteView>,
    rename_head: bool,
    elsewhere: Seq<Seq<char>>,
    i: int,
)
    requires
        0 <= i < head.len(),
        forall|j: int| 0 <= j < theirs.len() ==> (#[trigger] theirs[j]).id != head[i].id,
    ensures
        merged(head, theirs, rename_head, elsewhere).0.contains(head[i]),
{
    assert(head.contains(head[i]));
    lemma_untouched(head, theirs, rename_head, elsewhere, head[i]);
}

/// A merge in two parts.
pub proof fn lemma_merged_parts(
    head: Seq<NoteView>,
    theirs: Seq<NoteView>,
    rename_head: bool,
    elsewhere: Seq<Seq<char>>,
    k: int,
)
    requires
        0 <= k <= theirs.len(),
    ensures
        merged(head, theirs, rename_head, elsewhere).0 == merged(
            merged(head, theirs.take(k), rename_head, elsewhere).0,
            theirs.skip(k),
            rename_head,
            elsewhere,
        ).0,
    decreases theirs.len() - k,
{
    if k == theirs.len() {
        assert(theirs.take(k) =~= theirs);
    } else {
        let r = theirs.drop_last();
        lemma_merged_parts(head, r, rename_head, elsewhere, k);
        assert(r.take(k) =~= theirs.take(k));
        assert(theirs.skip(k).drop_last() =~= r.skip(k));
        assert(theirs.skip(k).last() == theirs.last());
    }
}

/// Where both sides have a note with the same ID and content, the result has ours with the
/// links of both.
pub proof fn law_same_content_unites_links(
    head: Seq<NoteView>,
    theirs: Seq<NoteView>,
    rename_head: bool,
    elsewhere: Seq<Seq<char>>,
    i: int,
    j: int,
)
    requires
        apart(head),
        apart(theirs),
        0 <= i < head.len(),
        0 <= j < theirs.len(),
        head[i].id == theirs[j].id,
        head[i].content == theirs[j].content,
    ensures
        merged(head, theirs, rename_head, elsewhere).0.contains(with_links_of(head[i], theirs[j])),
{
    let h = head[i];
    let t = theirs[j];
    let a = theirs.take(j);
    let b = theirs.skip(j + 1);
    assert forall|k: int| 0 <= k < a.len() implies (#[trigger] a[k]).id != h.id by {
        assert(a[k] == theirs[k]);
    }
    assert forall|k: int| 0 <= k < b.len() implies (#[trigger] b[k]).id != h.id by {
        assert(b[k] == theirs[j + 1 + k]);
    }
    assert(head.contains(h));
    lemma_untouched(head, a, rename_head, elsewhere, h);
    law_merge_keeps_ids_apart(head, a, rename_head, elsewhere);
    let m = merged(head, a, rename_head, elsewhere).0;
    let p = choose|p: int| 0 <= p < m.len() && m[p] == h;
    lemma_spot_apart(m, p);
    let w = merged_one(m, t, rename_head, elsewhere).0;
    assert(w[p] == with_links_of(h, t));
    assert(theirs.take(j + 1).drop_last() =~= a);
    assert(theirs.take(j + 1).last() == t);
    lemma_merged_parts(head, theirs, rename_head, elsewhere, j + 1);
    lemma_untouched(w, b, rename_head, elsewhere, with_links_of(h, t));
}

/// What an incoming note says is not lost either, whichever side gives way: some note says
/// it afterwards.
pub proof fn law_theirs_are_heard(
    head: Seq<NoteView>,
    theirs: Seq<NoteView>,
    rename_head: bool,
    elsewhere: Seq<Seq<char>>,
    j: int,
)
    requires
        0 <= j < theirs.len(),
    ensures
        exists|k: int|
            0 <= k < merged(head, theirs, rename_head, elsewhere).0.len() && (#[trigger] merged(
                head,
                theirs,
                rename_head,
                elsewhere,
            ).0[k]).content == theirs[j].content,
{
    let t = theirs[j];
    let m = merged(head, theirs.take(j), rename_head, elsewhere).0;
    let w = merged_one(m, t, rename_head, elsewhere).0;
    lemma_spot(m, t.id);
    let p = spot(m, t.id);
    let i = if p < m.len() && m[p].content == t.content {
        p
    } else {
        w.len() - 1
    };
    assert(w[i].content == t.content);
    assert(theirs.take(j + 1).drop_last() =~= theirs.take(j));
    assert(theirs.take(j + 1).last() == t);
    lemma_merged_parts(head, theirs, rename_head, elsewhere, j + 1);
    law_ours_survive(w, theirs.skip(j + 1), rename_head, elsewhere, i);
}

/// One step with ours giving way takes in the incoming note as it is.
proof fn lemma_step_theirs(m: Seq<NoteView>, t: NoteView, elsewhere: Seq<Seq<char>>)
    ensures
        keeps(merged_one(m, t, true, elsewhere).0, t),
{
    lemma_spot(m, t.id);
    let p = spot(m, t.id);
    let w = merged_one(m, t, true, elsewhere).0;
    let c = cross_links(t);
    assert forall|l: int| 0 <= l < c.len() implies t.links.contains(#[trigger] c[l]) by {
        assert(t.links[l + 1] == c[l]);
    }
    assert(has_as(t, t));
    if p >= m.len() {
        assert(has_as(w[m.len() as int], t));
    } else if m[p].content == t.content {
        lemma_united(m[p].links, c);
        assert(has_as(w[p], t));
    } else {
        assert(has_as(w[w.len() - 1], t));
    }
}

/// One step for another note leaves the note under its ID.
proof fn lemma_step_keeps(m: Seq<NoteView>, s: NoteView, t: NoteView, elsewhere: Seq<Seq<char>>)
    requires
        s.id != t.id,
        keeps(m, t),
    ensures
        keeps(merged_one(m, s, true, elsewhere).0, t),
{
    lemma_spot(m, s.id);
    let p = spot(m, s.id);
    let w = merged_one(m, s, true, elsewhere).0;
    let i = choose|i: int| 0 <= i < m.len() && #[trigger] has_as(m[i], t);
    if p >= m.len() {
        assert(w[i] == m[i]);
    } else if m[p].content == s.content {
        assert(i != p);
        assert(w[i] == m[i]);
    } else {
        assert(i != p);
        if i < p {
            assert(w[i] == m[i]);
        } else {
            assert(w[i - 1] == m[i]);
        }
    }
}

/// Where ours give way, every incoming note keeps its ID and its content.
pub proof fn law_theirs_keep_their_place(
    head: Seq<NoteView>,
    theirs: Seq<NoteView>,
    elsewhere: Seq<Seq<char>>,
    i: int,
)
    requires
        apart(theirs),
        0 <= i < theirs.len(),
    ensures
        keeps(merged(head, theirs, true, elsewhere).0, theirs[i]),
    decreases theirs.len(),
{
    let n = theirs.len() - 1;
    let r = theirs.drop_last();
    let m = merged(head, r, true, elsewhere).0;
    if i == n {
        lemma_step_theirs(m, theirs[n], elsewhere);
    } else {
        assert forall|a: int, b: int| 0 <= a < r.len() && 0 <= b < r.len() && a != b implies (
        #[trigger] r[a]).id != (#[trigger] r[b]).id by {
            assert(r[a] == theirs[a] && r[b] == theirs[b]);
        }
        assert(r[i] == theirs[i]);
        law_theirs_keep_their_place(head, r, elsewhere, i);
        assert(theirs[n].id != theirs[i].id);
        lemma_step_keeps(m, theirs[n], theirs[i], elsewhere);
    }
}

/// The same notes in whatever order have different IDs if they had.
pub proof fn lemma_same_apart(m: Seq<NoteView>, s: Seq<NoteView>)
    requires
        m.to_multiset() == s.to_multiset(),
        apart(m),
    ensures
        apart(s),
        forall|n: NoteView| s.contains(n) <==> m.contains(n),
{
    broadcast use vstd::seq_lib::group_to_multiset_ensures;

    assert forall|n: NoteView| s.contains(n) <==> m.contains(n) by {
        assert(s.contains(n) <==> s.to_multiset().count(n) > 0);
        assert(m.contains(n) <==> m.to_multiset().count(n) > 0);
    }
    assert(m.no_duplicates()) by {
        assert forall|i: int, j: int| 0 <= i < m.len() && 0 <= j < m.len() && i != j implies m[i] != m[j] by {
            assert(m[i].id != m[j].id);
        }
    }
    m.lemma_multiset_has_no_duplicates();
    s.lemma_multiset_has_no_duplicates_conv();
    assert forall|i: int, j: int| 0 <= i < s.len() && 0 <= j < s.len() && i != j implies (#[trigger] s[i]).id
        != (#[trigger] s[j]).id by {
        assert(s.contains(s[i]) && s.contains(s[j]));
        let a = choose|a: int| 0 <= a < m.len() && m[a] == s[i];
        let b = choose|b: int| 0 <= b < m.len() && m[b] == s[j];
        if a == b {
            assert(s[i] == s[j]);
        } else {
            assert(m[a].id != m[b].id);
        }
    }
}

/// Notes put in order are the same notes, and have different IDs if they had.
pub proof fn lemma_arranged_apart(m: Seq<NoteView>, s: Seq<NoteView>)
    requires
        arranged(m, s),
        apart(m),
    ensures
        apart(s),
        forall|n: NoteView| s.contains(n) <==> m.contains(n),
{
    lemma_same_apart(m, s);
}

/// What notes keep, they keep when put in order.
proof fn lemma_arranged_keeps(m: Seq<NoteView>, s: Seq<NoteView>, t: NoteView)
    requires
        arranged(m, s),
        apart(m),
        keeps(m, t),
    ensures
        keeps(s, t),
{
    lemma_arranged_apart(m, s);
    let i = choose|i: int| 0 <= i < m.len() && #[trigger] has_as(m[i], t);
    assert(m.contains(m[i]));
    assert(s.contains(m[i]));
    let k = choose|k: int| 0 <= k < s.len() && s[k] == m[i];
    assert(has_as(s[k], t));
}

/// A note that is there already changes nothing.
proof fn lemma_step_nothing(
    m: Seq<NoteView>,
    t: NoteView,
    rename_head: bool,
    elsewhere: Seq<Seq<char>>,
)
    requires
        apart(m),
        keeps(m, t),
    ensures
        merged_one(m, t, rename_head, elsewhere) == (m, Seq::<Deed>::empty()),
{
    let i = choose|i: int| 0 <= i < m.len() && #[trigger] has_as(m[i], t);
    lemma_spot_apart(m, i);
    lemma_united_none(m[i].links, cross_links(t));
    assert(with_links_of(m[i], t) == m[i]);
    assert(m.update(i, m[i]) =~= m);
}

/// Notes that are there already change nothing.
proof fn lemma_nothing_new(
    m: Seq<NoteView>,
    theirs: Seq<NoteView>,
    rename_head: bool,
    elsewhere: Seq<Seq<char>>,
)
    requires
        apart(m),
        forall|i: int| 0 <= i < theirs.len() ==> keeps(m, #[trigger] theirs[i]),
    ensures
        merged(m, theirs, rename_head, elsewhere) == (m, Seq::<Deed>::empty()),
    decreases theirs.len(),
{
    if theirs.len() > 0 {
        let r = theirs.drop_last();
        assert forall|i: int| 0 <= i < r.len() implies keeps(m, #[trigger] r[i]) by {
            assert(r[i] == theirs[i]);
        }
        lemma_nothing_new(m, r, rename_head, elsewhere);
        assert(theirs[theirs.len() - 1] == theirs.last());
        lemma_step_nothing(m, theirs.last(), rename_head, elsewhere);
        assert(Seq::<Deed>::empty() + Seq::<Deed>::empty() =~= Seq::<Deed>::empty());
    }
}

/// A resolved conflict does not come back: merging the same incoming notes into the result
/// changes nothing and does nothing.
pub proof fn law_merging_again_changes_nothing(
    head: Seq<NoteView>,
    theirs: Seq<NoteView>,
    result: Seq<NoteView>,
    elsewhere: Seq<Seq<char>>,
    rename_head: bool,
    later: Seq<Seq<char>>,
)
    requires
        apart(head),
        apart(theirs),
        arranged(merged(head, theirs, true, elsewhere).0, result),
    ensures
        merged(result, theirs, rename_head, later) == (result, Seq::<Deed>::empty()),
{
    let m = merged(head, theirs, true, elsewhere).0;
    law_merge_keeps_ids_apart(head, theirs, true, elsewhere);
    lemma_arranged_apart(m, result);
    assert forall|i: int| 0 <= i < theirs.len() implies keeps(result, #[trigger] theirs[i]) by {
        law_theirs_keep_their_place(head, theirs, elsewhere, i);
        lemma_arranged_keeps(m, result, theirs[i]);
    }
    lemma_nothing_new(result, theirs, rename_head, later);
}

/// Every note of `m` has the ID and the content of a note of `r`.
pub open spec fn agrees(m: Seq<NoteView>, r: Seq<NoteView>) -> bool {
    forall|j: int| 0 <= j < m.len() ==> exists|k: int|
        0 <= k < r.len() && (#[trigger] r[k]).id == (#[trigger] m[j]).id && r[k].content == m[j].content
}

/// Merging notes of `r` into notes that agree with `r` renames nothing.
proof fn lemma_agreeing(
    m: Seq<NoteView>,
    r: Seq<NoteView>,
    n: int,
    rename_head: bool,
    elsewhere: Seq<Seq<char>>,
)
    requires
        apart(r),
        agrees(m, r),
        0 <= n <= r.len(),
    ensures
        agrees(merged(m, r.take(n), rename_head, elsewhere).0, r),
        forall|i: int|
            0 <= i < merged(m, r.take(n), rename_head, elsewhere).1.len() ==> !((#[trigger] merged(
                m,
                r.take(n),
                rename_head,
                elsewhere,
            ).1[i]) is Renamed),
    decreases n,
{
    if n > 0 {
        lemma_agreeing(m, r, n - 1, rename_head, elsewhere);
        assert(r.take(n).drop_last() =~= r.take(n - 1));
        let t = r[n - 1];
        assert(r.take(n).last() == t);
        let (w, done) = merged(m, r.take(n - 1), rename_head, elsewhere);
        lemma_spot(w, t.id);
        let p = spot(w, t.id);
        let (next, more) = merged_one(w, t, rename_head, elsewhere);
        if p < w.len() {
            assert(w[p].id == t.id);
            let k = choose|k: int|
                0 <= k < r.len() && (#[trigger] r[k]).id == w[p].id && r[k].content == w[p].content;
            assert(k == n - 1);
        }
        assert(more.len() <= 1);
        assert(more.len() == 1 ==> !(more[0] is Renamed));
        assert forall|j: int| 0 <= j < next.len() implies exists|k: int|
            0 <= k < r.len() && (#[trigger] r[k]).id == (#[trigger] next[j]).id && r[k].content
                == next[j].content by {
            if j < w.len() {
                assert(next[j].id == w[j].id && next[j].content == w[j].content);
                let k = choose|k: int|
                    0 <= k < r.len() && (#[trigger] r[k]).id == w[j].id && r[k].content == w[j].content;
                assert(r[k].id == next[j].id);
            } else {
                assert(r[n - 1].id == next[j].id);
            }
        }
        let all = merged(m, r.take(n), rename_head, elsewhere).1;
        assert(all == done + more);
        assert forall|i: int| 0 <= i < all.len() implies !((#[trigger] all[i]) is Renamed) by {
            if i < done.len() {
                assert(all[i] == done[i]);
            } else {
                assert(all[i] == more[i - done.len()]);
            }
        }
    }
}

/// Nor does it come back for the others: merging the result into their notes renames
/// nothing.
pub proof fn law_conflict_does_not_recur(
    head: Seq<NoteView>,
    theirs: Seq<NoteView>,
    result: Seq<NoteView>,
    elsewhere: Seq<Seq<char>>,
    rename_head: bool,
    later: Seq<Seq<char>>,
)
    requires
        apart(head),
        apart(theirs),
        arranged(merged(head, theirs, true, elsewhere).0, result),
    ensures
        forall|i: int|
            0 <= i < merged(theirs, result, rename_head, later).1.len() ==> !((#[trigger] merged(
                theirs,
                result,
                rename_head,
                later,
            ).1[i]) is Renamed),
{
    let m = merged(head, theirs, true, elsewhere).0;
    law_merge_keeps_ids_apart(head, theirs, true, elsewhere);
    lemma_arranged_apart(m, result);
    assert forall|j: int| 0 <= j < theirs.len() implies exists|k: int|
        0 <= k < result.len() && (#[trigger] result[k]).id == (#[trigger] theirs[j]).id && result[k].content
            == theirs[j].content by {
        law_theirs_keep_their_place(head, theirs, elsewhere, j);
        lemma_arranged_keeps(m, result, theirs[j]);
        let k = choose|k: int| 0 <= k < result.len() && #[trigger] has_as(result[k], theirs[j]);
        assert(result[k].id == theirs[j].id);
    }
    lemma_agreeing(theirs, result, result.len() as int, rename_head, later);
    assert(result.take(result.len() as int) =~= result);
}

/// The IDs of the result of one step come from the two sides, or are free elsewhere.
proof fn lemma_step_elsewhere(
    m: Seq<NoteView>,
    t: NoteView,
    rename_head: bool,
    elsewhere: Seq<Seq<char>>,
)
    ensures
        forall|k: int|
            0 <= k < merged_one(m, t, rename_head, elsewhere).0.len() && elsewhere.contains(
                (#[trigger] merged_one(m, t, rename_head, elsewhere).0[k]).id,
            ) ==> ids(m).contains(merged_one(m, t, rename_head, elsewhere).0[k].id) || merged_one(
                m,
                t,
                rename_head,
                elsewhere,
            ).0[k].id == t.id,
        forall|k: int|
            0 <= k < merged_one(m, t, rename_head, elsewhere).1.len() ==> ((#[trigger] merged_one(
                m,
                t,
                rename_head,
                elsewhere,
            ).1[k]) matches Deed::Renamed { original, renamed_to } ==> !elsewhere.contains(renamed_to)),
{
    lemma_spot(m, t.id);
    lemma_moved_id(m, elsewhere, t.id);
    let p = spot(m, t.id);
    let w = merged_one(m, t, rename_head, elsewhere).0;
    assert forall|k: int| 0 <= k < w.len() && elsewhere.contains((#[trigger] w[k]).id) implies ids(
        m,
    ).contains(w[k].id) || w[k].id == t.id by {
        lemma_ids(m, w[k].id);
        if p < m.len() && m[p].content != t.content && rename_head {
            if k < m.len() - 1 {
                let a = if k < p { k } else { k + 1 };
                assert(w[k] == m[a]);
            }
        } else if k < m.len() {
            assert(w[k].id == m[k].id);
        }
    }
}

/// No note moves to the ID of a note in another draw: an ID of the result that is also
/// taken elsewhere was there on one of the two sides before.
pub proof fn law_no_move_to_another_draw(
    head: Seq<NoteView>,
    theirs: Seq<NoteView>,
    rename_head: bool,
    elsewhere: Seq<Seq<char>>,
)
    ensures
        forall|k: int|
            0 <= k < merged(head, theirs, rename_head, elsewhere).0.len() && elsewhere.contains(
                (#[trigger] merged(head, theirs, rename_head, elsewhere).0[k]).id,
            ) ==> ids(head).contains(merged(head, theirs, rename_head, elsewhere).0[k].id) || ids(
                theirs,
            ).contains(merged(head, theirs, rename_head, elsewhere).0[k].id),
        forall|k: int|
            0 <= k < merged(head, theirs, rename_head, elsewhere).1.len() ==> ((#[trigger] merged(
                head,
                theirs,
                rename_head,
                elsewhere,
            ).1[k]) matches Deed::Renamed { original, renamed_to } ==> !elsewhere.contains(renamed_to)),
    decreases theirs.len(),
{
    let (w, deeds) = merged(head, theirs, rename_head, elsewhere);
    if theirs.len() == 0 {
        assert forall|k: int| 0 <= k < w.len() && elsewhere.contains((#[trigger] w[k]).id) implies ids(
            head,
        ).contains(w[k].id) by {
            assert(ids(head)[k] == w[k].id);
        }
    } else {
        let r = theirs.drop_last();
        let t = theirs.last();
        law_no_move_to_another_draw(head, r, rename_head, elsewhere);
        let (m, done) = merged(head, r, rename_head, elsewhere);
        let (next, more) = merged_one(m, t, rename_head, elsewhere);
        lemma_step_elsewhere(m, t, rename_head, elsewhere);
        assert forall|k: int| 0 <= k < w.len() && elsewhere.contains((#[trigger] w[k]).id) implies ids(
            head,
        ).contains(w[k].id) || ids(theirs).contains(w[k].id) by {
            assert(next[k] == w[k]);
            if w[k].id == t.id {
                assert(ids(theirs)[theirs.len() - 1] == t.id);
            } else {
                lemma_ids(m, w[k].id);
                let a = choose|a: int| 0 <= a < m.len() && (#[trigger] m[a]).id == w[k].id;
                if ids(r).contains(m[a].id) {
                    let b = choose|b: int| 0 <= b < ids(r).len() && ids(r)[b] == m[a].id;
                    assert(ids(theirs)[b] == m[a].id);
                }
            }
        }
        assert forall|k: int| 0 <= k < deeds.len() implies ((#[trigger] deeds[k]) matches Deed::Renamed {
            original,
            renamed_to,
        } ==> !elsewhere.contains(renamed_to)) by {
            if k < done.len() {
                assert(deeds[k] == done[k]);
            } else {
                assert(deeds[k] == more[k - done.len()]);
            }
        }
    }
}

} // verus!
