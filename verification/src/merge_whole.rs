//! What holds of a merge across all draws.

use crate::id_laws::law_arranged;
use crate::merge::{
    all_come_to, comes_to, deeds, found_ids, ids, ids_beside, ids_found, ids_held, index_of, merged,
    report_views, reports_of, with_notes, FoundView, MergeReport,
};
use crate::merge_laws::{
    apart, descends, has_as, keeps, law_merge_keeps_ids_apart, law_no_move_to_another_draw,
    law_ours_survive, law_theirs_keep_their_place, lemma_arranged_apart, lemma_ids,
};
use crate::model::{cross_links, lemma_note_with_at, loaded, BoxView};
use crate::note::NoteView;
use crate::order::id_lt;
use crate::sort::arranged;
use vstd::prelude::*;

verus! {

/// The draws as our side has them.
pub open spec fn our_side(found: Seq<FoundView>) -> Seq<(u32, Seq<NoteView>)> {
    found.map_values(|f: FoundView| (f.num, f.ours))
}

/// The draws as the incoming side has them: a draw that is not in conflict is the same on
/// both.
pub open spec fn their_side(found: Seq<FoundView>) -> Seq<(u32, Seq<NoteView>)> {
    found.map_values(
        |f: FoundView|
            (
                f.num,
                match f.theirs {
                    Some(t) => t,
                    None => f.ours,
                },
            ),
    )
}

/// No two notes in any of the draws have the same ID.
pub open spec fn apart_across(draws: Seq<(u32, Seq<NoteView>)>) -> bool {
    &&& forall|i: int| 0 <= i < draws.len() ==> apart((#[trigger] draws[i]).1)
    &&& forall|i: int, j: int|
        0 <= i < draws.len() && 0 <= j < draws.len() && i != j ==> disjoint(
            ids((#[trigger] draws[i]).1),
            ids((#[trigger] draws[j]).1),
        )
}

/// No ID is among both.
pub open spec fn disjoint(a: Seq<Seq<char>>, b: Seq<Seq<char>>) -> bool {
    forall|x: Seq<char>| !(#[trigger] a.contains(x) && b.contains(x))
}

/// No two notes of one side have the same ID, on either side, and no ID is in one draw on
/// our side and in another on the incoming side.
pub open spec fn well_apart(found: Seq<FoundView>) -> bool {
    &&& apart_across(our_side(found))
    &&& apart_across(their_side(found))
    &&& forall|i: int, j: int|
        0 <= i < found.len() && 0 <= j < found.len() && i != j ==> disjoint(
            ids((#[trigger] our_side(found)[i]).1),
            ids((#[trigger] their_side(found)[j]).1),
        )
}

// ── IDs beside a draw ────────────────────────────────────────────────────────

/// What one of two lists has, both together have.
proof fn lemma_joined(a: Seq<Seq<char>>, b: Seq<Seq<char>>, x: Seq<char>)
    ensures
        (a + b).contains(x) <==> a.contains(x) || b.contains(x),
{
    let s = a + b;
    if a.contains(x) {
        let i = choose|i: int| 0 <= i < a.len() && a[i] == x;
        assert(s[i] == x);
    }
    if b.contains(x) {
        let i = choose|i: int| 0 <= i < b.len() && b[i] == x;
        assert(s[a.len() + i] == x);
    }
    if s.contains(x) {
        let i = choose|i: int| 0 <= i < s.len() && s[i] == x;
        if i < a.len() {
            assert(a[i] == x);
        } else {
            assert(b[i - a.len()] == x);
        }
    }
}

/// The IDs of one draw are among those of all.
proof fn lemma_held(s: Seq<(u32, Seq<NoteView>)>, i: int, x: Seq<char>)
    requires
        0 <= i < s.len(),
        ids(s[i].1).contains(x),
    ensures
        ids_held(s).contains(x),
    decreases s.len(),
{
    let r = s.drop_last();
    lemma_joined(ids_held(r), ids(s.last().1), x);
    if i < r.len() {
        assert(r[i] == s[i]);
        lemma_held(r, i, x);
    }
}

/// The IDs of one draw that was found are among those of all.
proof fn lemma_found(s: Seq<FoundView>, i: int, x: Seq<char>)
    requires
        0 <= i < s.len(),
        found_ids(s[i]).contains(x),
    ensures
        ids_found(s).contains(x),
    decreases s.len(),
{
    let r = s.drop_last();
    lemma_joined(ids_found(r), found_ids(s.last()), x);
    if i < r.len() {
        assert(r[i] == s[i]);
        lemma_found(r, i, x);
    }
}

/// The same notes in another order have the same IDs.
proof fn lemma_arranged_ids(m: Seq<NoteView>, s: Seq<NoteView>, x: Seq<char>)
    requires
        arranged(m, s),
        ids(s).contains(x),
    ensures
        ids(m).contains(x),
{
    broadcast use vstd::seq_lib::group_to_multiset_ensures;

    lemma_ids(s, x);
    lemma_ids(m, x);
    let i = choose|i: int| 0 <= i < s.len() && (#[trigger] s[i]).id == x;
    assert(s.contains(s[i]));
    assert(s.to_multiset().count(s[i]) > 0);
    assert(m.contains(s[i]));
    let k = choose|k: int| 0 <= k < m.len() && m[k] == s[i];
    assert(m[k].id == x);
}

/// An ID that a draw comes to have was in it on one of the two sides, or is free beside it.
proof fn lemma_new_is_free(f: FoundView, beside: Seq<Seq<char>>, after: (u32, Seq<NoteView>), x: Seq<char>)
    requires
        comes_to(f, beside, after),
        ids(after.1).contains(x),
    ensures
        found_ids(f).contains(x) || !beside.contains(x),
{
    if let Some(t) = f.theirs {
        let m = merged(f.ours, t, true, beside).0;
        lemma_arranged_ids(m, after.1, x);
        law_no_move_to_another_draw(f.ours, t, true, beside);
        lemma_ids(m, x);
        let k = choose|k: int| 0 <= k < m.len() && (#[trigger] m[k]).id == x;
        assert(m[k].id == x);
        lemma_joined(ids(f.ours), ids(t), x);
    }
}

/// Resolving brings no two draws together: an ID that two of them share afterwards was in
/// both of them before, on one side or the other.
pub proof fn law_draws_share_no_more(
    found: Seq<FoundView>,
    done: Seq<(u32, Seq<NoteView>)>,
    i: int,
    j: int,
    x: Seq<char>,
)
    requires
        all_come_to(found, done),
        0 <= i < found.len(),
        0 <= j < found.len(),
        i != j,
        ids(done[i].1).contains(x),
        ids(done[j].1).contains(x),
    ensures
        found_ids(found[i]).contains(x),
        found_ids(found[j]).contains(x),
{
    if i < j {
        lemma_later_shares(found, done, i, j, x);
    } else {
        lemma_later_shares(found, done, j, i, x);
    }
}

/// `law_draws_share_no_more`, the later draw standing last.
proof fn lemma_later_shares(
    found: Seq<FoundView>,
    done: Seq<(u32, Seq<NoteView>)>,
    i: int,
    j: int,
    x: Seq<char>,
)
    requires
        all_come_to(found, done),
        0 <= i < j < found.len(),
        ids(done[i].1).contains(x),
        ids(done[j].1).contains(x),
    ensures
        found_ids(found[i]).contains(x),
        found_ids(found[j]).contains(x),
{
    let bi = ids_beside(found, done, i);
    let bj = ids_beside(found, done, j);
    assert(comes_to(found[i], bi, done[i]));
    assert(comes_to(found[j], bj, done[j]));
    lemma_new_is_free(found[i], bi, done[i], x);
    lemma_new_is_free(found[j], bj, done[j], x);
    lemma_joined(ids_held(done.take(j)), ids_found(found.skip(j + 1)), x);
    assert(done.take(j)[i] == done[i]);
    lemma_held(done.take(j), i, x);
    lemma_joined(ids_held(done.take(i)), ids_found(found.skip(i + 1)), x);
    assert(found.skip(i + 1)[j - i - 1] == found[j]);
    lemma_found(found.skip(i + 1), j - i - 1, x);
}

// ── All notes keep IDs of their own ──────────────────────────────────────────

/// An ID of a draw that was found is on one of the two sides.
proof fn lemma_on_a_side(found: Seq<FoundView>, i: int, x: Seq<char>)
    requires
        0 <= i < found.len(),
        found_ids(found[i]).contains(x),
    ensures
        ids(our_side(found)[i].1).contains(x) || ids(their_side(found)[i].1).contains(x),
{
    if let Some(t) = found[i].theirs {
        lemma_joined(ids(found[i].ours), ids(t), x);
    }
}

/// Where the notes of each side had IDs of their own, across all draws, all notes have
/// them afterwards.
pub proof fn law_all_stay_apart(found: Seq<FoundView>, done: Seq<(u32, Seq<NoteView>)>)
    requires
        all_come_to(found, done),
        well_apart(found),
    ensures
        apart_across(done),
{
    assert forall|i: int| 0 <= i < done.len() implies apart((#[trigger] done[i]).1) by {
        let beside = ids_beside(found, done, i);
        assert(comes_to(found[i], beside, done[i]));
        assert(apart(our_side(found)[i].1));
        if let Some(t) = found[i].theirs {
            law_merge_keeps_ids_apart(found[i].ours, t, true, beside);
            lemma_arranged_apart(merged(found[i].ours, t, true, beside).0, done[i].1);
        }
    }
    assert forall|i: int, j: int| 0 <= i < done.len() && 0 <= j < done.len() && i != j implies disjoint(
        ids((#[trigger] done[i]).1),
        ids((#[trigger] done[j]).1),
    ) by {
        assert forall|x: Seq<char>| !(#[trigger] ids(done[i].1).contains(x) && ids(done[j].1).contains(x)) by {
            if ids(done[i].1).contains(x) && ids(done[j].1).contains(x) {
                law_draws_share_no_more(found, done, i, j, x);
                lemma_on_a_side(found, i, x);
                lemma_on_a_side(found, j, x);
                let (oi, oj) = (our_side(found)[i], our_side(found)[j]);
                let (ti, tj) = (their_side(found)[i], their_side(found)[j]);
                assert(disjoint(ids(oi.1), ids(oj.1)));
                assert(disjoint(ids(ti.1), ids(tj.1)));
                assert(disjoint(ids(oi.1), ids(tj.1)));
                assert(disjoint(ids(oj.1), ids(ti.1)));
            }
        }
    }
}

// ── The index ────────────────────────────────────────────────────────────────

/// The index with the notes of one draw.
proof fn lemma_with_notes(index: Map<Seq<char>, u32>, num: u32, notes: Seq<NoteView>, x: Seq<char>)
    ensures
        with_notes(index, num, notes).contains_key(x) <==> index.contains_key(x) || ids(notes).contains(x),
        ids(notes).contains(x) ==> with_notes(index, num, notes)[x] == num,
        !ids(notes).contains(x) && index.contains_key(x) ==> with_notes(index, num, notes)[x] == index[x],
    decreases notes.len(),
{
    if notes.len() > 0 {
        let r = notes.drop_last();
        lemma_with_notes(index, num, r, x);
        assert(ids(notes) =~= ids(r) + seq![notes.last().id]);
        lemma_joined(ids(r), seq![notes.last().id], x);
        if x == notes.last().id {
            assert(seq![notes.last().id][0] == x);
        }
    } else {
        assert(!ids(notes).contains(x));
    }
}

/// The index of draws knows just the IDs that they hold, and has for each a draw that
/// holds it.
pub proof fn law_index_knows_what_is_held(draws: Seq<(u32, Seq<NoteView>)>, x: Seq<char>)
    ensures
        index_of(draws).contains_key(x) <==> exists|i: int|
            0 <= i < draws.len() && ids((#[trigger] draws[i]).1).contains(x),
        index_of(draws).contains_key(x) ==> exists|i: int|
            0 <= i < draws.len() && ids((#[trigger] draws[i]).1).contains(x) && index_of(draws)[x]
                == draws[i].0,
    decreases draws.len(),
{
    if draws.len() > 0 {
        let r = draws.drop_last();
        let n = draws.len() - 1;
        law_index_knows_what_is_held(r, x);
        lemma_with_notes(index_of(r), draws.last().0, draws.last().1, x);
        if ids(draws[n].1).contains(x) {
            assert(index_of(draws)[x] == draws[n].0);
        } else {
            if index_of(r).contains_key(x) {
                let i = choose|i: int|
                    0 <= i < r.len() && ids((#[trigger] r[i]).1).contains(x) && index_of(r)[x] == r[i].0;
                assert(draws[i] == r[i]);
            }
            if exists|i: int| 0 <= i < draws.len() && ids((#[trigger] draws[i]).1).contains(x) {
                let i = choose|i: int| 0 <= i < draws.len() && ids((#[trigger] draws[i]).1).contains(x);
                assert(r[i] == draws[i]);
            }
        }
    }
}

/// The index that is rebuilt from the resolved draws maps every note to the draw that it
/// lies in, where the notes of each side had IDs of their own.
pub proof fn law_rebuilt_index_maps_every_note(
    found: Seq<FoundView>,
    done: Seq<(u32, Seq<NoteView>)>,
    i: int,
    k: int,
)
    requires
        all_come_to(found, done),
        well_apart(found),
        0 <= i < done.len(),
        0 <= k < done[i].1.len(),
    ensures
        index_of(done).contains_key(done[i].1[k].id),
        index_of(done)[done[i].1[k].id] == done[i].0,
{
    let x = done[i].1[k].id;
    law_all_stay_apart(found, done);
    assert(ids(done[i].1)[k] == x);
    assert(ids(done[i].1).contains(x));
    law_index_knows_what_is_held(done, x);
    let j = choose|j: int|
        0 <= j < done.len() && ids((#[trigger] done[j]).1).contains(x) && index_of(done)[x] == done[j].0;
    if j != i {
        assert(disjoint(ids(done[i].1), ids(done[j].1)));
    }
}

// ── Every version is found ───────────────────────────────────────────────────

/// The box has the index that is rebuilt from the draws, and the draws themselves.
pub open spec fn holds_draws(b: BoxView, done: Seq<(u32, Seq<NoteView>)>) -> bool {
    &&& b.index == index_of(done)
    &&& forall|i: int|
        0 <= i < done.len() ==> (loaded(b.draws, (#[trigger] done[i]).0) matches Some(v) && arranged(
            done[i].1,
            v,
        ))
}

/// Every note of the resolved draws is found at its ID.
pub proof fn law_resolved_note_is_found(
    found: Seq<FoundView>,
    done: Seq<(u32, Seq<NoteView>)>,
    b: BoxView,
    i: int,
    n: NoteView,
)
    requires
        all_come_to(found, done),
        well_apart(found),
        holds_draws(b, done),
        0 <= i < done.len(),
        done[i].1.contains(n),
    ensures
        b.lookup(n.id) == Ok::<Option<NoteView>, u32>(Some(n)),
{
    let s = done[i].1;
    let k = choose|k: int| 0 <= k < s.len() && s[k] == n;
    law_rebuilt_index_maps_every_note(found, done, i, k);
    law_all_stay_apart(found, done);
    assert(apart(done[i].1));
    let v = loaded(b.draws, done[i].0).unwrap();
    assert(arranged(s, v));
    lemma_arranged_apart(s, v);
    assert(v.contains(n));
    let p = choose|p: int| 0 <= p < v.len() && v[p] == n;
    assert forall|q: int| 0 <= q < p implies (#[trigger] v[q]).id != n.id by {
        assert(v[p].id == n.id);
    }
    lemma_note_with_at(v, n.id, p);
}

/// Nothing is lost: once the conflicts in all draws are resolved and the index is rebuilt,
/// every note of ours is found, perhaps at another ID, perhaps with more links.
pub proof fn law_every_note_of_ours_is_found(
    found: Seq<FoundView>,
    done: Seq<(u32, Seq<NoteView>)>,
    b: BoxView,
    i: int,
    k: int,
)
    requires
        all_come_to(found, done),
        well_apart(found),
        holds_draws(b, done),
        0 <= i < found.len(),
        0 <= k < found[i].ours.len(),
    ensures
        exists|n: NoteView| #[trigger]
            descends(n, found[i].ours[k]) && b.lookup(n.id) == Ok::<Option<NoteView>, u32>(Some(n)),
{
    let h = found[i].ours[k];
    let beside = ids_beside(found, done, i);
    assert(comes_to(found[i], beside, done[i]));
    match found[i].theirs {
        None => {
            assert(h.links.take(h.links.len() as int) =~= h.links);
            assert(descends(h, h));
            assert(done[i].1[k] == h);
            law_resolved_note_is_found(found, done, b, i, h);
        },
        Some(t) => {
            let m = merged(found[i].ours, t, true, beside).0;
            assert(apart(our_side(found)[i].1));
            law_ours_survive(found[i].ours, t, true, beside, k);
            let j = choose|j: int| 0 <= j < m.len() && descends(#[trigger] m[j], h);
            law_merge_keeps_ids_apart(found[i].ours, t, true, beside);
            lemma_arranged_apart(m, done[i].1);
            assert(m.contains(m[j]));
            assert(done[i].1.contains(m[j]));
            law_resolved_note_is_found(found, done, b, i, m[j]);
        },
    }
}

/// And every incoming note is found at its own ID, with its content and its cross-links.
pub proof fn law_every_incoming_note_is_found(
    found: Seq<FoundView>,
    done: Seq<(u32, Seq<NoteView>)>,
    b: BoxView,
    i: int,
    k: int,
)
    requires
        all_come_to(found, done),
        well_apart(found),
        holds_draws(b, done),
        0 <= i < found.len(),
        0 <= k < their_side(found)[i].1.len(),
    ensures
        b.lookup(their_side(found)[i].1[k].id) matches Ok(Some(n)) && has_as(
            n,
            their_side(found)[i].1[k],
        ),
{
    let t = their_side(found)[i].1[k];
    let beside = ids_beside(found, done, i);
    assert(comes_to(found[i], beside, done[i]));
    match found[i].theirs {
        None => {
            let c = cross_links(t);
            assert forall|l: int| 0 <= l < c.len() implies t.links.contains(#[trigger] c[l]) by {
                assert(t.links[l + 1] == c[l]);
            }
            assert(has_as(t, t));
            assert(done[i].1[k] == t);
            law_resolved_note_is_found(found, done, b, i, t);
        },
        Some(theirs) => {
            let m = merged(found[i].ours, theirs, true, beside).0;
            assert(apart(our_side(found)[i].1));
            assert(apart(their_side(found)[i].1));
            law_theirs_keep_their_place(found[i].ours, theirs, beside, k);
            assert(keeps(m, t));
            let j = choose|j: int| 0 <= j < m.len() && #[trigger] has_as(m[j], t);
            law_merge_keeps_ids_apart(found[i].ours, theirs, true, beside);
            lemma_arranged_apart(m, done[i].1);
            assert(m.contains(m[j]));
            assert(done[i].1.contains(m[j]));
            law_resolved_note_is_found(found, done, b, i, m[j]);
        },
    }
}

// ── Draw by draw ─────────────────────────────────────────────────────────────

/// One of the notes has this ID.
pub open spec fn bears(s: Seq<NoteView>, x: Seq<char>) -> bool {
    exists|k: int| 0 <= k < s.len() && (#[trigger] s[k]).id == x
}

/// The ID is on our side of the draw or, where there is one, on the incoming side.
pub open spec fn bears_on_a_side(f: FoundView, x: Seq<char>) -> bool {
    bears(f.ours, x) || (f.theirs matches Some(t) && bears(t, x))
}

/// An ID is in a list just where a note has it.
proof fn lemma_bears(s: Seq<NoteView>, x: Seq<char>)
    ensures
        ids(s).contains(x) <==> bears(s, x),
{
    if ids(s).contains(x) {
        let k = choose|k: int| 0 <= k < ids(s).len() && ids(s)[k] == x;
        assert(s[k].id == x);
    }
    if bears(s, x) {
        let k = choose|k: int| 0 <= k < s.len() && (#[trigger] s[k]).id == x;
        assert(ids(s)[k] == x);
    }
}

/// An ID of one of the draws stands in one of them.
proof fn lemma_held_somewhere(s: Seq<(u32, Seq<NoteView>)>, x: Seq<char>) -> (i: int)
    requires
        ids_held(s).contains(x),
    ensures
        0 <= i < s.len(),
        ids(s[i].1).contains(x),
    decreases s.len(),
{
    if s.len() == 0 {
        0
    } else {
        lemma_joined(ids_held(s.drop_last()), ids(s.last().1), x);
        if ids(s.last().1).contains(x) {
            s.len() - 1
        } else {
            let i = lemma_held_somewhere(s.drop_last(), x);
            assert(s.drop_last()[i] == s[i]);
            i
        }
    }
}

/// An ID of one of the draws that were found stands on a side of one of them.
proof fn lemma_found_somewhere(s: Seq<FoundView>, x: Seq<char>) -> (i: int)
    requires
        ids_found(s).contains(x),
    ensures
        0 <= i < s.len(),
        found_ids(s[i]).contains(x),
    decreases s.len(),
{
    if s.len() == 0 {
        0
    } else {
        lemma_joined(ids_found(s.drop_last()), found_ids(s.last()), x);
        if found_ids(s.last()).contains(x) {
            s.len() - 1
        } else {
            let i = lemma_found_somewhere(s.drop_last(), x);
            assert(s.drop_last()[i] == s[i]);
            i
        }
    }
}

/// The IDs of a draw that was found are those on its sides.
proof fn lemma_sides_of(f: FoundView, x: Seq<char>)
    ensures
        found_ids(f).contains(x) <==> bears_on_a_side(f, x),
{
    lemma_bears(f.ours, x);
    if let Some(t) = f.theirs {
        lemma_bears(t, x);
        lemma_joined(ids(f.ours), ids(t), x);
    }
}

/// What is taken beside a draw: every ID that a note has in a draw before it, as that has
/// come out, or on a side of a draw behind it, and no other.
pub proof fn law_taken_beside(
    found: Seq<FoundView>,
    done: Seq<(u32, Seq<NoteView>)>,
    i: int,
    x: Seq<char>,
)
    requires
        0 <= i < found.len(),
        i <= done.len(),
    ensures
        ids_beside(found, done, i).contains(x) <==> (exists|j: int|
            0 <= j < i && bears((#[trigger] done[j]).1, x)) || (exists|j: int|
            i < j < found.len() && bears_on_a_side(#[trigger] found[j], x)),
{
    let before = done.take(i);
    let behind = found.skip(i + 1);
    lemma_joined(ids_held(before), ids_found(behind), x);
    if ids_held(before).contains(x) {
        let j = lemma_held_somewhere(before, x);
        lemma_bears(before[j].1, x);
        assert(before[j] == done[j]);
    }
    if ids_found(behind).contains(x) {
        let j = lemma_found_somewhere(behind, x);
        lemma_sides_of(behind[j], x);
        assert(behind[j] == found[j + i + 1]);
    }
    if exists|j: int| 0 <= j < i && bears((#[trigger] done[j]).1, x) {
        let j = choose|j: int| 0 <= j < i && bears((#[trigger] done[j]).1, x);
        lemma_bears(done[j].1, x);
        assert(before[j] == done[j]);
        lemma_held(before, j, x);
    }
    if exists|j: int| i < j < found.len() && bears_on_a_side(#[trigger] found[j], x) {
        let j = choose|j: int| i < j < found.len() && bears_on_a_side(#[trigger] found[j], x);
        lemma_sides_of(found[j], x);
        assert(behind[j - i - 1] == found[j]);
        lemma_found(behind, j - i - 1, x);
    }
}

/// Every draw comes out, under its number and in its place: one that is not in conflict as
/// it is, one that is with all the notes of the merge, each as often as there, in order.
pub proof fn law_every_draw_comes_out(found: Seq<FoundView>, done: Seq<(u32, Seq<NoteView>)>, i: int)
    requires
        all_come_to(found, done),
        0 <= i < found.len(),
    ensures
        done.len() == found.len(),
        done[i].0 == found[i].num,
        found[i].theirs is None ==> done[i].1 == found[i].ours,
        found[i].theirs matches Some(t) ==> {
            let m = merged(found[i].ours, t, true, ids_beside(found, done, i)).0;
            &&& done[i].1.len() == m.len()
            &&& done[i].1.to_multiset() == m.to_multiset()
            &&& forall|j: int, k: int|
                0 <= j < k < m.len() ==> !id_lt(
                    (#[trigger] done[i].1[k]).id,
                    (#[trigger] done[i].1[j]).id,
                )
        },
{
    assert(comes_to(found[i], ids_beside(found, done, i), done[i]));
    if let Some(t) = found[i].theirs {
        law_arranged(merged(found[i].ours, t, true, ids_beside(found, done, i)).0, done[i].1);
    }
}

/// There is a report for every draw in conflict and for no other, in the order of the
/// draws, with its number and what the merge did there.
pub proof fn law_report_for_every_conflict(
    found: Seq<FoundView>,
    done: Seq<(u32, Seq<NoteView>)>,
    n: int,
) -> (at: Seq<int>)
    requires
        0 <= n <= found.len(),
    ensures
        at.len() == reports_of(found, done, n).len(),
        forall|k: int, l: int| 0 <= k < l < at.len() ==> #[trigger] at[k] < #[trigger] at[l],
        forall|i: int| 0 <= i < n ==> (#[trigger] at.contains(i) <==> found[i].theirs is Some),
        forall|k: int|
            0 <= k < at.len() ==> 0 <= #[trigger] at[k] < n && found[at[k]].theirs is Some && reports_of(
                found,
                done,
                n,
            )[k] == (
                found[at[k]].num,
                merged(
                    found[at[k]].ours,
                    found[at[k]].theirs->Some_0,
                    true,
                    ids_beside(found, done, at[k]),
                ).1,
            ),
    decreases n,
{
    if n == 0 {
        Seq::empty()
    } else {
        let i = n - 1;
        let a = law_report_for_every_conflict(found, done, i);
        let at = if found[i].theirs is Some {
            a.push(i)
        } else {
            a
        };
        assert forall|j: int| 0 <= j < n implies (#[trigger] at.contains(j) <==> found[j].theirs is Some) by {
            if j < i {
                assert(a.contains(j) <==> found[j].theirs is Some);
                if a.contains(j) {
                    let k = choose|k: int| 0 <= k < a.len() && a[k] == j;
                    assert(at[k] == j);
                }
                if at.contains(j) {
                    let k = choose|k: int| 0 <= k < at.len() && at[k] == j;
                    assert(a[k] == j);
                }
            } else if found[i].theirs is Some {
                assert(at[a.len() as int] == i);
            } else if at.contains(j) {
                let k = choose|k: int| 0 <= k < at.len() && at[k] == j;
                assert(a[k] < i);
            }
        }
        assert forall|k: int| 0 <= k < at.len() implies 0 <= #[trigger] at[k] < n && found[at[k]].theirs is Some
            && reports_of(found, done, n)[k] == (
            found[at[k]].num,
            merged(
                found[at[k]].ours,
                found[at[k]].theirs->Some_0,
                true,
                ids_beside(found, done, at[k]),
            ).1,
        ) by {
            if k < a.len() {
                assert(a[k] == at[k]);
                assert(reports_of(found, done, i)[k] == reports_of(found, done, n)[k]);
            }
        }
        assert forall|k: int, l: int| 0 <= k < l < at.len() implies #[trigger] at[k] < #[trigger] at[l] by {
            assert(a[k] == at[k]);
            if l < a.len() {
                assert(a[l] == at[l]);
            }
        }
        at
    }
}

/// A report is read as the number of its draw and its actions, one by one.
pub proof fn law_reading_reports(s: Seq<MergeReport>, k: int)
    requires
        0 <= k < s.len(),
    ensures
        report_views(s).len() == s.len(),
        report_views(s)[k].0 == s[k].draw,
        report_views(s)[k].1 == deeds(s[k].actions@),
        deeds(s[k].actions@).len() == s[k].actions@.len(),
        forall|j: int| 0 <= j < s[k].actions@.len() ==> deeds(s[k].actions@)[j] == (#[trigger] s[k].actions@[j])@,
{
}

} // verus!
