//! What holds of a box across its operations.

use crate::clock::Timestamp;
use crate::id::{child_text, parent_text};
use crate::lineage::{has_segment, law_extending_makes_a_child};
use crate::merge_laws::apart;
use crate::model::{
    all_notes, child_of, cross_links, drawn, drawn_at, ends_after, first_open, first_unloaded,
    has_draw, heading, headline_hit, hit, holding, holding_current, latest, lemma_all_loaded,
    lemma_first_open, lemma_lookup_id, lemma_next_number, lemma_note_with, lemma_note_with_at,
    lemma_rank, lemma_slot, lemma_stored, lemma_stored_all, letter, linking_to, loaded,
    next_number, not_heading, note_with, numbered, picked, placed, rank_of, ranked, slot, spot,
    stored, successor_in, superseded_in, version_after, BoxView, DrawView, Refusal, DRAW_CAPACITY,
};
use crate::note::{NoteView, MAX_CONTENT_LEN};
use crate::numeral::{decimal, is_digit, lemma_decimal_digits};
use crate::order::{
    id_lt, key, key_within, law_parent_comes_before_child, lemma_child_within_parent,
    lemma_id_lt_irreflexive, lemma_id_lt_transitive, lemma_within_transitive,
};
use crate::query::{lemma_successor, lemma_successor_holds};
use vstd::prelude::*;

verus! {

// ── Adding ───────────────────────────────────────────────────────────────────

/// The draw that a note is assigned to is loaded, or is a new one.
proof fn lemma_assigned(b: BoxView, n: NoteView)
    requires
        b.wf(),
    ensures
        b.assigned(n) matches Ok(num) ==> loaded(b.draws, num) is Some || !has_draw(b.draws, num),
{
    lemma_first_open(b.draws);
    if let Ok(num) = b.assigned(n) {
        lemma_slot(b.draws, num);
        if first_open(b.draws) == Ok::<Option<u32>, u32>(None) && has_draw(b.draws, num) {
            assert(b.draws[slot(b.draws, num)].notes is Some);
        }
    }
}

/// The draw that a note is assigned to has room, or is a new one.
proof fn lemma_assigned_room(b: BoxView, n: NoteView)
    requires
        b.wf(),
        b.can_open(),
    ensures
        b.assigned(n) matches Ok(num) ==> drawn_at(b.draws, num).len() < DRAW_CAPACITY,
{
    lemma_first_open(b.draws);
    if first_open(b.draws) == Ok::<Option<u32>, u32>(None) {
        lemma_next_number(b.draws, next_number(b.draws) as u32);
    }
}

/// A note put in its place is the first with its ID.
proof fn lemma_placed_found(s: Seq<NoteView>, n: NoteView)
    ensures
        note_with(placed(s, n), n.id) == Some(n),
{
    lemma_rank(s, n.id);
    lemma_id_lt_irreflexive(n.id);
    let p = rank_of(s, n.id);
    let t = placed(s, n);
    assert forall|i: int| 0 <= i < p implies (#[trigger] t[i]).id != n.id by {
        assert(t[i] == s[i]);
    }
    assert(t[p] == n);
    lemma_note_with_at(t, n.id, p);
}

/// A note put in its place does not hide notes with other IDs.
proof fn lemma_placed_others(s: Seq<NoteView>, n: NoteView, id: Seq<char>)
    requires
        id != n.id,
    ensures
        note_with(placed(s, n), id) == note_with(s, id),
{
    lemma_rank(s, n.id);
    let p = rank_of(s, n.id);
    let t = placed(s, n);
    lemma_spot(s, id);
    let k = spot(s, id);
    let l = if k < p {
        k
    } else {
        k + 1
    };
    assert forall|i: int| 0 <= i < l implies (#[trigger] t[i]).id != id by {
        if i < p {
            assert(t[i] == s[i]);
        } else if i > p {
            assert(t[i] == s[i - 1]);
        }
    }
    if k < s.len() {
        assert(t[l] == s[k]);
        lemma_note_with_at(t, id, l);
    } else {
        lemma_note_with_at(t, id, t.len() as int);
    }
    lemma_note_with_at(s, id, k);
}

/// The first note with an ID ends the stretch of notes with others.
pub proof fn lemma_spot(s: Seq<NoteView>, id: Seq<char>)
    ensures
        0 <= spot(s, id) <= s.len(),
        spot(s, id) < s.len() ==> s[spot(s, id)].id == id,
        forall|i: int| 0 <= i < spot(s, id) ==> (#[trigger] s[i]).id != id,
    decreases s.len(),
{
    if s.len() > 0 && s[0].id != id {
        let t = s.skip(1);
        lemma_spot(t, id);
        assert forall|i: int| 0 <= i < spot(s, id) implies (#[trigger] s[i]).id != id by {
            if i > 0 {
                assert(s[i] == t[i - 1]);
            }
        }
    }
}

/// Looking up IDs in a box with one note more.
pub proof fn lemma_with_note_lookup(b: BoxView, n: NoteView, num: u32, id: Seq<char>)
    requires
        b.wf(),
        loaded(b.draws, num) is Some || !has_draw(b.draws, num),
    ensures
        b.with_note(n, num).lookup(id) == (if id == n.id {
            Ok::<Option<NoteView>, u32>(Some(n))
        } else {
            b.lookup(id)
        }),
{
    let there = drawn_at(b.draws, num);
    let c = b.with_note(n, num);
    lemma_stored(b.draws, num, placed(there, n));
    if id == n.id {
        lemma_placed_found(there, n);
    } else if b.index.contains_key(id) {
        let m = b.index[id];
        assert(has_draw(b.draws, m));
        assert(c.index[id] == m);
        if m == num {
            lemma_placed_others(there, n, id);
        } else {
            assert(loaded(c.draws, m) == loaded(b.draws, m));
        }
    }
}

/// A note that was added is found again, just as it was added.
pub proof fn law_added_is_found(b: BoxView, n: NoteView)
    requires
        b.wf(),
    ensures
        b.adding(n) matches Ok(c) ==> c.lookup(n.id) == Ok::<Option<NoteView>, u32>(Some(n)),
{
    lemma_assigned(b, n);
    if let Ok(num) = b.assigned(n) {
        lemma_with_note_lookup(b, n, num, n.id);
    }
}

/// Adding a note changes no other: whatever was found at another ID is found there still.
pub proof fn law_adding_changes_no_other(b: BoxView, n: NoteView, id: Seq<char>)
    requires
        b.wf(),
        id != n.id,
    ensures
        b.adding(n) matches Ok(c) ==> c.lookup(id) == b.lookup(id) && c.index.contains_key(id)
            == b.index.contains_key(id),
{
    lemma_assigned(b, n);
    if let Ok(num) = b.assigned(n) {
        lemma_with_note_lookup(b, n, num, id);
    }
}

/// An ID is given out once: no second note can be added at it, and the refusal leaves the
/// first in place.
pub proof fn law_no_second_note_at_an_id(b: BoxView, n: NoteView, m: NoteView)
    requires
        m.id == n.id,
    ensures
        b.adding(n) matches Ok(c) ==> c.adding(m) == Err::<BoxView, Refusal>(
            if m.content.len() > MAX_CONTENT_LEN {
                Refusal::TooLong(m.content.len())
            } else {
                Refusal::Exists(m.id)
            },
        ),
{
}

/// A child lies in the same draw as its parent while that draw has room.
pub proof fn law_child_lies_with_its_parent(b: BoxView, n: NoteView)
    requires
        n.links.len() > 0,
        b.index.contains_key(n.links[0]),
        drawn_at(b.draws, b.index[n.links[0]]).len() < DRAW_CAPACITY,
    ensures
        b.adding(n) matches Ok(c) ==> c.index[n.id] == b.index[n.links[0]],
{
}

/// No draw holds more notes than a drawer takes.
pub open spec fn within_capacity(b: BoxView) -> bool {
    forall|i: int| 0 <= i < b.draws.len() ==> drawn(#[trigger] b.draws[i]).len() <= DRAW_CAPACITY
}

/// Adding never overfills a draw.
pub proof fn law_no_draw_overflows(b: BoxView, n: NoteView)
    requires
        b.wf(),
        b.can_open(),
        within_capacity(b),
    ensures
        b.adding(n) matches Ok(c) ==> within_capacity(c),
{
    lemma_assigned_room(b, n);
    if let Ok(c) = b.adding(n) {
        let num = b.assigned(n).unwrap();
        let there = drawn_at(b.draws, num);
        lemma_rank(there, n.id);
        let after = placed(there, n);
        assert forall|i: int| 0 <= i < c.draws.len() implies drawn(#[trigger] c.draws[i]).len() <= DRAW_CAPACITY by {
            lemma_stored_all(b.draws, num, after, i);
            if c.draws[i] != (DrawView { num, notes: Some(after) }) {
                let j = choose|j: int| 0 <= j < b.draws.len() && #[trigger] b.draws[j] == c.draws[i];
                assert(drawn(b.draws[j]).len() <= DRAW_CAPACITY);
            }
        }
    }
}

// ── The notes of a box ───────────────────────────────────────────────────────

/// The notes of draws in a row.
pub proof fn lemma_all_notes_concat(a: Seq<DrawView>, b: Seq<DrawView>)
    ensures
        all_notes(a + b) == all_notes(a) + all_notes(b),
    decreases b.len(),
{
    if b.len() == 0 {
        assert(a + b =~= a);
        assert(all_notes(a) + all_notes(b) =~= all_notes(a));
    } else {
        assert((a + b).drop_last() =~= a + b.drop_last());
        assert((a + b).last() == b.last());
        lemma_all_notes_concat(a, b.drop_last());
        assert(all_notes(a + b) =~= all_notes(a) + all_notes(b));
    }
}

/// The notes of one draw.
pub proof fn lemma_all_notes_one(d: DrawView)
    ensures
        all_notes(seq![d]) == drawn(d),
{
    assert(seq![d].drop_last() =~= Seq::<DrawView>::empty());
    assert(all_notes(seq![d].drop_last()) =~= Seq::<NoteView>::empty());
    assert(all_notes(seq![d]) =~= drawn(d));
}

/// Putting a note into a draw makes one note more, and no other difference.
pub proof fn lemma_all_notes_stored(draws: Seq<DrawView>, num: u32, n: NoteView)
    requires
        numbered(draws),
        loaded(draws, num) is Some || !has_draw(draws, num),
    ensures
        all_notes(stored(draws, num, placed(drawn_at(draws, num), n))).to_multiset() == all_notes(
            draws,
        ).to_multiset().insert(n),
{
    broadcast use vstd::seq_lib::group_to_multiset_ensures;

    let there = drawn_at(draws, num);
    let more = placed(there, n);
    let d = DrawView { num, notes: Some(more) };
    let after = stored(draws, num, more);
    lemma_slot(draws, num);
    lemma_rank(there, n.id);
    let k = slot(draws, num);
    let a = draws.take(k);
    let rest = if has_draw(draws, num) {
        draws.skip(k + 1)
    } else {
        draws.skip(k)
    };
    assert(after =~= a + seq![d] + rest);
    lemma_all_notes_concat(a + seq![d], rest);
    lemma_all_notes_concat(a, seq![d]);
    lemma_all_notes_one(d);
    let na = all_notes(a);
    let nr = all_notes(rest);
    assert(all_notes(draws) == na + there + nr) by {
        if has_draw(draws, num) {
            let old_draw = draws[k];
            assert(draws =~= a + seq![old_draw] + rest);
            lemma_all_notes_concat(a + seq![old_draw], rest);
            lemma_all_notes_concat(a, seq![old_draw]);
            lemma_all_notes_one(old_draw);
        } else {
            assert(draws =~= a + rest);
            lemma_all_notes_concat(a, rest);
            assert(na + there =~= na);
        }
    }
    let p = rank_of(there, n.id);
    assert(na + more + nr =~= (na + there + nr).insert(na.len() + p, n));
}

/// Adding a note makes one note more in the box, and no other difference.
pub proof fn law_adding_adds_one_note(b: BoxView, n: NoteView)
    requires
        b.wf(),
    ensures
        b.adding(n) matches Ok(c) ==> all_notes(c.draws).to_multiset() == all_notes(b.draws).to_multiset().insert(
            n,
        ),
{
    lemma_assigned(b, n);
    if let Ok(num) = b.assigned(n) {
        lemma_all_notes_stored(b.draws, num, n);
    }
}

/// What adding a note does to the notes that a box holds.
proof fn lemma_adding_holds(b: BoxView, n: NoteView, m: NoteView)
    requires
        b.wf(),
    ensures
        b.adding(n) matches Ok(c) ==> (all_notes(c.draws).contains(m) <==> m == n || all_notes(b.draws).contains(
            m,
        )),
{
    broadcast use vstd::seq_lib::group_to_multiset_ensures;

    law_adding_adds_one_note(b, n);
    if let Ok(c) = b.adding(n) {
        let x = all_notes(c.draws);
        let y = all_notes(b.draws);
        assert(x.contains(m) <==> x.to_multiset().count(m) > 0);
        assert(y.contains(m) <==> y.to_multiset().count(m) > 0);
    }
}

/// A box that is loaded stays so.
pub proof fn lemma_adding_stays_loaded(b: BoxView, n: NoteView)
    requires
        b.wf(),
        first_unloaded(b.draws) is None,
    ensures
        b.adding(n) matches Ok(c) ==> first_unloaded(c.draws) is None,
{
    lemma_all_loaded(b.draws);
    if let Ok(c) = b.adding(n) {
        let num = b.assigned(n).unwrap();
        let after = placed(drawn_at(b.draws, num), n);
        lemma_all_loaded(c.draws);
        assert forall|i: int| 0 <= i < c.draws.len() implies (#[trigger] c.draws[i]).notes is Some by {
            lemma_stored_all(b.draws, num, after, i);
            if c.draws[i] != (DrawView { num, notes: Some(after) }) {
                let j = choose|j: int| 0 <= j < b.draws.len() && #[trigger] b.draws[j] == c.draws[i];
                assert(b.draws[j].notes is Some);
            }
        }
    }
}

// ── Versions ─────────────────────────────────────────────────────────────────

/// Where a letter slot lies.
proof fn lemma_letter_slot(b: BoxView, id: Seq<char>, k: int)
    requires
        0 <= k,
    ensures
        b.letter_slot(id, k) matches Some(t) ==> exists|j: int|
            k <= j < 26 && t == id.push(#[trigger] letter(j)),
    decreases 26 - k,
{
    if k < 26 {
        if b.is_free(id.push(letter(k))) {
            assert(id.push(letter(k)) == b.letter_slot(id, k).unwrap());
        } else {
            lemma_letter_slot(b, id, k + 1);
        }
    }
}

/// A child slot is longer than the ID it is below, and a direct child of it.
proof fn lemma_child_slot(b: BoxView, id: Seq<char>)
    ensures
        b.child_slot(id) matches Some(t) ==> {
            &&& t.len() > id.len()
            &&& has_segment(id) ==> child_text(t, id)
        },
{
    if id.len() > 0 && is_digit(id.last()) {
        lemma_letter_slot(b, id, 0);
        if let Some(t) = b.child_slot(id) {
            let j = choose|j: int| 0 <= j < 26 && t == id.push(#[trigger] letter(j));
            let c = letter(j);
            assert(c as int == 'a' as int + j);
            assert(t =~= id + seq![c]);
            law_extending_makes_a_child(id, seq![c]);
        }
    } else {
        let n = choose|n: nat| b.is_number_slot(id, n);
        lemma_decimal_digits(n);
        if has_segment(id) {
            law_extending_makes_a_child(id, decimal(n));
        }
    }
}

/// An update leaves every note as it was: it makes a new one, which supersedes the old,
/// stands below it, and has its cross-links.
pub proof fn law_update_makes_a_version(
    b: BoxView,
    id: Seq<char>,
    content: Seq<char>,
    at: Timestamp,
    other: Seq<char>,
)
    requires
        b.wf(),
    ensures
        b.updating(id, content, at) matches Ok((child, c)) ==> {
            &&& b.lookup(id) matches Ok(Some(n))
            &&& b.lookup(child) == Ok::<Option<NoteView>, u32>(None)
            &&& c.lookup(child) matches Ok(Some(v))
            &&& v.id == child
            &&& v.content == content
            &&& v.supersedes == Some(id)
            &&& v.links[0] == id
            &&& cross_links(v) == cross_links(n)
            &&& v.created_at == at
            &&& has_segment(id) ==> child_text(child, id)
            &&& other != child ==> c.lookup(other) == b.lookup(other)
        },
{
    if let Ok((child, c)) = b.updating(id, content, at) {
        let n = b.lookup(id).unwrap().unwrap();
        lemma_lookup_id(b, id);
        let v = BoxView::version_of(n, child, content, at);
        law_added_is_found(b, v);
        lemma_child_slot(b, id);
        assert(cross_links(v) =~= cross_links(n));
        if other != child {
            law_adding_changes_no_other(b, v, other);
        }
    }
}

/// Versions form a line: what has been updated once is not updated again.
pub proof fn law_no_second_update(
    b: BoxView,
    id: Seq<char>,
    content: Seq<char>,
    at: Timestamp,
    content2: Seq<char>,
    at2: Timestamp,
)
    requires
        b.wf(),
    ensures
        b.updating(id, content, at) matches Ok((child, c)) ==> {
            &&& superseded_in(all_notes(c.draws), id)
            &&& c.updating(id, content2, at2) == Err::<(Seq<char>, BoxView), Refusal>(Refusal::Superseded(id))
        },
{
    if let Ok((child, c)) = b.updating(id, content, at) {
        let n = b.lookup(id).unwrap().unwrap();
        lemma_lookup_id(b, id);
        let v = BoxView::version_of(n, child, content, at);
        lemma_child_slot(b, id);
        law_adding_changes_no_other(b, v, id);
        lemma_adding_stays_loaded(b, v);
        lemma_adding_holds(b, v, v);
        let all = all_notes(c.draws);
        let i = choose|i: int| 0 <= i < all.len() && all[i] == v;
        assert(all[i].supersedes == Some(id));
    }
}

/// Wherever following the versions of a note comes to an end, it is the same end.
pub proof fn lemma_one_end(s: Seq<NoteView>, n: NoteView, a: nat, b: nat)
    requires
        ends_after(s, n, a),
        ends_after(s, n, b),
    ensures
        version_after(s, n, a) == version_after(s, n, b),
    decreases a + b,
{
    if let Some(m) = successor_in(s, n.id) {
        if a > 0 && b > 0 {
            lemma_one_end(s, m, (a - 1) as nat, (b - 1) as nat);
        }
    }
}

/// The end of a walk along the versions is a note that was on the way.
proof fn lemma_version_is_there(s: Seq<NoteView>, n: NoteView, steps: nat)
    requires
        s.contains(n),
    ensures
        s.contains(version_after(s, n, steps)),
    decreases steps,
{
    if steps > 0 {
        lemma_successor_holds(s, n.id);
        if let Some(m) = successor_in(s, n.id) {
            lemma_version_is_there(s, m, (steps - 1) as nat);
        }
    }
}

/// The current version of a note, where its versions come to an end: it is a note of the
/// box, some steps from the note along the versions, with nothing that supersedes it. It
/// is the note itself just where nothing supersedes that, and it is its own current
/// version. Where no two notes have the same ID, it is the note that its ID names.
pub proof fn law_current_version(s: Seq<NoteView>, n: NoteView)
    requires
        s.contains(n),
        exists|steps: nat| #[trigger] ends_after(s, n, steps),
    ensures
        s.contains(latest(s, n)),
        exists|steps: nat| #[trigger] version_after(s, n, steps) == latest(s, n),
        !superseded_in(s, latest(s, n).id),
        latest(s, n).id == n.id <==> !superseded_in(s, n.id),
        !superseded_in(s, n.id) ==> latest(s, n) == n,
        ends_after(s, latest(s, n), 0),
        latest(s, latest(s, n)) == latest(s, n),
        apart(s) ==> note_with(s, latest(s, n).id) == Some(latest(s, n)),
{
    let steps = choose|steps: nat| ends_after(s, n, steps);
    let m = latest(s, n);
    assert(ends_after(s, n, steps));
    assert(version_after(s, n, steps) == m);
    lemma_version_is_there(s, n, steps);
    lemma_successor(s, m.id);
    lemma_successor(s, n.id);
    assert(version_after(s, n, 0) == n);
    if !superseded_in(s, n.id) {
        assert(ends_after(s, n, 0));
        lemma_one_end(s, n, 0, steps);
    }
    assert(version_after(s, m, 0) == m);
    assert(ends_after(s, m, 0));
    lemma_one_end(s, m, 0, choose|k: nat| ends_after(s, m, k));
    if apart(s) {
        let i = choose|i: int| 0 <= i < s.len() && s[i] == m;
        assert forall|k: int| 0 <= k < i implies (#[trigger] s[k]).id != m.id by {
            assert(s[i].id == m.id);
        }
        lemma_note_with_at(s, m.id, i);
    }
}

/// After an update the new note is the current version of the old one, unless some note
/// claimed to supersede it before it was there.
pub proof fn law_update_is_the_current_version(
    b: BoxView,
    id: Seq<char>,
    content: Seq<char>,
    at: Timestamp,
    m: NoteView,
)
    requires
        b.wf(),
        m.id == id,
        b.updating(id, content, at) matches Ok((child, _)) ==> !superseded_in(all_notes(b.draws), child),
    ensures
        b.updating(id, content, at) matches Ok((child, c)) ==> {
            &&& exists|steps: nat| #[trigger] ends_after(all_notes(c.draws), m, steps)
            &&& c.lookup(child) == Ok::<Option<NoteView>, u32>(Some(latest(all_notes(c.draws), m)))
        },
{
    if let Ok((child, c)) = b.updating(id, content, at) {
        let n = b.lookup(id).unwrap().unwrap();
        lemma_lookup_id(b, id);
        let v = BoxView::version_of(n, child, content, at);
        let x = all_notes(b.draws);
        let y = all_notes(c.draws);
        law_added_is_found(b, v);
        lemma_child_slot(b, id);
        lemma_adding_holds(b, v, v);
        let i = choose|i: int| 0 <= i < y.len() && y[i] == v;
        assert(y[i].supersedes == Some(id));
        lemma_successor(y, id);
        lemma_successor_holds(y, id);
        let w = successor_in(y, id).unwrap();
        lemma_adding_holds(b, v, w);
        if w != v {
            let k = choose|k: int| 0 <= k < x.len() && x[k] == w;
            assert(x[k].supersedes == Some(id));
        }
        lemma_successor(y, child);
        lemma_successor_holds(y, child);
        if let Some(z) = successor_in(y, child) {
            lemma_adding_holds(b, v, z);
            if z != v {
                let k = choose|k: int| 0 <= k < x.len() && x[k] == z;
                assert(x[k].supersedes == Some(child));
            }
        }
        assert(version_after(y, v, 0) == v);
        assert(version_after(y, m, 1) == version_after(y, v, 0));
        assert(ends_after(y, m, 1));
        lemma_one_end(y, m, 1, choose|steps: nat| ends_after(y, m, steps));
    }
}

// ── Searching and listing ────────────────────────────────────────────────────

/// What is picked is what was there and is kept.
pub proof fn lemma_picked(s: Seq<NoteView>, keep: spec_fn(NoteView) -> bool, n: NoteView)
    ensures
        picked(s, keep).contains(n) <==> s.contains(n) && keep(n),
    decreases s.len(),
{
    if s.len() > 0 {
        let t = s.drop_last();
        lemma_picked(t, keep, n);
        let p = picked(t, keep);
        if keep(s.last()) {
            assert(p.push(s.last())[p.len() as int] == s.last());
            if p.contains(n) {
                let i = choose|i: int| 0 <= i < p.len() && p[i] == n;
                assert(p.push(s.last())[i] == n);
            }
            if p.push(s.last()).contains(n) && n != s.last() {
                let i = choose|i: int| 0 <= i < p.len() + 1 && p.push(s.last())[i] == n;
                assert(p[i] == n);
            }
        }
        if t.contains(n) {
            let i = choose|i: int| 0 <= i < t.len() && t[i] == n;
            assert(s[i] == n);
        }
        if s.contains(n) && n != s.last() {
            let i = choose|i: int| 0 <= i < s.len() && s[i] == n;
            assert(t[i] == n);
        }
        assert(s[s.len() - 1] == s.last());
    }
}

/// A ranked list holds the same notes.
proof fn lemma_ranked(hits: Seq<NoteView>, query: Seq<char>, n: NoteView)
    ensures
        ranked(hits, query).contains(n) <==> hits.contains(n),
{
    let a = picked(hits, heading(query));
    let b = picked(hits, not_heading(query));
    lemma_picked(hits, heading(query), n);
    lemma_picked(hits, not_heading(query), n);
    let r = a + b;
    if a.contains(n) {
        let i = choose|i: int| 0 <= i < a.len() && a[i] == n;
        assert(r[i] == n);
    }
    if b.contains(n) {
        let i = choose|i: int| 0 <= i < b.len() && b[i] == n;
        assert(r[a.len() + i] == n);
    }
    if r.contains(n) {
        let i = choose|i: int| 0 <= i < r.len() && r[i] == n;
        if i < a.len() {
            assert(a[i] == n);
        } else {
            assert(b[i - a.len()] == n);
        }
    }
}

/// A search finds the notes that hold the query and are not superseded; a search through
/// all notes finds those that hold the query.
pub proof fn law_search_finds_what_holds(all: Seq<NoteView>, query: Seq<char>, n: NoteView)
    ensures
        ranked(picked(all, holding(query)), query).contains(n) <==> all.contains(n) && hit(n, query),
        ranked(picked(all, holding_current(query, all)), query).contains(n) <==> all.contains(n) && hit(n, query)
            && !superseded_in(all, n.id),
{
    lemma_ranked(picked(all, holding(query)), query, n);
    lemma_ranked(picked(all, holding_current(query, all)), query, n);
    lemma_picked(all, holding(query), n);
    lemma_picked(all, holding_current(query, all), n);
}

/// Notes that hold the query in their headline come before all others.
pub proof fn law_headlines_come_first(hits: Seq<NoteView>, query: Seq<char>, i: int, j: int)
    requires
        0 <= i < j < ranked(hits, query).len(),
        headline_hit(ranked(hits, query)[j], query),
    ensures
        headline_hit(ranked(hits, query)[i], query),
{
    let a = picked(hits, heading(query));
    let b = picked(hits, not_heading(query));
    let r = ranked(hits, query);
    if j >= a.len() {
        assert(b[j - a.len()] == r[j]);
        assert(b.contains(r[j]));
        lemma_picked(hits, not_heading(query), r[j]);
    }
    assert(a[i] == r[i]);
    assert(a.contains(r[i]));
    lemma_picked(hits, heading(query), r[i]);
}

/// The children that a box lists are the notes right below the ID, none deeper; the
/// backlinks are the notes with a cross-link to the ID, which leaves out those that only
/// have it as their parent.
pub proof fn law_children_and_backlinks(all: Seq<NoteView>, id: Seq<char>, n: NoteView)
    ensures
        picked(all, child_of(id)).contains(n) <==> all.contains(n) && child_text(n.id, id),
        picked(all, linking_to(id)).contains(n) <==> all.contains(n) && cross_links(n).contains(id),
        n.links == seq![id] ==> !picked(all, linking_to(id)).contains(n),
{
    lemma_picked(all, child_of(id), n);
    lemma_picked(all, linking_to(id), n);
    if n.links == seq![id] {
        assert(cross_links(n) =~= Seq::<Seq<char>>::empty());
    }
}

/// The ancestors of an ID lead down to it: each stands in the subtree of those before it,
/// and the ID in the subtrees of all.
pub proof fn law_ancestors_lead_down(b: BoxView, id: Seq<char>)
    ensures
        b.trail(id) matches Ok(v) ==> {
            &&& forall|i: int|
                0 <= i < v.len() ==> key_within(key((#[trigger] v[i]).id), key(id)) && id_lt(v[i].id, id)
            &&& forall|i: int, j: int|
                0 <= i < j < v.len() ==> key_within(key((#[trigger] v[i]).id), key((#[trigger] v[j]).id)) && id_lt(
                    v[i].id,
                    v[j].id,
                )
        },
    decreases id.len(),
{
    let p = parent_text(id);
    if p != id {
        lemma_child_within_parent(id, p);
        law_ancestors_lead_down(b, p);
        lemma_lookup_id(b, p);
        if let Ok(v) = b.trail(id) {
            let up = b.trail(p).unwrap();
            let found = b.lookup(p).unwrap();
            assert forall|i: int| 0 <= i < v.len() implies key_within(key((#[trigger] v[i]).id), key(id)) && id_lt(
                v[i].id,
                id,
            ) by {
                law_parent_comes_before_child(id, p);
                if i < up.len() {
                    assert(v[i] == up[i]);
                    lemma_within_transitive(key(up[i].id), key(p), key(id));
                    lemma_id_lt_transitive(up[i].id, p, id);
                }
            }
            assert forall|i: int, j: int| 0 <= i < j < v.len() implies key_within(
                key((#[trigger] v[i]).id),
                key((#[trigger] v[j]).id),
            ) && id_lt(v[i].id, v[j].id) by {
                assert(v[i] == up[i]);
                if j < up.len() {
                    assert(v[j] == up[j]);
                }
            }
        }
    }
}

// ── Changing links ───────────────────────────────────────────────────────────

/// A note changed in place is found as it was changed to, and no other note is touched.
pub proof fn law_changed_is_found(b: BoxView, id: Seq<char>, n: NoteView, other: Seq<char>)
    requires
        b.wf(),
        b.lookup(id) matches Ok(Some(_)),
        n.id == id,
    ensures
        b.with_changed(id, n).lookup(id) == Ok::<Option<NoteView>, u32>(Some(n)),
        other != id ==> b.with_changed(id, n).lookup(other) == b.lookup(other),
{
    let num = b.index[id];
    let v = drawn_at(b.draws, num);
    let p = spot(v, id);
    let w = v.update(p, n);
    lemma_note_with(v, id);
    lemma_spot(v, id);
    if p == v.len() {
        lemma_note_with_at(v, id, p);
    }
    lemma_stored(b.draws, num, w);
    assert forall|i: int| 0 <= i < p implies (#[trigger] w[i]).id != id by {
        assert(w[i] == v[i]);
    }
    lemma_note_with_at(w, id, p);
    if other != id && b.index.contains_key(other) {
        let m = b.index[other];
        assert(has_draw(b.draws, m));
        if m == num {
            lemma_spot(v, other);
            let q = spot(v, other);
            assert forall|i: int| 0 <= i < q implies (#[trigger] w[i]).id != other by {
                if i != p {
                    assert(w[i] == v[i]);
                }
            }
            if q < v.len() {
                assert(q != p);
                assert(w[q] == v[q]);
            }
            lemma_note_with_at(v, other, q);
            lemma_note_with_at(w, other, q);
        } else {
            assert(loaded(stored(b.draws, num, w), m) == loaded(b.draws, m));
        }
    }
}

/// A note of a loaded draw is one of the notes of the box.
pub proof fn lemma_drawn_is_held(draws: Seq<DrawView>, i: int, n: NoteView)
    requires
        0 <= i < draws.len(),
        drawn(draws[i]).contains(n),
    ensures
        all_notes(draws).contains(n),
    decreases draws.len(),
{
    let rest = draws.drop_last();
    let a = all_notes(rest);
    let l = drawn(draws.last());
    let all = all_notes(draws);
    if i == draws.len() - 1 {
        let k = choose|k: int| 0 <= k < l.len() && l[k] == n;
        assert(all[a.len() + k] == n);
    } else {
        assert(rest[i] == draws[i]);
        lemma_drawn_is_held(rest, i, n);
        let k = choose|k: int| 0 <= k < a.len() && a[k] == n;
        assert(all[k] == n);
    }
}

/// A link from one note to another shows among the backlinks of the other. (The first
/// link of all counts as the note's parent, so a note without any is left out.)
pub proof fn law_link_shows_in_backlinks(b: BoxView, from: Seq<char>, to: Seq<char>)
    requires
        b.wf(),
        b.lookup(from) matches Ok(Some(n)) && n.links.len() > 0,
    ensures
        b.lookup(from) matches Ok(Some(n)) && {
            let m = NoteView { links: n.links.push(to), ..n };
            let c = b.with_changed(from, m);
            picked(all_notes(c.draws), linking_to(to)).contains(m)
        },
{
    let n = b.lookup(from).unwrap().unwrap();
    let m = NoteView { links: n.links.push(to), ..n };
    let c = b.with_changed(from, m);
    let num = b.index[from];
    let v = drawn_at(b.draws, num);
    let p = spot(v, from);
    let w = v.update(p, m);
    lemma_note_with(v, from);
    lemma_spot(v, from);
    if p == v.len() {
        lemma_note_with_at(v, from, p);
    }
    lemma_stored(b.draws, num, w);
    lemma_slot(c.draws, num);
    let k = slot(c.draws, num);
    assert(drawn(c.draws[k]) == w);
    assert(w[p] == m);
    lemma_drawn_is_held(c.draws, k, m);
    let l = cross_links(m);
    assert(l[l.len() - 1] == to);
    lemma_picked(all_notes(c.draws), linking_to(to), m);
}

/// What is written stays: links may come and go, but no note's content changes.
pub proof fn law_links_leave_content_alone(
    b: BoxView,
    from: Seq<char>,
    links: Seq<Seq<char>>,
    other: Seq<char>,
)
    requires
        b.wf(),
        b.lookup(from) matches Ok(Some(_)),
    ensures
        b.lookup(from) matches Ok(Some(n)) && {
            let c = b.with_changed(from, NoteView { links, ..n });
            match (b.lookup(other), c.lookup(other)) {
                (Ok(Some(x)), Ok(Some(y))) => x.id == y.id && x.content == y.content && x.created_at == y.created_at
                    && x.supersedes == y.supersedes,
                (x, y) => x == y,
            }
        },
{
    let n = b.lookup(from).unwrap().unwrap();
    lemma_lookup_id(b, from);
    law_changed_is_found(b, from, NoteView { links, ..n }, other);
}

// ── Loading ──────────────────────────────────────────────────────────────────

/// Reading a draw in changes no answer that the box could give without it.
pub proof fn law_loading_changes_no_answer(b: BoxView, num: u32, notes: Seq<NoteView>, id: Seq<char>)
    requires
        b.wf(),
        loaded(b.draws, num) is None,
        b.lookup(id) is Ok,
    ensures
        b.with_draw(num, notes).lookup(id) == b.lookup(id),
{
    lemma_stored(b.draws, num, notes);
    if b.index.contains_key(id) {
        let m = b.index[id];
        assert(has_draw(b.draws, m));
        assert(m != num);
        assert(loaded(stored(b.draws, num, notes), m) == loaded(b.draws, m));
    }
}

/// An ID whose draw is not loaded is answered once the draw has been read in.
pub proof fn law_loading_brings_an_answer(b: BoxView, notes: Seq<NoteView>, id: Seq<char>)
    requires
        b.wf(),
    ensures
        b.lookup(id) matches Err(num) ==> b.with_draw(num, notes).lookup(id) == Ok::<Option<NoteView>, u32>(
            note_with(notes, id),
        ),
{
    if let Err(num) = b.lookup(id) {
        lemma_stored(b.draws, num, notes);
    }
}

} // verus!
