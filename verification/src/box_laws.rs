//! What a box does when asked, stated by the notes and draws themselves.

use crate::clock::Timestamp;
use crate::id::{child_text, parent_text};
use crate::laws::lemma_spot;
use crate::lock::{lock_age, STALE_SECS};
use crate::model::{
    all_notes, cross_links, drawn, drawn_at, first_open, first_unloaded, has_draw,
    lemma_first_open, lemma_note_with, lemma_note_with_at, lemma_rank, lemma_slot, lemma_slot_at,
    lemma_stored, letter, loaded, note_with, numbered, placed, rank_of, slot, spot, stubs,
    successor_in, superseded_in, version_after, BoxView, DrawView, Refusal, DRAW_CAPACITY,
};
use crate::note::{overlong_line, NoteView, MAX_CONTENT_LEN, MAX_SINGLE_LINE};
use crate::numeral::{decimal, is_digit, parsed};
use crate::order::{id_lt, lemma_child_within_parent};
use crate::search_laws::{law_cross_links, outdated_in};
use crate::subtree::climbed;
use crate::text::trimmed;
use vstd::prelude::*;

verus! {

/// The limits: a note has up to 250 characters, a single line up to 150, a draw up to
/// 5000 notes, and a lock counts for 30 seconds.
pub proof fn law_limits()
    ensures
        MAX_CONTENT_LEN == 250,
        MAX_SINGLE_LINE == 150,
        DRAW_CAPACITY == 5000,
        STALE_SECS == 30,
{
}

/// Content is too long for one line just where it has no newline and more characters than
/// a line may have.
pub proof fn law_overlong_line(s: Seq<char>)
    ensures
        overlong_line(s) <==> s.len() > 150 && forall|i: int| 0 <= i < s.len() ==> #[trigger] s[i] != '\n',
{
    if forall|i: int| 0 <= i < s.len() ==> #[trigger] s[i] != '\n' {
        assert(!s.contains('\n'));
    }
    if !s.contains('\n') {
        assert forall|i: int| 0 <= i < s.len() implies #[trigger] s[i] != '\n' by {
            assert(s.contains(s[i]));
        }
    }
}

// ── Draws ────────────────────────────────────────────────────────────────────

/// The notes of a draw are what it was loaded with.
pub proof fn law_draw_by_number(draws: Seq<DrawView>, i: int, num: u32)
    requires
        numbered(draws),
    ensures
        0 <= i < draws.len() ==> has_draw(draws, draws[i].num) && loaded(draws, draws[i].num) == draws[i].notes
            && (draws[i].notes matches Some(v) ==> drawn(draws[i]) == v && drawn_at(draws, draws[i].num) == v) && (
        draws[i].notes is None ==> drawn(draws[i]).len() == 0 && drawn_at(draws, draws[i].num).len() == 0),
        (forall|k: int| 0 <= k < draws.len() ==> (#[trigger] draws[k]).num != num) ==> !has_draw(draws, num)
            && loaded(draws, num) is None && drawn_at(draws, num).len() == 0,
{
    if 0 <= i < draws.len() {
        lemma_slot_at(draws, i);
    }
    if forall|k: int| 0 <= k < draws.len() ==> (#[trigger] draws[k]).num != num {
        lemma_slot(draws, num);
        if has_draw(draws, num) {
            assert(draws[slot(draws, num)].num == num);
        }
    }
}

/// The notes of a box are those of its draws, one draw after the other.
pub proof fn law_notes_of_the_box(draws: Seq<DrawView>, d: DrawView)
    ensures
        all_notes(Seq::<DrawView>::empty()).len() == 0,
        d.notes matches Some(v) ==> all_notes(draws.push(d)) == all_notes(draws) + v,
        d.notes is None ==> all_notes(draws.push(d)) == all_notes(draws),
{
    assert(draws.push(d).drop_last() =~= draws);
    if d.notes is None {
        assert(all_notes(draws) + Seq::<NoteView>::empty() =~= all_notes(draws));
    }
}

/// The draw that is still to be read is the first that is not loaded.
pub proof fn law_first_unloaded(draws: Seq<DrawView>, i: int)
    requires
        0 <= i <= draws.len(),
        forall|k: int| 0 <= k < i ==> (#[trigger] draws[k]).notes is Some,
        i < draws.len() ==> draws[i].notes is None,
    ensures
        first_unloaded(draws) == (if i < draws.len() {
            Some(draws[i].num)
        } else {
            None
        }),
    decreases draws.len(),
{
    if draws.len() > 0 && i > 0 {
        let t = draws.skip(1);
        assert(draws[0].notes is Some);
        assert forall|k: int| 0 <= k < i - 1 implies (#[trigger] t[k]).notes is Some by {
            assert(t[k] == draws[k + 1]);
        }
        law_first_unloaded(t, i - 1);
    }
}

/// The index has some note in the draw with this number.
pub open spec fn names_draw(index: Map<Seq<char>, u32>, num: u32) -> bool {
    exists|t: Seq<char>| #[trigger] index.contains_key(t) && index[t] == num
}

/// The draws that a box is opened with are just those that the index names, by rising
/// number and none of them loaded.
pub proof fn law_opened_draws(index: Map<Seq<char>, u32>, draws: Seq<DrawView>)
    requires
        stubs(index, draws),
    ensures
        forall|i: int, j: int| 0 <= i < j < draws.len() ==> (#[trigger] draws[i]).num < (#[trigger] draws[j]).num,
        forall|i: int| 0 <= i < draws.len() ==> (#[trigger] draws[i]).notes is None,
        forall|i: int| 0 <= i < draws.len() ==> names_draw(index, (#[trigger] draws[i]).num),
        forall|t: Seq<char>| #[trigger]
            index.contains_key(t) ==> exists|i: int| 0 <= i < draws.len() && (#[trigger] draws[i]).num == index[t],
{
    assert forall|i: int| 0 <= i < draws.len() implies names_draw(index, (#[trigger] draws[i]).num) by {
        lemma_slot_at(draws, i);
        assert(has_draw(draws, draws[i].num));
    }
    assert forall|t: Seq<char>| #[trigger] index.contains_key(t) implies exists|i: int|
        0 <= i < draws.len() && (#[trigger] draws[i]).num == index[t] by {
        assert(has_draw(draws, index[t]));
        lemma_slot(draws, index[t]);
        assert(draws[slot(draws, index[t])].num == index[t]);
    }
}

// ── Finding ──────────────────────────────────────────────────────────────────

/// An ID that the index does not know has no note. One that it knows is looked for in the
/// draw that it names: the first note there with that very ID is found, and without one
/// none is; a draw that is not loaded is asked for.
pub proof fn law_lookup(b: BoxView, id: Seq<char>, i: int, k: int)
    requires
        numbered(b.draws),
    ensures
        !b.index.contains_key(id) ==> b.lookup(id) == Ok::<Option<NoteView>, u32>(None),
        b.index.contains_key(id) && 0 <= i < b.draws.len() && b.draws[i].num == b.index[id] ==> {
            match b.draws[i].notes {
                None => b.lookup(id) == Err::<Option<NoteView>, u32>(b.index[id]),
                Some(v) => {
                    &&& 0 <= k < v.len() && v[k].id == id && (forall|q: int|
                        0 <= q < k ==> (#[trigger] v[q]).id != id) ==> b.lookup(id) == Ok::<
                        Option<NoteView>,
                        u32,
                    >(Some(v[k]))
                    &&& (forall|q: int| 0 <= q < v.len() ==> (#[trigger] v[q]).id != id) ==> b.lookup(id) == Ok::<
                        Option<NoteView>,
                        u32,
                    >(None)
                },
            }
        },
{
    if b.index.contains_key(id) && 0 <= i < b.draws.len() && b.draws[i].num == b.index[id] {
        lemma_slot_at(b.draws, i);
        if let Some(v) = b.draws[i].notes {
            if 0 <= k < v.len() && v[k].id == id && (forall|q: int| 0 <= q < k ==> (#[trigger] v[q]).id != id) {
                lemma_note_with_at(v, id, k);
            }
            if forall|q: int| 0 <= q < v.len() ==> (#[trigger] v[q]).id != id {
                lemma_note_with_at(v, id, v.len() as int);
            }
        }
    }
}

/// What is found has the ID that was asked for, and lies in the draw that the index names.
pub proof fn law_found_note(b: BoxView, id: Seq<char>)
    ensures
        b.lookup(id) matches Ok(Some(n)) ==> n.id == id && b.index.contains_key(id) && drawn_at(
            b.draws,
            b.index[id],
        ).contains(n),
{
    if b.index.contains_key(id) {
        if let Some(v) = loaded(b.draws, b.index[id]) {
            lemma_note_with(v, id);
            lemma_spot(v, id);
            let p = spot(v, id);
            lemma_note_with_at(v, id, p);
            if p < v.len() {
                assert(v.contains(v[p]));
            }
        }
    }
}

/// The first note of a list with an ID.
pub proof fn law_note_with(s: Seq<NoteView>, id: Seq<char>, k: int)
    requires
        0 <= k <= s.len(),
        forall|i: int| 0 <= i < k ==> (#[trigger] s[i]).id != id,
        k < s.len() ==> s[k].id == id,
    ensures
        note_with(s, id) == (if k < s.len() {
            Some(s[k])
        } else {
            None
        }),
{
    lemma_note_with_at(s, id, k);
}

// ── Adding ───────────────────────────────────────────────────────────────────

/// A note goes to the draw of its parent while that has fewer than 5000 notes; a draw of
/// the parent that is not loaded is asked for first.
pub proof fn law_goes_to_the_parents_draw(b: BoxView, n: NoteView, i: int)
    requires
        numbered(b.draws),
        n.links.len() > 0,
        b.index.contains_key(n.links[0]),
        0 <= i < b.draws.len(),
        b.draws[i].num == b.index[n.links[0]],
    ensures
        b.draws[i].notes is None ==> b.assigned(n) == Err::<u32, u32>(b.draws[i].num),
        b.draws[i].notes matches Some(v) ==> v.len() < 5000 ==> b.assigned(n) == Ok::<u32, u32>(b.draws[i].num),
{
    lemma_slot_at(b.draws, i);
}

/// Otherwise it goes to the first draw that is not full, reading those before it. Where
/// all are full it goes to a new one behind them; in a directory that is read first too.
pub proof fn law_goes_to_the_first_with_room(b: BoxView, n: NoteView, i: int)
    requires
        numbered(b.draws),
        n.links.len() == 0 || !b.index.contains_key(n.links[0]) || (loaded(b.draws, b.index[n.links[0]]) matches Some(
            v,
        ) && v.len() >= 5000),
        0 <= i <= b.draws.len(),
        forall|k: int|
            0 <= k < i ==> ((#[trigger] b.draws[k]).notes matches Some(v) && v.len() >= 5000),
        i < b.draws.len() ==> (b.draws[i].notes matches Some(v) ==> v.len() < 5000),
        i == b.draws.len() ==> (b.draws.len() > 0 ==> b.draws[b.draws.len() - 1].num < u32::MAX),
    ensures
        b.assigned(n) == (if i < b.draws.len() {
            if b.draws[i].notes is None {
                Err::<u32, u32>(b.draws[i].num)
            } else {
                Ok(b.draws[i].num)
            }
        } else {
            let next = if b.draws.len() == 0 {
                1u32
            } else {
                (b.draws[b.draws.len() - 1].num + 1) as u32
            };
            if b.dir is Some {
                Err(next)
            } else {
                Ok(next)
            }
        }),
{
    lemma_first_open_at(b.draws, i);
}

/// The first draw with room, by its place.
proof fn lemma_first_open_at(draws: Seq<DrawView>, i: int)
    requires
        0 <= i <= draws.len(),
        forall|k: int| 0 <= k < i ==> ((#[trigger] draws[k]).notes matches Some(v) && v.len() >= 5000),
        i < draws.len() ==> (draws[i].notes matches Some(v) ==> v.len() < 5000),
    ensures
        first_open(draws) == (if i == draws.len() {
            Ok::<Option<u32>, u32>(None)
        } else if draws[i].notes is None {
            Err(draws[i].num)
        } else {
            Ok(Some(draws[i].num))
        }),
    decreases draws.len(),
{
    if draws.len() > 0 && i > 0 {
        let t = draws.skip(1);
        assert(draws[0].notes matches Some(v) && v.len() >= 5000);
        assert forall|k: int| 0 <= k < i - 1 implies ((#[trigger] t[k]).notes matches Some(v) && v.len() >= 5000) by {
            assert(t[k] == draws[k + 1]);
        }
        lemma_first_open_at(t, i - 1);
    }
}

/// Whether there is a number for a new draw, should all be full.
pub proof fn law_can_open(b: BoxView)
    ensures
        !b.can_open() ==> {
            &&& b.draws.len() > 0
            &&& b.draws[b.draws.len() - 1].num == u32::MAX
        },
        b.draws.len() == 0 ==> b.can_open(),
        b.draws.len() > 0 && b.draws[b.draws.len() - 1].num < u32::MAX ==> b.can_open(),
        numbered(b.draws) && !b.can_open() ==> forall|i: int|
            0 <= i < b.draws.len() ==> ((#[trigger] b.draws[i]).notes matches Some(v) && v.len() >= 5000),
{
    if numbered(b.draws) {
        lemma_first_open(b.draws);
    }
}

/// A note is refused for its length, with the number of its characters, or else because
/// there is one at its ID, or else because a draw has to be read; and for nothing else.
pub proof fn law_refusals_of_add(b: BoxView, n: NoteView)
    ensures
        n.content.len() > 250 ==> b.adding(n) == Err::<BoxView, Refusal>(Refusal::TooLong(n.content.len())),
        n.content.len() <= 250 && b.index.contains_key(n.id) ==> b.adding(n) == Err::<BoxView, Refusal>(
            Refusal::Exists(n.id),
        ),
        n.content.len() <= 250 && !b.index.contains_key(n.id) ==> match b.assigned(n) {
            Err(num) => b.adding(n) == Err::<BoxView, Refusal>(Refusal::NotLoaded(num)),
            Ok(_) => b.adding(n) is Ok,
        },
{
}

/// A note that is taken in lies in its draw just as it was given, behind the notes that
/// come before it and before the others, which stay as they were, there and in all other
/// draws; the index names its draw, and goes on naming those of the others.
pub proof fn law_note_in_its_place(b: BoxView, n: NoteView) -> (p: int)
    requires
        b.wf(),
    ensures
        b.adding(n) matches Ok(c) ==> {
            let num = b.assigned(n).unwrap();
            let before = drawn_at(b.draws, num);
            &&& c.dir == b.dir
            &&& c.index == b.index.insert(n.id, num)
            &&& 0 <= p <= before.len()
            &&& loaded(c.draws, num) == Some(before.take(p) + seq![n] + before.skip(p))
            &&& forall|i: int| 0 <= i < p ==> id_lt((#[trigger] before[i]).id, n.id)
            &&& p < before.len() ==> !id_lt(before[p].id, n.id)
            &&& forall|m: u32| m != num ==> #[trigger] loaded(c.draws, m) == loaded(b.draws, m)
            &&& forall|m: u32| m != num ==> has_draw(c.draws, m) == #[trigger] has_draw(b.draws, m)
        },
{
    if let Ok(c) = b.adding(n) {
        let num = b.assigned(n).unwrap();
        let before = drawn_at(b.draws, num);
        let p = rank_of(before, n.id);
        lemma_rank(before, n.id);
        lemma_stored(b.draws, num, placed(before, n));
        assert(placed(before, n) =~= before.take(p) + seq![n] + before.skip(p));
        p
    } else {
        0
    }
}

/// A note below its parent: it is linked to the parent that its ID has, supersedes
/// nothing, and is refused where that parent is missing. A root needs none.
pub proof fn law_add_below(b: BoxView, id: Seq<char>, content: Seq<char>, at: Timestamp, n: NoteView)
    requires
        n.id == id,
        n.content == content,
        n.links == seq![parent_text(id)],
        n.created_at == at,
        n.supersedes is None,
    ensures
        parent_text(id) == id ==> b.adding_below(id, content, at) == b.adding(n),
        parent_text(id) != id ==> match b.lookup(parent_text(id)) {
            Err(num) => b.adding_below(id, content, at) == Err::<BoxView, Refusal>(Refusal::NotLoaded(num)),
            Ok(None) => b.adding_below(id, content, at) == Err::<BoxView, Refusal>(
                Refusal::NoParent(parent_text(id)),
            ),
            Ok(Some(_)) => b.adding_below(id, content, at) == b.adding(n),
        },
{
    let m = NoteView { id, content, links: seq![parent_text(id)], created_at: at, supersedes: None };
    assert(m == n);
}

/// A note changed in place: the first with its ID in its draw is the new one, and all
/// else in the box is as it was.
pub proof fn law_changed_in_place(b: BoxView, id: Seq<char>, n: NoteView, k: int)
    requires
        b.wf(),
        b.index.contains_key(id),
        0 <= k < drawn_at(b.draws, b.index[id]).len(),
        drawn_at(b.draws, b.index[id])[k].id == id,
        forall|q: int| 0 <= q < k ==> (#[trigger] drawn_at(b.draws, b.index[id])[q]).id != id,
    ensures
        ({
            let num = b.index[id];
            let c = b.with_changed(id, n);
            &&& c.dir == b.dir
            &&& c.index == b.index
            &&& loaded(c.draws, num) == Some(drawn_at(b.draws, num).update(k, n))
            &&& forall|m: u32| m != num ==> #[trigger] loaded(c.draws, m) == loaded(b.draws, m)
        }),
{
    let v = drawn_at(b.draws, b.index[id]);
    lemma_note_with_at(v, id, k);
    lemma_stored(b.draws, b.index[id], v.update(k, n));
}

// ── Versions ─────────────────────────────────────────────────────────────────

/// Below an ID that ends in a digit the first letter is taken that has no note yet, and
/// none is left just where all 26 have one.
pub proof fn law_letter_below(b: BoxView, id: Seq<char>)
    requires
        id.len() > 0,
        '0' <= id[id.len() - 1] <= '9',
    ensures
        b.child_slot(id) matches Some(t) ==> {
            &&& t.len() == id.len() + 1
            &&& t.take(id.len() as int) == id
            &&& 'a' <= t[id.len() as int] <= 'z'
            &&& b.lookup(t) == Ok::<Option<NoteView>, u32>(None)
            &&& forall|c: char|
                'a' <= c && c < t[id.len() as int] ==> #[trigger] b.lookup(id.push(c)) != Ok::<
                    Option<NoteView>,
                    u32,
                >(None)
        },
        b.child_slot(id) is None ==> forall|c: char|
            'a' <= c <= 'z' ==> #[trigger] b.lookup(id.push(c)) != Ok::<Option<NoteView>, u32>(None),
{
    assert(is_digit(id.last()));
    lemma_letters_from(b, id, 0);
    if let Some(t) = b.child_slot(id) {
        let j = choose|j: int|
            {
                &&& 0 <= j < 26
                &&& t == id.push(#[trigger] letter(j))
                &&& b.is_free(t)
                &&& forall|k: int| 0 <= k < j ==> !b.is_free(id.push(#[trigger] letter(k)))
            };
        assert(t.take(id.len() as int) =~= id);
        assert(letter(j) as int == 'a' as int + j);
        assert forall|c: char| 'a' <= c && c < t[id.len() as int] implies #[trigger] b.lookup(id.push(c)) != Ok::<
            Option<NoteView>,
            u32,
        >(None) by {
            let k = c as int - 'a' as int;
            assert(letter(k) == c);
            assert(!b.is_free(id.push(letter(k))));
        }
    } else {
        assert forall|c: char| 'a' <= c <= 'z' implies #[trigger] b.lookup(id.push(c)) != Ok::<
            Option<NoteView>,
            u32,
        >(None) by {
            let k = c as int - 'a' as int;
            assert(letter(k) == c);
            assert(!b.is_free(id.push(letter(k))));
        }
    }
}

/// The first free letter from the `k`-th on.
proof fn lemma_letters_from(b: BoxView, id: Seq<char>, k: int)
    requires
        0 <= k <= 26,
    ensures
        b.letter_slot(id, k) matches Some(t) ==> exists|j: int|
            {
                &&& k <= j < 26
                &&& t == id.push(#[trigger] letter(j))
                &&& b.is_free(t)
                &&& forall|q: int| k <= q < j ==> !b.is_free(id.push(#[trigger] letter(q)))
            },
        b.letter_slot(id, k) is None ==> forall|q: int| k <= q < 26 ==> !b.is_free(id.push(#[trigger] letter(q))),
    decreases 26 - k,
{
    if k < 26 {
        if b.is_free(id.push(letter(k))) {
            assert(id.push(letter(k)) == b.letter_slot(id, k).unwrap());
        } else {
            lemma_letters_from(b, id, k + 1);
            if let Some(t) = b.letter_slot(id, k) {
                let j = choose|j: int|
                    {
                        &&& k + 1 <= j < 26
                        &&& t == id.push(#[trigger] letter(j))
                        &&& b.is_free(t)
                        &&& forall|q: int| k + 1 <= q < j ==> !b.is_free(id.push(#[trigger] letter(q)))
                    };
                assert forall|q: int| k <= q < j implies !b.is_free(id.push(#[trigger] letter(q))) by {}
            } else {
                assert forall|q: int| k <= q < 26 implies !b.is_free(id.push(#[trigger] letter(q))) by {}
            }
        }
    }
}

/// Below any other ID the first number is taken that has no note yet.
pub proof fn law_number_below(b: BoxView, id: Seq<char>, n: nat)
    requires
        id.len() == 0 || !('0' <= id[id.len() - 1] <= '9'),
        n >= 1,
        b.lookup(id + decimal(n)) == Ok::<Option<NoteView>, u32>(None),
        forall|m: nat|
            1 <= m < n ==> b.lookup(#[trigger] (id + decimal(m))) != Ok::<Option<NoteView>, u32>(None),
    ensures
        b.child_slot(id) == Some(id + decimal(n)),
{
    assert forall|m: nat| 1 <= m < n implies !b.is_free(#[trigger] (id + decimal(m))) by {}
    assert(b.is_number_slot(id, n));
    crate::update::lemma_number_slot_unique(b, id, n, choose|m: nat| b.is_number_slot(id, m));
}

/// An update is refused, in this order: where a draw has to be read, where there is no
/// note at the ID, where the note is superseded already, and where there is no place left
/// below it. Else it comes to adding the new note: at the place below, with the new
/// content, the moment given, the old note as its first link and as what it supersedes,
/// and behind that the links of the old note but for the first.
pub proof fn law_update(b: BoxView, id: Seq<char>, content: Seq<char>, at: Timestamp, v: NoteView)
    ensures
        first_unloaded(b.draws) matches Some(num) ==> b.updating(id, content, at) == Err::<
            (Seq<char>, BoxView),
            Refusal,
        >(Refusal::NotLoaded(num)),
        first_unloaded(b.draws) is None ==> match b.lookup(id) {
            Err(num) => b.updating(id, content, at) == Err::<(Seq<char>, BoxView), Refusal>(
                Refusal::NotLoaded(num),
            ),
            Ok(None) => b.updating(id, content, at) == Err::<(Seq<char>, BoxView), Refusal>(
                Refusal::NotFound(id),
            ),
            Ok(Some(n)) => if outdated_in(all_notes(b.draws), id) {
                b.updating(id, content, at) == Err::<(Seq<char>, BoxView), Refusal>(Refusal::Superseded(id))
            } else {
                match b.child_slot(id) {
                    None => b.updating(id, content, at) == Err::<(Seq<char>, BoxView), Refusal>(
                        Refusal::NoSlot(id),
                    ),
                    Some(child) => v.id == child && v.content == content && v.created_at == at && v.supersedes
                        == Some(n.id) && v.links.len() == (if n.links.len() == 0 {
                        1
                    } else {
                        n.links.len()
                    }) && v.links[0] == n.id && (forall|l: int|
                        1 <= l < n.links.len() ==> v.links[l] == #[trigger] n.links[l]) ==> match b.adding(v) {
                        Ok(c) => b.updating(id, content, at) == Ok::<(Seq<char>, BoxView), Refusal>((child, c)),
                        Err(e) => b.updating(id, content, at) == Err::<(Seq<char>, BoxView), Refusal>(e),
                    },
                }
            },
        },
{
    if first_unloaded(b.draws) is None {
        if let Ok(Some(n)) = b.lookup(id) {
            assert(superseded_in(all_notes(b.draws), id) <==> outdated_in(all_notes(b.draws), id));
            if let Some(child) = b.child_slot(id) {
                let w = BoxView::version_of(n, child, content, at);
                law_cross_links(n);
                if v.id == child && v.content == content && v.created_at == at && v.supersedes == Some(n.id)
                    && v.links.len() == (if n.links.len() == 0 {
                    1
                } else {
                    n.links.len()
                }) && v.links[0] == n.id && (forall|l: int|
                    1 <= l < n.links.len() ==> v.links[l] == #[trigger] n.links[l]) {
                    assert(w.links.len() == 1 + cross_links(n).len());
                    assert forall|l: int| 0 <= l < v.links.len() implies v.links[l] == w.links[l] by {
                        if l > 0 {
                            assert(cross_links(n)[l - 1] == n.links[l]);
                            assert(w.links[l] == cross_links(n)[l - 1]);
                        }
                    }
                    assert(w.links =~= v.links);
                    assert(w == v);
                }
            }
        }
    }
}

/// What supersedes an ID is the first note that says so.
pub proof fn law_successor(s: Seq<NoteView>, id: Seq<char>, k: int)
    requires
        0 <= k <= s.len(),
        forall|i: int| 0 <= i < k ==> (#[trigger] s[i]).supersedes != Some(id),
        k < s.len() ==> s[k].supersedes == Some(id),
    ensures
        successor_in(s, id) == (if k < s.len() {
            Some(s[k])
        } else {
            None
        }),
    decreases s.len(),
{
    if s.len() > 0 && k > 0 {
        let t = s.skip(1);
        assert(s[0].supersedes != Some(id));
        assert forall|i: int| 0 <= i < k - 1 implies (#[trigger] t[i]).supersedes != Some(id) by {
            assert(t[i] == s[i + 1]);
        }
        law_successor(t, id, k - 1);
    }
}

/// Following the versions of a note goes from each to the note that supersedes it, step by
/// step, and stays where there is none.
pub proof fn law_versions_follow(s: Seq<NoteView>, n: NoteView, steps: nat)
    ensures
        version_after(s, n, 0) == n,
        match successor_in(s, version_after(s, n, steps).id) {
            Some(m) => version_after(s, n, steps + 1) == m,
            None => version_after(s, n, steps + 1) == version_after(s, n, steps),
        },
    decreases steps,
{
    if steps == 0 {
        if let Some(m) = successor_in(s, n.id) {
            assert(version_after(s, m, 0) == m);
            assert(version_after(s, n, 1) == version_after(s, m, 0));
        }
    } else {
        match successor_in(s, n.id) {
            Some(m) => {
                law_versions_follow(s, m, (steps - 1) as nat);
                assert(version_after(s, n, steps) == version_after(s, m, (steps - 1) as nat));
                assert(version_after(s, n, steps + 1) == version_after(s, m, steps));
            },
            None => {},
        }
    }
}

// ── Ancestors ────────────────────────────────────────────────────────────────

/// The ancestors of a root are none. Those of another ID are those of its parent, and the
/// parent behind them where there is a note at it.
pub proof fn law_ancestors(b: BoxView, id: Seq<char>)
    ensures
        parent_text(id) == id ==> b.trail(id) == Ok::<Seq<NoteView>, u32>(Seq::empty()),
        parent_text(id) != id ==> match b.lookup(parent_text(id)) {
            Err(num) => b.trail(id) == Err::<Seq<NoteView>, u32>(num),
            Ok(None) => b.trail(id) == b.trail(parent_text(id)),
            Ok(Some(n)) => match b.trail(parent_text(id)) {
                Err(num) => b.trail(id) == Err::<Seq<NoteView>, u32>(num),
                Ok(up) => b.trail(id) == Ok::<Seq<NoteView>, u32>(up.push(n)),
            },
        },
{
}

/// The ancestors are the notes at the IDs that steps from parent to parent lead to, all of
/// them and no others.
pub proof fn law_ancestors_are_the_notes_above(b: BoxView, id: Seq<char>, n: NoteView)
    ensures
        b.trail(id) matches Ok(v) ==> (v.contains(n) <==> exists|steps: nat|
            steps >= 1 && #[trigger] climbed(id, steps) != id && b.lookup(climbed(id, steps)) == Ok::<
                Option<NoteView>,
                u32,
            >(Some(n))),
    decreases id.len(),
{
    let p = parent_text(id);
    if p == id {
        assert forall|steps: nat| #[trigger] climbed(id, steps) == id by {
            lemma_root_stays(id, steps);
        }
    } else {
        lemma_child_within_parent(id, p);
        law_ancestors_are_the_notes_above(b, p, n);
        if let Ok(v) = b.trail(id) {
            let up = b.trail(p).unwrap();
            assert(climbed(p, 0) == p);
            assert(climbed(id, 1) == p);
            if v.contains(n) {
                let k = choose|k: int| 0 <= k < v.len() && v[k] == n;
                if k < up.len() {
                    assert(up[k] == n);
                    assert(up.contains(n));
                    let steps = choose|steps: nat|
                        steps >= 1 && #[trigger] climbed(p, steps) != p && b.lookup(climbed(p, steps)) == Ok::<
                            Option<NoteView>,
                            u32,
                        >(Some(n));
                    assert(climbed(id, steps + 1) == climbed(p, steps));
                    lemma_climbed_shorter(p, steps);
                    assert(climbed(id, steps + 1) != id);
                } else {
                    assert(b.lookup(climbed(id, 1)) == Ok::<Option<NoteView>, u32>(Some(n)));
                }
            }
            if exists|steps: nat|
                steps >= 1 && #[trigger] climbed(id, steps) != id && b.lookup(climbed(id, steps)) == Ok::<
                    Option<NoteView>,
                    u32,
                >(Some(n)) {
                let steps = choose|steps: nat|
                    steps >= 1 && #[trigger] climbed(id, steps) != id && b.lookup(climbed(id, steps)) == Ok::<
                        Option<NoteView>,
                        u32,
                    >(Some(n));
                let k = (steps - 1) as nat;
                assert(climbed(id, steps) == climbed(p, k));
                if climbed(p, k) == p {
                    assert(b.lookup(p) == Ok::<Option<NoteView>, u32>(Some(n)));
                    assert(v[up.len() as int] == n);
                } else {
                    assert(k >= 1);
                    assert(up.contains(n));
                    let q = choose|q: int| 0 <= q < up.len() && up[q] == n;
                    assert(v[q] == n);
                }
            }
        }
    }
}

/// A root leads nowhere.
proof fn lemma_root_stays(id: Seq<char>, steps: nat)
    requires
        parent_text(id) == id,
    ensures
        climbed(id, steps) == id,
    decreases steps,
{
    if steps > 0 {
        lemma_root_stays(id, (steps - 1) as nat);
    }
}

/// Steps up do not make an ID longer.
proof fn lemma_climbed_shorter(s: Seq<char>, steps: nat)
    ensures
        climbed(s, steps).len() <= s.len(),
    decreases steps,
{
    if steps > 0 {
        let p = parent_text(s);
        if p != s {
            assert(child_text(s, p));
            lemma_child_within_parent(s, p);
        }
        lemma_climbed_shorter(p, (steps - 1) as nat);
    }
}

// ── Locks ────────────────────────────────────────────────────────────────────

/// A lock is as old as the seconds since the moment that it holds, white space around that
/// aside, and new where that moment is still to come. One that holds something else is as
/// old as its file, and one that cannot be read is new.
pub proof fn law_lock_age(s: Seq<char>, now: u64, file_age: u64)
    ensures
        lock_age(None, now, file_age) == 0,
        parsed(trimmed(s), 18446744073709551615) is None ==> lock_age(Some(s), now, file_age) == file_age,
        parsed(trimmed(s), 18446744073709551615) matches Some(t) ==> {
            &&& now >= t ==> lock_age(Some(s), now, file_age) == now - t
            &&& now < t ==> lock_age(Some(s), now, file_age) == 0
        },
{
}

} // verus!
