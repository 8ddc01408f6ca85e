//! Boxes from the start: what grows from an empty one, and what comes back from disk.

use crate::disk::{
    law_adding_keeps_the_index_right, law_saved_draw_reads_back, lemma_packed_next,
    lemma_same_notes, packed, well_indexed,
};
use crate::laws::{
    law_added_is_found, law_adding_adds_one_note, law_adding_changes_no_other,
    law_no_draw_overflows, lemma_adding_stays_loaded, within_capacity,
};
use crate::merge_laws::{apart, lemma_same_apart};
use crate::model::{
    all_notes, drawn, drawn_at, first_unloaded, has_draw, lemma_all_loaded, lemma_slot,
    lemma_slot_at, lemma_stored, lemma_stored_all, loaded, slot, stubs, BoxView, DrawView,
    DRAW_CAPACITY,
};
use crate::note::NoteView;
use crate::sort::arranged;
use vstd::prelude::*;

verus! {

// ── Sound boxes ──────────────────────────────────────────────────────────────

/// The index names just the notes that are there: every note lies in the draw that the
/// index has for it, and at every ID in the index a note is found.
pub open spec fn exactly_indexed(b: BoxView) -> bool {
    &&& well_indexed(b)
    &&& forall|t: Seq<char>| #[trigger]
        b.index.contains_key(t) ==> (b.lookup(t) matches Ok(found) && found is Some)
}

/// The box is in shape, each draw with its notes in order; no draw is overfull, the index
/// names just the notes that are there, and no two of them have the same ID.
pub open spec fn sound(b: BoxView) -> bool {
    &&& b.wf()
    &&& within_capacity(b)
    &&& exactly_indexed(b)
    &&& apart(all_notes(b.draws))
}

/// A note of the box lies in one of its draws.
proof fn lemma_held_is_drawn(draws: Seq<DrawView>, n: NoteView)
    requires
        all_notes(draws).contains(n),
    ensures
        exists|i: int| 0 <= i < draws.len() && drawn(#[trigger] draws[i]).contains(n),
    decreases draws.len(),
{
    if draws.len() > 0 {
        let r = draws.drop_last();
        let all = all_notes(draws);
        let k = choose|k: int| 0 <= k < all.len() && all[k] == n;
        if k < all_notes(r).len() {
            assert(all_notes(r)[k] == n);
            lemma_held_is_drawn(r, n);
            let i = choose|i: int| 0 <= i < r.len() && drawn(#[trigger] r[i]).contains(n);
            assert(draws[i] == r[i]);
        } else {
            assert(drawn(draws.last())[k - all_notes(r).len()] == n);
            assert(drawn(draws[draws.len() - 1]).contains(n));
        }
    }
}

/// A box whose index is right has no note at an ID that the index does not know.
proof fn lemma_unknown_is_not_held(b: BoxView, id: Seq<char>, n: NoteView)
    requires
        well_indexed(b),
        !b.index.contains_key(id),
        all_notes(b.draws).contains(n),
    ensures
        n.id != id,
{
    lemma_held_is_drawn(b.draws, n);
    let i = choose|i: int| 0 <= i < b.draws.len() && drawn(#[trigger] b.draws[i]).contains(n);
    let k = choose|k: int| 0 <= k < drawn(b.draws[i]).len() && drawn(b.draws[i])[k] == n;
    assert(b.index.contains_key(drawn(b.draws[i])[k].id));
}

/// Adding keeps a box sound: the notes stay in order, the index goes on naming just the
/// notes that are there, and no draw is overfilled while there are numbers for new ones.
pub proof fn law_adding_keeps_a_box_sound(b: BoxView, n: NoteView)
    requires
        sound(b),
    ensures
        b.adding(n) matches Ok(c) ==> {
            &&& c.wf()
            &&& exactly_indexed(c)
            &&& apart(all_notes(c.draws))
            &&& b.can_open() ==> within_capacity(c)
        },
{
    if let Ok(c) = b.adding(n) {
        let num = b.assigned(n).unwrap();
        b.lemma_with_note(n, num);
        if b.can_open() {
            law_no_draw_overflows(b, n);
        }
        law_adding_keeps_the_index_right(b, n);
        law_added_is_found(b, n);
        assert forall|t: Seq<char>| #[trigger] c.index.contains_key(t) implies (c.lookup(t) matches Ok(found)
            && found is Some) by {
            if t != n.id {
                law_adding_changes_no_other(b, n, t);
            }
        }
        law_adding_adds_one_note(b, n);
        lemma_apart_with(b, n, all_notes(c.draws));
    }
}

/// Notes with one more that has an ID of its own.
proof fn lemma_apart_with(b: BoxView, n: NoteView, after: Seq<NoteView>)
    requires
        well_indexed(b),
        apart(all_notes(b.draws)),
        !b.index.contains_key(n.id),
        after.to_multiset() == all_notes(b.draws).to_multiset().insert(n),
    ensures
        apart(after),
{
    broadcast use vstd::seq_lib::group_to_multiset_ensures;

    let s = all_notes(b.draws);
    let t = s.push(n);
    assert forall|i: int, j: int| 0 <= i < t.len() && 0 <= j < t.len() && i != j implies (#[trigger] t[i]).id != (
    #[trigger] t[j]).id by {
        if i < s.len() {
            assert(s.contains(s[i]));
            lemma_unknown_is_not_held(b, n.id, s[i]);
            assert(t[i] == s[i]);
        }
        if j < s.len() {
            assert(s.contains(s[j]));
            lemma_unknown_is_not_held(b, n.id, s[j]);
            assert(t[j] == s[j]);
        }
    }
    lemma_same_apart(t, after);
}

// ── Boxes that grow from an empty one ────────────────────────────────────────

/// A step in the life of a box.
pub enum Step {
    /// A draw that has no file yet is read in.
    Read(u32),
    /// A note is added, or refused.
    Add(NoteView),
}

/// The box after a step.
pub open spec fn stepped(b: BoxView, step: Step) -> BoxView {
    match step {
        Step::Read(num) => match loaded(b.draws, num) {
            Some(_) => b,
            None => b.with_draw(num, Seq::empty()),
        },
        Step::Add(n) => match b.adding(n) {
            Ok(c) => c,
            Err(_) => b,
        },
    }
}

/// The box that steps lead to from an empty one, in the directory `dir` or in memory.
pub open spec fn built(dir: Option<Seq<char>>, steps: Seq<Step>) -> BoxView
    decreases steps.len(),
{
    if steps.len() == 0 {
        BoxView { dir, index: Map::empty(), draws: Seq::empty() }
    } else {
        stepped(built(dir, steps.drop_last()), steps.last())
    }
}

/// On the way the numbers for new draws do not run out.
pub open spec fn numbers_last(dir: Option<Seq<char>>, steps: Seq<Step>) -> bool {
    forall|i: int| 0 <= i < steps.len() ==> (#[trigger] built(dir, steps.take(i))).can_open()
}

/// What holds of all steps holds of all but the last.
proof fn lemma_numbers_last(dir: Option<Seq<char>>, steps: Seq<Step>)
    requires
        steps.len() > 0,
        numbers_last(dir, steps),
    ensures
        numbers_last(dir, steps.drop_last()),
        built(dir, steps.drop_last()).can_open(),
{
    let r = steps.drop_last();
    assert forall|i: int| 0 <= i < r.len() implies (#[trigger] built(dir, r.take(i))).can_open() by {
        assert(r.take(i) =~= steps.take(i));
        assert(built(dir, steps.take(i)).can_open());
    }
    assert(steps.take(r.len() as int) =~= r);
    assert(built(dir, steps.take(r.len() as int)).can_open());
}

/// An empty draw more keeps a box sound.
proof fn lemma_empty_draw(b: BoxView, num: u32)
    requires
        sound(b),
        first_unloaded(b.draws) is None,
        loaded(b.draws, num) is None,
    ensures
        sound(b.with_draw(num, Seq::empty())),
        first_unloaded(b.with_draw(num, Seq::empty()).draws) is None,
        forall|id: Seq<char>| #[trigger] b.with_draw(num, Seq::empty()).lookup(id) == b.lookup(id),
{
    let none = Seq::<NoteView>::empty();
    let c = b.with_draw(num, none);
    lemma_all_loaded(b.draws);
    lemma_all_loaded(c.draws);
    lemma_stored(b.draws, num, none);
    b.lemma_with_draw(num, none);
    lemma_slot(b.draws, num);
    assert(!has_draw(b.draws, num)) by {
        if has_draw(b.draws, num) {
            assert(b.draws[slot(b.draws, num)].notes is Some);
        }
    }
    assert forall|i: int| 0 <= i < c.draws.len() implies (#[trigger] c.draws[i]).notes is Some && drawn(
        c.draws[i],
    ).len() <= DRAW_CAPACITY by {
        lemma_stored_all(b.draws, num, none, i);
        if c.draws[i] != (DrawView { num, notes: Some(none) }) {
            let j = choose|j: int| 0 <= j < b.draws.len() && #[trigger] b.draws[j] == c.draws[i];
            assert(drawn(b.draws[j]).len() <= DRAW_CAPACITY);
        }
    }
    assert forall|i: int, k: int| 0 <= i < c.draws.len() && 0 <= k < drawn(c.draws[i]).len() implies ({
        let m = #[trigger] drawn(c.draws[i])[k];
        c.index.contains_key(m.id) && c.index[m.id] == c.draws[i].num
    }) by {
        lemma_stored_all(b.draws, num, none, i);
        let j = choose|j: int| 0 <= j < b.draws.len() && #[trigger] b.draws[j] == c.draws[i];
        assert(drawn(b.draws[j])[k] == drawn(c.draws[i])[k]);
    }
    assert forall|id: Seq<char>| #[trigger] c.lookup(id) == b.lookup(id) by {
        if b.index.contains_key(id) {
            assert(has_draw(b.draws, b.index[id]));
            assert(loaded(c.draws, b.index[id]) == loaded(b.draws, b.index[id]));
        }
    }
    assert forall|t: Seq<char>| #[trigger] c.index.contains_key(t) implies (c.lookup(t) matches Ok(found)
        && found is Some) by {
        assert(c.lookup(t) == b.lookup(t));
        assert(b.index.contains_key(t));
    }
    assert forall|m: u32| #[trigger] drawn_at(c.draws, m) == drawn_at(b.draws, m) by {
        if m != num {
            assert(loaded(c.draws, m) == loaded(b.draws, m));
        }
    }
    lemma_same_notes(c.draws, b.draws);
}

/// Whatever was added to it, a box is sound, and all its draws are loaded.
pub proof fn law_built_box_is_sound(dir: Option<Seq<char>>, steps: Seq<Step>)
    requires
        numbers_last(dir, steps),
    ensures
        sound(built(dir, steps)),
        built(dir, steps).dir == dir,
        first_unloaded(built(dir, steps).draws) is None,
    decreases steps.len(),
{
    if steps.len() > 0 {
        let b = built(dir, steps.drop_last());
        lemma_numbers_last(dir, steps);
        law_built_box_is_sound(dir, steps.drop_last());
        match steps.last() {
            Step::Read(num) => {
                if loaded(b.draws, num) is None {
                    lemma_empty_draw(b, num);
                }
            },
            Step::Add(n) => {
                law_adding_keeps_a_box_sound(b, n);
                lemma_adding_stays_loaded(b, n);
            },
        }
    }
}

/// The note that was the first to be taken in at `id`, if one was.
pub open spec fn taken_in(dir: Option<Seq<char>>, steps: Seq<Step>, id: Seq<char>) -> Option<NoteView>
    decreases steps.len(),
{
    if steps.len() == 0 {
        None
    } else {
        match taken_in(dir, steps.drop_last(), id) {
            Some(n) => Some(n),
            None => match steps.last() {
                Step::Add(n) => if n.id == id && built(dir, steps.drop_last()).adding(n) is Ok {
                    Some(n)
                } else {
                    None
                },
                Step::Read(_) => None,
            },
        }
    }
}

/// A box finds at each ID just the note that was taken in there, whatever came after; an
/// ID at which none was has none.
pub proof fn law_found_is_what_was_added(dir: Option<Seq<char>>, steps: Seq<Step>, id: Seq<char>)
    requires
        numbers_last(dir, steps),
    ensures
        built(dir, steps).lookup(id) == Ok::<Option<NoteView>, u32>(taken_in(dir, steps, id)),
        taken_in(dir, steps, id) matches Some(n) ==> n.id == id && steps.contains(Step::Add(n)),
    decreases steps.len(),
{
    if steps.len() > 0 {
        let r = steps.drop_last();
        let b = built(dir, r);
        lemma_numbers_last(dir, steps);
        law_built_box_is_sound(dir, r);
        law_found_is_what_was_added(dir, r, id);
        if let Some(n) = taken_in(dir, r, id) {
            let i = choose|i: int| 0 <= i < r.len() && r[i] == Step::Add(n);
            assert(steps[i] == Step::Add(n));
        }
        match steps.last() {
            Step::Read(num) => {
                if loaded(b.draws, num) is None {
                    lemma_empty_draw(b, num);
                    assert(b.with_draw(num, Seq::empty()).lookup(id) == b.lookup(id));
                }
            },
            Step::Add(n) => {
                assert(steps[steps.len() - 1] == Step::Add(n));
                if n.id == id {
                    law_added_is_found(b, n);
                    if b.index.contains_key(id) {
                        assert(b.lookup(id) matches Ok(found) && found is Some);
                    }
                } else {
                    law_adding_changes_no_other(b, n, id);
                }
            },
        }
    }
}

/// In memory the numbers for new draws last for as many notes as so many draws can hold.
pub proof fn law_numbers_last_in_memory(steps: Seq<Step>)
    requires
        forall|i: int| 0 <= i < steps.len() ==> (#[trigger] steps[i]) is Add,
        steps.len() <= DRAW_CAPACITY * u32::MAX,
    ensures
        numbers_last(None, steps),
{
    assert forall|i: int| 0 <= i < steps.len() implies (#[trigger] built(None, steps.take(i))).can_open() by {
        assert forall|k: int| 0 <= k < steps.take(i).len() implies (#[trigger] steps.take(i)[k]) is Add by {
            assert(steps.take(i)[k] == steps[k]);
        }
        let count = lemma_packed(steps.take(i));
        lemma_packed_next(built(None, steps.take(i)), count, steps[i]->Add_0);
    }
}

/// So a box in memory is sound whatever was added to it, up to that many notes.
pub proof fn law_box_in_memory_is_sound(steps: Seq<Step>)
    requires
        forall|i: int| 0 <= i < steps.len() ==> (#[trigger] steps[i]) is Add,
        steps.len() <= DRAW_CAPACITY * u32::MAX,
    ensures
        sound(built(None, steps)),
{
    law_numbers_last_in_memory(steps);
    law_built_box_is_sound(None, steps);
}

/// A box in memory that notes were added to has its draws packed.
proof fn lemma_packed(steps: Seq<Step>) -> (count: nat)
    requires
        forall|i: int| 0 <= i < steps.len() ==> (#[trigger] steps[i]) is Add,
        steps.len() <= DRAW_CAPACITY * u32::MAX,
    ensures
        count <= steps.len(),
        packed(built(None, steps).draws, count),
        built(None, steps).wf(),
        built(None, steps).dir is None,
    decreases steps.len(),
{
    if steps.len() == 0 {
        0
    } else {
        let r = steps.drop_last();
        assert forall|k: int| 0 <= k < r.len() implies (#[trigger] r[k]) is Add by {
            assert(r[k] == steps[k]);
        }
        let count = lemma_packed(r);
        let b = built(None, r);
        assert(steps[steps.len() - 1] is Add);
        let n = steps.last()->Add_0;
        lemma_packed_next(b, count, n);
        if b.adding(n) is Ok {
            b.lemma_with_note(n, b.assigned(n).unwrap());
            count + 1
        } else {
            count
        }
    }
}

// ── Boxes that come back from disk ───────────────────────────────────────────

/// The box after draws were read in, one after the other; a draw that is loaded already
/// stays as it is.
pub open spec fn read_in(b: BoxView, nums: Seq<u32>, reads: Seq<Seq<NoteView>>) -> BoxView
    decreases nums.len(),
{
    if nums.len() == 0 {
        b
    } else {
        let c = read_in(b, nums.drop_last(), reads.drop_last());
        match loaded(c.draws, nums.last()) {
            Some(_) => c,
            None => c.with_draw(nums.last(), reads.last()),
        }
    }
}

/// The draws with these numbers were read from where `b` was saved.
pub open spec fn read_from(b: BoxView, nums: Seq<u32>, reads: Seq<Seq<NoteView>>) -> bool {
    &&& reads.len() == nums.len()
    &&& forall|i: int|
        0 <= i < nums.len() ==> loaded(b.draws, #[trigger] nums[i]) is Some && arranged(
            drawn_at(b.draws, nums[i]),
            reads[i],
        )
}

/// Reading saved draws in brings back these draws and no others.
proof fn lemma_read_in(b: BoxView, opened: BoxView, nums: Seq<u32>, reads: Seq<Seq<NoteView>>)
    requires
        b.wf(),
        opened.wf(),
        stubs(opened.index, opened.draws),
        read_from(b, nums, reads),
    ensures
        ({
            let c = read_in(opened, nums, reads);
            &&& c.wf()
            &&& c.dir == opened.dir
            &&& c.index == opened.index
            &&& forall|num: u32|
                #![trigger loaded(c.draws, num)]
                #![trigger has_draw(c.draws, num)]
                {
                    &&& has_draw(c.draws, num) <==> has_draw(opened.draws, num) || nums.contains(num)
                    &&& nums.contains(num) ==> loaded(c.draws, num) == loaded(b.draws, num)
                    &&& !nums.contains(num) ==> loaded(c.draws, num) is None
                }
        }),
    decreases nums.len(),
{
    if nums.len() == 0 {
        assert forall|num: u32| loaded(opened.draws, num) is None by {
            lemma_slot(opened.draws, num);
        }
    } else {
        let r = nums.drop_last();
        let s = reads.drop_last();
        let n = nums.last();
        let read = reads.last();
        assert forall|i: int| 0 <= i < r.len() implies loaded(b.draws, #[trigger] r[i]) is Some && arranged(
            drawn_at(b.draws, r[i]),
            s[i],
        ) by {
            assert(r[i] == nums[i] && s[i] == reads[i]);
        }
        lemma_read_in(b, opened, r, s);
        let c = read_in(opened, r, s);
        let d = read_in(opened, nums, reads);
        assert(nums[nums.len() - 1] == n && reads[nums.len() - 1] == read);
        assert(loaded(b.draws, n) is Some);
        law_saved_draw_reads_back(b, n, drawn_at(b.draws, n), read);
        if loaded(c.draws, n) is None {
            lemma_stored(c.draws, n, read);
            c.lemma_with_draw(n, read);
        }
        assert forall|num: u32|
            #![trigger loaded(d.draws, num)]
            #![trigger has_draw(d.draws, num)]
            {
                &&& has_draw(d.draws, num) <==> has_draw(opened.draws, num) || nums.contains(num)
                &&& nums.contains(num) ==> loaded(d.draws, num) == loaded(b.draws, num)
                &&& !nums.contains(num) ==> loaded(d.draws, num) is None
            } by {
            assert(nums.contains(num) <==> num == n || r.contains(num)) by {
                if nums.contains(num) && num != n {
                    let i = choose|i: int| 0 <= i < nums.len() && nums[i] == num;
                    assert(r[i] == num);
                }
                if r.contains(num) {
                    let i = choose|i: int| 0 <= i < r.len() && r[i] == num;
                    assert(nums[i] == num);
                }
            }
            assert(has_draw(c.draws, num) <==> has_draw(opened.draws, num) || r.contains(num));
            assert(r.contains(num) ==> loaded(c.draws, num) == loaded(b.draws, num));
            assert(!r.contains(num) ==> loaded(c.draws, num) is None);
            if loaded(c.draws, n) is None && num != n {
                assert(loaded(d.draws, num) == loaded(c.draws, num));
                assert(has_draw(d.draws, num) == has_draw(c.draws, num));
            }
        }
    }
}

/// A box comes back whole: opened anew on the index that was saved, with every draw that
/// the index names read in, whichever others were read as well, all its draws are loaded,
/// it holds the same notes in the same order, and it finds the same at every ID.
pub proof fn law_saved_box_comes_back(
    b: BoxView,
    opened: BoxView,
    nums: Seq<u32>,
    reads: Seq<Seq<NoteView>>,
)
    requires
        b.wf(),
        well_indexed(b),
        opened.wf(),
        opened.index == b.index,
        stubs(opened.index, opened.draws),
        read_from(b, nums, reads),
        forall|t: Seq<char>| #[trigger] b.index.contains_key(t) ==> nums.contains(b.index[t]),
    ensures
        ({
            let again = read_in(opened, nums, reads);
            &&& again.wf()
            &&& again.dir == opened.dir
            &&& again.index == b.index
            &&& first_unloaded(again.draws) is None
            &&& all_notes(again.draws) == all_notes(b.draws)
            &&& forall|id: Seq<char>| #[trigger] again.lookup(id) == b.lookup(id)
        }),
{
    let again = read_in(opened, nums, reads);
    lemma_read_in(b, opened, nums, reads);
    assert forall|num: u32| #[trigger] has_draw(again.draws, num) implies nums.contains(num) by {
        if has_draw(opened.draws, num) {
            let t = choose|t: Seq<char>| #[trigger]
                opened.index.contains_key(t) && opened.index[t] == num;
            assert(nums.contains(b.index[t]));
        }
    }
    lemma_all_loaded(again.draws);
    assert forall|i: int| 0 <= i < again.draws.len() implies (#[trigger] again.draws[i]).notes is Some by {
        lemma_slot_at(again.draws, i);
        let num = again.draws[i].num;
        assert(has_draw(again.draws, num));
        let k = choose|k: int| 0 <= k < nums.len() && nums[k] == num;
        assert(loaded(b.draws, nums[k]) is Some);
        assert(loaded(again.draws, num) == loaded(b.draws, num));
    }
    assert forall|num: u32| #[trigger] drawn_at(again.draws, num) == drawn_at(b.draws, num) by {
        if has_draw(again.draws, num) {
            assert(loaded(again.draws, num) == loaded(b.draws, num));
        } else if has_draw(b.draws, num) {
            lemma_slot(b.draws, num);
            let i = slot(b.draws, num);
            let v = drawn(b.draws[i]);
            if v.len() > 0 {
                let n = v[0];
                assert(b.index.contains_key(n.id) && b.index[n.id] == num);
                assert(nums.contains(num));
                assert(has_draw(again.draws, num));
            }
            assert(drawn_at(b.draws, num) =~= Seq::<NoteView>::empty());
        }
    }
    lemma_same_notes(again.draws, b.draws);
    assert forall|id: Seq<char>| #[trigger] again.lookup(id) == b.lookup(id) by {
        if b.index.contains_key(id) {
            let num = b.index[id];
            assert(nums.contains(num));
            assert(loaded(again.draws, num) == loaded(b.draws, num));
        }
    }
}

/// What was made and saved is what is read: a box that was created in a directory and
/// that notes were added to, opened anew on the index that was saved, with its draws read
/// in, holds the same notes and finds at each ID the note that was taken in there.
pub proof fn law_built_box_comes_back(
    dir: Seq<char>,
    steps: Seq<Step>,
    opened: BoxView,
    nums: Seq<u32>,
    reads: Seq<Seq<NoteView>>,
    id: Seq<char>,
)
    requires
        numbers_last(Some(dir), steps),
        opened.wf(),
        opened.index == built(Some(dir), steps).index,
        stubs(opened.index, opened.draws),
        read_from(built(Some(dir), steps), nums, reads),
        forall|t: Seq<char>| #[trigger]
            built(Some(dir), steps).index.contains_key(t) ==> nums.contains(
                built(Some(dir), steps).index[t],
            ),
    ensures
        ({
            let again = read_in(opened, nums, reads);
            &&& again.wf()
            &&& first_unloaded(again.draws) is None
            &&& all_notes(again.draws) == all_notes(built(Some(dir), steps).draws)
            &&& again.lookup(id) == Ok::<Option<NoteView>, u32>(taken_in(Some(dir), steps, id))
        }),
{
    let b = built(Some(dir), steps);
    law_built_box_is_sound(Some(dir), steps);
    law_saved_box_comes_back(b, opened, nums, reads);
    law_found_is_what_was_added(Some(dir), steps, id);
    assert(read_in(opened, nums, reads).lookup(id) == b.lookup(id));
}

} // verus!
