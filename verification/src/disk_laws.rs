//! What is written and read back, file by file.

use crate::disk::{
    draw_file, file_number, is_json, law_draw_file_is_recognised, saved, well_indexed,
};
use crate::growth::{law_saved_box_comes_back, read_from, read_in};
use crate::id::ID;
use crate::model::{
    all_notes, drawn_at, first_unloaded, has_draw, lemma_slot, lemma_slot_at, loaded, numbered,
    slot, stubs, BoxView, DrawView,
};
use crate::note::NoteView;
use crate::numeral::{decimal, parsed};
use crate::sort::arranged;
use crate::store::index_map;
use vstd::prelude::*;

verus! {

// ── File names ───────────────────────────────────────────────────────────────

/// The file of a draw has the number for its name.
pub proof fn law_draw_file(num: u32)
    ensures
        draw_file(num) == decimal(num as nat) + seq!['.', 'j', 's', 'o', 'n'],
{
    reveal_strlit(".json");
    assert(".json"@ =~= seq!['.', 'j', 's', 'o', 'n']);
}

/// Different draws have different files.
pub proof fn law_draw_files_differ(a: u32, b: u32)
    requires
        draw_file(a) == draw_file(b),
    ensures
        a == b,
{
    law_draw_file_is_recognised(a);
    law_draw_file_is_recognised(b);
}

/// A file is a draw's just where its name is something with the extension behind it that
/// reads as a number.
pub proof fn law_file_number(stem: Seq<char>, name: Seq<char>)
    ensures
        stem.len() > 0 ==> is_json(stem + seq!['.', 'j', 's', 'o', 'n']) && file_number(
            stem + seq!['.', 'j', 's', 'o', 'n'],
        ) == parsed(stem, 4294967295),
        !is_json(name) ==> file_number(name) is None,
        is_json(name) ==> name.len() > 5 && name == name.take(name.len() - 5) + seq!['.', 'j', 's', 'o', 'n'],
{
    reveal_strlit(".json");
    let ext = seq!['.', 'j', 's', 'o', 'n'];
    assert(".json"@ =~= ext);
    let whole = stem + ext;
    assert(whole.skip(whole.len() - 5) =~= ext);
    assert(whole.take(whole.len() - 5) =~= stem);
    if is_json(name) {
        assert(name =~= name.take(name.len() - 5) + name.skip(name.len() - 5));
    }
}

// ── What is saved ────────────────────────────────────────────────────────────

/// What is saved is every draw that is loaded, whatever it holds: one entry for each, in
/// order, with the draw's file and all its notes, and no entry besides.
pub proof fn law_every_loaded_draw_is_saved(draws: Seq<DrawView>) -> (at: Seq<int>)
    ensures
        saved(draws).len() == at.len(),
        forall|k: int|
            0 <= k < at.len() ==> {
                &&& 0 <= #[trigger] at[k] < draws.len()
                &&& saved(draws)[k].0 == draw_file(draws[at[k]].num)
                &&& draws[at[k]].notes == Some(saved(draws)[k].1)
            },
        forall|k: int, l: int| 0 <= k < l < at.len() ==> #[trigger] at[k] < #[trigger] at[l],
        forall|i: int| 0 <= i < draws.len() ==> (#[trigger] at.contains(i) <==> draws[i].notes is Some),
    decreases draws.len(),
{
    if draws.len() == 0 {
        Seq::empty()
    } else {
        let r = draws.drop_last();
        let n = r.len() as int;
        let a = law_every_loaded_draw_is_saved(r);
        let full = draws.last().notes is Some;
        let at = if full {
            a.push(n)
        } else {
            a
        };
        assert forall|k: int| 0 <= k < at.len() implies {
            &&& 0 <= #[trigger] at[k] < draws.len()
            &&& saved(draws)[k].0 == draw_file(draws[at[k]].num)
            &&& draws[at[k]].notes == Some(saved(draws)[k].1)
        } by {
            if k < a.len() {
                assert(a[k] == at[k]);
                assert(saved(draws)[k] == saved(r)[k]);
            }
        }
        assert forall|k: int, l: int| 0 <= k < l < at.len() implies #[trigger] at[k] < #[trigger] at[l] by {
            assert(a[k] == at[k]);
            if l < a.len() {
                assert(a[l] == at[l]);
            }
        }
        assert forall|i: int| 0 <= i < draws.len() implies (#[trigger] at.contains(i) <==> draws[i].notes is Some) by {
            if i < n {
                assert(r[i] == draws[i]);
                assert(a.contains(i) <==> r[i].notes is Some);
                if a.contains(i) {
                    let k = choose|k: int| 0 <= k < a.len() && a[k] == i;
                    assert(at[k] == i);
                }
                if at.contains(i) {
                    let k = choose|k: int| 0 <= k < at.len() && at[k] == i;
                    assert(a[k] == i);
                }
            } else if full {
                assert(at[a.len() as int] == n);
            } else if at.contains(i) {
                let k = choose|k: int| 0 <= k < at.len() && at[k] == i;
                assert(a[k] < r.len());
            }
        }
        at
    }
}

// ── Back from the files ──────────────────────────────────────────────────────

/// Among the files is one with this name and these notes.
pub open spec fn has_file(files: Seq<(Seq<char>, Seq<NoteView>)>, name: Seq<char>, notes: Seq<NoteView>) -> bool {
    exists|k: int| 0 <= k < files.len() && #[trigger] files[k] == (name, notes)
}

/// The file of a draw is among those that are saved, with its notes, just where the draw
/// is loaded with these notes.
pub proof fn law_saved_file(draws: Seq<DrawView>, num: u32, notes: Seq<NoteView>)
    requires
        numbered(draws),
    ensures
        has_file(saved(draws), draw_file(num), notes) <==> loaded(draws, num) == Some(notes),
{
    let at = law_every_loaded_draw_is_saved(draws);
    let s = saved(draws);
    if has_file(s, draw_file(num), notes) {
        let k = choose|k: int| 0 <= k < s.len() && #[trigger] s[k] == (draw_file(num), notes);
        let i = at[k];
        law_draw_files_differ(draws[i].num, num);
        lemma_slot_at(draws, i);
    }
    if loaded(draws, num) == Some(notes) {
        lemma_slot(draws, num);
        let i = slot(draws, num);
        assert(draws[i].notes == Some(notes));
        assert(at.contains(i));
        let k = choose|k: int| 0 <= k < at.len() && at[k] == i;
        assert(s[k] == (draw_file(num), notes));
    }
}

/// What saving writes is what brings the box back: opened anew on its index, with the
/// draws that the index names read from the saved files, the box is loaded throughout,
/// holds the same notes in the same order, and finds the same at every ID.
pub proof fn law_saved_files_bring_the_box_back(
    b: BoxView,
    opened: BoxView,
    nums: Seq<u32>,
    contents: Seq<Seq<NoteView>>,
    reads: Seq<Seq<NoteView>>,
)
    requires
        b.wf(),
        well_indexed(b),
        opened.wf(),
        opened.index == b.index,
        stubs(opened.index, opened.draws),
        contents.len() == nums.len(),
        reads.len() == nums.len(),
        forall|i: int|
            0 <= i < nums.len() ==> has_file(
                saved(b.draws),
                draw_file(#[trigger] nums[i]),
                contents[i],
            ) && arranged(contents[i], reads[i]),
        forall|t: Seq<char>| #[trigger] b.index.contains_key(t) ==> nums.contains(b.index[t]),
    ensures
        ({
            let again = read_in(opened, nums, reads);
            &&& again.wf()
            &&& again.index == b.index
            &&& first_unloaded(again.draws) is None
            &&& all_notes(again.draws) == all_notes(b.draws)
            &&& forall|id: Seq<char>| #[trigger] again.lookup(id) == b.lookup(id)
        }),
{
    assert forall|i: int| 0 <= i < nums.len() implies loaded(b.draws, #[trigger] nums[i]) is Some && arranged(
        drawn_at(b.draws, nums[i]),
        reads[i],
    ) by {
        law_saved_file(b.draws, nums[i], contents[i]);
    }
    assert(read_from(b, nums, reads));
    law_saved_box_comes_back(b, opened, nums, reads);
}

/// And where the box is loaded throughout, there is such a file for every draw that the
/// index names.
pub proof fn law_every_indexed_draw_has_its_file(b: BoxView, t: Seq<char>)
    requires
        b.wf(),
        first_unloaded(b.draws) is None,
        b.index.contains_key(t),
    ensures
        has_file(saved(b.draws), draw_file(b.index[t]), drawn_at(b.draws, b.index[t])),
{
    crate::model::lemma_all_loaded(b.draws);
    let num = b.index[t];
    lemma_slot(b.draws, num);
    assert(has_draw(b.draws, num));
    assert(b.draws[slot(b.draws, num)].notes is Some);
    law_saved_file(b.draws, num, drawn_at(b.draws, num));
}

// ── The index ────────────────────────────────────────────────────────────────

/// An index made of entries has what the last entry for an ID says, and knows no ID that
/// has none.
pub proof fn law_later_entries_count(s: Seq<(ID, u32)>, e: (ID, u32), t: Seq<char>)
    ensures
        !index_map(Seq::<(ID, u32)>::empty()).contains_key(t),
        index_map(s.push(e)).contains_key(t) <==> e.0@ == t || index_map(s).contains_key(t),
        e.0@ == t ==> index_map(s.push(e))[t] == e.1,
        e.0@ != t && index_map(s).contains_key(t) ==> index_map(s.push(e))[t] == index_map(s)[t],
{
    assert(s.push(e).drop_last() =~= s);
}

} // verus!
