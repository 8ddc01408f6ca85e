//! How a box is laid out in its directory: `index.json` and `draws/<number>.json`.
//!
//! Nothing here touches a file. The functions say what is to be written, and take what
//! was read.

use crate::id::ID;
use crate::index::{entry_at, has_entry, lemma_entry_map, Index};
use crate::laws::{lemma_all_notes_stored, lemma_with_note_lookup};
use crate::model::{
    all_notes, drawn, drawn_at, first_open, has_draw, lemma_first_open, lemma_next_number,
    lemma_rank, lemma_slot, lemma_slot_at, lemma_stored, lemma_stored_all, loaded, next_number,
    numbered, placed, rank_of, slot, stored, BoxView, DrawView, DRAW_CAPACITY,
};
use crate::note::{Note, NoteView};
use crate::numeral::{
    decimal, decimal_of, is_digit, lemma_decimal_digits, lemma_value_of_decimal, parse_number,
    parsed,
};
use crate::sort::{
    arranged, lemma_arranged_same, lemma_arranged_unique, reversed, slips, sort_notes,
};
use crate::store::{draw_views, index_map, NoteBox};
use crate::text::{chars_of, push_text, slice_of, stands_at, string_of};
use vstd::prelude::*;

verus! {

// ── File names ───────────────────────────────────────────────────────────────

/// The name of the file that draw `num` is kept in.
pub open spec fn draw_file(num: u32) -> Seq<char> {
    decimal(num as nat) + ".json"@
}

/// A file name with the extension `json`.
pub open spec fn is_json(name: Seq<char>) -> bool {
    name.len() > 5 && name.skip(name.len() - 5) == ".json"@
}

/// The number of the draw that is kept in the file `name`, if it is one.
pub open spec fn file_number(name: Seq<char>) -> Option<nat> {
    if is_json(name) {
        parsed(name.take(name.len() - 5), u32::MAX as nat)
    } else {
        None
    }
}

/// The name of the file that draw `num` is kept in.
pub fn draw_file_name(num: u32) -> (r: String)
    ensures
        r@ == draw_file(num),
{
    let mut v = decimal_of(num as u64);
    push_text(&mut v, ".json");
    string_of(&v)
}

/// Whether a file name has the extension `json`.
pub fn is_json_file(name: &str) -> (r: bool)
    ensures
        r == is_json(name@),
{
    let v = chars_of(name);
    let n = v.len();
    let ext = chars_of(".json");
    proof {
        reveal_strlit(".json");
        if n > 5 {
            assert(name@.subrange(n - 5, n - 5 + 5) =~= name@.skip(n - 5));
        }
    }
    n > 5 && stands_at(&v, &ext, n - 5)
}

/// The number of the draw that is kept in the file `name`: its name without the
/// extension, where that is a number.
pub fn draw_number(name: &str) -> (r: Option<u32>)
    ensures
        match r {
            Some(num) => file_number(name@) == Some(num as nat),
            None => file_number(name@) is None,
        },
{
    if !is_json_file(name) {
        return None;
    }
    let v = chars_of(name);
    let n = v.len();
    let stem = slice_of(&v, 0, n - 5);
    assert(stem@ =~= name@.take(n - 5));
    match parse_number(&stem, u32::MAX as u64) {
        Some(num) => Some(num as u32),
        None => None,
    }
}

/// A draw's file is recognised as the draw's.
pub proof fn law_draw_file_is_recognised(num: u32)
    ensures
        file_number(draw_file(num)) == Some(num as nat),
{
    let d = decimal(num as nat);
    let name = draw_file(num);
    reveal_strlit(".json");
    lemma_decimal_digits(num as nat);
    lemma_value_of_decimal(num as nat);
    assert(name.skip(name.len() - 5) =~= ".json"@);
    assert(name.take(name.len() - 5) =~= d);
    assert(is_digit(d[0]));
}

// ── Saving ───────────────────────────────────────────────────────────────────

/// A draw to be written: the file below `draws/` and the notes that go there.
pub struct SavedDraw<'a> {
    pub file: String,
    pub notes: &'a Vec<Note>,
}

/// The files that the loaded ones among `draws` are written to, with their notes.
pub open spec fn saved(draws: Seq<DrawView>) -> Seq<(Seq<char>, Seq<NoteView>)>
    decreases draws.len(),
{
    if draws.len() == 0 {
        Seq::empty()
    } else {
        match draws.last().notes {
            Some(v) => saved(draws.drop_last()).push((draw_file(draws.last().num), v)),
            None => saved(draws.drop_last()),
        }
    }
}

/// What a list of draws to be written holds.
pub open spec fn saved_views(s: Seq<SavedDraw>) -> Seq<(Seq<char>, Seq<NoteView>)> {
    s.map_values(|d: SavedDraw| (d.file@, slips(d.notes@)))
}

impl NoteBox {
    /// The draws that are to be written, one file each, before the index: every draw that
    /// is loaded. `None` when there is no backing directory.
    pub fn save(&self) -> (r: Option<Vec<SavedDraw<'_>>>)
        ensures
            match r {
                Some(v) => self@.dir is Some && saved_views(v@) == saved(self@.draws),
                None => self@.dir is None,
            },
    {
        if !self.is_backed() {
            return None;
        }
        let draws = self.draws();
        let ghost s = self@.draws;
        let mut r: Vec<SavedDraw<'_>> = Vec::new();
        assert(saved_views(r@) =~= saved(s.take(0)));
        for i in 0..draws.len()
            invariant
                s == draw_views(draws@),
                saved_views(r@) == saved(s.take(i as int)),
        {
            let ghost before = saved_views(r@);
            proof {
                assert(s[i as int] == draws@[i as int]@);
                assert(s.take(i + 1).drop_last() =~= s.take(i as int));
                assert(s.take(i + 1).last() == s[i as int]);
            }
            if let Some(v) = &draws[i].notes {
                let d = SavedDraw { file: draw_file_name(draws[i].num), notes: v };
                let ghost entry = (d.file@, slips(d.notes@));
                r.push(d);
                assert(saved_views(r@) =~= before.push(entry));
            }
        }
        assert(s.take(draws@.len() as int) =~= s);
        Some(r)
    }
}

// ── Migration ────────────────────────────────────────────────────────────────

/// Whether a directory holds an old-format box that needs migration: a `draws/`
/// subdirectory exists but `index.json` does not.
pub fn needs_migration(draws_is_dir: bool, index_exists: bool) -> (r: bool)
    ensures
        r == (draws_is_dir && !index_exists),
{
    draws_is_dir && !index_exists
}

/// A box in memory with the notes of `s` put in one after the other, whatever their
/// length, each beside its parent while there is room.
pub open spec fn filled(s: Seq<NoteView>) -> BoxView
    decreases s.len(),
{
    if s.len() == 0 {
        BoxView { dir: None, index: Map::empty(), draws: Seq::empty() }
    } else {
        let b = filled(s.drop_last());
        match b.assigned(s.last()) {
            Ok(num) => b.with_note(s.last(), num),
            Err(_) => b,
        }
    }
}

/// The draws are numbered from 1 on, all but the last are full, and there are `count`
/// notes in them.
pub open spec fn packed(draws: Seq<DrawView>, count: nat) -> bool {
    &&& forall|i: int| 0 <= i < draws.len() ==> (#[trigger] draws[i]).num == i + 1
    &&& forall|i: int| 0 <= i < draws.len() ==> (#[trigger] draws[i]).notes is Some
    &&& forall|i: int| 0 <= i < draws.len() - 1 ==> drawn(#[trigger] draws[i]).len() == DRAW_CAPACITY
    &&& draws.len() == 0 ==> count == 0
    &&& draws.len() > 0 ==> {
        &&& 1 <= drawn(draws.last()).len() <= DRAW_CAPACITY
        &&& count == DRAW_CAPACITY * (draws.len() - 1) + drawn(draws.last()).len()
    }
}

/// A note put where it belongs keeps the draws packed.
pub proof fn lemma_packed_next(b: BoxView, count: nat, n: NoteView)
    requires
        b.wf(),
        b.dir is None,
        packed(b.draws, count),
        count < DRAW_CAPACITY * u32::MAX,
    ensures
        b.can_open(),
        b.assigned(n) matches Ok(num) && packed(b.with_note(n, num).draws, count + 1),
{
    let draws = b.draws;
    lemma_first_open(draws);
    let k = draws.len() as int;
    if first_open(draws) == Ok::<Option<u32>, u32>(None) && k > 0 {
        assert(draws[k - 1].notes is Some);
        assert(count == DRAW_CAPACITY * k) by (nonlinear_arith)
            requires
                count == DRAW_CAPACITY * (k - 1) + DRAW_CAPACITY,
        ;
        assert(k < u32::MAX) by (nonlinear_arith)
            requires
                count == DRAW_CAPACITY * k,
                count < DRAW_CAPACITY * u32::MAX,
                DRAW_CAPACITY == 5000,
        ;
        assert(draws[k - 1].num == k);
    }
    if let Err(num) = first_open(draws) {
        lemma_slot(draws, num);
        assert(draws[slot(draws, num)].notes is Some);
    }
    if n.links.len() > 0 && b.index.contains_key(n.links[0]) {
        let num = b.index[n.links[0]];
        lemma_slot(draws, num);
        assert(has_draw(draws, num));
        assert(draws[slot(draws, num)].notes is Some);
    }
    let num = b.assigned(n).unwrap();
    lemma_slot(draws, num);
    let p = slot(draws, num);
    let there = drawn_at(draws, num);
    b.lemma_with_note(n, num);
    lemma_rank(there, n.id);
    let after = stored(draws, num, placed(there, n));
    if has_draw(draws, num) {
        assert(draws[p].notes == Some(there));
        assert(p == k - 1);
        assert(after =~= draws.update(p, DrawView { num, notes: Some(placed(there, n)) }));
    } else {
        assert(num == next_number(draws));
        lemma_next_number(draws, num);
        assert(after =~= draws.push(DrawView { num, notes: Some(placed(there, n)) }));
        assert(placed(there, n).len() == 1);
        if k > 0 {
            assert(draws[k - 1].num == k);
            assert(draws[k - 1] == draws.last());
            assert(count == DRAW_CAPACITY * k) by (nonlinear_arith)
                requires
                    count == DRAW_CAPACITY * (k - 1) + DRAW_CAPACITY,
            ;
        }
    }
}

/// Puts the notes of an old-format box into a new one kept in `dir`: sorted by ID, so
/// that related notes land in the same draw, and whatever their length, since they were
/// accepted when they were written. `None` where there are no notes to migrate.
pub fn migrate(dir: &str, notes: Vec<Note>) -> (r: Option<NoteBox>)
    requires
        notes@.len() <= DRAW_CAPACITY * u32::MAX,
    ensures
        match r {
            None => notes@.len() == 0,
            Some(b) => {
                &&& notes@.len() > 0
                &&& b.wf()
                &&& exists|v: Seq<NoteView>| #[trigger]
                    arranged(slips(notes@), v) && b@ == (BoxView { dir: Some(dir@), ..filled(v) })
            },
        },
{
    if notes.len() == 0 {
        return None;
    }
    let ghost total = notes@.len();
    let ghost input = slips(notes@);
    let sorted = sort_notes(notes);
    let ghost v = slips(sorted@);
    proof {
        vstd::seq_lib::to_multiset_len(input);
        vstd::seq_lib::to_multiset_len(v);
    }
    let mut rest = reversed(sorted);
    assert(slips(rest@).reverse() =~= v);
    let mut b = NoteBox::new();
    let ghost mut done: int = 0;
    assert(v.take(0) =~= Seq::<NoteView>::empty());
    assert(v.skip(0) =~= v);
    while rest.len() > 0
        invariant
            b.wf(),
            0 <= done <= v.len(),
            v.len() <= DRAW_CAPACITY * u32::MAX,
            slips(rest@).reverse() == v.skip(done),
            b@ == filled(v.take(done)),
            b@.dir is None,
            packed(b@.draws, done as nat),
        decreases rest@.len(),
    {
        let ghost left = slips(rest@);
        if let Some(n) = rest.pop() {
            let ghost before = b@;
            proof {
                assert(left.last() == n@);
                assert(left.reverse()[0] == n@);
                assert(v.skip(done).len() == left.len());
                assert(v.skip(done)[0] == v[done]);
                assert(slips(rest@) =~= left.drop_last());
                assert(slips(rest@).reverse() =~= v.skip(done + 1)) by {
                    assert(left.drop_last().reverse() =~= left.reverse().skip(1));
                    assert(v.skip(done).skip(1) =~= v.skip(done + 1));
                }
                assert(v.take(done + 1).drop_last() =~= v.take(done));
                assert(v.take(done + 1).last() == v[done]);
                b.lemma_wf();
                lemma_packed_next(before, done as nat, n@);
            }
            b.put(n);
            proof {
                done = done + 1;
            }
        }
    }
    assert(v.take(done) =~= v) by {
        assert(v.skip(done).len() == 0);
    }
    Some(b.place_in(dir))
}

/// Whether the old file `name` may go once the box that its notes were migrated to has
/// been saved: unless a draw of that box took its place.
pub fn may_remove(name: &str, migrated: &NoteBox) -> (r: bool)
    ensures
        r == !exists|i: int|
            0 <= i < migrated@.draws.len() && draw_file((#[trigger] migrated@.draws[i]).num) == name@,
{
    let draws = migrated.draws();
    let ghost s = migrated@.draws;
    let old_name = name.to_owned();
    for i in 0..draws.len()
        invariant
            s == draw_views(draws@),
            s == migrated@.draws,
            old_name@ == name@,
            forall|k: int| 0 <= k < i ==> draw_file((#[trigger] s[k]).num) != name@,
    {
        assert(s[i as int] == draws@[i as int]@);
        if draw_file_name(draws[i].num) == old_name {
            return false;
        }
    }
    true
}

// ── What is read back ────────────────────────────────────────────────────────

/// A draw that was saved is read back as it was.
pub proof fn law_saved_draw_reads_back(b: BoxView, num: u32, notes: Seq<NoteView>, read: Seq<NoteView>)
    requires
        b.wf(),
        loaded(b.draws, num) == Some(notes),
        arranged(notes, read),
    ensures
        read == notes,
{
    lemma_slot(b.draws, num);
    assert(b.draws[slot(b.draws, num)].notes == Some(notes));
    lemma_arranged_same(notes);
    lemma_arranged_unique(notes, read, notes);
}

/// An index that was saved is read back as it was.
pub proof fn law_saved_index_reads_back(index: &Index, entries: Seq<(ID, u32)>)
    requires
        index.wf(),
        entries.len() == index.list().len(),
        forall|i: int|
            0 <= i < entries.len() ==> (#[trigger] entries[i]).0@ == index.list()[i].id@ && entries[i].1
                == index.list()[i].draw,
    ensures
        index_map(entries) == index@,
{
    index.lemma_list();
    let list = index.list();
    let n = entries.len() as int;
    assert forall|t: Seq<char>|
        #![trigger index_map(entries).dom().contains(t)]
        #![trigger index@.dom().contains(t)]
        #![trigger index_map(entries)[t]]
        index_map(entries).dom().contains(t) == index@.dom().contains(t) && (index@.dom().contains(t)
            ==> index_map(entries)[t] == index@[t]) by {
        lemma_index_map(entries, t);
        if has_entry(list, t) {
            let i = entry_at(list, t);
            lemma_entry_map(list, i);
            assert(entries[i].0@ == t);
        }
        if index_map(entries).contains_key(t) {
            let i = choose|i: int|
                0 <= i < entries.len() && (#[trigger] entries[i]).0@ == t && entries[i].1 == index_map(
                    entries,
                )[t];
            assert(list[i].id@ == t);
            lemma_entry_map(list, i);
        }
    }
    assert(index_map(entries).dom() =~= index@.dom());
    assert(index_map(entries) =~= index@);
}

/// What pairs of ID and draw number say of an ID.
proof fn lemma_index_map(s: Seq<(ID, u32)>, t: Seq<char>)
    ensures
        index_map(s).contains_key(t) <==> exists|i: int| 0 <= i < s.len() && (#[trigger] s[i]).0@ == t,
        index_map(s).contains_key(t) ==> exists|i: int|
            0 <= i < s.len() && (#[trigger] s[i]).0@ == t && s[i].1 == index_map(s)[t],
    decreases s.len(),
{
    if s.len() > 0 {
        let r = s.drop_last();
        lemma_index_map(r, t);
        if s.last().0@ == t {
            assert(s[s.len() - 1].0@ == t && s[s.len() - 1].1 == index_map(s)[t]);
        } else {
            if index_map(r).contains_key(t) {
                let i = choose|i: int|
                    0 <= i < r.len() && (#[trigger] r[i]).0@ == t && r[i].1 == index_map(r)[t];
                assert(s[i] == r[i]);
            }
            if exists|i: int| 0 <= i < s.len() && (#[trigger] s[i]).0@ == t {
                let i = choose|i: int| 0 <= i < s.len() && (#[trigger] s[i]).0@ == t;
                assert(r[i] == s[i]);
            }
        }
    }
}

/// A note that was saved is found again in the box as it is opened anew, once its draw
/// has been read.
pub proof fn law_saved_note_is_found_again(
    b: BoxView,
    opened: BoxView,
    id: Seq<char>,
    notes: Seq<NoteView>,
    read: Seq<NoteView>,
)
    requires
        b.wf(),
        opened.wf(),
        opened.index == b.index,
        b.index.contains_key(id),
        loaded(b.draws, b.index[id]) == Some(notes),
        arranged(notes, read),
    ensures
        opened.with_draw(b.index[id], read).lookup(id) == b.lookup(id),
{
    law_saved_draw_reads_back(b, b.index[id], notes, read);
    lemma_stored(opened.draws, b.index[id], read);
}

/// Every note lies in the draw that the index has for it.
pub open spec fn well_indexed(b: BoxView) -> bool {
    forall|i: int, k: int|
        0 <= i < b.draws.len() && 0 <= k < drawn(b.draws[i]).len() ==> {
            let n = #[trigger] drawn(b.draws[i])[k];
            b.index.contains_key(n.id) && b.index[n.id] == b.draws[i].num
        }
}

/// Draws that hold the same notes at every number hold the same notes.
pub proof fn lemma_same_notes(a: Seq<DrawView>, c: Seq<DrawView>)
    requires
        numbered(a),
        numbered(c),
        forall|num: u32| #[trigger] drawn_at(a, num) == drawn_at(c, num),
    ensures
        all_notes(a) == all_notes(c),
    decreases a.len() + c.len(), 1int,
{
    if a.len() == 0 && c.len() == 0 {
    } else if c.len() == 0 || (a.len() > 0 && a.last().num > c.last().num) {
        lemma_same_notes_drop(a, c);
    } else if a.len() == 0 || c.last().num > a.last().num {
        assert forall|num: u32| #[trigger] drawn_at(c, num) == drawn_at(a, num) by {
            assert(drawn_at(a, num) == drawn_at(c, num));
        }
        lemma_same_notes_drop(c, a);
    } else {
        let num = a.last().num;
        lemma_slot_at(a, a.len() - 1);
        lemma_slot_at(c, c.len() - 1);
        assert(drawn_at(a, num) == drawn_at(c, num));
        assert forall|m: u32| #[trigger] drawn_at(a.drop_last(), m) == drawn_at(c.drop_last(), m) by {
            lemma_without_last(a, m);
            lemma_without_last(c, m);
            assert(drawn_at(a, m) == drawn_at(c, m));
        }
        lemma_same_notes(a.drop_last(), c.drop_last());
    }
}

/// `lemma_same_notes` where the last draw of `a` has no counterpart.
proof fn lemma_same_notes_drop(a: Seq<DrawView>, c: Seq<DrawView>)
    requires
        numbered(a),
        numbered(c),
        a.len() > 0,
        c.len() > 0 ==> a.last().num > c.last().num,
        forall|num: u32| #[trigger] drawn_at(a, num) == drawn_at(c, num),
    ensures
        all_notes(a) == all_notes(c),
    decreases a.len() + c.len(), 0int,
{
    let num = a.last().num;
    lemma_slot_at(a, a.len() - 1);
    assert(!has_draw(c, num)) by {
        lemma_slot(c, num);
        if has_draw(c, num) {
            let k = slot(c, num);
            if k < c.len() - 1 {
                assert(c[k].num < c[c.len() - 1].num);
            }
        }
    }
    assert(drawn_at(a, num) == drawn_at(c, num));
    assert(drawn(a.last()) =~= Seq::<NoteView>::empty());
    let r = a.drop_last();
    assert(all_notes(a) =~= all_notes(r));
    assert forall|m: u32| #[trigger] drawn_at(r, m) == drawn_at(c, m) by {
        lemma_without_last(a, m);
        assert(drawn_at(a, m) == drawn_at(c, m));
    }
    lemma_same_notes(r, c);
}

/// The draws without the last one.
proof fn lemma_without_last(a: Seq<DrawView>, m: u32)
    requires
        numbered(a),
        a.len() > 0,
    ensures
        numbered(a.drop_last()),
        drawn_at(a.drop_last(), m) == (if m == a.last().num {
            Seq::empty()
        } else {
            drawn_at(a, m)
        }),
{
    let r = a.drop_last();
    assert(numbered(r)) by {
        assert forall|i: int, j: int| 0 <= i < j < r.len() implies (#[trigger] r[i]).num < (#[trigger] r[j]).num by {
            assert(r[i] == a[i] && r[j] == a[j]);
        }
    }
    lemma_slot(a, m);
    lemma_slot(r, m);
    if has_draw(r, m) {
        let k = slot(r, m);
        assert(a[k] == r[k]);
        lemma_slot_at(a, k);
        assert(a[k].num < a[a.len() - 1].num);
    }
    if has_draw(a, m) && m != a.last().num {
        let k = slot(a, m);
        assert(r[k] == a[k]);
        lemma_slot_at(r, k);
    }
}

/// Adding keeps every note in the draw that the index has for it.
pub proof fn law_adding_keeps_the_index_right(b: BoxView, n: NoteView)
    requires
        b.wf(),
        well_indexed(b),
    ensures
        b.adding(n) matches Ok(c) ==> well_indexed(c),
{
    if let Ok(c) = b.adding(n) {
        let num = b.assigned(n).unwrap();
        let there = drawn_at(b.draws, num);
        let after = placed(there, n);
        lemma_rank(there, n.id);
        lemma_slot(b.draws, num);
        assert forall|i: int, k: int| 0 <= i < c.draws.len() && 0 <= k < drawn(c.draws[i]).len() implies ({
            let m = #[trigger] drawn(c.draws[i])[k];
            c.index.contains_key(m.id) && c.index[m.id] == c.draws[i].num
        }) by {
            let m = drawn(c.draws[i])[k];
            lemma_stored_all(b.draws, num, after, i);
            if c.draws[i] == (DrawView { num, notes: Some(after) }) {
                if m != n {
                    let p = rank_of(there, n.id);
                    let j = if k < p {
                        k
                    } else {
                        k - 1
                    };
                    assert(m == there[j]);
                    let d = slot(b.draws, num);
                    assert(drawn(b.draws[d])[j] == m);
                }
            } else {
                let d = choose|d: int| 0 <= d < b.draws.len() && #[trigger] b.draws[d] == c.draws[i];
                assert(drawn(b.draws[d])[k] == m);
            }
        }
    }
}

/// The last note in `s` with the ID `id`.
pub open spec fn last_with(s: Seq<NoteView>, id: Seq<char>) -> Option<NoteView>
    decreases s.len(),
{
    if s.len() == 0 {
        None
    } else if s.last().id == id {
        Some(s.last())
    } else {
        last_with(s.drop_last(), id)
    }
}

/// A migration loses nothing: the new box holds just the notes that were read, and finds
/// each by its ID (of several with one ID the last).
pub proof fn law_migration_keeps_every_note(s: Seq<NoteView>, id: Seq<char>)
    requires
        s.len() <= DRAW_CAPACITY * u32::MAX,
    ensures
        filled(s).wf(),
        filled(s).dir is None,
        packed(filled(s).draws, s.len()),
        filled(s).lookup(id) == Ok::<Option<NoteView>, u32>(last_with(s, id)),
        all_notes(filled(s).draws).to_multiset() == s.to_multiset(),
    decreases s.len(),
{
    broadcast use vstd::seq_lib::group_to_multiset_ensures;

    if s.len() == 0 {
        assert(s =~= Seq::<NoteView>::empty());
        assert(all_notes(filled(s).draws) =~= Seq::<NoteView>::empty());
    } else {
        let r = s.drop_last();
        let b = filled(r);
        let n = s.last();
        law_migration_keeps_every_note(r, id);
        lemma_packed_next(b, r.len(), n);
        let num = b.assigned(n).unwrap();
        b.lemma_with_note(n, num);
        lemma_slot(b.draws, num);
        if has_draw(b.draws, num) {
            assert(b.draws[slot(b.draws, num)].notes is Some);
        }
        lemma_with_note_lookup(b, n, num, id);
        lemma_all_notes_stored(b.draws, num, n);
        assert(s =~= r.push(n));
    }
}

} // verus!
