//! The box: draws of notes and the index over them.
//!
//! A box never reads or writes a file. Where an operation needs a draw that has not been
//! read in, it answers [`BoxError::NotLoaded`] and changes nothing; the caller reads the
//! draw, hands it over with [`NoteBox::load_draw`], and asks again.

use crate::growth::{law_adding_keeps_a_box_sound, sound};
use crate::id::ID;
use crate::index::{entry_at, has_entry, lemma_entry_map, Entry, Index};
use crate::model::{
    drawn, drawn_at, first_open, has_draw, lemma_first_open, lemma_new_stub, lemma_next_number,
    lemma_note_with_at, lemma_rank_unique, lemma_slot, lemma_slot_unique, lemma_stored,
    lemma_stored_twice, loaded, note_with, numbered, placed, rank_of, slot, spot, stored, stubs,
    BoxView, DrawView, Refusal, DRAW_CAPACITY,
};
use crate::note::{Note, NoteView, MAX_CONTENT_LEN};
use crate::numeral::{decimal, decimal_of};
use crate::order::{
    id_le, id_lt, key, lemma_id_le_transitive, lemma_id_lt_irreflexive, lemma_id_lt_total,
    lemma_id_lt_transitive,
};
use crate::sort::{arranged, in_order, slips, sort_notes};
use crate::text::{join2, join3, string_of};
use vstd::prelude::*;
use vstd::string::StrSliceExecFns;

verus! {

/// A single physical drawer of the box.
///
/// Identified by a decimal number (`num`). Its notes are `None` until they are read in.
#[derive(Debug, PartialEq)]
pub struct Draw {
    pub num: u32,
    pub notes: Option<Vec<Note>>,
}

impl View for Draw {
    type V = DrawView;

    open spec fn view(&self) -> DrawView {
        DrawView {
            num: self.num,
            notes: match self.notes {
                Some(v) => Some(slips(v@)),
                None => None,
            },
        }
    }
}

impl Draw {
    /// A draw that is not loaded.
    fn new(num: u32) -> (r: Draw)
        ensures
            r@ == (DrawView { num, notes: None }),
    {
        Draw { num, notes: None }
    }

    /// The draw's number.
    pub fn num(&self) -> (r: u32)
        ensures
            r == self@.num,
    {
        self.num
    }

    /// Returns loaded notes as a slice, or an empty slice if not yet loaded.
    pub fn notes(&self) -> (r: &[Note])
        ensures
            slips(r@) == drawn(self@),
    {
        match &self.notes {
            Some(v) => v.as_slice(),
            None => {
                let none: &[Note] = &[];
                assert(slips(none@) =~= Seq::<NoteView>::empty());
                none
            },
        }
    }

    /// How many notes are loaded.
    pub fn len(&self) -> (r: usize)
        ensures
            r == drawn(self@).len(),
    {
        match &self.notes {
            Some(v) => v.len(),
            None => 0,
        }
    }

    /// Whether the notes have been read in.
    pub fn is_loaded(&self) -> (r: bool)
        ensures
            r == (self@.notes is Some),
    {
        match &self.notes {
            Some(_) => true,
            None => false,
        }
    }

    /// Whether the draw has no room left.
    pub fn is_full(&self) -> (r: bool)
        ensures
            r == (drawn(self@).len() >= DRAW_CAPACITY),
    {
        self.len() >= DRAW_CAPACITY
    }
}

/// Why a box did not do what it was asked.
#[derive(Debug)]
pub enum BoxError {
    /// The draw has to be read in first, see [`NoteBox::load_draw`].
    NotLoaded(u32),
    /// The content has this many characters, more than [`MAX_CONTENT_LEN`].
    TooLong(usize),
    /// There is a note with this ID already.
    Exists(ID),
    /// There is no note with this ID.
    NotFound(ID),
    /// The note with this ID has been superseded.
    Superseded(ID),
    /// All letters below this ID are taken.
    NoSlot(ID),
    /// The parent with this ID is missing.
    NoParent(ID),
    /// There is no such link.
    NoLink { from: ID, to: ID },
}

impl View for BoxError {
    type V = Refusal;

    open spec fn view(&self) -> Refusal {
        match self {
            BoxError::NotLoaded(num) => Refusal::NotLoaded(*num),
            BoxError::TooLong(n) => Refusal::TooLong(*n as nat),
            BoxError::Exists(id) => Refusal::Exists(id@),
            BoxError::NotFound(id) => Refusal::NotFound(id@),
            BoxError::Superseded(id) => Refusal::Superseded(id@),
            BoxError::NoSlot(id) => Refusal::NoSlot(id@),
            BoxError::NoParent(id) => Refusal::NoParent(id@),
            BoxError::NoLink { from, to } => Refusal::NoLink { from: from@, to: to@ },
        }
    }
}

/// How a refusal reads.
pub open spec fn refusal_text(e: Refusal) -> Seq<char> {
    match e {
        Refusal::NotLoaded(num) => "draw "@ + decimal(num as nat) + " is not loaded"@,
        Refusal::TooLong(n) => "note content exceeds 250 characters ("@ + decimal(n)
            + " chars): a note must express one atomic thought"@,
        Refusal::Exists(id) => "note "@ + id + " already exists"@,
        Refusal::NotFound(id) => "note "@ + id + " not found"@,
        Refusal::Superseded(id) => id + " is already superseded"@,
        Refusal::NoSlot(id) => "no available child slot for "@ + id + ": all 26 letter slots taken"@,
        Refusal::NoParent(id) => "parent "@ + id + " not found"@,
        Refusal::NoLink { from, to } => "no link from "@ + from + " to "@ + to,
    }
}

/// A number as text.
fn number_text(n: usize) -> (r: String)
    ensures
        r@ == decimal(n as nat),
{
    let v = decimal_of(n as u64);
    string_of(&v)
}

impl BoxError {
    /// The error as a sentence.
    pub fn to_string(&self) -> (r: String)
        ensures
            r@ == refusal_text(self@),
    {
        match self {
            BoxError::NotLoaded(num) => join3(
                "draw ",
                number_text(*num as usize).as_str(),
                " is not loaded",
            ),
            BoxError::TooLong(n) => join3(
                "note content exceeds 250 characters (",
                number_text(*n).as_str(),
                " chars): a note must express one atomic thought",
            ),
            BoxError::Exists(id) => join3("note ", id.as_str(), " already exists"),
            BoxError::NotFound(id) => join3("note ", id.as_str(), " not found"),
            BoxError::Superseded(id) => {
                let r = join3("", id.as_str(), " is already superseded");
                proof {
                    reveal_strlit("");
                    assert(""@ + id@ =~= id@);
                }
                r
            },
            BoxError::NoSlot(id) => join3(
                "no available child slot for ",
                id.as_str(),
                ": all 26 letter slots taken",
            ),
            BoxError::NoParent(id) => join3("parent ", id.as_str(), " not found"),
            BoxError::NoLink { from, to } => {
                let a = join3("no link from ", from.as_str(), " to ");
                join2(a.as_str(), to.as_str())
            },
        }
    }
}

/// A box of notes: the index and the draws by rising number.
#[derive(Debug, PartialEq)]
pub struct NoteBox {
    dir: Option<String>,
    index: Index,
    draws: Vec<Draw>,
}

/// What a list of draws holds.
pub open spec fn draw_views(s: Seq<Draw>) -> Seq<DrawView> {
    s.map_values(|d: Draw| d@)
}

impl View for NoteBox {
    type V = BoxView;

    closed spec fn view(&self) -> BoxView {
        BoxView {
            dir: match self.dir {
                Some(d) => Some(d@),
                None => None,
            },
            index: self.index@,
            draws: draw_views(self.draws@),
        }
    }
}

/// The first position in `v` whose note does not come before `id`.
fn lower_bound(v: &Vec<Note>, id: &ID) -> (r: usize)
    requires
        in_order(slips(v@)),
    ensures
        r == rank_of(slips(v@), id@),
        r <= v@.len(),
        forall|i: int| 0 <= i < r ==> id_lt((#[trigger] slips(v@)[i]).id, id@),
{
    let ghost s = slips(v@);
    let mut lo: usize = 0;
    let mut hi: usize = v.len();
    while lo < hi
        invariant
            s == slips(v@),
            in_order(s),
            lo <= hi <= s.len(),
            s.len() == v@.len(),
            forall|i: int| 0 <= i < lo ==> id_lt((#[trigger] s[i]).id, id@),
            forall|i: int| hi <= i < s.len() ==> !id_lt((#[trigger] s[i]).id, id@),
        decreases hi - lo,
    {
        let mid = lo + (hi - lo) / 2;
        assert(s[mid as int] == v@[mid as int]@);
        if v[mid].id().comes_before(id) {
            proof {
                assert forall|i: int| 0 <= i < mid + 1 implies id_lt((#[trigger] s[i]).id, id@) by {
                    if i < mid {
                        assert(id_le(s[i].id, s[mid as int].id));
                        lemma_id_lt_total(s[i].id, s[mid as int].id);
                        lemma_id_lt_total(s[i].id, id@);
                        if key(s[i].id) != key(s[mid as int].id) {
                            lemma_id_lt_transitive(s[i].id, s[mid as int].id, id@);
                        }
                    }
                }
            }
            lo = mid + 1;
        } else {
            proof {
                assert forall|i: int| mid <= i < s.len() implies !id_lt((#[trigger] s[i]).id, id@) by {
                    if mid < i {
                        assert(id_le(s[mid as int].id, s[i].id));
                        lemma_id_le_transitive(id@, s[mid as int].id, s[i].id);
                    }
                }
            }
            hi = mid;
        }
    }
    proof {
        lemma_rank_unique(s, id@, lo as int);
    }
    lo
}

/// The position of the first note in `v` with the ID `id`, or the length of `v`.
fn position_in(v: &Vec<Note>, id: &ID) -> (r: usize)
    requires
        in_order(slips(v@)),
    ensures
        r <= v@.len(),
        r < v@.len() ==> v@[r as int]@.id == id@,
        note_with(slips(v@), id@) == (if r < v@.len() {
            Some(v@[r as int]@)
        } else {
            None
        }),
        r == spot(slips(v@), id@),
{
    let ghost s = slips(v@);
    let mut i = lower_bound(v, id);
    proof {
        lemma_id_lt_irreflexive(id@);
    }
    while i < v.len()
        invariant
            s == slips(v@),
            s.len() == v@.len(),
            in_order(s),
            i <= v@.len(),
            forall|j: int| 0 <= j < i ==> (#[trigger] s[j]).id != id@,
        decreases v@.len() - i,
    {
        assert(s[i as int] == v@[i as int]@);
        if *v[i].id() == *id {
            proof {
                lemma_note_with_at(s, id@, i as int);
            }
            return i;
        }
        if id.comes_before(v[i].id()) {
            proof {
                assert forall|j: int| 0 <= j < s.len() implies (#[trigger] s[j]).id != id@ by {
                    if i < j {
                        assert(id_le(s[i as int].id, s[j].id));
                    }
                }
                lemma_note_with_at(s, id@, s.len() as int);
            }
            return v.len();
        }
        i = i + 1;
    }
    proof {
        lemma_note_with_at(s, id@, s.len() as int);
    }
    v.len()
}

/// The position of the first draw with a number of at least `num`.
fn draw_slot(draws: &Vec<Draw>, num: u32) -> (r: usize)
    ensures
        r <= draws@.len(),
        r == slot(draw_views(draws@), num),
{
    let ghost s = draw_views(draws@);
    let mut i: usize = 0;
    while i < draws.len() && draws[i].num < num
        invariant
            s == draw_views(draws@),
            i <= draws@.len(),
            forall|j: int| 0 <= j < i ==> (#[trigger] s[j]).num < num,
        decreases draws@.len() - i,
    {
        assert(s[i as int] == draws@[i as int]@);
        i = i + 1;
    }
    proof {
        if i < draws@.len() {
            assert(s[i as int] == draws@[i as int]@);
        }
        lemma_slot_unique(s, num, i as int);
    }
    i
}

/// One of the first `n` entries lies in draw `num`.
spec fn drawn_from(s: Seq<Entry>, n: int, num: u32) -> bool {
    exists|k: int| 0 <= k < n && (#[trigger] s[k]).draw == num
}

/// The map that pairs of ID and draw number spell out; later pairs count.
pub open spec fn index_map(s: Seq<(ID, u32)>) -> Map<Seq<char>, u32>
    decreases s.len(),
{
    if s.len() == 0 {
        Map::empty()
    } else {
        index_map(s.drop_last()).insert(s.last().0@, s.last().1)
    }
}

impl NoteBox {
    /// The box is in shape: see [`BoxView::wf`].
    pub closed spec fn wf(&self) -> bool {
        &&& self.index.wf()
        &&& self@.wf()
    }

    /// What holds of every box in shape.
    pub proof fn lemma_wf(&self)
        requires
            self.wf(),
        ensures
            self@.wf(),
    {
    }

    /// Creates an in-memory box (no file backing).
    pub fn new() -> (r: NoteBox)
        ensures
            r.wf(),
            r@ == (BoxView { dir: None, index: Map::empty(), draws: Seq::empty() }),
    {
        let r = NoteBox { dir: None, index: Index::new(), draws: Vec::new() };
        assert(r@ =~= (BoxView { dir: None, index: Map::empty(), draws: Seq::empty() }));
        r
    }

    /// Creates a new, empty box backed by `dir`.
    pub fn create(dir: &str) -> (r: NoteBox)
        ensures
            r.wf(),
            r@ == (BoxView { dir: Some(dir@), index: Map::empty(), draws: Seq::empty() }),
    {
        let r = NoteBox { dir: Some(dir.to_owned()), index: Index::new(), draws: Vec::new() };
        assert(r@ =~= (BoxView { dir: Some(dir@), index: Map::empty(), draws: Seq::empty() }));
        r
    }

    /// Opens an existing box from `dir`, whose index holds `entries`; of two entries for
    /// one ID the later counts. No draw is loaded yet.
    pub fn open(dir: &str, entries: Vec<(ID, u32)>) -> (r: NoteBox)
        ensures
            r.wf(),
            r@.dir == Some(dir@),
            r@.index == index_map(entries@),
            stubs(r@.index, r@.draws),
    {
        let mut index = Index::new();
        assert(entries@.take(0) =~= Seq::<(ID, u32)>::empty());
        for i in 0..entries.len()
            invariant
                index.wf(),
                index@ == index_map(entries@.take(i as int)),
        {
            let (id, num) = &entries[i];
            index.insert(id.clone(), *num);
            assert(entries@.take(i + 1).drop_last() =~= entries@.take(i as int));
            assert(entries@.take(i + 1).last() == entries@[i as int]);
        }
        assert(entries@.take(entries@.len() as int) =~= entries@);
        let mut draws: Vec<Draw> = Vec::new();
        let list = index.entries();
        proof {
            index.lemma_list();
        }
        for i in 0..list.len()
            invariant
                list@ == index.list(),
                numbered(draw_views(draws@)),
                forall|j: int| 0 <= j < draws@.len() ==> (#[trigger] draw_views(draws@)[j]).notes is None,
                forall|num: u32| #[trigger] has_draw(draw_views(draws@), num) <==> drawn_from(list@, i as int, num),
        {
            let ghost before = draw_views(draws@);
            let num = list[i].draw;
            let p = draw_slot(&draws, num);
            assert(p < draws@.len() ==> before[p as int] == draws@[p as int]@);
            if p == draws.len() || draws[p].num != num {
                draws.insert(p, Draw::new(num));
                proof {
                    let after = draw_views(draws@);
                    assert(after =~= before.insert(p as int, DrawView { num, notes: None }));
                    lemma_new_stub(before, num);
                }
            }
            proof {
                assert forall|m: u32| #[trigger] has_draw(draw_views(draws@), m) <==> drawn_from(
                    list@,
                    i + 1,
                    m,
                ) by {
                    assert(has_draw(before, m) <==> drawn_from(list@, i as int, m));
                    if drawn_from(list@, i as int, m) {
                        let k = choose|k: int| 0 <= k < i && (#[trigger] list@[k]).draw == m;
                        assert(list@[k].draw == m);
                    }
                    if m == num {
                        assert(list@[i as int].draw == m);
                    }
                }
            }
        }
        let r = NoteBox { dir: Some(dir.to_owned()), index, draws };
        proof {
            assert forall|num: u32| #[trigger] has_draw(r@.draws, num) <==> exists|t: Seq<char>| #[trigger]
                r@.index.contains_key(t) && r@.index[t] == num by {
                if has_draw(r@.draws, num) {
                    let k = choose|k: int| 0 <= k < list@.len() && (#[trigger] list@[k]).draw == num;
                    lemma_entry_map(list@, k);
                    assert(r@.index.contains_key(list@[k].id@));
                }
                if exists|t: Seq<char>| #[trigger] r@.index.contains_key(t) && r@.index[t] == num {
                    let t = choose|t: Seq<char>| #[trigger] r@.index.contains_key(t) && r@.index[t] == num;
                    assert(has_entry(list@, t));
                    let k = entry_at(list@, t);
                    assert(list@[k].draw == num);
                }
            }
            assert forall|t: Seq<char>| #[trigger] r@.index.contains_key(t) implies has_draw(
                r@.draws,
                r@.index[t],
            ) by {
                let num = r@.index[t];
                assert(r@.index.contains_key(t) && r@.index[t] == num);
            }
        }
        r
    }

    /// The same box, kept in `dir`.
    pub(crate) fn place_in(self, dir: &str) -> (r: NoteBox)
        requires
            self.wf(),
        ensures
            r.wf(),
            r@ == (BoxView { dir: Some(dir@), ..self@ }),
    {
        NoteBox { dir: Some(dir.to_owned()), index: self.index, draws: self.draws }
    }

    /// Whether the box is kept in a directory.
    pub fn is_backed(&self) -> (r: bool)
        ensures
            r == (self@.dir is Some),
    {
        match &self.dir {
            Some(_) => true,
            None => false,
        }
    }

    /// The position of the first draw with a number of at least `num`.
    fn draw_position(&self, num: u32) -> (r: usize)
        ensures
            r <= self.draws@.len(),
            r == slot(self@.draws, num),
    {
        draw_slot(&self.draws, num)
    }

    /// The draws, by rising number.
    pub fn draws(&self) -> (r: &Vec<Draw>)
        ensures
            draw_views(r@) == self@.draws,
    {
        &self.draws
    }

    /// The index of the box.
    pub fn index(&self) -> (r: &Index)
        requires
            self.wf(),
        ensures
            r.wf(),
            r@ == self@.index,
    {
        &self.index
    }

    /// Stores `notes` as draw `num`.
    fn put_draw(&mut self, num: u32, notes: Vec<Note>)
        requires
            old(self).wf(),
            in_order(slips(notes@)),
        ensures
            final(self).wf(),
            final(self)@ == old(self)@.with_draw(num, slips(notes@)),
    {
        let i = self.draw_position(num);
        let ghost b = self@;
        let ghost v = slips(notes@);
        proof {
            b.lemma_with_draw(num, v);
        }
        let there = i < self.draws.len() && self.draws[i].num == num;
        assert(there == has_draw(b.draws, num)) by {
            if i < self.draws@.len() {
                assert(b.draws[i as int] == self.draws@[i as int]@);
            }
        }
        if there {
            self.draws[i] = Draw { num, notes: Some(notes) };
        } else {
            self.draws.insert(i, Draw { num, notes: Some(notes) });
        }
        assert(self@.draws =~= stored(b.draws, num, v));
        assert(self@ =~= b.with_draw(num, v));
    }

    /// Sees to it that draw `num` is there. A box in memory opens it empty; a box with a
    /// directory needs it from there.
    pub fn ensure_loaded(&mut self, num: u32) -> (r: Result<(), BoxError>)
        requires
            old(self).wf(),
        ensures
            final(self).wf(),
            match loaded(old(self)@.draws, num) {
                Some(_) => r is Ok && final(self)@ == old(self)@,
                None => if old(self)@.dir is Some {
                    &&& r matches Err(e)
                    &&& e@ == Refusal::NotLoaded(num)
                    &&& final(self)@ == old(self)@
                } else {
                    &&& r is Ok
                    &&& final(self)@ == old(self)@.with_draw(num, Seq::empty())
                },
            },
    {
        if self.is_loaded(num) {
            return Ok(());
        }
        match &self.dir {
            Some(_) => {
                return Err(BoxError::NotLoaded(num));
            },
            None => {},
        }
        let none: Vec<Note> = Vec::new();
        assert(slips(none@) =~= Seq::<NoteView>::empty());
        self.put_draw(num, none);
        Ok(())
    }

    /// Whether draw `num` is there and loaded.
    pub fn is_loaded(&self, num: u32) -> (r: bool)
        ensures
            r == (loaded(self@.draws, num) is Some),
    {
        let i = self.draw_position(num);
        if i < self.draws.len() {
            assert(self@.draws[i as int] == self.draws@[i as int]@);
            self.draws[i].num == num && self.draws[i].is_loaded()
        } else {
            false
        }
    }

    /// Takes in the notes of draw `num`, which were read from wherever the box is kept.
    /// A draw that is loaded already stays as it is.
    pub fn load_draw(&mut self, num: u32, notes: Vec<Note>)
        requires
            old(self).wf(),
        ensures
            final(self).wf(),
            match loaded(old(self)@.draws, num) {
                Some(_) => final(self)@ == old(self)@,
                None => exists|v: Seq<NoteView>|
                    arranged(slips(notes@), v) && final(self)@ == #[trigger] old(self)@.with_draw(num, v),
            },
    {
        if self.is_loaded(num) {
            return;
        }
        let sorted = sort_notes(notes);
        self.put_draw(num, sorted);
    }

    /// Finds a note by ID via the index.
    pub fn find(&self, id: &ID) -> (r: Result<Option<&Note>, BoxError>)
        requires
            self.wf(),
        ensures
            match r {
                Ok(Some(n)) => self@.lookup(id@) == Ok::<Option<NoteView>, u32>(Some(n@)),
                Ok(None) => self@.lookup(id@) == Ok::<Option<NoteView>, u32>(None),
                Err(e) => self@.lookup(id@) matches Err(num) && e@ == Refusal::NotLoaded(num),
            },
    {
        let num = match self.index.get(id) {
            Some(num) => num,
            None => {
                return Ok(None);
            },
        };
        let i = self.draw_position(num);
        proof {
            lemma_slot(self@.draws, num);
            assert(has_draw(self@.draws, num));
            assert(self@.draws[i as int] == self.draws@[i as int]@);
        }
        match &self.draws[i].notes {
            None => Err(BoxError::NotLoaded(num)),
            Some(v) => {
                let p = position_in(v, id);
                if p < v.len() {
                    Ok(Some(&v[p]))
                } else {
                    Ok(None)
                }
            },
        }
    }
}

/// The `p`-th note of the `i`-th draw, to be changed in place.
fn note_in(draws: &mut Vec<Draw>, i: usize, p: usize) -> (r: Option<&mut Note>)
    requires
        i < old(draws)@.len(),
        old(draws)@[i as int].notes matches Some(v) && p < v@.len(),
    ensures
        match r {
            Some(n) => {
                &&& n@ == drawn(old(draws)@[i as int]@)[p as int]
                &&& draw_views(final(draws)@) == draw_views(old(draws)@).update(
                    i as int,
                    DrawView {
                        num: old(draws)@[i as int].num,
                        notes: Some(
                            drawn(old(draws)@[i as int]@).update(p as int, final(n)@),
                        ),
                    },
                )
            },
            None => false,
        },
{
    note_of(&mut draws[i], p)
}

/// The `p`-th note of a draw, to be changed in place.
fn note_of(d: &mut Draw, p: usize) -> (r: Option<&mut Note>)
    requires
        old(d).notes matches Some(v) && p < v@.len(),
    ensures
        match r {
            Some(n) => {
                &&& n@ == drawn(old(d)@)[p as int]
                &&& final(d)@ == (DrawView {
                    num: old(d).num,
                    notes: Some(drawn(old(d)@).update(p as int, final(n)@)),
                })
            },
            None => false,
        },
{
    match &mut d.notes {
        Some(v) => Some(note_at(v, p)),
        None => None,
    }
}

/// The `p`-th note of a list, to be changed in place.
fn note_at(v: &mut Vec<Note>, p: usize) -> (r: &mut Note)
    requires
        p < old(v)@.len(),
    ensures
        r@ == slips(old(v)@)[p as int],
        slips(final(v)@) == slips(old(v)@).update(p as int, final(r)@),
{
    &mut v[p]
}

/// Notes stay in order where one is changed but keeps its ID.
proof fn lemma_in_order_update(s: Seq<NoteView>, p: int, n: NoteView)
    requires
        in_order(s),
        0 <= p < s.len(),
        n.id == s[p].id,
    ensures
        in_order(s.update(p, n)),
{
    let t = s.update(p, n);
    assert forall|i: int, j: int| 0 <= i < j < t.len() implies id_le(#[trigger] t[i].id, #[trigger] t[j].id) by {
        assert(t[i].id == s[i].id);
        assert(t[j].id == s[j].id);
    }
}

impl NoteBox {
    /// Assigns a draw number for a new note, and opens the draw where it is a new one.
    /// Prefers the parent's draw (to keep related notes together). Falls back to the
    /// first draw with room, or creates a new one.
    pub fn assign_draw(&mut self, note: &Note) -> (r: Result<u32, BoxError>)
        requires
            old(self).wf(),
            old(self)@.can_open(),
        ensures
            final(self).wf(),
            match old(self)@.assigned(note@) {
                Ok(num) => {
                    &&& r matches Ok(n)
                    &&& n == num
                    &&& loaded(final(self)@.draws, num) matches Some(v)
                    &&& v.len() < DRAW_CAPACITY
                    &&& final(self)@ == (if loaded(old(self)@.draws, num) is Some {
                        old(self)@
                    } else {
                        old(self)@.with_draw(num, Seq::empty())
                    })
                },
                Err(num) => {
                    &&& r matches Err(e)
                    &&& e@ == Refusal::NotLoaded(num)
                    &&& final(self)@ == old(self)@
                },
            },
    {
        proof {
            lemma_first_open(self@.draws);
        }
        if let Some(parent) = note.parent() {
            if let Some(num) = self.index.get(parent) {
                let i = self.draw_position(num);
                proof {
                    lemma_slot(self@.draws, num);
                    assert(has_draw(self@.draws, num));
                    assert(self@.draws[i as int] == self.draws@[i as int]@);
                }
                if !self.draws[i].is_loaded() {
                    return Err(BoxError::NotLoaded(num));
                }
                if !self.draws[i].is_full() {
                    return Ok(num);
                }
            }
        }
        let ghost b = self@;
        let mut i: usize = 0;
        assert(b.draws.skip(0) =~= b.draws);
        while i < self.draws.len()
            invariant
                self.wf(),
                self@ == b,
                b == old(self)@,
                b.assigned(note@) == b.any_draw(),
                i <= self.draws@.len(),
                first_open(b.draws) == first_open(b.draws.skip(i as int)),
                first_open(b.draws) matches Ok(Some(num)) ==> (loaded(b.draws, num) matches Some(v)
                    && v.len() < DRAW_CAPACITY),
            decreases self.draws@.len() - i,
        {
            proof {
                assert(b.draws[i as int] == self.draws@[i as int]@);
                assert(b.draws.skip(i as int)[0] == b.draws[i as int]);
                assert(b.draws.skip(i as int).skip(1) =~= b.draws.skip(i + 1));
            }
            if !self.draws[i].is_loaded() {
                return Err(BoxError::NotLoaded(self.draws[i].num));
            }
            if !self.draws[i].is_full() {
                return Ok(self.draws[i].num);
            }
            i = i + 1;
        }
        assert(first_open(b.draws) == Ok::<Option<u32>, u32>(None));
        let n = self.draws.len();
        let num: u32 = if n == 0 {
            1
        } else {
            assert(b.draws.last() == self.draws@[n - 1]@);
            self.draws[n - 1].num + 1
        };
        proof {
            lemma_next_number(b.draws, num);
            lemma_stored(b.draws, num, Seq::empty());
        }
        match self.ensure_loaded(num) {
            Ok(_) => Ok(num),
            Err(e) => Err(e),
        }
    }

    /// Whether a note can be taken in: where every draw is full, there has to be a number
    /// left for a new one.
    pub fn has_room(&self) -> (r: bool)
        ensures
            r == self@.can_open(),
    {
        let ghost s = self@.draws;
        let n = self.draws.len();
        if n == 0 {
            return true;
        }
        assert(s.last() == self.draws@[n - 1]@);
        if self.draws[n - 1].num < u32::MAX {
            return true;
        }
        assert(s.skip(0) =~= s);
        for i in 0..n
            invariant
                n == self.draws@.len(),
                s == self@.draws,
                first_open(s) == first_open(s.skip(i as int)),
        {
            proof {
                assert(s.skip(i as int)[0] == self.draws@[i as int]@);
                assert(s.skip(i as int).skip(1) =~= s.skip(i + 1));
            }
            if !self.draws[i].is_loaded() || !self.draws[i].is_full() {
                return true;
            }
        }
        false
    }

    /// Puts a note into draw `num`, which is loaded.
    fn insert_note(&mut self, num: u32, z: Note)
        requires
            old(self).wf(),
            loaded(old(self)@.draws, num) is Some,
        ensures
            final(self).wf(),
            final(self)@ == old(self)@.with_note(z@, num),
    {
        let ghost b = self@;
        let ghost n = z@;
        let i = self.draw_position(num);
        proof {
            b.lemma_with_note(n, num);
            lemma_slot(b.draws, num);
            assert(b.draws[i as int] == self.draws@[i as int]@);
        }
        let id = z.id().clone();
        let ghost before = self.draws@;
        match &mut self.draws[i].notes {
            Some(v) => {
                let p = lower_bound(v, &id);
                let ghost s = slips(v@);
                v.insert(p, z);
                assert(slips(v@) =~= placed(s, n));
            },
            None => {},
        }
        self.index.insert(id, num);
        proof {
            assert(self.draws@.len() == before.len());
            assert(forall|j: int| 0 <= j < before.len() && j != i ==> self.draws@[j] == before[j]);
            assert(self@.draws =~= stored(b.draws, num, placed(drawn_at(b.draws, num), n)));
            assert(self@ =~= b.with_note(n, num));
        }
    }

    /// Finds a note by ID (mutable). Whatever the note is changed to takes its place.
    pub fn find_mut(&mut self, id: &ID) -> (r: Result<Option<&mut Note>, BoxError>)
        requires
            old(self).wf(),
        ensures
            match r {
                Ok(Some(n)) => {
                    &&& old(self)@.lookup(id@) == Ok::<Option<NoteView>, u32>(Some(n@))
                    &&& final(self)@ == old(self)@.with_changed(id@, final(n)@)
                    &&& final(n)@.id == id@ ==> final(self).wf()
                },
                Ok(None) => {
                    &&& old(self)@.lookup(id@) == Ok::<Option<NoteView>, u32>(None)
                    &&& *final(self) == *old(self)
                },
                Err(e) => {
                    &&& old(self)@.lookup(id@) matches Err(num)
                    &&& e@ == Refusal::NotLoaded(num)
                    &&& *final(self) == *old(self)
                },
            },
    {
        let num = match self.index.get(id) {
            Some(num) => num,
            None => {
                return Ok(None);
            },
        };
        let i = self.draw_position(num);
        proof {
            lemma_slot(self@.draws, num);
            assert(has_draw(self@.draws, num));
            assert(self@.draws[i as int] == self.draws@[i as int]@);
        }
        let p = match &self.draws[i].notes {
            None => {
                return Err(BoxError::NotLoaded(num));
            },
            Some(v) => {
                let p = position_in(v, id);
                if p >= v.len() {
                    return Ok(None);
                }
                p
            },
        };
        let ghost b = self@;
        proof {
            let s = drawn_at(b.draws, num);
            assert forall|m: NoteView| m.id == id@ implies #[trigger] b.with_changed(id@, m).wf() by {
                lemma_in_order_update(s, p as int, m);
                b.lemma_with_draw(num, s.update(p as int, m));
            }
        }
        Ok(note_in(&mut self.draws, i, p))
    }

    /// Inserts a note, assigning it to a draw automatically. Refuses content that exceeds
    /// [`MAX_CONTENT_LEN`] and an ID that already exists.
    pub fn add(&mut self, z: Note) -> (r: Result<(), BoxError>)
        requires
            old(self).wf(),
            old(self)@.can_open(),
        ensures
            final(self).wf(),
            match r {
                Ok(_) => old(self)@.adding(z@) == Ok::<BoxView, Refusal>(final(self)@),
                Err(e) => old(self)@.adding(z@) == Err::<BoxView, Refusal>(e@) && final(self)@ == old(self)@,
            },
            sound(old(self)@) ==> sound(final(self)@),
    {
        proof {
            if sound(self@) {
                law_adding_keeps_a_box_sound(self@, z@);
            }
        }
        let chars = z.content().unicode_len();
        if chars > MAX_CONTENT_LEN {
            return Err(BoxError::TooLong(chars));
        }
        if self.index.contains_key(z.id()) {
            return Err(BoxError::Exists(z.id().clone()));
        }
        self.put(z)
    }

    /// Inserts a note, whatever its length and whether or not its ID is taken.
    pub(crate) fn put(&mut self, z: Note) -> (r: Result<(), BoxError>)
        requires
            old(self).wf(),
            old(self)@.can_open(),
        ensures
            final(self).wf(),
            match old(self)@.assigned(z@) {
                Ok(num) => r is Ok && final(self)@ == old(self)@.with_note(z@, num),
                Err(num) => {
                    &&& r matches Err(e)
                    &&& e@ == Refusal::NotLoaded(num)
                    &&& final(self)@ == old(self)@
                },
            },
    {
        let ghost b = self@;
        match self.assign_draw(&z) {
            Err(e) => Err(e),
            Ok(num) => {
                proof {
                    lemma_stored(b.draws, num, Seq::empty());
                    lemma_stored_twice(
                        b.draws,
                        num,
                        Seq::empty(),
                        placed(drawn_at(b.draws, num), z@),
                    );
                }
                self.insert_note(num, z);
                assert(self@ =~= b.with_note(z@, num));
                Ok(())
            },
        }
    }
}

impl Default for NoteBox {
    fn default() -> (r: NoteBox)
        ensures
            r.wf(),
            r@ == (BoxView { dir: None, index: Map::empty(), draws: Seq::empty() }),
    {
        NoteBox::new()
    }
}

} // verus!
