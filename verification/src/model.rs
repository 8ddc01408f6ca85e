//! What a box holds, and what each operation on it comes to.

use crate::clock::Timestamp;
use crate::id::{child_text, parent_text};
use crate::note::{NoteView, MAX_CONTENT_LEN};
use crate::numeral::{decimal, is_digit};
use crate::order::{
    id_le, id_lt, lemma_child_within_parent, lemma_id_le_transitive, lemma_id_lt_total,
};
use crate::sort::in_order;
use crate::text::{contains_text, first_line};
use vstd::prelude::*;

verus! {

/// Maximum notes per draw. Reflects the physical capacity of a wooden drawer.
pub const DRAW_CAPACITY: usize = 5_000;

/// A draw: its number and, once it is loaded, its notes.
#[verifier::ext_equal]
pub struct DrawView {
    pub num: u32,
    pub notes: Option<Seq<NoteView>>,
}

/// A box: the directory behind it, if any, the index, and the draws by rising number.
#[verifier::ext_equal]
pub struct BoxView {
    pub dir: Option<Seq<char>>,
    pub index: Map<Seq<char>, u32>,
    pub draws: Seq<DrawView>,
}

/// Why a box did not do what it was asked.
pub enum Refusal {
    /// The draw has to be read in first.
    NotLoaded(u32),
    /// The content has this many characters, which is too many.
    TooLong(nat),
    /// There is a note with this ID already.
    Exists(Seq<char>),
    /// There is no note with this ID.
    NotFound(Seq<char>),
    /// The note with this ID has been superseded.
    Superseded(Seq<char>),
    /// All letters below this ID are taken.
    NoSlot(Seq<char>),
    /// The parent with this ID is missing.
    NoParent(Seq<char>),
    /// There is no such link.
    NoLink { from: Seq<char>, to: Seq<char> },
}

// ── Draws ────────────────────────────────────────────────────────────────────

/// The draw numbers rise strictly.
pub open spec fn numbered(draws: Seq<DrawView>) -> bool {
    forall|i: int, j: int| 0 <= i < j < draws.len() ==> (#[trigger] draws[i]).num < (#[trigger] draws[j]).num
}

/// The position of the first draw with a number of at least `num`.
pub open spec fn slot(draws: Seq<DrawView>, num: u32) -> int
    decreases draws.len(),
{
    if draws.len() == 0 || draws[0].num >= num {
        0
    } else {
        1 + slot(draws.skip(1), num)
    }
}

/// There is a draw with the number `num`.
pub open spec fn has_draw(draws: Seq<DrawView>, num: u32) -> bool {
    slot(draws, num) < draws.len() && draws[slot(draws, num)].num == num
}

/// The notes of draw `num`, where it is there and loaded.
pub open spec fn loaded(draws: Seq<DrawView>, num: u32) -> Option<Seq<NoteView>> {
    if has_draw(draws, num) {
        draws[slot(draws, num)].notes
    } else {
        None
    }
}

/// `draws` with draw `num` holding `notes`.
pub open spec fn stored(draws: Seq<DrawView>, num: u32, notes: Seq<NoteView>) -> Seq<DrawView> {
    let d = DrawView { num, notes: Some(notes) };
    if has_draw(draws, num) {
        draws.update(slot(draws, num), d)
    } else {
        draws.insert(slot(draws, num), d)
    }
}

/// `draws` are the draws that `index` speaks of, none of them loaded.
pub open spec fn stubs(index: Map<Seq<char>, u32>, draws: Seq<DrawView>) -> bool {
    &&& numbered(draws)
    &&& forall|i: int| 0 <= i < draws.len() ==> (#[trigger] draws[i]).notes is None
    &&& forall|num: u32| #[trigger]
        has_draw(draws, num) <==> exists|t: Seq<char>| #[trigger] index.contains_key(t) && index[t] == num
}

/// Every loaded note, draw by draw.
pub open spec fn all_notes(draws: Seq<DrawView>) -> Seq<NoteView>
    decreases draws.len(),
{
    if draws.len() == 0 {
        Seq::empty()
    } else {
        all_notes(draws.drop_last()) + drawn(draws.last())
    }
}

/// The notes of a draw, none where it is not loaded.
pub open spec fn drawn(d: DrawView) -> Seq<NoteView> {
    match d.notes {
        Some(v) => v,
        None => Seq::empty(),
    }
}

/// The number of the first draw that is not loaded.
pub open spec fn first_unloaded(draws: Seq<DrawView>) -> Option<u32>
    decreases draws.len(),
{
    if draws.len() == 0 {
        None
    } else if draws[0].notes is None {
        Some(draws[0].num)
    } else {
        first_unloaded(draws.skip(1))
    }
}

/// The first draw with room, passing the full ones: `Err` names the first draw on the
/// way that is not loaded.
pub open spec fn first_open(draws: Seq<DrawView>) -> Result<Option<u32>, u32>
    decreases draws.len(),
{
    if draws.len() == 0 {
        Ok(None)
    } else {
        match draws[0].notes {
            None => Err(draws[0].num),
            Some(v) => if v.len() < DRAW_CAPACITY {
                Ok(Some(draws[0].num))
            } else {
                first_open(draws.skip(1))
            },
        }
    }
}

/// The number of a draw behind all others.
pub open spec fn next_number(draws: Seq<DrawView>) -> int {
    if draws.len() == 0 {
        1
    } else {
        draws.last().num + 1
    }
}

// ── Notes in a draw ──────────────────────────────────────────────────────────

/// The first note with the ID `id`.
pub open spec fn note_with(s: Seq<NoteView>, id: Seq<char>) -> Option<NoteView>
    decreases s.len(),
{
    if s.len() == 0 {
        None
    } else if s[0].id == id {
        Some(s[0])
    } else {
        note_with(s.skip(1), id)
    }
}

/// The position of the first note with the ID `id`, or the length of `s`.
pub open spec fn spot(s: Seq<NoteView>, id: Seq<char>) -> int
    decreases s.len(),
{
    if s.len() == 0 || s[0].id == id {
        0
    } else {
        1 + spot(s.skip(1), id)
    }
}

/// How many notes at the front come before `id`.
pub open spec fn rank_of(s: Seq<NoteView>, id: Seq<char>) -> int
    decreases s.len(),
{
    if s.len() == 0 || !id_lt(s[0].id, id) {
        0
    } else {
        1 + rank_of(s.skip(1), id)
    }
}

/// `s` with `n` at its place.
pub open spec fn placed(s: Seq<NoteView>, n: NoteView) -> Seq<NoteView> {
    s.insert(rank_of(s, n.id), n)
}

// ── Versions ─────────────────────────────────────────────────────────────────

/// Some note in `s` supersedes `id`.
pub open spec fn superseded_in(s: Seq<NoteView>, id: Seq<char>) -> bool {
    exists|i: int| 0 <= i < s.len() && (#[trigger] s[i]).supersedes == Some(id)
}

/// The first note in `s` that supersedes `id`.
pub open spec fn successor_in(s: Seq<NoteView>, id: Seq<char>) -> Option<NoteView>
    decreases s.len(),
{
    if s.len() == 0 {
        None
    } else if s[0].supersedes == Some(id) {
        Some(s[0])
    } else {
        successor_in(s.skip(1), id)
    }
}

/// The note that `n` comes to after `steps` steps along its successors, stopping where
/// there is none.
pub open spec fn version_after(s: Seq<NoteView>, n: NoteView, steps: nat) -> NoteView
    decreases steps,
{
    if steps == 0 {
        n
    } else {
        match successor_in(s, n.id) {
            Some(m) => version_after(s, m, (steps - 1) as nat),
            None => n,
        }
    }
}

/// Following the successors of `n` for `steps` steps leads to a note without one.
pub open spec fn ends_after(s: Seq<NoteView>, n: NoteView, steps: nat) -> bool {
    successor_in(s, version_after(s, n, steps).id) is None
}

/// The last of the versions of `n`, where following its successors comes to an end.
pub open spec fn latest(s: Seq<NoteView>, n: NoteView) -> NoteView {
    version_after(s, n, choose|steps: nat| ends_after(s, n, steps))
}

/// The IDs that notes in `s` supersede, each once, in the order in which they first
/// occur.
pub open spec fn superseded_list(s: Seq<NoteView>) -> Seq<Seq<char>>
    decreases s.len(),
{
    if s.len() == 0 {
        Seq::empty()
    } else {
        let before = superseded_list(s.drop_last());
        match s.last().supersedes {
            Some(id) => if before.contains(id) {
                before
            } else {
                before.push(id)
            },
            None => before,
        }
    }
}

// ── Searching ────────────────────────────────────────────────────────────────

/// What `str::to_lowercase` gives for a text.
pub uninterp spec fn lowercase(s: Seq<char>) -> Seq<char>;

/// `str::to_lowercase` gives the lowercase form of a text, which `lowercase` names.
pub assume_specification[ str::to_lowercase ](s: &str) -> (r: String)
    ensures
        r@ == lowercase(s@),
;

/// The note's content holds the query, letter case aside.
pub open spec fn hit(n: NoteView, query: Seq<char>) -> bool {
    contains_text(lowercase(n.content), lowercase(query))
}

/// The note's headline holds the query, letter case aside.
pub open spec fn headline_hit(n: NoteView, query: Seq<char>) -> bool {
    contains_text(lowercase(first_line(n.content)), lowercase(query))
}

/// The notes that `keep` holds of.
pub open spec fn picked(s: Seq<NoteView>, keep: spec_fn(NoteView) -> bool) -> Seq<NoteView>
    decreases s.len(),
{
    if s.len() == 0 {
        s
    } else if keep(s.last()) {
        picked(s.drop_last(), keep).push(s.last())
    } else {
        picked(s.drop_last(), keep)
    }
}

/// The notes that hold the query.
pub open spec fn holding(query: Seq<char>) -> spec_fn(NoteView) -> bool {
    |n: NoteView| hit(n, query)
}

/// The notes that hold the query and that no note in `s` supersedes.
pub open spec fn holding_current(query: Seq<char>, s: Seq<NoteView>) -> spec_fn(NoteView) -> bool {
    |n: NoteView| hit(n, query) && !superseded_in(s, n.id)
}

/// The notes that hold the query in their headline.
pub open spec fn heading(query: Seq<char>) -> spec_fn(NoteView) -> bool {
    |n: NoteView| headline_hit(n, query)
}

/// The notes that do not hold the query in their headline.
pub open spec fn not_heading(query: Seq<char>) -> spec_fn(NoteView) -> bool {
    |n: NoteView| !headline_hit(n, query)
}

/// `hits`, those with the query in the headline first.
pub open spec fn ranked(hits: Seq<NoteView>, query: Seq<char>) -> Seq<NoteView> {
    picked(hits, heading(query)) + picked(hits, not_heading(query))
}

/// The direct children of `p`.
pub open spec fn child_of(p: Seq<char>) -> spec_fn(NoteView) -> bool {
    |n: NoteView| child_text(n.id, p)
}

/// The links of a note behind the first, which is its parent.
pub open spec fn cross_links(n: NoteView) -> Seq<Seq<char>> {
    if n.links.len() > 0 {
        n.links.skip(1)
    } else {
        n.links
    }
}

/// The notes with a cross-link to `id`.
pub open spec fn linking_to(id: Seq<char>) -> spec_fn(NoteView) -> bool {
    |n: NoteView| cross_links(n).contains(id)
}

// ── Operations ───────────────────────────────────────────────────────────────

impl BoxView {
    /// The draws rise in number, loaded notes are in order, every indexed note has a
    /// draw, and a box without a directory has all its draws loaded.
    pub open spec fn wf(self) -> bool {
        &&& numbered(self.draws)
        &&& forall|i: int|
            0 <= i < self.draws.len() ==> match (#[trigger] self.draws[i]).notes {
                Some(v) => in_order(v),
                None => self.dir is Some,
            }
        &&& forall|t: Seq<char>| #[trigger] self.index.contains_key(t) ==> has_draw(self.draws, self.index[t])
    }

    /// Looking up `id`: `Err` names the draw that has to be loaded first.
    pub open spec fn lookup(self, id: Seq<char>) -> Result<Option<NoteView>, u32> {
        if !self.index.contains_key(id) {
            Ok(None)
        } else {
            match loaded(self.draws, self.index[id]) {
                Some(v) => Ok(note_with(v, id)),
                None => Err(self.index[id]),
            }
        }
    }

    /// A draw with room, or the number of a new one; a new draw of a box with a
    /// directory has to be loaded first.
    pub open spec fn any_draw(self) -> Result<u32, u32> {
        match first_open(self.draws) {
            Err(num) => Err(num),
            Ok(Some(num)) => Ok(num),
            Ok(None) => if self.dir is Some {
                Err(next_number(self.draws) as u32)
            } else {
                Ok(next_number(self.draws) as u32)
            },
        }
    }

    /// The draw that a note goes to: its parent's while there is room, else any.
    pub open spec fn assigned(self, n: NoteView) -> Result<u32, u32> {
        if n.links.len() > 0 && self.index.contains_key(n.links[0]) {
            let num = self.index[n.links[0]];
            match loaded(self.draws, num) {
                None => Err(num),
                Some(v) => if v.len() < DRAW_CAPACITY {
                    Ok(num)
                } else {
                    self.any_draw()
                },
            }
        } else {
            self.any_draw()
        }
    }

    /// There is a number left for a new draw, should one be needed.
    pub open spec fn can_open(self) -> bool {
        first_open(self.draws) == Ok::<Option<u32>, u32>(None) ==> next_number(self.draws) <= u32::MAX
    }

    /// The box with `n` put into draw `num`.
    pub open spec fn with_note(self, n: NoteView, num: u32) -> BoxView {
        BoxView {
            dir: self.dir,
            index: self.index.insert(n.id, num),
            draws: stored(self.draws, num, placed(drawn_at(self.draws, num), n)),
        }
    }

    /// The box with the note at `id` changed to `n`.
    pub open spec fn with_changed(self, id: Seq<char>, n: NoteView) -> BoxView {
        let v = drawn_at(self.draws, self.index[id]);
        self.with_draw(self.index[id], v.update(spot(v, id), n))
    }

    /// Adding `n`.
    pub open spec fn adding(self, n: NoteView) -> Result<BoxView, Refusal> {
        if n.content.len() > MAX_CONTENT_LEN {
            Err(Refusal::TooLong(n.content.len()))
        } else if self.index.contains_key(n.id) {
            Err(Refusal::Exists(n.id))
        } else {
            match self.assigned(n) {
                Err(num) => Err(Refusal::NotLoaded(num)),
                Ok(num) => Ok(self.with_note(n, num)),
            }
        }
    }

    /// The notes on the way from the root down to `id`, without `id` itself.
    pub open spec fn trail(self, id: Seq<char>) -> Result<Seq<NoteView>, u32>
        decreases id.len(),
        via Self::trail_decreases
    {
        let p = parent_text(id);
        if p == id {
            Ok(Seq::empty())
        } else {
            match self.lookup(p) {
                Err(num) => Err(num),
                Ok(found) => match self.trail(p) {
                    Err(num) => Err(num),
                    Ok(up) => match found {
                        Some(n) => Ok(up.push(n)),
                        None => Ok(up),
                    },
                },
            }
        }
    }

    #[via_fn]
    proof fn trail_decreases(self, id: Seq<char>) {
        if parent_text(id) != id {
            lemma_child_within_parent(id, parent_text(id));
        }
    }

    /// No note is found at `id`.
    pub open spec fn is_free(self, id: Seq<char>) -> bool {
        self.lookup(id) == Ok::<Option<NoteView>, u32>(None)
    }

    /// The first free letter slot below `id` from the `k`-th letter on.
    pub open spec fn letter_slot(self, id: Seq<char>, k: int) -> Option<Seq<char>>
        decreases 26 - k,
    {
        if k >= 26 {
            None
        } else if self.is_free(id.push(letter(k))) {
            Some(id.push(letter(k)))
        } else {
            self.letter_slot(id, k + 1)
        }
    }

    /// `n` is the first free number below `id`.
    pub open spec fn is_number_slot(self, id: Seq<char>, n: nat) -> bool {
        &&& n >= 1
        &&& self.is_free(id + decimal(n))
        &&& forall|m: nat| 1 <= m < n ==> !self.is_free(#[trigger] (id + decimal(m)))
    }

    /// The first child position below `id` that has no note yet: letters below a digit,
    /// numbers below anything else.
    pub open spec fn child_slot(self, id: Seq<char>) -> Option<Seq<char>> {
        if id.len() > 0 && is_digit(id.last()) {
            self.letter_slot(id, 0)
        } else {
            Some(id + decimal(choose|n: nat| self.is_number_slot(id, n)))
        }
    }

    /// The note that supersedes `n`, standing at `child`: below `n`, with the same
    /// cross-links.
    pub open spec fn version_of(n: NoteView, child: Seq<char>, content: Seq<char>, at: Timestamp) -> NoteView {
        NoteView {
            id: child,
            content,
            links: seq![n.id] + cross_links(n),
            created_at: at,
            supersedes: Some(n.id),
        }
    }

    /// Superseding `id` by a new note at the moment `at`: where the new note stands, and
    /// the box with it.
    pub open spec fn updating(self, id: Seq<char>, content: Seq<char>, at: Timestamp) -> Result<
        (Seq<char>, BoxView),
        Refusal,
    > {
        match first_unloaded(self.draws) {
            Some(num) => Err(Refusal::NotLoaded(num)),
            None => match self.lookup(id) {
                Err(num) => Err(Refusal::NotLoaded(num)),
                Ok(None) => Err(Refusal::NotFound(id)),
                Ok(Some(n)) => if superseded_in(all_notes(self.draws), id) {
                    Err(Refusal::Superseded(id))
                } else {
                    match self.child_slot(id) {
                        None => Err(Refusal::NoSlot(id)),
                        Some(child) => match self.adding(BoxView::version_of(n, child, content, at)) {
                            Err(e) => Err(e),
                            Ok(b) => Ok((child, b)),
                        },
                    }
                },
            },
        }
    }
}

/// The `k`-th small letter.
pub open spec fn letter(k: int) -> char {
    ('a' as int + k) as char
}

// ── Facts about draws ────────────────────────────────────────────────────────

/// What stands before and at the slot of a number.
pub proof fn lemma_slot(draws: Seq<DrawView>, num: u32)
    ensures
        0 <= slot(draws, num) <= draws.len(),
        forall|i: int| 0 <= i < slot(draws, num) ==> (#[trigger] draws[i]).num < num,
        slot(draws, num) < draws.len() ==> draws[slot(draws, num)].num >= num,
    decreases draws.len(),
{
    if draws.len() > 0 && draws[0].num < num {
        let rest = draws.skip(1);
        lemma_slot(rest, num);
        assert forall|i: int| 0 <= i < slot(draws, num) implies (#[trigger] draws[i]).num < num by {
            if i > 0 {
                assert(draws[i] == rest[i - 1]);
            }
        }
    }
}

/// Only one position has what `lemma_slot` says.
pub proof fn lemma_slot_unique(draws: Seq<DrawView>, num: u32, k: int)
    requires
        0 <= k <= draws.len(),
        forall|i: int| 0 <= i < k ==> (#[trigger] draws[i]).num < num,
        k < draws.len() ==> draws[k].num >= num,
    ensures
        slot(draws, num) == k,
{
    lemma_slot(draws, num);
    let l = slot(draws, num);
    if l < k {
        assert(draws[l].num < num);
    } else if k < l {
        assert(draws[k].num < num);
    }
}

/// A draw is found at its number.
pub proof fn lemma_slot_at(draws: Seq<DrawView>, k: int)
    requires
        numbered(draws),
        0 <= k < draws.len(),
    ensures
        slot(draws, draws[k].num) == k,
        has_draw(draws, draws[k].num),
        loaded(draws, draws[k].num) == draws[k].notes,
{
    assert forall|i: int| 0 <= i < k implies (#[trigger] draws[i]).num < draws[k].num by {}
    lemma_slot_unique(draws, draws[k].num, k);
}

/// There is a draw with a number just where some draw has it.
pub proof fn lemma_has_draw(draws: Seq<DrawView>, num: u32)
    requires
        numbered(draws),
    ensures
        has_draw(draws, num) <==> exists|i: int| 0 <= i < draws.len() && (#[trigger] draws[i]).num == num,
{
    lemma_slot(draws, num);
    if exists|i: int| 0 <= i < draws.len() && (#[trigger] draws[i]).num == num {
        let i = choose|i: int| 0 <= i < draws.len() && (#[trigger] draws[i]).num == num;
        lemma_slot_at(draws, i);
    }
    if has_draw(draws, num) {
        assert(draws[slot(draws, num)].num == num);
    }
}

/// A draw that was not there yet, put at its slot without being loaded.
pub proof fn lemma_new_stub(draws: Seq<DrawView>, num: u32)
    requires
        numbered(draws),
        !has_draw(draws, num),
    ensures
        numbered(draws.insert(slot(draws, num), DrawView { num, notes: None })),
        forall|m: u32| #[trigger]
            has_draw(draws.insert(slot(draws, num), DrawView { num, notes: None }), m) <==> m == num
                || has_draw(draws, m),
{
    let k = slot(draws, num);
    let d = DrawView { num, notes: None };
    let after = draws.insert(k, d);
    lemma_slot(draws, num);
    assert forall|i: int, j: int| 0 <= i < j < after.len() implies (#[trigger] after[i]).num < (
    #[trigger] after[j]).num by {
        if i < k {
            assert(after[i] == draws[i]);
            if j > k {
                assert(after[j] == draws[j - 1]);
            }
        } else {
            assert(after[j] == draws[j - 1]);
            if i > k {
                assert(after[i] == draws[i - 1]);
            } else if j - 1 > k {
                assert(draws[k].num < draws[j - 1].num);
            }
        }
    }
    assert forall|m: u32| #[trigger] has_draw(after, m) <==> m == num || has_draw(draws, m) by {
        lemma_has_draw(draws, m);
        lemma_has_draw(after, m);
        assert(after[k].num == num);
        if has_draw(draws, m) {
            let i = choose|i: int| 0 <= i < draws.len() && (#[trigger] draws[i]).num == m;
            assert(after[if i < k { i } else { i + 1 }] == draws[i]);
        }
        if has_draw(after, m) && m != num {
            let i = choose|i: int| 0 <= i < after.len() && (#[trigger] after[i]).num == m;
            assert(draws[if i < k { i } else { i - 1 }] == after[i]);
        }
    }
}

/// Storing a draw changes that draw alone.
pub proof fn lemma_stored(draws: Seq<DrawView>, num: u32, notes: Seq<NoteView>)
    requires
        numbered(draws),
    ensures
        numbered(stored(draws, num, notes)),
        has_draw(stored(draws, num, notes), num),
        loaded(stored(draws, num, notes), num) == Some(notes),
        slot(stored(draws, num, notes), num) == slot(draws, num),
        forall|m: u32| m != num ==> has_draw(stored(draws, num, notes), m) == #[trigger] has_draw(draws, m),
        forall|m: u32| m != num ==> #[trigger] loaded(stored(draws, num, notes), m) == loaded(draws, m),
{
    lemma_slot(draws, num);
    let k = slot(draws, num);
    let after = stored(draws, num, notes);
    let shift = if has_draw(draws, num) {
        0int
    } else {
        1int
    };
    assert forall|i: int| 0 <= i < k implies after[i] == draws[i] by {}
    assert forall|i: int| k < i < after.len() implies after[i] == draws[i - shift] by {}
    assert(after[k] == (DrawView { num, notes: Some(notes) }));
    assert forall|i: int| k < i < after.len() implies (#[trigger] after[i]).num > num by {
        if shift == 0 {
            assert(draws[k].num < draws[i].num);
        } else {
            if i - 1 > k {
                assert(draws[k].num < draws[i - 1].num);
            }
        }
    }
    assert forall|i: int, j: int| 0 <= i < j < after.len() implies (#[trigger] after[i]).num < (
    #[trigger] after[j]).num by {
        if i < k {
            assert(after[i] == draws[i]);
            if j > k {
                assert(after[j] == draws[j - shift]);
            }
        } else if i > k {
            assert(after[i] == draws[i - shift]);
            assert(after[j] == draws[j - shift]);
        }
    }
    lemma_slot_at(after, k);
    assert forall|m: u32| m != num implies has_draw(after, m) == #[trigger] has_draw(draws, m)
        && loaded(after, m) == loaded(draws, m) by {
        lemma_slot(draws, m);
        lemma_slot(after, m);
        if has_draw(draws, m) {
            let i = slot(draws, m);
            let j = if i < k {
                i
            } else {
                i + shift
            };
            assert(after[j] == draws[i]);
            lemma_slot_at(after, j);
        }
        if has_draw(after, m) {
            let j = slot(after, m);
            let i = if j < k {
                j
            } else {
                j - shift
            };
            assert(after[j] == draws[i]);
            lemma_slot_at(draws, i);
        }
    }
    assert forall|m: u32| m != num implies #[trigger] loaded(after, m) == loaded(draws, m) by {
        assert(has_draw(after, m) == has_draw(draws, m));
    }
}

/// Every draw of `after` but the stored one is one of `draws`.
pub proof fn lemma_stored_all(draws: Seq<DrawView>, num: u32, notes: Seq<NoteView>, i: int)
    requires
        numbered(draws),
        0 <= i < stored(draws, num, notes).len(),
    ensures
        stored(draws, num, notes)[i] == (DrawView { num, notes: Some(notes) }) || (exists|j: int|
            0 <= j < draws.len() && #[trigger] draws[j] == stored(draws, num, notes)[i]),
{
    lemma_slot(draws, num);
    let k = slot(draws, num);
    let after = stored(draws, num, notes);
    if i < k {
        assert(draws[i] == after[i]);
    } else if i > k {
        let j = if has_draw(draws, num) {
            i
        } else {
            i - 1
        };
        assert(draws[j] == after[i]);
    }
}

/// A note at its place leaves the others in order.
pub proof fn lemma_placed(s: Seq<NoteView>, n: NoteView)
    requires
        in_order(s),
    ensures
        0 <= rank_of(s, n.id) <= s.len(),
        in_order(placed(s, n)),
{
    lemma_rank(s, n.id);
    let p = rank_of(s, n.id);
    let t = placed(s, n);
    assert forall|i: int, j: int| 0 <= i < j < t.len() implies id_le(#[trigger] t[i].id, #[trigger] t[j].id) by {
        if i < p {
            assert(t[i] == s[i]);
            if j == p {
                lemma_id_lt_total(s[i].id, n.id);
            } else if j < p {
                assert(t[j] == s[j]);
            } else {
                assert(t[j] == s[j - 1]);
            }
        } else if i == p {
            assert(t[j] == s[j - 1]);
            if p < j - 1 {
                assert(id_le(s[p].id, s[j - 1].id));
                lemma_id_le_transitive(n.id, s[p].id, s[j - 1].id);
            }
        } else {
            assert(t[i] == s[i - 1]);
            assert(t[j] == s[j - 1]);
        }
    }
}

/// The notes before the rank of an ID come before it, and the next one does not.
pub proof fn lemma_rank(s: Seq<NoteView>, id: Seq<char>)
    ensures
        0 <= rank_of(s, id) <= s.len(),
        forall|i: int| 0 <= i < rank_of(s, id) ==> id_lt((#[trigger] s[i]).id, id),
        rank_of(s, id) < s.len() ==> !id_lt(s[rank_of(s, id)].id, id),
    decreases s.len(),
{
    if s.len() > 0 && id_lt(s[0].id, id) {
        let t = s.skip(1);
        lemma_rank(t, id);
        assert forall|i: int| 0 <= i < rank_of(s, id) implies id_lt((#[trigger] s[i]).id, id) by {
            if i > 0 {
                assert(s[i] == t[i - 1]);
            }
        }
    }
}

/// Only one position has what `lemma_rank` says.
pub proof fn lemma_rank_unique(s: Seq<NoteView>, id: Seq<char>, k: int)
    requires
        0 <= k <= s.len(),
        forall|i: int| 0 <= i < k ==> id_lt((#[trigger] s[i]).id, id),
        k < s.len() ==> !id_lt(s[k].id, id),
    ensures
        rank_of(s, id) == k,
{
    lemma_rank(s, id);
    let l = rank_of(s, id);
    if l < k {
        assert(id_lt(s[l].id, id));
    } else if k < l {
        assert(id_lt(s[k].id, id));
    }
}

/// The first note with an ID, by its position.
pub proof fn lemma_note_with(s: Seq<NoteView>, id: Seq<char>)
    ensures
        note_with(s, id) is None ==> forall|i: int| 0 <= i < s.len() ==> (#[trigger] s[i]).id != id,
        note_with(s, id) matches Some(n) ==> n.id == id && s.contains(n),
    decreases s.len(),
{
    if s.len() > 0 && s[0].id != id {
        let t = s.skip(1);
        lemma_note_with(t, id);
        assert forall|i: int| 0 <= i < s.len() && note_with(s, id) is None implies (#[trigger] s[i]).id != id by {
            if i > 0 {
                assert(s[i] == t[i - 1]);
            }
        }
        if let Some(n) = note_with(s, id) {
            let i = choose|i: int| 0 <= i < t.len() && t[i] == n;
            assert(s[i + 1] == n);
        }
    } else if s.len() > 0 {
        assert(s[0] == note_with(s, id).unwrap());
    }
}

/// The note at the first position with the ID is the one.
pub proof fn lemma_note_with_at(s: Seq<NoteView>, id: Seq<char>, k: int)
    requires
        0 <= k <= s.len(),
        forall|i: int| 0 <= i < k ==> (#[trigger] s[i]).id != id,
        k < s.len() ==> s[k].id == id,
    ensures
        note_with(s, id) == (if k < s.len() {
            Some(s[k])
        } else {
            None
        }),
        spot(s, id) == k,
    decreases s.len(),
{
    if s.len() > 0 && k > 0 {
        let t = s.skip(1);
        assert forall|i: int| 0 <= i < k - 1 implies (#[trigger] t[i]).id != id by {
            assert(t[i] == s[i + 1]);
        }
        assert(s[0].id != id);
        lemma_note_with_at(t, id, k - 1);
    }
}

/// A note is found at its own ID.
pub proof fn lemma_lookup_id(b: BoxView, id: Seq<char>)
    ensures
        b.lookup(id) matches Ok(Some(n)) ==> n.id == id,
{
    if b.index.contains_key(id) {
        if let Some(v) = loaded(b.draws, b.index[id]) {
            lemma_note_with(v, id);
        }
    }
}

/// No draw is left to load.
pub proof fn lemma_all_loaded(draws: Seq<DrawView>)
    ensures
        first_unloaded(draws) is None <==> forall|i: int|
            0 <= i < draws.len() ==> (#[trigger] draws[i]).notes is Some,
    decreases draws.len(),
{
    if draws.len() > 0 && draws[0].notes is Some {
        let t = draws.skip(1);
        lemma_all_loaded(t);
        if first_unloaded(draws) is None {
            assert forall|i: int| 0 <= i < draws.len() implies (#[trigger] draws[i]).notes is Some by {
                if i > 0 {
                    assert(draws[i] == t[i - 1]);
                }
            }
        } else {
            let i = choose|i: int| 0 <= i < t.len() && (#[trigger] t[i]).notes is None;
            assert(draws[i + 1] == t[i]);
        }
    }
}

impl BoxView {
    /// The box with draw `num` holding `notes`.
    pub open spec fn with_draw(self, num: u32, notes: Seq<NoteView>) -> BoxView {
        BoxView { draws: stored(self.draws, num, notes), ..self }
    }

    /// Storing notes in order keeps a box in shape.
    pub proof fn lemma_with_draw(self, num: u32, notes: Seq<NoteView>)
        requires
            self.wf(),
            in_order(notes),
        ensures
            self.with_draw(num, notes).wf(),
    {
        let b = self.with_draw(num, notes);
        lemma_stored(self.draws, num, notes);
        assert forall|i: int| 0 <= i < b.draws.len() implies match (#[trigger] b.draws[i]).notes {
            Some(v) => in_order(v),
            None => b.dir is Some,
        } by {
            lemma_stored_all(self.draws, num, notes, i);
            if b.draws[i] != (DrawView { num, notes: Some(notes) }) {
                let j = choose|j: int| 0 <= j < self.draws.len() && #[trigger] self.draws[j] == b.draws[i];
                assert(self.draws[j].notes == b.draws[i].notes);
            }
        }
        assert forall|t: Seq<char>| #[trigger] b.index.contains_key(t) implies has_draw(b.draws, b.index[t]) by {
            assert(self.index.contains_key(t));
            let m = self.index[t];
            assert(has_draw(self.draws, m));
        }
    }

    /// Adding a note keeps a box in shape.
    pub proof fn lemma_with_note(self, n: NoteView, num: u32)
        requires
            self.wf(),
        ensures
            self.with_note(n, num).wf(),
            in_order(placed(drawn_at(self.draws, num), n)),
            in_order(drawn_at(self.draws, num)),
    {
        let there = drawn_at(self.draws, num);
        lemma_slot(self.draws, num);
        if has_draw(self.draws, num) {
            assert(self.draws[slot(self.draws, num)].notes is Some ==> in_order(there));
        }
        lemma_placed(there, n);
        self.lemma_with_draw(num, placed(there, n));
        lemma_stored(self.draws, num, placed(there, n));
        let b = self.with_note(n, num);
        assert forall|t: Seq<char>| #[trigger] b.index.contains_key(t) implies has_draw(b.draws, b.index[t]) by {
            if t != n.id {
                assert(self.index.contains_key(t));
                assert(has_draw(self.draws, self.index[t]));
            }
        }
    }
}

/// A draw behind all others has the next number.
pub proof fn lemma_next_number(draws: Seq<DrawView>, num: u32)
    requires
        numbered(draws),
        num == next_number(draws),
    ensures
        slot(draws, num) == draws.len(),
        !has_draw(draws, num),
{
    assert forall|i: int| 0 <= i < draws.len() implies (#[trigger] draws[i]).num < num by {
        if i < draws.len() - 1 {
            assert(draws[i].num < draws[draws.len() - 1].num);
        }
    }
    lemma_slot_unique(draws, num, draws.len() as int);
}

/// Storing a draw twice comes to storing it once.
pub proof fn lemma_stored_twice(draws: Seq<DrawView>, num: u32, a: Seq<NoteView>, b: Seq<NoteView>)
    requires
        numbered(draws),
    ensures
        stored(stored(draws, num, a), num, b) == stored(draws, num, b),
{
    lemma_slot(draws, num);
    lemma_stored(draws, num, a);
    assert(stored(stored(draws, num, a), num, b) =~= stored(draws, num, b));
}

/// A draw with room is loaded and not full.
pub proof fn lemma_first_open(draws: Seq<DrawView>)
    requires
        numbered(draws),
    ensures
        first_open(draws) matches Ok(Some(num)) ==> has_draw(draws, num) && (loaded(draws, num) matches Some(v)
            && v.len() < DRAW_CAPACITY),
        first_open(draws) == Ok::<Option<u32>, u32>(None) ==> forall|i: int|
            0 <= i < draws.len() ==> ((#[trigger] draws[i]).notes matches Some(v) && v.len() >= DRAW_CAPACITY),
        first_open(draws) matches Err(num) ==> has_draw(draws, num) && loaded(draws, num) is None,
{
    lemma_first_open_from(draws, 0);
    assert(draws.skip(0) =~= draws);
}

/// `lemma_first_open` from the `k`-th draw on.
proof fn lemma_first_open_from(draws: Seq<DrawView>, k: int)
    requires
        numbered(draws),
        0 <= k <= draws.len(),
    ensures
        first_open(draws.skip(k)) matches Ok(Some(num)) ==> has_draw(draws, num) && (loaded(draws, num) matches Some(
            v,
        ) && v.len() < DRAW_CAPACITY),
        first_open(draws.skip(k)) == Ok::<Option<u32>, u32>(None) ==> forall|i: int|
            k <= i < draws.len() ==> ((#[trigger] draws[i]).notes matches Some(v) && v.len() >= DRAW_CAPACITY),
        first_open(draws.skip(k)) matches Err(num) ==> has_draw(draws, num) && loaded(draws, num) is None,
    decreases draws.len() - k,
{
    if k < draws.len() {
        assert(draws.skip(k)[0] == draws[k]);
        assert(draws.skip(k).skip(1) =~= draws.skip(k + 1));
        lemma_slot_at(draws, k);
        lemma_first_open_from(draws, k + 1);
    }
}

/// The notes of draw `num`, none where it is not there or not loaded.
pub open spec fn drawn_at(draws: Seq<DrawView>, num: u32) -> Seq<NoteView> {
    match loaded(draws, num) {
        Some(v) => v,
        None => Seq::empty(),
    }
}

} // verus!
