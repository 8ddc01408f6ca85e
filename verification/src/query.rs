//! Looking things up in a box: children, ancestors, links, versions, searches.

use crate::id::{child_text, texts, ID};
use crate::index::{entry_at, entry_map, has_entry, lemma_entry_map, rising};
use crate::model::{
    all_notes, child_of, cross_links, drawn, ends_after, first_unloaded, heading, holding,
    holding_current, latest, lemma_note_with_at, linking_to, loaded, lowercase, not_heading,
    note_with, picked, ranked, successor_in, superseded_in, superseded_list, version_after,
    Refusal,
};
use crate::note::{headline, ref_text, Note, NoteView};
use crate::order::lemma_child_within_parent;
use crate::sort::{arranged, slips, sort_notes};
use crate::store::{draw_views, BoxError, NoteBox};
use crate::text::{chars_of, contains_text, has_text};
use vstd::prelude::*;

verus! {

/// The texts of a list of borrowed IDs.
pub open spec fn ref_texts(ids: Seq<&ID>) -> Seq<Seq<char>> {
    ids.map_values(|i: &ID| i@)
}

/// The notes of a list that `keep` holds of, by one note more.
pub(crate) proof fn lemma_picked_next(s: Seq<NoteView>, keep: spec_fn(NoteView) -> bool, i: int)
    requires
        0 <= i < s.len(),
    ensures
        picked(s.take(i + 1), keep) == (if keep(s[i]) {
            picked(s.take(i), keep).push(s[i])
        } else {
            picked(s.take(i), keep)
        }),
{
    assert(s.take(i + 1).drop_last() =~= s.take(i));
    assert(s.take(i + 1).last() == s[i]);
}

impl NoteBox {
    /// Whether every draw is loaded; if not, names the first that has to be.
    pub fn load_all(&self) -> (r: Result<(), BoxError>)
        ensures
            match first_unloaded(self@.draws) {
                None => r is Ok,
                Some(num) => r matches Err(e) && e@ == Refusal::NotLoaded(num),
            },
    {
        let draws = self.draws();
        let ghost s = self@.draws;
        assert(s.skip(0) =~= s);
        let mut i: usize = 0;
        while i < draws.len()
            invariant
                s == self@.draws,
                s == draw_views(draws@),
                i <= draws@.len(),
                first_unloaded(s) == first_unloaded(s.skip(i as int)),
            decreases draws@.len() - i,
        {
            assert(s.skip(i as int)[0] == draws@[i as int]@);
            assert(s.skip(i as int).skip(1) =~= s.skip(i + 1));
            if !draws[i].is_loaded() {
                return Err(BoxError::NotLoaded(draws[i].num));
            }
            i = i + 1;
        }
        Ok(())
    }

    /// Every loaded note, draw by draw.
    pub fn loaded_notes(&self) -> (r: Vec<&Note>)
        ensures
            slips(r@) == all_notes(self@.draws),
    {
        let draws = self.draws();
        let ghost s = self@.draws;
        let mut r: Vec<&Note> = Vec::new();
        assert(slips(r@) =~= all_notes(s.take(0)));
        for i in 0..draws.len()
            invariant
                s == self@.draws,
                s == draw_views(draws@),
                slips(r@) == all_notes(s.take(i as int)),
        {
            let ghost before = slips(r@);
            let ghost d = drawn(s[i as int]);
            proof {
                assert(s[i as int] == draws@[i as int]@);
                assert(s.take(i + 1).drop_last() =~= s.take(i as int));
                assert(s.take(i + 1).last() == s[i as int]);
                assert(before + d.take(0) =~= before);
            }
            match &draws[i].notes {
                Some(v) => {
                    for j in 0..v.len()
                        invariant
                            d == slips(v@),
                            slips(r@) == before + d.take(j as int),
                    {
                        let ghost now = slips(r@);
                        r.push(&v[j]);
                        assert(slips(r@) =~= now.push(v@[j as int]@));
                        assert(d.take(j + 1) =~= d.take(j as int).push(d[j as int]));
                    }
                    assert(d.take(v@.len() as int) =~= d);
                },
                None => {
                    assert(before + d =~= before);
                },
            }
        }
        assert(s.take(draws@.len() as int) =~= s);
        r
    }

    /// All currently loaded notes in global ID order. Call [`NoteBox::load_all`] first if
    /// you need the complete set.
    pub fn notes(&self) -> (r: Vec<&Note>)
        ensures
            arranged(all_notes(self@.draws), slips(r@)),
    {
        sort_notes(self.loaded_notes())
    }

    /// Direct children of `parent`. Only draws that the index says hold children have to
    /// be loaded.
    pub fn children(&self, parent: &ID) -> (r: Result<Vec<&Note>, BoxError>)
        requires
            self.wf(),
        ensures
            match r {
                Ok(v) => {
                    &&& slips(v@) == picked(all_notes(self@.draws), child_of(parent@))
                    &&& forall|t: Seq<char>| #[trigger]
                        self@.index.contains_key(t) && child_text(t, parent@) ==> loaded(
                            self@.draws,
                            self@.index[t],
                        ) is Some
                },
                Err(e) => exists|t: Seq<char>|
                    {
                        &&& #[trigger] self@.index.contains_key(t)
                        &&& child_text(t, parent@)
                        &&& loaded(self@.draws, self@.index[t]) is None
                        &&& e@ == Refusal::NotLoaded(self@.index[t])
                    },
            },
    {
        let index = self.index();
        let entries = index.entries();
        proof {
            index.lemma_list();
        }
        for i in 0..entries.len()
            invariant
                self.wf(),
                entries@ == index.list(),
                self@.index == entry_map(entries@),
                rising(entries@),
                forall|k: int|
                    0 <= k < i && child_text((#[trigger] entries@[k]).id@, parent@) ==> loaded(
                        self@.draws,
                        entries@[k].draw,
                    ) is Some,
        {
            proof {
                lemma_entry_map(entries@, i as int);
            }
            if entries[i].id.is_direct_child_of(parent) && !self.is_loaded(entries[i].draw) {
                return Err(BoxError::NotLoaded(entries[i].draw));
            }
        }
        proof {
            assert forall|t: Seq<char>| #[trigger]
                self@.index.contains_key(t) && child_text(t, parent@) implies loaded(
                self@.draws,
                self@.index[t],
            ) is Some by {
                let k = entry_at(entries@, t);
                assert(has_entry(entries@, t));
                lemma_entry_map(entries@, k);
            }
        }
        Ok(kids_of(&self.loaded_notes(), parent))
    }

    /// Notes that link to `id`, their parent links aside. All draws have to be loaded.
    pub fn backlinks(&self, id: &ID) -> (r: Result<Vec<&Note>, BoxError>)
        ensures
            match first_unloaded(self@.draws) {
                Some(num) => r matches Err(e) && e@ == Refusal::NotLoaded(num),
                None => r matches Ok(v) && slips(v@) == picked(all_notes(self@.draws), linking_to(id@)),
            },
    {
        match self.load_all() {
            Ok(_) => {},
            Err(e) => {
                return Err(e);
            },
        }
        let all = self.loaded_notes();
        let ghost s = slips(all@);
        let ghost keep = linking_to(id@);
        let mut r: Vec<&Note> = Vec::new();
        assert(slips(r@) =~= picked(s.take(0), keep));
        for i in 0..all.len()
            invariant
                s == slips(all@),
                keep == linking_to(id@),
                slips(r@) == picked(s.take(i as int), keep),
        {
            let ghost before = slips(r@);
            proof {
                assert(s[i as int] == all@[i as int]@);
                lemma_picked_next(s, keep, i as int);
            }
            if crosses_to(all[i], id) {
                r.push(all[i]);
                assert(slips(r@) =~= before.push(s[i as int]));
            }
        }
        assert(s.take(all@.len() as int) =~= s);
        Ok(r)
    }
}

impl NoteBox {
    /// The IDs of all notes that have been superseded by another, each once. All draws
    /// must be loaded first.
    pub fn superseded_ids(&self) -> (r: Vec<&ID>)
        ensures
            ref_texts(r@) == superseded_list(all_notes(self@.draws)),
    {
        let all = self.loaded_notes();
        let ghost s = slips(all@);
        let mut r: Vec<&ID> = Vec::new();
        assert(ref_texts(r@) =~= superseded_list(s.take(0)));
        for i in 0..all.len()
            invariant
                s == slips(all@),
                ref_texts(r@) == superseded_list(s.take(i as int)),
        {
            let ghost before = ref_texts(r@);
            proof {
                assert(s[i as int] == all@[i as int]@);
                assert(s.take(i + 1).drop_last() =~= s.take(i as int));
                assert(s.take(i + 1).last() == s[i as int]);
            }
            if let Some(id) = all[i].supersedes() {
                if !has_ref(&r, id) {
                    r.push(id);
                    assert(ref_texts(r@) =~= before.push(id@));
                }
            }
        }
        assert(s.take(all@.len() as int) =~= s);
        r
    }

    /// Whether any loaded note supersedes `id`. All draws must be loaded first.
    pub fn is_superseded(&self, id: &ID) -> (r: bool)
        ensures
            r == superseded_in(all_notes(self@.draws), id@),
    {
        let all = self.loaded_notes();
        proof {
            lemma_successor(slips(all@), id@);
        }
        successor(&all, id) < all.len()
    }

    /// The ID of the first note that supersedes `id`, if any. All draws must be loaded
    /// first.
    pub fn superseded_by(&self, id: &ID) -> (r: Option<&ID>)
        ensures
            ref_text(r) == (match successor_in(all_notes(self@.draws), id@) {
                Some(n) => Some(n.id),
                None => None,
            }),
    {
        let all = self.loaded_notes();
        let i = successor(&all, id);
        if i < all.len() {
            Some(all[i].id())
        } else {
            None
        }
    }

    /// Whether there is a note at `id` and its versions come to an end, so that it has a
    /// current one. All draws must be loaded first.
    pub fn has_current_version(&self, id: &ID) -> (r: bool)
        ensures
            r == (note_with(all_notes(self@.draws), id@) matches Some(n) && exists|steps: nat| #[trigger]
                ends_after(all_notes(self@.draws), n, steps)),
    {
        let all = self.loaded_notes();
        let ghost s = slips(all@);
        let i = position(&all, id);
        if i == all.len() {
            return false;
        }
        let ghost n = s[i as int];
        let mut current: usize = i;
        let mut steps: usize = 0;
        assert(s[i as int] == all@[i as int]@);
        assert(version_after(s, n, 0) == n);
        loop
            invariant
                s == slips(all@),
                s == all_notes(self@.draws),
                note_with(s, id@) == Some(n),
                current < all@.len(),
                steps <= all@.len(),
                s[current as int] == version_after(s, n, steps as nat),
                forall|k: nat| k < steps ==> !#[trigger] ends_after(s, n, k),
            decreases all@.len() - steps,
        {
            assert(s[current as int] == all@[current as int]@);
            let next = successor(&all, all[current].id());
            if next == all.len() {
                assert(ends_after(s, n, steps as nat));
                return true;
            }
            assert(!ends_after(s, n, steps as nat));
            if steps == all.len() {
                proof {
                    assert forall|k: nat| !#[trigger] ends_after(s, n, k) by {
                        lemma_circle(s, n, k);
                    }
                }
                return false;
            }
            proof {
                assert(s[next as int] == all@[next as int]@);
                lemma_version_split(s, n, steps as nat, 1);
                assert(version_after(s, s[next as int], 0) == s[next as int]);
                assert(version_after(s, s[current as int], 1) == s[next as int]);
            }
            current = next;
            steps = steps + 1;
        }
    }

    /// Follows the chain of versions from `id` to the current one, which is the note at
    /// `id` itself where nothing supersedes it. `None` where there is no note at `id`.
    /// All draws must be loaded first. Versions that supersede one another in a circle
    /// have no current one.
    pub fn current_version(&self, id: &ID) -> (r: Option<&Note>)
        requires
            note_with(all_notes(self@.draws), id@) matches Some(n) ==> exists|steps: nat| #[trigger]
                ends_after(all_notes(self@.draws), n, steps),
        ensures
            match note_with(all_notes(self@.draws), id@) {
                None => r is None,
                Some(n) => {
                    &&& r matches Some(m)
                    &&& m@ == latest(all_notes(self@.draws), n)
                    &&& successor_in(all_notes(self@.draws), m@.id) is None
                },
            },
    {
        let all = self.loaded_notes();
        let ghost s = slips(all@);
        let i = position(&all, id);
        if i == all.len() {
            return None;
        }
        let ghost n = s[i as int];
        let ghost mut left: nat = choose|steps: nat| ends_after(s, n, steps);
        let ghost goal = latest(s, n);
        let mut current: usize = i;
        assert(s[i as int] == all@[i as int]@);
        loop
            invariant
                s == slips(all@),
                s == all_notes(self@.draws),
                note_with(s, id@) == Some(n),
                goal == latest(s, n),
                current < all@.len(),
                goal == version_after(s, s[current as int], left),
                ends_after(s, s[current as int], left),
            decreases left,
        {
            assert(s[current as int] == all@[current as int]@);
            let next = successor(&all, all[current].id());
            if next == all.len() {
                return Some(all[current]);
            }
            assert(s[next as int] == all@[next as int]@);
            assert(left > 0);
            proof {
                left = (left - 1) as nat;
            }
            current = next;
        }
    }

    /// Case-insensitive substring search, skipping superseded notes. All draws have to be
    /// loaded. Results are ranked: headline matches first, body-only matches second.
    pub fn search(&self, query: &str) -> (r: Result<Vec<&Note>, BoxError>)
        ensures
            match first_unloaded(self@.draws) {
                Some(num) => r matches Err(e) && e@ == Refusal::NotLoaded(num),
                None => {
                    let all = all_notes(self@.draws);
                    r matches Ok(v) && slips(v@) == ranked(picked(all, holding_current(query@, all)), query@)
                },
            },
    {
        self.search_among(query, true)
    }

    /// Case-insensitive substring search, including superseded notes. All draws have to
    /// be loaded. Results are ranked: headline matches first, body-only matches second.
    pub fn search_all(&self, query: &str) -> (r: Result<Vec<&Note>, BoxError>)
        ensures
            match first_unloaded(self@.draws) {
                Some(num) => r matches Err(e) && e@ == Refusal::NotLoaded(num),
                None => r matches Ok(v) && slips(v@) == ranked(
                    picked(all_notes(self@.draws), holding(query@)),
                    query@,
                ),
            },
    {
        self.search_among(query, false)
    }

    /// Searches all notes, or all that are not superseded.
    fn search_among(&self, query: &str, current_only: bool) -> (r: Result<Vec<&Note>, BoxError>)
        ensures
            match first_unloaded(self@.draws) {
                Some(num) => r matches Err(e) && e@ == Refusal::NotLoaded(num),
                None => {
                    let all = all_notes(self@.draws);
                    r matches Ok(v) && slips(v@) == ranked(
                        picked(
                            all,
                            if current_only {
                                holding_current(query@, all)
                            } else {
                                holding(query@)
                            },
                        ),
                        query@,
                    )
                },
            },
    {
        match self.load_all() {
            Ok(_) => {},
            Err(e) => {
                return Err(e);
            },
        }
        let all = self.loaded_notes();
        let ghost s = slips(all@);
        let ghost keep = if current_only {
            holding_current(query@, s)
        } else {
            holding(query@)
        };
        let wanted = query.to_lowercase();
        let mut first: Vec<&Note> = Vec::new();
        let mut second: Vec<&Note> = Vec::new();
        assert(picked(s.take(0), keep) =~= Seq::empty());
        assert(slips(first@) =~= picked(picked(s.take(0), keep), heading(query@)));
        assert(slips(second@) =~= picked(picked(s.take(0), keep), not_heading(query@)));
        for i in 0..all.len()
            invariant
                s == slips(all@),
                keep == (if current_only {
                    holding_current(query@, s)
                } else {
                    holding(query@)
                }),
                wanted@ == lowercase(query@),
                slips(first@) == picked(picked(s.take(i as int), keep), heading(query@)),
                slips(second@) == picked(picked(s.take(i as int), keep), not_heading(query@)),
        {
            let n: &Note = all[i];
            let ghost a = slips(first@);
            let ghost b = slips(second@);
            let ghost hits = picked(s.take(i as int), keep);
            proof {
                assert(s[i as int] == all@[i as int]@);
                lemma_picked_next(s, keep, i as int);
                lemma_successor(s, n@.id);
                assert(hits.push(n@).drop_last() =~= hits);
            }
            let content = n.content().to_lowercase();
            let title = headline(n.content()).to_lowercase();
            match match_rank(content.as_str(), title.as_str(), wanted.as_str()) {
                None => {},
                Some(rank) => {
                    if !current_only || successor(&all, n.id()) == all.len() {
                        if rank == 0 {
                            first.push(n);
                            assert(slips(first@) =~= a.push(n@));
                        } else {
                            second.push(n);
                            assert(slips(second@) =~= b.push(n@));
                        }
                    }
                },
            }
        }
        assert(s.take(all@.len() as int) =~= s);
        let ghost a = slips(first@);
        let ghost b = slips(second@);
        let mut r = first;
        assert(a + b.take(0) =~= a);
        for i in 0..second.len()
            invariant
                b == slips(second@),
                slips(r@) == a + b.take(i as int),
        {
            let ghost before = slips(r@);
            r.push(second[i]);
            assert(slips(r@) =~= before.push(b[i as int]));
            assert(b.take(i + 1) =~= b.take(i as int).push(b[i as int]));
        }
        assert(b.take(second@.len() as int) =~= b);
        Ok(r)
    }

    /// Breadcrumb path to `id` (exclusive), from the root down. The draws of the
    /// ancestors have to be loaded.
    pub fn ancestors(&self, id: &ID) -> (r: Result<Vec<Note>, BoxError>)
        requires
            self.wf(),
        ensures
            match r {
                Ok(v) => self@.trail(id@) == Ok::<Seq<NoteView>, u32>(slips(v@)),
                Err(e) => self@.trail(id@) matches Err(num) && e@ == Refusal::NotLoaded(num),
            },
    {
        let mut up: Vec<&Note> = Vec::new();
        let mut current = id.clone();
        assert(slips(up@).reverse() =~= Seq::<NoteView>::empty());
        loop
            invariant
                self.wf(),
                match self@.trail(current@) {
                    Ok(t) => self@.trail(id@) == Ok::<Seq<NoteView>, u32>(t + slips(up@).reverse()),
                    Err(num) => self@.trail(id@) == Err::<Seq<NoteView>, u32>(num),
                },
            ensures
                self@.trail(id@) == Ok::<Seq<NoteView>, u32>(slips(up@).reverse()),
            decreases current@.len(),
        {
            let parent = current.parent();
            if parent == current {
                assert(Seq::<NoteView>::empty() + slips(up@).reverse() =~= slips(up@).reverse());
                break;
            }
            proof {
                lemma_child_within_parent(current@, parent@);
            }
            match self.find(&parent) {
                Err(e) => {
                    return Err(e);
                },
                Ok(Some(n)) => {
                    let ghost below = slips(up@);
                    up.push(n);
                    proof {
                        assert(slips(up@) =~= below.push(n@));
                        if let Ok(t) = self@.trail(parent@) {
                            assert(t.push(n@) + below.reverse() =~= t + slips(up@).reverse());
                        }
                    }
                },
                Ok(None) => {},
            }
            current = parent;
        }
        let ghost s = slips(up@);
        let mut r: Vec<Note> = Vec::new();
        let mut i: usize = up.len();
        assert(slips(r@) =~= s.skip(i as int).reverse());
        while i > 0
            invariant
                i <= up@.len(),
                s == slips(up@),
                slips(r@) == s.skip(i as int).reverse(),
            decreases i,
        {
            i = i - 1;
            let ghost before = slips(r@);
            r.push(up[i].clone());
            assert(slips(r@) =~= before.push(s[i as int]));
            assert(s.skip(i as int).reverse() =~= s.skip(i + 1).reverse().push(s[i as int]));
        }
        assert(s.skip(0) =~= s);
        Ok(r)
    }
}

/// The position of the first note with the ID `id`, or the number of notes.
pub(crate) fn position(all: &Vec<&Note>, id: &ID) -> (r: usize)
    ensures
        r <= all@.len(),
        note_with(slips(all@), id@) == (if r < all@.len() {
            Some(all@[r as int]@)
        } else {
            None
        }),
{
    let ghost s = slips(all@);
    let mut i: usize = 0;
    while i < all.len() && *all[i].id() != *id
        invariant
            s == slips(all@),
            i <= all@.len(),
            forall|k: int| 0 <= k < i ==> (#[trigger] s[k]).id != id@,
        decreases all@.len() - i,
    {
        assert(s[i as int] == all@[i as int]@);
        i = i + 1;
    }
    proof {
        if i < all@.len() {
            assert(s[i as int] == all@[i as int]@);
        }
        lemma_note_with_at(s, id@, i as int);
    }
    i
}

/// The direct children of `id`.
pub(crate) fn kids_of<'a>(all: &Vec<&'a Note>, id: &ID) -> (r: Vec<&'a Note>)
    ensures
        slips(r@) == picked(slips(all@), child_of(id@)),
{
    let ghost s = slips(all@);
    let ghost keep = child_of(id@);
    let mut r: Vec<&'a Note> = Vec::new();
    assert(slips(r@) =~= picked(s.take(0), keep));
    for i in 0..all.len()
        invariant
            s == slips(all@),
            keep == child_of(id@),
            slips(r@) == picked(s.take(i as int), keep),
    {
        let ghost before = slips(r@);
        proof {
            assert(s[i as int] == all@[i as int]@);
            lemma_picked_next(s, keep, i as int);
        }
        if all[i].id().is_direct_child_of(id) {
            r.push(all[i]);
            assert(slips(r@) =~= before.push(s[i as int]));
        }
    }
    assert(s.take(all@.len() as int) =~= s);
    r
}

/// How well a note answers a query: not at all, in its headline, or in its body alone.
/// All three texts are in lower case.
pub open spec fn rank_of_match(content: Seq<char>, title: Seq<char>, query: Seq<char>) -> Option<u8> {
    if !contains_text(content, query) {
        None
    } else if contains_text(title, query) {
        Some(0)
    } else {
        Some(1)
    }
}

/// How well a note answers a query: `None` for not at all, 0 where its headline holds the
/// query, 1 where only its body does. All three texts are in lower case.
pub fn match_rank(content: &str, title: &str, query: &str) -> (r: Option<u8>)
    ensures
        r == rank_of_match(content@, title@, query@),
{
    let q = chars_of(query);
    if !has_text(&chars_of(content), &q) {
        None
    } else if has_text(&chars_of(title), &q) {
        Some(0)
    } else {
        Some(1)
    }
}

/// The position of the first note that supersedes `id`, or the number of notes.
fn successor(all: &Vec<&Note>, id: &ID) -> (r: usize)
    ensures
        r <= all@.len(),
        successor_in(slips(all@), id@) == (if r < all@.len() {
            Some(slips(all@)[r as int])
        } else {
            None
        }),
{
    let ghost s = slips(all@);
    assert(s.skip(0) =~= s);
    let mut i: usize = 0;
    while i < all.len()
        invariant
            s == slips(all@),
            i <= all@.len(),
            successor_in(s, id@) == successor_in(s.skip(i as int), id@),
        decreases all@.len() - i,
    {
        assert(s.skip(i as int)[0] == all@[i as int]@);
        assert(s.skip(i as int).skip(1) =~= s.skip(i + 1));
        if let Some(old_id) = all[i].supersedes() {
            if *old_id == *id {
                return i;
            }
        }
        i = i + 1;
    }
    i
}

/// There is a first note that supersedes `id` just where there is one at all.
pub proof fn lemma_successor(s: Seq<NoteView>, id: Seq<char>)
    ensures
        successor_in(s, id) is Some <==> superseded_in(s, id),
    decreases s.len(),
{
    if s.len() > 0 {
        let t = s.skip(1);
        lemma_successor(t, id);
        if superseded_in(t, id) {
            let i = choose|i: int| 0 <= i < t.len() && (#[trigger] t[i]).supersedes == Some(id);
            assert(s[i + 1] == t[i]);
        }
        if superseded_in(s, id) && s[0].supersedes != Some(id) {
            let i = choose|i: int| 0 <= i < s.len() && (#[trigger] s[i]).supersedes == Some(id);
            assert(t[i - 1] == s[i]);
        }
    }
}

/// The first successor is a note that supersedes the ID.
pub proof fn lemma_successor_holds(s: Seq<NoteView>, id: Seq<char>)
    ensures
        successor_in(s, id) matches Some(m) ==> s.contains(m) && m.supersedes == Some(id),
    decreases s.len(),
{
    if s.len() > 0 {
        if s[0].supersedes == Some(id) {
            assert(s[0] == successor_in(s, id).unwrap());
        } else {
            let t = s.skip(1);
            lemma_successor_holds(t, id);
            if let Some(m) = successor_in(t, id) {
                let i = choose|i: int| 0 <= i < t.len() && t[i] == m;
                assert(s[i + 1] == m);
            }
        }
    }
}

/// Going on from where a walk along the versions has come to.
proof fn lemma_version_split(s: Seq<NoteView>, n: NoteView, a: nat, b: nat)
    ensures
        version_after(s, n, a + b) == version_after(s, version_after(s, n, a), b),
    decreases a,
{
    if a > 0 {
        match successor_in(s, n.id) {
            Some(m) => {
                lemma_version_split(s, m, (a - 1) as nat, b);
            },
            None => {},
        }
    }
}

/// Of more positions than there are places, two are the same.
pub proof fn lemma_pigeonhole(at: Seq<int>, places: nat)
    requires
        at.len() > places,
        forall|i: int| 0 <= i < at.len() ==> 0 <= #[trigger] at[i] < places,
    ensures
        exists|i: int, j: int| 0 <= i < j < at.len() && #[trigger] at[i] == #[trigger] at[j],
{
    if at.no_duplicates() {
        let all = vstd::set_lib::set_int_range(0, places as int);
        at.unique_seq_to_set();
        vstd::set_lib::lemma_int_range(0, places as int);
        assert forall|x: int| #[trigger] at.to_set().contains(x) implies all.contains(x) by {
            let i = choose|i: int| 0 <= i < at.len() && at[i] == x;
            assert(0 <= at[i] < places);
        }
        vstd::set_lib::lemma_len_subset(at.to_set(), all);
    } else {
        let (i, j) = choose|i: int, j: int|
            0 <= i < at.len() && 0 <= j < at.len() && i != j && #[trigger] at[i] == #[trigger] at[j];
        if i < j {
            assert(at[i] == at[j]);
        } else {
            assert(at[j] == at[i]);
        }
    }
}

/// Versions that have not come to an end after as many steps as there are notes go round
/// in a circle: they never do.
proof fn lemma_circle(s: Seq<NoteView>, n: NoteView, steps: nat)
    requires
        forall|k: nat| k <= s.len() ==> !#[trigger] ends_after(s, n, k),
    ensures
        !ends_after(s, n, steps),
    decreases steps,
{
    if steps > s.len() {
        let at = Seq::new(
            s.len() + 1,
            |k: int| choose|i: int| 0 <= i < s.len() && s[i] == version_after(s, n, (k + 1) as nat),
        );
        assert forall|k: int| 0 <= k < at.len() implies 0 <= #[trigger] at[k] < s.len() && s[at[k]]
            == version_after(s, n, (k + 1) as nat) by {
            let m = version_after(s, n, k as nat);
            assert(!ends_after(s, n, k as nat));
            lemma_version_split(s, n, k as nat, 1);
            lemma_successor_holds(s, m.id);
            let next = successor_in(s, m.id).unwrap();
            assert(version_after(s, next, 0) == next);
            assert(version_after(s, m, 1) == next);
            assert(s.contains(version_after(s, n, (k + 1) as nat)));
        }
        lemma_pigeonhole(at, s.len());
        let (i, j) = choose|i: int, j: int| 0 <= i < j < at.len() && #[trigger] at[i] == #[trigger] at[j];
        let a = (i + 1) as nat;
        let b = (j + 1) as nat;
        assert(version_after(s, n, a) == s[at[i]]);
        assert(version_after(s, n, b) == s[at[j]]);
        let rest = (steps - b) as nat;
        lemma_version_split(s, n, b, rest);
        lemma_version_split(s, n, a, rest);
        lemma_circle(s, n, a + rest);
    }
}

/// Whether `x` is one of `ids`.
pub(crate) fn has_ref(ids: &Vec<&ID>, x: &ID) -> (r: bool)
    ensures
        r == ref_texts(ids@).contains(x@),
{
    for i in 0..ids.len()
        invariant
            forall|k: int| 0 <= k < i ==> ref_texts(ids@)[k] != x@,
    {
        assert(ref_texts(ids@)[i as int] == ids@[i as int]@);
        if *ids[i] == *x {
            return true;
        }
    }
    false
}

/// Whether a note has a cross-link to `id`.
fn crosses_to(n: &Note, id: &ID) -> (r: bool)
    ensures
        r == cross_links(n@).contains(id@),
{
    let links = n.links();
    let ghost c = cross_links(n@);
    let mut i: usize = 1;
    while i < links.len()
        invariant
            1 <= i,
            texts(links@) == n@.links,
            c == cross_links(n@),
            i <= links@.len() || links@.len() == 0,
            forall|k: int| 0 <= k < i - 1 ==> c[k] != id@,
        decreases links@.len() - i,
    {
        assert(n@.links[i as int] == links@[i as int]@);
        assert(c[i - 1] == n@.links[i as int]);
        if links[i] == *id {
            return true;
        }
        i = i + 1;
    }
    false
}

} // verus!
