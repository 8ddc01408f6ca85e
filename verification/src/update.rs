//! New versions of notes.

use crate::clock::Timestamp;
use crate::id::{texts, ID};
use crate::index::{entry_at, entry_map, has_entry, Entry};
use crate::merge::lemma_numbers_run_out;
use crate::model::{
    cross_links, first_unloaded, has_draw, lemma_all_loaded, lemma_lookup_id, lemma_slot, letter,
    slot, BoxView, Refusal,
};
use crate::note::{Note, NoteView};
use crate::numeral::{
    decimal, digit, is_digit, lemma_decimal_digits, lemma_value_of_decimal, next_numeral,
};
use crate::store::{BoxError, NoteBox};
use crate::text::{chars_of, push_all, string_of};
use vstd::prelude::*;

verus! {

/// With every draw loaded, looking up an ID always comes to an answer.
pub proof fn lemma_lookup_answers(b: BoxView, id: Seq<char>)
    requires
        b.wf(),
        first_unloaded(b.draws) is None,
    ensures
        b.lookup(id) is Ok,
{
    lemma_all_loaded(b.draws);
    if b.index.contains_key(id) {
        lemma_slot(b.draws, b.index[id]);
        assert(has_draw(b.draws, b.index[id]));
        assert(b.draws[slot(b.draws, b.index[id])].notes is Some);
    }
}

/// There is at most one first free number.
pub proof fn lemma_number_slot_unique(b: BoxView, id: Seq<char>, m: nat, n: nat)
    requires
        b.is_number_slot(id, m),
        b.is_number_slot(id, n),
    ensures
        m == n,
{
    if m < n {
        assert(!b.is_free(id + decimal(m)));
    } else if n < m {
        assert(!b.is_free(id + decimal(n)));
    }
}

/// An index has no more numbers below an ID than it has entries.
proof fn lemma_entries_run_out(s: Seq<Entry>, id: Seq<char>, n: nat)
    requires
        forall|m: nat| 1 <= m <= n ==> has_entry(s, #[trigger] (id + decimal(m))),
    ensures
        n <= s.len(),
{
    let taken = s.map_values(|e: Entry| e.id@);
    assert forall|m: nat| 1 <= m <= n implies taken.contains(#[trigger] (id + decimal(m))) by {
        assert(has_entry(s, id + decimal(m)));
        assert(taken[entry_at(s, id + decimal(m))] == id + decimal(m));
    }
    lemma_numbers_run_out(taken, id, n);
}

/// The `k`-th small letter.
fn letter_of(k: u8) -> (c: char)
    requires
        k < 26,
    ensures
        c == letter(k as int),
{
    (97u8 + k) as char
}

impl NoteBox {
    /// Returns the first child ID of `id` that has no note yet.
    ///
    /// - Letter-ending IDs (e.g. `1c`): tries `1c1`, `1c2`, …
    /// - Digit-ending IDs (e.g. `1a1`): tries `1a1a`, `1a1b`, …
    pub fn first_available_child(&self, id: &ID) -> (r: Result<ID, BoxError>)
        requires
            self.wf(),
            first_unloaded(self@.draws) is None,
        ensures
            match self@.child_slot(id@) {
                Some(t) => r matches Ok(child) && child@ == t && self@.is_free(t),
                None => r matches Err(e) && e@ == Refusal::NoSlot(id@),
            },
    {
        proof {
            self.lemma_wf();
        }
        let v = chars_of(id.as_str());
        let n = v.len();
        if n > 0 && digit(v[n - 1]) {
            let mut k: u8 = 0;
            while k < 26
                invariant
                    self.wf(),
                    self@.wf(),
                    first_unloaded(self@.draws) is None,
                    v@ == id@,
                    id@.len() > 0 && is_digit(id@.last()),
                    k <= 26,
                    self@.letter_slot(id@, 0) == self@.letter_slot(id@, k as int),
                decreases 26 - k,
            {
                let mut t = chars_of(id.as_str());
                t.push(letter_of(k));
                let candidate = ID::from(string_of(&t));
                proof {
                    lemma_lookup_answers(self@, candidate@);
                    assert(candidate@ =~= id@.push(letter(k as int)));
                }
                match self.find(&candidate) {
                    Ok(None) => {
                        return Ok(candidate);
                    },
                    Ok(Some(_)) => {},
                    Err(e) => {
                        return Err(e);
                    },
                }
                k = k + 1;
            }
            return Err(BoxError::NoSlot(id.clone()));
        }
        let index = self.index();
        let ghost entries = index.list();
        proof {
            index.lemma_list();
        }
        let mut number: Vec<char> = Vec::new();
        number.push('1');
        let ghost mut count: nat = 1;
        assert(number@ =~= decimal(1));
        loop
            invariant
                self.wf(),
                self@.wf(),
                first_unloaded(self@.draws) is None,
                !(id@.len() > 0 && is_digit(id@.last())),
                self@.index == entry_map(entries),
                count >= 1,
                number@ == decimal(count),
                forall|m: nat| 1 <= m < count ==> !self@.is_free(#[trigger] (id@ + decimal(m))),
                count <= entries.len() + 1,
            decreases entries.len() + 1 - count,
        {
            let mut t = chars_of(id.as_str());
            push_all(&mut t, &number);
            let candidate = ID::from(string_of(&t));
            proof {
                lemma_lookup_answers(self@, candidate@);
                lemma_decimal_digits(count);
                lemma_value_of_decimal(count);
            }
            match self.find(&candidate) {
                Ok(None) => {
                    proof {
                        assert(self@.is_number_slot(id@, count));
                        lemma_number_slot_unique(
                            self@,
                            id@,
                            count,
                            choose|m: nat| self@.is_number_slot(id@, m),
                        );
                    }
                    return Ok(candidate);
                },
                Ok(Some(_)) => {},
                Err(e) => {
                    return Err(e);
                },
            }
            proof {
                assert forall|m: nat| 1 <= m <= count implies has_entry(
                    entries,
                    #[trigger] (id@ + decimal(m)),
                ) by {
                    assert(!self@.is_free(id@ + decimal(m)));
                    assert(self@.index.contains_key(id@ + decimal(m)));
                }
                lemma_entries_run_out(entries, id@, count);
                count = count + 1;
            }
            number = next_numeral(&number);
        }
    }

    /// Creates a new child note that supersedes `id` and takes over its cross-links,
    /// dated now. All draws have to be loaded.
    ///
    /// Returns the new note's ID, or an error if there is no note at `id`, if `id` is
    /// already superseded (versions form a line), or if the new note cannot be added.
    pub fn update(&mut self, id: &ID, new_content: &str) -> (r: Result<ID, BoxError>)
        requires
            old(self).wf(),
            old(self)@.can_open(),
        ensures
            final(self).wf(),
            exists|at: Timestamp| #[trigger]
                at.shown() is Some && (match r {
                    Ok(child) => old(self)@.updating(id@, new_content@, at) == Ok::<
                        (Seq<char>, BoxView),
                        Refusal,
                    >((child@, final(self)@)),
                    Err(e) => old(self)@.updating(id@, new_content@, at) == Err::<
                        (Seq<char>, BoxView),
                        Refusal,
                    >(e@) && final(self)@ == old(self)@,
                }),
    {
        let now = Timestamp::now();
        self.update_at(id, new_content, now)
    }

    /// What [`NoteBox::update`] does at the moment `at`.
    pub fn update_at(&mut self, id: &ID, new_content: &str, at: Timestamp) -> (r: Result<ID, BoxError>)
        requires
            old(self).wf(),
            old(self)@.can_open(),
        ensures
            final(self).wf(),
            match r {
                Ok(child) => old(self)@.updating(id@, new_content@, at) == Ok::<
                    (Seq<char>, BoxView),
                    Refusal,
                >((child@, final(self)@)),
                Err(e) => old(self)@.updating(id@, new_content@, at) == Err::<(Seq<char>, BoxView), Refusal>(
                    e@,
                ) && final(self)@ == old(self)@,
            },
    {
        match self.load_all() {
            Ok(_) => {},
            Err(e) => {
                return Err(e);
            },
        }
        let note = match self.find(id) {
            Err(e) => {
                return Err(e);
            },
            Ok(None) => {
                return Err(BoxError::NotFound(id.clone()));
            },
            Ok(Some(n)) => n.clone(),
        };
        if self.is_superseded(id) {
            return Err(BoxError::Superseded(id.clone()));
        }
        let child = match self.first_available_child(id) {
            Err(e) => {
                return Err(e);
            },
            Ok(child) => child,
        };
        proof {
            lemma_lookup_id(self@, id@);
        }
        let version = version_of(&note, id, child.clone(), new_content, at);
        match self.add(version) {
            Ok(_) => Ok(child),
            Err(e) => Err(e),
        }
    }
}

/// The note that supersedes `note`, which stands at `id`: below it, with the same
/// cross-links.
fn version_of(note: &Note, id: &ID, child: ID, content: &str, at: Timestamp) -> (r: Note)
    requires
        note@.id == id@,
    ensures
        r@ == BoxView::version_of(note@, child@, content@, at),
{
    let mut r = Note::dated_version(child, id.clone(), content, id.clone(), at);
    let links = note.links();
    let ghost c = cross_links(note@);
    let mut i: usize = 1;
    assert(seq![id@] + c.take(0) =~= seq![id@]);
    while i < links.len()
        invariant
            1 <= i,
            i <= links@.len() || i == 1,
            texts(links@) == note@.links,
            c == cross_links(note@),
            r@ == (NoteView {
                links: seq![id@] + c.take(i - 1),
                ..BoxView::version_of(note@, child@, content@, at)
            }),
            note@.id == id@,
        decreases links@.len() - i,
    {
        assert(note@.links[i as int] == links@[i as int]@);
        r.add_link(links[i].clone());
        assert(c.take(i as int) =~= c.take(i - 1).push(c[i - 1]));
        assert(seq![id@] + c.take(i as int) =~= (seq![id@] + c.take(i - 1)).push(c[i - 1]));
        i = i + 1;
    }
    assert(c.take(i - 1) =~= c);
    r
}

} // verus!
