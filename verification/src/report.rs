//! What commands print, line by line.

use crate::id::{texts, ID};
use crate::merge::{deeds, Deed, MergeAction, MergeReport};
use crate::model::{all_notes, first_unloaded, picked, successor_in, superseded_in, Refusal};
use crate::note::{headline, ref_text, Note, NoteView};
use crate::numeral::{
    decimal, decimal_of, lemma_decimal_digits, lemma_value_of_decimal, next_numeral,
};
use crate::query::lemma_picked_next;
use crate::sort::{arranged, slips};
use crate::store::{BoxError, NoteBox};
use crate::text::{
    add_line, chars_of, first_line, join2, join3, push_all, push_text, string_of, strings,
};
use vstd::prelude::*;

verus! {

// ── Listings ─────────────────────────────────────────────────────────────────

/// A note in a listing: its ID and its headline.
pub open spec fn entry_text(n: NoteView) -> Seq<char> {
    n.id + " "@ + first_line(n.content)
}

/// A listing of notes.
pub open spec fn listing(s: Seq<NoteView>) -> Seq<Seq<char>> {
    s.map_values(|n: NoteView| entry_text(n))
}

/// A note in a listing: its ID and its headline.
pub fn entry_line(note: &Note) -> (r: String)
    ensures
        r@ == entry_text(note@),
{
    join3(note.id().as_str(), " ", headline(note.content()))
}

/// The notes that a listing shows: all, or those that no note in `all` supersedes.
pub open spec fn shown_in_list(all: Seq<NoteView>, show_all: bool) -> spec_fn(NoteView) -> bool {
    |n: NoteView| show_all || !superseded_in(all, n.id)
}

impl NoteBox {
    /// All notes in order, one line each, without superseded ones unless `show_all`. All
    /// draws have to be loaded.
    pub fn list(&self, show_all: bool) -> (r: Result<Vec<String>, BoxError>)
        ensures
            match first_unloaded(self@.draws) {
                Some(num) => r matches Err(e) && e@ == Refusal::NotLoaded(num),
                None => r matches Ok(lines) && exists|v: Seq<NoteView>| #[trigger]
                    arranged(all_notes(self@.draws), v) && strings(lines@) == listing(
                        picked(v, shown_in_list(all_notes(self@.draws), show_all)),
                    ),
            },
    {
        match self.load_all() {
            Ok(_) => {},
            Err(e) => {
                return Err(e);
            },
        }
        let notes = self.notes();
        let ghost v = slips(notes@);
        let ghost keep = shown_in_list(all_notes(self@.draws), show_all);
        let mut r: Vec<String> = Vec::new();
        assert(strings(r@) =~= listing(picked(v.take(0), keep)));
        for i in 0..notes.len()
            invariant
                v == slips(notes@),
                keep == shown_in_list(all_notes(self@.draws), show_all),
                strings(r@) == listing(picked(v.take(i as int), keep)),
        {
            let ghost before = picked(v.take(i as int), keep);
            proof {
                assert(v[i as int] == notes@[i as int]@);
                lemma_picked_next(v, keep, i as int);
                assert(listing(before.push(v[i as int])) =~= listing(before).push(entry_text(v[i as int])));
            }
            if show_all || !self.is_superseded(notes[i].id()) {
                add_line(&mut r, entry_line(notes[i]));
            }
        }
        assert(v.take(notes@.len() as int) =~= v);
        Ok(r)
    }
}

// ── One note in full ─────────────────────────────────────────────────────────

/// Texts in a row with `, ` between them.
pub open spec fn comma_joined(s: Seq<Seq<char>>) -> Seq<char>
    decreases s.len(),
{
    if s.len() == 0 {
        Seq::empty()
    } else if s.len() == 1 {
        s[0]
    } else {
        comma_joined(s.drop_last()) + ", "@ + s.last()
    }
}

/// A line that is there only where there is something to say.
pub open spec fn line_if(label: Seq<char>, t: Option<Seq<char>>) -> Seq<Seq<char>> {
    match t {
        Some(x) => seq![label + x],
        None => Seq::empty(),
    }
}

/// A note in full: its ID, when it was written, its content, the versions before and
/// after it, its links.
pub open spec fn description(n: NoteView, when: Seq<char>, newer: Option<Seq<char>>) -> Seq<Seq<char>> {
    seq!["ID:      "@ + n.id, "Created: "@ + when, "Content: "@ + n.content] + line_if(
        "Supersedes: "@,
        n.supersedes,
    ) + line_if("Superseded by: "@, newer) + line_if(
        "Links:   "@,
        if n.links.len() > 0 {
            Some(comma_joined(n.links))
        } else {
            None
        },
    )
}

/// IDs in a row with `, ` between them.
fn comma_join(ids: &[ID]) -> (r: Vec<char>)
    ensures
        r@ == comma_joined(texts(ids@)),
{
    let ghost s = texts(ids@);
    let mut r: Vec<char> = Vec::new();
    assert(r@ =~= comma_joined(s.take(0)));
    for i in 0..ids.len()
        invariant
            s == texts(ids@),
            r@ == comma_joined(s.take(i as int)),
    {
        proof {
            assert(s[i as int] == ids@[i as int]@);
            assert(s.take(i + 1).drop_last() =~= s.take(i as int));
            assert(s.take(i + 1).last() == s[i as int]);
        }
        if i > 0 {
            push_text(&mut r, ", ");
        }
        push_text(&mut r, ids[i].as_str());
        proof {
            if i == 0 {
                assert(r@ =~= s[0]);
            }
        }
    }
    assert(s.take(ids@.len() as int) =~= s);
    r
}

/// A note in full, given how the moment it was written reads and which note supersedes it.
pub fn describe(note: &Note, when: &str, newer: Option<&ID>) -> (r: Vec<String>)
    ensures
        strings(r@) == description(note@, when@, ref_text(newer)),
{
    let ghost n = note@;
    let mut r: Vec<String> = Vec::new();
    add_line(&mut r, join2("ID:      ", note.id().as_str()));
    add_line(&mut r, join2("Created: ", when));
    add_line(&mut r, join2("Content: ", note.content()));
    let ghost first = seq!["ID:      "@ + n.id, "Created: "@ + when@, "Content: "@ + n.content];
    assert(strings(r@) =~= first);
    let ghost second = first + line_if("Supersedes: "@, n.supersedes);
    match note.supersedes() {
        Some(old_id) => {
            add_line(&mut r, join2("Supersedes: ", old_id.as_str()));
        },
        None => {},
    }
    assert(strings(r@) =~= second);
    let ghost third = second + line_if("Superseded by: "@, ref_text(newer));
    match newer {
        Some(id) => {
            add_line(&mut r, join2("Superseded by: ", id.as_str()));
        },
        None => {},
    }
    assert(strings(r@) =~= third);
    let links = note.links();
    if links.len() > 0 {
        let mut v = chars_of("Links:   ");
        push_all(&mut v, &comma_join(links));
        add_line(&mut r, string_of(&v));
    }
    assert(strings(r@) =~= description(n, when@, ref_text(newer)));
    r
}

impl NoteBox {
    /// The note at `id` in full; `None` where the moment it was written has no place in the
    /// calendar. All draws have to be loaded.
    pub fn show(&self, id: &ID) -> (r: Result<Option<Vec<String>>, BoxError>)
        requires
            self.wf(),
        ensures
            match first_unloaded(self@.draws) {
                Some(num) => r matches Err(e) && e@ == Refusal::NotLoaded(num),
                None => match self@.lookup(id@) {
                    Err(num) => r matches Err(e) && e@ == Refusal::NotLoaded(num),
                    Ok(None) => r matches Err(e) && e@ == Refusal::NotFound(id@),
                    Ok(Some(n)) => match n.created_at.shown() {
                        None => r matches Ok(None),
                        Some(when) => r matches Ok(Some(lines)) && strings(lines@) == description(
                            n,
                            when,
                            match successor_in(all_notes(self@.draws), n.id) {
                                Some(m) => Some(m.id),
                                None => None,
                            },
                        ),
                    },
                },
            },
    {
        match self.load_all() {
            Ok(_) => {},
            Err(e) => {
                return Err(e);
            },
        }
        match self.find(id) {
            Err(e) => Err(e),
            Ok(None) => Err(BoxError::NotFound(id.clone())),
            Ok(Some(note)) => match note.created_at().show() {
                None => Ok(None),
                Some(when) => Ok(Some(describe(note, when.as_str(), self.superseded_by(note.id())))),
            },
        }
    }
}

// ── Merges ───────────────────────────────────────────────────────────────────

/// One action of a merge.
pub open spec fn deed_text(d: Deed) -> Seq<char> {
    match d {
        Deed::Added(id) => "  added   "@ + id,
        Deed::LinksMerged(id) => "  links   "@ + id + " (merged)"@,
        Deed::Renamed { original, renamed_to } => "  renamed "@ + original + " → "@ + renamed_to,
    }
}

/// The actions of a merge.
pub open spec fn deed_texts(s: Seq<Deed>) -> Seq<Seq<char>> {
    s.map_values(|d: Deed| deed_text(d))
}

/// What was done in each draw.
pub open spec fn merge_text(reports: Seq<MergeReport>) -> Seq<Seq<char>>
    decreases reports.len(),
{
    if reports.len() == 0 {
        Seq::empty()
    } else {
        let r = reports.last();
        merge_text(reports.drop_last()) + (seq!["draw "@ + decimal(r.draw as nat) + ":"@] + deed_texts(
            deeds(r.actions@),
        ))
    }
}

/// One action of a merge.
pub fn action_line(action: &MergeAction) -> (r: String)
    ensures
        r@ == deed_text(action@),
{
    match action {
        MergeAction::Added(id) => join2("  added   ", id.as_str()),
        MergeAction::LinksMerged(id) => join3("  links   ", id.as_str(), " (merged)"),
        MergeAction::Renamed { original, renamed_to } => {
            let a = join3("  renamed ", original.as_str(), " → ");
            join2(a.as_str(), renamed_to.as_str())
        },
    }
}

/// What was done in each draw, line by line.
pub fn merge_lines(reports: &Vec<MergeReport>) -> (r: Vec<String>)
    ensures
        strings(r@) == merge_text(reports@),
{
    let mut r: Vec<String> = Vec::new();
    assert(strings(r@) =~= merge_text(reports@.take(0)));
    for i in 0..reports.len()
        invariant
            strings(r@) == merge_text(reports@.take(i as int)),
    {
        let ghost before = strings(r@);
        let actions = &reports[i].actions;
        let ghost d = deeds(actions@);
        let ghost title = "draw "@ + decimal(reports@[i as int].draw as nat) + ":"@;
        let number = string_of(&decimal_of(reports[i].draw as u64));
        add_line(&mut r, join3("draw ", number.as_str(), ":"));
        assert(strings(r@) =~= before + (seq![title] + deed_texts(d.take(0))));
        for j in 0..actions.len()
            invariant
                d == deeds(actions@),
                strings(r@) == before + (seq![title] + deed_texts(d.take(j as int))),
        {
            proof {
                assert(d[j as int] == actions@[j as int]@);
                assert(d.take(j + 1) =~= d.take(j as int).push(d[j as int]));
                assert(deed_texts(d.take(j + 1)) =~= deed_texts(d.take(j as int)).push(deed_text(d[j as int])));
            }
            let ghost now = strings(r@);
            add_line(&mut r, action_line(&actions[j]));
            assert(strings(r@) =~= before + (seq![title] + deed_texts(d.take(j + 1))));
        }
        proof {
            assert(d.take(actions@.len() as int) =~= d);
            assert(reports@.take(i + 1).drop_last() =~= reports@.take(i as int));
            assert(reports@.take(i + 1).last() == reports@[i as int]);
        }
    }
    assert(reports@.take(reports@.len() as int) =~= reports@);
    r
}

/// One of two versions that were both kept: whose it is, its ID, and its content where it
/// was found.
pub fn version_line(ours: bool, id: &ID, content: Option<&str>) -> (r: String)
    ensures
        r@ == "  ["@ + (if ours {
            "head "@
        } else {
            "their"@
        }) + "] "@ + id@ + (match content {
            Some(c) => " — "@ + c@,
            None => Seq::empty(),
        }),
{
    let mut v = chars_of("  [");
    push_text(
        &mut v,
        if ours {
            "head "
        } else {
            "their"
        },
    );
    push_text(&mut v, "] ");
    push_text(&mut v, id.as_str());
    match content {
        Some(c) => {
            let ghost before = v@;
            push_text(&mut v, " — ");
            push_text(&mut v, c);
            assert(v@ =~= before + (" — "@ + c@));
        },
        None => {
            assert(v@ + Seq::<char>::empty() =~= v@);
        },
    }
    string_of(&v)
}

/// What stands behind a rename that a sync made.
pub fn rename_line(original: &ID, renamed_to: &ID) -> (r: String)
    ensures
        r@ == "renamed local "@ + original@ + " → "@ + renamed_to@ + " (upstream kept original ID)"@,
{
    let a = join3("renamed local ", original.as_str(), " → ");
    join3(a.as_str(), renamed_to.as_str(), " (upstream kept original ID)")
}

// ── Hints ────────────────────────────────────────────────────────────────────

/// The hint that there are changes to sync: uncommitted ones count as one more.
pub open spec fn hint_text(dirty: bool, ahead: nat) -> Option<Seq<char>> {
    let n = ahead + (if dirty {
        1nat
    } else {
        0
    });
    if n == 0 {
        None
    } else {
        Some(
            "hint: "@ + decimal(n) + (if n == 1 {
                " local change"@
            } else {
                " local changes"@
            }) + " not synced. Run 'luze sync'"@,
        )
    }
}

/// The hint that there are changes to sync, if there are: uncommitted ones, or commits
/// that the upstream does not have.
pub fn sync_hint(dirty: bool, ahead: usize) -> (r: Option<String>)
    ensures
        match r {
            Some(t) => hint_text(dirty, ahead as nat) == Some(t@),
            None => hint_text(dirty, ahead as nat) is None,
        },
{
    if !dirty && ahead == 0 {
        return None;
    }
    let mut number = decimal_of(ahead as u64);
    if dirty {
        proof {
            lemma_decimal_digits(ahead as nat);
            lemma_value_of_decimal(ahead as nat);
        }
        number = next_numeral(&number);
    }
    let one = if dirty {
        ahead == 0
    } else {
        ahead == 1
    };
    let mut v = chars_of("hint: ");
    push_all(&mut v, &number);
    push_text(
        &mut v,
        if one {
            " local change"
        } else {
            " local changes"
        },
    );
    push_text(&mut v, " not synced. Run 'luze sync'");
    Some(string_of(&v))
}

} // verus!
