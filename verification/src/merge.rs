//! Resolving git conflicts in draw files, note by note.

use crate::id::{char_after, has_id, next_sibling_text, texts, ID};
use crate::index::Index;
use crate::model::{cross_links, lemma_note_with_at, spot};
use crate::note::{Note, NoteView};
use crate::numeral::{
    decimal, is_digit, lemma_decimal_digits, lemma_value_of_decimal, next_numeral,
};
use crate::query::lemma_pigeonhole;
use crate::sort::{arranged, reversed, slips, sort_notes};
use crate::text::{
    begins_with, chars_of, contains_text, has_text, lines, push_all, split_lines, stands_at,
    string_of, views,
};
use vstd::prelude::*;

verus! {

/// One auto-resolved action taken during [`merge_conflicts`].
#[derive(Debug)]
pub enum MergeAction {
    /// Note existed only in the incoming branch; added without conflict.
    Added(ID),
    /// Same content on both sides; link lists were unioned.
    LinksMerged(ID),
    /// Content conflict: one version was renamed to preserve both.
    Renamed { original: ID, renamed_to: ID },
}

/// What an action did.
#[verifier::ext_equal]
pub enum Deed {
    Added(Seq<char>),
    LinksMerged(Seq<char>),
    Renamed { original: Seq<char>, renamed_to: Seq<char> },
}

impl View for MergeAction {
    type V = Deed;

    open spec fn view(&self) -> Deed {
        match self {
            MergeAction::Added(id) => Deed::Added(id@),
            MergeAction::LinksMerged(id) => Deed::LinksMerged(id@),
            MergeAction::Renamed { original, renamed_to } => Deed::Renamed {
                original: original@,
                renamed_to: renamed_to@,
            },
        }
    }
}

/// What a list of actions did.
pub open spec fn deeds(s: Seq<MergeAction>) -> Seq<Deed> {
    s.map_values(|a: MergeAction| a@)
}

/// Report for one draw file resolved by [`merge_conflicts`].
#[derive(Debug)]
pub struct MergeReport {
    pub draw: u32,
    pub actions: Vec<MergeAction>,
}

// ── Conflict markers ─────────────────────────────────────────────────────────

/// Whether a file's text holds a conflict marker.
pub fn has_conflict_markers(s: &str) -> (r: bool)
    ensures
        r == contains_text(s@, "<<<<<<<"@),
{
    has_text(&chars_of(s), &chars_of("<<<<<<<"))
}

/// Where a line stands with regard to conflict blocks.
#[derive(Clone, Copy, PartialEq, Eq, Structural)]
pub enum Place {
    /// Outside: the line belongs to both sides.
    Normal,
    /// Before the divider.
    Head,
    /// Behind the divider.
    Theirs,
}

/// What the two sides of a conflicted file read, from the lines of the file on; the first
/// of them stands at `at`.
pub open spec fn sides(ls: Seq<Seq<char>>, at: Place) -> (Seq<char>, Seq<char>)
    decreases ls.len(),
{
    if ls.len() == 0 {
        (Seq::empty(), Seq::empty())
    } else {
        let line = ls[0].push('\n');
        let rest = ls.skip(1);
        match at {
            Place::Normal => if begins_with(ls[0], "<<<<<<<"@) {
                sides(rest, Place::Head)
            } else {
                let (h, t) = sides(rest, Place::Normal);
                (line + h, line + t)
            },
            Place::Head => if begins_with(ls[0], "======="@) {
                sides(rest, Place::Theirs)
            } else {
                let (h, t) = sides(rest, Place::Head);
                (line + h, t)
            },
            Place::Theirs => if begins_with(ls[0], ">>>>>>>"@) {
                sides(rest, Place::Normal)
            } else {
                let (h, t) = sides(rest, Place::Theirs);
                (h, line + t)
            },
        }
    }
}

/// Splits a file with git conflict markers into (head, theirs) versions.
/// Lines outside conflict blocks appear in both sides unchanged.
pub fn extract_sides(content: &str) -> (r: (String, String))
    ensures
        r.0@ == sides(lines(content@), Place::Normal).0,
        r.1@ == sides(lines(content@), Place::Normal).1,
{
    let ls = split_lines(&chars_of(content));
    let ghost all = lines(content@);
    let begin = chars_of("<<<<<<<");
    let divide = chars_of("=======");
    let end = chars_of(">>>>>>>");
    let mut head: Vec<char> = Vec::new();
    let mut theirs: Vec<char> = Vec::new();
    let mut at = Place::Normal;
    assert(all.skip(0) =~= all);
    for i in 0..ls.len()
        invariant
            views(ls@) == all,
            begin@ == "<<<<<<<"@,
            divide@ == "======="@,
            end@ == ">>>>>>>"@,
            sides(all, Place::Normal).0 == head@ + sides(all.skip(i as int), at).0,
            sides(all, Place::Normal).1 == theirs@ + sides(all.skip(i as int), at).1,
    {
        let line = &ls[i];
        let ghost h = head@;
        let ghost t = theirs@;
        let ghost rest = all.skip(i as int);
        proof {
            assert(rest[0] == views(ls@)[i as int]);
            assert(rest.skip(1) =~= all.skip(i + 1));
        }
        match at {
            Place::Normal => {
                if stands_at(line, &begin, 0) {
                    at = Place::Head;
                } else {
                    push_all(&mut head, line);
                    head.push('\n');
                    push_all(&mut theirs, line);
                    theirs.push('\n');
                    assert(head@ =~= h + line@.push('\n'));
                    assert(theirs@ =~= t + line@.push('\n'));
                }
            },
            Place::Head => {
                if stands_at(line, &divide, 0) {
                    at = Place::Theirs;
                } else {
                    push_all(&mut head, line);
                    head.push('\n');
                    assert(head@ =~= h + line@.push('\n'));
                }
            },
            Place::Theirs => {
                if stands_at(line, &end, 0) {
                    at = Place::Normal;
                } else {
                    push_all(&mut theirs, line);
                    theirs.push('\n');
                    assert(theirs@ =~= t + line@.push('\n'));
                }
            },
        }
        assert(sides(all, Place::Normal).0 =~= head@ + sides(all.skip(i + 1), at).0);
        assert(sides(all, Place::Normal).1 =~= theirs@ + sides(all.skip(i + 1), at).1);
    }
    assert(all.skip(ls@.len() as int) =~= Seq::<Seq<char>>::empty());
    (string_of(&head), string_of(&theirs))
}

// ── Siblings ─────────────────────────────────────────────────────────────────

/// How many more siblings can follow, at most.
pub open spec fn siblings_left(s: Seq<char>) -> nat {
    if s.len() == 0 || s.last() == '/' || is_digit(s.last()) {
        150
    } else if s.last() >= 'z' {
        0
    } else if s.last() >= '/' {
        ('z' as int - s.last() as int) as nat
    } else {
        (200 + ('/' as int - s.last() as int)) as nat
    }
}

/// Siblings run out.
pub proof fn lemma_siblings_left(s: Seq<char>)
    ensures
        next_sibling_text(s) matches Some(t) ==> siblings_left(t) < siblings_left(s),
{
    if let Some(t) = next_sibling_text(s) {
        if s.len() == 0 || s.last() == '/' || is_digit(s.last()) {
            assert(t.last() == 'a');
        } else {
            assert(t.last() == char_after(s.last()));
        }
    }
}

/// The first of the siblings that follow `s` that is not in `taken`.
pub open spec fn free_sibling(s: Seq<char>, taken: Seq<Seq<char>>) -> Option<Seq<char>>
    decreases siblings_left(s),
    via free_sibling_decreases
{
    match next_sibling_text(s) {
        None => None,
        Some(t) => if taken.contains(t) {
            free_sibling(t, taken)
        } else {
            Some(t)
        },
    }
}

#[via_fn]
proof fn free_sibling_decreases(s: Seq<char>, taken: Seq<Seq<char>>) {
    lemma_siblings_left(s);
}

/// Returns the first sibling of `id` (same parent, next letter/number slot)
/// that is not in `taken`. Returns `None` if all letter slots are exhausted.
pub fn next_available_sibling(id: &ID, taken: &Vec<ID>) -> (r: Option<ID>)
    ensures
        match r {
            Some(n) => free_sibling(id@, texts(taken@)) == Some(n@),
            None => free_sibling(id@, texts(taken@)) is None,
        },
{
    let mut candidate = match id.next_sibling() {
        Some(c) => c,
        None => {
            return None;
        },
    };
    while has_id(taken, &candidate)
        invariant
            free_sibling(id@, texts(taken@)) == (if texts(taken@).contains(candidate@) {
                free_sibling(candidate@, texts(taken@))
            } else {
                Some(candidate@)
            }),
        decreases siblings_left(candidate@),
    {
        proof {
            lemma_siblings_left(candidate@);
        }
        candidate = match candidate.next_sibling() {
            Some(c) => c,
            None => {
                return None;
            },
        };
    }
    Some(candidate)
}

/// The last of the siblings in the row of `s`.
pub open spec fn last_sibling(s: Seq<char>) -> Seq<char>
    decreases siblings_left(s),
    via last_sibling_decreases
{
    match next_sibling_text(s) {
        None => s,
        Some(t) => last_sibling(t),
    }
}

#[via_fn]
proof fn last_sibling_decreases(s: Seq<char>) {
    lemma_siblings_left(s);
}

/// `n` is the first number below `s` that is not taken.
pub open spec fn is_free_number(s: Seq<char>, taken: Seq<Seq<char>>, n: nat) -> bool {
    &&& n >= 1
    &&& !taken.contains(s + decimal(n))
    &&& forall|m: nat| 1 <= m < n ==> taken.contains(#[trigger] (s + decimal(m)))
}

/// Where a note moves that has to give way at `s`: to the first of the siblings that
/// follow which is free, and, where none is, to the first free number below the last of
/// them.
pub open spec fn moved_id(s: Seq<char>, taken: Seq<Seq<char>>) -> Seq<char> {
    match free_sibling(s, taken) {
        Some(t) => t,
        None => last_sibling(s) + decimal(
            choose|n: nat| is_free_number(last_sibling(s), taken, n),
        ),
    }
}

/// No more numbers below an ID are taken than there are IDs taken at all.
pub proof fn lemma_numbers_run_out(taken: Seq<Seq<char>>, s: Seq<char>, n: nat)
    requires
        forall|m: nat| 1 <= m <= n ==> taken.contains(#[trigger] (s + decimal(m))),
    ensures
        n <= taken.len(),
{
    if n > taken.len() {
        let at = Seq::new(
            n,
            |i: int| choose|k: int| 0 <= k < taken.len() && taken[k] == s + decimal((i + 1) as nat),
        );
        assert forall|i: int| 0 <= i < n implies 0 <= #[trigger] at[i] < taken.len() && taken[at[i]] == s
            + decimal((i + 1) as nat) by {
            assert(taken.contains(s + decimal((i + 1) as nat)));
        }
        lemma_pigeonhole(at, taken.len());
        let (i, j) = choose|i: int, j: int| 0 <= i < j < at.len() && #[trigger] at[i] == #[trigger] at[j];
        let a = decimal((i + 1) as nat);
        let b = decimal((j + 1) as nat);
        assert(s + a == s + b);
        assert((s + a).skip(s.len() as int) =~= a);
        assert((s + b).skip(s.len() as int) =~= b);
        lemma_value_of_decimal((i + 1) as nat);
        lemma_value_of_decimal((j + 1) as nat);
    }
}

/// There is only one first free number.
proof fn lemma_free_number_unique(s: Seq<char>, taken: Seq<Seq<char>>, m: nat, n: nat)
    requires
        is_free_number(s, taken, m),
        is_free_number(s, taken, n),
    ensures
        m == n,
{
    if m < n {
        assert(taken.contains(s + decimal(m)));
    } else if n < m {
        assert(taken.contains(s + decimal(n)));
    }
}

/// There is a free number below every ID.
pub proof fn lemma_free_number_exists(s: Seq<char>, taken: Seq<Seq<char>>)
    ensures
        exists|n: nat| #[trigger] is_free_number(s, taken, n),
{
    if forall|n: nat| !#[trigger] is_free_number(s, taken, n) {
        let k = taken.len() + 1;
        lemma_numbers_taken(s, taken, k);
        lemma_numbers_run_out(taken, s, k);
    }
}

/// Where no number is the first free one, all are taken.
proof fn lemma_numbers_taken(s: Seq<char>, taken: Seq<Seq<char>>, k: nat)
    requires
        forall|n: nat| !#[trigger] is_free_number(s, taken, n),
    ensures
        forall|m: nat| 1 <= m <= k ==> taken.contains(#[trigger] (s + decimal(m))),
    decreases k,
{
    if k > 0 {
        lemma_numbers_taken(s, taken, (k - 1) as nat);
        assert(!is_free_number(s, taken, k));
    }
}

/// The last of the siblings in the row of `id`.
fn row_end(id: &ID) -> (r: ID)
    ensures
        r@ == last_sibling(id@),
{
    let mut last = id.clone();
    loop
        invariant
            last_sibling(id@) == last_sibling(last@),
        decreases siblings_left(last@),
    {
        proof {
            lemma_siblings_left(last@);
        }
        match last.next_sibling() {
            Some(next) => {
                last = next;
            },
            None => {
                return last;
            },
        }
    }
}

/// Where a note moves that has to give way at `id`: to the next available sibling, or,
/// where all of them are taken, to the first available number below the last of them.
pub fn next_available_id(id: &ID, taken: &Vec<ID>) -> (r: ID)
    ensures
        r@ == moved_id(id@, texts(taken@)),
{
    if let Some(sibling) = next_available_sibling(id, taken) {
        return sibling;
    }
    let last = row_end(id);
    let ghost t = texts(taken@);
    let mut number: Vec<char> = Vec::new();
    number.push('1');
    let ghost mut count: nat = 1;
    assert(number@ =~= decimal(1));
    loop
        invariant
            t == texts(taken@),
            last@ == last_sibling(id@),
            free_sibling(id@, t) is None,
            count >= 1,
            number@ == decimal(count),
            forall|m: nat| 1 <= m < count ==> t.contains(#[trigger] (last@ + decimal(m))),
            count <= t.len() + 1,
        decreases t.len() + 1 - count,
    {
        let mut text = chars_of(last.as_str());
        push_all(&mut text, &number);
        let candidate = ID::from(string_of(&text));
        proof {
            lemma_decimal_digits(count);
            lemma_value_of_decimal(count);
        }
        if !has_id(taken, &candidate) {
            proof {
                assert(is_free_number(last@, t, count));
                lemma_free_number_unique(
                    last@,
                    t,
                    count,
                    choose|n: nat| is_free_number(last@, t, n),
                );
            }
            return candidate;
        }
        proof {
            lemma_numbers_run_out(t, last@, count);
            count = count + 1;
        }
        number = next_numeral(&number);
    }
}

// ── Merging notes ────────────────────────────────────────────────────────────

/// The IDs of notes.
pub open spec fn ids(s: Seq<NoteView>) -> Seq<Seq<char>> {
    s.map_values(|n: NoteView| n.id)
}

/// `links` with those of `more` that are not among them behind.
pub open spec fn united(links: Seq<Seq<char>>, more: Seq<Seq<char>>) -> Seq<Seq<char>>
    decreases more.len(),
{
    if more.len() == 0 {
        links
    } else {
        let u = united(links, more.drop_last());
        if u.contains(more.last()) {
            u
        } else {
            u.push(more.last())
        }
    }
}

/// `n` with the cross-links of `t` as well.
pub open spec fn with_links_of(n: NoteView, t: NoteView) -> NoteView {
    NoteView { links: united(n.links, cross_links(t)), ..n }
}

/// Merging one incoming note `t` into `m`: the notes that result, and what was done. The
/// IDs in `elsewhere` belong to notes in other draws.
pub open spec fn merged_one(
    m: Seq<NoteView>,
    t: NoteView,
    rename_head: bool,
    elsewhere: Seq<Seq<char>>,
) -> (Seq<NoteView>, Seq<Deed>) {
    let p = spot(m, t.id);
    if p >= m.len() {
        (m.push(t), seq![Deed::Added(t.id)])
    } else if m[p].content == t.content {
        let n = with_links_of(m[p], t);
        (
            m.update(p, n),
            if n.links.len() > m[p].links.len() {
                seq![Deed::LinksMerged(t.id)]
            } else {
                Seq::empty()
            },
        )
    } else {
        let x = moved_id(t.id, ids(m) + elsewhere);
        (
            if rename_head {
                m.remove(p).push(NoteView { id: x, ..m[p] }).push(t)
            } else {
                m.push(NoteView { id: x, ..t })
            },
            seq![Deed::Renamed { original: t.id, renamed_to: x }],
        )
    }
}

/// Merging the incoming notes `theirs` into `head`, one after the other.
pub open spec fn merged(
    head: Seq<NoteView>,
    theirs: Seq<NoteView>,
    rename_head: bool,
    elsewhere: Seq<Seq<char>>,
) -> (Seq<NoteView>, Seq<Deed>)
    decreases theirs.len(),
{
    if theirs.len() == 0 {
        (head, Seq::empty())
    } else {
        let (m, done) = merged(head, theirs.drop_last(), rename_head, elsewhere);
        let (next, more) = merged_one(m, theirs.last(), rename_head, elsewhere);
        (next, done + more)
    }
}

/// The position of the first note with the ID `id`, or the number of notes.
fn note_position(v: &Vec<Note>, id: &ID) -> (r: usize)
    ensures
        r <= v@.len(),
        r == spot(slips(v@), id@),
        r < v@.len() ==> v@[r as int]@.id == id@,
{
    let ghost s = slips(v@);
    let mut i: usize = 0;
    while i < v.len() && *v[i].id() != *id
        invariant
            s == slips(v@),
            i <= v@.len(),
            forall|k: int| 0 <= k < i ==> (#[trigger] s[k]).id != id@,
        decreases v@.len() - i,
    {
        assert(s[i as int] == v@[i as int]@);
        i = i + 1;
    }
    proof {
        if i < v@.len() {
            assert(s[i as int] == v@[i as int]@);
        }
        lemma_note_with_at(s, id@, i as int);
    }
    i
}

/// The IDs of notes.
fn ids_of(v: &Vec<Note>) -> (r: Vec<ID>)
    ensures
        texts(r@) == ids(slips(v@)),
{
    let ghost s = ids(slips(v@));
    let mut r: Vec<ID> = Vec::new();
    assert(texts(r@) =~= s.take(0));
    for i in 0..v.len()
        invariant
            s == ids(slips(v@)),
            texts(r@) == s.take(i as int),
    {
        let ghost before = texts(r@);
        r.push(v[i].id().clone());
        assert(texts(r@) =~= before.push(s[i as int]));
        assert(s.take(i + 1) =~= s.take(i as int).push(s[i as int]));
    }
    assert(s.take(v@.len() as int) =~= s);
    r
}

/// Whether `links` holds `id`.
pub(crate) fn has_link(links: &[ID], id: &ID) -> (r: bool)
    ensures
        r == texts(links@).contains(id@),
{
    for i in 0..links.len()
        invariant
            forall|k: int| 0 <= k < i ==> texts(links@)[k] != id@,
    {
        assert(texts(links@)[i as int] == links@[i as int]@);
        if links[i] == *id {
            return true;
        }
    }
    false
}

/// Adds the cross-links of `theirs` that `note` does not have. Returns whether there were
/// any.
fn unite_links(note: &mut Note, theirs: &Note) -> (r: bool)
    ensures
        final(note)@ == with_links_of(old(note)@, theirs@),
        r == (final(note)@.links.len() > old(note)@.links.len()),
{
    let ghost before = note@;
    let ghost more = cross_links(theirs@);
    let links = theirs.links();
    let mut changed = false;
    let mut i: usize = 1;
    assert(more.take(0) =~= Seq::<Seq<char>>::empty());
    while i < links.len()
        invariant
            1 <= i,
            i <= links@.len() || i == 1,
            texts(links@) == theirs@.links,
            more == cross_links(theirs@),
            note@ == (NoteView { links: united(before.links, more.take(i - 1)), ..before }),
            note@.links.len() >= before.links.len(),
            changed == (note@.links.len() > before.links.len()),
        decreases links@.len() - i,
    {
        assert(texts(links@)[i as int] == links@[i as int]@);
        assert(more[i - 1] == links@[i as int]@);
        assert(more.take(i as int).drop_last() =~= more.take(i - 1));
        assert(more.take(i as int).last() == more[i - 1]);
        if !has_link(note.links(), &links[i]) {
            note.add_link(links[i].clone());
            changed = true;
        }
        i = i + 1;
    }
    assert(more.take(i - 1) =~= more);
    changed
}

/// Merges the incoming notes into ours, for a draw that is the only one. Where both sides
/// have a note with the same ID and different content, one of them moves to the next
/// available ID: ours if `rename_head`, else theirs.
pub fn merge_note_vecs(head: Vec<Note>, theirs: Vec<Note>, rename_head: bool) -> (r: (
    Vec<Note>,
    Vec<MergeAction>,
))
    ensures
        arranged(merged(slips(head@), slips(theirs@), rename_head, Seq::empty()).0, slips(r.0@)),
        deeds(r.1@) == merged(slips(head@), slips(theirs@), rename_head, Seq::empty()).1,
{
    let nowhere: Vec<ID> = Vec::new();
    assert(texts(nowhere@) =~= Seq::<Seq<char>>::empty());
    merge_beside(head, theirs, rename_head, &nowhere)
}

/// Merges the incoming notes into ours, beside other draws that hold notes with the IDs
/// `elsewhere`: a note that gives way does not move to one of these.
pub fn merge_beside(
    head: Vec<Note>,
    theirs: Vec<Note>,
    rename_head: bool,
    elsewhere: &Vec<ID>,
) -> (r: (Vec<Note>, Vec<MergeAction>))
    ensures
        arranged(
            merged(slips(head@), slips(theirs@), rename_head, texts(elsewhere@)).0,
            slips(r.0@),
        ),
        deeds(r.1@) == merged(slips(head@), slips(theirs@), rename_head, texts(elsewhere@)).1,
{
    let ghost h = slips(head@);
    let ghost ts = slips(theirs@);
    let mut notes = head;
    let mut actions: Vec<MergeAction> = Vec::new();
    let mut rest = reversed(theirs);
    let ghost mut done: int = 0;
    proof {
        assert(slips(rest@).reverse() =~= ts);
        assert(ts.skip(0) =~= ts);
        assert(ts.take(0) =~= Seq::<NoteView>::empty());
        assert(deeds(actions@) =~= Seq::<Deed>::empty());
    }
    while rest.len() > 0
        invariant
            0 <= done <= ts.len(),
            slips(rest@).reverse() == ts.skip(done),
            merged(h, ts.take(done), rename_head, texts(elsewhere@)) == (slips(notes@), deeds(actions@)),
        decreases rest@.len(),
    {
        let ghost left = slips(rest@);
        if let Some(their_note) = rest.pop() {
            proof {
                assert(left.last() == their_note@);
                assert(left.reverse()[0] == their_note@);
                assert(ts.skip(done).len() == left.len());
                assert(ts.skip(done)[0] == ts[done]);
                assert(slips(rest@) =~= left.drop_last());
                assert(left.drop_last().reverse() =~= left.reverse().skip(1));
                assert(ts.skip(done).skip(1) =~= ts.skip(done + 1));
                assert(ts.take(done + 1).drop_last() =~= ts.take(done));
                assert(ts.take(done + 1).last() == ts[done]);
            }
            merge_one(&mut notes, &mut actions, their_note, rename_head, elsewhere);
            proof {
                done = done + 1;
            }
        }
    }
    assert(ts.take(done) =~= ts) by {
        assert(ts.skip(done).len() == 0);
    }
    (sort_notes(notes), actions)
}

/// Merges one incoming note.
fn merge_one(
    notes: &mut Vec<Note>,
    actions: &mut Vec<MergeAction>,
    their_note: Note,
    rename_head: bool,
    elsewhere: &Vec<ID>,
)
    ensures
        slips(final(notes)@) == merged_one(
            slips(old(notes)@),
            their_note@,
            rename_head,
            texts(elsewhere@),
        ).0,
        deeds(final(actions)@) == deeds(old(actions)@) + merged_one(
            slips(old(notes)@),
            their_note@,
            rename_head,
            texts(elsewhere@),
        ).1,
{
    let ghost m = slips(notes@);
    let ghost t = their_note@;
    let ghost d = deeds(actions@);
    let pos = note_position(notes, their_note.id());
    if pos == notes.len() {
        // Only in theirs: add it.
        actions.push(MergeAction::Added(their_note.id().clone()));
        notes.push(their_note);
        assert(deeds(actions@) =~= d + seq![Deed::Added(t.id)]);
        assert(slips(notes@) =~= m.push(t));
        return;
    }
    assert(m[pos as int] == notes@[pos as int]@);
    if notes[pos].says_the_same(&their_note) {
        // Same content; union the non-parent links.
        let changed = unite_links(&mut notes[pos], &their_note);
        assert(slips(notes@) =~= m.update(pos as int, with_links_of(m[pos as int], t)));
        if changed {
            actions.push(MergeAction::LinksMerged(their_note.id().clone()));
            assert(deeds(actions@) =~= d + seq![Deed::LinksMerged(t.id)]);
        } else {
            assert(d + Seq::<Deed>::empty() =~= d);
        }
        return;
    }
    let mut taken = ids_of(notes);
    push_ids(&mut taken, elsewhere);
    let new_id = next_available_id(their_note.id(), &taken);
    let ghost x = new_id@;
    actions.push(MergeAction::Renamed { original: their_note.id().clone(), renamed_to: new_id.clone() });
    assert(deeds(actions@) =~= d + seq![Deed::Renamed { original: t.id, renamed_to: x }]);
    if rename_head {
        // Keep theirs (upstream), rename head (ours).
        let head_note = notes.remove(pos);
        assert(slips(notes@) =~= m.remove(pos as int));
        notes.push(head_note.with_id(new_id));
        assert(slips(notes@) =~= m.remove(pos as int).push(NoteView { id: x, ..m[pos as int] }));
        notes.push(their_note);
        assert(slips(notes@) =~= m.remove(pos as int).push(NoteView { id: x, ..m[pos as int] }).push(t));
    } else {
        // Keep head, rename theirs.
        notes.push(their_note.with_id(new_id));
        assert(slips(notes@) =~= m.push(NoteView { id: x, ..t }));
    }
}

/// Puts IDs behind others.
fn push_ids(ids: &mut Vec<ID>, more: &Vec<ID>)
    ensures
        texts(final(ids)@) == texts(old(ids)@) + texts(more@),
{
    let ghost before = texts(ids@);
    let ghost s = texts(more@);
    assert(texts(ids@) =~= before + s.take(0));
    for i in 0..more.len()
        invariant
            s == texts(more@),
            texts(ids@) == before + s.take(i as int),
    {
        let ghost now = texts(ids@);
        ids.push(more[i].clone());
        assert(texts(ids@) =~= now.push(s[i as int]));
        assert(s.take(i + 1) =~= s.take(i as int).push(s[i as int]));
    }
    assert(s.take(more@.len() as int) =~= s);
}

/// Resolves a conflict in the file of draw `draw`, whose two sides hold `head` and
/// `theirs`, beside other draws that hold notes with the IDs `elsewhere`. Returns the
/// notes that the file is to hold, and what was done.
///
/// Resolution rules:
/// - Note only in incoming branch → added.
/// - Same ID, same content, different links → link lists unioned.
/// - Same ID, different content → remote version keeps the original ID; local version is
///   renamed to the next available sibling ID so both are preserved. Where no sibling is
///   available, it is renamed to the first available number below the last one.
/// - One side removes a note the other kept → the kept version wins.
pub fn merge_conflicts(draw: u32, head: Vec<Note>, theirs: Vec<Note>, elsewhere: &Vec<ID>) -> (r: (
    Vec<Note>,
    MergeReport,
))
    ensures
        arranged(merged(slips(head@), slips(theirs@), true, texts(elsewhere@)).0, slips(r.0@)),
        r.1.draw == draw,
        deeds(r.1.actions@) == merged(slips(head@), slips(theirs@), true, texts(elsewhere@)).1,
{
    let (notes, actions) = merge_beside(head, theirs, true, elsewhere);
    (notes, MergeReport { draw, actions })
}

/// `index` with every note of `notes` mapped to draw `num`.
pub open spec fn with_notes(index: Map<Seq<char>, u32>, num: u32, notes: Seq<NoteView>) -> Map<Seq<char>, u32>
    decreases notes.len(),
{
    if notes.len() == 0 {
        index
    } else {
        with_notes(index, num, notes.drop_last()).insert(notes.last().id, num)
    }
}

/// What lists of notes with the numbers of their draws hold.
pub open spec fn draw_lists(s: Seq<(u32, Vec<Note>)>) -> Seq<(u32, Seq<NoteView>)> {
    s.map_values(|d: (u32, Vec<Note>)| (d.0, slips(d.1@)))
}

/// The index of the notes in a list of draws; of two notes with one ID the later counts.
pub open spec fn index_of(draws: Seq<(u32, Seq<NoteView>)>) -> Map<Seq<char>, u32>
    decreases draws.len(),
{
    if draws.len() == 0 {
        Map::empty()
    } else {
        with_notes(index_of(draws.drop_last()), draws.last().0, draws.last().1)
    }
}

/// Rebuilds the index from the numbers and notes of all draws.
pub fn rebuild_index(draws: &Vec<(u32, Vec<Note>)>) -> (r: Index)
    ensures
        r.wf(),
        r@ == index_of(draw_lists(draws@)),
{
    let mut index = Index::new();
    let ghost lists = draw_lists(draws@);
    assert(lists.take(0) =~= Seq::<(u32, Seq<NoteView>)>::empty());
    for i in 0..draws.len()
        invariant
            index.wf(),
            lists == draw_lists(draws@),
            index@ == index_of(lists.take(i as int)),
    {
        let (num, notes) = &draws[i];
        let ghost before = index@;
        let ghost s = slips(notes@);
        assert(s.take(0) =~= Seq::<NoteView>::empty());
        for j in 0..notes.len()
            invariant
                index.wf(),
                s == slips(notes@),
                index@ == with_notes(before, *num, s.take(j as int)),
        {
            proof {
                assert(s[j as int] == notes@[j as int]@);
                assert(s.take(j + 1).drop_last() =~= s.take(j as int));
                assert(s.take(j + 1).last() == s[j as int]);
            }
            index.insert(notes[j].id().clone(), *num);
        }
        proof {
            assert(s.take(notes@.len() as int) =~= s);
            assert(lists.take(i + 1).drop_last() =~= lists.take(i as int));
            assert(lists.take(i + 1).last() == (*num, s));
        }
    }
    assert(lists.take(draws@.len() as int) =~= lists);
    index
}

// ── All draws ────────────────────────────────────────────────────────────────

/// A draw as its file was found: its notes or, where the file is in conflict, the notes of
/// our side and those of the incoming one.
#[derive(Debug)]
pub struct FoundDraw {
    pub num: u32,
    pub ours: Vec<Note>,
    pub theirs: Option<Vec<Note>>,
}

/// What a draw was found to hold.
#[verifier::ext_equal]
pub struct FoundView {
    pub num: u32,
    pub ours: Seq<NoteView>,
    pub theirs: Option<Seq<NoteView>>,
}

impl View for FoundDraw {
    type V = FoundView;

    open spec fn view(&self) -> FoundView {
        FoundView {
            num: self.num,
            ours: slips(self.ours@),
            theirs: match self.theirs {
                Some(t) => Some(slips(t@)),
                None => None,
            },
        }
    }
}

/// What draws were found to hold.
pub open spec fn found_views(s: Seq<FoundDraw>) -> Seq<FoundView> {
    s.map_values(|f: FoundDraw| f@)
}

/// The IDs on both sides of a draw.
pub open spec fn found_ids(f: FoundView) -> Seq<Seq<char>> {
    match f.theirs {
        Some(t) => ids(f.ours) + ids(t),
        None => ids(f.ours),
    }
}

/// The IDs on both sides of all draws.
pub open spec fn ids_found(s: Seq<FoundView>) -> Seq<Seq<char>>
    decreases s.len(),
{
    if s.len() == 0 {
        Seq::empty()
    } else {
        ids_found(s.drop_last()) + found_ids(s.last())
    }
}

/// The IDs of the notes in all draws.
pub open spec fn ids_held(s: Seq<(u32, Seq<NoteView>)>) -> Seq<Seq<char>>
    decreases s.len(),
{
    if s.len() == 0 {
        Seq::empty()
    } else {
        ids_held(s.drop_last()) + ids(s.last().1)
    }
}

/// The IDs that are taken beside the `i`-th draw: by what the draws before it have come
/// to, and by both sides of the draws behind it.
pub open spec fn ids_beside(
    found: Seq<FoundView>,
    done: Seq<(u32, Seq<NoteView>)>,
    i: int,
) -> Seq<Seq<char>> {
    ids_held(done.take(i)) + ids_found(found.skip(i + 1))
}

/// What a draw comes to beside other draws with the IDs `beside`: a draw in conflict to
/// its two sides merged, in order, with ours giving way; another one stays as it is.
pub open spec fn comes_to(f: FoundView, beside: Seq<Seq<char>>, after: (u32, Seq<NoteView>)) -> bool {
    &&& after.0 == f.num
    &&& match f.theirs {
        Some(t) => arranged(merged(f.ours, t, true, beside).0, after.1),
        None => after.1 == f.ours,
    }
}

/// `done` is what the draws come to, one after the other.
pub open spec fn all_come_to(found: Seq<FoundView>, done: Seq<(u32, Seq<NoteView>)>) -> bool {
    &&& done.len() == found.len()
    &&& forall|i: int|
        0 <= i < found.len() ==> comes_to(found[i], ids_beside(found, done, i), #[trigger] done[i])
}

/// What was done in the first `n` draws: a report for each that is in conflict.
pub open spec fn reports_of(
    found: Seq<FoundView>,
    done: Seq<(u32, Seq<NoteView>)>,
    n: int,
) -> Seq<(u32, Seq<Deed>)>
    decreases n,
{
    if n <= 0 {
        Seq::empty()
    } else {
        let f = found[n - 1];
        let before = reports_of(found, done, n - 1);
        match f.theirs {
            Some(t) => before.push((f.num, merged(f.ours, t, true, ids_beside(found, done, n - 1)).1)),
            None => before,
        }
    }
}

/// What reports say.
pub open spec fn report_views(s: Seq<MergeReport>) -> Seq<(u32, Seq<Deed>)> {
    s.map_values(|r: MergeReport| (r.draw, deeds(r.actions@)))
}

/// Reports of the first draws do not depend on what comes behind.
proof fn lemma_reports_of(
    found: Seq<FoundView>,
    a: Seq<(u32, Seq<NoteView>)>,
    b: Seq<(u32, Seq<NoteView>)>,
    n: int,
)
    requires
        n <= a.len(),
        n <= b.len(),
        a.take(n) == b.take(n),
    ensures
        reports_of(found, a, n) == reports_of(found, b, n),
    decreases n,
{
    if n > 0 {
        assert(a.take(n).take(n - 1) =~= a.take(n - 1));
        assert(b.take(n).take(n - 1) =~= b.take(n - 1));
        lemma_reports_of(found, a, b, n - 1);
    }
}

/// The IDs that are taken by `done` and by both sides of `rest`.
fn taken_beside(done: &Vec<(u32, Vec<Note>)>, rest: &Vec<FoundDraw>) -> (r: Vec<ID>)
    ensures
        texts(r@) == ids_held(draw_lists(done@)) + ids_found(found_views(rest@)),
{
    let ghost lists = draw_lists(done@);
    let ghost views = found_views(rest@);
    let mut r: Vec<ID> = Vec::new();
    assert(texts(r@) =~= ids_held(lists.take(0)));
    for i in 0..done.len()
        invariant
            lists == draw_lists(done@),
            texts(r@) == ids_held(lists.take(i as int)),
    {
        let (_, notes) = &done[i];
        proof {
            assert(lists.take(i + 1).drop_last() =~= lists.take(i as int));
            assert(lists.take(i + 1).last() == lists[i as int]);
            assert(lists[i as int].1 == slips(notes@));
        }
        push_ids(&mut r, &ids_of(notes));
    }
    assert(lists.take(done@.len() as int) =~= lists);
    let ghost before = texts(r@);
    assert(texts(r@) =~= before + ids_found(views.take(0)));
    for i in 0..rest.len()
        invariant
            views == found_views(rest@),
            texts(r@) == before + ids_found(views.take(i as int)),
    {
        let f = &rest[i];
        proof {
            assert(views.take(i + 1).drop_last() =~= views.take(i as int));
            assert(views.take(i + 1).last() == views[i as int]);
            assert(views[i as int] == f@);
        }
        push_ids(&mut r, &ids_of(&f.ours));
        if let Some(theirs) = &f.theirs {
            push_ids(&mut r, &ids_of(theirs));
        }
        assert(texts(r@) =~= before + (ids_found(views.take(i as int)) + found_ids(views[i as int])));
    }
    assert(views.take(rest@.len() as int) =~= views);
    r
}

/// Resolves the conflicts in all draw files, one after the other: what each draw comes to,
/// and what was done. A note that gives way does not move to an ID that a note in another
/// draw has, on either side.
pub fn resolve_draws(found: Vec<FoundDraw>) -> (r: (Vec<(u32, Vec<Note>)>, Vec<MergeReport>))
    ensures
        all_come_to(found_views(found@), draw_lists(r.0@)),
        report_views(r.1@) == reports_of(
            found_views(found@),
            draw_lists(r.0@),
            found@.len() as int,
        ),
{
    let ghost all = found_views(found@);
    let mut rest = found;
    let mut done: Vec<(u32, Vec<Note>)> = Vec::new();
    let mut reports: Vec<MergeReport> = Vec::new();
    proof {
        assert(all.skip(0) =~= all);
        assert(report_views(reports@) =~= Seq::<(u32, Seq<Deed>)>::empty());
    }
    while rest.len() > 0
        invariant
            done@.len() + rest@.len() == all.len(),
            found_views(rest@) == all.skip(done@.len() as int),
            forall|k: int|
                0 <= k < done@.len() ==> comes_to(
                    all[k],
                    ids_beside(all, draw_lists(done@), k),
                    #[trigger] draw_lists(done@)[k],
                ),
            report_views(reports@) == reports_of(all, draw_lists(done@), done@.len() as int),
        decreases rest@.len(),
    {
        let ghost i = done@.len() as int;
        let ghost before = draw_lists(done@);
        let ghost told = report_views(reports@);
        let ghost left = found_views(rest@);
        let f = rest.remove(0);
        let ghost v = f@;
        let num = f.num;
        proof {
            assert(left[0] == v);
            assert(all.skip(i)[0] == all[i]);
            assert(found_views(rest@) =~= left.skip(1));
            assert(all.skip(i).skip(1) =~= all.skip(i + 1));
        }
        match f.theirs {
            None => {
                done.push((num, f.ours));
            },
            Some(theirs) => {
                let beside = taken_beside(&done, &rest);
                let (notes, report) = merge_conflicts(num, f.ours, theirs, &beside);
                let ghost entry = (report.draw, deeds(report.actions@));
                done.push((num, notes));
                reports.push(report);
                assert(report_views(reports@) =~= told.push(entry));
            },
        }
        proof {
            let after = draw_lists(done@);
            assert(after.take(i) =~= before);
            assert(before.take(i) =~= before);
            lemma_reports_of(all, before, after, i);
            assert forall|k: int| 0 <= k < done@.len() implies comes_to(
                all[k],
                ids_beside(all, after, k),
                #[trigger] after[k],
            ) by {
                assert(after.take(k) =~= before.take(k));
                if k < i {
                    assert(after[k] == before[k]);
                }
            }
        }
    }
    (done, reports)
}

/// The pairs of texts of a list of pairs of IDs.
pub open spec fn pairs(s: Seq<(ID, ID)>) -> Seq<(Seq<char>, Seq<char>)> {
    s.map_values(|p: (ID, ID)| (p.0@, p.1@))
}

/// The renames among some deeds: the original ID and the new one.
pub open spec fn renames_in(s: Seq<Deed>) -> Seq<(Seq<char>, Seq<char>)>
    decreases s.len(),
{
    if s.len() == 0 {
        Seq::empty()
    } else {
        let before = renames_in(s.drop_last());
        match s.last() {
            Deed::Renamed { original, renamed_to } => before.push((original, renamed_to)),
            _ => before,
        }
    }
}

/// The renames of all reports, in order.
pub open spec fn all_renames(reports: Seq<MergeReport>) -> Seq<(Seq<char>, Seq<char>)>
    decreases reports.len(),
{
    if reports.len() == 0 {
        Seq::empty()
    } else {
        all_renames(reports.drop_last()) + renames_in(deeds(reports.last().actions@))
    }
}

/// The renames that were made: the original ID and the new one, in order.
pub fn renames(reports: &Vec<MergeReport>) -> (r: Vec<(ID, ID)>)
    ensures
        pairs(r@) == all_renames(reports@),
{
    let mut r: Vec<(ID, ID)> = Vec::new();
    assert(pairs(r@) =~= all_renames(reports@.take(0)));
    for i in 0..reports.len()
        invariant
            pairs(r@) == all_renames(reports@.take(i as int)),
    {
        let actions = &reports[i].actions;
        let ghost before = pairs(r@);
        let ghost d = deeds(actions@);
        assert(before + renames_in(d.take(0)) =~= before);
        for j in 0..actions.len()
            invariant
                d == deeds(actions@),
                pairs(r@) == before + renames_in(d.take(j as int)),
        {
            let ghost now = pairs(r@);
            proof {
                assert(d[j as int] == actions@[j as int]@);
                assert(d.take(j + 1).drop_last() =~= d.take(j as int));
                assert(d.take(j + 1).last() == d[j as int]);
            }
            if let MergeAction::Renamed { original, renamed_to } = &actions[j] {
                r.push((original.clone(), renamed_to.clone()));
                assert(pairs(r@) =~= now.push((original@, renamed_to@)));
                assert(pairs(r@) =~= before + renames_in(d.take(j + 1)));
            }
        }
        proof {
            assert(d.take(actions@.len() as int) =~= d);
            assert(reports@.take(i + 1).drop_last() =~= reports@.take(i as int));
            assert(reports@.take(i + 1).last() == reports@[i as int]);
        }
    }
    assert(reports@.take(reports@.len() as int) =~= reports@);
    r
}

} // verus!
