//! What searching and listing come to, place by place.

use crate::id::parent_text;
use crate::model::{
    child_of, cross_links, heading, headline_hit, hit, holding, holding_current, linking_to,
    lowercase, not_heading, picked, ranked, superseded_in, superseded_list,
};
use crate::note::NoteView;
use crate::query::rank_of_match;
use crate::report::{entry_text, listing, shown_in_list};
use crate::text::{contains_text, first_line};
use crate::text_laws::{law_contains_text, spells};
use vstd::prelude::*;

verus! {

// ── Notes by their places ────────────────────────────────────────────────────

/// `r` has the notes that stand at the places `at` of `s`, each place once.
pub open spec fn taken_from(r: Seq<NoteView>, s: Seq<NoteView>, at: Seq<int>) -> bool {
    &&& at.len() == r.len()
    &&& forall|k: int| 0 <= k < at.len() ==> 0 <= #[trigger] at[k] < s.len() && r[k] == s[at[k]]
    &&& forall|k: int, l: int| 0 <= k < l < at.len() ==> #[trigger] at[k] != #[trigger] at[l]
}

/// The places rise.
pub open spec fn rising_places(at: Seq<int>) -> bool {
    forall|k: int, l: int| 0 <= k < l < at.len() ==> #[trigger] at[k] < #[trigger] at[l]
}

/// `at` has just the places of the notes that `keep` holds of.
pub open spec fn covers(at: Seq<int>, s: Seq<NoteView>, keep: spec_fn(NoteView) -> bool) -> bool {
    forall|i: int| 0 <= i < s.len() ==> (#[trigger] at.contains(i) <==> keep(s[i]))
}

/// Picking keeps the notes that are asked for, all of them, once each, in their order.
pub proof fn law_picked_places(s: Seq<NoteView>, keep: spec_fn(NoteView) -> bool) -> (at: Seq<int>)
    ensures
        taken_from(picked(s, keep), s, at),
        rising_places(at),
        covers(at, s, keep),
    decreases s.len(),
{
    if s.len() == 0 {
        Seq::empty()
    } else {
        let t = s.drop_last();
        let n = t.len() as int;
        let a = law_picked_places(t, keep);
        let p = picked(t, keep);
        let at = if keep(s.last()) {
            a.push(n)
        } else {
            a
        };
        let r = picked(s, keep);
        assert forall|k: int| 0 <= k < at.len() implies 0 <= #[trigger] at[k] < s.len() && r[k] == s[at[k]] by {
            if k < a.len() {
                assert(a[k] == at[k]);
                assert(p[k] == t[a[k]]);
            }
        }
        assert forall|k: int, l: int| 0 <= k < l < at.len() implies #[trigger] at[k] < #[trigger] at[l] by {
            assert(a[k] == at[k]);
            if l < a.len() {
                assert(a[l] == at[l]);
            }
        }
        assert forall|i: int| 0 <= i < s.len() implies (#[trigger] at.contains(i) <==> keep(s[i])) by {
            if i < n {
                assert(t[i] == s[i]);
                assert(a.contains(i) <==> keep(t[i]));
                if a.contains(i) {
                    let k = choose|k: int| 0 <= k < a.len() && a[k] == i;
                    assert(at[k] == i);
                }
                if at.contains(i) {
                    let k = choose|k: int| 0 <= k < at.len() && at[k] == i;
                    assert(k < a.len());
                    assert(a[k] == i);
                }
            } else {
                if keep(s.last()) {
                    assert(at[a.len() as int] == n);
                } else if at.contains(i) {
                    let k = choose|k: int| 0 <= k < at.len() && at[k] == i;
                    assert(a[k] < t.len());
                }
            }
        }
        at
    }
}

// ── Searching ────────────────────────────────────────────────────────────────

/// The note's content, letter case aside, spells the query from some place on.
pub open spec fn says(n: NoteView, query: Seq<char>) -> bool {
    exists|at: int| #[trigger] spells(lowercase(n.content), lowercase(query), at)
}

/// The note's first line, letter case aside, spells the query from some place on.
pub open spec fn headline_says(n: NoteView, query: Seq<char>) -> bool {
    exists|at: int| #[trigger] spells(lowercase(first_line(n.content)), lowercase(query), at)
}

/// Some note in `all` names the ID as the one it supersedes.
pub open spec fn outdated_in(all: Seq<NoteView>, id: Seq<char>) -> bool {
    exists|i: int| 0 <= i < all.len() && (#[trigger] all[i]).supersedes == Some(id)
}

/// A list ranked from the kept notes: their places, those with the query in the headline
/// first, else in their order.
proof fn lemma_ranked_places(
    all: Seq<NoteView>,
    keep: spec_fn(NoteView) -> bool,
    query: Seq<char>,
) -> (at: Seq<int>)
    ensures
        taken_from(ranked(picked(all, keep), query), all, at),
        covers(at, all, keep),
        forall|k: int, l: int|
            0 <= k < l < at.len() ==> {
                let a = headline_hit(all[#[trigger] at[k]], query);
                let b = headline_hit(all[#[trigger] at[l]], query);
                a && !b || a == b && at[k] < at[l]
            },
{
    let hits = picked(all, keep);
    let p = law_picked_places(all, keep);
    let q1 = law_picked_places(hits, heading(query));
    let q2 = law_picked_places(hits, not_heading(query));
    let q = q1 + q2;
    let at = Seq::new(q.len(), |k: int| p[q[k]]);
    let r = ranked(hits, query);
    let r1 = picked(hits, heading(query));
    let r2 = picked(hits, not_heading(query));
    assert forall|k: int| 0 <= k < q.len() implies 0 <= #[trigger] q[k] < hits.len() && r[k] == hits[q[k]]
        && (headline_hit(hits[q[k]], query) <==> k < q1.len()) by {
        if k < q1.len() {
            assert(q[k] == q1[k]);
            assert(r[k] == r1[k]);
            assert(q1.contains(q1[k]));
        } else {
            assert(q[k] == q2[k - q1.len()]);
            assert(r[k] == r2[k - q1.len()]);
            assert(q2.contains(q2[k - q1.len()]));
        }
    }
    assert forall|k: int| 0 <= k < at.len() implies 0 <= #[trigger] at[k] < all.len() && r[k] == all[at[k]] by {
        assert(0 <= q[k] < hits.len());
        assert(0 <= p[q[k]] < all.len());
    }
    assert forall|k: int, l: int| 0 <= k < l < at.len() implies {
        let a = headline_hit(all[#[trigger] at[k]], query);
        let b = headline_hit(all[#[trigger] at[l]], query);
        (a && !b || a == b && at[k] < at[l]) && at[k] != at[l]
    } by {
        assert(0 <= q[k] < hits.len() && 0 <= q[l] < hits.len());
        assert(hits[q[k]] == all[p[q[k]]] && hits[q[l]] == all[p[q[l]]]);
        if l < q1.len() {
            assert(q1[k] < q1[l]);
            assert(p[q[k]] < p[q[l]]);
        } else if k >= q1.len() {
            assert(q2[k - q1.len()] < q2[l - q1.len()]);
            assert(p[q[k]] < p[q[l]]);
        }
    }
    assert forall|i: int| 0 <= i < all.len() implies (#[trigger] at.contains(i) <==> keep(all[i])) by {
        assert(p.contains(i) <==> keep(all[i]));
        if at.contains(i) {
            let k = choose|k: int| 0 <= k < at.len() && at[k] == i;
            assert(0 <= q[k] < hits.len());
            assert(p[q[k]] == i);
        }
        if p.contains(i) {
            let j = choose|j: int| 0 <= j < p.len() && p[j] == i;
            assert(q1.contains(j) <==> heading(query)(hits[j]));
            assert(q2.contains(j) <==> not_heading(query)(hits[j]));
            if q1.contains(j) {
                let k = choose|k: int| 0 <= k < q1.len() && q1[k] == j;
                assert(q[k] == j);
                assert(at[k] == i);
            } else {
                let k = choose|k: int| 0 <= k < q2.len() && q2[k] == j;
                assert(q[q1.len() + k] == j);
                assert(at[q1.len() + k] == i);
            }
        }
    }
    at
}

/// `r` is what a search among the notes at the places `at` of `all` gives: those whose
/// headline spells the query before the others, else in their order.
pub open spec fn headlines_lead(all: Seq<NoteView>, query: Seq<char>, at: Seq<int>) -> bool {
    forall|k: int, l: int|
        0 <= k < l < at.len() ==> {
            let a = headline_says(all[#[trigger] at[k]], query);
            let b = headline_says(all[#[trigger] at[l]], query);
            a && !b || a == b && at[k] < at[l]
        }
}

/// A search through all notes gives each note once whose content spells the query, letter
/// case aside, and no other, whatever characters the query has; those that spell it in
/// their first line come first, and else the order stays.
pub proof fn law_search_through_all(all: Seq<NoteView>, query: Seq<char>) -> (at: Seq<int>)
    ensures
        taken_from(ranked(picked(all, holding(query)), query), all, at),
        forall|i: int| 0 <= i < all.len() ==> (#[trigger] at.contains(i) <==> says(all[i], query)),
        headlines_lead(all, query, at),
{
    let at = lemma_ranked_places(all, holding(query), query);
    assert forall|i: int| 0 <= i < all.len() implies (#[trigger] at.contains(i) <==> says(all[i], query)) by {
        law_contains_text(lowercase(all[i].content), lowercase(query));
    }
    lemma_headlines(all, query, at);
    at
}

/// A plain search gives in the same way each note once whose content spells the query and
/// that no note supersedes.
pub proof fn law_search_through_current(all: Seq<NoteView>, query: Seq<char>) -> (at: Seq<int>)
    ensures
        taken_from(ranked(picked(all, holding_current(query, all)), query), all, at),
        forall|i: int|
            0 <= i < all.len() ==> (#[trigger] at.contains(i) <==> says(all[i], query) && !outdated_in(
                all,
                all[i].id,
            )),
        headlines_lead(all, query, at),
{
    let at = lemma_ranked_places(all, holding_current(query, all), query);
    assert forall|i: int| 0 <= i < all.len() implies (#[trigger] at.contains(i) <==> says(all[i], query)
        && !outdated_in(all, all[i].id)) by {
        law_contains_text(lowercase(all[i].content), lowercase(query));
        law_outdated(all, all[i].id);
    }
    lemma_headlines(all, query, at);
    at
}

/// The rank that headlines give, by what they spell.
proof fn lemma_headlines(all: Seq<NoteView>, query: Seq<char>, at: Seq<int>)
    requires
        forall|k: int, l: int|
            0 <= k < l < at.len() ==> {
                let a = headline_hit(all[#[trigger] at[k]], query);
                let b = headline_hit(all[#[trigger] at[l]], query);
                a && !b || a == b && at[k] < at[l]
            },
    ensures
        headlines_lead(all, query, at),
{
    assert forall|k: int, l: int| 0 <= k < l < at.len() implies {
        let a = headline_says(all[#[trigger] at[k]], query);
        let b = headline_says(all[#[trigger] at[l]], query);
        a && !b || a == b && at[k] < at[l]
    } by {
        law_contains_text(lowercase(first_line(all[at[k]].content)), lowercase(query));
        law_contains_text(lowercase(first_line(all[at[l]].content)), lowercase(query));
    }
}

/// An ID is superseded just where some note names it as the one that it supersedes.
pub proof fn law_outdated(all: Seq<NoteView>, id: Seq<char>)
    ensures
        superseded_in(all, id) <==> outdated_in(all, id),
{
}

/// A match in the headline ranks before one further down, and both before none.
pub proof fn law_match_ranks(content: Seq<char>, title: Seq<char>, query: Seq<char>)
    ensures
        rank_of_match(content, title, query) is Some <==> exists|at: int| #[trigger] spells(content, query, at),
        rank_of_match(content, title, query) matches Some(k) ==> k == (if exists|at: int| #[trigger]
            spells(title, query, at) {
            0u8
        } else {
            1u8
        }),
{
    law_contains_text(content, query);
    law_contains_text(title, query);
}

/// The IDs that are superseded, each once, in the order in which they are first named.
pub proof fn law_superseded_list(s: Seq<NoteView>)
    ensures
        superseded_list(s).no_duplicates(),
        forall|x: Seq<char>| #[trigger] superseded_list(s).contains(x) <==> outdated_in(s, x),
        forall|i: int| 0 <= i < s.len() ==> superseded_list(#[trigger] s.take(i)).is_prefix_of(
            superseded_list(s),
        ),
    decreases s.len(),
{
    if s.len() > 0 {
        let t = s.drop_last();
        let n = t.len() as int;
        law_superseded_list(t);
        let before = superseded_list(t);
        let now = superseded_list(s);
        assert(now == before || now == before.push(s.last().supersedes.unwrap()));
        assert(before.is_prefix_of(now)) by {
            assert(before =~= now.subrange(0, before.len() as int));
        }
        assert forall|x: Seq<char>| #[trigger] now.contains(x) <==> outdated_in(s, x) by {
            assert(before.contains(x) <==> outdated_in(t, x));
            if outdated_in(t, x) {
                let i = choose|i: int| 0 <= i < t.len() && (#[trigger] t[i]).supersedes == Some(x);
                assert(s[i] == t[i]);
            }
            if outdated_in(s, x) && s.last().supersedes != Some(x) {
                let i = choose|i: int| 0 <= i < s.len() && (#[trigger] s[i]).supersedes == Some(x);
                assert(t[i] == s[i]);
            }
            if s.last().supersedes == Some(x) {
                assert(s[n].supersedes == Some(x));
                if !before.contains(x) {
                    assert(now[before.len() as int] == x);
                }
            }
            if before.contains(x) {
                let k = choose|k: int| 0 <= k < before.len() && before[k] == x;
                assert(now[k] == x);
            }
            if now.contains(x) && !before.contains(x) {
                let k = choose|k: int| 0 <= k < now.len() && now[k] == x;
                if k < before.len() {
                    assert(before[k] == x);
                }
            }
        }
        assert forall|i: int| 0 <= i < s.len() implies superseded_list(#[trigger] s.take(i)).is_prefix_of(now) by {
            if i == n {
                assert(s.take(i) =~= t);
            } else {
                assert(s.take(i) =~= t.take(i));
                let a = superseded_list(t.take(i));
                assert(a.is_prefix_of(before));
                assert forall|k: int| 0 <= k < a.len() implies a[k] == now[k] by {
                    assert(before.subrange(0, a.len() as int)[k] == a[k]);
                    assert(now.subrange(0, before.len() as int)[k] == before[k]);
                }
                assert(a =~= now.subrange(0, a.len() as int));
            }
        }
    }
}

// ── Children, backlinks, lists ───────────────────────────────────────────────

/// The children of an ID are the notes whose parent it is, all of them, once each and in
/// their order; a root is no child of itself.
pub proof fn law_children_places(all: Seq<NoteView>, id: Seq<char>) -> (at: Seq<int>)
    ensures
        taken_from(picked(all, child_of(id)), all, at),
        rising_places(at),
        forall|i: int|
            0 <= i < all.len() ==> (#[trigger] at.contains(i) <==> all[i].id != id && parent_text(all[i].id) == id),
{
    let at = law_picked_places(all, child_of(id));
    assert forall|i: int| 0 <= i < all.len() implies (#[trigger] at.contains(i) <==> all[i].id != id
        && parent_text(all[i].id) == id) by {
        assert(at.contains(i) <==> child_of(id)(all[i]));
    }
    at
}

/// The backlinks of an ID are the notes that link to it behind their first link, all of
/// them, once each and in their order.
pub proof fn law_backlinks_places(all: Seq<NoteView>, id: Seq<char>) -> (at: Seq<int>)
    ensures
        taken_from(picked(all, linking_to(id)), all, at),
        rising_places(at),
        forall|i: int|
            0 <= i < all.len() ==> (#[trigger] at.contains(i) <==> exists|l: int|
                1 <= l < all[i].links.len() && #[trigger] all[i].links[l] == id),
{
    let at = law_picked_places(all, linking_to(id));
    assert forall|i: int| 0 <= i < all.len() implies (#[trigger] at.contains(i) <==> exists|l: int|
        1 <= l < all[i].links.len() && #[trigger] all[i].links[l] == id) by {
        let n = all[i];
        assert(at.contains(i) <==> linking_to(id)(n));
        law_cross_links(n);
        let c = cross_links(n);
        if c.contains(id) {
            let k = choose|k: int| 0 <= k < c.len() && c[k] == id;
            assert(n.links[k + 1] == id);
        }
        if exists|l: int| 1 <= l < n.links.len() && #[trigger] n.links[l] == id {
            let l = choose|l: int| 1 <= l < n.links.len() && #[trigger] n.links[l] == id;
            assert(c[l - 1] == id);
        }
    }
    at
}

/// The cross-links of a note are its links but for the first.
pub proof fn law_cross_links(n: NoteView)
    ensures
        n.links.len() == 0 ==> cross_links(n).len() == 0,
        n.links.len() > 0 ==> cross_links(n).len() == n.links.len() - 1,
        forall|l: int| 1 <= l < n.links.len() ==> cross_links(n)[l - 1] == #[trigger] n.links[l],
{
}

/// A list of notes has a line for each note that is not superseded, or for every note,
/// in order: the ID, a space, the first line of the content.
pub proof fn law_list_lines(all: Seq<NoteView>, show_all: bool) -> (at: Seq<int>)
    ensures
        at.len() == listing(picked(all, shown_in_list(all, show_all))).len(),
        rising_places(at),
        forall|i: int|
            0 <= i < all.len() ==> (#[trigger] at.contains(i) <==> show_all || !outdated_in(all, all[i].id)),
        forall|k: int|
            0 <= k < at.len() ==> 0 <= #[trigger] at[k] < all.len() && listing(
                picked(all, shown_in_list(all, show_all)),
            )[k] == all[at[k]].id + seq![' '] + first_line(all[at[k]].content),
{
    let keep = shown_in_list(all, show_all);
    let at = law_picked_places(all, keep);
    assert forall|i: int| 0 <= i < all.len() implies (#[trigger] at.contains(i) <==> show_all || !outdated_in(
        all,
        all[i].id,
    )) by {
        assert(at.contains(i) <==> keep(all[i]));
        law_outdated(all, all[i].id);
    }
    assert forall|k: int| 0 <= k < at.len() implies 0 <= #[trigger] at[k] < all.len() && listing(
        picked(all, keep),
    )[k] == all[at[k]].id + seq![' '] + first_line(all[at[k]].content) by {
        law_entry_line(all[at[k]]);
    }
    at
}

/// The line that stands for a note: its ID, a space, its first line.
pub proof fn law_entry_line(n: NoteView)
    ensures
        entry_text(n) == n.id + seq![' '] + first_line(n.content),
{
    reveal_strlit(" ");
    assert(" "@ =~= seq![' ']);
}

/// Whether a text holds another does not hang on the letters around it.
pub proof fn law_longer_text_holds_it_too(before: Seq<char>, hay: Seq<char>, after: Seq<char>, needle: Seq<char>)
    requires
        contains_text(hay, needle),
    ensures
        contains_text(before + hay + after, needle),
{
    law_contains_text(hay, needle);
    let at = choose|at: int| #[trigger] spells(hay, needle, at);
    let whole = before + hay + after;
    assert(spells(whole, needle, before.len() + at)) by {
        assert forall|k: int| 0 <= k < needle.len() implies whole[before.len() + at + k] == #[trigger] needle[k] by {
            assert(hay[at + k] == needle[k]);
        }
    }
    law_contains_text(whole, needle);
}

/// The note's content and headline as a search reads them.
pub proof fn law_search_reads_content(n: NoteView, query: Seq<char>)
    ensures
        hit(n, query) <==> says(n, query),
        headline_hit(n, query) <==> headline_says(n, query),
{
    law_contains_text(lowercase(n.content), lowercase(query));
    law_contains_text(lowercase(first_line(n.content)), lowercase(query));
}

} // verus!
