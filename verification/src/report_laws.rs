//! What the program says and how it reads its arguments, word by word.

use crate::clock::{utc_text, Timestamp};
use crate::commands::{message_in, spaced, tree_choice, without};
use crate::merge::{all_renames, deeds, renames_in, Deed, MergeReport};
use crate::model::Refusal;
use crate::note::NoteView;
use crate::numeral::{decimal, parsed};
use crate::report::{comma_joined, deed_text, description, hint_text, line_if, merge_text};
use crate::store::refusal_text;
use vstd::prelude::*;

verus! {

// ── Reports ──────────────────────────────────────────────────────────────────

/// How many lines a note is shown in: three always, and one each for what it supersedes,
/// what supersedes it, and its links.
pub open spec fn shown_lines(n: NoteView, newer: Option<Seq<char>>) -> int {
    3 + (if n.supersedes is Some {
        1int
    } else {
        0
    }) + (if newer is Some {
        1int
    } else {
        0
    }) + (if n.links.len() > 0 {
        1int
    } else {
        0
    })
}

/// A note is shown with its ID, its date and its content, and then with what it supersedes,
/// what supersedes it, and all its links, where there are any, in this order.
pub proof fn law_shown_note(n: NoteView, when: Seq<char>, newer: Option<Seq<char>>)
    ensures
        ({
            let d = description(n, when, newer);
            let a = if n.supersedes is Some {
                4int
            } else {
                3
            };
            let b = if newer is Some {
                a + 1
            } else {
                a
            };
            &&& d.len() == shown_lines(n, newer)
            &&& d[0] == "ID:      "@ + n.id
            &&& d[1] == "Created: "@ + when
            &&& d[2] == "Content: "@ + n.content
            &&& n.supersedes matches Some(x) ==> d[3] == "Supersedes: "@ + x
            &&& newer matches Some(x) ==> d[a] == "Superseded by: "@ + x
            &&& n.links.len() > 0 ==> d[b] == "Links:   "@ + comma_joined(n.links)
        }),
{
    let first = seq!["ID:      "@ + n.id, "Created: "@ + when, "Content: "@ + n.content];
    let two = line_if("Supersedes: "@, n.supersedes);
    let three = line_if("Superseded by: "@, newer);
    assert(description(n, when, newer).take(3) =~= first);
    assert(description(n, when, newer)[0] == first[0]);
    assert(description(n, when, newer)[1] == first[1]);
    assert(description(n, when, newer)[2] == first[2]);
    assert(two.len() <= 1 && three.len() <= 1);
}

/// A moment is shown by its seconds and nanoseconds, year first, down to the second, in UTC.
pub proof fn law_shown_date(at: Timestamp)
    ensures
        at.shown() == utc_text(at.secs, at.nanos, "%Y-%m-%d %H:%M:%S UTC"@),
{
}

/// Texts in a row: one more goes behind a comma and a space.
pub proof fn law_comma_joined(s: Seq<Seq<char>>, x: Seq<char>)
    ensures
        comma_joined(Seq::<Seq<char>>::empty()).len() == 0,
        s.len() == 0 ==> comma_joined(s.push(x)) == x,
        s.len() > 0 ==> comma_joined(s.push(x)) == comma_joined(s) + seq![',', ' '] + x,
{
    reveal_strlit(", ");
    assert(", "@ =~= seq![',', ' ']);
    assert(s.push(x).drop_last() =~= s);
}

/// The line of an action.
pub proof fn law_action_line(a: Seq<char>, b: Seq<char>)
    ensures
        deed_text(Deed::Added(a)) == "  added   "@ + a,
        deed_text(Deed::LinksMerged(a)) == "  links   "@ + a + " (merged)"@,
        deed_text(Deed::Renamed { original: a, renamed_to: b }) == "  renamed "@ + a + " → "@ + b,
{
}

/// A report more is a line with the number of its draw and then a line for each action, in
/// order.
pub proof fn law_report_lines(reports: Seq<MergeReport>, r: MergeReport)
    ensures
        merge_text(Seq::<MergeReport>::empty()).len() == 0,
        ({
            let before = merge_text(reports);
            let now = merge_text(reports.push(r));
            &&& now.len() == before.len() + 1 + r.actions@.len()
            &&& forall|i: int| 0 <= i < before.len() ==> #[trigger] now[i] == before[i]
            &&& now[before.len() as int] == "draw "@ + decimal(r.draw as nat) + ":"@
            &&& forall|k: int|
                0 <= k < r.actions@.len() ==> now[before.len() + 1 + k] == deed_text((#[trigger] r.actions@[k])@)
        }),
{
    assert(reports.push(r).drop_last() =~= reports);
}

/// The renames of one report more go behind those of the others.
pub proof fn law_all_renames(reports: Seq<MergeReport>, r: MergeReport)
    ensures
        all_renames(Seq::<MergeReport>::empty()).len() == 0,
        all_renames(reports.push(r)) == all_renames(reports) + renames_in(deeds(r.actions@)),
        forall|k: int| 0 <= k < r.actions@.len() ==> deeds(r.actions@)[k] == (#[trigger] r.actions@[k])@,
        deeds(r.actions@).len() == r.actions@.len(),
{
    assert(reports.push(r).drop_last() =~= reports);
}

/// The hint counts the commits that are ahead, and one for changes that are not committed;
/// with nothing to count there is none.
pub proof fn law_hint(dirty: bool, ahead: nat, n: nat)
    requires
        n == ahead + (if dirty {
            1nat
        } else {
            0
        }),
    ensures
        hint_text(dirty, ahead) is None <==> !dirty && ahead == 0,
        n == 1 ==> hint_text(dirty, ahead) == Some("hint: "@ + decimal(1) + " local change"@ + " not synced. Run 'luze sync'"@),
        n > 1 ==> hint_text(dirty, ahead) == Some(
            "hint: "@ + decimal(n) + " local changes"@ + " not synced. Run 'luze sync'"@,
        ),
{
}

/// What a refusal says.
pub proof fn law_refusals_say(num: u32, n: nat, a: Seq<char>, b: Seq<char>)
    ensures
        refusal_text(Refusal::NotLoaded(num)) == "draw "@ + decimal(num as nat) + " is not loaded"@,
        refusal_text(Refusal::TooLong(n)) == "note content exceeds 250 characters ("@ + decimal(n)
            + " chars): a note must express one atomic thought"@,
        refusal_text(Refusal::Exists(a)) == "note "@ + a + " already exists"@,
        refusal_text(Refusal::NotFound(a)) == "note "@ + a + " not found"@,
        refusal_text(Refusal::Superseded(a)) == a + " is already superseded"@,
        refusal_text(Refusal::NoSlot(a)) == "no available child slot for "@ + a + ": all 26 letter slots taken"@,
        refusal_text(Refusal::NoParent(a)) == "parent "@ + a + " not found"@,
        refusal_text(Refusal::NoLink { from: a, to: b }) == "no link from "@ + a + " to "@ + b,
{
}

// ── Arguments ────────────────────────────────────────────────────────────────

/// Words in a row: one more goes behind a space.
pub proof fn law_spaced(s: Seq<Seq<char>>, x: Seq<char>)
    ensures
        spaced(Seq::<Seq<char>>::empty()).len() == 0,
        s.len() == 0 ==> spaced(s.push(x)) == x,
        s.len() > 0 ==> spaced(s.push(x)) == spaced(s) + seq![' '] + x,
{
    reveal_strlit(" ");
    assert(" "@ =~= seq![' ']);
    assert(s.push(x).drop_last() =~= s);
}

/// Words without a flag: all words that are not the flag, once each and in their order.
pub proof fn law_without(s: Seq<Seq<char>>, flag: Seq<char>) -> (at: Seq<int>)
    ensures
        at.len() == without(s, flag).len(),
        forall|k: int|
            0 <= k < at.len() ==> 0 <= #[trigger] at[k] < s.len() && without(s, flag)[k] == s[at[k]],
        forall|k: int, l: int| 0 <= k < l < at.len() ==> #[trigger] at[k] < #[trigger] at[l],
        forall|i: int| 0 <= i < s.len() ==> (#[trigger] at.contains(i) <==> s[i] != flag),
    decreases s.len(),
{
    if s.len() == 0 {
        Seq::empty()
    } else {
        let t = s.drop_last();
        let n = t.len() as int;
        let a = law_without(t, flag);
        let at = if s.last() == flag {
            a
        } else {
            a.push(n)
        };
        let w = without(s, flag);
        assert forall|k: int| 0 <= k < at.len() implies 0 <= #[trigger] at[k] < s.len() && w[k] == s[at[k]] by {
            if k < a.len() {
                assert(a[k] == at[k]);
                assert(without(t, flag)[k] == t[a[k]]);
            }
        }
        assert forall|k: int, l: int| 0 <= k < l < at.len() implies #[trigger] at[k] < #[trigger] at[l] by {
            assert(a[k] == at[k]);
            if l < a.len() {
                assert(a[l] == at[l]);
            }
        }
        assert forall|i: int| 0 <= i < s.len() implies (#[trigger] at.contains(i) <==> s[i] != flag) by {
            if i < n {
                assert(t[i] == s[i]);
                assert(a.contains(i) <==> t[i] != flag);
                if a.contains(i) {
                    let k = choose|k: int| 0 <= k < a.len() && a[k] == i;
                    assert(at[k] == i);
                }
                if at.contains(i) {
                    let k = choose|k: int| 0 <= k < at.len() && at[k] == i;
                    assert(a[k] == i);
                }
            } else if s.last() != flag {
                assert(at[a.len() as int] == n);
            } else if at.contains(i) {
                let k = choose|k: int| 0 <= k < at.len() && at[k] == i;
                assert(a[k] < t.len());
            }
        }
        at
    }
}

/// The arguments for a tree: a word that is not `-d` is the root, and the last such word
/// counts; behind `-d` stands the depth, and the last one counts. A `-d` without a number
/// behind it is refused.
pub proof fn law_tree_arguments(
    x: Seq<char>,
    y: Seq<char>,
    rest: Seq<Seq<char>>,
    root: Option<Seq<char>>,
    depth: nat,
)
    ensures
        tree_choice(Seq::<Seq<char>>::empty(), root, depth) == Ok::<(Option<Seq<char>>, nat), Seq<char>>(
            (root, depth),
        ),
        x != seq!['-', 'd'] ==> tree_choice(seq![x] + rest, root, depth) == tree_choice(rest, Some(x), depth),
        tree_choice(seq![seq!['-', 'd']], root, depth) == Err::<(Option<Seq<char>>, nat), Seq<char>>(
            "-d requires a depth argument"@,
        ),
        match parsed(y, usize::MAX as nat) {
            Some(n) => tree_choice(seq![seq!['-', 'd'], y] + rest, root, depth) == tree_choice(rest, root, n),
            None => tree_choice(seq![seq!['-', 'd'], y] + rest, root, depth) == Err::<
                (Option<Seq<char>>, nat),
                Seq<char>,
            >("depth must be a non-negative integer"@),
        },
{
    reveal_strlit("-d");
    let d = seq!['-', 'd'];
    assert("-d"@ =~= d);
    let one = seq![x] + rest;
    assert(one[0] == x);
    assert(one.skip(1) =~= rest);
    let two = seq![d, y] + rest;
    assert(two[0] == d && two[1] == y);
    assert(two.skip(2) =~= rest);
    assert(seq![d][0] == d);
}

/// The message for a sync: what stands behind the last `-m`; a `-m` at the very end has
/// nothing behind it and does not count, and neither does any other word.
pub proof fn law_sync_message(x: Seq<char>, y: Seq<char>, rest: Seq<Seq<char>>, message: Seq<char>)
    ensures
        message_in(Seq::<Seq<char>>::empty(), message) == message,
        message_in(seq![x], message) == message,
        x != seq!['-', 'm'] ==> message_in(seq![x] + rest, message) == message_in(rest, message),
        message_in(seq![seq!['-', 'm'], y] + rest, message) == message_in(rest, y),
{
    reveal_strlit("-m");
    let m = seq!['-', 'm'];
    assert("-m"@ =~= m);
    let one = seq![x] + rest;
    assert(one[0] == x);
    assert(one.skip(1) =~= rest);
    let two = seq![m, y] + rest;
    assert(two[0] == m && two[1] == y);
    assert(two.skip(2) =~= rest);
    assert(seq![x].skip(1) =~= Seq::<Seq<char>>::empty());
    assert(message_in(seq![x].skip(1), message) == message);
}

} // verus!
