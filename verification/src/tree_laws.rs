//! What the drawing of a tree comes to, line by line.

use crate::id::{child_text, parent_text};
use crate::laws::lemma_picked;
use crate::merge_laws::apart;
use crate::model::{child_of, note_with, picked};
use crate::note::NoteView;
use crate::search_laws::{law_picked_places, rising_places, taken_from};
use crate::text::first_line;
use crate::tree::{
    branches, child_prefix, connector, forest, is_root, kids, lemma_levels, levels, marker,
    subtree, tree_line, tree_text,
};
use vstd::prelude::*;

verus! {

// ── One line ─────────────────────────────────────────────────────────────────

/// What a line says of an ID, whatever stands before it: the ID, a mark where it is
/// outdated or a later version, and the first line of its note.
pub open spec fn label(all: Seq<NoteView>, outdated: Seq<Seq<char>>, id: Seq<char>) -> Seq<char> {
    match note_with(all, id) {
        Some(n) => if outdated.contains(id) {
            id + " [outdated] "@ + first_line(n.content)
        } else if n.supersedes is Some {
            id + " [v2] "@ + first_line(n.content)
        } else {
            id + " "@ + first_line(n.content)
        },
        None => if outdated.contains(id) {
            id + " [outdated] "@ + first_line(Seq::<char>::empty())
        } else {
            id + " "@ + first_line(Seq::<char>::empty())
        },
    }
}

/// The strokes before the line of a child.
pub open spec fn stroke(last: bool) -> Seq<char> {
    if last {
        "└── "@
    } else {
        "├── "@
    }
}

/// The strokes before the lines below a child.
pub open spec fn bar(last: bool) -> Seq<char> {
    if last {
        "    "@
    } else {
        "│   "@
    }
}

/// A line is what stands before it and what it says.
proof fn lemma_line(
    all: Seq<NoteView>,
    outdated: Seq<Seq<char>>,
    id: Seq<char>,
    depth: nat,
    prefix: Seq<char>,
    last: bool,
)
    ensures
        tree_line(note_with(all, id), outdated.contains(id), id, depth, prefix, last) == (if depth == 0 {
            prefix + label(all, outdated, id)
        } else {
            prefix + stroke(last) + label(all, outdated, id)
        }),
        child_prefix(prefix, depth, last) == (if depth == 0 {
            prefix
        } else {
            prefix + bar(last)
        }),
{
    reveal_strlit(" ");
    reveal_strlit("");
    reveal_strlit(" [outdated]");
    reveal_strlit(" [v2]");
    reveal_strlit(" [outdated] ");
    reveal_strlit(" [v2] ");
    assert(" [outdated]"@ + " "@ =~= " [outdated] "@);
    assert(" [v2]"@ + " "@ =~= " [v2] "@);
    assert(""@ + " "@ =~= " "@);
    let found = note_with(all, id);
    let content = match found {
        Some(n) => n.content,
        None => Seq::empty(),
    };
    let mark = marker(found, outdated.contains(id));
    let h = first_line(content);
    assert(id + mark + " "@ + h =~= id + (mark + " "@) + h);
    let said = label(all, outdated, id);
    assert(said =~= id + mark + " "@ + h);
    let c = connector(depth, last);
    assert(prefix + c + id + mark + " "@ + h =~= prefix + c + said);
    if depth == 0 {
        assert(c =~= Seq::<char>::empty());
        assert(prefix + c =~= prefix);
    }
}

// ── A root and its branches ──────────────────────────────────────────────────

/// The lines of a child's tree where it hangs below its parent.
pub open spec fn hung(last: bool, lines: Seq<Seq<char>>) -> Seq<Seq<char>> {
    Seq::new(
        lines.len(),
        |i: int|
            if i == 0 {
                stroke(last) + lines[i]
            } else {
                bar(last) + lines[i]
            },
    )
}

/// The lines of the trees of the children from the `k`-th on, down to `max` levels, where
/// they hang below their parent.
pub open spec fn hung_children(
    all: Seq<NoteView>,
    outdated: Seq<Seq<char>>,
    children: Seq<NoteView>,
    k: nat,
    max: nat,
) -> Seq<Seq<char>>
    decreases children.len() - k,
{
    if k >= children.len() {
        Seq::empty()
    } else {
        hung(
            k == children.len() - 1,
            tree_text(all, outdated, Some(children[k as int].id), max),
        ) + hung_children(all, outdated, children, k + 1, max)
    }
}

/// Lines with something before each.
spec fn prefixed(q: Seq<char>, lines: Seq<Seq<char>>) -> Seq<Seq<char>> {
    Seq::new(lines.len(), |i: int| q + lines[i])
}

/// What stands before the lines of two lists together.
proof fn lemma_prefixed(q: Seq<char>, a: Seq<Seq<char>>, b: Seq<Seq<char>>)
    ensures
        prefixed(q, a + b) == prefixed(q, a) + prefixed(q, b),
{
    assert(prefixed(q, a + b) =~= prefixed(q, a) + prefixed(q, b));
}

/// A tree at some depth is the tree at the top, hung below its parent and prefixed.
proof fn lemma_subtree_hung(
    all: Seq<NoteView>,
    outdated: Seq<Seq<char>>,
    id: Seq<char>,
    depth: nat,
    max: nat,
    prefix: Seq<char>,
    last: bool,
)
    requires
        1 <= depth <= max,
    ensures
        subtree(all, outdated, id, depth, max, prefix, last) == prefixed(
            prefix,
            hung(last, tree_text(all, outdated, Some(id), (max - depth) as nat)),
        ),
    decreases levels(all, id), kids(all, id).len() + 1,
{
    let top = tree_text(all, outdated, Some(id), (max - depth) as nat);
    let here = subtree(all, outdated, id, depth, max, prefix, last);
    let said = label(all, outdated, id);
    lemma_line(all, outdated, id, depth, prefix, last);
    lemma_line(all, outdated, id, 0, ""@, true);
    reveal_strlit("");
    assert(""@ + said =~= said);
    assert(""@ =~= Seq::<char>::empty());
    assert(prefix + stroke(last) + said =~= prefix + (stroke(last) + said));
    if depth < max {
        let q = prefix + bar(last);
        lemma_branches_hung(all, outdated, id, 0, depth + 1, max, q);
        lemma_branches_hung(all, outdated, id, 0, 1, (max - depth) as nat, ""@);
        let h = hung_children(all, outdated, kids(all, id), 0, (max - depth - 1) as nat);
        assert(prefixed(""@, h) =~= h) by {
            assert forall|i: int| 0 <= i < h.len() implies prefixed(""@, h)[i] == h[i] by {
                assert(""@ + h[i] =~= h[i]);
            }
        }
        assert(top == seq![said] + h);
        assert(here == seq![prefix + stroke(last) + said] + prefixed(q, h));
        let want = prefixed(prefix, hung(last, top));
        assert(here =~= want) by {
            assert(here.len() == want.len());
            assert forall|i: int| 0 <= i < here.len() implies here[i] == want[i] by {
                if i > 0 {
                    assert(top[i] == h[i - 1]);
                    assert(q + h[i - 1] =~= prefix + (bar(last) + h[i - 1]));
                }
            }
        }
    } else {
        assert(top =~= seq![said]);
        assert(here =~= prefixed(prefix, hung(last, top)));
    }
}

/// The branches at some depth are the trees of the children, hung and prefixed.
proof fn lemma_branches_hung(
    all: Seq<NoteView>,
    outdated: Seq<Seq<char>>,
    id: Seq<char>,
    k: nat,
    depth: nat,
    max: nat,
    prefix: Seq<char>,
)
    requires
        1 <= depth <= max,
    ensures
        branches(all, outdated, id, k, depth, max, prefix) == prefixed(
            prefix,
            hung_children(all, outdated, kids(all, id), k, (max - depth) as nat),
        ),
    decreases levels(all, id), kids(all, id).len() - k,
{
    let c = kids(all, id);
    let m = (max - depth) as nat;
    if k < c.len() {
        lemma_levels(all, id, k as int);
        let last = k == c.len() - 1;
        lemma_subtree_hung(all, outdated, c[k as int].id, depth, max, prefix, last);
        lemma_branches_hung(all, outdated, id, k + 1, depth, max, prefix);
        lemma_prefixed(
            prefix,
            hung(last, tree_text(all, outdated, Some(c[k as int].id), m)),
            hung_children(all, outdated, c, k + 1, m),
        );
    } else {
        assert(prefixed(prefix, hung_children(all, outdated, c, k, m)) =~= Seq::<Seq<char>>::empty());
    }
}

/// A tree down to no level is the line of its root. A tree down to more levels is that
/// line, and below it the trees of the children in their order, each down to one level
/// less and with strokes before its lines.
pub proof fn law_tree_is_root_and_branches(
    all: Seq<NoteView>,
    outdated: Seq<Seq<char>>,
    id: Seq<char>,
    max: nat,
)
    ensures
        tree_text(all, outdated, Some(id), 0) == seq![label(all, outdated, id)],
        max > 0 ==> tree_text(all, outdated, Some(id), max) == seq![label(all, outdated, id)]
            + hung_children(all, outdated, picked(all, child_of(id)), 0, (max - 1) as nat),
{
    let said = label(all, outdated, id);
    lemma_line(all, outdated, id, 0, ""@, true);
    reveal_strlit("");
    assert(""@ =~= Seq::<char>::empty());
    assert(""@ + said =~= said);
    if max > 0 {
        let h = hung_children(all, outdated, kids(all, id), 0, (max - 1) as nat);
        lemma_branches_hung(all, outdated, id, 0, 1, max, ""@);
        assert(prefixed(""@, h) =~= h) by {
            assert forall|i: int| 0 <= i < h.len() implies prefixed(""@, h)[i] == h[i] by {
                assert(""@ + h[i] =~= h[i]);
            }
        }
    }
}

/// Without a root to begin at, the trees of all roots are drawn, one after the other: of
/// the notes whose first link is their own ID.
pub proof fn law_forest_is_all_roots(
    all: Seq<NoteView>,
    outdated: Seq<Seq<char>>,
    max: nat,
) -> (at: Seq<int>)
    ensures
        taken_from(picked(all, is_root()), all, at),
        rising_places(at),
        forall|i: int|
            0 <= i < all.len() ==> (#[trigger] at.contains(i) <==> all[i].links.len() > 0 && all[i].links[0]
                == all[i].id),
        tree_text(all, outdated, None, max) == stacked(all, outdated, picked(all, is_root()), max),
{
    let at = law_picked_places(all, is_root());
    assert forall|i: int| 0 <= i < all.len() implies (#[trigger] at.contains(i) <==> all[i].links.len() > 0
        && all[i].links[0] == all[i].id) by {
        assert(at.contains(i) <==> is_root()(all[i]));
    }
    let roots = picked(all, is_root());
    lemma_stacked(all, outdated, roots, 0, max);
    assert(roots.skip(0) =~= roots);
    at
}

/// The trees of some roots, one after the other.
pub open spec fn stacked(
    all: Seq<NoteView>,
    outdated: Seq<Seq<char>>,
    roots: Seq<NoteView>,
    max: nat,
) -> Seq<Seq<char>>
    decreases roots.len(),
{
    if roots.len() == 0 {
        Seq::empty()
    } else {
        tree_text(all, outdated, Some(roots[0].id), max) + stacked(all, outdated, roots.skip(1), max)
    }
}

/// A tree at the top does not hang on whether it is the last.
proof fn lemma_top(all: Seq<NoteView>, outdated: Seq<Seq<char>>, id: Seq<char>, max: nat, last: bool)
    ensures
        subtree(all, outdated, id, 0, max, ""@, last) == tree_text(all, outdated, Some(id), max),
{
    lemma_line(all, outdated, id, 0, ""@, last);
    lemma_line(all, outdated, id, 0, ""@, true);
}

/// The trees of the roots from the `k`-th on.
proof fn lemma_stacked(
    all: Seq<NoteView>,
    outdated: Seq<Seq<char>>,
    roots: Seq<NoteView>,
    k: nat,
    max: nat,
)
    requires
        k <= roots.len(),
    ensures
        forest(all, outdated, roots, k, max) == stacked(all, outdated, roots.skip(k as int), max),
    decreases roots.len() - k,
{
    if k < roots.len() {
        lemma_top(all, outdated, roots[k as int].id, max, k == roots.len() - 1);
        lemma_stacked(all, outdated, roots, k + 1, max);
        assert(roots.skip(k as int)[0] == roots[k as int]);
        assert(roots.skip(k as int).skip(1) =~= roots.skip((k + 1) as int));
    }
}

// ── Lines and notes ──────────────────────────────────────────────────────────

/// `x` stands `steps` levels below `id`: it is a note, its parent is one, and so on, up to
/// `id`.
pub open spec fn leads_up(all: Seq<NoteView>, id: Seq<char>, x: Seq<char>, steps: nat) -> bool
    decreases steps,
{
    if steps == 0 {
        x == id
    } else {
        &&& exists|i: int| 0 <= i < all.len() && (#[trigger] all[i]).id == x
        &&& parent_text(x) != x
        &&& leads_up(all, id, parent_text(x), (steps - 1) as nat)
    }
}

/// What leads up to an ID leads up to one of its children first.
proof fn lemma_leads_up(all: Seq<NoteView>, id: Seq<char>, x: Seq<char>, steps: nat)
    requires
        steps >= 1,
    ensures
        leads_up(all, id, x, steps) <==> exists|k: int|
            0 <= k < kids(all, id).len() && leads_up(all, (#[trigger] kids(all, id)[k]).id, x, (steps - 1) as nat),
    decreases steps,
{
    let c = kids(all, id);
    if leads_up(all, id, x, steps) {
        if steps == 1 {
            let i = choose|i: int| 0 <= i < all.len() && (#[trigger] all[i]).id == x;
            assert(all.contains(all[i]));
            assert(child_text(x, id));
            lemma_picked(all, child_of(id), all[i]);
            let k = choose|k: int| 0 <= k < c.len() && c[k] == all[i];
            assert(leads_up(all, c[k].id, x, 0));
        } else {
            lemma_leads_up(all, id, parent_text(x), (steps - 1) as nat);
            let k = choose|k: int|
                0 <= k < c.len() && leads_up(all, (#[trigger] c[k]).id, parent_text(x), (steps - 2) as nat);
            assert(leads_up(all, c[k].id, x, (steps - 1) as nat));
        }
    }
    if exists|k: int| 0 <= k < c.len() && leads_up(all, (#[trigger] c[k]).id, x, (steps - 1) as nat) {
        let k = choose|k: int| 0 <= k < c.len() && leads_up(all, (#[trigger] c[k]).id, x, (steps - 1) as nat);
        if steps == 1 {
            assert(c.contains(c[k]));
            lemma_picked(all, child_of(id), c[k]);
            let i = choose|i: int| 0 <= i < all.len() && all[i] == c[k];
            assert(all[i].id == x);
            assert(leads_up(all, id, id, 0));
        } else {
            lemma_leads_up(all, id, parent_text(x), (steps - 1) as nat);
        }
    }
}

/// Only one ID stands so many levels above another.
proof fn lemma_one_above(all: Seq<NoteView>, a: Seq<char>, b: Seq<char>, x: Seq<char>, steps: nat)
    requires
        leads_up(all, a, x, steps),
        leads_up(all, b, x, steps),
    ensures
        a == b,
    decreases steps,
{
    if steps > 0 {
        lemma_one_above(all, a, b, parent_text(x), (steps - 1) as nat);
    }
}

/// Each line is that of an ID, so many levels down.
pub open spec fn line_for(
    all: Seq<NoteView>,
    outdated: Seq<Seq<char>>,
    line: Seq<char>,
    x: Seq<char>,
    level: nat,
) -> bool {
    &&& line.len() == 4 * level + label(all, outdated, x).len()
    &&& line.skip(4 * level as int) == label(all, outdated, x)
}

/// `at` names for each line the ID that it is for, and its level.
pub open spec fn lines_are_for(
    all: Seq<NoteView>,
    outdated: Seq<Seq<char>>,
    lines: Seq<Seq<char>>,
    at: Seq<(Seq<char>, nat)>,
) -> bool {
    &&& at.len() == lines.len()
    &&& forall|k: int| 0 <= k < at.len() ==> line_for(all, outdated, lines[k], (#[trigger] at[k]).0, at[k].1)
}

/// A tree shows what it is asked for and nothing deeper: each line is that of an ID that
/// stands at most `max` levels below the one that the tree begins at, by so many strokes;
/// and each such ID has a line, which is the only one where IDs are apart.
pub proof fn law_tree_lines_are_the_notes(
    all: Seq<NoteView>,
    outdated: Seq<Seq<char>>,
    id: Seq<char>,
    max: nat,
) -> (at: Seq<(Seq<char>, nat)>)
    ensures
        lines_are_for(all, outdated, tree_text(all, outdated, Some(id), max), at),
        forall|k: int| 0 <= k < at.len() ==> (#[trigger] at[k]).1 <= max && leads_up(all, id, at[k].0, at[k].1),
        forall|x: Seq<char>, level: nat|
            level <= max && #[trigger] leads_up(all, id, x, level) ==> at.contains((x, level)),
        apart(all) ==> at.no_duplicates(),
    decreases max, 1nat, 0nat,
{
    law_tree_is_root_and_branches(all, outdated, id, max);
    let lines = tree_text(all, outdated, Some(id), max);
    let said = label(all, outdated, id);
    assert(said.skip(0) =~= said);
    if max == 0 {
        let at = seq![(id, 0nat)];
        assert forall|x: Seq<char>, level: nat| level <= max && #[trigger] leads_up(all, id, x, level) implies at.contains(
            (x, level),
        ) by {
            assert(at[0] == (x, level));
        }
        at
    } else {
        let c = kids(all, id);
        let h = hung_children(all, outdated, c, 0, (max - 1) as nat);
        let b = lemma_children_lines(all, outdated, id, 0, max);
        let at = seq![(id, 0nat)] + b;
        assert(lines == seq![said] + h);
        assert forall|k: int| 0 <= k < at.len() implies line_for(all, outdated, lines[k], (#[trigger] at[k]).0, at[k].1)
            && at[k].1 <= max && leads_up(all, id, at[k].0, at[k].1) by {
            if k > 0 {
                assert(at[k] == b[k - 1]);
                assert(lines[k] == h[k - 1]);
                lemma_leads_up(all, id, b[k - 1].0, b[k - 1].1);
            }
        }
        assert forall|x: Seq<char>, level: nat| level <= max && #[trigger] leads_up(all, id, x, level) implies at.contains(
            (x, level),
        ) by {
            if level == 0 {
                assert(at[0] == (x, level));
            } else {
                lemma_leads_up(all, id, x, level);
                let k = choose|k: int|
                    0 <= k < c.len() && leads_up(all, (#[trigger] c[k]).id, x, (level - 1) as nat);
                assert(below_child(all, id, 0, k, x, level));
                let i = choose|i: int| 0 <= i < b.len() && b[i] == (x, level);
                assert(at[i + 1] == (x, level));
            }
        }
        if apart(all) {
            assert forall|i: int, j: int| 0 <= i < at.len() && 0 <= j < at.len() && i != j implies at[i] != at[j] by {
                if i > 0 {
                    assert(at[i] == b[i - 1]);
                    assert(b[i - 1].1 >= 1);
                }
                if j > 0 {
                    assert(at[j] == b[j - 1]);
                    assert(b[j - 1].1 >= 1);
                }
            }
        }
        at
    }
}

/// `x` stands `level` levels below `id`, by way of its `k`-th child, which is not before
/// the `from`-th.
spec fn below_child(all: Seq<NoteView>, id: Seq<char>, from: nat, k: int, x: Seq<char>, level: nat) -> bool {
    &&& from <= k < kids(all, id).len()
    &&& level >= 1
    &&& leads_up(all, kids(all, id)[k].id, x, (level - 1) as nat)
}

/// The children of an ID are different where all notes are.
proof fn lemma_kids_apart(all: Seq<NoteView>, id: Seq<char>, i: int, j: int)
    requires
        apart(all),
        0 <= i < kids(all, id).len(),
        0 <= j < kids(all, id).len(),
        i != j,
    ensures
        kids(all, id)[i].id != kids(all, id)[j].id,
{
    let at = law_picked_places(all, child_of(id));
    if i < j {
        assert(at[i] < at[j]);
    } else {
        assert(at[j] < at[i]);
    }
    assert(all[at[i]].id != all[at[j]].id);
}

/// The lines of the trees of the children from the `from`-th on.
proof fn lemma_children_lines(
    all: Seq<NoteView>,
    outdated: Seq<Seq<char>>,
    id: Seq<char>,
    from: nat,
    max: nat,
) -> (at: Seq<(Seq<char>, nat)>)
    requires
        max > 0,
    ensures
        lines_are_for(
            all,
            outdated,
            hung_children(all, outdated, kids(all, id), from, (max - 1) as nat),
            at,
        ),
        forall|i: int|
            0 <= i < at.len() ==> 1 <= (#[trigger] at[i]).1 <= max && exists|k: int| #[trigger]
                below_child(all, id, from, k, at[i].0, at[i].1),
        forall|k: int, x: Seq<char>, level: nat|
            level <= max && #[trigger] below_child(all, id, from, k, x, level) ==> at.contains((x, level)),
        apart(all) ==> at.no_duplicates(),
    decreases max, 0nat, kids(all, id).len() - from,
{
    let c = kids(all, id);
    let m = (max - 1) as nat;
    if from >= c.len() {
        Seq::empty()
    } else {
        let last = from == c.len() - 1;
        let kid = c[from as int].id;
        let t = tree_text(all, outdated, Some(kid), m);
        let own = law_tree_lines_are_the_notes(all, outdated, kid, m);
        let rest = lemma_children_lines(all, outdated, id, from + 1, max);
        let a = Seq::new(own.len(), |i: int| (own[i].0, own[i].1 + 1));
        let at = a + rest;
        let first = hung(last, t);
        let others = hung_children(all, outdated, c, from + 1, m);
        let lines = hung_children(all, outdated, c, from, m);
        assert(lines == first + others);
        reveal_strlit("└── ");
        reveal_strlit("├── ");
        reveal_strlit("    ");
        reveal_strlit("│   ");
        assert(stroke(last).len() == 4 && bar(last).len() == 4);
        assert forall|i: int| 0 <= i < at.len() implies line_for(all, outdated, lines[i], (#[trigger] at[i]).0, at[i].1) by {
            if i < a.len() {
                assert(line_for(all, outdated, t[i], own[i].0, own[i].1));
                let lead = if i == 0 {
                    stroke(last)
                } else {
                    bar(last)
                };
                assert(first[i] == lead + t[i]);
                assert((lead + t[i]).skip((4 * (own[i].1 + 1)) as int) =~= t[i].skip(4 * own[i].1 as int));
            } else {
                assert(at[i] == rest[i - a.len()]);
                assert(lines[i] == others[i - a.len()]);
            }
        }
        assert forall|i: int| 0 <= i < at.len() implies 1 <= (#[trigger] at[i]).1 <= max && exists|k: int| #[trigger]
            below_child(all, id, from, k, at[i].0, at[i].1) by {
            if i < a.len() {
                assert(leads_up(all, kid, own[i].0, own[i].1));
                assert(below_child(all, id, from, from as int, at[i].0, at[i].1));
            } else {
                assert(at[i] == rest[i - a.len()]);
                let k = choose|k: int| #[trigger] below_child(all, id, from + 1, k, at[i].0, at[i].1);
                assert(below_child(all, id, from, k, at[i].0, at[i].1));
            }
        }
        assert forall|k: int, x: Seq<char>, level: nat| level <= max && #[trigger] below_child(
            all,
            id,
            from,
            k,
            x,
            level,
        ) implies at.contains((x, level)) by {
            if k == from {
                let i = choose|i: int| 0 <= i < own.len() && own[i] == (x, (level - 1) as nat);
                assert(own.contains((x, (level - 1) as nat)));
                assert(at[i] == (x, level));
            } else {
                assert(below_child(all, id, from + 1, k, x, level));
                let i = choose|i: int| 0 <= i < rest.len() && rest[i] == (x, level);
                assert(at[a.len() + i] == (x, level));
            }
        }
        if apart(all) {
            assert forall|i: int, j: int| 0 <= i < j < at.len() implies at[i] != at[j] by {
                if j < a.len() {
                    assert(own[i] != own[j]);
                } else if i >= a.len() {
                    assert(rest[i - a.len()] != rest[j - a.len()]);
                } else if at[i] == at[j] {
                    assert(leads_up(all, kid, own[i].0, own[i].1));
                    assert(at[j] == rest[j - a.len()]);
                    let k = choose|k: int| #[trigger] below_child(all, id, from + 1, k, at[j].0, at[j].1);
                    lemma_one_above(all, kid, c[k].id, own[i].0, own[i].1);
                    lemma_kids_apart(all, id, from as int, k);
                }
            }
        }
        at
    }
}

} // verus!
