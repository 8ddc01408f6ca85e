//! Drawing the tree of notes.

use crate::id::ID;
use crate::laws::lemma_picked;
use crate::model::{
    all_notes, child_of, first_unloaded, note_with, picked, superseded_list, Refusal,
};
use crate::note::{headline, ref_text, Note, NoteView};
use crate::order::lemma_child_within_parent;
use crate::query::{has_ref, kids_of, lemma_picked_next, position, ref_texts};
use crate::sort::{arranged, slips};
use crate::store::{BoxError, NoteBox};
use crate::text::{chars_of, first_line, lines, push_all, push_text, string_of, strings};
use vstd::prelude::*;

verus! {

/// The length of the longest ID among notes.
pub open spec fn longest(s: Seq<NoteView>) -> nat
    decreases s.len(),
{
    if s.len() == 0 {
        0
    } else {
        let l = longest(s.drop_last());
        if s.last().id.len() > l {
            s.last().id.len()
        } else {
            l
        }
    }
}

/// No ID is longer than the longest.
proof fn lemma_longest(s: Seq<NoteView>, n: NoteView)
    requires
        s.contains(n),
    ensures
        n.id.len() <= longest(s),
    decreases s.len(),
{
    let i = choose|i: int| 0 <= i < s.len() && s[i] == n;
    if i < s.len() - 1 {
        assert(s.drop_last()[i] == n);
        lemma_longest(s.drop_last(), n);
    }
}

/// How many levels there can be from `id` on down.
pub open spec fn levels(all: Seq<NoteView>, id: Seq<char>) -> nat {
    if id.len() > longest(all) {
        0
    } else {
        (longest(all) - id.len() + 1) as nat
    }
}

/// The direct children of `id`.
pub open spec fn kids(all: Seq<NoteView>, id: Seq<char>) -> Seq<NoteView> {
    picked(all, child_of(id))
}

/// There are fewer levels below a child.
pub proof fn lemma_levels(all: Seq<NoteView>, id: Seq<char>, k: int)
    requires
        0 <= k < kids(all, id).len(),
    ensures
        levels(all, kids(all, id)[k].id) < levels(all, id),
{
    let n = kids(all, id)[k];
    assert(kids(all, id).contains(n));
    lemma_picked(all, child_of(id), n);
    lemma_child_within_parent(n.id, id);
    lemma_longest(all, n);
}

/// What marks a note as outdated, or as a later version.
pub open spec fn marker(found: Option<NoteView>, outdated: bool) -> Seq<char> {
    if outdated {
        " [outdated]"@
    } else if found matches Some(n) && n.supersedes is Some {
        " [v2]"@
    } else {
        ""@
    }
}

/// What joins a note to its parent's line; a note at the top has nothing.
pub open spec fn connector(depth: nat, last: bool) -> Seq<char> {
    if depth == 0 {
        ""@
    } else if last {
        "└── "@
    } else {
        "├── "@
    }
}

/// What stands before the lines of the children.
pub open spec fn child_prefix(prefix: Seq<char>, depth: nat, last: bool) -> Seq<char> {
    if depth == 0 {
        prefix
    } else if last {
        prefix + "    "@
    } else {
        prefix + "│   "@
    }
}

/// The line of one note: where it hangs, its ID, its marker and its headline.
pub open spec fn tree_line(
    found: Option<NoteView>,
    outdated: bool,
    id: Seq<char>,
    depth: nat,
    prefix: Seq<char>,
    last: bool,
) -> Seq<char> {
    let content = match found {
        Some(n) => n.content,
        None => Seq::empty(),
    };
    prefix + connector(depth, last) + id + marker(found, outdated) + " "@ + first_line(content)
}

/// The lines of the tree below `id`, which stands at `depth`, down to `max`.
pub open spec fn subtree(
    all: Seq<NoteView>,
    outdated: Seq<Seq<char>>,
    id: Seq<char>,
    depth: nat,
    max: nat,
    prefix: Seq<char>,
    last: bool,
) -> Seq<Seq<char>>
    decreases levels(all, id), kids(all, id).len() + 1,
    via subtree_decreases
{
    let line = tree_line(note_with(all, id), outdated.contains(id), id, depth, prefix, last);
    if depth >= max {
        seq![line]
    } else {
        seq![line] + branches(all, outdated, id, 0, depth + 1, max, child_prefix(prefix, depth, last))
    }
}

/// The lines of the trees below the children of `id` from the `k`-th on.
pub open spec fn branches(
    all: Seq<NoteView>,
    outdated: Seq<Seq<char>>,
    id: Seq<char>,
    k: nat,
    depth: nat,
    max: nat,
    prefix: Seq<char>,
) -> Seq<Seq<char>>
    decreases levels(all, id), kids(all, id).len() - k,
    via branches_decreases
{
    let c = kids(all, id);
    if k >= c.len() {
        Seq::empty()
    } else {
        subtree(all, outdated, c[k as int].id, depth, max, prefix, k == c.len() - 1) + branches(
            all,
            outdated,
            id,
            k + 1,
            depth,
            max,
            prefix,
        )
    }
}

#[via_fn]
proof fn subtree_decreases(
    all: Seq<NoteView>,
    outdated: Seq<Seq<char>>,
    id: Seq<char>,
    depth: nat,
    max: nat,
    prefix: Seq<char>,
    last: bool,
) {
}

#[via_fn]
proof fn branches_decreases(
    all: Seq<NoteView>,
    outdated: Seq<Seq<char>>,
    id: Seq<char>,
    k: nat,
    depth: nat,
    max: nat,
    prefix: Seq<char>,
) {
    if k < kids(all, id).len() {
        lemma_levels(all, id, k as int);
    }
}

/// The line of one note.
fn line_of(
    found: Option<&Note>,
    outdated: bool,
    id: &ID,
    depth: usize,
    prefix: &Vec<char>,
    last: bool,
) -> (r: String)
    ensures
        r@ == tree_line(
            match found {
                Some(n) => Some(n@),
                None => None,
            },
            outdated,
            id@,
            depth as nat,
            prefix@,
            last,
        ),
{
    let mut v: Vec<char> = Vec::new();
    push_all(&mut v, prefix);
    assert(v@ =~= prefix@);
    push_text(
        &mut v,
        if depth == 0 {
            ""
        } else if last {
            "└── "
        } else {
            "├── "
        },
    );
    push_text(&mut v, id.as_str());
    let later = match found {
        Some(n) => n.supersedes().is_some(),
        None => false,
    };
    push_text(
        &mut v,
        if outdated {
            " [outdated]"
        } else if later {
            " [v2]"
        } else {
            ""
        },
    );
    push_text(&mut v, " ");
    match found {
        Some(n) => {
            push_text(&mut v, headline(n.content()));
        },
        None => {
            proof {
                assert(lines(Seq::<char>::empty()) =~= Seq::<Seq<char>>::empty());
                assert(first_line(Seq::<char>::empty()) =~= Seq::<char>::empty());
                assert(v@ + Seq::<char>::empty() =~= v@);
            }
        },
    }
    string_of(&v)
}

/// What stands before the lines of the children.
fn prefix_below(prefix: &Vec<char>, depth: usize, last: bool) -> (r: Vec<char>)
    ensures
        r@ == child_prefix(prefix@, depth as nat, last),
{
    let mut r: Vec<char> = Vec::new();
    push_all(&mut r, prefix);
    assert(r@ =~= prefix@);
    if depth > 0 {
        push_text(
            &mut r,
            if last {
                "    "
            } else {
                "│   "
            },
        );
    }
    r
}

/// Draws the tree below `id`, which stands at `depth`, down to `max`.
fn print_tree(
    all: &Vec<&Note>,
    outdated: &Vec<&ID>,
    id: &ID,
    depth: usize,
    max: usize,
    prefix: &Vec<char>,
    last: bool,
    out: &mut Vec<String>,
)
    ensures
        strings(final(out)@) == strings(old(out)@) + subtree(
            slips(all@),
            ref_texts(outdated@),
            id@,
            depth as nat,
            max as nat,
            prefix@,
            last,
        ),
    decreases levels(slips(all@), id@),
{
    let ghost s = slips(all@);
    let ghost o = ref_texts(outdated@);
    let ghost start = strings(out@);
    let p = position(all, id);
    let found = if p < all.len() {
        Some(all[p])
    } else {
        None
    };
    let line = line_of(found, has_ref(outdated, id), id, depth, prefix, last);
    let ghost text = line@;
    out.push(line);
    assert(strings(out@) =~= start + seq![text]);
    if depth >= max {
        return;
    }
    let below = prefix_below(prefix, depth, last);
    let children = kids_of(all, id);
    let ghost c = kids(s, id@);
    let ghost whole = start + (seq![text] + branches(
        s,
        o,
        id@,
        0,
        (depth + 1) as nat,
        max as nat,
        below@,
    ));
    assert(strings(out@) + branches(s, o, id@, 0, (depth + 1) as nat, max as nat, below@) =~= whole);
    for k in 0..children.len()
        invariant
            s == slips(all@),
            o == ref_texts(outdated@),
            c == kids(s, id@),
            c == slips(children@),
            depth < max,
            strings(out@) + branches(s, o, id@, k as nat, (depth + 1) as nat, max as nat, below@) == whole,
        decreases children@.len() - k,
    {
        let ghost before = strings(out@);
        let child: &Note = children[k];
        proof {
            assert(c[k as int] == children@[k as int]@);
            lemma_levels(s, id@, k as int);
        }
        print_tree(all, outdated, child.id(), depth + 1, max, &below, k == children.len() - 1, out);
        proof {
            let sub = subtree(
                s,
                o,
                child@.id,
                (depth + 1) as nat,
                max as nat,
                below@,
                k == children@.len() - 1,
            );
            let rest = branches(s, o, id@, (k + 1) as nat, (depth + 1) as nat, max as nat, below@);
            assert(branches(s, o, id@, k as nat, (depth + 1) as nat, max as nat, below@) == sub + rest);
            assert(before + (sub + rest) =~= (before + sub) + rest);
        }
    }
    assert(strings(out@) =~= whole);
}

/// A note that is its own parent.
pub open spec fn is_root() -> spec_fn(NoteView) -> bool {
    |n: NoteView| n.links.len() > 0 && n.links[0] == n.id
}

/// The lines of the trees below the roots from the `k`-th on.
pub open spec fn forest(
    all: Seq<NoteView>,
    outdated: Seq<Seq<char>>,
    roots: Seq<NoteView>,
    k: nat,
    max: nat,
) -> Seq<Seq<char>>
    decreases roots.len() - k,
{
    if k >= roots.len() {
        Seq::empty()
    } else {
        subtree(all, outdated, roots[k as int].id, 0, max, ""@, k == roots.len() - 1) + forest(
            all,
            outdated,
            roots,
            k + 1,
            max,
        )
    }
}

/// The lines of the tree below `root`, or of all trees.
pub open spec fn tree_text(
    all: Seq<NoteView>,
    outdated: Seq<Seq<char>>,
    root: Option<Seq<char>>,
    max: nat,
) -> Seq<Seq<char>> {
    match root {
        Some(id) => subtree(all, outdated, id, 0, max, ""@, true),
        None => forest(all, outdated, picked(all, is_root()), 0, max),
    }
}

/// The notes that are their own parents.
fn roots_of<'a>(all: &Vec<&'a Note>) -> (r: Vec<&'a Note>)
    ensures
        slips(r@) == picked(slips(all@), is_root()),
{
    let ghost s = slips(all@);
    let ghost keep = is_root();
    let mut r: Vec<&'a Note> = Vec::new();
    assert(slips(r@) =~= picked(s.take(0), keep));
    for i in 0..all.len()
        invariant
            s == slips(all@),
            keep == is_root(),
            slips(r@) == picked(s.take(i as int), keep),
    {
        let ghost before = slips(r@);
        proof {
            assert(s[i as int] == all@[i as int]@);
            lemma_picked_next(s, keep, i as int);
        }
        let root = match all[i].parent() {
            Some(p) => *p == *all[i].id(),
            None => false,
        };
        if root {
            r.push(all[i]);
            assert(slips(r@) =~= before.push(s[i as int]));
        }
    }
    assert(s.take(all@.len() as int) =~= s);
    r
}

impl NoteBox {
    /// The tree below `root`, or all trees where there is none, down to `max_depth` levels:
    /// one line for each note, with its place, its ID, a marker for versions, and its
    /// headline. All draws have to be loaded.
    pub fn tree(&self, root: Option<&ID>, max_depth: usize) -> (r: Result<Vec<String>, BoxError>)
        ensures
            match first_unloaded(self@.draws) {
                Some(num) => r matches Err(e) && e@ == Refusal::NotLoaded(num),
                None => exists|v: Seq<NoteView>| #[trigger]
                    arranged(all_notes(self@.draws), v) && (match (ref_text(root), r) {
                        (Some(id), Err(e)) => note_with(v, id) is None && e@ == Refusal::NotFound(id),
                        (None, Err(_)) => false,
                        (id, Ok(lines)) => {
                            &&& id matches Some(t) ==> note_with(v, t) is Some
                            &&& strings(lines@) == tree_text(
                                v,
                                superseded_list(all_notes(self@.draws)),
                                id,
                                max_depth as nat,
                            )
                        },
                    }),
            },
    {
        match self.load_all() {
            Ok(_) => {},
            Err(e) => {
                return Err(e);
            },
        }
        let all = self.notes();
        let outdated = self.superseded_ids();
        let ghost v = slips(all@);
        let ghost o = ref_texts(outdated@);
        let mut out: Vec<String> = Vec::new();
        let none = chars_of("");
        assert(strings(out@) =~= Seq::<Seq<char>>::empty());
        assert(arranged(all_notes(self@.draws), v));
        match root {
            Some(id) => {
                if position(&all, id) == all.len() {
                    return Err(BoxError::NotFound(id.clone()));
                }
                print_tree(&all, &outdated, id, 0, max_depth, &none, true, &mut out);
                assert(strings(out@) =~= tree_text(v, o, Some(id@), max_depth as nat));
            },
            None => {
                let roots = roots_of(&all);
                let ghost rs = slips(roots@);
                for k in 0..roots.len()
                    invariant
                        v == slips(all@),
                        o == ref_texts(outdated@),
                        rs == slips(roots@),
                        none@ == ""@,
                        strings(out@) + forest(v, o, rs, k as nat, max_depth as nat) == forest(
                            v,
                            o,
                            rs,
                            0,
                            max_depth as nat,
                        ),
                {
                    let ghost before = strings(out@);
                    assert(rs[k as int] == roots@[k as int]@);
                    print_tree(
                        &all,
                        &outdated,
                        roots[k].id(),
                        0,
                        max_depth,
                        &none,
                        k == roots.len() - 1,
                        &mut out,
                    );
                    proof {
                        let sub = subtree(
                            v,
                            o,
                            rs[k as int].id,
                            0,
                            max_depth as nat,
                            ""@,
                            k == roots@.len() - 1,
                        );
                        let rest = forest(v, o, rs, (k + 1) as nat, max_depth as nat);
                        assert(before + (sub + rest) =~= (before + sub) + rest);
                    }
                }
                assert(strings(out@) =~= tree_text(v, o, None, max_depth as nat));
            },
        }
        Ok(out)
    }
}

// ── What a tree shows ────────────────────────────────────────────────────────

/// `n` hangs `steps` levels below `id`, each level from a note that is there.
pub open spec fn hangs_below(all: Seq<NoteView>, id: Seq<char>, n: NoteView, steps: nat) -> bool
    decreases steps,
{
    if steps == 0 {
        n.id == id
    } else {
        exists|k: int|
            0 <= k < kids(all, id).len() && hangs_below(
                all,
                (#[trigger] kids(all, id)[k]).id,
                n,
                (steps - 1) as nat,
            )
    }
}

/// Some line of `lines` is that of the note with the ID `id`, at `depth`.
pub open spec fn shows(
    lines: Seq<Seq<char>>,
    all: Seq<NoteView>,
    outdated: Seq<Seq<char>>,
    id: Seq<char>,
    depth: nat,
) -> bool {
    exists|prefix: Seq<char>, last: bool|
        lines.contains(
            #[trigger] tree_line(note_with(all, id), outdated.contains(id), id, depth, prefix, last),
        )
}

/// More lines show no less.
proof fn lemma_shows_more(
    a: Seq<Seq<char>>,
    b: Seq<Seq<char>>,
    all: Seq<NoteView>,
    outdated: Seq<Seq<char>>,
    id: Seq<char>,
    depth: nat,
)
    requires
        shows(a, all, outdated, id, depth) || shows(b, all, outdated, id, depth),
    ensures
        shows(a + b, all, outdated, id, depth),
{
    let c = a + b;
    if shows(a, all, outdated, id, depth) {
        let (p, l) = choose|p: Seq<char>, l: bool|
            a.contains(#[trigger] tree_line(note_with(all, id), outdated.contains(id), id, depth, p, l));
        let t = tree_line(note_with(all, id), outdated.contains(id), id, depth, p, l);
        let i = choose|i: int| 0 <= i < a.len() && a[i] == t;
        assert(c[i] == t);
    } else {
        let (p, l) = choose|p: Seq<char>, l: bool|
            b.contains(#[trigger] tree_line(note_with(all, id), outdated.contains(id), id, depth, p, l));
        let t = tree_line(note_with(all, id), outdated.contains(id), id, depth, p, l);
        let i = choose|i: int| 0 <= i < b.len() && b[i] == t;
        assert(c[a.len() + i] == t);
    }
}

/// The lines of a child's tree are among those of the children from the `j`-th on.
proof fn lemma_branch_shown(
    all: Seq<NoteView>,
    outdated: Seq<Seq<char>>,
    id: Seq<char>,
    j: nat,
    k: int,
    depth: nat,
    max: nat,
    prefix: Seq<char>,
    sought: Seq<char>,
    at: nat,
)
    requires
        j <= k < kids(all, id).len(),
        shows(
            subtree(
                all,
                outdated,
                kids(all, id)[k].id,
                depth,
                max,
                prefix,
                k == kids(all, id).len() - 1,
            ),
            all,
            outdated,
            sought,
            at,
        ),
    ensures
        shows(branches(all, outdated, id, j, depth, max, prefix), all, outdated, sought, at),
    decreases k - j,
{
    let c = kids(all, id);
    let lines = branches(all, outdated, id, j, depth, max, prefix);
    let first = subtree(all, outdated, c[j as int].id, depth, max, prefix, j == c.len() - 1);
    let rest = branches(all, outdated, id, j + 1, depth, max, prefix);
    assert(lines == first + rest);
    if j < k {
        lemma_branch_shown(all, outdated, id, j + 1, k, depth, max, prefix, sought, at);
    }
    lemma_shows_more(first, rest, all, outdated, sought, at);
}

/// A tree shows every note that hangs below the one it begins at, down to the depth that
/// was asked for: each has a line of its own.
pub proof fn law_tree_shows_what_hangs_below(
    all: Seq<NoteView>,
    outdated: Seq<Seq<char>>,
    id: Seq<char>,
    depth: nat,
    max: nat,
    prefix: Seq<char>,
    last: bool,
    n: NoteView,
    steps: nat,
)
    requires
        hangs_below(all, id, n, steps),
        depth + steps <= max,
    ensures
        shows(subtree(all, outdated, id, depth, max, prefix, last), all, outdated, n.id, depth + steps),
    decreases steps,
{
    let lines = subtree(all, outdated, id, depth, max, prefix, last);
    if steps == 0 {
        let line = tree_line(note_with(all, id), outdated.contains(id), id, depth, prefix, last);
        assert(lines[0] == line);
    } else {
        let c = kids(all, id);
        let k = choose|k: int|
            0 <= k < c.len() && hangs_below(all, (#[trigger] c[k]).id, n, (steps - 1) as nat);
        let below = child_prefix(prefix, depth, last);
        law_tree_shows_what_hangs_below(
            all,
            outdated,
            c[k].id,
            depth + 1,
            max,
            below,
            k == c.len() - 1,
            n,
            (steps - 1) as nat,
        );
        let at = depth + steps;
        lemma_branch_shown(all, outdated, id, 0, k, depth + 1, max, below, n.id, at);
        let line = tree_line(note_with(all, id), outdated.contains(id), id, depth, prefix, last);
        let rest = branches(all, outdated, id, 0, depth + 1, max, below);
        lemma_shows_more(seq![line], rest, all, outdated, n.id, at);
    }
}

} // verus!
