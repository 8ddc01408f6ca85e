//! What the commands of the program do with a box, and how their arguments are read.

use crate::clock::Timestamp;
use crate::id::{child_text, find_text, parent_text, ID};
use crate::merge::has_link;
use crate::model::{lemma_lookup_id, BoxView, Refusal};
use crate::note::{text_of, Note, NoteView};
use crate::numeral::{parse_number, parsed};
use crate::store::{BoxError, NoteBox};
use crate::text::{add_line, chars_of, push_text, string_of, strings};
use vstd::prelude::*;

verus! {

// ── Adding and linking ───────────────────────────────────────────────────────

impl BoxView {
    /// Adding a note with the ID `id` below its parent, which has to be there unless the
    /// note is a root.
    pub open spec fn adding_below(self, id: Seq<char>, content: Seq<char>, at: Timestamp) -> Result<
        BoxView,
        Refusal,
    > {
        let p = parent_text(id);
        let n = NoteView { id, content, links: seq![p], created_at: at, supersedes: None };
        if p == id {
            self.adding(n)
        } else {
            match self.lookup(p) {
                Err(num) => Err(Refusal::NotLoaded(num)),
                Ok(None) => Err(Refusal::NoParent(p)),
                Ok(Some(_)) => self.adding(n),
            }
        }
    }

    /// Every note but the roots has its parent in the box.
    pub open spec fn rooted(self) -> bool {
        forall|t: Seq<char>| #[trigger]
            self.index.contains_key(t) ==> parent_text(t) == t || self.index.contains_key(parent_text(t))
    }
}

/// Notes that are added below their parents, and new versions of notes, keep the tree
/// whole: every note but the roots has its parent in the box.
pub proof fn law_the_tree_stays_whole(b: BoxView, id: Seq<char>, content: Seq<char>, at: Timestamp)
    requires
        b.rooted(),
    ensures
        b.adding_below(id, content, at) matches Ok(c) ==> c.rooted(),
        b.updating(id, content, at) matches Ok((child, c)) ==> child_text(child, id) ==> c.rooted(),
{
    if let Ok(c) = b.adding_below(id, content, at) {
        assert forall|t: Seq<char>| #[trigger] c.index.contains_key(t) implies parent_text(t) == t
            || c.index.contains_key(parent_text(t)) by {
            if t != id {
                assert(b.index.contains_key(t));
            }
        }
    }
    if let Ok((child, c)) = b.updating(id, content, at) {
        if child_text(child, id) {
            assert(b.index.contains_key(id));
            assert forall|t: Seq<char>| #[trigger] c.index.contains_key(t) implies parent_text(t) == t
                || c.index.contains_key(parent_text(t)) by {
                if t != child {
                    assert(b.index.contains_key(t));
                }
            }
        }
    }
}

impl NoteBox {
    /// Adds a note dated `at` below its parent, which is derived from its ID. The parent
    /// has to be in the box, unless the note is a root.
    pub fn add_below(&mut self, id: ID, content: &str, at: Timestamp) -> (r: Result<(), BoxError>)
        requires
            old(self).wf(),
            old(self)@.can_open(),
        ensures
            final(self).wf(),
            match r {
                Ok(_) => old(self)@.adding_below(id@, content@, at) == Ok::<BoxView, Refusal>(final(self)@),
                Err(e) => {
                    &&& old(self)@.adding_below(id@, content@, at) == Err::<BoxView, Refusal>(e@)
                    &&& final(self)@ == old(self)@
                },
            },
    {
        let parent = id.parent();
        if parent != id {
            match self.find(&parent) {
                Err(e) => {
                    return Err(e);
                },
                Ok(None) => {
                    return Err(BoxError::NoParent(parent));
                },
                Ok(Some(_)) => {},
            }
        }
        self.add(Note::dated(id, parent, content, at))
    }

    /// Adds a link from the note at `from` to `to`.
    pub fn link(&mut self, from: &ID, to: ID) -> (r: Result<(), BoxError>)
        requires
            old(self).wf(),
        ensures
            final(self).wf(),
            match old(self)@.lookup(from@) {
                Err(num) => {
                    &&& r matches Err(e)
                    &&& e@ == Refusal::NotLoaded(num)
                    &&& final(self)@ == old(self)@
                },
                Ok(None) => {
                    &&& r matches Err(e)
                    &&& e@ == Refusal::NotFound(from@)
                    &&& final(self)@ == old(self)@
                },
                Ok(Some(n)) => {
                    &&& r is Ok
                    &&& final(self)@ == old(self)@.with_changed(
                        from@,
                        NoteView { links: n.links.push(to@), ..n },
                    )
                },
            },
    {
        proof {
            lemma_lookup_id(self@, from@);
        }
        match self.find_mut(from) {
            Err(e) => Err(e),
            Ok(None) => Err(BoxError::NotFound(from.clone())),
            Ok(Some(note)) => {
                note.add_link(to);
                Ok(())
            },
        }
    }

    /// Removes the first link from the note at `from` to `to`.
    pub fn unlink(&mut self, from: &ID, to: &ID) -> (r: Result<(), BoxError>)
        requires
            old(self).wf(),
        ensures
            final(self).wf(),
            match old(self)@.lookup(from@) {
                Err(num) => {
                    &&& r matches Err(e)
                    &&& e@ == Refusal::NotLoaded(num)
                    &&& final(self)@ == old(self)@
                },
                Ok(None) => {
                    &&& r matches Err(e)
                    &&& e@ == Refusal::NotFound(from@)
                    &&& final(self)@ == old(self)@
                },
                Ok(Some(n)) => if n.links.contains(to@) {
                    &&& r is Ok
                    &&& final(self)@ == old(self)@.with_changed(
                        from@,
                        NoteView { links: n.links.remove(find_text(n.links, to@)), ..n },
                    )
                } else {
                    &&& r matches Err(e)
                    &&& e@ == (Refusal::NoLink { from: from@, to: to@ })
                    &&& final(self)@ == old(self)@
                },
            },
    {
        proof {
            lemma_lookup_id(self@, from@);
        }
        match self.find(from) {
            Err(e) => {
                return Err(e);
            },
            Ok(None) => {
                return Err(BoxError::NotFound(from.clone()));
            },
            Ok(Some(note)) => {
                if !has_link(note.links(), to) {
                    return Err(BoxError::NoLink { from: from.clone(), to: to.clone() });
                }
            },
        }
        match self.find_mut(from) {
            Err(e) => Err(e),
            Ok(None) => Err(BoxError::NotFound(from.clone())),
            Ok(Some(note)) => {
                note.remove_link(to);
                Ok(())
            },
        }
    }
}

// ── Arguments ────────────────────────────────────────────────────────────────

/// Texts in a row with spaces between them.
pub open spec fn spaced(s: Seq<Seq<char>>) -> Seq<char>
    decreases s.len(),
{
    if s.len() == 0 {
        Seq::empty()
    } else if s.len() == 1 {
        s[0]
    } else {
        spaced(s.drop_last()) + " "@ + s.last()
    }
}

/// The words of a note or a query, with spaces between them.
pub fn words(args: &Vec<String>) -> (r: String)
    ensures
        r@ == spaced(strings(args@)),
{
    let ghost s = strings(args@);
    let mut r: Vec<char> = Vec::new();
    assert(r@ =~= spaced(s.take(0)));
    for i in 0..args.len()
        invariant
            s == strings(args@),
            r@ == spaced(s.take(i as int)),
    {
        proof {
            assert(s[i as int] == args@[i as int]@);
            assert(s.take(i + 1).drop_last() =~= s.take(i as int));
            assert(s.take(i + 1).last() == s[i as int]);
        }
        if i > 0 {
            push_text(&mut r, " ");
        }
        push_text(&mut r, args[i].as_str());
        proof {
            if i == 0 {
                assert(r@ =~= s[0]);
            }
        }
    }
    assert(s.take(args@.len() as int) =~= s);
    string_of(&r)
}

/// Whether `flag` is one of the arguments.
pub fn has_flag(args: &Vec<String>, flag: &str) -> (r: bool)
    ensures
        r == strings(args@).contains(flag@),
{
    let wanted = flag.to_owned();
    for i in 0..args.len()
        invariant
            wanted@ == flag@,
            forall|k: int| 0 <= k < i ==> strings(args@)[k] != flag@,
    {
        assert(strings(args@)[i as int] == args@[i as int]@);
        if args[i] == wanted {
            return true;
        }
    }
    false
}

/// The arguments that are not `flag`.
pub open spec fn without(s: Seq<Seq<char>>, flag: Seq<char>) -> Seq<Seq<char>>
    decreases s.len(),
{
    if s.len() == 0 {
        s
    } else if s.last() == flag {
        without(s.drop_last(), flag)
    } else {
        without(s.drop_last(), flag).push(s.last())
    }
}

/// What is searched for: whether superseded notes count, and the query, which is all
/// arguments but `--all`.
pub fn search_args(args: &Vec<String>) -> (r: (bool, String))
    ensures
        r.0 == strings(args@).contains("--all"@),
        r.1@ == spaced(without(strings(args@), "--all"@)),
{
    let flag = "--all".to_owned();
    let ghost s = strings(args@);
    let mut rest: Vec<String> = Vec::new();
    assert(strings(rest@) =~= without(s.take(0), "--all"@));
    for i in 0..args.len()
        invariant
            s == strings(args@),
            flag@ == "--all"@,
            strings(rest@) == without(s.take(i as int), "--all"@),
    {
        proof {
            assert(s[i as int] == args@[i as int]@);
            assert(s.take(i + 1).drop_last() =~= s.take(i as int));
            assert(s.take(i + 1).last() == s[i as int]);
        }
        if args[i] != flag {
            add_line(&mut rest, args[i].clone());
        }
    }
    assert(s.take(args@.len() as int) =~= s);
    (has_flag(args, "--all"), words(&rest))
}

/// Which tree is drawn, and how deep: `-d` and a number set the depth, anything else is
/// the ID of the note to begin at; the last of each counts.
pub open spec fn tree_choice(s: Seq<Seq<char>>, root: Option<Seq<char>>, depth: nat) -> Result<
    (Option<Seq<char>>, nat),
    Seq<char>,
>
    decreases s.len(),
{
    if s.len() == 0 {
        Ok((root, depth))
    } else if s[0] == "-d"@ {
        if s.len() == 1 {
            Err("-d requires a depth argument"@)
        } else {
            match parsed(s[1], usize::MAX as nat) {
                None => Err("depth must be a non-negative integer"@),
                Some(n) => tree_choice(s.skip(2), root, n),
            }
        }
    } else {
        tree_choice(s.skip(1), Some(s[0]), depth)
    }
}

/// Which tree is drawn, and how deep; without a depth, all the way down.
pub fn tree_args(args: &Vec<String>) -> (r: Result<(Option<ID>, usize), String>)
    ensures
        match r {
            Ok((root, depth)) => tree_choice(strings(args@), None, usize::MAX as nat) == Ok::<
                (Option<Seq<char>>, nat),
                Seq<char>,
            >((text_of(root), depth as nat)),
            Err(why) => tree_choice(strings(args@), None, usize::MAX as nat) == Err::<
                (Option<Seq<char>>, nat),
                Seq<char>,
            >(why@),
        },
{
    let flag = "-d".to_owned();
    let ghost s = strings(args@);
    let mut root: Option<ID> = None;
    let mut depth: usize = usize::MAX;
    let n = args.len();
    let mut i: usize = 0;
    assert(s.skip(0) =~= s);
    while i < n
        invariant
            n == args@.len(),
            i <= n,
            s == strings(args@),
            flag@ == "-d"@,
            tree_choice(s, None, usize::MAX as nat) == tree_choice(
                s.skip(i as int),
                text_of(root),
                depth as nat,
            ),
        decreases n - i,
    {
        let ghost rest = s.skip(i as int);
        assert(rest[0] == args@[i as int]@);
        assert(rest.skip(1) =~= s.skip(i + 1));
        if args[i] == flag {
            if i + 1 == n {
                return Err("-d requires a depth argument".to_owned());
            }
            assert(rest[1] == args@[i + 1]@);
            assert(rest.skip(2) =~= s.skip(i + 2));
            match parse_number(&chars_of(args[i + 1].as_str()), usize::MAX as u64) {
                None => {
                    return Err("depth must be a non-negative integer".to_owned());
                },
                Some(d) => {
                    depth = d as usize;
                },
            }
            i = i + 2;
        } else {
            root = Some(ID::from(args[i].as_str()));
            i = i + 1;
        }
    }
    Ok((root, depth))
}

/// The commit message of a sync: what follows the last `-m`, or `message` without one.
pub open spec fn message_in(s: Seq<Seq<char>>, message: Seq<char>) -> Seq<char>
    decreases s.len(),
{
    if s.len() == 0 {
        message
    } else if s[0] == "-m"@ && s.len() > 1 {
        message_in(s.skip(2), s[1])
    } else {
        message_in(s.skip(1), message)
    }
}

/// The commit message of a sync.
pub fn sync_message(args: &Vec<String>) -> (r: String)
    ensures
        r@ == message_in(strings(args@), "luze sync"@),
{
    let flag = "-m".to_owned();
    let ghost s = strings(args@);
    let mut message = "luze sync".to_owned();
    let n = args.len();
    let mut i: usize = 0;
    assert(s.skip(0) =~= s);
    while i < n
        invariant
            n == args@.len(),
            i <= n,
            s == strings(args@),
            flag@ == "-m"@,
            message_in(s, "luze sync"@) == message_in(s.skip(i as int), message@),
        decreases n - i,
    {
        let ghost rest = s.skip(i as int);
        assert(rest[0] == args@[i as int]@);
        assert(rest.skip(1) =~= s.skip(i + 1));
        if args[i] == flag && i + 1 < n {
            assert(rest[1] == args@[i + 1]@);
            assert(rest.skip(2) =~= s.skip(i + 2));
            message = args[i + 1].clone();
            i = i + 2;
        } else {
            i = i + 1;
        }
    }
    message
}

// ── Where the box is ─────────────────────────────────────────────────────────

/// Where the box is kept.
#[derive(Debug, Clone, Copy, PartialEq, Eq, Structural)]
pub enum Home {
    /// Where the environment says.
    Given,
    /// In `./.luze`.
    Local,
    /// In `.luze` below the home directory.
    User,
}

/// Resolves the directory of the box: what the environment gives, else `./.luze` if it
/// exists, else `~/.luze`, and `./.luze` again where there is no home directory.
pub fn notes_dir(given: bool, local_is_dir: bool, has_home: bool) -> (r: Home)
    ensures
        r == (if given {
            Home::Given
        } else if local_is_dir || !has_home {
            Home::Local
        } else {
            Home::User
        }),
{
    if given {
        Home::Given
    } else if local_is_dir || !has_home {
        Home::Local
    } else {
        Home::User
    }
}

/// Where a new box is made: below the home directory if it is to be `global`, which takes
/// one, else where the environment says, else in `./.luze`.
pub fn init_dir(global: bool, given: bool, has_home: bool) -> (r: Option<Home>)
    ensures
        r == (if global {
            if has_home {
                Some(Home::User)
            } else {
                None
            }
        } else if given {
            Some(Home::Given)
        } else {
            Some(Home::Local)
        }),
{
    if global {
        if has_home {
            Some(Home::User)
        } else {
            None
        }
    } else if given {
        Some(Home::Given)
    } else {
        Some(Home::Local)
    }
}

} // verus!
