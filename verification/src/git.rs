//! Sharing a box over git: reading what git says, and the order of the steps of a sync.
//!
//! No git command is run here. A [`Sync`] says which one is to be run next and is told
//! what came of it.

use crate::disk::{draw_number, file_number};
use crate::numeral::{parse_number, parsed};
use crate::text::{
    begins_with, chars_of, first_line, first_line_end, lines, slice_of, split_lines, stands_at,
    string_of, trim, trimmed, views,
};
use vstd::prelude::*;

verus! {

// ── What git says ────────────────────────────────────────────────────────────

/// What a git command came to: what it printed, or what it complained about.
pub open spec fn said(out: Result<String, String>) -> Result<Seq<char>, Seq<char>> {
    match out {
        Ok(s) => Ok(s@),
        Err(e) => Err(e@),
    }
}

/// A text of its own without the white space around it.
fn trimmed_text(s: &str) -> (r: String)
    ensures
        r@ == trimmed(s@),
{
    string_of(&trim(&chars_of(s)))
}

/// What a git command came to: trimmed stdout on success, trimmed stderr on failure.
pub fn git_run(success: bool, stdout: &str, stderr: &str) -> (r: Result<String, String>)
    ensures
        said(r) == (if success {
            Ok::<Seq<char>, Seq<char>>(trimmed(stdout@))
        } else {
            Err::<Seq<char>, Seq<char>>(trimmed(stderr@))
        }),
{
    if success {
        Ok(trimmed_text(stdout))
    } else {
        Err(trimmed_text(stderr))
    }
}

/// The first remote that `git remote` lists.
pub open spec fn remote_of(out: Result<Seq<char>, Seq<char>>) -> Option<Seq<char>> {
    match out {
        Ok(s) => if first_line(s).len() > 0 {
            Some(first_line(s))
        } else {
            None
        },
        Err(_) => None,
    }
}

/// `git status --porcelain` lists something.
pub open spec fn uncommitted(out: Result<Seq<char>, Seq<char>>) -> bool {
    out matches Ok(s) && s.len() > 0
}

/// The branch that `git rev-parse --abbrev-ref HEAD` names; a detached head is none.
pub open spec fn branch_of(out: Result<Seq<char>, Seq<char>>) -> Option<Seq<char>> {
    match out {
        Ok(s) => if s.len() > 0 && s != "HEAD"@ {
            Some(s)
        } else {
            None
        },
        Err(_) => None,
    }
}

/// The number that `git rev-list --count` prints, 0 where it prints none.
pub open spec fn count_of(out: Result<Seq<char>, Seq<char>>) -> nat {
    match out {
        Ok(s) => match parsed(s, usize::MAX as nat) {
            Some(n) => n,
            None => 0,
        },
        Err(_) => 0,
    }
}

/// A line of `git status --porcelain` that marks an unmerged file.
pub open spec fn unmerged(line: Seq<char>) -> bool {
    ||| begins_with(line, "DD"@)
    ||| begins_with(line, "AU"@)
    ||| begins_with(line, "UD"@)
    ||| begins_with(line, "UA"@)
    ||| begins_with(line, "DU"@)
    ||| begins_with(line, "AA"@)
    ||| begins_with(line, "UU"@)
}

/// `git status --porcelain` lists an unmerged file.
pub open spec fn conflicted(out: Result<Seq<char>, Seq<char>>) -> bool {
    out matches Ok(s) && exists|i: int| 0 <= i < lines(s).len() && unmerged(#[trigger] lines(s)[i])
}

/// A path that belongs to the box: its index, or the file of a draw.
pub open spec fn in_box(path: Seq<char>) -> bool {
    ||| path == "index.json"@
    ||| begins_with(path, "draws/"@) && file_number(path.skip(6)) is Some
}

/// A line of `git status --porcelain` that marks an unmerged file outside the box. The
/// path stands behind the two letters of the mark and a space.
pub open spec fn stray(line: Seq<char>) -> bool {
    unmerged(line) && !(line.len() > 3 && in_box(line.skip(3)))
}

/// `git status --porcelain` lists an unmerged file outside the box.
pub open spec fn strayed(out: Result<Seq<char>, Seq<char>>) -> bool {
    out matches Ok(s) && exists|i: int| 0 <= i < lines(s).len() && stray(#[trigger] lines(s)[i])
}

/// Returns the name of the first configured remote, if any, from what `git remote` came
/// to.
pub fn git_remote(out: &Result<String, String>) -> (r: Option<String>)
    ensures
        match r {
            Some(t) => remote_of(said(*out)) == Some(t@),
            None => remote_of(said(*out)) is None,
        },
{
    match out {
        Ok(s) => {
            let v = chars_of(s.as_str());
            let end = first_line_end(&v);
            if end > 0 {
                let t = slice_of(&v, 0, end);
                assert(t@ =~= v@.take(end as int));
                Some(string_of(&t))
            } else {
                None
            }
        },
        Err(_) => None,
    }
}

/// Whether there are uncommitted changes, from what `git status --porcelain` came to.
pub fn git_has_uncommitted(out: &Result<String, String>) -> (r: bool)
    ensures
        r == uncommitted(said(*out)),
{
    match out {
        Ok(s) => chars_of(s.as_str()).len() > 0,
        Err(_) => false,
    }
}

/// Returns the current branch name, or `None` if in detached HEAD state, from what
/// `git rev-parse --abbrev-ref HEAD` came to.
pub fn git_current_branch(out: &Result<String, String>) -> (r: Option<String>)
    ensures
        match r {
            Some(t) => branch_of(said(*out)) == Some(t@),
            None => branch_of(said(*out)) is None,
        },
{
    match out {
        Ok(s) => if chars_of(s.as_str()).len() > 0 && *s != "HEAD".to_owned() {
            Some(s.clone())
        } else {
            None
        },
        Err(_) => None,
    }
}

/// Whether the current branch has a tracking upstream, from what
/// `git rev-parse --abbrev-ref @{u}` came to.
pub fn git_has_upstream(out: &Result<String, String>) -> (r: bool)
    ensures
        r == (said(*out) is Ok),
{
    match out {
        Ok(_) => true,
        Err(_) => false,
    }
}

/// Returns a number of commits, such as that of the local commits not yet pushed to the
/// upstream, from what `git rev-list --count @{u}..HEAD` came to.
pub fn git_unpushed_count(out: &Result<String, String>) -> (r: usize)
    ensures
        r == count_of(said(*out)),
{
    match out {
        Ok(s) => match parse_number(&chars_of(s.as_str()), usize::MAX as u64) {
            Some(n) => n as usize,
            None => 0,
        },
        Err(_) => 0,
    }
}

/// Whether a line of `git status --porcelain` marks an unmerged file.
fn marks_unmerged(line: &Vec<char>) -> (r: bool)
    ensures
        r == unmerged(line@),
{
    stands_at(line, &chars_of("DD"), 0) || stands_at(line, &chars_of("AU"), 0) || stands_at(
        line,
        &chars_of("UD"),
        0,
    ) || stands_at(line, &chars_of("UA"), 0) || stands_at(line, &chars_of("DU"), 0) || stands_at(
        line,
        &chars_of("AA"),
        0,
    ) || stands_at(line, &chars_of("UU"), 0)
}

/// Whether there are unmerged files, from what `git status --porcelain` came to.
pub fn git_has_conflicts(out: &Result<String, String>) -> (r: bool)
    ensures
        r == conflicted(said(*out)),
{
    match out {
        Ok(s) => {
            let ls = split_lines(&chars_of(s.as_str()));
            for i in 0..ls.len()
                invariant
                    views(ls@) == lines(s@),
                    said(*out) == Ok::<Seq<char>, Seq<char>>(s@),
                    ls@.len() == lines(s@).len(),
                    forall|k: int| 0 <= k < i ==> !unmerged(#[trigger] lines(s@)[k]),
            {
                assert(lines(s@)[i as int] == ls@[i as int]@);
                if marks_unmerged(&ls[i]) {
                    assert(said(*out) is Ok && unmerged(lines(said(*out)->Ok_0)[i as int]));
                    return true;
                }
            }
            false
        },
        Err(_) => false,
    }
}

/// Whether a path belongs to the box: its index, or the file of a draw.
fn is_in_box(path: &Vec<char>) -> (r: bool)
    ensures
        r == in_box(path@),
{
    proof {
        reveal_strlit("draws/");
    }
    if string_of(path) == "index.json".to_owned() {
        return true;
    }
    if !stands_at(path, &chars_of("draws/"), 0) {
        return false;
    }
    let name = slice_of(path, 6, path.len());
    assert(name@ =~= path@.skip(6));
    draw_number(string_of(&name).as_str()).is_some()
}

/// Whether a line of `git status --porcelain` marks an unmerged file outside the box.
fn marks_stray(line: &Vec<char>) -> (r: bool)
    ensures
        r == stray(line@),
{
    if !marks_unmerged(line) {
        return false;
    }
    if line.len() <= 3 {
        return true;
    }
    let path = slice_of(line, 3, line.len());
    assert(path@ =~= line@.skip(3));
    !is_in_box(&path)
}

/// Whether there are unmerged files other than the index and the draws of the box, from
/// what `git status --porcelain` came to.
pub fn git_has_other_conflicts(out: &Result<String, String>) -> (r: bool)
    ensures
        r == strayed(said(*out)),
{
    match out {
        Ok(s) => {
            let ls = split_lines(&chars_of(s.as_str()));
            for i in 0..ls.len()
                invariant
                    views(ls@) == lines(s@),
                    said(*out) == Ok::<Seq<char>, Seq<char>>(s@),
                    ls@.len() == lines(s@).len(),
                    forall|k: int| 0 <= k < i ==> !stray(#[trigger] lines(s@)[k]),
            {
                assert(lines(s@)[i as int] == ls@[i as int]@);
                if marks_stray(&ls[i]) {
                    assert(said(*out) is Ok && stray(lines(said(*out)->Ok_0)[i as int]));
                    return true;
                }
            }
            false
        },
        Err(_) => false,
    }
}

} // verus!
