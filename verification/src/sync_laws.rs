//! What a sync asks of git, command by command, and how it reads the answers.

use crate::disk::file_number;
use crate::git::{
    branch_of, conflicted, count_of, in_box, remote_of, stray, strayed, uncommitted, unmerged,
};
use crate::merge::{all_renames, MergeReport};
use crate::numeral::{decimal, is_digit, lemma_decimal_digits, lemma_value_of_decimal, parsed};
use crate::sync::{answered, begun, git_args, settled, Fault, Stage, SyncView};
use crate::text::{begins_with, lines};
use crate::text_laws::{law_begins_with, law_first_line_ends, law_one_line, spells};
use vstd::prelude::*;

verus! {

// ── Reading what git says ────────────────────────────────────────────────────

/// The branch is the name that git gives, whatever it is; only an error, an empty answer
/// and `HEAD` name none.
pub proof fn law_branch_is_the_name_given(b: Seq<char>, e: Seq<char>)
    ensures
        b.len() > 0 && b != seq!['H', 'E', 'A', 'D'] ==> branch_of(Ok(b)) == Some(b),
        b.len() == 0 || b == seq!['H', 'E', 'A', 'D'] ==> branch_of(Ok(b)) is None,
        branch_of(Err(e)) is None,
{
    reveal_strlit("HEAD");
    assert("HEAD"@ =~= seq!['H', 'E', 'A', 'D']);
}

/// The remote is the first line that git gives, whatever it is, unless that is empty.
pub proof fn law_remote_is_the_first_line(a: Seq<char>, rest: Seq<char>, e: Seq<char>)
    requires
        !a.contains('\n'),
        a.len() > 0 ==> a[a.len() - 1] != '\r',
    ensures
        a.len() > 0 ==> remote_of(Ok(a)) == Some(a) && remote_of(Ok(a + seq!['\n'] + rest)) == Some(a),
        a.len() == 0 ==> remote_of(Ok(a)) is None && remote_of(Ok(a + seq!['\n'] + rest)) is None,
        remote_of(Err(e)) is None,
{
    law_one_line(a);
    law_first_line_ends(a, rest);
}

/// There are local changes just where git lists anything.
pub proof fn law_uncommitted(s: Seq<char>, e: Seq<char>)
    ensures
        uncommitted(Ok(s)) <==> s.len() > 0,
        !uncommitted(Err(e)),
{
}

/// A count is the number that git prints, and nothing where it prints none.
pub proof fn law_count(n: nat, s: Seq<char>, e: Seq<char>)
    ensures
        n <= usize::MAX ==> count_of(Ok(decimal(n))) == n,
        parsed(s, usize::MAX as nat) is None ==> count_of(Ok(s)) == 0,
        parsed(s, usize::MAX as nat) matches Some(k) ==> count_of(Ok(s)) == k,
        count_of(Err(e)) == 0,
{
    lemma_decimal_digits(n);
    lemma_value_of_decimal(n);
    assert(is_digit(decimal(n)[0]));
}

/// The marks of an unmerged file: both sides deleted or added it, or one side and the
/// other disagree on it.
pub open spec fn unmerged_mark(x: char, y: char) -> bool {
    ||| x == 'U'
    ||| y == 'U'
    ||| x == 'A' && y == 'A'
    ||| x == 'D' && y == 'D'
}

/// A line marks an unmerged file by its first two letters, where these are letters that
/// git has for it.
pub proof fn law_unmerged(line: Seq<char>)
    ensures
        unmerged(line) ==> line.len() >= 2 && unmerged_mark(line[0], line[1]),
        line.len() >= 2 && (line[0] == 'U' || line[0] == 'A' || line[0] == 'D') && (line[1] == 'U' || line[1]
            == 'A' || line[1] == 'D') ==> (unmerged(line) <==> unmerged_mark(line[0], line[1])),
        line.len() >= 2 && !((line[0] == 'U' || line[0] == 'A' || line[0] == 'D') && (line[1] == 'U' || line[1]
            == 'A' || line[1] == 'D')) ==> !unmerged(line),
{
    lemma_mark(line, "DD"@, 'D', 'D');
    lemma_mark(line, "AU"@, 'A', 'U');
    lemma_mark(line, "UD"@, 'U', 'D');
    lemma_mark(line, "UA"@, 'U', 'A');
    lemma_mark(line, "DU"@, 'D', 'U');
    lemma_mark(line, "AA"@, 'A', 'A');
    lemma_mark(line, "UU"@, 'U', 'U');
    reveal_strlit("DD");
    reveal_strlit("AU");
    reveal_strlit("UD");
    reveal_strlit("UA");
    reveal_strlit("DU");
    reveal_strlit("AA");
    reveal_strlit("UU");
}

/// A line that begins with two letters.
proof fn lemma_mark(line: Seq<char>, mark: Seq<char>, x: char, y: char)
    ensures
        mark.len() == 2 && mark[0] == x && mark[1] == y ==> (begins_with(line, mark) <==> line.len() >= 2
            && line[0] == x && line[1] == y),
{
    law_begins_with(line, mark);
    if mark.len() == 2 && mark[0] == x && mark[1] == y {
        if begins_with(line, mark) {
            assert(line[0] == mark[0]);
            assert(line[1] == mark[1]);
        }
        if line.len() >= 2 && line[0] == x && line[1] == y {
            assert forall|k: int| 0 <= k < mark.len() implies line[0 + k] == #[trigger] mark[k] by {
                if k == 0 {
                } else {
                    assert(k == 1);
                }
            }
            assert(spells(line, mark, 0));
        }
    }
}

/// There are conflicts just where some line of the status marks an unmerged file; there
/// are others than the box can resolve just where some such line is not, behind the mark
/// and a space, the index or the file of a draw.
pub proof fn law_conflicts(s: Seq<char>, e: Seq<char>)
    ensures
        conflicted(Ok(s)) <==> exists|i: int| 0 <= i < lines(s).len() && unmerged(#[trigger] lines(s)[i]),
        strayed(Ok(s)) <==> exists|i: int|
            0 <= i < lines(s).len() && unmerged(#[trigger] lines(s)[i]) && !(lines(s)[i].len() > 3 && in_box(
                lines(s)[i].skip(3),
            )),
        !conflicted(Err(e)),
        !strayed(Err(e)),
        strayed(Ok(s)) ==> conflicted(Ok(s)),
{
    let out = Ok::<Seq<char>, Seq<char>>(s);
    let ls = lines(s);
    assert(out->Ok_0 == s);
    if exists|i: int| 0 <= i < ls.len() && unmerged(#[trigger] ls[i]) {
        let i = choose|i: int| 0 <= i < ls.len() && unmerged(#[trigger] ls[i]);
        assert(unmerged(lines(out->Ok_0)[i]));
    }
    if exists|i: int|
        0 <= i < ls.len() && unmerged(#[trigger] ls[i]) && !(ls[i].len() > 3 && in_box(ls[i].skip(3))) {
        let i = choose|i: int|
            0 <= i < ls.len() && unmerged(#[trigger] ls[i]) && !(ls[i].len() > 3 && in_box(ls[i].skip(3)));
        assert(stray(lines(out->Ok_0)[i]));
    }
    if strayed(out) {
        let i = choose|i: int|
            0 <= i < lines(out->Ok_0).len() && stray(#[trigger] lines(out->Ok_0)[i]);
        assert(unmerged(ls[i]));
    }
    if conflicted(out) {
        let i = choose|i: int|
            0 <= i < lines(out->Ok_0).len() && unmerged(#[trigger] lines(out->Ok_0)[i]);
        assert(unmerged(ls[i]));
    }
}

/// The box has its index and, under `draws/`, the files that are draws'; no other path.
pub proof fn law_paths_of_the_box(path: Seq<char>, name: Seq<char>)
    ensures
        in_box(seq!['i', 'n', 'd', 'e', 'x', '.', 'j', 's', 'o', 'n']),
        in_box(seq!['d', 'r', 'a', 'w', 's', '/'] + name) <==> file_number(name) is Some,
        in_box(path) ==> path == seq!['i', 'n', 'd', 'e', 'x', '.', 'j', 's', 'o', 'n'] || (path.len() >= 6
            && path == seq!['d', 'r', 'a', 'w', 's', '/'] + path.skip(6) && file_number(path.skip(6)) is Some),
{
    reveal_strlit("index.json");
    reveal_strlit("draws/");
    let index = seq!['i', 'n', 'd', 'e', 'x', '.', 'j', 's', 'o', 'n'];
    let draws = seq!['d', 'r', 'a', 'w', 's', '/'];
    assert("index.json"@ =~= index);
    assert("draws/"@ =~= draws);
    let whole = draws + name;
    assert(whole.skip(6) =~= name);
    assert(whole.subrange(0, 6) =~= draws);
    assert(whole != index) by {
        assert(whole[0] == 'd');
        assert(index[0] == 'i');
    }
    if in_box(path) && path != index {
        assert(path.subrange(0, 6) == draws);
        assert(path =~= path.subrange(0, 6) + path.skip(6));
    }
}

// ── The commands, one after the other ────────────────────────────────────────

/// A sync begins by asking for the remotes; without a repository it has failed. It goes on
/// with the remote that is named first, to ask for local changes.
pub proof fn law_sync_begins(dir: Seq<char>, message: Seq<char>, out: Result<Seq<char>, Seq<char>>)
    ensures
        begun(dir, false, message).stage == Stage::Failed,
        begun(dir, false, message).error == dir + " is not a git repository"@,
        begun(dir, false, message).fault == Fault::NotFound,
        git_args(begun(dir, false, message)) is None,
        git_args(begun(dir, true, message)) == Some(seq!["remote"@]),
        ({
            let s = answered(begun(dir, true, message), out);
            match remote_of(out) {
                None => {
                    &&& s.stage == Stage::Failed
                    &&& s.error == "no git remote configured"@
                    &&& s.fault == Fault::NotFound
                },
                Some(r) => {
                    &&& s.stage == Stage::Status
                    &&& git_args(s) == Some(seq!["status"@, "--porcelain"@])
                    &&& s.message == message
                    &&& s.remote == r
                    &&& s.fault == Fault::Other
                    &&& s.updates == 0
                    &&& s.renames.len() == 0
                    &&& s.short.len() == 0
                    &&& s.after.len() == 0
                },
            }
        }),
{
}

/// Local changes are staged and committed with the message; without any the sync goes on
/// at once, and in either case with all it knew, to ask for the branch.
pub proof fn law_local_changes(
    s: SyncView,
    status: Result<Seq<char>, Seq<char>>,
    staged: Result<Seq<char>, Seq<char>>,
    done: Result<Seq<char>, Seq<char>>,
)
    requires
        s.stage == Stage::Status,
    ensures
        ({
            let a = answered(s, status);
            let b = answered(a, staged);
            let c = answered(b, done);
            if status matches Ok(t) && t.len() > 0 {
                &&& git_args(a) == Some(seq!["add"@, "-A"@])
                &&& match staged {
                    Err(e) => b.stage == Stage::Failed && b.error == "git add failed: "@ + e && b.fault == s.fault,
                    Ok(_) => {
                        &&& git_args(b) == Some(seq!["commit"@, "-m"@, s.message])
                        &&& match done {
                            Err(e) => c.stage == Stage::Failed && c.error == "git commit failed: "@ + e && c.fault
                                == s.fault,
                            Ok(_) => c == (SyncView { stage: Stage::Branch, ..s }),
                        }
                    },
                }
            } else {
                a == (SyncView { stage: Stage::Branch, ..s })
            }
        }),
        git_args(SyncView { stage: Stage::Branch, ..s }) == Some(seq!["rev-parse"@, "--abbrev-ref"@, "HEAD"@]),
{
}

/// The name that a branch goes by in a sync.
pub open spec fn branch_name(out: Result<Seq<char>, Seq<char>>) -> Seq<char> {
    match out {
        Ok(b) => if b.len() == 0 || b == seq!['H', 'E', 'A', 'D'] {
            "main"@
        } else {
            b
        },
        Err(_) => "main"@,
    }
}

/// A branch without an upstream is fetched and merged by its own name from the remote, and
/// pushed by that name, so that it has an upstream from then on. What is counted as pulled
/// is what the remote's branch has over the commit from before; nothing, where it could
/// not be fetched.
pub proof fn law_untracked_sync(
    s: SyncView,
    branch: Result<Seq<char>, Seq<char>>,
    none: Seq<char>,
    head: Result<Seq<char>, Seq<char>>,
    fetched: Result<Seq<char>, Seq<char>>,
    merged: Seq<char>,
    after: Result<Seq<char>, Seq<char>>,
    short: Result<Seq<char>, Seq<char>>,
    count: Result<Seq<char>, Seq<char>>,
    pushed: Seq<char>,
)
    requires
        s.stage == Stage::Branch,
    ensures
        ({
            let name = branch_name(branch);
            let a = answered(s, branch);
            let b = answered(a, Err(none));
            let c = answered(b, head);
            let d = answered(c, fetched);
            let e = if fetched is Ok {
                answered(d, Ok(merged))
            } else {
                d
            };
            let f = answered(e, after);
            let before = match head {
                Ok(h) => h,
                Err(_) => Seq::empty(),
            };
            let g = if before.len() > 0 {
                answered(f, short)
            } else {
                f
            };
            let h = if before.len() > 0 && fetched is Ok {
                answered(g, count)
            } else {
                g
            };
            let i = answered(h, Ok(pushed));
            &&& git_args(a) == Some(seq!["rev-parse"@, "--abbrev-ref"@, "@{u}"@])
            &&& git_args(b) == Some(seq!["rev-parse"@, "HEAD"@])
            &&& git_args(c) == Some(seq!["fetch"@, s.remote, name])
            &&& fetched is Ok ==> git_args(d) == Some(seq!["merge"@, s.remote + "/"@ + name])
            &&& git_args(e) == Some(seq!["rev-parse"@, "--short"@, "HEAD"@])
            &&& before.len() > 0 ==> git_args(f) == Some(seq!["rev-parse"@, "--short"@, before])
            &&& before.len() > 0 && fetched is Ok ==> git_args(g) == Some(
                seq!["rev-list"@, "--count"@, before + ".."@ + (s.remote + "/"@ + name)],
            )
            &&& git_args(h) == Some(seq!["push"@, "-u"@, s.remote, name])
            &&& i.stage == Stage::Done
            &&& i.renames == s.renames
            &&& i.after == (match after {
                Ok(t) => t,
                Err(_) => Seq::empty(),
            })
            &&& before.len() > 0 ==> i.short == (match short {
                Ok(t) => t,
                Err(_) => Seq::empty(),
            })
            &&& before.len() == 0 ==> i.short == s.short
            &&& i.updates == (if before.len() > 0 && fetched is Ok {
                count_of(count)
            } else {
                s.updates
            })
        }),
{
    reveal_strlit("HEAD");
    assert("HEAD"@ =~= seq!['H', 'E', 'A', 'D']);
    let name = branch_name(branch);
    assert(answered(s, branch).branch == name);
}

/// A branch with an upstream is pulled and pushed as it is. What is counted as pulled is
/// what the upstream has over the commit from before.
pub proof fn law_tracked_sync(
    s: SyncView,
    branch: Result<Seq<char>, Seq<char>>,
    upstream: Seq<char>,
    head: Result<Seq<char>, Seq<char>>,
    pulled: Seq<char>,
    after: Result<Seq<char>, Seq<char>>,
    short: Result<Seq<char>, Seq<char>>,
    count: Result<Seq<char>, Seq<char>>,
    pushed: Seq<char>,
)
    requires
        s.stage == Stage::Branch,
    ensures
        ({
            let a = answered(s, branch);
            let b = answered(a, Ok(upstream));
            let c = answered(b, head);
            let e = answered(c, Ok(pulled));
            let f = answered(e, after);
            let before = match head {
                Ok(h) => h,
                Err(_) => Seq::empty(),
            };
            let g = if before.len() > 0 {
                answered(f, short)
            } else {
                f
            };
            let h = if before.len() > 0 {
                answered(g, count)
            } else {
                g
            };
            let i = answered(h, Ok(pushed));
            &&& git_args(b) == Some(seq!["rev-parse"@, "HEAD"@])
            &&& git_args(c) == Some(seq!["pull"@])
            &&& git_args(e) == Some(seq!["rev-parse"@, "--short"@, "HEAD"@])
            &&& before.len() > 0 ==> git_args(f) == Some(seq!["rev-parse"@, "--short"@, before])
            &&& before.len() > 0 ==> git_args(g) == Some(
                seq!["rev-list"@, "--count"@, before + ".."@ + "@{u}"@],
            )
            &&& git_args(h) == Some(seq!["push"@])
            &&& i.stage == Stage::Done
            &&& i.renames == s.renames
            &&& i.after == (match after {
                Ok(t) => t,
                Err(_) => Seq::empty(),
            })
            &&& before.len() > 0 ==> i.short == (match short {
                Ok(t) => t,
                Err(_) => Seq::empty(),
            })
            &&& before.len() == 0 ==> i.short == s.short
            &&& i.updates == (if before.len() > 0 {
                count_of(count)
            } else {
                s.updates
            })
        }),
{
}

/// Where a pull fails, the sync asks for the status. Without a conflict it fails with what
/// the pull said. With conflicts it waits for the draws to be resolved, and then stages
/// and commits that, unless there are conflicts outside the box, and goes on as after a
/// pull that went well, with the renames that were made.
pub proof fn law_conflicted_sync(
    s: SyncView,
    why: Seq<char>,
    status: Result<Seq<char>, Seq<char>>,
    reports: Result<Seq<MergeReport>, Seq<char>>,
    staged: Result<Seq<char>, Seq<char>>,
    done: Result<Seq<char>, Seq<char>>,
)
    requires
        s.stage == Stage::Pull || s.stage == Stage::Merge,
    ensures
        ({
            let a = answered(s, Err(why));
            let b = answered(a, status);
            let c = settled(b, reports);
            let d = answered(c, staged);
            let e = answered(d, done);
            &&& git_args(a) == Some(seq!["status"@, "--porcelain"@])
            &&& !conflicted(status) ==> {
                &&& b.stage == Stage::Failed
                &&& b.error == "git pull failed: "@ + why
                &&& b.fault == s.fault
            }
            &&& conflicted(status) ==> {
                &&& b.stage == Stage::Resolve
                &&& match reports {
                    Err(w) => c.stage == Stage::Failed && c.error == w && c.fault == s.fault,
                    Ok(r) => if strayed(status) {
                        &&& c.stage == Stage::Failed
                        &&& c.error == "git pull failed with non-draw conflicts: "@ + why
                        &&& c.fault == s.fault
                    } else {
                        &&& git_args(c) == Some(seq!["add"@, "-A"@])
                        &&& match staged {
                            Err(w) => d.stage == Stage::Failed && d.error == "git add after merge failed: "@ + w,
                            Ok(_) => {
                                &&& git_args(d) == Some(seq!["commit"@, "-m"@, "luze sync: merge"@])
                                &&& match done {
                                    Err(w) => e.stage == Stage::Failed && e.error
                                        == "git commit after merge failed: "@ + w,
                                    Ok(_) => {
                                        &&& e.stage == Stage::After
                                        &&& e.renames == all_renames(r)
                                        &&& e.remote == s.remote
                                        &&& e.branch == s.branch
                                        &&& e.tracking == s.tracking
                                        &&& e.fetched == s.fetched
                                        &&& e.before == s.before
                                        &&& e.updates == s.updates
                                        &&& e.short == s.short
                                    },
                                }
                            },
                        }
                    },
                }
            }
        }),
{
}

/// A pull or a merge that goes well leads on, with all that was known.
pub proof fn law_pull_goes_well(s: SyncView, out: Seq<char>)
    requires
        s.stage == Stage::Pull || s.stage == Stage::Merge,
    ensures
        answered(s, Ok(out)) == (SyncView { stage: Stage::After, ..s }),
{
}

/// A push that fails fails the sync, with what git said.
pub proof fn law_push_fails(s: SyncView, why: Seq<char>)
    requires
        s.stage == Stage::Push,
    ensures
        answered(s, Err(why)).stage == Stage::Failed,
        answered(s, Err(why)).error == "git push failed: "@ + why,
        answered(s, Err(why)).fault == s.fault,
{
}

/// What a sync hears without having asked changes nothing: at its end, or while it waits
/// for the draws to be resolved.
pub proof fn law_unasked_changes_nothing(
    s: SyncView,
    out: Result<Seq<char>, Seq<char>>,
    reports: Result<Seq<MergeReport>, Seq<char>>,
)
    ensures
        s.stage == Stage::Resolve || s.stage == Stage::Done || s.stage == Stage::Failed ==> answered(s, out) == s
            && git_args(s) is None,
        s.stage != Stage::Resolve ==> settled(s, reports) == s,
{
}

} // verus!
