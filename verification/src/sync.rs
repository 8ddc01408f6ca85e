//! The steps of a sync: commit local changes, pull, resolve conflicts, push.

use crate::git::{
    branch_of, conflicted, count_of, git_current_branch, git_has_conflicts, git_has_other_conflicts,
    git_has_uncommitted, git_has_upstream, git_remote, git_unpushed_count, remote_of, said,
    strayed, uncommitted,
};
use crate::id::ID;
use crate::merge::{all_renames, pairs, renames, MergeReport};
use crate::text::{add_line, chars_of, join2, strings};
use vstd::prelude::*;

verus! {

/// Outcome of a sync.
#[derive(Debug)]
pub struct SyncReport {
    /// Number of commits pulled from the remote.
    pub updates: usize,
    /// Short commit hash before the pull (empty if unknown).
    pub commit_before: String,
    /// Short commit hash after the pull.
    pub commit_after: String,
    /// Draw-conflict renames applied during the pull: `(original_id, renamed_to_id)`.
    pub renames: Vec<(ID, ID)>,
}

/// How far a sync has come: what it waits to hear of.
#[derive(Debug, Clone, Copy, PartialEq, Eq, Structural)]
pub enum Stage {
    /// Which remotes there are.
    Remote,
    /// Whether there are local changes.
    Status,
    /// That they were staged.
    Add,
    /// That they were committed.
    Commit,
    /// Which branch this is.
    Branch,
    /// Whether it tracks an upstream.
    Upstream,
    /// The commit before the pull.
    Before,
    /// That the pull went well.
    Pull,
    /// Whether the remote has the branch.
    Fetch,
    /// That its branch was merged.
    Merge,
    /// Whether the pull left conflicts.
    Conflicts,
    /// That the draw files were resolved and the index rebuilt.
    Resolve,
    /// That the resolution was staged.
    AddMerged,
    /// That the resolution was committed.
    CommitMerged,
    /// The commit after the pull.
    After,
    /// The short hash of the commit before the pull.
    ShortBefore,
    /// How many commits were pulled.
    Count,
    /// That the push went well.
    Push,
    /// Nothing: the sync is done.
    Done,
    /// Nothing: the sync failed.
    Failed,
}

/// What kind of failure a sync came to.
#[derive(Debug, Clone, Copy, PartialEq, Eq, Structural)]
pub enum Fault {
    /// Something that a sync needs is not there: the repository, or a remote.
    NotFound,
    /// Something went wrong on the way.
    Other,
}

/// A sync on its way.
#[derive(Debug)]
pub struct Sync {
    stage: Stage,
    message: String,
    remote: String,
    branch: String,
    tracking: bool,
    before: String,
    fetched: bool,
    error: String,
    fault: Fault,
    unresolved: bool,
    renames: Vec<(ID, ID)>,
    after: String,
    short: String,
    updates: usize,
}

/// What a sync knows.
#[verifier::ext_equal]
pub struct SyncView {
    pub stage: Stage,
    /// The message for the commit of local changes.
    pub message: Seq<char>,
    pub remote: Seq<char>,
    pub branch: Seq<char>,
    /// Whether the branch tracks an upstream.
    pub tracking: bool,
    /// The commit before the pull, empty where there is none.
    pub before: Seq<char>,
    /// Whether the branch was fetched by name.
    pub fetched: bool,
    /// Why the pull or the whole sync failed.
    pub error: Seq<char>,
    /// What kind of failure it is, where the sync failed.
    pub fault: Fault,
    /// Whether the pull left conflicts in files outside the box.
    pub unresolved: bool,
    pub renames: Seq<(Seq<char>, Seq<char>)>,
    /// The short hash of the commit after the pull.
    pub after: Seq<char>,
    /// The short hash of the commit before the pull.
    pub short: Seq<char>,
    /// How many commits were pulled.
    pub updates: nat,
}

impl View for Sync {
    type V = SyncView;

    closed spec fn view(&self) -> SyncView {
        SyncView {
            stage: self.stage,
            message: self.message@,
            remote: self.remote@,
            branch: self.branch@,
            tracking: self.tracking,
            before: self.before@,
            fetched: self.fetched,
            error: self.error@,
            fault: self.fault,
            unresolved: self.unresolved,
            renames: pairs(self.renames@),
            after: self.after@,
            short: self.short@,
            updates: self.updates as nat,
        }
    }
}

/// What has to be done next.
#[derive(Debug)]
pub enum Task {
    /// Run git with these arguments, and hand over what it came to with [`Sync::answer`].
    Git(Vec<String>),
    /// Resolve the conflicts in the draw files, rebuild the index, and hand over the
    /// reports with [`Sync::resolved`].
    Resolve,
    /// Nothing: the sync is done.
    Finish(SyncReport),
    /// Nothing: the sync failed.
    Fail(String),
}

/// What the remote has: the upstream that the branch tracks, or else the remote's branch
/// of the same name.
pub open spec fn remote_side(s: SyncView) -> Seq<char> {
    if s.tracking {
        "@{u}"@
    } else {
        s.remote + "/"@ + s.branch
    }
}

/// The arguments that git is to be run with at a stage.
pub open spec fn git_args(s: SyncView) -> Option<Seq<Seq<char>>> {
    match s.stage {
        Stage::Remote => Some(seq!["remote"@]),
        Stage::Status => Some(seq!["status"@, "--porcelain"@]),
        Stage::Add => Some(seq!["add"@, "-A"@]),
        Stage::Commit => Some(seq!["commit"@, "-m"@, s.message]),
        Stage::Branch => Some(seq!["rev-parse"@, "--abbrev-ref"@, "HEAD"@]),
        Stage::Upstream => Some(seq!["rev-parse"@, "--abbrev-ref"@, "@{u}"@]),
        Stage::Before => Some(seq!["rev-parse"@, "HEAD"@]),
        Stage::Pull => Some(seq!["pull"@]),
        Stage::Fetch => Some(seq!["fetch"@, s.remote, s.branch]),
        Stage::Merge => Some(seq!["merge"@, s.remote + "/"@ + s.branch]),
        Stage::Conflicts => Some(seq!["status"@, "--porcelain"@]),
        Stage::Resolve => None,
        Stage::AddMerged => Some(seq!["add"@, "-A"@]),
        Stage::CommitMerged => Some(seq!["commit"@, "-m"@, "luze sync: merge"@]),
        Stage::After => Some(seq!["rev-parse"@, "--short"@, "HEAD"@]),
        Stage::ShortBefore => Some(seq!["rev-parse"@, "--short"@, s.before]),
        Stage::Count => Some(seq!["rev-list"@, "--count"@, s.before + ".."@ + remote_side(s)]),
        Stage::Push => Some(
            if s.tracking {
                seq!["push"@]
            } else {
                seq!["push"@, "-u"@, s.remote, s.branch]
            },
        ),
        Stage::Done => None,
        Stage::Failed => None,
    }
}

/// A sync that failed, with the reason.
pub open spec fn failed(s: SyncView, why: Seq<char>) -> SyncView {
    SyncView { stage: Stage::Failed, error: why, ..s }
}

/// A sync that failed for want of something that it needs.
pub open spec fn not_found(s: SyncView, why: Seq<char>) -> SyncView {
    SyncView { fault: Fault::NotFound, ..failed(s, why) }
}

/// Goes on to `next` where git did what it was asked, or fails with its complaint.
pub open spec fn unless_failed(
    s: SyncView,
    out: Result<Seq<char>, Seq<char>>,
    next: Stage,
    complaint: Seq<char>,
) -> SyncView {
    match out {
        Ok(_) => SyncView { stage: next, ..s },
        Err(e) => failed(s, complaint + e),
    }
}

/// What git printed, empty where it failed.
pub open spec fn printed(out: Result<Seq<char>, Seq<char>>) -> Seq<char> {
    match out {
        Ok(t) => t,
        Err(_) => Seq::empty(),
    }
}

/// Where a sync stands once it has heard what git came to.
pub open spec fn answered(s: SyncView, out: Result<Seq<char>, Seq<char>>) -> SyncView {
    match s.stage {
        Stage::Remote => match remote_of(out) {
            Some(r) => SyncView { stage: Stage::Status, remote: r, ..s },
            None => not_found(s, "no git remote configured"@),
        },
        Stage::Status => if uncommitted(out) {
            SyncView { stage: Stage::Add, ..s }
        } else {
            SyncView { stage: Stage::Branch, ..s }
        },
        Stage::Add => unless_failed(s, out, Stage::Commit, "git add failed: "@),
        Stage::Commit => unless_failed(s, out, Stage::Branch, "git commit failed: "@),
        Stage::Branch => SyncView {
            stage: Stage::Upstream,
            branch: match branch_of(out) {
                Some(b) => b,
                None => "main"@,
            },
            ..s
        },
        Stage::Upstream => SyncView { stage: Stage::Before, tracking: out is Ok, ..s },
        Stage::Before => SyncView {
            stage: if s.tracking {
                Stage::Pull
            } else {
                Stage::Fetch
            },
            before: printed(out),
            ..s
        },
        Stage::Pull | Stage::Merge => match out {
            Ok(_) => SyncView { stage: Stage::After, ..s },
            Err(e) => SyncView { stage: Stage::Conflicts, error: e, ..s },
        },
        Stage::Fetch => SyncView {
            stage: if out is Ok {
                Stage::Merge
            } else {
                Stage::After
            },
            fetched: out is Ok,
            ..s
        },
        Stage::Conflicts => if conflicted(out) {
            SyncView { stage: Stage::Resolve, unresolved: strayed(out), ..s }
        } else {
            failed(s, "git pull failed: "@ + s.error)
        },
        Stage::AddMerged => unless_failed(s, out, Stage::CommitMerged, "git add after merge failed: "@),
        Stage::CommitMerged => unless_failed(s, out, Stage::After, "git commit after merge failed: "@),
        Stage::After => SyncView {
            stage: if s.before.len() == 0 {
                Stage::Push
            } else {
                Stage::ShortBefore
            },
            after: printed(out),
            ..s
        },
        Stage::ShortBefore => SyncView {
            stage: if s.tracking || s.fetched {
                Stage::Count
            } else {
                Stage::Push
            },
            short: printed(out),
            ..s
        },
        Stage::Count => SyncView { stage: Stage::Push, updates: count_of(out), ..s },
        Stage::Push => unless_failed(s, out, Stage::Done, "git push failed: "@),
        Stage::Resolve | Stage::Done | Stage::Failed => s,
    }
}

/// Where a sync stands once it has heard what resolving the draw files came to.
pub open spec fn settled(s: SyncView, reports: Result<Seq<MergeReport>, Seq<char>>) -> SyncView {
    if s.stage != Stage::Resolve {
        s
    } else {
        match reports {
            Err(e) => failed(s, e),
            Ok(r) => if s.unresolved {
                failed(s, "git pull failed with non-draw conflicts: "@ + s.error)
            } else {
                SyncView { stage: Stage::AddMerged, renames: all_renames(r), ..s }
            },
        }
    }
}

/// A list of one text.
fn words1(a: &str) -> (r: Vec<String>)
    ensures
        strings(r@) == seq![a@],
{
    let mut r: Vec<String> = Vec::new();
    add_line(&mut r, a.to_owned());
    assert(strings(r@) =~= seq![a@]);
    r
}

/// A list of two texts.
fn words2(a: &str, b: &str) -> (r: Vec<String>)
    ensures
        strings(r@) == seq![a@, b@],
{
    let mut r = words1(a);
    add_line(&mut r, b.to_owned());
    assert(strings(r@) =~= seq![a@, b@]);
    r
}

/// A list of three texts.
fn words3(a: &str, b: &str, c: &str) -> (r: Vec<String>)
    ensures
        strings(r@) == seq![a@, b@, c@],
{
    let mut r = words2(a, b);
    add_line(&mut r, c.to_owned());
    assert(strings(r@) =~= seq![a@, b@, c@]);
    r
}

/// A list of four texts.
fn words4(a: &str, b: &str, c: &str, d: &str) -> (r: Vec<String>)
    ensures
        strings(r@) == seq![a@, b@, c@, d@],
{
    let mut r = words3(a, b, c);
    add_line(&mut r, d.to_owned());
    assert(strings(r@) =~= seq![a@, b@, c@, d@]);
    r
}

/// What git printed, empty where it failed.
fn printed_text(out: Result<String, String>) -> (r: String)
    ensures
        r@ == printed(said(out)),
{
    match out {
        Ok(s) => s,
        Err(_) => {
            let r = String::new();
            assert(r@ =~= Seq::<char>::empty());
            r
        },
    }
}

/// The state that a sync of `dir` begins in.
pub open spec fn begun(dir: Seq<char>, is_repo: bool, message: Seq<char>) -> SyncView {
    let s = SyncView {
        stage: Stage::Remote,
        message,
        remote: Seq::empty(),
        branch: Seq::empty(),
        tracking: false,
        before: Seq::empty(),
        fetched: false,
        error: Seq::empty(),
        fault: Fault::Other,
        unresolved: false,
        renames: Seq::empty(),
        after: Seq::empty(),
        short: Seq::empty(),
        updates: 0,
    };
    if is_repo {
        s
    } else {
        not_found(s, dir + " is not a git repository"@)
    }
}

/// Begins a sync of `dir`, which is a git repository or not. Local changes, if any, are
/// committed with `message`; then the sync pulls, resolves draw conflicts, and pushes.
pub fn sync(dir: &str, is_repo: bool, message: &str) -> (r: Sync)
    ensures
        r@ == begun(dir@, is_repo, message@),
{
    let mut r = Sync {
        stage: Stage::Remote,
        message: message.to_owned(),
        remote: String::new(),
        branch: String::new(),
        tracking: false,
        before: String::new(),
        fetched: false,
        error: String::new(),
        fault: Fault::Other,
        unresolved: false,
        renames: Vec::new(),
        after: String::new(),
        short: String::new(),
        updates: 0,
    };
    if !is_repo {
        r.stage = Stage::Failed;
        r.fault = Fault::NotFound;
        r.error = join2(dir, " is not a git repository");
    }
    assert(r@ =~= begun(dir@, is_repo, message@));
    r
}

/// A copy of a list of pairs of IDs.
fn copy_pairs(s: &Vec<(ID, ID)>) -> (r: Vec<(ID, ID)>)
    ensures
        pairs(r@) == pairs(s@),
{
    let mut r: Vec<(ID, ID)> = Vec::new();
    assert(pairs(r@) =~= pairs(s@).take(0));
    for i in 0..s.len()
        invariant
            pairs(r@) == pairs(s@).take(i as int),
    {
        let ghost before = pairs(r@);
        let (a, b) = &s[i];
        r.push((a.clone(), b.clone()));
        assert(pairs(r@) =~= before.push(pairs(s@)[i as int]));
        assert(pairs(s@).take(i + 1) =~= pairs(s@).take(i as int).push(pairs(s@)[i as int]));
    }
    assert(pairs(s@).take(s@.len() as int) =~= pairs(s@));
    r
}

impl Sync {
    /// What has to be done next.
    pub fn task(&self) -> (r: Task)
        ensures
            match r {
                Task::Git(args) => git_args(self@) == Some(strings(args@)),
                Task::Resolve => self@.stage == Stage::Resolve,
                Task::Finish(report) => {
                    &&& self@.stage == Stage::Done
                    &&& report.updates == self@.updates
                    &&& report.commit_before@ == self@.short
                    &&& report.commit_after@ == self@.after
                    &&& pairs(report.renames@) == self@.renames
                },
                Task::Fail(why) => self@.stage == Stage::Failed && why@ == self@.error,
            },
    {
        match self.stage {
            Stage::Remote => Task::Git(words1("remote")),
            Stage::Status => Task::Git(words2("status", "--porcelain")),
            Stage::Add => Task::Git(words2("add", "-A")),
            Stage::Commit => Task::Git(words3("commit", "-m", self.message.as_str())),
            Stage::Branch => Task::Git(words3("rev-parse", "--abbrev-ref", "HEAD")),
            Stage::Upstream => Task::Git(words3("rev-parse", "--abbrev-ref", "@{u}")),
            Stage::Before => Task::Git(words2("rev-parse", "HEAD")),
            Stage::Pull => Task::Git(words1("pull")),
            Stage::Fetch => Task::Git(words3("fetch", self.remote.as_str(), self.branch.as_str())),
            Stage::Merge => {
                let target = self.remote_branch();
                Task::Git(words2("merge", target.as_str()))
            },
            Stage::Conflicts => Task::Git(words2("status", "--porcelain")),
            Stage::Resolve => Task::Resolve,
            Stage::AddMerged => Task::Git(words2("add", "-A")),
            Stage::CommitMerged => Task::Git(words3("commit", "-m", "luze sync: merge")),
            Stage::After => Task::Git(words3("rev-parse", "--short", "HEAD")),
            Stage::ShortBefore => Task::Git(words3("rev-parse", "--short", self.before.as_str())),
            Stage::Count => {
                let from = join2(self.before.as_str(), "..");
                let range = if self.tracking {
                    join2(from.as_str(), "@{u}")
                } else {
                    let target = self.remote_branch();
                    join2(from.as_str(), target.as_str())
                };
                Task::Git(words3("rev-list", "--count", range.as_str()))
            },
            Stage::Push => if self.tracking {
                Task::Git(words1("push"))
            } else {
                Task::Git(words4("push", "-u", self.remote.as_str(), self.branch.as_str()))
            },
            Stage::Done => Task::Finish(
                SyncReport {
                    updates: self.updates,
                    commit_before: self.short.clone(),
                    commit_after: self.after.clone(),
                    renames: copy_pairs(&self.renames),
                },
            ),
            Stage::Failed => Task::Fail(self.error.clone()),
        }
    }

    /// What kind of failure the sync came to, where it failed.
    pub fn fault(&self) -> (r: Option<Fault>)
        ensures
            r == (if self@.stage == Stage::Failed {
                Some(self@.fault)
            } else {
                None::<Fault>
            }),
    {
        if self.stage == Stage::Failed {
            Some(self.fault)
        } else {
            None
        }
    }

    /// The remote's branch of the same name.
    fn remote_branch(&self) -> (r: String)
        ensures
            r@ == self@.remote + "/"@ + self@.branch,
    {
        let onto = join2(self.remote.as_str(), "/");
        join2(onto.as_str(), self.branch.as_str())
    }

    /// Gives up for the reason `why`.
    fn fail(&mut self, why: String)
        ensures
            final(self)@ == failed(old(self)@, why@),
    {
        self.stage = Stage::Failed;
        self.error = why;
    }

    /// Goes on to `next` where git did what it was asked, or fails with its complaint.
    fn go_on(&mut self, out: Result<String, String>, next: Stage, complaint: &str)
        ensures
            final(self)@ == unless_failed(old(self)@, said(out), next, complaint@),
    {
        match out {
            Ok(_) => {
                self.stage = next;
            },
            Err(e) => {
                self.fail(join2(complaint, e.as_str()));
            },
        }
    }

    /// Takes in what the git command that was asked for came to.
    pub fn answer(&mut self, out: Result<String, String>)
        ensures
            final(self)@ == answered(old(self)@, said(out)),
    {
        let ghost s = self@;
        match self.stage {
            Stage::Remote => match git_remote(&out) {
                Some(remote) => {
                    self.remote = remote;
                    self.stage = Stage::Status;
                },
                None => {
                    self.fault = Fault::NotFound;
                    self.fail("no git remote configured".to_owned());
                },
            },
            Stage::Status => {
                self.stage = if git_has_uncommitted(&out) {
                    Stage::Add
                } else {
                    Stage::Branch
                };
            },
            Stage::Add => self.go_on(out, Stage::Commit, "git add failed: "),
            Stage::Commit => self.go_on(out, Stage::Branch, "git commit failed: "),
            Stage::Branch => {
                self.branch = match git_current_branch(&out) {
                    Some(b) => b,
                    None => "main".to_owned(),
                };
                self.stage = Stage::Upstream;
            },
            Stage::Upstream => {
                self.tracking = git_has_upstream(&out);
                self.stage = Stage::Before;
            },
            Stage::Before => {
                self.before = printed_text(out);
                self.stage = if self.tracking {
                    Stage::Pull
                } else {
                    Stage::Fetch
                };
            },
            Stage::Pull | Stage::Merge => match out {
                Ok(_) => {
                    self.stage = Stage::After;
                },
                Err(e) => {
                    self.error = e;
                    self.stage = Stage::Conflicts;
                },
            },
            Stage::Fetch => {
                // An error means that the remote branch does not exist yet.
                match out {
                    Ok(_) => {
                        self.fetched = true;
                        self.stage = Stage::Merge;
                    },
                    Err(_) => {
                        self.fetched = false;
                        self.stage = Stage::After;
                    },
                }
            },
            Stage::Conflicts => {
                if git_has_conflicts(&out) {
                    self.unresolved = git_has_other_conflicts(&out);
                    self.stage = Stage::Resolve;
                } else {
                    let why = join2("git pull failed: ", self.error.as_str());
                    self.fail(why);
                }
            },
            Stage::AddMerged => self.go_on(out, Stage::CommitMerged, "git add after merge failed: "),
            Stage::CommitMerged => self.go_on(out, Stage::After, "git commit after merge failed: "),
            Stage::After => {
                self.after = printed_text(out);
                self.stage = if chars_of(self.before.as_str()).len() == 0 {
                    Stage::Push
                } else {
                    Stage::ShortBefore
                };
            },
            Stage::ShortBefore => {
                self.short = printed_text(out);
                self.stage = if self.tracking || self.fetched {
                    Stage::Count
                } else {
                    Stage::Push
                };
            },
            Stage::Count => {
                self.updates = git_unpushed_count(&out);
                self.stage = Stage::Push;
            },
            Stage::Push => self.go_on(out, Stage::Done, "git push failed: "),
            Stage::Resolve | Stage::Done | Stage::Failed => {},
        }
        assert(self@ =~= answered(s, said(out)));
    }

    /// Takes in what resolving the conflicts in the draw files came to.
    pub fn resolved(&mut self, reports: Result<Vec<MergeReport>, String>)
        ensures
            final(self)@ == settled(
                old(self)@,
                match reports {
                    Ok(r) => Ok::<Seq<MergeReport>, Seq<char>>(r@),
                    Err(e) => Err::<Seq<MergeReport>, Seq<char>>(e@),
                },
            ),
    {
        if self.stage != Stage::Resolve {
            return;
        }
        match reports {
            Err(e) => {
                self.fail(e);
            },
            Ok(r) => {
                if self.unresolved {
                    let why = join2("git pull failed with non-draw conflicts: ", self.error.as_str());
                    self.fail(why);
                } else {
                    self.renames = renames(&r);
                    self.stage = Stage::AddMerged;
                }
            },
        }
    }
}

// ── Runs ─────────────────────────────────────────────────────────────────────

/// Something that a sync hears of.
pub enum Event {
    Said(Result<Seq<char>, Seq<char>>),
    Settled(Result<Seq<MergeReport>, Seq<char>>),
}

/// The event is what the sync waits for.
pub open spec fn awaited(s: SyncView, e: Event) -> bool {
    match e {
        Event::Said(_) => git_args(s) is Some,
        Event::Settled(_) => s.stage == Stage::Resolve,
    }
}

/// Where a sync stands after an event.
#[verifier::opaque]
pub open spec fn heard(s: SyncView, e: Event) -> SyncView {
    match e {
        Event::Said(out) => answered(s, out),
        Event::Settled(reports) => settled(s, reports),
    }
}

/// Where a sync stands after some events.
pub open spec fn run(s: SyncView, events: Seq<Event>) -> SyncView
    decreases events.len(),
{
    if events.len() == 0 {
        s
    } else {
        heard(run(s, events.drop_last()), events.last())
    }
}

/// Each event is what the sync waited for when it came.
#[verifier::opaque]
pub open spec fn orderly(s: SyncView, events: Seq<Event>) -> bool {
    forall|i: int| 0 <= i < events.len() ==> awaited(run(s, events.take(i)), #[trigger] events[i])
}

/// How far along a stage is.
pub open spec fn progress(stage: Stage) -> int {
    match stage {
        Stage::Remote => 0,
        Stage::Status => 1,
        Stage::Add => 2,
        Stage::Commit => 3,
        Stage::Branch => 4,
        Stage::Upstream => 5,
        Stage::Before => 6,
        Stage::Fetch => 7,
        Stage::Pull => 8,
        Stage::Merge => 8,
        Stage::Conflicts => 9,
        Stage::Resolve => 10,
        Stage::AddMerged => 11,
        Stage::CommitMerged => 12,
        Stage::After => 13,
        Stage::ShortBefore => 14,
        Stage::Count => 15,
        Stage::Push => 16,
        Stage::Done => 17,
        Stage::Failed => 17,
    }
}

/// What an event does to the stage of a sync.
proof fn lemma_heard(s: SyncView, e: Event)
    ensures
        awaited(s, e) ==> progress(heard(s, e).stage) > progress(s.stage),
        s.stage == Stage::Failed ==> heard(s, e) == s,
        awaited(s, e) && heard(s, e).stage != Stage::Failed ==> match s.stage {
            Stage::Conflicts => heard(s, e).stage == Stage::Resolve,
            Stage::Resolve => heard(s, e).stage == Stage::AddMerged,
            Stage::AddMerged => heard(s, e).stage == Stage::CommitMerged,
            Stage::CommitMerged => heard(s, e).stage == Stage::After,
            _ => true,
        },
        (s.stage == Stage::Pull || s.stage == Stage::Merge) && (e matches Event::Said(Err(_))) ==> heard(
            s,
            e,
        ).stage == Stage::Conflicts,
{
    reveal(heard);
}

/// What was said where a sync went on.
proof fn lemma_heard_well(s: SyncView, e: Event)
    requires
        heard(s, e).stage != Stage::Failed,
    ensures
        (s.stage == Stage::Add || s.stage == Stage::Commit || s.stage == Stage::AddMerged || s.stage
            == Stage::CommitMerged) && e is Said ==> e->Said_0 is Ok,
        s.stage == Stage::Conflicts && e is Said ==> conflicted(e->Said_0),
        s.stage == Stage::Resolve && e is Settled ==> e->Settled_0 is Ok,
{
    reveal(heard);
}

/// One event more.
proof fn lemma_run_next(s: SyncView, events: Seq<Event>, i: int)
    requires
        0 <= i < events.len(),
    ensures
        run(s, events.take(i + 1)) == heard(run(s, events.take(i)), events[i]),
{
    assert(events.take(i + 1).drop_last() =~= events.take(i));
    assert(events.take(i + 1).last() == events[i]);
}

/// A sync that runs as it asks to comes to an end: every event takes it further, and
/// after 17 at most it is done or has failed.
pub proof fn law_sync_ends(s: SyncView, events: Seq<Event>)
    requires
        orderly(s, events),
    ensures
        progress(run(s, events).stage) >= progress(s.stage) + events.len(),
        events.len() <= 17,
    decreases events.len(),
{
    reveal(orderly);
    if events.len() > 0 {
        let n = events.len() - 1;
        let before = events.take(n);
        assert forall|i: int| 0 <= i < before.len() implies awaited(run(s, before.take(i)), #[trigger] before[i]) by {
            assert(before.take(i) =~= events.take(i));
            assert(before[i] == events[i]);
        }
        law_sync_ends(s, before);
        assert(events.drop_last() =~= before);
        assert(awaited(run(s, events.take(n)), events[n]));
        lemma_heard(run(s, before), events[n]);
    }
}

/// A sync that has failed stays so: whatever it hears, it asks for nothing more.
pub proof fn law_failure_is_final(s: SyncView, events: Seq<Event>, i: int)
    requires
        0 <= i <= events.len(),
        run(s, events.take(i)).stage == Stage::Failed,
    ensures
        run(s, events) == run(s, events.take(i)),
        git_args(run(s, events)) is None,
    decreases events.len(),
{
    if i == events.len() {
        assert(events.take(i) =~= events);
    } else {
        let before = events.drop_last();
        assert(before.take(i) =~= events.take(i));
        law_failure_is_final(s, before, i);
        lemma_heard(run(s, before), events.last());
    }
}

/// A sync that waits for its files to be resolved while there are conflicts outside the
/// box, or that has failed, does not come to push.
proof fn lemma_unresolved(s: SyncView, events: Seq<Event>, i: int)
    requires
        0 <= i <= events.len(),
        run(s, events.take(i)).stage == Stage::Resolve && run(s, events.take(i)).unresolved,
    ensures
        ({
            let r = run(s, events);
            r.stage == Stage::Failed || r.stage == Stage::Resolve && r.unresolved
        }),
    decreases events.len(),
{
    if i == events.len() {
        assert(events.take(i) =~= events);
    } else {
        let before = events.drop_last();
        assert(before.take(i) =~= events.take(i));
        lemma_unresolved(s, before, i);
        reveal(heard);
    }
}

/// What a sync makes of conflicts.
proof fn lemma_heard_of_conflicts(s: SyncView, e: Event)
    requires
        s.stage == Stage::Conflicts,
        e is Said,
    ensures
        heard(s, e).stage == (if conflicted(e->Said_0) {
            Stage::Resolve
        } else {
            Stage::Failed
        }),
        conflicted(e->Said_0) ==> heard(s, e).unresolved == strayed(e->Said_0),
{
    reveal(heard);
}

/// A sync pushes only what went well: when it comes to push, whatever it staged or
/// committed on the way was staged and committed, and where the pull left conflicts, they
/// were in no file but the index and the draws, which were resolved.
pub proof fn law_push_is_earned(s: SyncView, events: Seq<Event>)
    requires
        run(s, events).stage == Stage::Push || run(s, events).stage == Stage::Done,
    ensures
        forall|i: int|
            #![trigger events[i]]
            0 <= i < events.len() ==> {
                let stage = run(s, events.take(i)).stage;
                &&& (stage == Stage::Add || stage == Stage::Commit || stage == Stage::AddMerged || stage
                    == Stage::CommitMerged) && events[i] is Said ==> events[i]->Said_0 is Ok
                &&& stage == Stage::Conflicts && events[i] is Said ==> {
                    &&& conflicted(events[i]->Said_0)
                    &&& !strayed(events[i]->Said_0)
                }
                &&& stage == Stage::Resolve && events[i] is Settled ==> events[i]->Settled_0 is Ok
            },
{
    assert forall|i: int| 0 <= i < events.len() implies {
        let stage = run(s, events.take(i)).stage;
        &&& (stage == Stage::Add || stage == Stage::Commit || stage == Stage::AddMerged || stage
            == Stage::CommitMerged) && (#[trigger] events[i]) is Said ==> events[i]->Said_0 is Ok
        &&& stage == Stage::Conflicts && events[i] is Said ==> {
            &&& conflicted(events[i]->Said_0)
            &&& !strayed(events[i]->Said_0)
        }
        &&& stage == Stage::Resolve && events[i] is Settled ==> events[i]->Settled_0 is Ok
    } by {
        let now = run(s, events.take(i));
        lemma_run_next(s, events, i);
        if run(s, events.take(i + 1)).stage == Stage::Failed {
            law_failure_is_final(s, events, i + 1);
        } else {
            lemma_heard_well(now, events[i]);
            if now.stage == Stage::Conflicts && events[i] is Said {
                lemma_heard_of_conflicts(now, events[i]);
                if strayed(events[i]->Said_0) {
                    lemma_unresolved(s, events, i + 1);
                }
            }
        }
    }
}

/// A pull that failed is pushed only after the conflicts it left were resolved and the
/// resolution committed: from the failed pull on, the sync asks for the status, for the
/// draw files to be resolved, and for the resolution to be staged and committed.
pub proof fn law_conflicts_come_before_push(s: SyncView, events: Seq<Event>, i: int)
    requires
        orderly(s, events),
        run(s, events).stage == Stage::Push || run(s, events).stage == Stage::Done,
        0 <= i < events.len(),
        run(s, events.take(i)).stage == Stage::Pull || run(s, events.take(i)).stage == Stage::Merge,
        events[i] matches Event::Said(Err(_)),
    ensures
        i + 5 <= events.len(),
        run(s, events.take(i + 1)).stage == Stage::Conflicts,
        run(s, events.take(i + 2)).stage == Stage::Resolve,
        run(s, events.take(i + 3)).stage == Stage::AddMerged,
        run(s, events.take(i + 4)).stage == Stage::CommitMerged,
        run(s, events.take(i + 5)).stage == Stage::After,
{
    lemma_run_next(s, events, i);
    lemma_heard(run(s, events.take(i)), events[i]);
    lemma_conflicts_step(s, events, i + 1);
    lemma_conflicts_step(s, events, i + 2);
    lemma_conflicts_step(s, events, i + 3);
    lemma_conflicts_step(s, events, i + 4);
}

/// Each stage of resolving conflicts leads to the next where the sync goes on to push.
proof fn lemma_conflicts_step(s: SyncView, events: Seq<Event>, i: int)
    requires
        orderly(s, events),
        run(s, events).stage == Stage::Push || run(s, events).stage == Stage::Done,
        0 <= i <= events.len(),
        9 <= progress(run(s, events.take(i)).stage) <= 12,
    ensures
        i < events.len(),
        match run(s, events.take(i)).stage {
            Stage::Conflicts => run(s, events.take(i + 1)).stage == Stage::Resolve,
            Stage::Resolve => run(s, events.take(i + 1)).stage == Stage::AddMerged,
            Stage::AddMerged => run(s, events.take(i + 1)).stage == Stage::CommitMerged,
            _ => run(s, events.take(i + 1)).stage == Stage::After,
        },
{
    if i == events.len() {
        assert(events.take(i) =~= events);
    } else {
        lemma_run_next(s, events, i);
        reveal(orderly);
        assert(awaited(run(s, events.take(i)), events[i]));
        lemma_heard(run(s, events.take(i)), events[i]);
        if run(s, events.take(i + 1)).stage == Stage::Failed {
            law_failure_is_final(s, events, i + 1);
        }
    }
}

/// Local changes are staged and committed, with the message given, before anything is
/// pulled: where git lists changes, nothing but the two commands comes next.
pub proof fn law_changes_are_committed_first(s: SyncView, status: Seq<char>, added: Seq<char>)
    requires
        s.stage == Stage::Status,
        status.len() > 0,
    ensures
        ({
            let a = answered(s, Ok(status));
            let c = answered(a, Ok(added));
            &&& git_args(a) == Some(seq!["add"@, "-A"@])
            &&& git_args(c) == Some(seq!["commit"@, "-m"@, s.message])
            &&& forall|out: Result<Seq<char>, Seq<char>>| (#[trigger] answered(c, out)).stage == (if out is Ok {
                Stage::Branch
            } else {
                Stage::Failed
            })
        }),
{
}

/// Without a repository or without a remote a sync fails at once, having changed nothing,
/// because something is not found.
pub proof fn law_no_remote_no_sync(dir: Seq<char>, message: Seq<char>, out: Result<Seq<char>, Seq<char>>)
    requires
        remote_of(out) is None,
    ensures
        git_args(begun(dir, true, message)) == Some(seq!["remote"@]),
        answered(begun(dir, true, message), out).stage == Stage::Failed,
        answered(begun(dir, true, message), out).error == "no git remote configured"@,
        answered(begun(dir, true, message), out).fault == Fault::NotFound,
        begun(dir, false, message).stage == Stage::Failed,
        begun(dir, false, message).error == dir + " is not a git repository"@,
        begun(dir, false, message).fault == Fault::NotFound,
{
}

/// Once a remote is known, nothing more is missing.
proof fn lemma_fault_stays(s: SyncView, e: Event)
    ensures
        s.stage != Stage::Remote ==> heard(s, e).fault == s.fault && heard(s, e).stage != Stage::Remote,
        s.stage == Stage::Remote && e is Said ==> {
            &&& heard(s, e).stage != Stage::Remote
            &&& heard(s, e).fault == (if remote_of(e->Said_0) is None {
                Fault::NotFound
            } else {
                s.fault
            })
        },
{
    reveal(heard);
}

/// Nothing but the want of a repository or of a remote gives that kind of failure: a sync
/// of a repository comes to it exactly where the first thing it hears names no remote.
pub proof fn law_not_found_is_no_remote(dir: Seq<char>, message: Seq<char>, events: Seq<Event>)
    requires
        orderly(begun(dir, true, message), events),
    ensures
        (run(begun(dir, true, message), events).fault == Fault::NotFound) == (events.len() > 0
            && events[0] is Said && remote_of(events[0]->Said_0) is None),
        events.len() > 0 ==> run(begun(dir, true, message), events).stage != Stage::Remote,
    decreases events.len(),
{
    let s = begun(dir, true, message);
    reveal(orderly);
    if events.len() > 0 {
        let n = events.len() - 1;
        let before = events.drop_last();
        assert forall|i: int| 0 <= i < before.len() implies awaited(
            run(s, before.take(i)),
            #[trigger] before[i],
        ) by {
            assert(before.take(i) =~= events.take(i));
            assert(before[i] == events[i]);
        }
        law_not_found_is_no_remote(dir, message, before);
        lemma_fault_stays(run(s, before), events[n]);
        if n == 0 {
            assert(events.take(0) =~= before);
            assert(awaited(run(s, events.take(0)), events[0]));
        } else {
            assert(before[0] == events[0]);
        }
    }
}

} // verus!
