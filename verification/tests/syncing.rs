use luze::git::{git_has_conflicts, git_has_other_conflicts};
use luze::lock::{after_attempt, is_stale, Attempt, Next};
use luze::sync::{Fault, Sync, Task};
use luze::{
    git_current_branch, git_has_uncommitted, git_has_upstream, git_remote, git_run,
    git_unpushed_count, sync, MergeAction, MergeReport, ID,
};

fn ok(text: &str) -> Result<String, String> {
    Ok(text.to_string())
}

fn err(text: &str) -> Result<String, String> {
    Err(text.to_string())
}

/// Answers the next command, which has to be `args`.
fn expect(s: &mut Sync, args: &[&str], out: Result<String, String>) {
    match s.task() {
        Task::Git(found) => assert_eq!(found, args),
        other => panic!("{other:?}"),
    }
    s.answer(out);
}

fn failure(s: &Sync) -> String {
    match s.task() {
        Task::Fail(why) => why,
        other => panic!("{other:?}"),
    }
}

/// A sync of a tracked branch without local changes, up to the pull.
fn up_to_pull() -> Sync {
    let mut s = sync("box", true, "message");
    expect(&mut s, &["remote"], ok("origin\nother"));
    expect(&mut s, &["status", "--porcelain"], ok(""));
    expect(&mut s, &["rev-parse", "--abbrev-ref", "HEAD"], ok("work"));
    expect(&mut s, &["rev-parse", "--abbrev-ref", "@{u}"], ok("origin/work"));
    expect(&mut s, &["rev-parse", "HEAD"], ok("abcdef"));
    s
}

fn renamed() -> Vec<MergeReport> {
    let action = MergeAction::Renamed { original: ID::from("1"), renamed_to: ID::from("1a") };
    vec![MergeReport { draw: 1, actions: vec![action] }]
}

#[test]
fn what_git_says_is_trimmed() {
    assert_eq!(git_run(true, "  out \u{3000}\n", "err"), ok("out"));
    assert_eq!(git_run(false, "out", "\t err\n"), err("err"));
    assert_eq!(git_run(true, " \n", ""), ok(""));
}

#[test]
fn what_git_says_is_understood() {
    assert_eq!(git_remote(&ok("origin\nother")), Some("origin".to_string()));
    assert_eq!(git_remote(&ok("")), None);
    assert_eq!(git_remote(&err("no")), None);
    assert!(git_has_uncommitted(&ok("M a")));
    assert!(!git_has_uncommitted(&ok("")));
    assert!(!git_has_uncommitted(&err("no")));
    assert_eq!(git_current_branch(&ok("main")), Some("main".to_string()));
    assert_eq!(git_current_branch(&ok("HEAD")), None);
    assert_eq!(git_current_branch(&ok("")), None);
    assert_eq!(git_current_branch(&err("no")), None);
    assert!(git_has_upstream(&ok("origin/main")));
    assert!(!git_has_upstream(&err("no")));
    assert_eq!(git_unpushed_count(&ok("12")), 12);
    assert_eq!(git_unpushed_count(&ok("x")), 0);
    assert_eq!(git_unpushed_count(&err("3")), 0);
    for mark in ["DD", "AU", "UD", "UA", "DU", "AA", "UU"] {
        assert!(git_has_conflicts(&Ok(format!("M a\n{mark} draws/1.json"))));
    }
    assert!(!git_has_conflicts(&ok("M a\n?? UU")));
    assert!(!git_has_conflicts(&err("UU")));
}

#[test]
fn a_sync_commits_pulls_and_pushes() {
    let mut s = sync("box", true, "message");
    expect(&mut s, &["remote"], ok("origin"));
    expect(&mut s, &["status", "--porcelain"], ok("M draws/1.json"));
    expect(&mut s, &["add", "-A"], ok(""));
    expect(&mut s, &["commit", "-m", "message"], ok("done"));
    expect(&mut s, &["rev-parse", "--abbrev-ref", "HEAD"], ok("HEAD"));
    expect(&mut s, &["rev-parse", "--abbrev-ref", "@{u}"], ok("origin/main"));
    expect(&mut s, &["rev-parse", "HEAD"], ok("abcdef"));
    expect(&mut s, &["pull"], ok(""));
    expect(&mut s, &["rev-parse", "--short", "HEAD"], ok("fed"));
    expect(&mut s, &["rev-parse", "--short", "abcdef"], ok("abc"));
    expect(&mut s, &["rev-list", "--count", "abcdef..@{u}"], ok("4"));
    expect(&mut s, &["push"], ok(""));
    match s.task() {
        Task::Finish(report) => {
            assert_eq!(report.updates, 4);
            assert_eq!(report.commit_before, "abc");
            assert_eq!(report.commit_after, "fed");
            assert!(report.renames.is_empty());
        }
        other => panic!("{other:?}"),
    }
    assert_eq!(s.fault(), None);
}

#[test]
fn a_first_sync_sets_the_upstream() {
    let mut s = sync("box", true, "message");
    expect(&mut s, &["remote"], ok("origin"));
    expect(&mut s, &["status", "--porcelain"], ok(""));
    expect(&mut s, &["rev-parse", "--abbrev-ref", "HEAD"], err("no commits"));
    expect(&mut s, &["rev-parse", "--abbrev-ref", "@{u}"], err("none"));
    expect(&mut s, &["rev-parse", "HEAD"], err("none"));
    expect(&mut s, &["fetch", "origin", "main"], err("no such branch"));
    expect(&mut s, &["rev-parse", "--short", "HEAD"], ok("fed"));
    expect(&mut s, &["push", "-u", "origin", "main"], err("rejected"));
    assert_eq!(failure(&s), "git push failed: rejected");
    assert_eq!(s.fault(), Some(Fault::Other));
}

#[test]
fn what_was_pulled_is_counted_on_the_remote_side() {
    let untracked = || {
        let mut s = sync("box", true, "message");
        expect(&mut s, &["remote"], ok("origin"));
        expect(&mut s, &["status", "--porcelain"], ok(""));
        expect(&mut s, &["rev-parse", "--abbrev-ref", "HEAD"], ok("work"));
        expect(&mut s, &["rev-parse", "--abbrev-ref", "@{u}"], err("none"));
        expect(&mut s, &["rev-parse", "HEAD"], ok("abcdef"));
        s
    };
    let mut s = untracked();
    expect(&mut s, &["fetch", "origin", "work"], ok(""));
    expect(&mut s, &["merge", "origin/work"], ok(""));
    expect(&mut s, &["rev-parse", "--short", "HEAD"], ok("fed"));
    expect(&mut s, &["rev-parse", "--short", "abcdef"], ok("abc"));
    expect(&mut s, &["rev-list", "--count", "abcdef..origin/work"], ok("2"));
    expect(&mut s, &["push", "-u", "origin", "work"], ok(""));
    assert!(matches!(s.task(), Task::Finish(report) if report.updates == 2));

    let mut s = untracked();
    expect(&mut s, &["fetch", "origin", "work"], err("no such branch"));
    expect(&mut s, &["rev-parse", "--short", "HEAD"], ok("abc"));
    expect(&mut s, &["rev-parse", "--short", "abcdef"], ok("abc"));
    expect(&mut s, &["push", "-u", "origin", "work"], ok(""));
    assert!(matches!(s.task(), Task::Finish(report) if report.updates == 0));
}

#[test]
fn conflicts_outside_the_box_are_told_apart() {
    assert!(!git_has_other_conflicts(&ok("UU draws/1.json\nAA index.json\nM README.md")));
    assert!(git_has_other_conflicts(&ok("UU draws/1.json\nUU README.md")));
    assert!(git_has_other_conflicts(&ok("UU draws/notes.json")));
    assert!(git_has_other_conflicts(&ok("UU draws/1.json.bak")));
    assert!(git_has_other_conflicts(&ok("UU old/draws/1.json")));
    assert!(git_has_other_conflicts(&ok("UU")));
    assert!(!git_has_other_conflicts(&err("UU README.md")));
}

#[test]
fn a_conflict_outside_the_box_is_not_pushed() {
    let mut s = up_to_pull();
    expect(&mut s, &["pull"], err("conflict"));
    expect(&mut s, &["status", "--porcelain"], ok("UU README.md\nUU draws/1.json"));
    assert!(matches!(s.task(), Task::Resolve));
    s.resolved(Ok(renamed()));
    assert_eq!(failure(&s), "git pull failed with non-draw conflicts: conflict");
    assert_eq!(s.fault(), Some(Fault::Other));
}

#[test]
fn a_conflict_in_the_index_alone_is_resolved() {
    let mut s = up_to_pull();
    expect(&mut s, &["pull"], err("conflict"));
    expect(&mut s, &["status", "--porcelain"], ok("UU index.json"));
    s.resolved(Ok(Vec::new()));
    expect(&mut s, &["add", "-A"], ok(""));
    expect(&mut s, &["commit", "-m", "luze sync: merge"], ok(""));
    expect(&mut s, &["rev-parse", "--short", "HEAD"], ok("fed"));
    expect(&mut s, &["rev-parse", "--short", "abcdef"], ok("abc"));
    expect(&mut s, &["rev-list", "--count", "abcdef..@{u}"], ok("1"));
    expect(&mut s, &["push"], ok(""));
    assert!(matches!(s.task(), Task::Finish(_)));
}

#[test]
fn an_untracked_branch_is_fetched_and_merged() {
    let mut s = sync("box", true, "message");
    expect(&mut s, &["remote"], ok("origin"));
    expect(&mut s, &["status", "--porcelain"], err("odd"));
    expect(&mut s, &["rev-parse", "--abbrev-ref", "HEAD"], ok("work"));
    expect(&mut s, &["rev-parse", "--abbrev-ref", "@{u}"], err("none"));
    expect(&mut s, &["rev-parse", "HEAD"], ok("abcdef"));
    expect(&mut s, &["fetch", "origin", "work"], ok(""));
    expect(&mut s, &["merge", "origin/work"], err("conflict"));
    expect(&mut s, &["status", "--porcelain"], ok("nothing"));
    assert_eq!(failure(&s), "git pull failed: conflict");
    s.answer(ok("late"));
    assert_eq!(failure(&s), "git pull failed: conflict");
}

#[test]
fn conflicts_are_resolved_and_committed_before_the_push() {
    let mut s = up_to_pull();
    expect(&mut s, &["pull"], err("conflict"));
    expect(&mut s, &["status", "--porcelain"], ok("UU draws/1.json"));
    assert!(matches!(s.task(), Task::Resolve));
    s.answer(ok("not asked for"));
    assert!(matches!(s.task(), Task::Resolve));
    s.resolved(Ok(renamed()));
    expect(&mut s, &["add", "-A"], ok(""));
    expect(&mut s, &["commit", "-m", "luze sync: merge"], ok(""));
    expect(&mut s, &["rev-parse", "--short", "HEAD"], ok("fed"));
    expect(&mut s, &["rev-parse", "--short", "abcdef"], ok("abc"));
    expect(&mut s, &["rev-list", "--count", "abcdef..@{u}"], ok("1"));
    expect(&mut s, &["push"], ok(""));
    match s.task() {
        Task::Finish(report) => assert_eq!(report.renames, [(ID::from("1"), ID::from("1a"))]),
        other => panic!("{other:?}"),
    }
}

#[test]
fn every_failure_has_its_reason() {
    let s = sync("box", false, "m");
    assert_eq!(failure(&s), "box is not a git repository");
    assert_eq!(s.fault(), Some(Fault::NotFound));

    let mut s = sync("box", true, "m");
    expect(&mut s, &["remote"], ok(""));
    assert_eq!(failure(&s), "no git remote configured");
    assert_eq!(s.fault(), Some(Fault::NotFound));

    let mut s = sync("box", true, "m");
    expect(&mut s, &["remote"], ok("origin"));
    expect(&mut s, &["status", "--porcelain"], ok("M a"));
    expect(&mut s, &["add", "-A"], err("full"));
    assert_eq!(failure(&s), "git add failed: full");
    assert_eq!(s.fault(), Some(Fault::Other));

    let mut s = sync("box", true, "m");
    expect(&mut s, &["remote"], ok("origin"));
    expect(&mut s, &["status", "--porcelain"], ok("M a"));
    expect(&mut s, &["add", "-A"], ok(""));
    expect(&mut s, &["commit", "-m", "m"], err("hook"));
    assert_eq!(failure(&s), "git commit failed: hook");

    let conflicted = || {
        let mut s = up_to_pull();
        expect(&mut s, &["pull"], err("conflict"));
        expect(&mut s, &["status", "--porcelain"], ok("AA draws/1.json"));
        s
    };
    let mut s = conflicted();
    s.resolved(Err("unreadable".to_string()));
    assert_eq!(failure(&s), "unreadable");
    let mut s = conflicted();
    s.resolved(Ok(renamed()));
    expect(&mut s, &["add", "-A"], err("full"));
    assert_eq!(failure(&s), "git add after merge failed: full");
    let mut s = conflicted();
    s.resolved(Ok(renamed()));
    expect(&mut s, &["add", "-A"], ok(""));
    expect(&mut s, &["commit", "-m", "luze sync: merge"], err("hook"));
    assert_eq!(failure(&s), "git commit after merge failed: hook");
}

#[test]
fn locks_go_stale() {
    assert!(!is_stale(Some("100"), 130, 0));
    assert!(is_stale(Some(" 100\n"), 131, 0));
    assert!(!is_stale(Some("200"), 100, 99));
    assert!(is_stale(Some("garbled"), 100, 31));
    assert!(!is_stale(Some("garbled"), 100, 30));
    assert!(!is_stale(None, 100, 99));
    assert_eq!(after_attempt(Attempt::Created, None, 0, 0), Next::Hold);
    assert_eq!(after_attempt(Attempt::Taken, Some("1"), 2, 0), Next::Wait);
    assert_eq!(after_attempt(Attempt::Taken, Some("1"), 99, 0), Next::Reclaim);
    assert_eq!(after_attempt(Attempt::Failed, None, 0, 0), Next::GiveUp);
}
