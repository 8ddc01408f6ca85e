use luze::commands::{
    has_flag, init_dir, notes_dir, search_args, sync_message, tree_args, words, Home,
};
use luze::report::{
    action_line, describe, entry_line, merge_lines, rename_line, version_line, sync_hint,
};
use luze::{MergeAction, MergeReport, Note, NoteBox, Timestamp, ID};

fn at(secs: i64) -> Timestamp {
    Timestamp { secs, nanos: 0 }
}

fn id(text: &str) -> ID {
    ID::from(text)
}

fn args(list: &[&str]) -> Vec<String> {
    list.iter().map(|a| a.to_string()).collect()
}

fn sample() -> NoteBox {
    let mut zk = NoteBox::new();
    zk.add(Note::dated("1", "1", "root\nwith a body", at(0))).unwrap();
    zk.add(Note::dated("1a", "1", "first", at(1))).unwrap();
    zk.add(Note::dated("1a1", "1a", "deep", at(2))).unwrap();
    zk.add(Note::dated("1b", "1", "second", at(3))).unwrap();
    zk.add(Note::dated("2", "2", "other", at(4))).unwrap();
    zk.update_at(&id("1b"), "second, better", at(5)).unwrap();
    zk
}

#[test]
fn trees_are_drawn_with_branches_and_markers() {
    let zk = sample();
    assert_eq!(
        zk.tree(None, usize::MAX).unwrap(),
        [
            "1 root",
            "├── 1a first",
            "│   └── 1a1 deep",
            "└── 1b [outdated] second",
            "    └── 1b1 [v2] second, better",
            "2 other",
        ]
    );
    assert_eq!(zk.tree(Some(&id("1a")), usize::MAX).unwrap(), ["1a first", "└── 1a1 deep"]);
    assert_eq!(zk.tree(None, 0).unwrap(), ["1 root", "2 other"]);
    assert_eq!(zk.tree(Some(&id("7")), 3).unwrap_err().to_string(), "note 7 not found");
}

#[test]
fn listings_leave_out_superseded_notes() {
    let zk = sample();
    assert_eq!(
        zk.list(false).unwrap(),
        ["1 root", "1a first", "1a1 deep", "1b1 second, better", "2 other"]
    );
    assert_eq!(zk.list(true).unwrap().len(), 6);
    assert_eq!(entry_line(zk.notes()[0]), "1 root");
}

#[test]
fn a_note_is_shown_in_full() {
    let mut zk = sample();
    zk.link(&id("1b"), id("2")).unwrap();
    assert_eq!(
        zk.show(&id("1b")).unwrap().unwrap(),
        [
            "ID:      1b",
            "Created: 1970-01-01 00:00:03 UTC",
            "Content: second",
            "Superseded by: 1b1",
            "Links:   1, 2",
        ]
    );
    assert_eq!(
        zk.show(&id("1b1")).unwrap().unwrap(),
        [
            "ID:      1b1",
            "Created: 1970-01-01 00:00:05 UTC",
            "Content: second, better",
            "Supersedes: 1b",
            "Links:   1b",
        ]
    );
    assert_eq!(zk.show(&id("9")).unwrap_err().to_string(), "note 9 not found");
    zk.add(Note::dated("3", "3", "timeless", at(i64::MAX))).unwrap();
    assert!(zk.show(&id("3")).unwrap().is_none());
    let bare = Note::restore(id("4"), "x".to_string(), Vec::new(), at(0), None);
    assert_eq!(describe(&bare, "then", None), ["ID:      4", "Created: then", "Content: x"]);
}

#[test]
fn merges_are_reported_draw_by_draw() {
    let reports = vec![
        MergeReport { draw: 1, actions: vec![MergeAction::Added(id("1a"))] },
        MergeReport {
            draw: 12,
            actions: vec![
                MergeAction::LinksMerged(id("2")),
                MergeAction::Renamed { original: id("3"), renamed_to: id("3a") },
            ],
        },
    ];
    assert_eq!(
        merge_lines(&reports),
        ["draw 1:", "  added   1a", "draw 12:", "  links   2 (merged)", "  renamed 3 → 3a"]
    );
    assert_eq!(action_line(&reports[0].actions[0]), "  added   1a");
    assert_eq!(version_line(true, &id("3a"), Some("ours")), "  [head ] 3a — ours");
    assert_eq!(version_line(false, &id("3"), None), "  [their] 3");
    assert_eq!(
        rename_line(&id("3"), &id("3a")),
        "renamed local 3 → 3a (upstream kept original ID)"
    );
}

#[test]
fn hints_count_what_is_not_synced() {
    assert_eq!(sync_hint(false, 0), None);
    assert_eq!(sync_hint(true, 0).unwrap(), "hint: 1 local change not synced. Run 'luze sync'");
    assert_eq!(sync_hint(false, 1).unwrap(), "hint: 1 local change not synced. Run 'luze sync'");
    assert_eq!(sync_hint(true, 9).unwrap(), "hint: 10 local changes not synced. Run 'luze sync'");
    assert_eq!(
        sync_hint(true, usize::MAX).unwrap(),
        format!("hint: {} local changes not synced. Run 'luze sync'", usize::MAX as u128 + 1)
    );
}

#[test]
fn arguments_are_read() {
    assert_eq!(words(&args(&["a", "b  c", "d"])), "a b  c d");
    assert_eq!(words(&Vec::new()), "");
    assert!(has_flag(&args(&["x", "--global"]), "--global"));
    assert!(!has_flag(&args(&["x"]), "--global"));
    assert_eq!(search_args(&args(&["big", "--all", "cats"])), (true, "big cats".to_string()));
    assert_eq!(search_args(&args(&["cats"])), (false, "cats".to_string()));
    assert_eq!(sync_message(&args(&[])), "luze sync");
    assert_eq!(sync_message(&args(&["-m", "one", "-m", "two"])), "two");
    assert_eq!(sync_message(&args(&["-m"])), "luze sync");
}

#[test]
fn tree_arguments_set_root_and_depth() {
    assert_eq!(tree_args(&args(&[])), Ok((None, usize::MAX)));
    assert_eq!(tree_args(&args(&["-d", "2", "1a"])), Ok((Some(id("1a")), 2)));
    assert_eq!(tree_args(&args(&["1", "1b"])), Ok((Some(id("1b")), usize::MAX)));
    assert_eq!(tree_args(&args(&["-d"])), Err("-d requires a depth argument".to_string()));
    assert_eq!(
        tree_args(&args(&["-d", "-1"])),
        Err("depth must be a non-negative integer".to_string())
    );
}

#[test]
fn the_box_is_where_it_is_given() {
    assert_eq!(notes_dir(true, true, true), Home::Given);
    assert_eq!(notes_dir(false, true, true), Home::Local);
    assert_eq!(notes_dir(false, false, true), Home::User);
    assert_eq!(notes_dir(false, false, false), Home::Local);
    assert_eq!(init_dir(true, true, true), Some(Home::User));
    assert_eq!(init_dir(true, true, false), None);
    assert_eq!(init_dir(false, true, true), Some(Home::Given));
    assert_eq!(init_dir(false, false, true), Some(Home::Local));
}
