use luze::{validate_content, Note, NoteBox, ID};

#[test]
fn test_add_maintains_sorted_order() {
    let mut zk = NoteBox::default();
    // insert out of order
    zk.add(Note::new("1b",  "1",  "banana")).unwrap();
    zk.add(Note::new("1",   "1",  "root")).unwrap();
    zk.add(Note::new("1a1", "1a", "cherry")).unwrap();
    zk.add(Note::new("1a",  "1",  "apple")).unwrap();

    let ids: Vec<String> = zk.notes().iter().map(|n| n.id().to_string()).collect();
    assert_eq!(ids, ["1", "1a", "1a1", "1b"]);
}

#[test]
fn test_add_parent_before_children() {
    let mut zk = NoteBox::default();
    zk.add(Note::new("1a1", "1a", "child")).unwrap();
    zk.add(Note::new("1a",  "1",  "parent")).unwrap();

    let notes = zk.notes();
    assert_eq!(*notes[0].id(), ID::from("1a"));
    assert_eq!(*notes[1].id(), ID::from("1a1"));
}

#[test]
fn test_add_rejects_duplicate_id() {
    let mut zk = NoteBox::default();
    zk.add(Note::new("1a", "1", "first")).unwrap();
    let err = zk.add(Note::new("1a", "1", "second")).unwrap_err();
    let err = err.to_string();
    assert!(err.contains("already exists"), "unexpected error: {err}");
    // only one note with that ID in the box
    assert_eq!(zk.draws().iter().flat_map(|d| d.notes()).filter(|n| *n.id() == ID::from("1a")).count(), 1);
}

#[test]
fn test_add_draw_capacity_enforced() {
    let mut zk = NoteBox::default();
    zk.add(Note::new("1", "1", "root")).unwrap();
    assert!(!zk.draws().iter().next().unwrap().is_full());
}

#[test]
fn test_add_routes_to_correct_draw() {
    let mut zk = NoteBox::default();
    zk.add(Note::new("1a",  "1",  "root")).unwrap();
    zk.add(Note::new("1a1", "1a", "child")).unwrap();
    zk.add(Note::new("1b",  "1",  "other")).unwrap();

    // All notes get indexed
    assert!(zk.index().contains_key(&ID::from("1a")));
    assert!(zk.index().contains_key(&ID::from("1a1")));
    assert!(zk.index().contains_key(&ID::from("1b")));
    // child goes into same draw as parent
    assert_eq!(zk.index().get(&ID::from("1a1")), zk.index().get(&ID::from("1a")));
}

#[test]
fn test_update_creates_superseding_child() {
    let mut zk = NoteBox::default();
    zk.add(Note::new("1a", "1", "original")).unwrap();

    let child_id = zk.update(&ID::from("1a"), "better").unwrap();
    assert_eq!(child_id, ID::from("1a1"));

    let child = zk.find(&child_id).unwrap().unwrap();
    assert_eq!(child.content(), "better");
    assert_eq!(child.supersedes(), Some(&ID::from("1a")));
    assert_eq!(child.parent(), Some(&ID::from("1a")));
}

#[test]
fn test_update_rejects_already_superseded() {
    let mut zk = NoteBox::default();
    zk.add(Note::new("1a", "1", "v1")).unwrap();
    zk.update(&ID::from("1a"), "v2").unwrap();
    assert!(zk.update(&ID::from("1a"), "v3").is_err());
}

#[test]
fn test_is_superseded() {
    let mut zk = NoteBox::default();
    zk.add(Note::new("1a", "1", "v1")).unwrap();
    assert!(!zk.is_superseded(&ID::from("1a")));
    zk.update(&ID::from("1a"), "v2").unwrap();
    assert!(zk.is_superseded(&ID::from("1a")));
}

#[test]
fn test_current_version() {
    let mut zk = NoteBox::default();
    zk.add(Note::new("1a", "1", "v1")).unwrap();
    zk.update(&ID::from("1a"), "v2").unwrap();
    // 1a1 supersedes 1a; now update 1a1
    zk.update(&ID::from("1a1"), "v3").unwrap();

    let current = zk.current_version(&ID::from("1a")).unwrap();
    assert_eq!(current.content(), "v3");
}

#[test]
fn test_search_skips_superseded() {
    let mut zk = NoteBox::default();
    zk.add(Note::new("1a", "1", "thought about cats")).unwrap();
    zk.update(&ID::from("1a"), "better thought about cats").unwrap();

    let results = zk.search("cats").unwrap();
    assert_eq!(results.len(), 1);
    assert_eq!(results[0].id(), &ID::from("1a1"));
}

#[test]
fn test_search_headline_match_ranked_first() {
    let mut zk = NoteBox::default();
    // body-only match
    zk.add(Note::new("1a", "1", "musings\ncats are interesting")).unwrap();
    // headline match
    zk.add(Note::new("1b", "1", "cats in history")).unwrap();

    let results = zk.search("cats").unwrap();
    assert_eq!(results.len(), 2);
    assert_eq!(results[0].id(), &ID::from("1b"), "headline match should come first");
    assert_eq!(results[1].id(), &ID::from("1a"), "body-only match should come second");
}

#[test]
fn test_search_all_includes_superseded() {
    let mut zk = NoteBox::default();
    zk.add(Note::new("1a", "1", "thought about cats")).unwrap();
    zk.update(&ID::from("1a"), "better thought about cats").unwrap();

    let results = zk.search_all("cats").unwrap();
    assert_eq!(results.len(), 2);
}

#[test]
fn test_backlinks_excludes_parent_links() {
    // Child notes have parent as links[0]; backlinks must not include them.
    let mut zk = NoteBox::default();
    zk.add(Note::new("1",   "1",  "root")).unwrap();
    zk.add(Note::new("1a",  "1",  "child of root")).unwrap();
    zk.add(Note::new("1a1", "1a", "grandchild")).unwrap();

    // backlinks("1") must NOT return 1a (whose parent is 1)
    let bl = zk.backlinks(&ID::from("1")).unwrap();
    assert!(bl.is_empty(), "backlinks should not include children: got {:?}", bl.iter().map(|n| n.id().to_string()).collect::<Vec<_>>());
}

#[test]
fn test_backlinks_includes_explicit_links() {
    let mut zk = NoteBox::default();
    zk.add(Note::new("1",  "1", "root")).unwrap();
    zk.add(Note::new("2",  "2", "other root")).unwrap();
    // explicitly link 2 → 1
    zk.find_mut(&ID::from("2")).unwrap().unwrap().add_link(ID::from("1"));

    let bl = zk.backlinks(&ID::from("1")).unwrap();
    assert_eq!(bl.len(), 1);
    assert_eq!(bl[0].id(), &ID::from("2"));
}

#[test]
fn test_validate_content_accepts_short_single_line() {
    assert!(validate_content("a short note").is_ok());
}

#[test]
fn test_validate_content_rejects_long_single_line() {
    let long = "a".repeat(151);
    assert!(validate_content(&long).is_err());
}

#[test]
fn test_validate_content_accepts_long_multiline() {
    let long = format!("headline\n{}", "a".repeat(300));
    assert!(validate_content(&long).is_ok());
}

#[test]
fn test_add_rejects_content_over_250_chars() {
    let mut zk = NoteBox::default();
    let long = "a".repeat(251);
    assert!(zk.add(Note::new("1", "1", &long)).is_err());
}

#[test]
fn test_add_accepts_content_at_250_chars() {
    let mut zk = NoteBox::default();
    let at_limit = "a".repeat(250);
    assert!(zk.add(Note::new("1", "1", &at_limit)).is_ok());
}

#[test]
fn test_remove_link_present() {
    let mut note = Note::new("1a", "1", "content");
    note.add_link(ID::from("2"));
    assert!(note.remove_link(&ID::from("2")));
    assert!(!note.links().contains(&ID::from("2")));
}

#[test]
fn test_remove_link_absent() {
    let mut note = Note::new("1a", "1", "content");
    assert!(!note.remove_link(&ID::from("99")));
}

#[test]
fn test_with_id_changes_id() {
    let note = Note::new("1", "1", "content");
    let renamed = note.with_id(ID::from("2"));
    assert_eq!(renamed.id(), &ID::from("2"));
    assert_eq!(renamed.content(), "content");
}

#[test]
fn test_children_returns_direct_children_only() {
    let mut zk = NoteBox::default();
    zk.add(Note::new("1",    "1",    "root")).unwrap();
    zk.add(Note::new("1a",   "1",    "child a")).unwrap();
    zk.add(Note::new("1b",   "1",    "child b")).unwrap();
    zk.add(Note::new("1a1",  "1a",   "grandchild")).unwrap();

    let children = zk.children(&ID::from("1")).unwrap();
    let ids: Vec<&ID> = children.iter().map(|n| n.id()).collect();
    assert_eq!(ids.len(), 2);
    assert!(ids.contains(&&ID::from("1a")));
    assert!(ids.contains(&&ID::from("1b")));
}

#[test]
fn test_children_empty_for_leaf() {
    let mut zk = NoteBox::default();
    zk.add(Note::new("1",  "1",  "root")).unwrap();
    zk.add(Note::new("1a", "1",  "child")).unwrap();
    let children = zk.children(&ID::from("1a")).unwrap();
    assert!(children.is_empty());
}

#[test]
fn test_ancestors_returns_path_to_root() {
    let mut zk = NoteBox::default();
    zk.add(Note::new("1",    "1",    "root")).unwrap();
    zk.add(Note::new("1a",   "1",    "mid")).unwrap();
    zk.add(Note::new("1a1",  "1a",   "leaf")).unwrap();

    let ancestors = zk.ancestors(&ID::from("1a1")).unwrap();
    let ids: Vec<&ID> = ancestors.iter().map(|n| n.id()).collect();
    assert_eq!(ids, vec![&ID::from("1"), &ID::from("1a")]);
}

#[test]
fn test_ancestors_root_returns_empty() {
    let mut zk = NoteBox::default();
    zk.add(Note::new("1", "1", "root")).unwrap();
    let ancestors = zk.ancestors(&ID::from("1")).unwrap();
    assert!(ancestors.is_empty());
}

#[test]
fn test_update_preserves_cross_links() {
    let mut zk = NoteBox::default();
    zk.add(Note::new("1a", "1", "original")).unwrap();
    // add cross-links to the original
    zk.find_mut(&ID::from("1a")).unwrap().unwrap().add_link(ID::from("2"));
    zk.find_mut(&ID::from("1a")).unwrap().unwrap().add_link(ID::from("3"));

    let child_id = zk.update(&ID::from("1a"), "updated").unwrap();
    let child = zk.find(&child_id).unwrap().unwrap();

    assert_eq!(child.links(), &[ID::from("1a"), ID::from("2"), ID::from("3")],
        "update should copy cross-links from the superseded note");
}

#[test]
fn test_superseded_by_found() {
    let mut zk = NoteBox::default();
    zk.add(Note::new("1",  "1", "original")).unwrap();
    zk.add(Note::new_version("1a", "1", "updated", "1")).unwrap();
    zk.load_all().unwrap();
    assert_eq!(zk.superseded_by(&ID::from("1")), Some(&ID::from("1a")));
}

#[test]
fn test_superseded_by_not_found() {
    let mut zk = NoteBox::default();
    zk.add(Note::new("1", "1", "original")).unwrap();
    zk.load_all().unwrap();
    assert_eq!(zk.superseded_by(&ID::from("1")), None);
}
