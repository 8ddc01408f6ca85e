use luze::merge::{
    extract_sides, has_conflict_markers, merge_note_vecs, next_available_id,
    next_available_sibling, renames, resolve_draws, FoundDraw,
};
use luze::{merge_conflicts, rebuild_index, MergeAction, Note, NoteBox, ID};

#[test]
fn test_next_available_sibling_exhausted_letters_returns_none() {
    let taken: Vec<ID> = ('a'..='z')
        .map(|c| ID::from(format!("1{c}").as_str()))
        .collect();
    assert_eq!(next_available_sibling(&ID::from("1z"), &taken), None);
}

#[test]
fn test_has_conflict_markers_positive() {
    assert!(has_conflict_markers("<<<<<<< HEAD\nfoo\n=======\nbar\n>>>>>>> theirs"));
}

#[test]
fn test_has_conflict_markers_negative() {
    assert!(!has_conflict_markers(r#"[{"id":"1","content":"hi"}]"#));
}

#[test]
fn test_extract_sides_splits_correctly() {
    let input = "pre\n<<<<<<< HEAD\nhead_line\n=======\ntheir_line\n>>>>>>> branch\npost\n";
    let (head, theirs) = extract_sides(input);
    assert!(head.contains("pre\n"));
    assert!(head.contains("head_line\n"));
    assert!(head.contains("post\n"));
    assert!(!head.contains("their_line"));

    assert!(theirs.contains("pre\n"));
    assert!(theirs.contains("their_line\n"));
    assert!(theirs.contains("post\n"));
    assert!(!theirs.contains("head_line"));
}

#[test]
fn test_merge_note_vecs_added_from_theirs() {
    let head = vec![Note::new("1", "1", "root")];
    let theirs = vec![
        Note::new("1",  "1", "root"),
        Note::new("1a", "1", "only in theirs"),
    ];
    let (merged, actions) = merge_note_vecs(head, theirs, false);
    assert_eq!(merged.len(), 2);
    assert!(matches!(&actions[0], MergeAction::Added(id) if id == &ID::from("1a")));
}

#[test]
fn test_merge_note_vecs_same_content_unions_links() {
    let mut head_note = Note::new("1", "1", "same");
    head_note.add_link(ID::from("2"));
    let mut their_note = Note::new("1", "1", "same");
    their_note.add_link(ID::from("3"));

    let (merged, actions) = merge_note_vecs(vec![head_note], vec![their_note], false);
    assert_eq!(merged.len(), 1);
    assert!(merged[0].links().contains(&ID::from("3")));
    assert!(matches!(&actions[0], MergeAction::LinksMerged(id) if id == &ID::from("1")));
}

#[test]
fn test_merge_note_vecs_same_content_same_links_no_action() {
    let head = vec![Note::new("1", "1", "same")];
    let theirs = vec![Note::new("1", "1", "same")];
    let (merged, actions) = merge_note_vecs(head, theirs, false);
    assert_eq!(merged.len(), 1);
    assert!(actions.is_empty());
}

#[test]
fn test_merge_note_vecs_content_conflict_renames_theirs() {
    let head = vec![Note::new("1", "1", "head version")];
    let theirs = vec![Note::new("1", "1", "their version")];
    let (merged, actions) = merge_note_vecs(head, theirs, false);
    assert_eq!(merged.len(), 2);
    assert!(matches!(&actions[0], MergeAction::Renamed { original, renamed_to }
        if original == &ID::from("1") && renamed_to == &ID::from("1a")));
}

#[test]
fn test_merge_note_vecs_content_conflict_rename_head_mode() {
    let head = vec![Note::new("1", "1", "head version")];
    let theirs = vec![Note::new("1", "1", "their version")];
    let (merged, actions) = merge_note_vecs(head, theirs, true);
    assert_eq!(merged.len(), 2);
    // In rename_head mode: theirs keeps the original ID, head gets renamed.
    assert!(matches!(&actions[0], MergeAction::Renamed { original, .. }
        if original == &ID::from("1")));
    // The original ID must be held by the "their" content.
    assert!(merged.iter().any(|n| n.id() == &ID::from("1") && n.content() == "their version"));
}

#[test]
fn siblings_that_are_taken_are_passed_over() {
    let taken = vec![ID::from("1a"), ID::from("1b")];
    assert_eq!(next_available_sibling(&ID::from("1"), &taken), Some(ID::from("1c")));
    assert_eq!(next_available_sibling(&ID::from("1x."), &taken), Some(ID::from("1x/")));
    assert_eq!(next_available_sibling(&ID::from("2"), &Vec::new()), Some(ID::from("2a")));
}

#[test]
fn a_file_without_conflict_reads_the_same_on_both_sides() {
    let (head, theirs) = extract_sides("one\r\ntwo");
    assert_eq!(head, "one\ntwo\n");
    assert_eq!(theirs, head);
}

#[test]
fn each_side_of_a_conflict_gets_its_own_lines() {
    let text = "a\n<<<<<<< HEAD\nb\n<<<<<<< x\n=======\nc\n=======\n>>>>>>> y\nd\n";
    let (head, theirs) = extract_sides(text);
    assert_eq!(head, "a\nb\n<<<<<<< x\nd\n");
    assert_eq!(theirs, "a\nc\n=======\nd\n");
}

fn shape(notes: &[Note]) -> Vec<(String, String)> {
    notes.iter().map(|n| (n.id().to_string(), n.content().to_string())).collect()
}

fn pair(id: &str, content: &str) -> (String, String) {
    (id.to_string(), content.to_string())
}

#[test]
fn a_conflict_moves_ours_and_is_reported() {
    let head = vec![Note::new("1", "1", "root"), Note::new("1a", "1", "ours")];
    let theirs = vec![Note::new("1a", "1", "theirs"), Note::new("1b", "1", "only theirs")];
    let (notes, report) = merge_conflicts(7, head, theirs, &Vec::new());
    assert_eq!(report.draw, 7);
    assert_eq!(
        shape(&notes),
        [pair("1", "root"), pair("1a", "theirs"), pair("1b", "only theirs"), pair("1c", "ours")]
    );
    assert_eq!(
        renames(&vec![report]),
        [(ID::from("1a"), ID::from("1b")), (ID::from("1b"), ID::from("1c"))]
    );
}

#[test]
fn a_resolved_conflict_does_not_come_back() {
    let head = vec![Note::new("1", "1", "ours"), Note::new("2", "2", "kept")];
    let mut linked = Note::new("2", "2", "kept");
    linked.add_link("1");
    let theirs = vec![Note::new("1", "1", "theirs"), linked];
    let (notes, report) = merge_conflicts(1, head, theirs.clone(), &Vec::new());
    assert_eq!(report.actions.len(), 2);
    assert!(matches!(&report.actions[1], MergeAction::LinksMerged(id) if id == &ID::from("2")));
    let (again, report) = merge_conflicts(1, notes.clone(), theirs.clone(), &Vec::new());
    assert_eq!(again, notes);
    assert!(report.actions.is_empty());
    let (others, report) = merge_conflicts(1, theirs, notes.clone(), &Vec::new());
    assert_eq!(shape(&others), shape(&notes));
    assert!(renames(&vec![report]).is_empty());
}

#[test]
fn without_a_letter_left_a_number_is_taken() {
    let head = vec![Note::new("1z", "1", "head version")];
    let theirs = vec![Note::new("1z", "1", "their version")];
    let (notes, actions) = merge_note_vecs(head.clone(), theirs.clone(), true);
    assert_eq!(shape(&notes), [pair("1z", "their version"), pair("1z1", "head version")]);
    assert_eq!(actions.len(), 1);
    let (notes, actions) = merge_note_vecs(head, theirs, false);
    assert_eq!(shape(&notes), [pair("1z", "head version"), pair("1z1", "their version")]);
    assert!(matches!(
        &actions[0],
        MergeAction::Renamed { original, renamed_to }
            if original == &ID::from("1z") && renamed_to == &ID::from("1z1")
    ));
}

#[test]
fn the_first_free_number_is_below_the_last_letter() {
    let mut taken: Vec<ID> = ('a'..='z').map(|c| ID::from(format!("1{c}"))).collect();
    assert_eq!(next_available_sibling(&ID::from("1"), &taken), None);
    assert_eq!(next_available_id(&ID::from("1"), &taken), ID::from("1z1"));
    taken.extend([ID::from("1z1"), ID::from("1z2"), ID::from("1z4")]);
    assert_eq!(next_available_id(&ID::from("1x"), &taken), ID::from("1z3"));
    assert_eq!(next_available_id(&ID::from("2a"), &taken), ID::from("2b"));
}

#[test]
fn a_note_does_not_move_to_an_id_of_another_draw() {
    let head = vec![Note::new("1a", "1", "ours")];
    let theirs = vec![Note::new("1a", "1", "theirs")];
    let taken = vec![ID::from("1b"), ID::from("1d")];
    let (notes, report) = merge_conflicts(1, head, theirs, &taken);
    assert_eq!(shape(&notes), [pair("1a", "theirs"), pair("1c", "ours")]);
    assert_eq!(renames(&vec![report]), [(ID::from("1a"), ID::from("1c"))]);
}

fn clean(num: u32, notes: Vec<Note>) -> FoundDraw {
    FoundDraw { num, ours: notes, theirs: None }
}

fn in_conflict(num: u32, ours: Vec<Note>, theirs: Vec<Note>) -> FoundDraw {
    FoundDraw { num, ours, theirs: Some(theirs) }
}

#[test]
fn all_draws_are_resolved_beside_one_another() {
    let found = vec![
        in_conflict(1, vec![Note::new("1a", "1", "ours")], vec![Note::new("1a", "1", "theirs")]),
        clean(2, vec![Note::new("1c", "1", "kept"), Note::new("1b", "1", "kept")]),
        in_conflict(
            5,
            vec![Note::new("1e", "1", "same"), Note::new("1", "1", "our root")],
            vec![Note::new("1e", "1", "same"), Note::new("1", "1", "their root"), Note::new("2", "2", "new")],
        ),
    ];
    let (draws, reports) = resolve_draws(found);
    assert_eq!(draws.iter().map(|d| d.0).collect::<Vec<u32>>(), [1, 2, 5]);
    // 1b and 1c lie in the second draw, and 1e in the third.
    assert_eq!(shape(&draws[0].1), [pair("1a", "theirs"), pair("1d", "ours")]);
    // A draw that is not in conflict stays as it is, order included.
    assert_eq!(shape(&draws[1].1), [pair("1c", "kept"), pair("1b", "kept")]);
    // 1a to 1d are taken by the first two draws, and 1e by this one.
    assert_eq!(
        shape(&draws[2].1),
        [pair("1", "their root"), pair("1e", "same"), pair("1f", "our root"), pair("2", "new")]
    );
    assert_eq!(reports.iter().map(|r| r.draw).collect::<Vec<u32>>(), [1, 5]);
    assert_eq!(
        renames(&reports),
        [(ID::from("1a"), ID::from("1d")), (ID::from("1"), ID::from("1f"))]
    );

    let index = rebuild_index(&draws);
    let entries = index.entries().iter().map(|e| (e.id.clone(), e.draw)).collect();
    let mut zk = NoteBox::open("somewhere", entries);
    for (num, notes) in &draws {
        zk.load_draw(*num, notes.clone());
    }
    for (_, notes) in &draws {
        for note in notes {
            assert_eq!(zk.find(note.id()).unwrap(), Some(note));
        }
    }
    assert_eq!(zk.notes().len(), 8);
}

#[test]
fn without_draws_there_is_nothing_to_resolve() {
    let (draws, reports) = resolve_draws(Vec::new());
    assert!(draws.is_empty() && reports.is_empty());
    assert!(rebuild_index(&draws).entries().is_empty());
}

#[test]
fn a_note_on_one_side_only_is_kept_as_it_is() {
    let head = vec![Note::new("1", "1", "ours alone")];
    let theirs = vec![Note::new("2", "2", "theirs alone")];
    for rename_head in [true, false] {
        let (notes, _) = merge_note_vecs(head.clone(), theirs.clone(), rename_head);
        assert_eq!(notes, [head[0].clone(), theirs[0].clone()]);
    }
}

#[test]
fn an_index_follows_a_merge() {
    let (notes, report) =
        merge_conflicts(3, vec![Note::new("1", "1", "ours")], vec![Note::new("1", "1", "theirs")], &Vec::new());
    let index = rebuild_index(&vec![(report.draw, notes)]);
    assert_eq!(index.get(&ID::from("1a")), Some(3));
}
