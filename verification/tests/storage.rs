use luze::disk::{draw_file_name, draw_number, is_json_file, may_remove};
use luze::{
    migrate, needs_migration, rebuild_index, BoxError, Note, NoteBox, Timestamp, DRAW_CAPACITY, ID,
};

fn at(secs: i64) -> Timestamp {
    Timestamp { secs, nanos: 0 }
}

/// A box kept in a directory, with its first draw read from an empty place.
fn backed() -> NoteBox {
    let mut zk = NoteBox::create("somewhere");
    zk.load_draw(1, Vec::new());
    zk
}

fn entries(zk: &NoteBox) -> Vec<(ID, u32)> {
    zk.index().entries().iter().map(|e| (e.id.clone(), e.draw)).collect()
}

#[test]
fn a_backed_box_asks_for_its_draws() {
    let mut zk = NoteBox::create("somewhere");
    let refused = zk.add(Note::new("1", "1", "root")).unwrap_err();
    assert!(matches!(refused, BoxError::NotLoaded(1)));
    assert_eq!(refused.to_string(), "draw 1 is not loaded");
    assert!(zk.draws().is_empty());
    zk.load_draw(1, Vec::new());
    zk.add(Note::new("1", "1", "root")).unwrap();
    assert_eq!(zk.notes().len(), 1);
}

#[test]
fn loading_puts_notes_in_order_and_happens_once() {
    let mut zk = NoteBox::create("somewhere");
    zk.load_draw(1, vec![Note::new("1b", "1", "b"), Note::new("1", "1", "r"), Note::new("1a", "1", "a")]);
    let ids: Vec<String> = zk.draws()[0].notes().iter().map(|n| n.id().to_string()).collect();
    assert_eq!(ids, ["1", "1a", "1b"]);
    zk.load_draw(1, Vec::new());
    assert_eq!(zk.draws()[0].len(), 3);
    assert_eq!(zk.draws()[0].num(), 1);
    assert!(zk.is_loaded(1));
    assert!(!zk.is_loaded(2));
}

#[test]
fn what_is_saved_is_read_back() {
    let mut zk = backed();
    zk.add(Note::new("1a/1", "1a/1", "apple")).unwrap();
    zk.add(Note::new("1a/1a", "1a/1", "banana")).unwrap();
    zk.add(Note::new_version("1a/1a1", "1a/1a", "cherry", "1a/1a")).unwrap();

    let files: Vec<(String, Vec<Note>)> =
        zk.save().unwrap().into_iter().map(|d| (d.file, d.notes.clone())).collect();
    assert_eq!(files.len(), 1);
    assert_eq!(files[0].0, "1.json");

    let mut again = NoteBox::open("somewhere", entries(&zk));
    assert_eq!(again.draws().len(), 1);
    assert!(!again.draws()[0].is_loaded());
    assert!(matches!(again.find(&ID::from("1a/1")), Err(BoxError::NotLoaded(1))));
    assert!(matches!(again.load_all(), Err(BoxError::NotLoaded(1))));
    for (file, mut notes) in files {
        notes.reverse();
        again.load_draw(draw_number(&file).unwrap(), notes);
    }
    again.load_all().unwrap();
    assert_eq!(zk.notes(), again.notes());
    assert_eq!(zk, again);
    let version = again.find(&ID::from("1a/1a1")).unwrap().unwrap();
    assert_eq!(version.supersedes(), Some(&ID::from("1a/1a")));
    let plain = again.find(&ID::from("1a/1a")).unwrap().unwrap();
    assert_eq!(plain.supersedes(), None);
}

#[test]
fn a_box_in_memory_has_nothing_to_save() {
    let mut zk = NoteBox::new();
    zk.add(Note::new("1", "1", "root")).unwrap();
    assert!(zk.save().is_none());
    assert!(!zk.is_backed());
    assert!(zk.ensure_loaded(7).is_ok());
    assert_eq!(zk.draws().len(), 2);
}

#[test]
fn an_index_names_its_draws_and_later_entries_count() {
    let zk = NoteBox::open(
        "somewhere",
        vec![(ID::from("2"), 9), (ID::from("1"), 4), (ID::from("2"), 4), (ID::from("3"), 2)],
    );
    let nums: Vec<u32> = zk.draws().iter().map(|d| d.num()).collect();
    assert_eq!(nums, [2, 4]);
    assert_eq!(zk.index().get(&ID::from("2")), Some(4));
    assert_eq!(zk.index().get(&ID::from("4")), None);
    assert_eq!(zk.index().len(), 3);
}

#[test]
fn a_full_draw_overflows_into_the_next() {
    let mut notes = vec![Note::new("1", "1", "root")];
    for i in 0..DRAW_CAPACITY {
        notes.push(Note::new(format!("1a{}", i + 1), "1", "leaf"));
    }
    let zk = migrate("somewhere", notes).unwrap();
    assert_eq!(zk.draws().len(), 2);
    assert!(zk.draws()[0].is_full());
    assert_eq!(zk.draws()[1].len(), 1);
    assert_eq!(zk.index().get(&ID::from("1a5000")), Some(2));
    assert!(zk.has_room());
    let mut zk = zk;
    zk.add(Note::new("1b", "1a5000", "beside its parent")).unwrap();
    assert_eq!(zk.index().get(&ID::from("1b")), Some(2));
}

#[test]
fn a_box_runs_out_of_numbers_only_when_its_draws_are_full() {
    let mut zk = NoteBox::open("somewhere", vec![(ID::from("1"), u32::MAX)]);
    assert!(zk.has_room());
    zk.load_draw(u32::MAX, vec![Note::new("1", "1", "root")]);
    assert!(zk.has_room());
    let mut full = NoteBox::open("somewhere", vec![(ID::from("1"), u32::MAX)]);
    let notes = (0..DRAW_CAPACITY).map(|i| Note::new(format!("{}", i + 1), "1", "leaf")).collect();
    full.load_draw(u32::MAX, notes);
    assert!(!full.has_room());
}

#[test]
fn migration_keeps_notes_and_links() {
    let mut linked = Note::dated("2", "2", "standalone", at(5));
    linked.add_link(ID::from("1"));
    let long = "x".repeat(400);
    let notes = vec![
        Note::new("1a1", "1a", "grandchild"),
        Note::new("1", "1", "root note"),
        linked.clone(),
        Note::new("1a", "1", long.as_str()),
    ];
    let zk = migrate("old", notes).unwrap();
    assert!(zk.is_backed());
    assert_eq!(zk.notes().len(), 4);
    for id in ["1", "1a", "1a1"] {
        assert!(zk.find(&ID::from(id)).unwrap().is_some());
    }
    assert_eq!(zk.find(&ID::from("2")).unwrap(), Some(&linked));
    assert_eq!(zk.save().unwrap().len(), 1);
}

#[test]
fn of_notes_with_one_id_the_last_is_found() {
    let zk = migrate("old", vec![Note::new("1", "1", "first"), Note::new("1", "1", "second")]).unwrap();
    assert_eq!(zk.notes().len(), 2);
    assert_eq!(zk.find(&ID::from("1")).unwrap().unwrap().content(), "second");
}

#[test]
fn there_is_nothing_to_migrate_without_notes() {
    assert!(migrate("old", Vec::new()).is_none());
    assert!(needs_migration(true, false));
    assert!(!needs_migration(true, true));
    assert!(!needs_migration(false, false));
}

#[test]
fn draw_files_are_named_by_number() {
    assert_eq!(draw_file_name(17), "17.json");
    assert_eq!(draw_number("17.json"), Some(17));
    assert_eq!(draw_number("+4.json"), Some(4));
    assert_eq!(draw_number("4294967295.json"), Some(u32::MAX));
    assert_eq!(draw_number("4294967296.json"), None);
    assert_eq!(draw_number("root.json"), None);
    assert_eq!(draw_number("1.tmp"), None);
    assert_eq!(draw_number(".json"), None);
    assert!(is_json_file("root.json"));
    assert!(!is_json_file(".json"));
    assert!(!is_json_file("1.lock"));
}

#[test]
fn an_index_is_rebuilt_from_the_draws() {
    let index = rebuild_index(&vec![
        (1, vec![Note::new("1", "1", "root"), Note::new("1a", "1", "child")]),
        (2, vec![Note::new("1a", "1", "moved")]),
    ]);
    assert_eq!(index.get(&ID::from("1")), Some(1));
    assert_eq!(index.get(&ID::from("1a")), Some(2));
    assert_eq!(index.len(), 2);
}

#[test]
fn old_files_go_unless_a_draw_took_their_place() {
    let zk = migrate("old", vec![Note::new("1", "1", "root")]).unwrap();
    assert!(!may_remove("1.json", &zk));
    assert!(may_remove("2.json", &zk));
    assert!(may_remove("philosophy.json", &zk));
    assert!(may_remove("01.json", &zk));
}

#[test]
fn a_box_comes_back_with_other_draws_read_too() {
    let mut zk = backed();
    zk.load_draw(4, Vec::new());
    zk.add(Note::new("2", "2", "second")).unwrap();
    zk.add(Note::new("1", "1", "first")).unwrap();
    assert!(zk.add(Note::new("1", "1", "again")).is_err());
    let files: Vec<(u32, Vec<Note>)> = zk
        .save()
        .unwrap()
        .into_iter()
        .map(|d| (draw_number(&d.file).unwrap(), d.notes.clone()))
        .collect();
    assert_eq!(files.len(), 2);
    let mut again = NoteBox::open("somewhere", entries(&zk));
    for (num, notes) in files {
        again.load_draw(num, notes.into_iter().rev().collect());
    }
    assert!(again.load_all().is_ok());
    assert_eq!(again.notes(), zk.notes());
    assert_eq!(again.find(&ID::from("1")).unwrap().unwrap().content(), "first");
    assert_eq!(again.find(&ID::from("3")).unwrap(), None);
}
