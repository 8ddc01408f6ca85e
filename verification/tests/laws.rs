use luze::query::match_rank;
use luze::{BoxError, Note, NoteBox, Timestamp, ID};

fn at(secs: i64) -> Timestamp {
    Timestamp { secs, nanos: 0 }
}

fn id(text: &str) -> ID {
    ID::from(text)
}

fn ids(notes: &[&Note]) -> Vec<String> {
    notes.iter().map(|n| n.id().to_string()).collect()
}

fn sample() -> NoteBox {
    let mut zk = NoteBox::new();
    zk.add(Note::dated("1", "1", "Root\nabout Cats", at(0))).unwrap();
    zk.add(Note::dated("1a", "1", "cats in history", at(1))).unwrap();
    zk.add(Note::dated("1a1", "1a", "dogs", at(2))).unwrap();
    zk.add(Note::dated("1b", "1", "ÄPFEL", at(3))).unwrap();
    zk
}

#[test]
fn an_added_note_is_found_and_others_stay() {
    let mut zk = sample();
    let before = zk.find(&id("1a")).unwrap().unwrap().clone();
    let note = Note::dated("2", "2", "another root", at(9));
    zk.add(note.clone()).unwrap();
    assert_eq!(zk.find(&id("2")).unwrap(), Some(&note));
    assert_eq!(zk.find(&id("1a")).unwrap(), Some(&before));
    assert_eq!(zk.find(&id("3")).unwrap(), None);
    assert_eq!(zk.find(&id("01")).unwrap(), None);
}

#[test]
fn ids_that_count_alike_are_different_notes() {
    let mut zk = NoteBox::new();
    zk.add(Note::new("1", "1", "one")).unwrap();
    zk.add(Note::new("01", "1", "zero one")).unwrap();
    assert_eq!(zk.find(&id("1")).unwrap().unwrap().content(), "one");
    assert_eq!(zk.find(&id("01")).unwrap().unwrap().content(), "zero one");
}

#[test]
fn every_refusal_has_its_reason() {
    let mut zk = sample();
    let long = "ä".repeat(251);
    let refused = zk.add(Note::new("9", "9", &long)).unwrap_err();
    assert_eq!(
        refused.to_string(),
        "note content exceeds 250 characters (251 chars): a note must express one atomic thought"
    );
    let refused = zk.add(Note::new("1a", "1", "again")).unwrap_err();
    assert_eq!(refused.to_string(), "note 1a already exists");
    let refused = zk.update(&id("7"), "none").unwrap_err();
    assert_eq!(refused.to_string(), "note 7 not found");
    zk.update(&id("1a"), "v2").unwrap();
    let refused = zk.update(&id("1a"), "v3").unwrap_err();
    assert_eq!(refused.to_string(), "1a is already superseded");
    let refused = zk.add_below(id("5a"), "orphan", at(0)).unwrap_err();
    assert_eq!(refused.to_string(), "parent 5 not found");
    let refused = zk.unlink(&id("1"), &id("8")).unwrap_err();
    assert_eq!(refused.to_string(), "no link from 1 to 8");
    assert!(matches!(zk.link(&id("8"), id("1")), Err(BoxError::NotFound(_))));
}

#[test]
fn letters_below_a_number_run_out() {
    let mut zk = NoteBox::new();
    zk.add(Note::new("1", "1", "root")).unwrap();
    for c in 'a'..='z' {
        zk.add(Note::new(format!("1{c}"), "1", "leaf")).unwrap();
    }
    let refused = zk.update(&id("1"), "one more").unwrap_err();
    assert_eq!(refused.to_string(), "no available child slot for 1: all 26 letter slots taken");
    assert_eq!(zk.notes().len(), 27);
    assert_eq!(zk.first_available_child(&id("1a")).unwrap(), id("1a1"));
}

#[test]
fn an_update_takes_the_first_free_number() {
    let mut zk = sample();
    zk.add(Note::new("1a3", "1a", "later")).unwrap();
    let child = zk.update_at(&id("1a"), "better", at(77)).unwrap();
    assert_eq!(child, id("1a2"));
    let note = zk.find(&child).unwrap().unwrap();
    assert_eq!(*note.created_at(), at(77));
    assert_eq!(zk.find(&id("1a")).unwrap().unwrap().content(), "cats in history");
    assert!(child.is_direct_child_of(&id("1a")));
    assert_eq!(zk.current_version(&id("1a")), Some(note));
    assert_eq!(zk.current_version(&id("1b")).unwrap().content(), "ÄPFEL");
    assert_eq!(zk.current_version(&id("99")), None);
}

#[test]
fn superseded_ids_come_once_each() {
    let mut zk = sample();
    zk.add(Note::new_version("1c", "1", "v", "1a")).unwrap();
    zk.add(Note::new_version("1d", "1", "w", "1a")).unwrap();
    zk.add(Note::new_version("1e", "1", "x", "1b")).unwrap();
    assert_eq!(zk.superseded_ids(), vec![&id("1a"), &id("1b")]);
    assert!(zk.is_superseded(&id("1b")));
    assert!(!zk.is_superseded(&id("1c")));
    assert_eq!(zk.superseded_by(&id("1a")), Some(&id("1c")));
}

#[test]
fn searches_do_not_mind_letter_case() {
    let zk = sample();
    assert_eq!(ids(&zk.search("CATS").unwrap()), ["1a", "1"]);
    assert_eq!(ids(&zk.search("äpfel").unwrap()), ["1b"]);
    assert_eq!(ids(&zk.search("").unwrap()), ["1", "1a", "1a1", "1b"]);
    assert!(zk.search("birds").unwrap().is_empty());
}

#[test]
fn a_search_leaves_out_what_is_superseded() {
    let mut zk = sample();
    zk.update(&id("1a1"), "more dogs").unwrap();
    assert_eq!(ids(&zk.search("dogs").unwrap()), ["1a1a"]);
    assert_eq!(ids(&zk.search_all("dogs").unwrap()), ["1a1", "1a1a"]);
}

#[test]
fn matches_rank_by_headline() {
    assert_eq!(match_rank("cats\nand dogs", "cats", "cats"), Some(0));
    assert_eq!(match_rank("cats\nand dogs", "cats", "dogs"), Some(1));
    assert_eq!(match_rank("cats\nand dogs", "cats", "birds"), None);
}

#[test]
fn links_show_among_backlinks_until_they_are_removed() {
    let mut zk = sample();
    zk.link(&id("1b"), id("1a1")).unwrap();
    assert_eq!(ids(&zk.backlinks(&id("1a1")).unwrap()), ["1b"]);
    assert_eq!(zk.find(&id("1b")).unwrap().unwrap().links(), &[id("1"), id("1a1")]);
    zk.unlink(&id("1b"), &id("1a1")).unwrap();
    assert!(zk.backlinks(&id("1a1")).unwrap().is_empty());
    assert!(zk.backlinks(&id("1")).unwrap().is_empty());
}

#[test]
fn ancestors_lead_down_and_pass_over_gaps() {
    let mut zk = sample();
    zk.add(Note::new("1a1b7c", "1a1b7", "far below")).unwrap();
    let up = zk.ancestors(&id("1a1b7c")).unwrap();
    let found: Vec<String> = up.iter().map(|n| n.id().to_string()).collect();
    assert_eq!(found, ["1", "1a", "1a1"]);
}

#[test]
fn children_need_only_their_own_draws() {
    let mut zk = NoteBox::open(
        "somewhere",
        vec![(id("1"), 1), (id("1a"), 2), (id("2"), 3), (id("2a"), 3)],
    );
    assert!(matches!(zk.children(&id("1")), Err(BoxError::NotLoaded(2))));
    zk.load_draw(2, vec![Note::new("1a", "1", "child")]);
    assert_eq!(ids(&zk.children(&id("1")).unwrap()), ["1a"]);
    assert!(zk.children(&id("7")).unwrap().is_empty());
    assert!(matches!(zk.backlinks(&id("1")), Err(BoxError::NotLoaded(1))));
    assert!(matches!(zk.search("x"), Err(BoxError::NotLoaded(1))));
    assert!(matches!(zk.ancestors(&id("1a")), Err(BoxError::NotLoaded(1))));
}

#[test]
fn a_note_goes_below_its_parent() {
    let mut zk = sample();
    zk.add_below(id("1a2"), "below", at(4)).unwrap();
    let note = zk.find(&id("1a2")).unwrap().unwrap();
    assert_eq!(note.parent(), Some(&id("1a")));
    zk.add_below(id("2"), "a root", at(5)).unwrap();
    assert_eq!(zk.find(&id("2")).unwrap().unwrap().parent(), Some(&id("2")));
    zk.add_below(id("2/1"), "a section", at(6)).unwrap();
    assert_eq!(zk.find(&id("2/1")).unwrap().unwrap().parent(), Some(&id("2")));
}

#[test]
fn headlines_end_with_their_line() {
    assert_eq!(luze::headline("one\r\ntwo"), "one");
    assert_eq!(luze::headline("only"), "only");
    assert_eq!(luze::headline(""), "");
    assert_eq!(luze::headline("\nsecond"), "");
    assert_eq!(luze::validate_content(&"b".repeat(151)).unwrap_err(),
        "content is a single line with more than 150 characters; add a newline after the headline to include a longer body");
    assert!(luze::validate_content(&"ä".repeat(150)).is_ok());
}

#[test]
fn moments_are_shown_in_utc() {
    assert_eq!(at(0).show().unwrap(), "1970-01-01 00:00:00 UTC");
    assert_eq!(at(1_700_000_000).show().unwrap(), "2023-11-14 22:13:20 UTC");
    assert_eq!(Timestamp { secs: i64::MAX, nanos: 0 }.show(), None);
    let now = Timestamp::now();
    assert!(now.secs > 1_700_000_000);
    assert!(now.show().unwrap().ends_with(" UTC"));
    assert!(Note::new("1", "1", "x").created_at().show().is_some());
}

#[test]
fn versions_in_a_circle_have_no_current_one() {
    let mut zk = sample();
    zk.update(&id("1a"), "v2").unwrap();
    assert!(zk.has_current_version(&id("1a")));
    assert!(zk.has_current_version(&id("1")));
    assert!(!zk.has_current_version(&id("9")));
    zk.add(Note::new_version("5", "5", "x", "6")).unwrap();
    zk.add(Note::new_version("6", "6", "y", "5")).unwrap();
    assert!(!zk.has_current_version(&id("5")));
    assert!(!zk.has_current_version(&id("6")));
}

#[test]
fn what_stands_below_comes_in_one_stretch() {
    let mut zk = NoteBox::new();
    for text in ["1", "1a", "1a1", "1a1b", "1b", "10", "1/1", "1/1a", "2"] {
        zk.add(Note::dated(text, text, text, at(0))).unwrap();
    }
    let order = ids(&zk.notes());
    let below = |text: &str, top: &str| {
        let mut at = id(text);
        loop {
            if at == id(top) {
                return true;
            }
            let up = at.parent();
            if up == at {
                return false;
            }
            at = up;
        }
    };
    for top in &order {
        let from = order.iter().position(|t| t == top).unwrap();
        let count = order.iter().filter(|t| below(t, top)).count();
        assert!(order[from..from + count].iter().all(|t| below(t, top)));
    }
}

#[test]
fn the_current_version_is_its_own() {
    let mut zk = NoteBox::new();
    zk.add(Note::dated("1", "1", "first", at(0))).unwrap();
    zk.add(Note::dated("2", "2", "other", at(0))).unwrap();
    let second = zk.update(&id("1"), "second").unwrap();
    let third = zk.update(&second, "third").unwrap();
    let now = zk.current_version(&id("1")).unwrap();
    assert_eq!(now.id(), &third);
    assert!(!zk.is_superseded(now.id()));
    assert_eq!(zk.superseded_by(&id("1")), Some(&second));
    assert_eq!(zk.superseded_by(&second), Some(&third));
    assert_eq!(zk.current_version(&third), Some(now));
    assert_eq!(zk.current_version(&id("2")).unwrap().id(), &id("2"));
}
