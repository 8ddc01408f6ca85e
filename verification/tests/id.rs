use luze::id::draw_section;
use luze::ID;

#[test]
fn test_id_root() { assert_eq!(ID::root("ZK1").to_string(), "ZK1"); }

#[test]
fn test_id_from_str() { assert_eq!(ID::from("1a1").to_string(), "1a1"); }

#[test]
fn test_id_from_string() { assert_eq!(ID::from("1a1".to_string()).to_string(), "1a1"); }

#[test]
fn test_next_child_from_letter_appends_one() {
    assert_eq!(ID::from("1a").next_child(), ID::from("1a1"));
}

#[test]
fn test_next_child_increments_trailing_number() {
    assert_eq!(ID::from("1a1").next_child(), ID::from("1a2"));
}

#[test]
fn test_next_child_carries_past_nine() {
    assert_eq!(ID::from("1a9").next_child(), ID::from("1a10"));
}

#[test]
fn test_next_sibling_from_number_appends_a() {
    assert_eq!(ID::from("1").next_sibling(), Some(ID::from("1a")));
}

#[test]
fn test_next_sibling_increments_trailing_letter() {
    assert_eq!(ID::from("1a").next_sibling(), Some(ID::from("1b")));
}

#[test]
fn test_next_sibling_deep() {
    assert_eq!(ID::from("1a1").next_sibling(), Some(ID::from("1a1a")));
}

#[test]
fn test_next_sibling_at_z_returns_none() {
    assert_eq!(ID::from("1z").next_sibling(), None);
}

#[test]
fn test_id_ord_numeric_not_lexicographic() {
    assert!(ID::from("9") < ID::from("10"));
}

#[test]
fn test_id_ord_parent_before_child() {
    assert!(ID::from("1")  < ID::from("1a"));
    assert!(ID::from("1a") < ID::from("1a1"));
}

#[test]
fn test_id_ord_siblings_in_order() {
    assert!(ID::from("1a") < ID::from("1b"));
    assert!(ID::from("1a1") < ID::from("1a2"));
}

#[test]
fn test_id_ord_subtree_before_next_sibling() {
    assert!(ID::from("1a99") < ID::from("1b"));
}

#[test]
fn test_parent_section_first_note() {
    assert_eq!(ID::from("1c2/1").parent(), ID::from("1c2"));
}

#[test]
fn test_parent_within_section() {
    assert_eq!(ID::from("1c2/3c5f1").parent(), ID::from("1c2/3c5f"));
    assert_eq!(ID::from("1c2/3c").parent(),    ID::from("1c2/3"));
    assert_eq!(ID::from("1c2/3").parent(),     ID::from("1c2"));
}

#[test]
fn test_parent_nested_section() {
    assert_eq!(ID::from("1c2/4g1/3").parent(),  ID::from("1c2/4g1"));
    assert_eq!(ID::from("1c2/4g1/3a").parent(), ID::from("1c2/4g1/3"));
}

#[test]
fn test_is_direct_child_section_boundary() {
    assert!( ID::from("1c2/1").is_direct_child_of(&ID::from("1c2")));
    assert!(!ID::from("1c2/1a").is_direct_child_of(&ID::from("1c2")));
}

#[test]
fn test_ord_section_after_parent() {
    assert!(ID::from("1c2") < ID::from("1c2/1"));
}

#[test]
fn test_ord_section_before_next_sibling() {
    assert!(ID::from("1c2/1")  < ID::from("1c3"));
    assert!(ID::from("1c2/1a") < ID::from("1c3"));
}

#[test]
fn test_ord_section_sorted_internally() {
    assert!(ID::from("1c2/1")  < ID::from("1c2/1a"));
    assert!(ID::from("1c2/1a") < ID::from("1c2/1b"));
    assert!(ID::from("1c2/9")  < ID::from("1c2/10"));
}

#[test]
fn test_next_child_in_section() {
    assert_eq!(ID::from("1c2/1a").next_child(),  ID::from("1c2/1a1"));
    assert_eq!(ID::from("1c2/1a1").next_child(), ID::from("1c2/1a2"));
}

#[test]
fn test_next_sibling_in_section() {
    assert_eq!(ID::from("1c2/1").next_sibling(),  Some(ID::from("1c2/1a")));
    assert_eq!(ID::from("1c2/1a").next_sibling(), Some(ID::from("1c2/1b")));
}

#[test]
fn parent_of_a_root_is_itself() {
    assert_eq!(ID::from("1").parent(), ID::from("1"));
    assert_eq!(ID::from("").parent(), ID::from(""));
    assert!(!ID::from("1").is_direct_child_of(&ID::from("1")));
}

#[test]
fn numbers_have_any_length() {
    let long = "9".repeat(40);
    let next = format!("1{}", "0".repeat(40));
    assert_eq!(ID::from(long.as_str()).next_child(), ID::from(next.as_str()));
    assert!(ID::from(long.as_str()) < ID::from(next.as_str()));
}

#[test]
fn leading_zeros_do_not_count_for_the_order() {
    assert_eq!(ID::from("01").partial_cmp(&ID::from("1")), Some(std::cmp::Ordering::Equal));
    assert_ne!(ID::from("01"), ID::from("1"));
    assert_eq!(ID::from("1a09").next_child(), ID::from("1a10"));
}

#[test]
fn letters_and_numbers_are_ordered_by_code_point() {
    assert!(ID::from("1") < ID::from("a"));
    assert!(ID::from("1-") < ID::from("11"));
    assert!(ID::from("1é") > ID::from("1z"));
    assert_eq!(ID::from("1é").next_sibling(), None);
    assert_eq!(ID::from("1é").next_child(), ID::from("1é1"));
}

#[test]
fn a_sibling_of_a_section_mark_opens_the_section() {
    assert_eq!(ID::from("1/").next_sibling(), Some(ID::from("1/a")));
    assert_eq!(ID::from("1/").next_child(), ID::from("1/1"));
    assert_eq!(ID::from("").next_sibling(), Some(ID::from("a")));
}

#[test]
fn children_come_after_their_parents_and_siblings_in_turn() {
    for text in ["1", "1a", "1a9", "1c2/3", "1c2/3z9", "21abc"] {
        let id = ID::from(text);
        assert!(id < id.next_child());
        assert!(id.parent() <= id);
        if let Some(next) = id.next_sibling() {
            assert!(id < next);
        }
    }
}

#[test]
fn a_subtree_stands_together() {
    assert!(ID::from("1a/7") < ID::from("1b"));
    assert!(ID::from("1a99z") < ID::from("1b"));
    assert!(!ID::from("1b").is_direct_child_of(&ID::from("1a")));
}

#[test]
fn sections_are_named_by_what_stands_before_the_first_slash() {
    assert_eq!(draw_section(&ID::from("1a/1c1h5")), "1a");
    assert_eq!(draw_section(&ID::from("1a1c1h5")), "");
    assert_eq!(draw_section(&ID::from("1a/2/3")), "1a");
}

#[test]
fn an_id_without_text_is_the_default() {
    assert_eq!(ID::default(), ID::from(""));
}
