use uwu_db::catalog::{
    contains_tag, find_sorted, insert_tag_if_absent, recompute_selection_flags, remove_tag,
};
use uwu_db::order::str_lt;

#[test]
fn find_sorted_locates_names() {
    let catalog = vec!["ant".to_string(), "cat".to_string(), "dog".to_string()];
    assert_eq!(find_sorted(&catalog, &"ant".to_string()), Some(0));
    assert_eq!(find_sorted(&catalog, &"cat".to_string()), Some(1));
    assert_eq!(find_sorted(&catalog, &"dog".to_string()), Some(2));
    assert_eq!(find_sorted(&catalog, &"cow".to_string()), None);
    assert_eq!(find_sorted(&Vec::new(), &"cat".to_string()), None);
}

#[test]
fn lexicographic_order_on_strings() {
    assert!(str_lt("a", "b"));
    assert!(!str_lt("b", "a"));
    assert!(!str_lt("a", "a"));
    assert!(str_lt("a", "ab"));
    assert!(!str_lt("ab", "a"));
    assert!(str_lt("Z", "a"));
    assert!(str_lt("", "a"));
}

fn names(items: &[&str]) -> Vec<String> {
    items.iter().map(|s| s.to_string()).collect()
}

#[test]
fn insert_keeps_sorted_order() {
    let mut catalog: Vec<String> = Vec::new();
    insert_tag_if_absent(&mut catalog, &"dogs".to_string());
    insert_tag_if_absent(&mut catalog, &"birds".to_string());
    insert_tag_if_absent(&mut catalog, &"cats".to_string());
    assert_eq!(catalog, names(&["birds", "cats", "dogs"]));
}

#[test]
fn insert_smallest_and_largest() {
    let mut catalog = names(&["m"]);
    insert_tag_if_absent(&mut catalog, &"a".to_string());
    insert_tag_if_absent(&mut catalog, &"z".to_string());
    assert_eq!(catalog, names(&["a", "m", "z"]));
}

#[test]
fn insert_twice_is_idempotent() {
    let mut catalog: Vec<String> = Vec::new();
    insert_tag_if_absent(&mut catalog, &"cats".to_string());
    insert_tag_if_absent(&mut catalog, &"cats".to_string());
    assert_eq!(catalog, names(&["cats"]));
    let occurrences = catalog.iter().filter(|n| n.as_str() == "cats").count();
    assert_eq!(occurrences, 1);
}

#[test]
fn insert_is_case_sensitive() {
    let mut catalog: Vec<String> = Vec::new();
    insert_tag_if_absent(&mut catalog, &"Cats".to_string());
    insert_tag_if_absent(&mut catalog, &"cats".to_string());
    assert_eq!(catalog, names(&["Cats", "cats"]));
}

#[test]
fn contains_tag_is_exact_match() {
    let catalog = names(&["birds", "cats"]);
    assert!(contains_tag(&catalog, &"cats".to_string()));
    assert!(!contains_tag(&catalog, &"cat".to_string()));
    assert!(!contains_tag(&catalog, &"Cats".to_string()));
}

#[test]
fn remove_then_absent() {
    let mut tags = names(&["birds", "cats", "dogs"]);
    remove_tag(&mut tags, &"cats".to_string());
    assert_eq!(tags, names(&["birds", "dogs"]));
    remove_tag(&mut tags, &"zebra".to_string());
    assert_eq!(tags, names(&["birds", "dogs"]));
}

#[test]
fn insert_then_remove_restores_list() {
    let before = names(&["birds", "dogs"]);
    let mut tags = before.clone();
    insert_tag_if_absent(&mut tags, &"cats".to_string());
    assert_eq!(tags, names(&["birds", "cats", "dogs"]));
    remove_tag(&mut tags, &"cats".to_string());
    assert_eq!(tags, before);
}

#[test]
fn remove_from_empty_is_noop() {
    let mut tags: Vec<String> = Vec::new();
    remove_tag(&mut tags, &"cats".to_string());
    assert!(tags.is_empty());
}

#[test]
fn selection_flags_follow_membership() {
    let catalog = names(&["birds", "cats", "dogs"]);
    let image_tags = names(&["cats"]);
    let flags = recompute_selection_flags(&catalog, &image_tags);
    assert_eq!(flags, vec![false, true, false]);
}

#[test]
fn selection_flags_empty_catalog() {
    let catalog: Vec<String> = Vec::new();
    let image_tags = names(&["cats"]);
    let flags = recompute_selection_flags(&catalog, &image_tags);
    assert!(flags.is_empty());
}

#[test]
fn selection_flags_match_length_of_catalog() {
    let catalog = names(&["a", "b", "c", "d"]);
    let image_tags = names(&["b", "d"]);
    let flags = recompute_selection_flags(&catalog, &image_tags);
    assert_eq!(flags, vec![false, true, false, true]);
}
