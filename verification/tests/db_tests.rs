use uwu_db::db::Database;

#[test]
fn ensure_image_registers_once() {
    let mut db = Database::new();
    let a = db.ensure_image(&"a.png".to_string());
    let b = db.ensure_image(&"b.png".to_string());
    let a2 = db.ensure_image(&"a.png".to_string());
    assert_eq!(a, a2);
    assert_ne!(a, b);
    assert_eq!(db.images.len(), 2);
}

#[test]
fn ensure_tag_registers_once() {
    let mut db = Database::new();
    let cats = db.ensure_tag(&"cats".to_string());
    let dogs = db.ensure_tag(&"dogs".to_string());
    let cats2 = db.ensure_tag(&"cats".to_string());
    assert_eq!(cats, cats2);
    assert_ne!(cats, dogs);
    assert_eq!(db.tags.len(), 1 + 1);
}

#[test]
fn link_is_recorded_once() {
    let mut db = Database::new();
    let img = db.ensure_image(&"a.png".to_string());
    let tag = db.ensure_tag(&"cats".to_string());
    db.link_tag(img, tag);
    db.link_tag(img, tag);
    assert_eq!(db.image_tags.len(), 1);
}

#[test]
fn unlink_after_link_restores_pairings() {
    let mut db = Database::new();
    let img = db.ensure_image(&"a.png".to_string());
    let cats = db.ensure_tag(&"cats".to_string());
    let dogs = db.ensure_tag(&"dogs".to_string());
    db.link_tag(img, cats);
    db.link_tag(img, dogs);
    db.unlink_tag(img, dogs);
    assert_eq!(db.image_tags.len(), 1);
    let tags = db.tags_of_image(&"a.png".to_string());
    assert_eq!(tags, vec!["cats".to_string()]);
    // the tag itself stays on record
    assert_eq!(db.tags.len(), 2);
}

#[test]
fn tags_of_image_sorted_by_name() {
    let mut db = Database::new();
    let img = db.ensure_image(&"a.png".to_string());
    let zebra = db.ensure_tag(&"zebra".to_string());
    let ant = db.ensure_tag(&"ant".to_string());
    let mole = db.ensure_tag(&"mole".to_string());
    db.link_tag(img, zebra);
    db.link_tag(img, ant);
    db.link_tag(img, mole);
    let tags = db.tags_of_image(&"a.png".to_string());
    assert_eq!(tags, vec!["ant".to_string(), "mole".to_string(), "zebra".to_string()]);
}

#[test]
fn tags_of_unknown_image_is_empty() {
    let db = Database::new();
    assert!(db.tags_of_image(&"nope.png".to_string()).is_empty());
}

#[test]
fn delete_image_cascades_to_pairings() {
    let mut db = Database::new();
    let a = db.ensure_image(&"a.png".to_string());
    let b = db.ensure_image(&"b.png".to_string());
    let cats = db.ensure_tag(&"cats".to_string());
    db.link_tag(a, cats);
    db.link_tag(b, cats);

    db.delete_image(&"a.png".to_string());

    assert_eq!(db.images.len(), 1);
    assert_eq!(db.image_tags.len(), 1);
    // a tag-filtered query no longer returns the deleted image
    let filtered = db.images_with_tag(&"cats".to_string());
    assert_eq!(filtered, vec!["b.png".to_string()]);
}

#[test]
fn delete_unknown_image_changes_nothing() {
    let mut db = Database::new();
    let img = db.ensure_image(&"a.png".to_string());
    let cats = db.ensure_tag(&"cats".to_string());
    db.link_tag(img, cats);
    db.delete_image(&"missing.png".to_string());
    assert_eq!(db.images.len(), 1);
    assert_eq!(db.image_tags.len(), 1);
}

#[test]
fn images_with_unknown_tag_is_empty() {
    let mut db = Database::new();
    db.ensure_image(&"a.png".to_string());
    assert!(db.images_with_tag(&"cats".to_string()).is_empty());
}

#[test]
fn untagged_query_respects_cap() {
    let mut db = Database::new();
    let a = db.ensure_image(&"a.png".to_string());
    db.ensure_image(&"b.png".to_string());
    db.ensure_image(&"c.png".to_string());
    db.ensure_image(&"d.png".to_string());
    let cats = db.ensure_tag(&"cats".to_string());
    db.link_tag(a, cats);

    let untagged = db.untagged_image_paths(2);
    assert_eq!(untagged, vec!["b.png".to_string(), "c.png".to_string()]);

    let all_untagged = db.untagged_image_paths(100);
    assert_eq!(
        all_untagged,
        vec!["b.png".to_string(), "c.png".to_string(), "d.png".to_string()]
    );
}
