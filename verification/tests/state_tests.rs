use uwu_db::image::{file_name, ImageData};
use uwu_db::pipeline::DecodeOutcome;
use uwu_db::state::AppState;

fn bitmap() -> ImageData {
    ImageData { width: 2, height: 2, pixels: vec![0u8; 16] }
}

#[test]
fn file_name_strips_directories() {
    assert_eq!(file_name("pics/good/cat.png"), "cat.png");
    assert_eq!(file_name("pics\\good\\cat.png"), "cat.png");
    assert_eq!(file_name("cat.png"), "cat.png");
    assert_eq!(file_name("pics/"), "");
    assert_eq!(file_name(""), "");
}

#[test]
fn register_names_image_after_its_file() {
    let mut st = AppState::new();
    st.register_image(&bitmap(), "gallery/cat.png".to_string(), 7);
    assert_eq!(st.open_images.len(), 1);
    assert_eq!(st.open_images[0].name, "cat.png");
    assert_eq!(st.open_images[0].original_path, "gallery/cat.png");
    assert_eq!(st.open_images[0].texture, 7);
    assert!(st.open_images[0].tags.is_empty());
    assert_eq!(st.db.images.len(), 1);
}

#[test]
fn same_tag_created_on_two_images() {
    // creating "cats" on the first image and again on the second leaves
    // one catalog entry, while both images carry the tag
    let mut st = AppState::new();
    st.register_image(&bitmap(), "x.png".to_string(), 1);
    st.register_image(&bitmap(), "y.png".to_string(), 2);

    st.select_image(0);
    assert!(st.create_and_apply_tag(&"cats".to_string()));
    st.select_image(1);
    assert!(st.create_and_apply_tag(&"cats".to_string()));

    assert_eq!(st.catalog, vec!["cats".to_string()]);
    assert_eq!(st.db.tags.len(), 1);
    assert_eq!(st.db.tags_of_image(&"x.png".to_string()), vec!["cats".to_string()]);
    assert_eq!(st.db.tags_of_image(&"y.png".to_string()), vec!["cats".to_string()]);
    assert_eq!(st.open_images[1].tags, vec!["cats".to_string()]);
    st.select_image(0);
    assert_eq!(st.open_images[0].tags, vec!["cats".to_string()]);
}

#[test]
fn selection_flags_follow_selected_image() {
    let mut st = AppState::new();
    st.register_image(&bitmap(), "x.png".to_string(), 1);
    st.select_image(0);
    assert!(st.create_and_apply_tag(&"cats".to_string()));
    assert!(st.create_and_apply_tag(&"birds".to_string()));
    assert_eq!(st.catalog, vec!["birds".to_string(), "cats".to_string()]);
    assert_eq!(st.selection_flags, vec![true, true]);

    // unchecking the first catalog entry removes only that tag
    assert!(st.toggle_tag(0, false));
    assert_eq!(st.open_images[0].tags, vec!["cats".to_string()]);
    assert_eq!(st.selection_flags, vec![false, true]);
    // the catalog keeps the name
    assert_eq!(st.catalog, vec!["birds".to_string(), "cats".to_string()]);
}

#[test]
fn toggle_round_trip_restores_tag_list() {
    let mut st = AppState::new();
    st.register_image(&bitmap(), "x.png".to_string(), 1);
    st.select_image(0);
    assert!(st.create_and_apply_tag(&"cats".to_string()));
    assert_eq!(st.open_images[0].tags, vec!["cats".to_string()]);
    let before = st.open_images[0].tags.clone();
    // apply then remove the second catalog tag
    assert!(st.create_and_apply_tag(&"dogs".to_string()));
    let k = st.catalog.iter().position(|n| n == "dogs").unwrap();
    assert!(st.toggle_tag(k, false));
    assert_eq!(st.open_images[0].tags, before);
}

#[test]
fn create_without_selection_does_nothing() {
    let mut st = AppState::new();
    assert!(!st.create_and_apply_tag(&"cats".to_string()));
    assert!(st.catalog.is_empty());
    assert!(st.db.tags.is_empty());
}

#[test]
fn filter_refused_while_loads_in_flight() {
    let mut st = AppState::new();
    st.submit_paths(vec!["a.png".to_string()]);
    assert_eq!(st.pipeline.images_in_flight, 1);
    assert!(st.filter_by_tag(&"cats".to_string()).is_none());
}

#[test]
fn filter_submits_matching_paths() {
    let mut st = AppState::new();
    st.register_image(&bitmap(), "x.png".to_string(), 1);
    st.register_image(&bitmap(), "y.png".to_string(), 2);
    st.select_image(0);
    assert!(st.create_and_apply_tag(&"cats".to_string()));

    let released = st.filter_by_tag(&"cats".to_string()).unwrap();
    assert_eq!(released, vec![1, 2]);
    assert!(st.open_images.is_empty());
    assert_eq!(st.pipeline.images_in_flight, 1);
    assert_eq!(st.pipeline.requests, vec!["x.png".to_string()]);
}

#[test]
fn delete_selected_removes_row_and_pairings() {
    let mut st = AppState::new();
    st.register_image(&bitmap(), "x.png".to_string(), 1);
    st.register_image(&bitmap(), "y.png".to_string(), 2);
    st.select_image(0);
    assert!(st.create_and_apply_tag(&"cats".to_string()));

    st.select_image(0);
    let removed = st.delete_selected_image().unwrap();
    assert_eq!(removed.name, "x.png");
    assert_eq!(removed.texture, 1);
    assert_eq!(st.open_images.len(), 1);
    assert!(st.selected.is_none());
    assert!(st.db.images_with_tag(&"cats".to_string()).is_empty());
    assert_eq!(st.db.images.len(), 1);
}

#[test]
fn close_keeps_database_rows() {
    let mut st = AppState::new();
    st.register_image(&bitmap(), "x.png".to_string(), 1);
    st.select_image(0);
    assert!(st.create_and_apply_tag(&"cats".to_string()));
    st.select_image(0);
    let removed = st.close_selected_image().unwrap();
    assert_eq!(removed.name, "x.png");
    assert!(st.open_images.is_empty());
    assert_eq!(st.db.images.len(), 1);
    assert_eq!(st.db.tags_of_image(&"x.png".to_string()), vec!["cats".to_string()]);
}

#[test]
fn clear_hands_back_every_texture() {
    let mut st = AppState::new();
    st.register_image(&bitmap(), "x.png".to_string(), 11);
    st.register_image(&bitmap(), "y.png".to_string(), 22);
    st.select_image(1);
    let textures = st.clear_open_images();
    assert_eq!(textures, vec![11, 22]);
    assert!(st.open_images.is_empty());
    assert!(st.selected.is_none());
}

#[test]
fn load_untagged_clears_and_submits() {
    let mut st = AppState::new();
    st.register_image(&bitmap(), "x.png".to_string(), 1);
    st.register_image(&bitmap(), "y.png".to_string(), 2);
    st.select_image(0);
    assert!(st.create_and_apply_tag(&"cats".to_string()));

    let released = st.load_untagged(200);
    assert_eq!(released, vec![1, 2]);
    assert_eq!(st.pipeline.requests, vec!["y.png".to_string()]);
}

#[test]
fn poll_round_trip_through_state() {
    let mut st = AppState::new();
    st.submit_paths(vec!["a.png".to_string(), "b.png".to_string()]);
    st.pipeline.worker_step(None);
    st.pipeline.worker_step(Some(bitmap()));
    match st.poll_result() {
        Some(DecodeOutcome::Failed(path)) => assert_eq!(path, "a.png"),
        _ => panic!("expected the failure outcome first"),
    }
    match st.poll_result() {
        Some(DecodeOutcome::Loaded(_, path)) => {
            assert_eq!(path, "b.png");
            st.register_image(&bitmap(), path, 5);
        }
        _ => panic!("expected the loaded outcome second"),
    }
    assert_eq!(st.pipeline.images_in_flight, 0);
    assert_eq!(st.open_images.len(), 1);
}

#[test]
fn adopt_database_rebuilds_sorted_catalog() {
    let mut donor = AppState::new();
    donor.register_image(&bitmap(), "x.png".to_string(), 1);
    donor.select_image(0);
    assert!(donor.create_and_apply_tag(&"zebra".to_string()));
    assert!(donor.create_and_apply_tag(&"ant".to_string()));

    let mut st = AppState::new();
    st.register_image(&bitmap(), "old.png".to_string(), 9);
    let released = st.adopt_database(donor.db);
    assert_eq!(released, vec![9]);
    assert_eq!(st.catalog, vec!["ant".to_string(), "zebra".to_string()]);
    assert_eq!(st.selection_flags, vec![false, false]);
    assert!(st.open_images.is_empty());
}
