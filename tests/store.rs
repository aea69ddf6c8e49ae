use pastesheet::store::{Store, StoreError};

fn names(store: &Store) -> Vec<String> {
    store.get_directories().into_iter().map(|d| d.name).collect()
}

#[test]
fn new_store_holds_only_the_reserved_directory() {
    let store = Store::new();
    let dirs = store.get_directories();
    assert_eq!(dirs.len(), 1);
    assert_eq!(dirs[0].name, "Clipboard");
    assert_eq!(dirs[0].count, 0);
    assert!(store.get_all_contents().is_empty());
}

#[test]
fn work_directory_scenario() {
    let mut store = Store::new();
    assert!(store.create_directory("Work", 0).is_ok());
    assert_eq!(store.post_content("hello", "Work", None, 0), Ok(1));
    let history = store.get_all_contents();
    assert_eq!(history.len(), 1);
    assert_eq!(history[0].content, "hello");
    assert_eq!(history[0].directory, "Work");
    assert_eq!(store.delete_directory("Work"), Ok(()));
    assert!(store.get_all_contents().is_empty());
    assert!(!names(&store).contains(&"Work".to_string()));
}

#[test]
fn create_directory_trims_the_name() {
    let mut store = Store::new();
    assert_eq!(store.create_directory("  Notes \t", 0), Ok(2));
    assert_eq!(names(&store), vec!["Clipboard".to_string(), "Notes".to_string()]);
}

#[test]
fn create_directory_rejects_blank_and_duplicate_names() {
    let mut store = Store::new();
    assert_eq!(store.create_directory("   ", 0), Err(StoreError::Validation));
    assert_eq!(store.create_directory("", 0), Err(StoreError::Validation));
    assert_eq!(store.create_directory("Clipboard", 0), Err(StoreError::Conflict));
    store.create_directory("A", 0).unwrap();
    assert_eq!(store.create_directory(" A ", 0), Err(StoreError::Conflict));
    assert_eq!(names(&store).len(), 2);
}

#[test]
fn reserved_directory_cannot_be_renamed_or_deleted() {
    let mut store = Store::new();
    store.post_content("x", "Clipboard", None, 0).unwrap();
    assert_eq!(store.rename_directory("Clipboard", "X"), Err(StoreError::Validation));
    assert_eq!(store.rename_directory(" Clipboard ", "X"), Err(StoreError::Validation));
    assert_eq!(store.delete_directory("Clipboard"), Err(StoreError::Validation));
    assert_eq!(names(&store), vec!["Clipboard".to_string()]);
    assert_eq!(store.get_all_contents()[0].directory, "Clipboard");
}

#[test]
fn rename_moves_the_directory_and_its_items() {
    let mut store = Store::new();
    store.create_directory("Old", 0).unwrap();
    store.create_directory("Other", 0).unwrap();
    store.post_content("a", "Old", Some("m"), 0).unwrap();
    store.post_content("b", "Other", None, 0).unwrap();
    store.post_content("c", "Old", None, 0).unwrap();
    assert_eq!(store.rename_directory("Old", " New "), Ok(()));
    assert_eq!(
        names(&store),
        vec!["Clipboard".to_string(), "New".to_string(), "Other".to_string()]
    );
    let history = store.get_all_contents();
    let dirs: Vec<&str> = history.iter().map(|i| i.directory.as_str()).collect();
    assert_eq!(dirs, vec!["New", "Other", "New"]);
    assert_eq!(history[2].memo, Some("m".to_string()));
    let infos = store.get_directories();
    assert_eq!(infos[1].count, 2);
    assert_eq!(infos[2].count, 1);
}

#[test]
fn rename_reports_missing_and_taken_names() {
    let mut store = Store::new();
    store.create_directory("A", 0).unwrap();
    store.create_directory("B", 0).unwrap();
    store.post_content("a", "A", None, 0).unwrap();
    assert_eq!(store.rename_directory("Missing", "C"), Err(StoreError::NotFound));
    assert_eq!(store.rename_directory("A", "B"), Err(StoreError::Conflict));
    assert_eq!(store.rename_directory("A", "  "), Err(StoreError::Validation));
    assert_eq!(store.rename_directory("A", "Clipboard"), Err(StoreError::Validation));
    assert_eq!(store.rename_directory("A", "A"), Ok(()));
    assert_eq!(store.get_all_contents()[0].directory, "A");
}

#[test]
fn delete_directory_removes_only_its_items() {
    let mut store = Store::new();
    store.create_directory("A", 0).unwrap();
    store.post_content("one", "A", None, 0).unwrap();
    store.post_content("two", "Clipboard", None, 0).unwrap();
    assert_eq!(store.delete_directory("A"), Ok(()));
    let history = store.get_all_contents();
    assert_eq!(history.len(), 1);
    assert_eq!(history[0].content, "two");
    assert_eq!(store.delete_directory("Nowhere"), Ok(()));
    assert_eq!(store.get_all_contents().len(), 1);
}

#[test]
fn post_content_checks_content_and_directory() {
    let mut store = Store::new();
    assert_eq!(store.post_content("", "Clipboard", None, 0), Err(StoreError::Validation));
    assert_eq!(store.post_content("x", "Nowhere", None, 0), Err(StoreError::NotFound));
    assert_eq!(store.post_content("x", "Clipboard", None, 0), Ok(1));
    assert_eq!(store.post_content("y", "Clipboard", Some("note"), 0), Ok(2));
    let history = store.get_all_contents();
    assert_eq!(history[0].content, "y");
    assert_eq!(history[0].memo, Some("note".to_string()));
    assert!(history[0].created_at > history[1].created_at);
}

#[test]
fn update_content_rewrites_and_moves_to_top() {
    let mut store = Store::new();
    store.create_directory("W", 0).unwrap();
    store.post_content("first", "Clipboard", None, 0).unwrap();
    store.post_content("second", "Clipboard", None, 0).unwrap();
    assert_eq!(store.update_content(1, "edited", "W", Some("memo"), 0), Ok(1));
    let history = store.get_all_contents();
    assert_eq!(history[0].id, 1);
    assert_eq!(history[0].content, "edited");
    assert_eq!(history[0].directory, "W");
    assert_eq!(history[0].memo, Some("memo".to_string()));
    assert_eq!(history[1].id, 2);
}

#[test]
fn update_content_errors_and_unknown_ids() {
    let mut store = Store::new();
    store.post_content("a", "Clipboard", None, 0).unwrap();
    assert_eq!(store.update_content(1, "", "Clipboard", None, 0), Err(StoreError::Validation));
    assert_eq!(store.update_content(1, "b", "Nowhere", None, 0), Err(StoreError::NotFound));
    assert_eq!(store.update_content(99, "b", "Clipboard", None, 0), Ok(99));
    let history = store.get_all_contents();
    assert_eq!(history.len(), 1);
    assert_eq!(history[0].content, "a");
}

#[test]
fn delete_history_item_removes_one_item() {
    let mut store = Store::new();
    store.post_content("a", "Clipboard", None, 0).unwrap();
    store.post_content("b", "Clipboard", None, 0).unwrap();
    store.delete_history_item(1);
    let history = store.get_all_contents();
    assert_eq!(history.len(), 1);
    assert_eq!(history[0].id, 2);
    store.delete_history_item(42);
    assert_eq!(store.get_all_contents().len(), 1);
}

#[test]
fn find_by_content_is_scoped_to_a_directory() {
    let mut store = Store::new();
    store.create_directory("W", 0).unwrap();
    store.post_content("same", "W", None, 0).unwrap();
    assert!(store.find_by_content("same", "Clipboard").is_none());
    store.post_content("same", "Clipboard", None, 0).unwrap();
    let found = store.find_by_content("same", "Clipboard").unwrap();
    assert_eq!(found.id, 2);
    assert_eq!(found.directory, "Clipboard");
    assert!(store.find_by_content("sam", "Clipboard").is_none());
}

#[test]
fn get_directories_counts_items_including_empty_directories() {
    let mut store = Store::new();
    store.create_directory("B", 0).unwrap();
    store.create_directory("A", 0).unwrap();
    store.post_content("x", "A", None, 0).unwrap();
    store.post_content("y", "A", None, 0).unwrap();
    store.post_content("z", "Clipboard", None, 0).unwrap();
    let dirs = store.get_directories();
    let got: Vec<(String, i64)> = dirs.into_iter().map(|d| (d.name, d.count)).collect();
    assert_eq!(
        got,
        vec![("Clipboard".to_string(), 1), ("B".to_string(), 0), ("A".to_string(), 2)]
    );
}

#[test]
fn cleanup_old_items_keeps_the_newest() {
    let mut store = Store::new();
    store.create_directory("W", 0).unwrap();
    for i in 0..5 {
        store.post_content(&format!("c{}", i), "Clipboard", None, 0).unwrap();
        store.post_content(&format!("w{}", i), "W", None, 0).unwrap();
    }
    store.cleanup_old_items("Clipboard", 3);
    let history = store.get_all_contents();
    let clip: Vec<String> = history
        .iter()
        .filter(|i| i.directory == "Clipboard")
        .map(|i| i.content.clone())
        .collect();
    assert_eq!(clip, vec!["c4", "c3", "c2"]);
    assert_eq!(history.iter().filter(|i| i.directory == "W").count(), 5);
    store.cleanup_old_items("Clipboard", 10);
    assert_eq!(store.get_all_contents().len(), 8);
}

#[test]
fn settings_round_trip_and_overwrite() {
    let mut store = Store::new();
    assert_eq!(store.get_setting("mouse_edge_enabled"), None);
    store.set_setting("mouse_edge_enabled", "false");
    store.set_setting("future_key", "anything");
    assert_eq!(store.get_setting("mouse_edge_enabled"), Some("false".to_string()));
    store.set_setting("mouse_edge_enabled", "true");
    assert_eq!(store.get_setting("mouse_edge_enabled"), Some("true".to_string()));
    assert_eq!(store.get_setting("future_key"), Some("anything".to_string()));
    assert_eq!(store.settings().len(), 2);
}

#[test]
fn restore_item_keeps_ids_and_backfills_directories() {
    let mut store = Store::new();
    assert_eq!(store.restore_item(7, "kept", "Legacy", None, 100), Ok(()));
    assert_eq!(store.restore_item(3, "older id", "Clipboard", Some("m"), 200), Ok(()));
    assert_eq!(names(&store), vec!["Clipboard".to_string(), "Legacy".to_string()]);
    let history = store.get_all_contents();
    assert_eq!(history[0].id, 3);
    assert_eq!(history[0].created_at, 200);
    assert_eq!(history[1].id, 7);
    assert_eq!(history[1].created_at, 100);
    assert_eq!(store.restore_item(7, "dup", "Clipboard", None, 300), Err(StoreError::Conflict));
    assert_eq!(store.restore_item(0, "bad", "Clipboard", None, 300), Err(StoreError::Validation));
    assert_eq!(store.restore_item(9, "", "Clipboard", None, 300), Err(StoreError::Validation));
    assert_eq!(store.restore_item(9, "x", "", None, 300), Err(StoreError::Validation));
    let next = store.post_content("new", "Clipboard", None, 0).unwrap();
    assert!(next > 7);
    assert!(store.get_all_contents()[0].created_at > 200);
}

#[test]
fn restore_item_moves_a_stale_stamp_after_earlier_rows() {
    let mut store = Store::new();
    store.restore_item(1, "a", "Clipboard", None, 50).unwrap();
    store.restore_item(2, "b", "Clipboard", None, 50).unwrap();
    let history = store.get_all_contents();
    assert_eq!(history[0].created_at, 51);
    assert_eq!(history[1].created_at, 50);
}

#[test]
fn restore_directory_keeps_id_name_and_stamp() {
    let mut store = Store::new();
    assert_eq!(store.restore_directory(5, " Spaced ", 40), Ok(()));
    assert_eq!(store.restore_directory(3, "Other", 60), Ok(()));
    let dirs = store.directories();
    assert_eq!(dirs[1].id, 5);
    assert_eq!(dirs[1].name, " Spaced ");
    assert_eq!(dirs[1].created_at, 40);
    assert_eq!(dirs[2].id, 3);
    assert_eq!(store.restore_directory(5, "New", 70), Err(StoreError::Conflict));
    assert_eq!(store.restore_directory(8, "Other", 70), Err(StoreError::Conflict));
    assert_eq!(store.restore_directory(8, "Clipboard", 70), Err(StoreError::Conflict));
    assert_eq!(store.restore_directory(0, "Zero", 70), Err(StoreError::Validation));
    assert_eq!(store.restore_directory(8, "", 70), Err(StoreError::Validation));
    assert_eq!(store.restore_item(1, "x", " Spaced ", None, 80), Ok(()));
    assert_eq!(names(&store).len(), 3);
    assert_eq!(store.create_directory("Next", 0), Ok(6));
}

#[test]
fn new_store_numbers_from_one() {
    let mut store = Store::new();
    assert_eq!(store.directories()[0].id, 1);
    assert_eq!(store.create_directory("Work", 0), Ok(2));
    assert_eq!(store.post_content("hello", "Work", None, 0), Ok(1));
    assert!(store.directories()[1].created_at > store.directories()[0].created_at);
}

#[test]
fn store_error_messages_are_readable() {
    assert_eq!(StoreError::Validation.message(), "invalid input");
    assert_eq!(StoreError::Conflict.message(), "the name is already taken");
    assert_eq!(StoreError::NotFound.message(), "no such directory");
    assert_eq!(StoreError::Storage("disk full".to_string()).message(), "storage: disk full");
}

#[test]
fn stamps_follow_the_given_time() {
    let mut store = Store::new();
    store.post_content("a", "Clipboard", None, 1000).unwrap();
    store.post_content("b", "Clipboard", None, 500).unwrap();
    let history = store.get_all_contents();
    assert_eq!(history[0].created_at, 1001);
    assert_eq!(history[1].created_at, 1000);
    store.update_content(1, "a2", "Clipboard", None, 2000).unwrap();
    assert_eq!(store.get_all_contents()[0].created_at, 2000);
    store.create_directory("D", 3000).unwrap();
    assert_eq!(store.directories()[1].created_at, 3000);
    assert_eq!(store.post_content("c", "Clipboard", None, u64::MAX), Err(StoreError::Storage("the history store has no ids or stamps left".to_string())));
}
