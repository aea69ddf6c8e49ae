use pastesheet::capture::{capture_text, CaptureOutcome, ClipboardWatcher, MAX_ITEMS_PER_DIRECTORY};
use pastesheet::store::{Store, StoreError};

fn clipboard_contents(store: &Store) -> Vec<String> {
    store
        .get_all_contents()
        .into_iter()
        .filter(|i| i.directory == "Clipboard")
        .map(|i| i.content)
        .collect()
}

#[test]
fn two_distinct_copies_appear_once_each_newest_first() {
    let mut store = Store::new();
    let before = store.get_directories()[0].count;
    assert_eq!(capture_text(&mut store, "A", MAX_ITEMS_PER_DIRECTORY, 0), Ok(CaptureOutcome::Inserted(1)));
    assert_eq!(capture_text(&mut store, "B", MAX_ITEMS_PER_DIRECTORY, 0), Ok(CaptureOutcome::Inserted(2)));
    assert_eq!(clipboard_contents(&store), vec!["B", "A"]);
    assert!(store.get_directories()[0].count <= before + 2);
}

#[test]
fn copying_again_touches_the_existing_item() {
    let mut store = Store::new();
    capture_text(&mut store, "same", MAX_ITEMS_PER_DIRECTORY, 0).unwrap();
    capture_text(&mut store, "other", MAX_ITEMS_PER_DIRECTORY, 0).unwrap();
    assert_eq!(capture_text(&mut store, "same", MAX_ITEMS_PER_DIRECTORY, 0), Ok(CaptureOutcome::Touched(1)));
    assert_eq!(clipboard_contents(&store), vec!["same", "other"]);
    assert_eq!(store.get_all_contents()[0].id, 1);
    assert_eq!(store.get_all_contents().len(), 2);
}

#[test]
fn touch_keeps_the_memo() {
    let mut store = Store::new();
    store.post_content("noted", "Clipboard", Some("keep me"), 0).unwrap();
    capture_text(&mut store, "noted", MAX_ITEMS_PER_DIRECTORY, 0).unwrap();
    assert_eq!(store.get_all_contents()[0].memo, Some("keep me".to_string()));
}

#[test]
fn capture_at_the_cap_drops_the_oldest() {
    let mut store = Store::new();
    for i in 0..30 {
        capture_text(&mut store, &format!("item {}", i), MAX_ITEMS_PER_DIRECTORY, 0).unwrap();
    }
    assert_eq!(store.get_directories()[0].count, 30);
    let oldest = store.get_all_contents()[29].id;
    capture_text(&mut store, "one more", MAX_ITEMS_PER_DIRECTORY, 0).unwrap();
    assert_eq!(store.get_directories()[0].count, 30);
    assert!(store.get_all_contents().iter().all(|i| i.id != oldest));
    assert_eq!(clipboard_contents(&store)[0], "one more");
}

#[test]
fn cap_leaves_user_directories_alone() {
    let mut store = Store::new();
    store.create_directory("Mine", 0).unwrap();
    for i in 0..5 {
        store.post_content(&format!("m{}", i), "Mine", None, 0).unwrap();
    }
    for i in 0..4 {
        capture_text(&mut store, &format!("c{}", i), 2, 0).unwrap();
    }
    assert_eq!(clipboard_contents(&store), vec!["c3", "c2"]);
    assert_eq!(store.get_directories()[1].count, 5);
}

#[test]
fn blank_text_is_refused() {
    let mut store = Store::new();
    assert_eq!(capture_text(&mut store, "  \n\t", 30, 0), Err(StoreError::Validation));
    assert_eq!(capture_text(&mut store, "", 30, 0), Err(StoreError::Validation));
    assert!(store.get_all_contents().is_empty());
}

#[test]
fn watcher_reports_only_new_non_blank_text() {
    let mut watcher = ClipboardWatcher::new();
    assert!(!watcher.is_new_content(&None));
    assert!(!watcher.is_new_content(&Some("   ".to_string())));
    assert!(watcher.is_new_content(&Some("hello".to_string())));
    watcher.mark_seen("hello".to_string());
    assert!(!watcher.is_new_content(&Some("hello".to_string())));
    assert!(watcher.is_new_content(&Some("hello ".to_string())));
}

#[test]
fn failed_save_leaves_the_text_unseen() {
    let mut watcher = ClipboardWatcher::new();
    assert!(!watcher.after_save("x".to_string(), false));
    assert!(watcher.is_new_content(&Some("x".to_string())));
    assert!(watcher.after_save("x".to_string(), true));
    assert!(!watcher.is_new_content(&Some("x".to_string())));
}

#[test]
fn capture_at_the_cap_keeps_the_other_items() {
    let mut store = Store::new();
    for i in 0..30 {
        capture_text(&mut store, &format!("item {}", i), MAX_ITEMS_PER_DIRECTORY, 0).unwrap();
    }
    let before: Vec<i64> = store.get_all_contents().iter().map(|i| i.id).collect();
    capture_text(&mut store, "one more", MAX_ITEMS_PER_DIRECTORY, 0).unwrap();
    let after: Vec<i64> = store.get_all_contents().iter().map(|i| i.id).collect();
    assert_eq!(after[0], 31);
    assert_eq!(&after[1..], &before[..29]);
}
