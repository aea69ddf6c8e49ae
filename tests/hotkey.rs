use pastesheet::hotkey::{handle_shortcut, save_current_app, ShortcutAction, ShortcutKey};

#[test]
fn shortcut_presses_map_to_actions() {
    assert_eq!(handle_shortcut(ShortcutKey::KeyV, true), ShortcutAction::SaveAndToggle);
    assert_eq!(handle_shortcut(ShortcutKey::Enter, true), ShortcutAction::Save);
    assert_eq!(handle_shortcut(ShortcutKey::Other, true), ShortcutAction::Ignore);
    assert_eq!(handle_shortcut(ShortcutKey::KeyV, false), ShortcutAction::Ignore);
}

#[test]
fn previous_app_ignores_this_app() {
    let mut prev = None;
    save_current_app(&mut prev, Some("Google Chrome".to_string()));
    assert_eq!(prev, Some("Google Chrome".to_string()));
    save_current_app(&mut prev, Some("PasteSheet".to_string()));
    save_current_app(&mut prev, Some("Electron".to_string()));
    save_current_app(&mut prev, None);
    assert_eq!(prev, Some("Google Chrome".to_string()));
    save_current_app(&mut prev, Some("Code".to_string()));
    assert_eq!(prev, Some("Code".to_string()));
}
