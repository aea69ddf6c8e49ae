//! Global shortcut decisions and the memory of the application that had
//! focus before the panel was shown.

use vstd::prelude::*;

verus! {

/// The key of a global shortcut event.
#[derive(Clone, Copy, Debug, PartialEq, Eq, Structural)]
pub enum ShortcutKey {
    KeyV,
    Enter,
    Other,
}

/// What a shortcut event asks for.
#[derive(Clone, Copy, Debug, PartialEq, Eq, Structural)]
pub enum ShortcutAction {
    /// Remember the focused application, then toggle the panel.
    SaveAndToggle,
    /// Remember the focused application.
    Save,
    /// Nothing.
    Ignore,
}

/// Presses of the toggle key remember the focused application and toggle
/// the panel; presses of Enter only remember it; releases do nothing.
pub fn handle_shortcut(key: ShortcutKey, pressed: bool) -> (r: ShortcutAction)
    ensures
        r == if !pressed {
            ShortcutAction::Ignore
        } else {
            match key {
                ShortcutKey::KeyV => ShortcutAction::SaveAndToggle,
                ShortcutKey::Enter => ShortcutAction::Save,
                ShortcutKey::Other => ShortcutAction::Ignore,
            }
        },
{
    if !pressed {
        return ShortcutAction::Ignore;
    }
    match key {
        ShortcutKey::KeyV => ShortcutAction::SaveAndToggle,
        ShortcutKey::Enter => ShortcutAction::Save,
        ShortcutKey::Other => ShortcutAction::Ignore,
    }
}

/// This application's own names, which are never remembered.
pub open spec fn is_own_app(name: Seq<char>) -> bool {
    name == seq!['P', 'a', 's', 't', 'e', 'S', 'h', 'e', 'e', 't'] || name == seq![
        'E',
        'l',
        'e',
        'c',
        't',
        'r',
        'o',
        'n',
    ]
}

/// Remembers `current`, the focused application's name, unless it could
/// not be read or is this application itself.
pub fn save_current_app(prev: &mut Option<String>, current: Option<String>)
    ensures
        match current {
            Some(name) => if is_own_app(name@) {
                *final(prev) == *old(prev)
            } else {
                *final(prev) == Some(name)
            },
            None => *final(prev) == *old(prev),
        },
{
    if let Some(name) = current {
        let own = String::from_str("PasteSheet");
        let dev = String::from_str("Electron");
        proof {
            reveal_strlit("PasteSheet");
            reveal_strlit("Electron");
            assert(own@ =~= seq!['P', 'a', 's', 't', 'e', 'S', 'h', 'e', 'e', 't']);
            assert(dev@ =~= seq!['E', 'l', 'e', 'c', 't', 'r', 'o', 'n']);
        }
        if name != own && name != dev {
            *prev = Some(name);
        }
    }
}

} // verus!
