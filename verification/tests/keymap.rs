use zellij_overview::keymap::{is_hjkl, map_key, map_terminal_key, KeyPress, PressedKey};
use zellij_overview::Key;

fn plain(key: PressedKey) -> KeyPress {
    KeyPress { key, no_modifiers: true, ctrl: false }
}

fn ctrl(c: char) -> KeyPress {
    KeyPress { key: PressedKey::Char(c), no_modifiers: false, ctrl: true }
}

#[test]
fn plain_keys_move_and_jump() {
    assert_eq!(map_key(&plain(PressedKey::Char('h')), false), Some(Key::Left));
    assert_eq!(map_key(&plain(PressedKey::Char('j')), false), Some(Key::Down));
    assert_eq!(map_key(&plain(PressedKey::Char('k')), false), Some(Key::Up));
    assert_eq!(map_key(&plain(PressedKey::Char('l')), false), Some(Key::Right));
    assert_eq!(map_key(&plain(PressedKey::Char('e')), false), Some(Key::Confirm));
    assert_eq!(map_key(&plain(PressedKey::Enter), false), Some(Key::Confirm));
    assert_eq!(map_key(&plain(PressedKey::Char('G')), false), Some(Key::Last));
    assert_eq!(map_key(&plain(PressedKey::Char('-')), false), Some(Key::PreviousTab));
    assert_eq!(map_key(&plain(PressedKey::Char('s')), false), Some(Key::StartHint));
    assert_eq!(map_key(&plain(PressedKey::Esc), false), Some(Key::Dismiss));
    assert_eq!(map_key(&plain(PressedKey::Other), false), None);
}

#[test]
fn flash_search_takes_characters_as_input() {
    assert_eq!(map_key(&plain(PressedKey::Char('s')), true), Some(Key::Input('s')));
    assert_eq!(map_key(&plain(PressedKey::Char('h')), true), Some(Key::Input('h')));
    assert_eq!(map_key(&plain(PressedKey::Backspace), true), Some(Key::Backspace));
    assert_eq!(map_key(&plain(PressedKey::Backspace), false), None);
    assert_eq!(map_key(&plain(PressedKey::Enter), true), None);
    assert_eq!(map_key(&plain(PressedKey::Esc), true), Some(Key::Dismiss));
}

#[test]
fn ctrl_pages_only_outside_flash() {
    assert_eq!(map_key(&ctrl('d'), false), Some(Key::HalfPageDown));
    assert_eq!(map_key(&ctrl('u'), false), Some(Key::HalfPageUp));
    assert_eq!(map_key(&ctrl('f'), false), Some(Key::PageDown));
    assert_eq!(map_key(&ctrl('b'), false), Some(Key::PageUp));
    assert_eq!(map_key(&ctrl('x'), false), None);
    assert_eq!(map_key(&ctrl('d'), true), None);
}

#[test]
fn the_plugin_has_no_pin_key_but_the_terminal_board_does() {
    assert_eq!(map_key(&plain(PressedKey::Char('p')), false), None);
    assert_eq!(map_terminal_key(&plain(PressedKey::Char('p')), false), Some(Key::Pin));
    assert_eq!(map_terminal_key(&plain(PressedKey::Char('p')), true), Some(Key::Input('p')));
    assert_eq!(map_terminal_key(&ctrl('d'), false), Some(Key::HalfPageDown));
}

#[test]
fn hjkl_needs_no_modifier() {
    assert!(is_hjkl(&plain(PressedKey::Char('h'))));
    assert!(is_hjkl(&plain(PressedKey::Char('l'))));
    assert!(!is_hjkl(&plain(PressedKey::Char('x'))));
    assert!(!is_hjkl(&KeyPress { key: PressedKey::Char('j'), no_modifiers: false, ctrl: true }));
}
