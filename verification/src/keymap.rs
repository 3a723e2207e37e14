//! Which board key a key press means, with and without Flash search open.

use vstd::prelude::*;
use crate::facts::Key;

verus! {

/// The key pressed, without its modifiers; keys the board ignores are `Other`.
#[derive(Debug, Clone, Copy, PartialEq, Eq, Structural)]
pub enum PressedKey {
    PageDown,
    PageUp,
    Left,
    Down,
    Up,
    Right,
    Enter,
    Esc,
    Backspace,
    Char(char),
    Other,
}

/// A key press: the key, whether no modifier was held, and whether Ctrl was.
#[derive(Debug, Clone, Copy, PartialEq, Eq, Structural)]
pub struct KeyPress {
    pub key: PressedKey,
    pub no_modifiers: bool,
    pub ctrl: bool,
}

/// The board key for a plain key press (no modifiers).
pub open spec fn plain_key(key: PressedKey, hinting: bool) -> Option<Key> {
    match key {
        PressedKey::Left => Some(Key::Left),
        PressedKey::Down => Some(Key::Down),
        PressedKey::Up => Some(Key::Up),
        PressedKey::Right => Some(Key::Right),
        PressedKey::PageDown => Some(Key::PageDown),
        PressedKey::PageUp => Some(Key::PageUp),
        PressedKey::Enter => if !hinting {
            Some(Key::Confirm)
        } else {
            None
        },
        PressedKey::Esc => Some(Key::Dismiss),
        PressedKey::Backspace => if hinting {
            Some(Key::Backspace)
        } else {
            None
        },
        PressedKey::Char(c) => if hinting {
            Some(Key::Input(c))
        } else {
            command_key(c)
        },
        PressedKey::Other => None,
    }
}

/// The board key a letter means outside Flash search.
pub open spec fn command_key(c: char) -> Option<Key> {
    if c == 's' {
        Some(Key::StartHint)
    } else if c == 'z' {
        Some(Key::ZPrefix)
    } else if c == 't' {
        Some(Key::AlignTop)
    } else if c == 'b' {
        Some(Key::AlignBottom)
    } else if c == 'g' {
        Some(Key::GoPrefix)
    } else if c == 'G' {
        Some(Key::Last)
    } else if c == '?' {
        Some(Key::ToggleHelp)
    } else if c == 'q' {
        Some(Key::Dismiss)
    } else if c == 'h' {
        Some(Key::Left)
    } else if c == 'j' {
        Some(Key::Down)
    } else if c == 'k' {
        Some(Key::Up)
    } else if c == 'l' {
        Some(Key::Right)
    } else if c == 'e' {
        Some(Key::Confirm)
    } else if c == '-' {
        Some(Key::PreviousTab)
    } else {
        None
    }
}

/// The board key Ctrl with a letter means outside Flash search: paging.
pub open spec fn ctrl_key(key: PressedKey) -> Option<Key> {
    match key {
        PressedKey::Char(c) => if c == 'd' {
            Some(Key::HalfPageDown)
        } else if c == 'u' {
            Some(Key::HalfPageUp)
        } else if c == 'f' {
            Some(Key::PageDown)
        } else if c == 'b' {
            Some(Key::PageUp)
        } else {
            None
        },
        _ => None,
    }
}

/// The board key for a key press in the plugin: plain keys as above;
/// outside Flash search, Ctrl with `d`, `u`, `f`, `b` pages; nothing else.
pub open spec fn map_key_spec(press: KeyPress, hinting: bool) -> Option<Key> {
    if press.no_modifiers {
        plain_key(press.key, hinting)
    } else if !hinting && press.ctrl {
        ctrl_key(press.key)
    } else {
        None
    }
}

/// The board key for a key press in the local terminal board, where Shift
/// counts as no modifier and `p` pins.
pub open spec fn map_terminal_key_spec(press: KeyPress, hinting: bool) -> Option<Key> {
    if press.ctrl && !hinting {
        ctrl_key(press.key)
    } else if !press.no_modifiers {
        None
    } else {
        match press.key {
            PressedKey::Char(c) => if !hinting && c == 'p' {
                Some(Key::Pin)
            } else {
                plain_key(press.key, hinting)
            },
            _ => plain_key(press.key, hinting),
        }
    }
}

fn ctrl_key_exec(key: PressedKey) -> (mapped: Option<Key>)
    ensures
        mapped == ctrl_key(key),
{
    match key {
        PressedKey::Char(c) => if c == 'd' {
            Some(Key::HalfPageDown)
        } else if c == 'u' {
            Some(Key::HalfPageUp)
        } else if c == 'f' {
            Some(Key::PageDown)
        } else if c == 'b' {
            Some(Key::PageUp)
        } else {
            None
        },
        _ => None,
    }
}

fn plain_key_exec(key: PressedKey, hinting: bool) -> (mapped: Option<Key>)
    ensures
        mapped == plain_key(key, hinting),
{
    match key {
        PressedKey::Left => Some(Key::Left),
        PressedKey::Down => Some(Key::Down),
        PressedKey::Up => Some(Key::Up),
        PressedKey::Right => Some(Key::Right),
        PressedKey::PageDown => Some(Key::PageDown),
        PressedKey::PageUp => Some(Key::PageUp),
        PressedKey::Enter => if !hinting { Some(Key::Confirm) } else { None },
        PressedKey::Esc => Some(Key::Dismiss),
        PressedKey::Backspace => if hinting { Some(Key::Backspace) } else { None },
        PressedKey::Char(c) => if hinting { Some(Key::Input(c)) } else { command_key_exec(c) },
        PressedKey::Other => None,
    }
}

fn command_key_exec(c: char) -> (key: Option<Key>)
    ensures
        key == command_key(c),
{
    if c == 's' {
        Some(Key::StartHint)
    } else if c == 'z' {
        Some(Key::ZPrefix)
    } else if c == 't' {
        Some(Key::AlignTop)
    } else if c == 'b' {
        Some(Key::AlignBottom)
    } else if c == 'g' {
        Some(Key::GoPrefix)
    } else if c == 'G' {
        Some(Key::Last)
    } else if c == '?' {
        Some(Key::ToggleHelp)
    } else if c == 'q' {
        Some(Key::Dismiss)
    } else if c == 'h' {
        Some(Key::Left)
    } else if c == 'j' {
        Some(Key::Down)
    } else if c == 'k' {
        Some(Key::Up)
    } else if c == 'l' {
        Some(Key::Right)
    } else if c == 'e' {
        Some(Key::Confirm)
    } else if c == '-' {
        Some(Key::PreviousTab)
    } else {
        None
    }
}

/// The board key a key press means in the plugin.
pub fn map_key(press: &KeyPress, hinting: bool) -> (key: Option<Key>)
    ensures
        key == map_key_spec(*press, hinting),
{
    if press.no_modifiers {
        plain_key_exec(press.key, hinting)
    } else if !hinting && press.ctrl {
        ctrl_key_exec(press.key)
    } else {
        None
    }
}

/// The board key a key press means in the local terminal board.
pub fn map_terminal_key(press: &KeyPress, hinting: bool) -> (key: Option<Key>)
    ensures
        key == map_terminal_key_spec(*press, hinting),
{
    if press.ctrl && !hinting {
        return ctrl_key_exec(press.key);
    }
    if !press.no_modifiers {
        return None;
    }
    match press.key {
        PressedKey::Char(c) => if !hinting && c == 'p' {
            Some(Key::Pin)
        } else {
            plain_key_exec(press.key, hinting)
        },
        _ => plain_key_exec(press.key, hinting),
    }
}

/// Whether the press is one of `h`, `j`, `k`, `l` with no modifier.
pub fn is_hjkl(press: &KeyPress) -> (hjkl: bool)
    ensures
        hjkl == (press.no_modifiers && (press.key matches PressedKey::Char(c) && (c == 'h' || c == 'j' || c == 'k' || c == 'l'))),
{
    press.no_modifiers && match press.key {
        PressedKey::Char(c) => c == 'h' || c == 'j' || c == 'k' || c == 'l',
        _ => false,
    }
}

} // verus!
