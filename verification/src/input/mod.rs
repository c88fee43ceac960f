//! Key inputs that act on an editor.

pub mod rep;

use vstd::prelude::*;

verus! {

/// A keyboard key that performs an action when pressed
/// (rather than modifying another while held)
///
/// All [`KeyInput`]s are repeatable
#[derive(Debug, Clone, Copy, PartialEq, Eq, Hash, Structural)]
pub enum KeyInput {
    /// A character being typed (includes enter/return as `'\n'`)
    Char(char),
    /// Erase the character before the cursor (or all characters selected)
    Backspace,
    /// Erase the character after the cursor (or all characters selected)
    Delete,
    /// Move the cursor to the backward (by either a character or a word)
    Left,
    /// Move the cursor to the forward (by either a character or a word)
    Right,
    /// Move the cursor to the previous line
    Up,
    /// Move the cursor to the next line
    Down,
    /// Move the cursor to the beginning (of either the document or the line)
    Home,
    /// Move the cursor to the end (of either the document or the line)
    End,
}

/// `Some(k)` when `pressed`, else `None`.
pub open spec fn when_pressed(pressed: bool, k: KeyInput) -> Option<KeyInput> {
    if pressed {
        Some(k)
    } else {
        None
    }
}

/// The typed character, else Enter as `'\n'`, else nothing.
pub open spec fn typed_input(typed: Option<char>, enter: bool) -> Option<KeyInput> {
    match typed {
        Some(c) => Some(KeyInput::Char(c)),
        None => when_pressed(enter, KeyInput::Char('\n')),
    }
}

impl KeyInput {
    /// Get an array of the statuses of every possible key input since the
    /// last tick, given the character typed (if any) and which keys were
    /// pressed: the typed character or else Enter as `'\n'`, then Left,
    /// Right, Up, Down, Delete, Backspace, Home and End.
    pub fn key_inputs(
        typed: Option<char>,
        enter: bool,
        left: bool,
        right: bool,
        up: bool,
        down: bool,
        delete: bool,
        backspace: bool,
        home: bool,
        end: bool,
    ) -> (r: [Option<KeyInput>; 9])
        ensures
            r@[0] == typed_input(typed, enter),
            r@[1] == when_pressed(left, KeyInput::Left),
            r@[2] == when_pressed(right, KeyInput::Right),
            r@[3] == when_pressed(up, KeyInput::Up),
            r@[4] == when_pressed(down, KeyInput::Down),
            r@[5] == when_pressed(delete, KeyInput::Delete),
            r@[6] == when_pressed(backspace, KeyInput::Backspace),
            r@[7] == when_pressed(home, KeyInput::Home),
            r@[8] == when_pressed(end, KeyInput::End),
    {
        let first = match typed {
            Some(c) => Some(KeyInput::Char(c)),
            None => if enter {
                Some(KeyInput::Char('\n'))
            } else {
                None
            },
        };
        [
            first,
            if left { Some(KeyInput::Left) } else { None },
            if right { Some(KeyInput::Right) } else { None },
            if up { Some(KeyInput::Up) } else { None },
            if down { Some(KeyInput::Down) } else { None },
            if delete { Some(KeyInput::Delete) } else { None },
            if backspace { Some(KeyInput::Backspace) } else { None },
            if home { Some(KeyInput::Home) } else { None },
            if end { Some(KeyInput::End) } else { None },
        ]
    }
}

} // verus!
