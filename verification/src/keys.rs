//! The keys that the editors react to, and what a key press asks of the
//! program around them.
use vstd::prelude::*;

verus! {

/// A key read from the terminal.
#[derive(Clone, Copy, Debug, PartialEq, Eq, Structural)]
pub enum Key {
    Backspace,
    Left,
    Right,
    Up,
    Down,
    Home,
    End,
    PageUp,
    PageDown,
    BackTab,
    Delete,
    Insert,
    F(u8),
    Char(char),
    Alt(char),
    Ctrl(char),
    Null,
    Esc,
}

/// What the program does after a key press.
#[derive(Debug)]
pub enum KeyAction {
    /// Keep reading keys.
    Continue,
    /// Write `content` to the file `file_name`, then keep reading keys.
    Save { file_name: String, content: String },
    /// Stop.
    Quit,
}

impl KeyAction {
    /// Whether the program keeps reading keys.
    pub fn should_continue(&self) -> (r: bool)
        ensures
            r == !(self is Quit),
    {
        match self {
            KeyAction::Quit => false,
            _ => true,
        }
    }
}

} // verus!
