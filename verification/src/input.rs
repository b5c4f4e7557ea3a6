//! Terminal input events, as plain values.

use vstd::prelude::*;

verus! {

/// A key of the keyboard.
#[derive(Clone, Copy, Debug, PartialEq, Eq, Structural)]
pub enum KeyCode {
    Backspace,
    Enter,
    Left,
    Right,
    Up,
    Down,
    Home,
    End,
    PageUp,
    PageDown,
    Tab,
    Delete,
    Insert,
    Esc,
    Char(char),
    /// Any other key.
    Other,
}

/// Whether a key was pressed, repeated or released.
#[derive(Clone, Copy, Debug, PartialEq, Eq, Structural)]
pub enum KeyEventKind {
    Press,
    Repeat,
    Release,
}

/// The modifier bit of the Control key.
pub const CONTROL: u8 = 0b0000_0010;

/// A key event: the key, what happened to it, and the modifier keys held,
/// as bits (1 Shift, 2 Control, 4 Alt, 8 Super, 16 Hyper, 32 Meta).
#[derive(Clone, Copy, Debug, PartialEq, Eq, Structural)]
pub struct KeyEvent {
    pub code: KeyCode,
    pub kind: KeyEventKind,
    pub modifiers: u8,
}

/// A mouse button.
#[derive(Clone, Copy, Debug, PartialEq, Eq, Structural)]
pub enum MouseButton {
    Left,
    Right,
    Middle,
}

/// What the mouse did.
#[derive(Clone, Copy, Debug, PartialEq, Eq, Structural)]
pub enum MouseEventKind {
    Down(MouseButton),
    Up(MouseButton),
    Drag(MouseButton),
    Moved,
    ScrollDown,
    ScrollUp,
    ScrollLeft,
    ScrollRight,
}

/// A mouse event at the screen cell `(column, row)`, with the modifier keys
/// held, as bits.
#[derive(Clone, Copy, Debug, PartialEq, Eq, Structural)]
pub struct MouseEvent {
    pub kind: MouseEventKind,
    pub column: u16,
    pub row: u16,
    pub modifiers: u8,
}

/// An event of the terminal.
#[derive(Clone, Debug)]
pub enum InputEvent {
    FocusGained,
    FocusLost,
    Key(KeyEvent),
    Mouse(MouseEvent),
    Paste(String),
    Resize(u16, u16),
}

impl InputEvent {
    /// The key pressed, if this is a key press.
    pub open spec fn pressed_key(self) -> Option<KeyCode> {
        match self {
            InputEvent::Key(k) => if k.kind == KeyEventKind::Press {
                Some(k.code)
            } else {
                None
            },
            _ => None,
        }
    }

    /// Whether this is a press of the key `code`.
    pub open spec fn is_press_of(self, code: KeyCode) -> bool {
        self matches InputEvent::Key(k) && k.kind == KeyEventKind::Press && k.code == code
    }

    /// Whether this is a press of the key `code`.
    pub fn is_press(&self, code: KeyCode) -> (r: bool)
        ensures
            r == self.is_press_of(code),
    {
        match self {
            InputEvent::Key(k) => k.kind == KeyEventKind::Press && k.code == code,
            _ => false,
        }
    }
}

} // verus!
