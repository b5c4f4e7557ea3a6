//! The decisions of the drawing and echo loops: what each terminal event
//! asks for.

use vstd::prelude::*;

use crate::input::{InputEvent, KeyCode, MouseButton, MouseEventKind, CONTROL};

verus! {

/// What the drawing loop does after an event.
#[derive(Clone, Copy, Debug, PartialEq, Eq, Structural)]
pub enum ControlAction {
    /// Leave the loop.
    Quit,
    /// Print `ch` at the terminal cell `(column, row)`.
    Paint { column: u16, row: u16, ch: char },
    /// Nothing.
    Ignore,
}

/// What the drawing loop does after `ev`: `q`, `Q` or Esc quits; a left
/// click or drag paints `#`, a right click or drag paints a space; a left
/// drag with Control held (and no other modifier) paints nothing.
pub open spec fn control_action_spec(ev: InputEvent) -> ControlAction {
    match ev {
        InputEvent::Key(k) => if k.code == KeyCode::Char('q') || k.code == KeyCode::Char('Q')
            || k.code == KeyCode::Esc {
            ControlAction::Quit
        } else {
            ControlAction::Ignore
        },
        InputEvent::Mouse(m) => match m.kind {
            MouseEventKind::Down(MouseButton::Left) => ControlAction::Paint {
                column: m.column,
                row: m.row,
                ch: '#',
            },
            MouseEventKind::Down(MouseButton::Right) => ControlAction::Paint {
                column: m.column,
                row: m.row,
                ch: ' ',
            },
            MouseEventKind::Drag(MouseButton::Left) => if m.modifiers == CONTROL {
                ControlAction::Ignore
            } else {
                ControlAction::Paint { column: m.column, row: m.row, ch: '#' }
            },
            MouseEventKind::Drag(MouseButton::Right) => ControlAction::Paint {
                column: m.column,
                row: m.row,
                ch: ' ',
            },
            _ => ControlAction::Ignore,
        },
        _ => ControlAction::Ignore,
    }
}

/// What the drawing loop does after `ev`.
pub fn control_action(ev: &InputEvent) -> (a: ControlAction)
    ensures
        a == control_action_spec(*ev),
{
    match ev {
        InputEvent::Key(k) => {
            if k.code == KeyCode::Char('q') || k.code == KeyCode::Char('Q') || k.code == KeyCode::Esc {
                ControlAction::Quit
            } else {
                ControlAction::Ignore
            }
        },
        InputEvent::Mouse(m) => match m.kind {
            MouseEventKind::Down(MouseButton::Left) => ControlAction::Paint {
                column: m.column,
                row: m.row,
                ch: '#',
            },
            MouseEventKind::Down(MouseButton::Right) => ControlAction::Paint {
                column: m.column,
                row: m.row,
                ch: ' ',
            },
            MouseEventKind::Drag(MouseButton::Left) => {
                if m.modifiers == CONTROL {
                    ControlAction::Ignore
                } else {
                    ControlAction::Paint { column: m.column, row: m.row, ch: '#' }
                }
            },
            MouseEventKind::Drag(MouseButton::Right) => ControlAction::Paint {
                column: m.column,
                row: m.row,
                ch: ' ',
            },
            _ => ControlAction::Ignore,
        },
        _ => ControlAction::Ignore,
    }
}

/// Whether the echo loop stops at `ev`: at any event of the Esc key.
pub fn echo_stops(ev: &InputEvent) -> (stop: bool)
    ensures
        stop == (ev matches InputEvent::Key(k) && k.code == KeyCode::Esc),
{
    match ev {
        InputEvent::Key(k) => k.code == KeyCode::Esc,
        _ => false,
    }
}

} // verus!
