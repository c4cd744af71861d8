//! Key presses, as the interaction state machine reads them.
use vstd::prelude::*;

verus! {

/// Which key was pressed.
#[derive(Clone, Copy, Debug, PartialEq, Eq, Structural)]
pub enum Key {
    Char(char),
    Backspace,
    Enter,
    Esc,
    Left,
    Right,
    Up,
    Down,
    Home,
    End,
    Other,
}

/// A key press, with whether the control modifier was held.
#[derive(Clone, Copy, Debug, PartialEq, Eq, Structural)]
pub struct KeyPress {
    pub code: Key,
    pub ctrl: bool,
}

impl KeyPress {
    pub fn plain(code: Key) -> (r: Self)
        ensures
            r == (KeyPress { code, ctrl: false }),
    {
        KeyPress { code, ctrl: false }
    }

    pub fn with_ctrl(code: Key) -> (r: Self)
        ensures
            r == (KeyPress { code, ctrl: true }),
    {
        KeyPress { code, ctrl: true }
    }
}

} // verus!
