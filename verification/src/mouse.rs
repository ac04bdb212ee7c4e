//! Which mouse buttons have been pressed.

use vstd::prelude::*;

verus! {

/// A button of the mouse.
#[derive(Clone, Copy, Debug, PartialEq, Eq, Structural)]
pub enum MouseButton {
    Left,
    Right,
    Middle,
    Back,
    Forward,
    Other(u16),
}

/// The buttons that have been pressed so far.
pub struct Mouse {
    left: bool,
    right: bool,
    middle: bool,
}

impl Mouse {
    /// Whether the left button has been pressed.
    pub closed spec fn spec_left(&self) -> bool {
        self.left
    }

    /// Whether the right button has been pressed.
    pub closed spec fn spec_right(&self) -> bool {
        self.right
    }

    /// Whether the middle button has been pressed.
    pub closed spec fn spec_middle(&self) -> bool {
        self.middle
    }

    /// A mouse of which no button has been pressed.
    pub fn new() -> (m: Self)
        ensures
            !m.spec_left() && !m.spec_right() && !m.spec_middle(),
    {
        Mouse { left: false, right: false, middle: false }
    }

    /// Records that `button` was pressed. Only the left, the right and the
    /// middle button are kept.
    pub fn update(&mut self, button: MouseButton)
        ensures
            final(self).spec_left() == (old(self).spec_left() || button == MouseButton::Left),
            final(self).spec_right() == (old(self).spec_right() || button == MouseButton::Right),
            final(self).spec_middle() == (old(self).spec_middle() || button
                == MouseButton::Middle),
    {
        match button {
            MouseButton::Left => {
                self.left = true;
            },
            MouseButton::Right => {
                self.right = true;
            },
            MouseButton::Middle => {
                self.middle = true;
            },
            MouseButton::Back => {},
            MouseButton::Forward => {},
            MouseButton::Other(_) => {},
        }
    }

    /// Whether the left button has been pressed.
    pub fn left(&self) -> (r: bool)
        ensures
            r == self.spec_left(),
    {
        self.left
    }

    /// Whether the right button has been pressed.
    pub fn right(&self) -> (r: bool)
        ensures
            r == self.spec_right(),
    {
        self.right
    }

    /// Whether the middle button has been pressed.
    pub fn middle(&self) -> (r: bool)
        ensures
            r == self.spec_middle(),
    {
        self.middle
    }
}

} // verus!
