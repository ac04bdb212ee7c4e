//! Which keys are held down.

use vstd::prelude::*;

verus! {

/// Number of character keys whose state is kept: the characters below this
/// code point.
pub const CHAR_KEYS: u32 = 256;

/// A key of the keyboard.
#[derive(Clone, Copy, Debug)]
pub enum Key {
    Char(char),
    Escape,
    LShift,
    RShift,
    LCtrl,
    RCtrl,
    LAlt,
    RAlt,
    Left,
    Right,
    Up,
    Down,
}

impl Key {
    /// Whether the state of the key is kept: every key but a character
    /// at or beyond `CHAR_KEYS`.
    pub open spec fn known(self) -> bool {
        match self {
            Key::Char(c) => (c as u32) < CHAR_KEYS,
            _ => true,
        }
    }

    /// Whether the state of the key is kept.
    pub fn is_known(self) -> (r: bool)
        ensures
            r == self.known(),
    {
        match self {
            Key::Char(c) => (c as u32) < CHAR_KEYS,
            _ => true,
        }
    }
}

/// The state of every known key: held down or not.
pub struct KeyState {
    states: [bool; 256],
    shift_lr: (bool, bool),
    ctrl_lr: (bool, bool),
    alt_lr: (bool, bool),
    up: bool,
    left: bool,
    right: bool,
    down: bool,
    escape: bool,
}

impl KeyState {
    /// Whether `key` is held down.
    pub closed spec fn held(&self, key: Key) -> bool {
        match key {
            Key::Char(c) => self.states@[c as u32 as int],
            Key::Escape => self.escape,
            Key::LShift => self.shift_lr.0,
            Key::RShift => self.shift_lr.1,
            Key::LCtrl => self.ctrl_lr.0,
            Key::RCtrl => self.ctrl_lr.1,
            Key::LAlt => self.alt_lr.0,
            Key::RAlt => self.alt_lr.1,
            Key::Left => self.left,
            Key::Right => self.right,
            Key::Up => self.up,
            Key::Down => self.down,
        }
    }

    /// The state in which no key is held down.
    pub fn new() -> (s: Self)
        ensures
            forall|key: Key| key.known() ==> !s.held(key),
    {
        KeyState {
            states: [false;256],
            shift_lr: (false, false),
            ctrl_lr: (false, false),
            alt_lr: (false, false),
            up: false,
            left: false,
            right: false,
            down: false,
            escape: false,
        }
    }

    /// Records whether `key` is held down.
    fn set(&mut self, key: Key, value: bool)
        requires
            key.known(),
        ensures
            forall|other: Key|
                other.known() ==> final(self).held(other) == if other == key {
                    value
                } else {
                    old(self).held(other)
                },
    {
        match key {
            Key::Char(c) => {
                self.states[c as u32 as usize] = value;
            },
            Key::Escape => {
                self.escape = value;
            },
            Key::LShift => {
                self.shift_lr.0 = value;
            },
            Key::RShift => {
                self.shift_lr.1 = value;
            },
            Key::LCtrl => {
                self.ctrl_lr.0 = value;
            },
            Key::RCtrl => {
                self.ctrl_lr.1 = value;
            },
            Key::LAlt => {
                self.alt_lr.0 = value;
            },
            Key::RAlt => {
                self.alt_lr.1 = value;
            },
            Key::Left => {
                self.left = value;
            },
            Key::Right => {
                self.right = value;
            },
            Key::Up => {
                self.up = value;
            },
            Key::Down => {
                self.down = value;
            },
        }
    }

    /// Records that `key` went down.
    pub fn set_down(&mut self, key: Key)
        requires
            key.known(),
        ensures
            forall|other: Key|
                other.known() ==> final(self).held(other) == (other == key || old(self).held(other)),
    {
        self.set(key, true);
    }

    /// Records that `key` went up.
    pub fn set_up(&mut self, key: Key)
        requires
            key.known(),
        ensures
            forall|other: Key|
                other.known() ==> final(self).held(other) == (other != key && old(self).held(other)),
    {
        self.set(key, false);
    }

    /// Whether `key` is held down.
    pub fn is_down(&self, key: Key) -> (r: bool)
        requires
            key.known(),
        ensures
            r == self.held(key),
    {
        match key {
            Key::Char(c) => self.states[c as u32 as usize],
            Key::Escape => self.escape,
            Key::LShift => self.shift_lr.0,
            Key::RShift => self.shift_lr.1,
            Key::LCtrl => self.ctrl_lr.0,
            Key::RCtrl => self.ctrl_lr.1,
            Key::LAlt => self.alt_lr.0,
            Key::RAlt => self.alt_lr.1,
            Key::Left => self.left,
            Key::Right => self.right,
            Key::Up => self.up,
            Key::Down => self.down,
        }
    }
}

} // verus!
