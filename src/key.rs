use vstd::prelude::*;

verus! {

/// Modifier keys held while a key was pressed.
#[derive(Clone, Copy, Debug, PartialEq, Eq, Structural)]
pub struct Modifiers {
    pub ctrl: bool,
    pub alt: bool,
    pub shift: bool,
}

impl Modifiers {
    /// No modifier held.
    pub fn none() -> (r: Modifiers)
        ensures
            !r.ctrl && !r.alt && !r.shift,
    {
        Modifiers { ctrl: false, alt: false, shift: false }
    }
}

/// One logical keystroke: a character or a named special key, each with its
/// modifiers. Two keys are equal exactly when all their parts are equal.
#[derive(Clone, Copy, Debug, PartialEq, Eq, Structural)]
pub enum Key {
    Char(char, Modifiers),
    Named(u32, Modifiers),
}

impl Key {
    /// The key for a plain character typed without modifiers.
    pub fn from_raw(c: char) -> (r: Key)
        ensures
            r == Key::Char(c, Modifiers { ctrl: false, alt: false, shift: false }),
    {
        Key::Char(c, Modifiers::none())
    }

    /// The key that a single undecoded input byte stands for when read as a
    /// literal character.
    pub fn from_byte(b: u8) -> (r: Key)
        ensures
            r == literal_key(b),
    {
        Key::Char(b as char, Modifiers::none())
    }
}

/// The literal-character key for an input byte.
pub open spec fn literal_key(b: u8) -> Key {
    Key::Char(b as char, Modifiers { ctrl: false, alt: false, shift: false })
}

} // verus!
