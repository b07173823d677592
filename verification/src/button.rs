//! A handle for one push-button input line.

use vstd::prelude::*;

verus! {

/// Identifies a button's input line and remembers the level sampled once
/// at creation time (active is low, the line being pulled up).
pub struct Button {
    pub pin: u8,
    pub initial_state: bool,
}

impl Button {
    /// A handle for the line `pin` whose level read at creation was
    /// `initial_state`.
    pub fn new(pin: u8, initial_state: bool) -> (b: Button)
        ensures
            b.pin == pin,
            b.initial_state == initial_state,
    {
        Button { pin, initial_state }
    }

    /// The input line this button listens on.
    pub fn pin(&self) -> (p: u8)
        ensures
            p == self.pin,
    {
        self.pin
    }

    /// The level sampled when the button was created; never updated.
    pub fn initial_state(&self) -> (s: bool)
        ensures
            s == self.initial_state,
    {
        self.initial_state
    }
}

} // verus!
