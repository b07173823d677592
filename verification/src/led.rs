//! The state machine of a two-color indicator: a green line, a yellow line,
//! and a blinking mode for the yellow line driven by a background toggler.

use vstd::prelude::*;

verus! {

/// The commanded state of the indicator. `blinking` is the toggler's sole
/// cancellation signal: while it is set, a background toggler alternates
/// the yellow line; any fixed-level command clears it, and the toggler
/// stops at its next step without writing the output again.
pub struct Led {
    pub green_on: bool,
    pub yellow_on: bool,
    pub blinking: bool,
}

/// One step of the toggler: while the blink flag is set, write the current
/// phase `lit` to the yellow line and flip the phase; once the flag is
/// cleared, stop without writing.
pub open spec fn toggle_spec(blinking: bool, lit: bool) -> Option<(bool, bool)> {
    if blinking {
        Some((lit, !lit))
    } else {
        None
    }
}

/// Once a fixed-level command has cleared the blink flag, the toggler's
/// next step is to stop: it writes nothing further to the output.
pub proof fn lemma_fixed_level_stops_toggler(led: Led, lit: bool)
    requires
        !led.blinking,
    ensures
        toggle_spec(led.blinking, lit) is None,
{
}

impl Led {
    /// A fresh indicator: both lines low, not blinking.
    pub fn new() -> (led: Led)
        ensures
            !led.green_on,
            !led.yellow_on,
            !led.blinking,
    {
        Led { green_on: false, yellow_on: false, blinking: false }
    }

    /// Hold both lines low; overrides any in-flight toggler.
    pub fn set_off(&mut self)
        ensures
            !final(self).green_on,
            !final(self).yellow_on,
            !final(self).blinking,
    {
        self.blinking = false;
        self.yellow_on = false;
        self.green_on = false;
    }

    /// Hold the green line high and the yellow line low; overrides any
    /// in-flight toggler.
    pub fn set_green(&mut self)
        ensures
            final(self).green_on,
            !final(self).yellow_on,
            !final(self).blinking,
    {
        self.blinking = false;
        self.yellow_on = false;
        self.green_on = true;
    }

    /// Hold the yellow line high and the green line low; overrides any
    /// in-flight toggler.
    pub fn set_yellow(&mut self)
        ensures
            !final(self).green_on,
            final(self).yellow_on,
            !final(self).blinking,
    {
        self.green_on = false;
        self.blinking = false;
        self.yellow_on = true;
    }

    /// Start blinking the yellow line: the green line goes low and the
    /// blink flag is set for a toggler to observe. The yellow level itself
    /// is then written by the toggler, one `toggle_step` per half-period.
    pub fn set_yellow_blink(&mut self)
        ensures
            !final(self).green_on,
            final(self).blinking,
            final(self).yellow_on == old(self).yellow_on,
    {
        self.green_on = false;
        self.blinking = true;
    }

    /// The toggler's cancellation check: the current value of the blink flag.
    pub fn is_blinking(&self) -> (b: bool)
        ensures
            b == self.blinking,
    {
        self.blinking
    }

    /// One toggler step over the current blink flag: `Some((level, next))`
    /// means write `level` to the yellow line and carry `next` as the phase
    /// for the following step; `None` means stop without writing.
    pub fn toggle_step(&self, lit: bool) -> (r: Option<(bool, bool)>)
        ensures
            r == toggle_spec(self.blinking, lit),
    {
        if self.blinking {
            Some((lit, !lit))
        } else {
            None
        }
    }
}

} // verus!
