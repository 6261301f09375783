//! The states of the LEDs of which a blink pattern is made.

use std::time::Duration;
use vstd::prelude::*;

verus! {

/// One step of a blink pattern.
#[derive(Debug, Copy, Clone, Eq, PartialEq)]
pub enum LedState {
    /// All LEDs on, for the specified duration.
    On(Duration),
    /// All LEDs off, for the specified duration.
    Off(Duration),
    /// A custom combination of FP LED and swport LEDs, for the specified
    /// duration.
    Custom(Duration, bool, [bool; 4]),
}

impl LedState {
    /// How long the step lasts.
    pub open spec fn duration_spec(self) -> Duration {
        match self {
            LedState::On(x) => x,
            LedState::Off(x) => x,
            LedState::Custom(x, _, _) => x,
        }
    }

    /// Whether the front panel LED is lit, and which of the four port LEDs.
    pub open spec fn leds_spec(self) -> (bool, Seq<bool>) {
        match self {
            LedState::On(_) => (true, seq![true, true, true, true]),
            LedState::Off(_) => (false, seq![false, false, false, false]),
            LedState::Custom(_, x, y) => (x, y@),
        }
    }

    pub fn get_duration(self) -> (r: Duration)
        ensures
            r == self.duration_spec(),
    {
        match self {
            LedState::On(x) => x,
            LedState::Off(x) => x,
            LedState::Custom(x, _, _) => x,
        }
    }

    pub fn get_leds(self) -> (r: (bool, [bool; 4]))
        ensures
            r.0 == self.leds_spec().0,
            r.1@ == self.leds_spec().1,
    {
        match self {
            LedState::On(_) => {
                let all: [bool; 4] = [true, true, true, true];
                assert(all@ =~= seq![true, true, true, true]);
                (true, all)
            },
            LedState::Off(_) => {
                let none: [bool; 4] = [false, false, false, false];
                assert(none@ =~= seq![false, false, false, false]);
                (false, none)
            },
            LedState::Custom(_, x, y) => (x, y),
        }
    }
}

} // verus!
