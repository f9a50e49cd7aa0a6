//! The live instrument interface and its note events.

use vstd::prelude::*;

verus! {

/// A minimal note event. Control changes are carried but ignored by the
/// instruments of this crate.
#[derive(Debug, Clone, Copy, PartialEq, Eq, Structural)]
pub enum NoteEvent {
    NoteOn { key: u8, vel: u8 },
    NoteOff { key: u8, vel: u8 },
    ControlChange { controller: u8, value: u8 },
}

/// A stateful sample generator driven by note events: the live instrument.
/// One sample is produced per pull, always within the nominal range.
pub trait Generator: Send {
    fn next(&mut self) -> (r: i32)
        ensures
            -1_000_000 <= r <= 1_000_000,
    ;

    fn handle(&mut self, msg: NoteEvent);
}

} // verus!
