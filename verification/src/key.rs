//! Pitch classes and pitch numbers.
//!
//! A `Key` is a pitch class: an integer in `[0, 12)` under modular-12
//! addition. A pitch number is a plain `u8` in MIDI convention, where a
//! pitch factors as `octave * 12 + class` and C4 is number 60.

use vstd::prelude::*;

verus! {

/// A pitch class. A well-formed `Key` holds a value below [`OCTAVE_STEPS`].
#[derive(Clone, Copy, Debug, PartialEq, Eq, Structural)]
pub struct Key(pub u8);

/// Number of semitone steps in an octave.
pub const OCTAVE_STEPS: u8 = 12;

impl Key {
    /// A pitch class is one of the twelve semitones of the octave.
    pub open spec fn wf(self) -> bool {
        self.0 < OCTAVE_STEPS
    }

    /// Modular-12 addition of pitch classes.
    pub open spec fn add_spec(self, other: Key) -> Key {
        Key(((self.0 + other.0) % (OCTAVE_STEPS as int)) as u8)
    }

    /// Modular-12 addition of pitch classes.
    pub fn add(self, other: Key) -> (r: Key)
        requires
            self.0 + other.0 <= u8::MAX,
        ensures
            r == self.add_spec(other),
            r.wf(),
    {
        Key((self.0 + other.0) % OCTAVE_STEPS)
    }
}

pub const NOTE_C: u8 = 0;

pub const NOTE_CSHARP: u8 = 1;

pub const NOTE_DFLAT: u8 = 1;

pub const NOTE_D: u8 = 2;

pub const NOTE_DSHARP: u8 = 3;

pub const NOTE_EFLAT: u8 = 3;

pub const NOTE_E: u8 = 4;

pub const NOTE_F: u8 = 5;

pub const NOTE_FSHARP: u8 = 6;

pub const NOTE_GFLAT: u8 = 6;

pub const NOTE_G: u8 = 7;

pub const NOTE_GSHARP: u8 = 8;

pub const NOTE_AFLAT: u8 = 8;

pub const NOTE_A: u8 = 9;

pub const NOTE_ASHARP: u8 = 10;

pub const NOTE_BFLAT: u8 = 10;

pub const NOTE_B: u8 = 11;

pub const NOTE_C0: u8 = 12;

pub const NOTE_C1: u8 = 24;

pub const NOTE_C2: u8 = 36;

pub const NOTE_C3: u8 = 48;

pub const NOTE_CSHARP3: u8 = 49;

pub const NOTE_DFLAT3: u8 = 49;

pub const NOTE_D3: u8 = 50;

pub const NOTE_DSHARP3: u8 = 51;

pub const NOTE_EFLAT3: u8 = 51;

pub const NOTE_E3: u8 = 52;

pub const NOTE_F3: u8 = 53;

pub const NOTE_FSHARP3: u8 = 54;

pub const NOTE_GFLAT3: u8 = 54;

pub const NOTE_G3: u8 = 55;

pub const NOTE_GSHARP3: u8 = 56;

pub const NOTE_AFLAT3: u8 = 56;

pub const NOTE_A3: u8 = 57;

pub const NOTE_ASHARP3: u8 = 58;

pub const NOTE_BFLAT3: u8 = 58;

pub const NOTE_B3: u8 = 59;

pub const NOTE_C4: u8 = 60;

pub const NOTE_CSHARP4: u8 = 61;

pub const NOTE_DFLAT4: u8 = 61;

pub const NOTE_D4: u8 = 62;

pub const NOTE_DSHARP4: u8 = 63;

pub const NOTE_EFLAT4: u8 = 63;

pub const NOTE_E4: u8 = 64;

pub const NOTE_F4: u8 = 65;

pub const NOTE_FSHARP4: u8 = 66;

pub const NOTE_GFLAT4: u8 = 66;

pub const NOTE_G4: u8 = 67;

pub const NOTE_GSHARP4: u8 = 68;

pub const NOTE_AFLAT4: u8 = 68;

pub const NOTE_A4: u8 = 69;

pub const NOTE_ASHARP4: u8 = 70;

pub const NOTE_BFLAT4: u8 = 70;

pub const NOTE_B4: u8 = 71;

pub const NOTE_C5: u8 = 72;

pub const NOTE_D5: u8 = 74;

pub const NOTE_E5: u8 = 76;

pub const NOTE_F5: u8 = 77;

pub const NOTE_G5: u8 = 79;

pub const NOTE_A5: u8 = 81;

pub const NOTE_B5: u8 = 83;

pub const NOTE_C6: u8 = 84;

pub const NOTE_C7: u8 = 96;

} // verus!
