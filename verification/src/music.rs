//! Musical value types: note names, accidentals, pitches, durations, and the
//! integer parts of tuning-system calculations.

pub mod duration;
pub mod pitch;
pub mod tune_sys;

use vstd::prelude::*;

verus! {

/// One of the seven letter names of the diatonic scale.
#[derive(Clone, Copy, Debug, PartialEq, Eq, Structural)]
pub enum NoteName {
    C,
    D,
    E,
    F,
    G,
    A,
    B,
}

impl NoteName {
    /// The chromatic offset of the natural note within its octave.
    pub open spec fn semitone_spec(self) -> int {
        match self {
            NoteName::C => 0,
            NoteName::D => 2,
            NoteName::E => 4,
            NoteName::F => 5,
            NoteName::G => 7,
            NoteName::A => 9,
            NoteName::B => 11,
        }
    }

    /// The chromatic offset of the natural note within its octave.
    pub fn semitone(self) -> (r: i32)
        ensures
            r as int == self.semitone_spec(),
    {
        match self {
            NoteName::C => 0,
            NoteName::D => 2,
            NoteName::E => 4,
            NoteName::F => 5,
            NoteName::G => 7,
            NoteName::A => 9,
            NoteName::B => 11,
        }
    }
}

/// A chromatic alteration of a note name.
#[derive(Clone, Copy, Debug, PartialEq, Eq, Structural)]
pub enum Accidental {
    Flat,
    Natural,
    Sharp,
}

impl Accidental {
    /// The semitone shift the accidental applies.
    pub open spec fn offset_spec(self) -> int {
        match self {
            Accidental::Flat => -1,
            Accidental::Natural => 0,
            Accidental::Sharp => 1,
        }
    }

    /// The semitone shift the accidental applies.
    pub fn offset(self) -> (r: i32)
        ensures
            r as int == self.offset_spec(),
    {
        match self {
            Accidental::Flat => -1,
            Accidental::Natural => 0,
            Accidental::Sharp => 1,
        }
    }
}

/// A chord anchored at a root pitch.
#[derive(Clone, Copy, Debug, PartialEq, Eq, Structural)]
pub struct Chord {
    root: pitch::Pitch,
}

} // verus!
