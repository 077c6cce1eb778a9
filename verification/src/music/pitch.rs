//! Absolute pitches: a note name, an accidental and an octave in `[-1, 9]`,
//! with the semitone-distance operation that tuning systems consume.

use crate::music::Accidental;
use crate::music::NoteName;
use vstd::prelude::*;

verus! {

/// An absolute pitch. The octave always lies in `[-1, 9]`.
#[derive(Clone, Copy, Debug, PartialEq, Eq, Structural)]
pub struct Pitch {
    name: NoteName,
    octave: i32,
    accidental: Accidental,
}

impl Pitch {
    /// The letter name of the pitch.
    pub closed spec fn name_spec(self) -> NoteName {
        self.name
    }

    /// The octave of the pitch.
    pub closed spec fn octave_spec(self) -> int {
        self.octave as int
    }

    /// The accidental of the pitch.
    pub closed spec fn accidental_spec(self) -> Accidental {
        self.accidental
    }

    /// The octave range every pitch must lie in.
    pub open spec fn wf(self) -> bool {
        -1 <= self.octave_spec() <= 9
    }

    /// The absolute chromatic position:
    /// `name.semitone + octave * 12 + accidental.offset`.
    pub open spec fn chromatic(self) -> int {
        self.name_spec().semitone_spec() + self.octave_spec() * 12
            + self.accidental_spec().offset_spec()
    }

    /// A natural pitch; the octave must lie in `[-1, 9]`.
    pub fn new(name: NoteName, octave: i32) -> (r: Pitch)
        requires
            -1 <= octave <= 9,
        ensures
            r.name_spec() == name,
            r.octave_spec() == octave as int,
            r.accidental_spec() == Accidental::Natural,
            r.wf(),
    {
        Pitch { name, octave, accidental: Accidental::Natural }
    }

    /// A pitch with an explicit accidental; the octave must lie in `[-1, 9]`.
    pub fn new_with_accidental(name: NoteName, accidental: Accidental, octave: i32) -> (r: Pitch)
        requires
            -1 <= octave <= 9,
        ensures
            r.name_spec() == name,
            r.octave_spec() == octave as int,
            r.accidental_spec() == accidental,
            r.wf(),
    {
        Pitch { name, octave, accidental }
    }

    /// The letter name of the pitch.
    pub fn name(&self) -> (r: NoteName)
        ensures
            r == self.name_spec(),
    {
        self.name
    }

    /// The octave of the pitch.
    pub fn octave(&self) -> (r: i32)
        ensures
            r as int == self.octave_spec(),
    {
        self.octave
    }

    /// The accidental of the pitch.
    pub fn accidental(&self) -> (r: Accidental)
        ensures
            r == self.accidental_spec(),
    {
        self.accidental
    }

    /// The signed semitone distance from `other` up to `self`.
    pub fn sub(self, other: Pitch) -> (r: i32)
        requires
            self.wf(),
            other.wf(),
        ensures
            r as int == self.chromatic() - other.chromatic(),
    {
        let from: i32 = self.name.semitone() + self.octave * 12 + self.accidental.offset();
        let to: i32 = other.name.semitone() + other.octave * 12 + other.accidental.offset();
        from - to
    }
}

} // verus!
