//! The integer half of tuning-system calculations: splitting a semitone
//! count into octave and scale degree, spelling a chromatic position as a
//! pitch with the sharp-or-flat tie rule, and the just-intonation ratio
//! table as exact fractions. The floating-point half (powers of the twelfth
//! root of two, logarithms) lives with the caller; everything that decides
//! which pitch comes out is here.

use crate::math::fraction::Fraction;
use crate::music::pitch::Pitch;
use crate::music::Accidental;
use crate::music::NoteName;
use vstd::arithmetic::div_mod::{
    lemma_fundamental_div_mod_converse_div, lemma_fundamental_div_mod_converse_mod,
};
use vstd::prelude::*;

verus! {

/// The seven degrees within an octave that are spelled as naturals.
pub open spec fn natural_degree(t: int) -> bool {
    t == 0 || t == 2 || t == 4 || t == 5 || t == 7 || t == 9 || t == 11
}

/// Split a semitone count into whole octaves and a scale degree in
/// `[0, 12)`, carrying into the octave when the degree would be negative.
pub fn split_intervals(intervals: i32) -> (r: (i32, i32))
    ensures
        12 * (r.0 as int) + (r.1 as int) == intervals as int,
        0 <= r.1 < 12,
        r.0 == intervals as int / 12,
        r.1 == intervals as int % 12,
{
    let neg = intervals < 0;
    let mag: u32 = (if neg {
        -(intervals as i64)
    } else {
        intervals as i64
    }) as u32;
    let q: u32 = mag / 12;
    let m: u32 = mag % 12;
    let (octave, tone): (i32, i32) = if !neg {
        ((q as i32), (m as i32))
    } else if m == 0 {
        (-(q as i32), 0)
    } else {
        (-(q as i32) - 1, 12 - (m as i32))
    };
    proof {
        let iv = intervals as int;
        if !neg {
        } else if m == 0 {
            assert(iv == 12 * (octave as int) + (tone as int)) by (nonlinear_arith)
                requires
                    mag == 12 * q + m,
                    m == 0,
                    iv == -(mag as int),
                    octave as int == -(q as int),
                    tone as int == 0,
            ;
        } else {
            assert(iv == 12 * (octave as int) + (tone as int)) by (nonlinear_arith)
                requires
                    mag == 12 * q + m,
                    0 < m < 12,
                    iv == -(mag as int),
                    octave as int == -(q as int) - 1,
                    tone as int == 12 - (m as int),
            ;
        }
        lemma_fundamental_div_mod_converse_div(iv, 12, octave as int, tone as int);
        lemma_fundamental_div_mod_converse_mod(iv, 12, octave as int, tone as int);
        assert(iv == (octave as int) * 12 + (tone as int)) by (nonlinear_arith)
            requires
                iv == 12 * (octave as int) + (tone as int),
        ;
    }
    (octave, tone)
}

/// Spell the pitch `intervals` semitones away from A4. The chromatic
/// position of the result is exactly `57 + intervals`; the seven natural
/// degrees get no accidental, and the five others take the flat spelling
/// of the upper letter or the sharp spelling of the lower one, as asked.
/// The range keeps the octave inside `[-1, 9]`.
pub fn pitch_from_intervals(intervals: i32, prefer_flat: bool) -> (r: Pitch)
    requires
        -69 <= intervals <= 62,
    ensures
        r.wf(),
        r.chromatic() == 57 + intervals as int,
        natural_degree((57 + intervals as int) % 12) ==> r.accidental_spec()
            == Accidental::Natural,
        !natural_degree((57 + intervals as int) % 12) ==> r.accidental_spec() == (if prefer_flat {
            Accidental::Flat
        } else {
            Accidental::Sharp
        }),
{
    let chrom: i32 = 57 + intervals;
    let (octave, tone) = split_intervals(chrom);
    proof {
        assert(-1 <= octave <= 9 && 0 <= tone < 12);
    }
    match tone {
        0 => Pitch::new(NoteName::C, octave),
        1 => if prefer_flat {
            Pitch::new_with_accidental(NoteName::D, Accidental::Flat, octave)
        } else {
            Pitch::new_with_accidental(NoteName::C, Accidental::Sharp, octave)
        },
        2 => Pitch::new(NoteName::D, octave),
        3 => if prefer_flat {
            Pitch::new_with_accidental(NoteName::E, Accidental::Flat, octave)
        } else {
            Pitch::new_with_accidental(NoteName::D, Accidental::Sharp, octave)
        },
        4 => Pitch::new(NoteName::E, octave),
        5 => Pitch::new(NoteName::F, octave),
        6 => if prefer_flat {
            Pitch::new_with_accidental(NoteName::G, Accidental::Flat, octave)
        } else {
            Pitch::new_with_accidental(NoteName::F, Accidental::Sharp, octave)
        },
        7 => Pitch::new(NoteName::G, octave),
        8 => if prefer_flat {
            Pitch::new_with_accidental(NoteName::A, Accidental::Flat, octave)
        } else {
            Pitch::new_with_accidental(NoteName::G, Accidental::Sharp, octave)
        },
        9 => Pitch::new(NoteName::A, octave),
        10 => if prefer_flat {
            Pitch::new_with_accidental(NoteName::B, Accidental::Flat, octave)
        } else {
            Pitch::new_with_accidental(NoteName::A, Accidental::Sharp, octave)
        },
        _ => Pitch::new(NoteName::B, octave),
    }
}

/// The numerator of the just-intonation ratio for a scale degree.
pub open spec fn just_ratio_num(t: int) -> int {
    if t == 0 {
        1
    } else if t == 1 {
        25
    } else if t == 2 {
        9
    } else if t == 3 {
        6
    } else if t == 4 {
        5
    } else if t == 5 {
        4
    } else if t == 6 {
        45
    } else if t == 7 {
        3
    } else if t == 8 {
        8
    } else if t == 9 {
        5
    } else if t == 10 {
        9
    } else {
        15
    }
}

/// The denominator of the just-intonation ratio for a scale degree.
pub open spec fn just_ratio_den(t: int) -> int {
    if t == 0 {
        1
    } else if t == 1 {
        24
    } else if t == 2 {
        8
    } else if t == 3 {
        5
    } else if t == 4 {
        4
    } else if t == 5 {
        3
    } else if t == 6 {
        32
    } else if t == 7 {
        2
    } else if t == 8 {
        5
    } else if t == 9 {
        3
    } else if t == 10 {
        5
    } else {
        8
    }
}

/// The standard just-intonation ratio for a scale degree within one
/// octave, as an exact fraction: unison `1/1`, minor second `25/24`, major
/// second `9/8`, up to the major seventh `15/8`.
pub fn just_ratio(tone: i32) -> (r: Fraction)
    requires
        0 <= tone < 12,
    ensures
        r.wf(),
        r.num() == just_ratio_num(tone as int),
        r.den() == just_ratio_den(tone as int),
        r.num() >= 1,
        r.den() >= 1,
{
    match tone {
        0 => Fraction::new(1, 1),
        1 => Fraction::new(25, 24),
        2 => Fraction::new(9, 8),
        3 => Fraction::new(6, 5),
        4 => Fraction::new(5, 4),
        5 => Fraction::new(4, 3),
        6 => Fraction::new(45, 32),
        7 => Fraction::new(3, 2),
        8 => Fraction::new(8, 5),
        9 => Fraction::new(5, 3),
        10 => Fraction::new(9, 5),
        _ => Fraction::new(15, 8),
    }
}

} // verus!
