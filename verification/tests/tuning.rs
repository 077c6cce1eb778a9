use clef::tune_sys::{just_ratio, pitch_from_intervals, split_intervals};
use clef::Accidental;
use clef::NoteName;
use clef::Pitch;

#[test]
fn test_split_intervals() {
    assert_eq!(split_intervals(0), (0, 0));
    assert_eq!(split_intervals(13), (1, 1));
    assert_eq!(split_intervals(24), (2, 0));
    assert_eq!(split_intervals(-1), (-1, 11));
    assert_eq!(split_intervals(-12), (-1, 0));
    assert_eq!(split_intervals(-13), (-2, 11));
}

#[test]
fn test_pitch_from_intervals_naturals() {
    let a4 = Pitch::new(NoteName::A, 4);
    assert_eq!(pitch_from_intervals(0, false), a4);
    assert_eq!(pitch_from_intervals(0, true), a4);
    assert_eq!(pitch_from_intervals(3, false), Pitch::new(NoteName::C, 5));
    assert_eq!(pitch_from_intervals(-12, true), Pitch::new(NoteName::A, 3));
    assert_eq!(pitch_from_intervals(-69, false), Pitch::new(NoteName::C, -1));
    assert_eq!(pitch_from_intervals(62, true), Pitch::new(NoteName::B, 9));
}

#[test]
fn test_pitch_from_intervals_spelling() {
    // Eleven semitones above A4: the sharp spelling is G sharp 5, the flat
    // spelling is A flat 5.
    assert_eq!(
        pitch_from_intervals(11, false),
        Pitch::new_with_accidental(NoteName::G, Accidental::Sharp, 5)
    );
    assert_eq!(
        pitch_from_intervals(11, true),
        Pitch::new_with_accidental(NoteName::A, Accidental::Flat, 5)
    );
    assert_eq!(
        pitch_from_intervals(-3, false),
        Pitch::new_with_accidental(NoteName::F, Accidental::Sharp, 4)
    );
    assert_eq!(
        pitch_from_intervals(1, true),
        Pitch::new_with_accidental(NoteName::B, Accidental::Flat, 4)
    );
}

#[test]
fn test_just_ratio_table() {
    let expected = [
        (1, 1),
        (25, 24),
        (9, 8),
        (6, 5),
        (5, 4),
        (4, 3),
        (45, 32),
        (3, 2),
        (8, 5),
        (5, 3),
        (9, 5),
        (15, 8),
    ];
    let mut tone: i32 = 0;
    while tone < 12 {
        let r = just_ratio(tone);
        assert_eq!(r.numerator(), expected[tone as usize].0);
        assert_eq!(r.denominator(), expected[tone as usize].1);
        tone += 1;
    }
}
