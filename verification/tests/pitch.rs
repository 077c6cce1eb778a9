use clef::Accidental;
use clef::NoteName;
use clef::Pitch;

#[test]
fn pitch_test_op_sub() {
    let c4 = Pitch::new(NoteName::C, 4);
    let c5 = Pitch::new(NoteName::C, 5);
    assert_eq!(0, c4.sub(c4));
    assert_eq!(-12, c4.sub(c5));
}

#[test]
fn test_pitch_accessors() {
    let gs5 = Pitch::new_with_accidental(NoteName::G, Accidental::Sharp, 5);
    assert_eq!(gs5.name(), NoteName::G);
    assert_eq!(gs5.octave(), 5);
    assert_eq!(gs5.accidental(), Accidental::Sharp);
    let a4 = Pitch::new(NoteName::A, 4);
    assert_eq!(a4.accidental(), Accidental::Natural);
}

#[test]
fn test_semitone_distance_with_accidentals() {
    let a4 = Pitch::new(NoteName::A, 4);
    let gs5 = Pitch::new_with_accidental(NoteName::G, Accidental::Sharp, 5);
    let ab5 = Pitch::new_with_accidental(NoteName::A, Accidental::Flat, 5);
    let bb3 = Pitch::new_with_accidental(NoteName::B, Accidental::Flat, 3);
    assert_eq!(11, gs5.sub(a4));
    assert_eq!(11, ab5.sub(a4));
    assert_eq!(-11, bb3.sub(a4));
}
