use clef::Duration;
use clef::DurationError;
use clef::Fraction;

#[test]
fn it_works() {
    let _half = clef::Duration::new(2);
}

#[test]
fn test_try_new_rejects() {
    assert!(Duration::try_new(3).is_none());
    assert!(Duration::try_new(0).is_none());
    assert!(Duration::try_new_with_dots(4, 5).is_none());
    assert!(Duration::try_new_with_dots(6, 1).is_none());
    let d = Duration::try_new_with_dots(4, 2).unwrap();
    assert_eq!(d.denominator(), 4);
    assert_eq!(d.dots(), 2);
}

#[test]
fn test_to_fraction() {
    assert_eq!(Fraction::new(1, 1), Duration::new(1).to_fraction());
    assert_eq!(Fraction::new(1, 4), Duration::new(4).to_fraction());
    assert_eq!(
        Fraction::new(1, 8),
        Duration::new_with_dots(8, 0).to_fraction()
    );
    assert_eq!(
        Fraction::new(7, 16),
        Duration::new_with_dots(4, 2).to_fraction()
    );
}

#[test]
fn test_from_fraction() {
    assert_eq!(
        Duration::new(4),
        Duration::try_from(Fraction::new(1, 4)).unwrap()
    );
    assert_eq!(
        Duration::new_with_dots(4, 2),
        Duration::try_from(Fraction::new(7, 16)).unwrap()
    );
}

#[test]
fn test_from_illegal_fraction() {
    assert!(Duration::try_from(Fraction::new(9, 16)).is_err());
    assert!(Duration::try_from(Fraction::new(1, 256)).is_err());
}

#[test]
fn test_from_fraction_error_kinds() {
    assert_eq!(
        Duration::try_from(Fraction::new(9, 16)),
        Err(DurationError::NotDurational)
    );
    assert_eq!(
        Duration::try_from(Fraction::new(1, 256)),
        Err(DurationError::DenominatorTooLarge)
    );
    assert_eq!(
        Duration::try_from(Fraction::new(0, 4)),
        Err(DurationError::NotPositive)
    );
    assert_eq!(
        Duration::try_from(Fraction::new(-1, 4)),
        Err(DurationError::NotPositive)
    );
    assert_eq!(
        Duration::try_from(Fraction::new(1, -4)),
        Err(DurationError::NotPositive)
    );
}

#[test]
fn test_round_trip() {
    let mut den: u16 = 1;
    while den <= 128 {
        let mut dots: u8 = 0;
        while dots <= 4 {
            let d = Duration::new_with_dots(den, dots);
            assert_eq!(Duration::try_from(d.to_fraction()), Ok(d));
            dots += 1;
        }
        den *= 2;
    }
}

#[test]
fn test_from_unreduced_fraction() {
    // try_from compares rational values, so 4/16 is a quarter note.
    assert_eq!(
        Duration::new(4),
        Duration::try_from(Fraction::new(4, 16)).unwrap()
    );
    assert_eq!(
        Duration::new_with_dots(2, 1),
        Duration::try_from(Fraction::new(-3, -4)).unwrap()
    );
}
