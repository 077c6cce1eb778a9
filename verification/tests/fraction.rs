use clef::Fraction;

#[test]
fn test_zero_one_half() {
    assert_eq!(Fraction::zero().numerator(), 0);
    assert_eq!(Fraction::zero().denominator(), 1);
    assert_eq!(Fraction::one().numerator(), 1);
    assert_eq!(Fraction::one().denominator(), 1);
    assert_eq!(Fraction::half().numerator(), 1);
    assert_eq!(Fraction::half().denominator(), 2);
}

#[test]
fn test_try_new_rejects_zero_denominator() {
    assert!(Fraction::try_new(1, 0).is_none());
    assert!(Fraction::try_new(0, 0).is_none());
    let f = Fraction::try_new(3, 4).unwrap();
    assert_eq!(f.numerator(), 3);
    assert_eq!(f.denominator(), 4);
}

#[test]
fn test_signum() {
    assert_eq!(Fraction::new(1, 2).signum(), 1);
    assert_eq!(Fraction::new(-1, 2).signum(), -1);
    assert_eq!(Fraction::new(1, -2).signum(), -1);
    assert_eq!(Fraction::new(-1, -2).signum(), 1);
    assert_eq!(Fraction::new(0, 2).signum(), 0);
}

#[test]
fn test_to_irreducible() {
    assert_eq!(Fraction::new(3, 9).to_irreducible(), Fraction::new(1, 3));
    assert_eq!(Fraction::new(27, 9).to_irreducible(), Fraction::new(3, 1));
    assert_eq!(
        Fraction::new(11, 13).to_irreducible(),
        Fraction::new(11, 13)
    );
    assert_eq!(Fraction::new(-3, 9).to_irreducible(), Fraction::new(-1, 3));
    assert_eq!(Fraction::new(3, -9).to_irreducible(), Fraction::new(-1, 3));
    assert_eq!(Fraction::new(-3, -9).to_irreducible(), Fraction::new(1, 3));
}

#[test]
fn test_to_irreducible_idempotent() {
    for (n, d) in [(5, 10), (-6, 8), (7, -21), (-9, -12), (0, 5), (13, 13)] {
        let once = Fraction::new(n, d).to_irreducible();
        let twice = once.to_irreducible();
        assert_eq!(once.numerator(), twice.numerator());
        assert_eq!(once.denominator(), twice.denominator());
        assert!(once.denominator() > 0);
    }
}

#[test]
fn test_op_eq() {
    assert!(Fraction::new(5, -10) == Fraction::new(-1, 2));
    assert!(Fraction::new(5, 10) != Fraction::new(1, 3));
}

#[test]
fn test_eq_scaled() {
    for k in [1, 2, 3, -1, -7] {
        assert!(Fraction::new(3, 5) == Fraction::new(3 * k, 5 * k));
        assert!(Fraction::new(-2, 7) == Fraction::new(-2 * k, 7 * k));
    }
}

#[test]
fn test_op_ord() {
    assert!(Fraction::new(3, 5) < Fraction::new(4, 5));
    assert!(Fraction::new(3, 5) <= Fraction::new(15, 25));
}

#[test]
fn test_op_add() {
    assert_eq!(
        Fraction::new(5, 10).add(Fraction::new(5, 20)),
        Fraction::new(3, 4)
    );
    assert_eq!(
        Fraction::new(-5, 10).add(Fraction::new(5, 20)),
        Fraction::new(-1, 4)
    );
    assert_eq!(
        Fraction::new(5, -10).add(Fraction::new(5, 20)),
        Fraction::new(-1, 4)
    );
    assert_eq!(
        Fraction::new(5, 10).add(Fraction::new(0, 20)),
        Fraction::new(1, 2)
    );

    assert_eq!(
        Fraction::zero().add(Fraction::new(3, 4)),
        Fraction::new(3, 4)
    );

    assert_eq!(
        Fraction::new(3, 4).add(Fraction::zero()),
        Fraction::new(3, 4)
    );

    let mut a = Fraction::new(5, 10);
    let b = Fraction::new(5, 20);
    a = a.add(b);
    assert_eq!(a, Fraction::new(3, 4));
}

#[test]
fn fraction_test_op_sub() {
    assert_eq!(
        Fraction::new(5, 10).sub(Fraction::new(5, 20)),
        Fraction::new(1, 4)
    );
    assert_eq!(
        Fraction::new(5, 20).sub(Fraction::new(5, 10)),
        Fraction::new(-1, 4)
    );
    assert_eq!(
        Fraction::new(5, 20).sub(Fraction::new(5, 20)),
        Fraction::zero()
    );
}

#[test]
fn test_op_neg() {
    assert_eq!(Fraction::new(5, 10).neg(), Fraction::new(-1, 2));
    assert_eq!(Fraction::new(-5, 10).neg(), Fraction::new(1, 2));
    assert_eq!(Fraction::new(5, -10).neg(), Fraction::new(1, 2));
    assert_eq!(Fraction::new(-5, -10).neg(), Fraction::new(-1, 2));
}

#[test]
fn test_mul_div() {
    assert_eq!(
        Fraction::new(2, 3).mul(Fraction::new(3, 4)),
        Fraction::new(1, 2)
    );
    assert_eq!(
        Fraction::new(1, 2).div(Fraction::new(1, 4)),
        Fraction::new(2, 1)
    );
}

#[test]
fn test_scalar_ops() {
    assert_eq!(Fraction::new(1, 2).add_i32(1), Fraction::new(3, 2));
    assert_eq!(Fraction::new(1, 2).sub_i32(1), Fraction::new(-1, 2));
    assert_eq!(Fraction::new(1, 2).mul_i32(4), Fraction::new(2, 1));
    assert_eq!(Fraction::new(1, 2).div_i32(2), Fraction::new(1, 4));
}

#[test]
fn test_arithmetic_laws() {
    let pairs = [
        (Fraction::new(5, 10), Fraction::new(5, 20)),
        (Fraction::new(-3, 7), Fraction::new(2, 9)),
        (Fraction::new(1, -6), Fraction::new(-4, 5)),
    ];
    for (a, b) in pairs {
        assert_eq!(a.add(b), b.add(a));
        assert_eq!(a.mul(b), b.mul(a));
        assert_eq!(a.sub(a), Fraction::zero());
        assert_eq!(a.div(a), Fraction::one());
    }
}
