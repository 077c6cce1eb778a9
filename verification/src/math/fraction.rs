//! Exact rational numbers over 32-bit fields. A `Fraction` is not normalized
//! on construction; `to_irreducible` yields the canonical form (positive
//! denominator, coprime fields), and equality and ordering compare rational
//! values, never raw fields.

use crate::math::divisibility::divides;
use crate::math::divisibility::gcd_nat;
use vstd::arithmetic::div_mod::{
    lemma_div_basics, lemma_div_nonincreasing, lemma_fundamental_div_mod,
    lemma_mod_multiples_basic, lemma_small_mod,
};
use vstd::math::abs;
use vstd::prelude::*;
use vstd::std_specs::cmp::PartialEqSpec;

verus! {

/// An exact rational number; the denominator is never zero.
#[derive(Clone, Copy, Debug)]
pub struct Fraction {
    numerator: i32,
    denominator: i32,
}

/// The sign of an integer: `-1`, `0` or `1`.
pub open spec fn sign_of(x: int) -> int {
    if x > 0 {
        1
    } else if x < 0 {
        -1
    } else {
        0
    }
}

/// The sign of a product is the product of the signs.
pub proof fn lemma_sign_of_mul(n: int, d: int)
    ensures
        sign_of(n * d) == sign_of(n) * sign_of(d),
        n > 0 && d > 0 ==> sign_of(n * d) == 1,
        n < 0 && d < 0 ==> sign_of(n * d) == 1,
        n == 0 || d == 0 ==> sign_of(n * d) == 0,
        n > 0 && d < 0 ==> sign_of(n * d) == -1,
        n < 0 && d > 0 ==> sign_of(n * d) == -1,
{
    let sn = sign_of(n);
    let sd = sign_of(d);
    let sp = sign_of(n * d);
    assert(sp == sn * sd && (n > 0 && d > 0 ==> sp == 1) && (n < 0 && d < 0 ==> sp == 1) && (n == 0
        || d == 0 ==> sp == 0) && (n > 0 && d < 0 ==> sp == -1) && (n < 0 && d > 0 ==> sp == -1))
        by (nonlinear_arith)
        requires
            sn == (if n > 0 {
                1int
            } else if n < 0 {
                -1int
            } else {
                0int
            }),
            sd == (if d > 0 {
                1int
            } else if d < 0 {
                -1int
            } else {
                0int
            }),
            sp == (if n * d > 0 {
                1int
            } else if n * d < 0 {
                -1int
            } else {
                0int
            }),
    ;
}

/// The numerator of the canonical form of `n / d`: both fields divided by
/// their greatest common divisor, with the combined sign moved onto the
/// numerator.
pub open spec fn reduced_num(n: int, d: int) -> int {
    let g = gcd_nat(abs(n), abs(d)) as int;
    sign_of(n * d) * (abs(n) as int / g)
}

/// The denominator of the canonical form of `n / d`: always positive.
pub open spec fn reduced_den(n: int, d: int) -> int {
    let g = gcd_nat(abs(n), abs(d)) as int;
    abs(d) as int / g
}

/// A numerator/denominator pair is canonical when the denominator is
/// positive and the fields are coprime.
pub open spec fn is_canonical(n: int, d: int) -> bool {
    d > 0 && gcd_nat(abs(n), d as nat) == 1
}

/// The canonical form of a fraction is canonical, stands for the same
/// rational value, and its fields are no larger in magnitude than the
/// original fields.
pub proof fn lemma_reduced_props(n: int, d: int)
    requires
        d != 0,
    ensures
        is_canonical(reduced_num(n, d), reduced_den(n, d)),
        reduced_num(n, d) * d == n * reduced_den(n, d),
        abs(reduced_num(n, d)) <= abs(n),
        0 < reduced_den(n, d) <= abs(d),
{
    let an = abs(n);
    let ad = abs(d);
    let g = gcd_nat(an, ad);
    crate::math::divisibility::lemma_gcd_divides(an, ad);
    let a1 = an as int / g as int;
    let d1 = ad as int / g as int;
    lemma_fundamental_div_mod(an as int, g as int);
    lemma_fundamental_div_mod(ad as int, g as int);
    assert(an as int == g * a1);
    assert(ad as int == g * d1);
    assert(d1 > 0 && a1 >= 0 && d1 <= ad && a1 <= an) by (nonlinear_arith)
        requires
            an as int == g * a1,
            ad as int == g * d1,
            g >= 1,
            ad > 0,
            an >= 0,
            a1 == an as int / g as int,
            d1 == ad as int / g as int,
    ;
    crate::math::divisibility::lemma_gcd_coprime_reduce(an, ad);
    lemma_sign_of_mul(n, d);
    let s = sign_of(n * d);
    let rn = reduced_num(n, d);
    assert(rn == s * a1);
    // The magnitude of the reduced numerator is exactly a1.
    if n == 0 {
        assert(a1 == 0) by (nonlinear_arith)
            requires
                an as int == g * a1,
                an == 0,
                g >= 1,
                a1 >= 0,
        ;
        assert(rn == 0) by (nonlinear_arith)
            requires
                rn == s * a1,
                a1 == 0,
        ;
    } else {
        assert(s == 1 || s == -1);
        assert(abs(rn) == a1 && rn * d == n * d1) by (nonlinear_arith)
            requires
                rn == s * a1,
                s == sign_of(n) * sign_of(d),
                sign_of(n) == (if n > 0 {
                    1int
                } else if n < 0 {
                    -1int
                } else {
                    0int
                }),
                sign_of(d) == (if d > 0 {
                    1int
                } else if d < 0 {
                    -1int
                } else {
                    0int
                }),
                abs(rn) == (if rn >= 0 {
                    rn
                } else {
                    -rn
                }),
                an == (if n >= 0 {
                    n
                } else {
                    -n
                }),
                ad == (if d >= 0 {
                    d
                } else {
                    -d
                }),
                an as int == g * a1,
                ad as int == g * d1,
                a1 >= 0,
                d1 > 0,
                n != 0,
                d != 0,
    ;
    }
}

/// Reducing a fraction that is already canonical leaves it unchanged.
pub proof fn lemma_reduced_of_canonical(n: int, d: int)
    requires
        is_canonical(n, d),
    ensures
        reduced_num(n, d) == n,
        reduced_den(n, d) == d,
{
    lemma_div_basics(abs(n) as int);
    lemma_div_basics(abs(d) as int);
    lemma_sign_of_mul(n, d);
    assert(sign_of(n * d) * (abs(n) as int) == n) by (nonlinear_arith)
        requires
            d > 0,
            sign_of(n * d) == sign_of(n),
            sign_of(n) == (if n > 0 {
                1int
            } else if n < 0 {
                -1int
            } else {
                0int
            }),
            abs(n) == (if n >= 0 {
                n
            } else {
                -n
            }),
    ;
}

/// A rational value has only one canonical representation.
pub proof fn lemma_canonical_unique(n1: int, d1: int, n2: int, d2: int)
    requires
        is_canonical(n1, d1),
        is_canonical(n2, d2),
        n1 * d2 == n2 * d1,
    ensures
        n1 == n2,
        d1 == d2,
{
    if n1 == 0 {
        assert(n2 == 0) by (nonlinear_arith)
            requires
                n1 * d2 == n2 * d1,
                n1 == 0,
                d1 > 0,
        ;
        lemma_gcd_with_zero(d1 as nat);
        lemma_gcd_with_zero(d2 as nat);
    } else if n1 > 0 {
        assert(n2 > 0) by (nonlinear_arith)
            requires
                n1 * d2 == n2 * d1,
                n1 > 0,
                d1 > 0,
                d2 > 0,
        ;
        lemma_canonical_unique_pos(n1 as nat, d1 as nat, n2 as nat, d2 as nat);
    } else {
        assert(n2 < 0) by (nonlinear_arith)
            requires
                n1 * d2 == n2 * d1,
                n1 < 0,
                d1 > 0,
                d2 > 0,
        ;
        assert((-n1) * d2 == (-n2) * d1) by (nonlinear_arith)
            requires
                n1 * d2 == n2 * d1,
        ;
        lemma_canonical_unique_pos((-n1) as nat, d1 as nat, (-n2) as nat, d2 as nat);
    }
}

/// `gcd(0, d) == d`.
proof fn lemma_gcd_with_zero(d: nat)
    requires
        d > 0,
    ensures
        gcd_nat(0, d) == d,
{
    lemma_small_mod(0, d);
    assert(gcd_nat(0, d) == gcd_nat(d, 0));
}

/// The positive case of `lemma_canonical_unique`.
proof fn lemma_canonical_unique_pos(n1: nat, d1: nat, n2: nat, d2: nat)
    requires
        n1 > 0,
        n2 > 0,
        d1 > 0,
        d2 > 0,
        gcd_nat(n1, d1) == 1,
        gcd_nat(n2, d2) == 1,
        n1 * d2 == n2 * d1,
    ensures
        n1 == n2,
        d1 == d2,
{
    lemma_mod_multiples_basic(n2 as int, d1 as int);
    assert(divides(d1, n1 * d2));
    crate::math::divisibility::lemma_gcd_euclid(n1, d1, d2);
    lemma_mod_multiples_basic(n1 as int, d2 as int);
    assert(divides(d2, n2 * d1)) by {
        assert(n2 * d1 == n1 * d2);
    }
    crate::math::divisibility::lemma_gcd_euclid(n2, d2, d1);
    // Mutual divisibility of two positive numbers forces equality.
    lemma_fundamental_div_mod(d2 as int, d1 as int);
    lemma_fundamental_div_mod(d1 as int, d2 as int);
    let q1 = d2 as int / d1 as int;
    let q2 = d1 as int / d2 as int;
    assert(d1 == d2) by (nonlinear_arith)
        requires
            d2 as int == d1 * q1,
            d1 as int == d2 * q2,
            d1 > 0,
            d2 > 0,
    ;
    assert(n1 == n2) by (nonlinear_arith)
        requires
            n1 * d2 == n2 * d1,
            d1 == d2,
            d1 > 0,
    ;
}

impl Fraction {
    /// The numerator as a mathematical integer.
    pub closed spec fn num(self) -> int {
        self.numerator as int
    }

    /// The denominator as a mathematical integer.
    pub closed spec fn den(self) -> int {
        self.denominator as int
    }

    /// A fraction is well formed when its denominator is nonzero.
    pub open spec fn wf(self) -> bool {
        self.den() != 0
    }

    /// The fraction `numerator / denominator`; the denominator must be
    /// nonzero.
    pub fn new(numerator: i32, denominator: i32) -> (r: Fraction)
        requires
            denominator != 0,
        ensures
            r.num() == numerator as int,
            r.den() == denominator as int,
            r.wf(),
    {
        Fraction { numerator, denominator }
    }

    /// `new`, with the zero denominator rejected instead of excluded.
    pub fn try_new(numerator: i32, denominator: i32) -> (r: Option<Fraction>)
        ensures
            r is Some <==> denominator != 0,
            r matches Some(f) ==> f.num() == numerator as int && f.den() == denominator as int,
    {
        if denominator == 0 {
            None
        } else {
            Some(Fraction { numerator, denominator })
        }
    }

    /// The raw numerator field.
    pub fn numerator(&self) -> (r: i32)
        ensures
            r as int == self.num(),
    {
        self.numerator
    }

    /// The raw denominator field.
    pub fn denominator(&self) -> (r: i32)
        ensures
            r as int == self.den(),
    {
        self.denominator
    }

    /// The sign of the rational value: `sign(numerator) * sign(denominator)`.
    pub fn signum(&self) -> (r: i32)
        ensures
            r as int == sign_of(self.num() * self.den()),
    {
        proof {
            lemma_sign_of_mul(self.num(), self.den());
        }
        if (self.numerator > 0 && self.denominator > 0) || (self.numerator < 0
            && self.denominator < 0) {
            1
        } else if self.numerator == 0 || self.denominator == 0 {
            0
        } else {
            -1
        }
    }

    /// The raw numerator of the sum `self + other` over the common
    /// denominator `self.den() * other.den()`.
    pub open spec fn add_raw_num(self, other: Fraction) -> int {
        self.num() * other.den() + other.num() * self.den()
    }

    /// The raw numerator of the difference `self - other`.
    pub open spec fn sub_raw_num(self, other: Fraction) -> int {
        self.num() * other.den() - other.num() * self.den()
    }

    /// The raw numerator of the product `self * other`.
    pub open spec fn mul_raw_num(self, other: Fraction) -> int {
        self.num() * other.num()
    }

    /// The raw common denominator used by addition, subtraction and
    /// multiplication.
    pub open spec fn raw_den(self, other: Fraction) -> int {
        self.den() * other.den()
    }

    /// The canonical form of `self.num() / self.den()`. Fields with
    /// magnitude `i32::MIN` are excluded: the greatest common divisor is
    /// taken on absolute values.
    pub fn to_irreducible(&self) -> (r: Fraction)
        requires
            self.wf(),
            self.num() != i32::MIN,
            self.den() != i32::MIN,
        ensures
            r.num() == reduced_num(self.num(), self.den()),
            r.den() == reduced_den(self.num(), self.den()),
            r.den() > 0,
            r.wf(),
    {
        proof {
            lemma_reduced_props(self.num(), self.den());
        }
        reduce64(self.numerator as i64, self.denominator as i64)
    }

    /// The sum; the result is always irreducible. The reduced result must
    /// fit in 32-bit fields.
    pub fn add(self, other: Fraction) -> (r: Fraction)
        requires
            self.wf(),
            other.wf(),
            self.num() > i32::MIN,
            self.den() > i32::MIN,
            other.num() > i32::MIN,
            other.den() > i32::MIN,
            fits_reduced(self.add_raw_num(other), self.raw_den(other)),
        ensures
            r.num() == reduced_num(self.add_raw_num(other), self.raw_den(other)),
            r.den() == reduced_den(self.add_raw_num(other), self.raw_den(other)),
            r.den() > 0,
            r.wf(),
    {
        proof {
            lemma_i32_product(self.num(), other.den());
            lemma_i32_product(other.num(), self.den());
            lemma_i32_product(self.den(), other.den());
        }
        let n = (self.numerator as i64) * (other.denominator as i64) + (other.numerator as i64)
            * (self.denominator as i64);
        let d = (self.denominator as i64) * (other.denominator as i64);
        reduce64(n, d)
    }

    /// The difference, as the sum with the negated second operand; the
    /// result is always irreducible.
    pub fn sub(self, other: Fraction) -> (r: Fraction)
        requires
            self.wf(),
            other.wf(),
            self.num() > i32::MIN,
            self.den() > i32::MIN,
            other.num() > i32::MIN,
            other.den() > i32::MIN,
            fits_reduced(self.sub_raw_num(other), self.raw_den(other)),
        ensures
            r.num() == reduced_num(self.sub_raw_num(other), self.raw_den(other)),
            r.den() == reduced_den(self.sub_raw_num(other), self.raw_den(other)),
            r.den() > 0,
            r.wf(),
    {
        proof {
            lemma_i32_product(self.num(), other.den());
            lemma_i32_product(other.num(), self.den());
            lemma_i32_product(self.den(), other.den());
        }
        let n = (self.numerator as i64) * (other.denominator as i64) - (other.numerator as i64)
            * (self.denominator as i64);
        let d = (self.denominator as i64) * (other.denominator as i64);
        reduce64(n, d)
    }

    /// The product; the result is always irreducible.
    pub fn mul(self, other: Fraction) -> (r: Fraction)
        requires
            self.wf(),
            other.wf(),
            self.num() > i32::MIN,
            self.den() > i32::MIN,
            other.num() > i32::MIN,
            other.den() > i32::MIN,
            fits_reduced(self.mul_raw_num(other), self.raw_den(other)),
        ensures
            r.num() == reduced_num(self.mul_raw_num(other), self.raw_den(other)),
            r.den() == reduced_den(self.mul_raw_num(other), self.raw_den(other)),
            r.den() > 0,
            r.wf(),
    {
        proof {
            lemma_i32_product(self.num(), other.num());
            lemma_i32_product(self.den(), other.den());
        }
        let n = (self.numerator as i64) * (other.numerator as i64);
        let d = (self.denominator as i64) * (other.denominator as i64);
        reduce64(n, d)
    }

    /// The quotient, as multiplication by the reciprocal; `other` must be
    /// nonzero. The result is always irreducible.
    pub fn div(self, other: Fraction) -> (r: Fraction)
        requires
            self.wf(),
            other.wf(),
            other.num() != 0,
            self.num() > i32::MIN,
            self.den() > i32::MIN,
            other.num() > i32::MIN,
            other.den() > i32::MIN,
            fits_reduced(self.num() * other.den(), self.den() * other.num()),
        ensures
            r.num() == reduced_num(self.num() * other.den(), self.den() * other.num()),
            r.den() == reduced_den(self.num() * other.den(), self.den() * other.num()),
            r.den() > 0,
            r.wf(),
    {
        proof {
            lemma_i32_product(self.num(), other.den());
            lemma_i32_product(self.den(), other.num());
        }
        let n = (self.numerator as i64) * (other.denominator as i64);
        let d = (self.denominator as i64) * (other.numerator as i64);
        reduce64(n, d)
    }

    /// The fraction zero, as `0/1`.
    pub fn zero() -> (r: Fraction)
        ensures
            r.num() == 0,
            r.den() == 1,
            r.wf(),
    {
        Fraction { numerator: 0, denominator: 1 }
    }

    /// The fraction one, as `1/1`.
    pub fn one() -> (r: Fraction)
        ensures
            r.num() == 1,
            r.den() == 1,
            r.wf(),
    {
        Fraction { numerator: 1, denominator: 1 }
    }

    /// The fraction one half, as `1/2`.
    pub fn half() -> (r: Fraction)
        ensures
            r.num() == 1,
            r.den() == 2,
            r.wf(),
    {
        Fraction { numerator: 1, denominator: 2 }
    }

    /// The sum with the whole number `k`; the result is always irreducible.
    pub fn add_i32(self, k: i32) -> (r: Fraction)
        requires
            self.wf(),
            self.num() > i32::MIN,
            self.den() > i32::MIN,
            k > i32::MIN,
            fits_reduced(self.num() + k * self.den(), self.den()),
        ensures
            r.num() == reduced_num(self.num() + k * self.den(), self.den()),
            r.den() == reduced_den(self.num() + k * self.den(), self.den()),
            r.den() > 0,
            r.wf(),
    {
        proof {
            lemma_i32_product(k as int, self.den());
        }
        let n = (self.numerator as i64) + (k as i64) * (self.denominator as i64);
        reduce64(n, self.denominator as i64)
    }

    /// The difference with the whole number `k`; the result is always
    /// irreducible.
    pub fn sub_i32(self, k: i32) -> (r: Fraction)
        requires
            self.wf(),
            self.num() > i32::MIN,
            self.den() > i32::MIN,
            k > i32::MIN,
            fits_reduced(self.num() - k * self.den(), self.den()),
        ensures
            r.num() == reduced_num(self.num() - k * self.den(), self.den()),
            r.den() == reduced_den(self.num() - k * self.den(), self.den()),
            r.den() > 0,
            r.wf(),
    {
        proof {
            lemma_i32_product(k as int, self.den());
        }
        let n = (self.numerator as i64) - (k as i64) * (self.denominator as i64);
        reduce64(n, self.denominator as i64)
    }

    /// The product with the whole number `k`; the result is always
    /// irreducible.
    pub fn mul_i32(self, k: i32) -> (r: Fraction)
        requires
            self.wf(),
            self.num() > i32::MIN,
            self.den() > i32::MIN,
            k > i32::MIN,
            fits_reduced(self.num() * k, self.den()),
        ensures
            r.num() == reduced_num(self.num() * k, self.den()),
            r.den() == reduced_den(self.num() * k, self.den()),
            r.den() > 0,
            r.wf(),
    {
        proof {
            lemma_i32_product(self.num(), k as int);
        }
        let n = (self.numerator as i64) * (k as i64);
        reduce64(n, self.denominator as i64)
    }

    /// The quotient by the nonzero whole number `k`; the result is always
    /// irreducible.
    pub fn div_i32(self, k: i32) -> (r: Fraction)
        requires
            self.wf(),
            k != 0,
            self.num() > i32::MIN,
            self.den() > i32::MIN,
            k > i32::MIN,
            fits_reduced(self.num(), self.den() * k),
        ensures
            r.num() == reduced_num(self.num(), self.den() * k),
            r.den() == reduced_den(self.num(), self.den() * k),
            r.den() > 0,
            r.wf(),
    {
        proof {
            lemma_i32_product(self.den(), k as int);
        }
        let d = (self.denominator as i64) * (k as i64);
        reduce64(self.numerator as i64, d)
    }

    /// The negation; the result is always irreducible.
    pub fn neg(self) -> (r: Fraction)
        requires
            self.wf(),
            self.num() > i32::MIN,
            self.den() > i32::MIN,
            fits_reduced(-self.num(), self.den()),
        ensures
            r.num() == reduced_num(-self.num(), self.den()),
            r.den() == reduced_den(-self.num(), self.den()),
            r.den() > 0,
            r.wf(),
    {
        reduce64(-(self.numerator as i64), self.denominator as i64)
    }
}

impl PartialEq for Fraction {
    /// Fractions compare by rational value, not by raw fields, so
    /// `5/10 == 1/2`.
    fn eq(&self, other: &Self) -> (r: bool) {
        proof {
            lemma_i32_product(self.num(), other.den());
            lemma_i32_product(other.num(), self.den());
        }
        let lhs = (self.numerator as i64) * (other.denominator as i64);
        let rhs = (other.numerator as i64) * (self.denominator as i64);
        lhs == rhs
    }
}

impl vstd::std_specs::cmp::PartialEqSpecImpl for Fraction {
    open spec fn obeys_eq_spec() -> bool {
        true
    }

    open spec fn eq_spec(&self, other: &Self) -> bool {
        self.num() * other.den() == other.num() * self.den()
    }
}

impl PartialOrd for Fraction {
    /// Fractions order by rational value: cross products compared with the
    /// sign of the common denominator taken into account.
    fn partial_cmp(&self, other: &Self) -> (r: Option<std::cmp::Ordering>) {
        proof {
            lemma_i32_product(self.num(), other.den());
            lemma_i32_product(other.num(), self.den());
            lemma_i32_product(self.den(), other.den());
        }
        let lhs = (self.numerator as i64) * (other.denominator as i64);
        let rhs = (other.numerator as i64) * (self.denominator as i64);
        let m = (self.denominator as i64) * (other.denominator as i64);
        if m > 0 {
            if lhs < rhs {
                Some(std::cmp::Ordering::Less)
            } else if lhs == rhs {
                Some(std::cmp::Ordering::Equal)
            } else {
                Some(std::cmp::Ordering::Greater)
            }
        } else if m < 0 {
            if rhs < lhs {
                Some(std::cmp::Ordering::Less)
            } else if lhs == rhs {
                Some(std::cmp::Ordering::Equal)
            } else {
                Some(std::cmp::Ordering::Greater)
            }
        } else {
            None
        }
    }
}

impl vstd::std_specs::cmp::PartialOrdSpecImpl for Fraction {
    open spec fn obeys_partial_cmp_spec() -> bool {
        true
    }

    open spec fn partial_cmp_spec(&self, other: &Self) -> Option<std::cmp::Ordering> {
        let l = self.num() * other.den();
        let r = other.num() * self.den();
        let m = self.den() * other.den();
        if m > 0 {
            if l < r {
                Some(std::cmp::Ordering::Less)
            } else if l == r {
                Some(std::cmp::Ordering::Equal)
            } else {
                Some(std::cmp::Ordering::Greater)
            }
        } else if m < 0 {
            if r < l {
                Some(std::cmp::Ordering::Less)
            } else if l == r {
                Some(std::cmp::Ordering::Equal)
            } else {
                Some(std::cmp::Ordering::Greater)
            }
        } else {
            None
        }
    }
}

/// Scaling both fields by a common nonzero factor leaves the rational
/// value, and hence equality, unchanged: `p/q == (p*k)/(q*k)`.
pub proof fn lemma_eq_scaled(a: Fraction, b: Fraction, k: int)
    requires
        a.wf(),
        b.wf(),
        k != 0,
        b.num() == a.num() * k,
        b.den() == a.den() * k,
    ensures
        a.eq_spec(&b),
{
    assert(a.num() * (a.den() * k) == (a.num() * k) * a.den()) by (nonlinear_arith);
}

/// Two well-formed fractions compare equal — `eq_spec`, the meaning of
/// `==` — exactly when their irreducible forms have identical fields: the
/// sense in which equality operates on the irreducible form, never on the
/// raw fields.
pub proof fn lemma_eq_spec_is_reduced_eq(a: Fraction, b: Fraction)
    requires
        a.wf(),
        b.wf(),
    ensures
        a.eq_spec(&b) <==> (reduced_num(a.num(), a.den()) == reduced_num(b.num(), b.den())
            && reduced_den(a.num(), a.den()) == reduced_den(b.num(), b.den())),
{
    lemma_reduced_props(a.num(), a.den());
    lemma_reduced_props(b.num(), b.den());
    let rn1 = reduced_num(a.num(), a.den());
    let rd1 = reduced_den(a.num(), a.den());
    let rn2 = reduced_num(b.num(), b.den());
    let rd2 = reduced_den(b.num(), b.den());
    if a.eq_spec(&b) {
        assert(rn1 * rd2 == rn2 * rd1) by (nonlinear_arith)
            requires
                rn1 * a.den() == a.num() * rd1,
                rn2 * b.den() == b.num() * rd2,
                a.num() * b.den() == b.num() * a.den(),
                a.den() != 0,
                b.den() != 0,
        ;
        lemma_canonical_unique(rn1, rd1, rn2, rd2);
    }
    if rn1 == rn2 && rd1 == rd2 {
        assert(a.num() * b.den() == b.num() * a.den()) by (nonlinear_arith)
            requires
                rn1 * a.den() == a.num() * rd1,
                rn1 * b.den() == b.num() * rd1,
                rd1 > 0,
        ;
    }
}

/// Reduction is idempotent, and the reduced denominator is always
/// positive: reducing `n/d` twice gives the same fields as reducing it
/// once.
pub proof fn lemma_reduced_idempotent(n: int, d: int)
    requires
        d != 0,
    ensures
        reduced_den(n, d) > 0,
        reduced_num(reduced_num(n, d), reduced_den(n, d)) == reduced_num(n, d),
        reduced_den(reduced_num(n, d), reduced_den(n, d)) == reduced_den(n, d),
{
    lemma_reduced_props(n, d);
    lemma_reduced_of_canonical(reduced_num(n, d), reduced_den(n, d));
}

/// Addition of fractions is commutative: both orders produce the same raw
/// pair and hence the same irreducible result.
pub proof fn lemma_add_comm(a: Fraction, b: Fraction)
    ensures
        a.add_raw_num(b) == b.add_raw_num(a),
        a.raw_den(b) == b.raw_den(a),
        reduced_num(a.add_raw_num(b), a.raw_den(b)) == reduced_num(
            b.add_raw_num(a),
            b.raw_den(a),
        ),
        reduced_den(a.add_raw_num(b), a.raw_den(b)) == reduced_den(
            b.add_raw_num(a),
            b.raw_den(a),
        ),
{
    assert(a.num() * b.den() + b.num() * a.den() == b.num() * a.den() + a.num() * b.den());
    assert(a.den() * b.den() == b.den() * a.den()) by (nonlinear_arith);
}

/// Multiplication of fractions is commutative: both orders produce the
/// same raw pair and hence the same irreducible result.
pub proof fn lemma_mul_comm(a: Fraction, b: Fraction)
    ensures
        a.mul_raw_num(b) == b.mul_raw_num(a),
        a.raw_den(b) == b.raw_den(a),
        reduced_num(a.mul_raw_num(b), a.raw_den(b)) == reduced_num(
            b.mul_raw_num(a),
            b.raw_den(a),
        ),
        reduced_den(a.mul_raw_num(b), a.raw_den(b)) == reduced_den(
            b.mul_raw_num(a),
            b.raw_den(a),
        ),
{
    assert(a.num() * b.num() == b.num() * a.num()) by (nonlinear_arith);
    assert(a.den() * b.den() == b.den() * a.den()) by (nonlinear_arith);
}

/// Subtracting a fraction from itself gives exactly zero: the fields of
/// `a - a` are those of `Fraction::zero()`.
pub proof fn lemma_sub_self(a: Fraction)
    requires
        a.wf(),
    ensures
        a.sub_raw_num(a) == 0,
        reduced_num(a.sub_raw_num(a), a.raw_den(a)) == 0,
        reduced_den(a.sub_raw_num(a), a.raw_den(a)) == 1,
{
    let dd = a.raw_den(a);
    assert(dd > 0) by (nonlinear_arith)
        requires
            dd == a.den() * a.den(),
            a.den() != 0,
    ;
    lemma_gcd_with_zero(dd as nat);
    lemma_div_basics(dd);
    assert(abs(0) as int / dd == 0) by {
        lemma_div_basics(dd);
    }
}

/// Dividing a nonzero fraction by itself gives exactly one: the fields of
/// `a / a` are those of `Fraction::one()`.
pub proof fn lemma_div_self_one(a: Fraction)
    requires
        a.wf(),
        a.num() != 0,
    ensures
        reduced_num(a.num() * a.den(), a.den() * a.num()) == 1,
        reduced_den(a.num() * a.den(), a.den() * a.num()) == 1,
{
    let x = a.num() * a.den();
    assert(x != 0 && a.den() * a.num() == x) by (nonlinear_arith)
        requires
            x == a.num() * a.den(),
            a.num() != 0,
            a.den() != 0,
    ;
    lemma_gcd_self(abs(x));
    lemma_div_basics(abs(x) as int);
    lemma_sign_of_mul(x, x);
    assert(sign_of(x * x) == 1);
}

/// `gcd(v, v) == v`.
proof fn lemma_gcd_self(v: nat)
    requires
        v > 0,
    ensures
        gcd_nat(v, v) == v,
{
    vstd::arithmetic::div_mod::lemma_mod_self_0(v as int);
    assert(gcd_nat(v, v) == gcd_nat(v, v % v));
}

/// Both reduced fields fit in 32 bits.
pub open spec fn fits_reduced(n: int, d: int) -> bool {
    i32::MIN <= reduced_num(n, d) <= i32::MAX && reduced_den(n, d) <= i32::MAX
}

/// The product of two 32-bit values stays inside 64 bits, commutes, and is
/// nonzero when both factors are.
proof fn lemma_i32_product(x: int, y: int)
    requires
        -0x8000_0000 <= x < 0x8000_0000,
        -0x8000_0000 <= y < 0x8000_0000,
    ensures
        -0x4000_0000_0000_0000 <= x * y <= 0x4000_0000_0000_0000,
        -0x8000_0000 < x && -0x8000_0000 < y ==> -0x4000_0000_0000_0000 < x * y
            < 0x4000_0000_0000_0000,
        x * y == y * x,
        x != 0 && y != 0 ==> x * y != 0,
{
    assert(x * y == y * x && (x != 0 && y != 0 ==> x * y != 0)) by (nonlinear_arith);
    assert(-0x4000_0000_0000_0000 <= x * y <= 0x4000_0000_0000_0000) by (nonlinear_arith)
        requires
            -0x8000_0000 <= x <= 0x8000_0000,
            -0x8000_0000 <= y <= 0x8000_0000,
    ;
    if -0x8000_0000 < x && -0x8000_0000 < y {
        assert(-0x4000_0000_0000_0000 < x * y < 0x4000_0000_0000_0000) by (nonlinear_arith)
            requires
                -0x8000_0000 < x < 0x8000_0000,
                -0x8000_0000 < y < 0x8000_0000,
        ;
    }
}

/// Reduce a raw 64-bit numerator/denominator pair to canonical 32-bit
/// fields; the reduced fields must fit.
fn reduce64(n: i64, d: i64) -> (r: Fraction)
    requires
        d != 0,
        n > i64::MIN,
        d > i64::MIN,
        i32::MIN <= reduced_num(n as int, d as int) <= i32::MAX,
        reduced_den(n as int, d as int) <= i32::MAX,
    ensures
        r.num() == reduced_num(n as int, d as int),
        r.den() == reduced_den(n as int, d as int),
        r.den() > 0,
        r.wf(),
{
    proof {
        lemma_reduced_props(n as int, d as int);
        lemma_sign_of_mul(n as int, d as int);
    }
    let na: u64 = (if n < 0 {
        -n
    } else {
        n
    }) as u64;
    let da: u64 = (if d < 0 {
        -d
    } else {
        d
    }) as u64;
    let g = crate::math::gcd_u64(na, da);
    proof {
        crate::math::divisibility::lemma_gcd_divides(na as nat, da as nat);
        lemma_div_nonincreasing(na as int, g as int);
        lemma_div_nonincreasing(da as int, g as int);
    }
    let qn = na / g;
    let qd = da / g;
    let s_neg = (n < 0) != (d < 0);
    proof {
        let rnum = reduced_num(n as int, d as int);
        if n != 0 && s_neg {
            assert(rnum == -(qn as int)) by (nonlinear_arith)
                requires
                    rnum == sign_of(n as int * d as int) * (qn as int),
                    sign_of(n as int * d as int) == -1,
            ;
        }
        if n != 0 && !s_neg {
            assert(rnum == qn as int) by (nonlinear_arith)
                requires
                    rnum == sign_of(n as int * d as int) * (qn as int),
                    sign_of(n as int * d as int) == 1,
            ;
        }
        if n == 0 {
            assert(rnum == 0) by (nonlinear_arith)
                requires
                    rnum == sign_of(0int) * (qn as int),
            ;
        }
    }
    let rn: i32 = if n == 0 {
        0
    } else if s_neg {
        (-(qn as i64)) as i32
    } else {
        qn as i32
    };
    Fraction { numerator: rn, denominator: qd as i32 }
}

} // verus!
