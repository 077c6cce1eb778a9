//! Dotted power-of-two note durations and their conversion to and from
//! exact fractions.

use crate::math::fraction::{sign_of, Fraction};
use vstd::arithmetic::div_mod::lemma_div_multiples_vanish;
use vstd::arithmetic::power::lemma_pow_positive;
use vstd::arithmetic::power2::{
    is_pow2, is_pow2_equiv, lemma2_to64, lemma_pow2_adds, lemma_pow2_pos,
    lemma_pow2_strictly_increases, pow2,
};
use vstd::math::abs;
use vstd::prelude::*;

verus! {

/// A dotted power-of-two note value: `1/denominator * (2 - 2^-dots)`.
#[derive(Clone, Copy, Debug, PartialEq, Eq, Structural)]
pub struct Duration {
    denominator: u16,
    dots: u8,
}

/// Why a fraction is not a duration.
#[derive(Clone, Copy, Debug, PartialEq, Eq, Structural)]
pub enum DurationError {
    /// The fraction is zero or negative.
    NotPositive,
    /// The fraction is smaller than the smallest supported base, `1/128`.
    DenominatorTooLarge,
    /// The fraction is not exactly a power-of-two base plus at most four dots.
    NotDurational,
}

/// The numerator of the exact value of a duration: `2^(dots+1) - 1`.
pub open spec fn dur_num(d: Duration) -> int {
    pow2((d.dots_spec() + 1) as nat) - 1
}

/// The denominator of the exact value of a duration:
/// `denominator * 2^dots`.
pub open spec fn dur_den(d: Duration) -> int {
    d.den_spec() * pow2(d.dots_spec() as nat)
}

/// The fraction `f` is exactly the value of the duration `d`, and `d` is
/// one of the durations `try_from` can produce: a power-of-two base of at
/// most 128 with at most four dots.
pub open spec fn is_duration_of(f: Fraction, d: Duration) -> bool {
    d.wf() && d.den_spec() <= 128 && f.num() * dur_den(d) == dur_num(d) * f.den()
}

/// What `Duration::try_from` returns for every fraction: the sign is
/// checked first, then whether the value is at least `1/128`, and a
/// duration comes out exactly when the fraction is one of the clean dotted
/// values.
pub open spec fn parse_duration(f: Fraction) -> Result<Duration, DurationError> {
    if sign_of(f.num() * f.den()) <= 0 {
        Err(DurationError::NotPositive)
    } else if abs(f.num()) * 128 < abs(f.den()) {
        Err(DurationError::DenominatorTooLarge)
    } else if exists|d: Duration| is_duration_of(f, d) {
        Ok(choose|d: Duration| is_duration_of(f, d))
    } else {
        Err(DurationError::NotDurational)
    }
}

/// A power of two is at least one.
pub proof fn lemma_is_pow2_pos(n: int)
    requires
        is_pow2(n),
    ensures
        n >= 1,
{
    reveal(is_pow2);
}

/// A power of two that is at most 128 is `2^e` for some `e <= 7`.
pub proof fn lemma_pow2_small_exponent(p: int)
    requires
        is_pow2(p),
        p <= 128,
    ensures
        exists|e: nat| e <= 7 && p == pow2(e),
{
    is_pow2_equiv(p);
    let i = choose|i: nat| vstd::arithmetic::power::pow(2, i) == p;
    lemma_pow_positive(2, i);
    assert(p == pow2(i));
    if i > 7 {
        lemma_pow2_strictly_increases(7, i);
        lemma2_to64();
        assert(false);
    }
    assert(i <= 7 && p == pow2(i));
}

/// An odd number times a power of two factors uniquely: if
/// `o1 * 2^k2 == o2 * 2^k1` with both `o` odd and positive, the exponents
/// and odd parts agree.
proof fn lemma_odd_pow2_unique(o1: int, k1: nat, o2: int, k2: nat)
    requires
        o1 >= 1,
        o2 >= 1,
        o1 % 2 == 1,
        o2 % 2 == 1,
        o1 * pow2(k2) == o2 * pow2(k1),
    ensures
        k1 == k2,
        o1 == o2,
    decreases k1,
{
    lemma2_to64();
    if k1 == 0 && k2 == 0 {
        assert(o1 * 1 == o1);
        assert(o2 * 1 == o2);
    } else if k1 == 0 {
        // o1 * 2^k2 is even, but equals the odd o2.
        lemma_pow2_adds((k2 - 1) as nat, 1);
        assert(o2 * 1 == o2);
        let h = o1 * pow2((k2 - 1) as nat);
        assert(o2 == 2 * h) by (nonlinear_arith)
            requires
                o2 == o1 * pow2(k2),
                pow2(k2) == pow2((k2 - 1) as nat) * 2,
                h == o1 * pow2((k2 - 1) as nat),
        ;
        assert(false);
    } else if k2 == 0 {
        lemma_pow2_adds((k1 - 1) as nat, 1);
        assert(o1 * 1 == o1);
        let h = o2 * pow2((k1 - 1) as nat);
        assert(o1 == 2 * h) by (nonlinear_arith)
            requires
                o1 == o2 * pow2(k1),
                pow2(k1) == pow2((k1 - 1) as nat) * 2,
                h == o2 * pow2((k1 - 1) as nat),
        ;
        assert(false);
    } else {
        lemma_pow2_adds((k1 - 1) as nat, 1);
        lemma_pow2_adds((k2 - 1) as nat, 1);
        assert(o1 * pow2((k2 - 1) as nat) == o2 * pow2((k1 - 1) as nat)) by (nonlinear_arith)
            requires
                o1 * pow2(k2) == o2 * pow2(k1),
                pow2(k1) == pow2((k1 - 1) as nat) * 2,
                pow2(k2) == pow2((k2 - 1) as nat) * 2,
        ;
        lemma_odd_pow2_unique(o1, (k1 - 1) as nat, o2, (k2 - 1) as nat);
    }
}

/// `2^(k+1) - 1` is odd and at least one.
proof fn lemma_dur_num_odd(k: nat)
    ensures
        (pow2((k + 1) as nat) - 1) % 2 == 1,
        pow2((k + 1) as nat) - 1 >= 1,
{
    lemma_pow2_adds(k, 1);
    lemma_pow2_pos(k);
    lemma2_to64();
    let p = pow2(k) as int;
    assert((p * 2 - 1) % 2 == 1 && p * 2 - 1 >= 1) by (nonlinear_arith)
        requires
            p >= 1,
    ;
}

/// Multiplying a cross equation through by the signs: for a fraction with
/// positive value, the signed cross equation holds exactly when the one on
/// absolute values does.
proof fn lemma_signed_to_abs(n: int, d: int, x: int, y: int)
    requires
        sign_of(n * d) == 1,
        x >= 0,
        y >= 0,
    ensures
        (n * x == y * d) <==> (abs(n) * x == y * abs(d)),
{
    crate::math::fraction::lemma_sign_of_mul(n, d);
    if n > 0 && d > 0 {
    } else {
        assert(n < 0 && d < 0) by (nonlinear_arith)
            requires
                !(n > 0 && d > 0),
                sign_of(n) * sign_of(d) == 1,
                sign_of(n) == (if n > 0 {
                    1int
                } else if n < 0 {
                    -1int
                } else {
                    0int
                }),
                sign_of(d) == (if d > 0 {
                    1int
                } else if d < 0 {
                    -1int
                } else {
                    0int
                }),
        ;
        assert((-n) * x == -(n * x) && (-d) * y == -(d * y) && y * d == d * y && y * (-d) == (-d)
            * y) by (nonlinear_arith);
    }
}

/// The scaled form of "the fraction `aa/bb` equals the duration value
/// `(2^(s+1) - 1) / (dd * 2^s)`": multiplying through by `2^(4-s)` turns
/// the cross equation into one over a fixed scale of 16.
proof fn lemma_scaled_eq(aa: int, bb: int, dd: int, s: int)
    requires
        0 <= s <= 4,
        aa >= 0,
        bb >= 0,
        dd >= 1,
    ensures
        (aa * dd * pow2(s as nat) == bb * (pow2((s + 1) as nat) - 1)) <==> (aa * dd * 16 == bb * (
        32 - pow2((4 - s) as nat))),
{
    lemma2_to64();
    lemma_pow2_adds(s as nat, (4 - s) as nat);
    lemma_pow2_adds(s as nat, 1);
    let p = pow2(s as nat) as int;
    let q = pow2((4 - s) as nat) as int;
    lemma_pow2_pos(s as nat);
    lemma_pow2_pos((4 - s) as nat);
    assert(p * 2 == 2 * p) by (nonlinear_arith);
    assert((aa * dd * p == bb * (2 * p - 1)) <==> (aa * dd * 16 == bb * (32 - q)))
        by (nonlinear_arith)
        requires
            p * q == 16,
            p >= 1,
            q >= 1,
    ;
}

/// When the greedy decomposition leaves a nonzero remainder, no duration
/// at all has the fraction's value: any candidate would have to share the
/// greedily chosen base, and its dot count can be neither smaller, equal,
/// nor larger than the greedy one.
proof fn lemma_no_duration_fits(
    f: Fraction,
    a: int,
    b: int,
    d: int,
    j: nat,
    dots: int,
    rem: int,
)
    requires
        f.wf(),
        sign_of(f.num() * f.den()) == 1,
        a == abs(f.num()),
        b == abs(f.den()),
        a >= 1,
        b >= 1,
        d == pow2(j),
        j <= 7,
        b <= a * d,
        forall|k: nat| k < j ==> b > a * #[trigger] pow2(k),
        0 <= dots <= 4,
        rem + b * (32 - pow2((4 - dots) as nat)) == a * d * 16,
        rem != 0,
        dots == 4 || rem < b * pow2((3 - dots) as nat),
        forall|t: int| 0 <= t < dots ==> a * d * 16 != b * (32 - #[trigger] pow2((4 - t) as nat)),
    ensures
        forall|cand: Duration| !is_duration_of(f, cand),
{
    lemma2_to64();
    assert forall|cand: Duration| !is_duration_of(f, cand) by {
        if is_duration_of(f, cand) {
            let cd = cand.den_spec();
            let cs = cand.dots_spec();
            lemma_is_pow2_pos(cd);
            lemma_pow2_small_exponent(cd);
            let e = choose|ee: nat| ee <= 7 && cd == pow2(ee);
            lemma_dur_num_odd(cs as nat);
            let p = pow2(cs as nat) as int;
            let np = pow2((cs + 1) as nat) as int;
            lemma_pow2_adds(cs as nat, 1);
            lemma_pow2_pos(cs as nat);
            assert(dur_den(cand) == cd * p && dur_num(cand) == np - 1);
            assert(dur_den(cand) >= 1) by (nonlinear_arith)
                requires
                    dur_den(cand) == cd * p,
                    cd >= 1,
                    p >= 1,
            ;
            lemma_signed_to_abs(f.num(), f.den(), dur_den(cand), dur_num(cand));
            assert(a * dur_den(cand) == dur_num(cand) * b);
            assert(a * cd * p == b * (2 * p - 1)) by (nonlinear_arith)
                requires
                    a * (cd * p) == (np - 1) * b,
                    np == p * 2,
            ;
            if e < j {
                assert(b > a * pow2(e));
                assert(false) by (nonlinear_arith)
                    requires
                        a * cd * p == b * (2 * p - 1),
                        p >= 1,
                        b >= 1,
                        a >= 1,
                        cd >= 1,
                        b > a * cd,
                ;
            } else if e > j {
                lemma_pow2_adds(j, 1);
                if j + 1 < e {
                    lemma_pow2_strictly_increases((j + 1) as nat, e);
                }
                assert(pow2(e) >= 2 * pow2(j));
                assert(false) by (nonlinear_arith)
                    requires
                        a * cd * p == b * (2 * p - 1),
                        p >= 1,
                        a >= 1,
                        b >= 1,
                        cd >= 2 * d,
                        b <= a * d,
                        d >= 1,
                ;
            } else {
                assert(cd == d);
                lemma_scaled_eq(a, b, d, cs);
                assert(a * d * 16 == b * (32 - pow2((4 - cs) as nat)));
                if cs < dots {
                    assert(a * d * 16 != b * (32 - pow2((4 - cs) as nat)));
                    assert(false);
                } else if cs == dots {
                    assert(rem == 0);
                    assert(false);
                } else {
                    let pd = pow2((4 - dots) as nat) as int;
                    let pc = pow2((4 - cs) as nat) as int;
                    let ph = pow2((3 - dots) as nat) as int;
                    lemma_pow2_adds((3 - dots) as nat, 1);
                    if 4 - cs < 3 - dots {
                        lemma_pow2_strictly_increases((4 - cs) as nat, (3 - dots) as nat);
                    }
                    assert(pc <= ph);
                    assert(dots < 4);
                    assert(false) by (nonlinear_arith)
                        requires
                            rem + b * (32 - pd) == a * d * 16,
                            a * d * 16 == b * (32 - pc),
                            pd == ph * 2,
                            pc <= ph,
                            b >= 1,
                            rem < b * ph,
                    ;
                }
            }
        }
    }
}

/// A fraction stands for at most one duration.
pub proof fn lemma_duration_rep_unique(f: Fraction, d1: Duration, d2: Duration)
    requires
        f.wf(),
        is_duration_of(f, d1),
        is_duration_of(f, d2),
    ensures
        d1 == d2,
{
    let n1 = dur_num(d1);
    let n2 = dur_num(d2);
    let e1 = dur_den(d1);
    let e2 = dur_den(d2);
    // The two cross equations force n1 * e2 == n2 * e1.
    lemma_dur_num_odd(d1.dots_spec() as nat);
    lemma_dur_num_odd(d2.dots_spec() as nat);
    assert(f.num() != 0) by (nonlinear_arith)
        requires
            f.num() * e1 == n1 * f.den(),
            n1 >= 1,
            f.den() != 0,
            e1 == d1.den_spec() * pow2(d1.dots_spec() as nat),
    ;
    assert(n1 * e2 == n2 * e1) by (nonlinear_arith)
        requires
            f.num() * e1 == n1 * f.den(),
            f.num() * e2 == n2 * f.den(),
            f.num() != 0,
            f.den() != 0,
    ;
    // Both dur_dens are powers of two: den * 2^dots == 2^(b + dots).
    lemma_pow2_small_exponent(d1.den_spec());
    lemma_pow2_small_exponent(d2.den_spec());
    let b1 = choose|e: nat| e <= 7 && d1.den_spec() == pow2(e);
    let b2 = choose|e: nat| e <= 7 && d2.den_spec() == pow2(e);
    lemma_pow2_adds(b1, d1.dots_spec() as nat);
    lemma_pow2_adds(b2, d2.dots_spec() as nat);
    let k1 = (b1 + d1.dots_spec()) as nat;
    let k2 = (b2 + d2.dots_spec()) as nat;
    assert(e1 == pow2(k1));
    assert(e2 == pow2(k2));
    lemma_odd_pow2_unique(n1, k1, n2, k2);
    // Equal numerators force equal dot counts.
    if d1.dots_spec() < d2.dots_spec() {
        lemma_pow2_strictly_increases((d1.dots_spec() + 1) as nat, (d2.dots_spec() + 1) as nat);
        assert(false);
    }
    if d2.dots_spec() < d1.dots_spec() {
        lemma_pow2_strictly_increases((d2.dots_spec() + 1) as nat, (d1.dots_spec() + 1) as nat);
        assert(false);
    }
    // Equal exponents and equal dot counts force equal bases.
    assert(b1 == b2);
    Duration::lemma_ext_equal(d1, d2);
}

/// Round trip: a duration with a base of at most 128, converted to its
/// exact fraction by `to_fraction`, is recovered unchanged by `try_from`.
/// A base above 128 lies outside the supported range of `try_from`, so the
/// law holds for every duration that `try_from` can produce at all.
pub proof fn lemma_round_trip(d: Duration, f: Fraction)
    requires
        d.wf(),
        d.den_spec() <= 128,
        f.wf(),
        f.num() == dur_num(d),
        f.den() == dur_den(d),
    ensures
        parse_duration(f) == Ok::<Duration, DurationError>(d),
{
    lemma2_to64();
    lemma_is_pow2_pos(d.den_spec());
    lemma_dur_num_odd(d.dots_spec() as nat);
    lemma_pow2_pos(d.dots_spec() as nat);
    lemma_pow2_adds(d.dots_spec() as nat, 1);
    assert(dur_den(d) >= 1) by (nonlinear_arith)
        requires
            dur_den(d) == d.den_spec() * pow2(d.dots_spec() as nat),
            d.den_spec() >= 1,
            pow2(d.dots_spec() as nat) >= 1,
    ;
    crate::math::fraction::lemma_sign_of_mul(f.num(), f.den());
    assert(abs(f.num()) == f.num() && abs(f.den()) == f.den());
    assert(f.num() * 128 >= f.den()) by (nonlinear_arith)
        requires
            f.num() == pow2((d.dots_spec() + 1) as nat) - 1,
            pow2((d.dots_spec() + 1) as nat) == 2 * pow2(d.dots_spec() as nat),
            f.den() == d.den_spec() * pow2(d.dots_spec() as nat),
            d.den_spec() <= 128,
            pow2(d.dots_spec() as nat) >= 1,
    ;
    assert(is_duration_of(f, d));
    let c = choose|x: Duration| is_duration_of(f, x);
    lemma_duration_rep_unique(f, c, d);
}

impl Duration {
    /// The power-of-two base of the duration.
    pub closed spec fn den_spec(self) -> int {
        self.denominator as int
    }

    /// How many dots the duration carries.
    pub closed spec fn dots_spec(self) -> int {
        self.dots as int
    }

    /// A duration's denominator is a power of two and it has at most
    /// four dots.
    pub open spec fn wf(self) -> bool {
        is_pow2(self.den_spec()) && self.dots_spec() <= 4
    }

    /// Two durations with the same denominator and dot count are the same
    /// value.
    pub proof fn lemma_ext_equal(a: Duration, b: Duration)
        requires
            a.den_spec() == b.den_spec(),
            a.dots_spec() == b.dots_spec(),
        ensures
            a == b,
    {
    }

    /// An undotted duration; the denominator must be a power of two.
    pub fn new(denominator: u16) -> (r: Duration)
        requires
            is_pow2(denominator as int),
        ensures
            r.den_spec() == denominator as int,
            r.dots_spec() == 0,
            r.wf(),
    {
        Duration { denominator, dots: 0 }
    }

    /// A dotted duration; the denominator must be a power of two and there
    /// can be at most four dots.
    pub fn new_with_dots(denominator: u16, dots: u8) -> (r: Duration)
        requires
            is_pow2(denominator as int),
            dots <= 4,
        ensures
            r.den_spec() == denominator as int,
            r.dots_spec() == dots as int,
            r.wf(),
    {
        Duration { denominator, dots }
    }

    /// `new`, with a denominator that is not a power of two rejected instead
    /// of excluded.
    pub fn try_new(denominator: u16) -> (r: Option<Duration>)
        ensures
            r is Some <==> is_pow2(denominator as int),
            r matches Some(d) ==> d.den_spec() == denominator as int && d.dots_spec() == 0
                && d.wf(),
    {
        if crate::math::is_power_of_2(denominator as u32) {
            Some(Duration { denominator, dots: 0 })
        } else {
            None
        }
    }

    /// `new_with_dots`, with invalid arguments rejected instead of excluded.
    pub fn try_new_with_dots(denominator: u16, dots: u8) -> (r: Option<Duration>)
        ensures
            r is Some <==> is_pow2(denominator as int) && dots <= 4,
            r matches Some(d) ==> d.den_spec() == denominator as int && d.dots_spec() == dots as int
                && d.wf(),
    {
        if crate::math::is_power_of_2(denominator as u32) && dots <= 4 {
            Some(Duration { denominator, dots })
        } else {
            None
        }
    }

    /// Convert to the exact fraction
    /// `1/denominator + 1/(2*denominator) + ... `, one summand per dot.
    /// The result is the already-irreducible fraction
    /// `(2^(dots+1) - 1) / (denominator * 2^dots)`.
    pub fn to_fraction(&self) -> (r: Fraction)
        requires
            self.wf(),
        ensures
            r.num() == dur_num(*self),
            r.den() == dur_den(*self),
            r.wf(),
            r.den() > 0,
    {
        proof {
            lemma2_to64();
            lemma_is_pow2_pos(self.den_spec());
        }
        let mut num: i32 = 1;
        let mut den: i32 = self.denominator as i32;
        let mut i: u8 = 0;
        while i < self.dots
            invariant
                self.wf(),
                0 <= i <= self.dots_spec(),
                num as int == pow2((i + 1) as nat) - 1,
                den as int == self.den_spec() * pow2(i as nat),
                1 <= num <= 31,
                1 <= den <= 0x10_0000,
            decreases self.dots_spec() - i,
        {
            proof {
                lemma2_to64();
                lemma_pow2_adds((i + 1) as nat, 1);
                lemma_pow2_adds(i as nat, 1);
                assert(pow2((i + 1) as nat) <= 16 && pow2((i + 1) as nat) >= 1) by {
                    lemma2_to64();
                    if i + 1 <= 3 {
                        lemma_pow2_strictly_increases((i + 1) as nat, 4);
                    }
                    lemma_pow2_pos((i + 1) as nat);
                }
                assert(self.den_spec() * pow2((i + 1) as nat) == 2 * (self.den_spec() * pow2(
                    i as nat,
                ))) by (nonlinear_arith)
                    requires
                        pow2((i + 1) as nat) == 2 * pow2(i as nat),
                ;
                assert(self.den_spec() * pow2((i + 1) as nat) <= 0x10_0000 && self.den_spec()
                    * pow2((i + 1) as nat) >= 1) by (nonlinear_arith)
                    requires
                        1 <= self.den_spec() <= 0x1_0000,
                        1 <= pow2((i + 1) as nat) <= 16,
                ;
            }
            num = 2 * num + 1;
            den = 2 * den;
            i = i + 1;
        }
        Fraction::new(num, den)
    }

    /// Greedy decomposition of a fraction into a dotted power-of-two
    /// duration. The sign is checked first; then the largest base fraction
    /// `1/d` with `d` a power of two at most 128 is subtracted; then up to
    /// four dots, each worth half the previous increment, consume the
    /// remainder. The conversion succeeds exactly when nothing remains,
    /// and each error says why it failed.
    pub fn try_from(fraction: Fraction) -> (r: Result<Duration, DurationError>)
        requires
            fraction.wf(),
        ensures
            r == parse_duration(fraction),
    {
        let s = fraction.signum();
        if s <= 0 {
            return Err(DurationError::NotPositive);
        }
        let nu = fraction.numerator();
        let de = fraction.denominator();
        proof {
            crate::math::fraction::lemma_sign_of_mul(fraction.num(), fraction.den());
            assert(fraction.num() != 0 && fraction.den() != 0);
            lemma2_to64();
        }
        let a: u64 = (if nu < 0 {
            -(nu as i64)
        } else {
            nu as i64
        }) as u64;
        let b: u64 = (if de < 0 {
            -(de as i64)
        } else {
            de as i64
        }) as u64;
        proof {
            assert(a as int == abs(fraction.num()) && b as int == abs(fraction.den()));
        }
        let mut d: u64 = 1;
        let ghost mut j: nat = 0;
        let mut found = false;
        loop
            invariant_except_break
                !found,
                d == pow2(j),
                j <= 8,
                1 <= d <= 256,
                1 <= a <= 0x8000_0000,
                1 <= b <= 0x8000_0000,
                forall|k: nat| k < j ==> b > a * #[trigger] pow2(k),
            ensures
                1 <= a <= 0x8000_0000,
                1 <= b <= 0x8000_0000,
                found ==> d == pow2(j) && j <= 7 && b <= a * d && (forall|k: nat|
                    k < j ==> b > a * #[trigger] pow2(k)),
                !found ==> (forall|k: nat| k <= 7 ==> b > a * #[trigger] pow2(k)),
            decreases 300 - d,
        {
            if d > 128 {
                proof {
                    lemma2_to64();
                    if j < 8 {
                        if j < 7 {
                            lemma_pow2_strictly_increases(j, 7);
                        }
                        assert(pow2(j) <= 128);
                        assert(false);
                    }
                }
                break;
            }
            proof {
                assert(a * d <= 0x8000_0000 * 128) by (nonlinear_arith)
                    requires
                        1 <= a <= 0x8000_0000,
                        1 <= d <= 128,
                ;
                lemma2_to64();
                if j > 7 {
                    lemma_pow2_strictly_increases(7, j);
                    assert(false);
                }
            }
            let prod = a * d;
            if b <= prod {
                found = true;
                break;
            }
            proof {
                lemma_pow2_adds(j, 1);
                j = j + 1;
            }
            d = d * 2;
        }
        if !found {
            proof {
                lemma2_to64();
                assert(b > a * pow2(7));
            }
            return Err(DurationError::DenominatorTooLarge);
        }
        proof {
            lemma2_to64();
            assert(a * d <= a * 128) by (nonlinear_arith)
                requires
                    1 <= a,
                    d <= 128,
            ;
            assert(a * 128 >= b);
        }
        let ad = a * d;
        proof {
            assert(ad * 16 <= 0x8000_0000 * 128 * 16 && (ad - b) * 16 == ad * 16 - b * 16)
                by (nonlinear_arith)
                requires
                    ad <= 0x8000_0000 * 128,
                    1 <= b <= ad,
            ;
        }
        let mut rem: u64 = (ad - b) * 16;
        let mut half: u64 = b * 8;
        let mut dots: u8 = 0;
        proof {
            lemma2_to64();
        }
        while dots < 4 && rem >= half
            invariant
                dots <= 4,
                1 <= a <= 0x8000_0000,
                1 <= b <= 0x8000_0000,
                d == pow2(j),
                j <= 7,
                1 <= d <= 128,
                b <= a * d,
                ad == a * d,
                ad <= 0x8000_0000 * 128,
                forall|k: nat| k < j ==> b > a * #[trigger] pow2(k),
                dots < 4 ==> half == b * pow2((3 - dots) as nat),
                rem + b * (32 - pow2((4 - dots) as nat)) == ad * 16,
                forall|t: int|
                    0 <= t < dots ==> ad * 16 != b * (32 - #[trigger] pow2((4 - t) as nat)),
            decreases 4 - dots,
        {
            proof {
                lemma2_to64();
                lemma_pow2_adds((3 - dots) as nat, 1);
                lemma_pow2_pos((3 - dots) as nat);
                if dots < 3 {
                    lemma_pow2_adds((2 - dots) as nat, 1);
                    assert(half == 2 * (b * pow2((2 - dots) as nat))) by (nonlinear_arith)
                        requires
                            half == b * pow2((3 - dots) as nat),
                            pow2((3 - dots) as nat) == pow2((2 - dots) as nat) * 2,
                    ;
                    lemma_div_multiples_vanish(b * pow2((2 - dots) as nat) as int, 2);
                }
                assert(half >= b) by (nonlinear_arith)
                    requires
                        half == b * pow2((3 - dots) as nat),
                        pow2((3 - dots) as nat) >= 1,
                        b >= 1,
                ;
                assert(rem - half + b * (32 - pow2((3 - dots) as nat)) == ad * 16)
                    by (nonlinear_arith)
                    requires
                        rem + b * (32 - pow2((4 - dots) as nat)) == ad * 16,
                        half == b * pow2((3 - dots) as nat),
                        pow2((4 - dots) as nat) == pow2((3 - dots) as nat) * 2,
                ;
                assert(ad * 16 != b * (32 - pow2((4 - dots) as nat)));
            }
            rem = rem - half;
            dots = dots + 1;
            half = half / 2;
        }
        if rem != 0 {
            proof {
                lemma_no_duration_fits(fraction, a as int, b as int, d as int, j, dots as int,
                    rem as int);
            }
            return Err(DurationError::NotDurational);
        }
        let duration = Duration { denominator: d as u16, dots };
        proof {
            lemma_pow_positive(2, j);
            assert(vstd::arithmetic::power::pow(2, j) == pow2(j));
            assert(vstd::arithmetic::power2::is_pow2_exists(d as int));
            is_pow2_equiv(d as int);
            assert(duration.wf());
            lemma_scaled_eq(a as int, b as int, d as int, dots as int);
            lemma_dur_num_odd(dots as nat);
            assert(a * d * pow2(dots as nat) == b * (pow2((dots + 1) as nat) - 1));
            assert(a * dur_den(duration) == dur_num(duration) * b) by (nonlinear_arith)
                requires
                    (a as int) * (d as int) * pow2(dots as nat) == b * (pow2((dots + 1) as nat)
                        - 1),
                    dur_den(duration) == (d as int) * pow2(dots as nat),
                    dur_num(duration) == pow2((dots + 1) as nat) - 1,
            ;
            lemma_signed_to_abs(fraction.num(), fraction.den(), dur_den(duration), dur_num(
                duration,
            ));
            assert(is_duration_of(fraction, duration));
            let c = choose|x: Duration| is_duration_of(fraction, x);
            lemma_duration_rep_unique(fraction, c, duration);
        }
        Ok(duration)
    }

    /// The power-of-two base of the duration.
    pub fn denominator(&self) -> (r: u16)
        ensures
            r as int == self.den_spec(),
    {
        self.denominator
    }

    /// How many dots the duration carries.
    pub fn dots(&self) -> (r: u8)
        ensures
            r as int == self.dots_spec(),
    {
        self.dots
    }
}

} // verus!
