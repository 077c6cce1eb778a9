//! The greatest common divisor as a specification function, and the
//! divisibility facts about it that the `Fraction` and `Duration` contracts
//! rest on: the gcd divides both arguments, every common divisor divides the
//! gcd, the gcd scales with a common factor, Euclid's lemma, reducing by the
//! gcd yields coprime parts, and the uniqueness of the reduced form.

use vstd::arithmetic::div_mod::{
    lemma_fundamental_div_mod, lemma_fundamental_div_mod_converse, lemma_mod_self_0,
    lemma_small_mod,
};
use vstd::prelude::*;

verus! {

/// Greatest common divisor by Euclid's algorithm; `gcd_nat(a, 0) == a`,
/// so `gcd_nat(0, 0) == 0`.
pub open spec fn gcd_nat(a: nat, b: nat) -> nat
    decreases b,
{
    if b == 0 {
        a
    } else {
        gcd_nat(b, a % b)
    }
}

/// `d` divides `x`.
pub open spec fn divides(d: nat, x: nat) -> bool {
    x % d == 0
}

/// The gcd is symmetric in its arguments.
pub proof fn lemma_gcd_comm(a: nat, b: nat)
    ensures
        gcd_nat(a, b) == gcd_nat(b, a),
{
    if a == 0 && b == 0 {
    } else if b == 0 {
        assert(gcd_nat(b, a) == gcd_nat(a, b % a));
        assert(b % a == 0);
    } else if a == 0 {
        assert(gcd_nat(a, b) == gcd_nat(b, a % b));
        assert(a % b == 0);
    } else if a == b {
        assert(a % b == 0);
        assert(b % a == 0);
    } else if a < b {
        lemma_small_mod(a, b);
        assert(gcd_nat(a, b) == gcd_nat(b, a % b));
    } else {
        lemma_small_mod(b, a);
        assert(gcd_nat(b, a) == gcd_nat(a, b % a));
    }
}

/// The gcd of two numbers, not both zero, is positive and divides both.
pub proof fn lemma_gcd_divides(a: nat, b: nat)
    requires
        a != 0 || b != 0,
    ensures
        gcd_nat(a, b) > 0,
        divides(gcd_nat(a, b), a),
        divides(gcd_nat(a, b), b),
    decreases b,
{
    let g = gcd_nat(a, b);
    if b == 0 {
        lemma_mod_self_0(a as int);
        assert(0int % (a as int) == 0) by {
            lemma_small_mod(0, a);
        }
    } else {
        lemma_gcd_divides(b, a % b);
        assert(gcd_nat(b, a % b) == g);
        // g divides b and a % b; a == (a / b) * b + a % b, so g divides a.
        lemma_fundamental_div_mod(a as int, b as int);
        let q = a as int / b as int;
        lemma_mod_of_linear_combination(b as int, q, (a % b) as int, g as int);
    }
}

/// If `c` divides `b` and `r`, then `c` divides `b * q + r`.
proof fn lemma_mod_of_linear_combination(b: int, q: int, r: int, c: int)
    requires
        c > 0,
        b % c == 0,
        r % c == 0,
    ensures
        (b * q + r) % c == 0,
{
    let sb = b / c;
    let sr = r / c;
    lemma_fundamental_div_mod(b, c);
    lemma_fundamental_div_mod(r, c);
    assert(b == c * sb);
    assert(r == c * sr);
    assert(b * q + r == (sb * q + sr) * c + 0) by (nonlinear_arith)
        requires
            b == c * sb,
            r == c * sr,
    ;
    lemma_fundamental_div_mod_converse(b * q + r, c, sb * q + sr, 0);
}

/// Every common divisor of `a` and `b` divides their gcd.
pub proof fn lemma_gcd_greatest(a: nat, b: nat, c: nat)
    requires
        c > 0,
        divides(c, a),
        divides(c, b),
    ensures
        divides(c, gcd_nat(a, b)),
    decreases b,
{
    if b == 0 {
    } else {
        // c divides a % b == a - (a / b) * b.
        lemma_fundamental_div_mod(a as int, b as int);
        let q = a as int / b as int;
        assert(a % b == b * (-q) + a) by (nonlinear_arith)
            requires
                a == b * q + a % b,
        ;
        lemma_mod_of_linear_combination(b as int, -q, a as int, c as int);
        assert((b * (-q) + a) % (c as int) == 0);
        lemma_gcd_greatest(b, a % b, c);
    }
}

/// The gcd scales with a common positive factor:
/// `gcd(k * a, k * b) == k * gcd(a, b)`.
pub proof fn lemma_gcd_scale(a: nat, b: nat, k: nat)
    requires
        k > 0,
    ensures
        gcd_nat(k * a, k * b) == k * gcd_nat(a, b),
    decreases b,
{
    if b == 0 {
        assert(k * b == 0);
    } else {
        let q = a as int / b as int;
        let r = a % b;
        lemma_fundamental_div_mod(a as int, b as int);
        assert(k * b > 0) by (nonlinear_arith)
            requires
                k > 0,
                b > 0,
        ;
        assert(k * a == q * (k * b) as int + (k * r) as int && 0 <= k * r < k * b)
            by (nonlinear_arith)
            requires
                a == b * q + r,
                0 <= r < b,
                k > 0,
        ;
        lemma_fundamental_div_mod_converse(
            (k * a) as int,
            (k * b) as int,
            q,
            (k * r) as int,
        );
        assert((k * a) % (k * b) == k * r);
        lemma_gcd_scale(b, r, k);
        assert(gcd_nat(k * a, k * b) == gcd_nat(k * b, k * r));
    }
}

/// Euclid's lemma, gcd form: if `gcd(c, d) == 1` and `d` divides `c * e`,
/// then `d` divides `e`.
pub proof fn lemma_gcd_euclid(c: nat, d: nat, e: nat)
    requires
        d > 0,
        gcd_nat(c, d) == 1,
        divides(d, c * e),
    ensures
        divides(d, e),
{
    if e == 0 {
        lemma_small_mod(0, d);
    } else {
        lemma_gcd_scale(c, d, e);
        assert(gcd_nat(e * c, e * d) == e * gcd_nat(c, d));
        assert(e * c == c * e && e * d == d * e) by (nonlinear_arith);
        assert(e * gcd_nat(c, d) == e) by (nonlinear_arith)
            requires
                gcd_nat(c, d) == 1,
        ;
        assert(divides(d, e * d)) by {
            assert(e * d == d * e + 0) by (nonlinear_arith);
            lemma_fundamental_div_mod_converse((e * d) as int, d as int, e as int, 0);
        }
        lemma_gcd_greatest(e * c, e * d, d);
    }
}

/// Dividing two numbers, not both zero, by their gcd leaves coprime parts.
pub proof fn lemma_gcd_coprime_reduce(a: nat, b: nat)
    requires
        a != 0 || b != 0,
    ensures
        gcd_nat(a / gcd_nat(a, b), b / gcd_nat(a, b)) == 1,
{
    let g = gcd_nat(a, b);
    lemma_gcd_divides(a, b);
    let a1 = a / g;
    let b1 = b / g;
    lemma_fundamental_div_mod(a as int, g as int);
    lemma_fundamental_div_mod(b as int, g as int);
    assert(a == g * a1);
    assert(b == g * b1);
    assert(a1 != 0 || b1 != 0) by (nonlinear_arith)
        requires
            a == g * a1,
            b == g * b1,
            a != 0 || b != 0,
    ;
    let c = gcd_nat(a1, b1);
    lemma_gcd_divides(a1, b1);
    lemma_gcd_scale(a1, b1, g);
    assert(gcd_nat(g * a1, g * b1) == g * c);
    assert(g == g * c);
    assert(c == 1) by (nonlinear_arith)
        requires
            g == g * c,
            g > 0,
    ;
}

/// The gcd of two numbers, not both zero, is bounded by each nonzero argument.
pub proof fn lemma_gcd_le(a: nat, b: nat)
    requires
        a != 0 || b != 0,
    ensures
        a != 0 ==> gcd_nat(a, b) <= a,
        b != 0 ==> gcd_nat(a, b) <= b,
{
    let g = gcd_nat(a, b);
    lemma_gcd_divides(a, b);
    if a != 0 {
        lemma_fundamental_div_mod(a as int, g as int);
        assert(g <= a) by (nonlinear_arith)
            requires
                a == g * (a as int / g as int) + 0,
                g > 0,
                a > 0,
        ;
    }
    if b != 0 {
        lemma_fundamental_div_mod(b as int, g as int);
        assert(g <= b) by (nonlinear_arith)
            requires
                b == g * (b as int / g as int) + 0,
                g > 0,
                b > 0,
        ;
    }
}

} // verus!
