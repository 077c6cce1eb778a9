//! Integer helpers: the greatest common divisor and the power-of-two test.

pub mod divisibility;
pub mod fraction;

use crate::math::divisibility::gcd_nat;
use vstd::arithmetic::power2::is_pow2;
use vstd::math::abs;
use vstd::prelude::*;

verus! {

/// Euclid's algorithm on the magnitudes of the two arguments.
pub(crate) fn gcd_u64(a: u64, b: u64) -> (g: u64)
    ensures
        g == gcd_nat(a as nat, b as nat),
{
    let mut x = a;
    let mut y = b;
    while x != 0 && y != 0
        invariant
            gcd_nat(x as nat, y as nat) == gcd_nat(a as nat, b as nat),
        decreases x + y,
    {
        if x > y {
            proof {
                divisibility::lemma_gcd_comm(x as nat, y as nat);
                assert(gcd_nat(x as nat, y as nat) == gcd_nat(y as nat, x as nat % y as nat));
                divisibility::lemma_gcd_comm(y as nat, (x % y) as nat);
            }
            x = x % y;
        } else {
            proof {
                divisibility::lemma_gcd_comm(y as nat, x as nat);
                assert(gcd_nat(y as nat, x as nat) == gcd_nat(x as nat, y as nat % x as nat));
            }
            y = y % x;
        }
    }
    proof {
        if x == 0 {
            divisibility::lemma_gcd_comm(x as nat, y as nat);
        }
    }
    if x > y {
        x
    } else {
        y
    }
}

/// Greatest common divisor of the absolute values of `a` and `b`;
/// `gcd(0, 0) == 0`, and the result is never negative.
pub fn gcd(a: i32, b: i32) -> (g: i32)
    requires
        a != i32::MIN,
        b != i32::MIN,
    ensures
        g == gcd_nat(abs(a as int), abs(b as int)),
{
    let aa: u64 = (if a < 0 {
        -a
    } else {
        a
    }) as u64;
    let bb: u64 = (if b < 0 {
        -b
    } else {
        b
    }) as u64;
    let g = gcd_u64(aa, bb);
    proof {
        if aa != 0 || bb != 0 {
            divisibility::lemma_gcd_le(aa as nat, bb as nat);
        }
    }
    g as i32
}

/// True exactly when `x` is a power of two; zero is not one.
pub fn is_power_of_2(x: u32) -> (r: bool)
    ensures
        r == is_pow2(x as int),
{
    proof {
        reveal(is_pow2);
    }
    if x == 0 {
        return false;
    }
    let mut y = x;
    while y % 2 == 0
        invariant
            y >= 1,
            is_pow2(y as int) == is_pow2(x as int),
        decreases y,
    {
        proof {
            reveal(is_pow2);
        }
        y = y / 2;
    }
    proof {
        reveal(is_pow2);
    }
    y == 1
}

} // verus!
