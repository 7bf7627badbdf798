//! Modular inverses by the extended Euclidean algorithm.

use crate::gcd::{
    divides, gcd_of, lemma_bezout, lemma_divides_combination, lemma_divides_quotient,
    lemma_divisor_bound, lemma_gcd_divides_both, lemma_gcd_symmetric, lemma_multiple_divides,
};
use vstd::arithmetic::div_mod::*;
use vstd::prelude::*;

verus! {

/// `x` is the inverse of `a` modulo `m`, reduced into `0 <= x < m`.
///
/// Modulo 1 every product leaves the remainder 0, which is why the right
/// side is the remainder of 1: the inverse modulo 1 is 0.
pub open spec fn is_mod_inverse(x: int, a: int, m: int) -> bool {
    0 <= x < m && (a * x) % m == 1int % m
}

/// The inverse of `a` modulo `m`, where there is one.
pub open spec fn mod_inverse_of(a: int, m: int) -> int {
    choose|x: int| is_mod_inverse(x, a, m)
}

/// A number has at most one reduced inverse modulo `m`.
pub proof fn lemma_mod_inverse_unique(x: int, y: int, a: int, m: int)
    requires
        is_mod_inverse(x, a, m),
        is_mod_inverse(y, a, m),
    ensures
        x == y,
{
    // x = x * (a * y) = y * (a * x) = y, all modulo m
    lemma_mul_mod_noop_right(x, a * y, m);
    lemma_mul_mod_noop_right(x, 1, m);
    lemma_mul_mod_noop_right(y, a * x, m);
    lemma_mul_mod_noop_right(y, 1, m);
    assert(x * (a * y) == y * (a * x)) by (nonlinear_arith);
    lemma_small_mod(x as nat, m as nat);
    lemma_small_mod(y as nat, m as nat);
}

/// A number with no common divisor with `m` but 1 has an inverse modulo `m`.
pub proof fn lemma_mod_inverse_exists(a: int, m: int)
    requires
        a >= 0,
        m > 0,
        gcd_of(a, m) == 1,
    ensures
        is_mod_inverse(mod_inverse_of(a, m), a, m),
{
    let (x, y) = lemma_bezout(a, m);
    let reduced = x % m;
    lemma_mul_mod_noop_right(a, x, m);
    assert(a * x == m * (-y) + 1) by (nonlinear_arith)
        requires
            a * x + m * y == 1,
    ;
    lemma_mod_multiples_vanish(-y, 1, m);
    assert(is_mod_inverse(reduced, a, m));
}

/// A number that has an inverse modulo `m` has no common divisor with `m`
/// but 1.
pub proof fn lemma_mod_inverse_needs_coprime(x: int, a: int, m: int)
    requires
        a >= 0,
        is_mod_inverse(x, a, m),
    ensures
        gcd_of(a, m) == 1,
{
    let g = gcd_of(a, m);
    lemma_gcd_divides_both(a, m);
    // m divides a * x less the remainder of 1, and g divides both a and m
    lemma_mod_equivalence(a * x, 1int % m, m);
    lemma_mod_twice(1, m);
    let k = (a * x - 1int % m) / m;
    lemma_divides_quotient(m, a * x - 1int % m);
    lemma_divides_combination(g, a, x, m, -k);
    assert(a * x + m * (-k) == 1int % m) by (nonlinear_arith)
        requires
            a * x - 1int % m == m * k,
    ;
    if m == 1 {
        lemma_divisor_bound(g, m);
    } else {
        lemma_small_mod(1, m as nat);
        lemma_divisor_bound(g, 1);
    }
}

/// For a modulus above 1, a number with no common divisor with it but 1,
/// multiplied by its inverse, leaves the remainder 1.
pub proof fn lemma_inverse_product_is_one(a: int, m: int)
    requires
        a >= 0,
        m > 1,
        gcd_of(a, m) == 1,
    ensures
        (a * mod_inverse_of(a, m)) % m == 1,
{
    lemma_mod_inverse_exists(a, m);
    lemma_small_mod(1, m as nat);
}

/// What the extended Euclidean algorithm keeps true of its coefficients and
/// remainders: the two coefficients have opposite signs, and crosswise with
/// the remainders they add up to the modulus.
spec fn balanced(m: int, t: int, newt: int, r: int, newr: int) -> bool {
    ||| t <= 0 && newt >= 0 && newt * r - t * newr == m
    ||| t >= 0 && newt <= 0 && t * newr - newt * r == m
}

/// One round of the extended Euclidean algorithm keeps its invariant, and
/// its products stay within the modulus.
proof fn lemma_inverse_step(a: int, m: int, t: int, newt: int, r: int, newr: int)
    requires
        m > 0,
        r > 0,
        newr > 0,
        divides(m, t * a - r),
        divides(m, newt * a - newr),
        balanced(m, t, newt, r, newr),
    ensures
        ({
            let q = r / newr;
            &&& 0 <= q
            &&& r - q * newr == r % newr
            &&& 0 <= q * newr <= r
            &&& -m <= newt <= m
            &&& -m <= q * newt <= m
            &&& -m <= t - q * newt <= m
            &&& divides(m, (t - q * newt) * a - (r - q * newr))
            &&& balanced(m, newt, t - q * newt, newr, r - q * newr)
            &&& gcd_of(newr, r - q * newr) == gcd_of(r, newr)
        }),
{
    let q = r / newr;
    let rest = r % newr;
    lemma_fundamental_div_mod(r, newr);
    lemma_div_pos_is_pos(r, newr);
    assert(q * newr == newr * q) by (nonlinear_arith);
    assert(r - q * newr == rest);
    lemma_divides_combination(m, t * a - r, 1, newt * a - newr, -q);
    assert((t * a - r) * 1 + (newt * a - newr) * (-q) == (t - q * newt) * a - (r - q * newr))
        by (nonlinear_arith);
    if t <= 0 && newt >= 0 && newt * r - t * newr == m {
        assert(-m <= newt <= m && 0 <= q * newt <= m && -m <= t - q * newt <= 0 && newt * (r - q
            * newr) - (t - q * newt) * newr == m) by (nonlinear_arith)
            requires
                t <= 0,
                newt >= 0,
                newt * r - t * newr == m,
                r > 0,
                newr > 0,
                q >= 0,
                0 <= r - q * newr,
        ;
    } else {
        assert(-m <= newt <= m && -m <= q * newt <= 0 && 0 <= t - q * newt <= m && (t - q * newt)
            * newr - newt * (r - q * newr) == m) by (nonlinear_arith)
            requires
                t >= 0,
                newt <= 0,
                t * newr - newt * r == m,
                r > 0,
                newr > 0,
                q >= 0,
                0 <= r - q * newr,
        ;
    }
}

/// Computes the inverse of `a` modulo `m` by the extended Euclidean
/// algorithm, reduced into `0..m`. There is none when `m` is 0, or when `a`
/// and `m` have a common divisor other than 1.
pub fn mod_inverse(a: u64, m: u64) -> (inv: Option<u64>)
    ensures
        inv is Some <==> m > 0 && gcd_of(a as int, m as int) == 1,
        inv is Some ==> is_mod_inverse(inv.unwrap() as int, a as int, m as int),
        inv is Some ==> inv.unwrap() == mod_inverse_of(a as int, m as int),
        inv is Some && m > 1 ==> (a * inv.unwrap()) % (m as int) == 1,
{
    if m == 0 {
        return None;
    }
    // Signed and wide: the coefficients go negative, and every u64 fits.
    let value: i128 = a as i128;
    let modulus: i128 = m as i128;

    let mut t: i128 = 0;
    let mut newt: i128 = 1;
    let mut r: i128 = modulus;
    let mut newr: i128 = value;

    proof {
        lemma_multiple_divides(modulus as int, -1);
        lemma_mod_self_0(modulus as int);
        assert(0 * value - modulus == modulus * (-1)) by (nonlinear_arith);
        assert(1 * value - value == 0) by (nonlinear_arith);
        assert(1 * modulus - 0 * value == modulus) by (nonlinear_arith);
        assert((0 as int) % (modulus as int) == 0);
    }

    while newr != 0
        invariant
            value == a,
            modulus == m,
            modulus > 0,
            r > 0,
            newr >= 0,
            -modulus <= t <= modulus,
            gcd_of(r as int, newr as int) == gcd_of(modulus as int, value as int),
            divides(modulus as int, t * value - r),
            divides(modulus as int, newt * value - newr),
            balanced(modulus as int, t as int, newt as int, r as int, newr as int),
        decreases newr,
    {
        proof {
            lemma_inverse_step(
                value as int,
                modulus as int,
                t as int,
                newt as int,
                r as int,
                newr as int,
            );
        }
        let quotient: i128 = r / newr;

        let tmp: i128 = t;
        t = newt;
        newt = tmp - quotient * newt;

        let tmp: i128 = r;
        r = newr;
        newr = tmp - quotient * newr;
    }

    proof {
        lemma_gcd_symmetric(a as int, m as int);
    }
    // The last nonzero remainder is the greatest common divisor.
    if r > 1 {
        return None;
    }
    // Bring the coefficient into 0..modulus. It can equal the modulus only
    // when the modulus is 1.
    let ghost found: int = t as int;
    if t < 0 {
        t += modulus;
    }
    if t >= modulus {
        t -= modulus;
    }
    proof {
        let k: int = if found < 0 {
            1
        } else if found >= modulus {
            -1
        } else {
            0
        };
        assert(t == found + k * modulus) by (nonlinear_arith)
            requires
                t == found + modulus && k == 1 || t == found - modulus && k == -1 || t == found
                    && k == 0,
        ;
        lemma_multiple_divides(modulus as int, k * value);
        lemma_divides_combination(
            modulus as int,
            found * value - 1,
            1,
            modulus * (k * value),
            1,
        );
        assert((found * value - 1) * 1 + (modulus * (k * value)) * 1 == value * t - 1)
            by (nonlinear_arith)
            requires
                t == found + k * modulus,
        ;
        lemma_mod_equivalence(value * t, 1, modulus as int);
        assert(is_mod_inverse(t as int, a as int, m as int));
        lemma_mod_inverse_exists(a as int, m as int);
        lemma_mod_inverse_unique(t as int, mod_inverse_of(a as int, m as int), a as int, m as int);
        if m > 1 {
            lemma_small_mod(1, m as nat);
        }
    }
    Some(t as u64)
}

} // verus!
