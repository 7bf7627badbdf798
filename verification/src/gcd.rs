//! Greatest common divisors: Euclid's algorithm, what it computes, and the
//! consequences of two numbers having no common divisor but 1.

use vstd::arithmetic::div_mod::*;
use vstd::prelude::*;

verus! {

/// `d` is a positive divisor of `n`.
pub open spec fn divides(d: int, n: int) -> bool {
    d > 0 && n % d == 0
}

/// `d` divides both `a` and `b`.
pub open spec fn is_common_divisor(d: int, a: int, b: int) -> bool {
    divides(d, a) && divides(d, b)
}

/// The greatest common divisor of two non-negative integers, by Euclid's
/// recurrence. `gcd_of(0, 0)` is 0.
pub open spec fn gcd_of(a: int, b: int) -> int
    decreases b,
{
    if b <= 0 {
        a
    } else {
        gcd_of(b, a % b)
    }
}

/// A multiple of `d` has `d` as a divisor.
pub proof fn lemma_multiple_divides(d: int, k: int)
    requires
        d > 0,
    ensures
        divides(d, d * k),
        divides(d, k * d),
{
    lemma_mod_multiples_basic(k, d);
    assert(d * k == k * d) by (nonlinear_arith);
}

/// What `d` divides is `d` times the quotient.
pub proof fn lemma_divides_quotient(d: int, n: int)
    requires
        divides(d, n),
    ensures
        n == d * (n / d),
{
    lemma_fundamental_div_mod(n, d);
}

/// A divisor of `x` and of `y` divides every combination `x * u + y * v`.
pub proof fn lemma_divides_combination(d: int, x: int, u: int, y: int, v: int)
    requires
        divides(d, x),
        divides(d, y),
    ensures
        divides(d, x * u + y * v),
{
    lemma_divides_quotient(d, x);
    lemma_divides_quotient(d, y);
    let qx = x / d;
    let qy = y / d;
    assert(x * u + y * v == d * (qx * u + qy * v)) by (nonlinear_arith)
        requires
            x == d * qx,
            y == d * qy,
    ;
    lemma_multiple_divides(d, qx * u + qy * v);
}

/// A positive divisor of a positive number is no greater than it.
pub proof fn lemma_divisor_bound(d: int, n: int)
    requires
        divides(d, n),
        n > 0,
    ensures
        d <= n,
{
    if d > n {
        lemma_small_mod(n as nat, d as nat);
    }
}

/// The order of the arguments does not matter.
pub proof fn lemma_gcd_symmetric(a: int, b: int)
    requires
        a >= 0,
        b >= 0,
    ensures
        gcd_of(a, b) == gcd_of(b, a),
{
    if a < b {
        lemma_small_mod(a as nat, b as nat);
        assert(gcd_of(a, b) == gcd_of(b, a % b));
    } else if b < a {
        lemma_small_mod(b as nat, a as nat);
        assert(gcd_of(b, a) == gcd_of(a, b % a));
    }
}

/// Unless both numbers are zero, `gcd_of` is positive and divides both.
pub proof fn lemma_gcd_divides_both(a: int, b: int)
    requires
        a >= 0,
        b >= 0,
        a > 0 || b > 0,
    ensures
        divides(gcd_of(a, b), a),
        divides(gcd_of(a, b), b),
    decreases b,
{
    if b == 0 {
        lemma_mod_self_0(a);
    } else {
        let g = gcd_of(b, a % b);
        lemma_gcd_divides_both(b, a % b);
        lemma_fundamental_div_mod(a, b);
        lemma_divides_combination(g, b, a / b, a % b, 1);
    }
}

/// Every common divisor of two numbers divides their `gcd_of`.
pub proof fn lemma_common_divisor_divides_gcd(d: int, a: int, b: int)
    requires
        a >= 0,
        b >= 0,
        divides(d, a),
        divides(d, b),
    ensures
        divides(d, gcd_of(a, b)),
    decreases b,
{
    if b > 0 {
        lemma_fundamental_div_mod(a, b);
        lemma_divides_combination(d, a, 1, b, -(a / b));
        assert(a * 1 + b * (-(a / b)) == a % b) by (nonlinear_arith)
            requires
                a == b * (a / b) + a % b,
        ;
        lemma_common_divisor_divides_gcd(d, b, a % b);
    }
}

/// `gcd_of` is the greatest common divisor: unless both numbers are zero it
/// is a common divisor, and every common divisor divides it and so is no
/// greater.
pub proof fn lemma_gcd_is_greatest(a: int, b: int)
    requires
        a >= 0,
        b >= 0,
        a > 0 || b > 0,
    ensures
        is_common_divisor(gcd_of(a, b), a, b),
        forall|d: int| #[trigger]
            is_common_divisor(d, a, b) ==> divides(d, gcd_of(a, b)) && d <= gcd_of(a, b),
{
    lemma_gcd_divides_both(a, b);
    assert forall|d: int| #[trigger] is_common_divisor(d, a, b) implies divides(d, gcd_of(a, b))
        && d <= gcd_of(a, b) by {
        lemma_common_divisor_divides_gcd(d, a, b);
        lemma_divisor_bound(d, gcd_of(a, b));
    }
}

/// Bezout's identity: some combination of `a` and `b` is their `gcd_of`.
/// The coefficients are returned.
pub proof fn lemma_bezout(a: int, b: int) -> (c: (int, int))
    requires
        a >= 0,
        b >= 0,
    ensures
        a * c.0 + b * c.1 == gcd_of(a, b),
    decreases b,
{
    if b == 0 {
        (1, 0)
    } else {
        let (x, y) = lemma_bezout(b, a % b);
        lemma_fundamental_div_mod(a, b);
        let q = a / b;
        let r = a % b;
        assert(a * y + b * (x - q * y) == b * x + r * y) by (nonlinear_arith)
            requires
                a == b * q + r,
        ;
        (y, x - q * y)
    }
}

/// If `a` and `m` have no common divisor but 1 and `m` divides `a * k`,
/// then `m` divides `k`.
pub proof fn lemma_coprime_cancel(a: int, m: int, k: int)
    requires
        a >= 0,
        m > 0,
        gcd_of(a, m) == 1,
        divides(m, a * k),
    ensures
        divides(m, k),
{
    let (x, y) = lemma_bezout(a, m);
    lemma_multiple_divides(m, k);
    lemma_divides_combination(m, a * k, x, m * k, y);
    assert((a * k) * x + (m * k) * y == k) by (nonlinear_arith)
        requires
            a * x + m * y == 1,
    ;
}

/// Computes the greatest common divisor of `a` and `b` by Euclid's
/// algorithm. Of two zeros it is 0.
pub fn gcd(a: u64, b: u64) -> (g: u64)
    ensures
        g == gcd_of(a as int, b as int),
        a == 0 && b == 0 ==> g == 0,
        a > 0 || b > 0 ==> is_common_divisor(g as int, a as int, b as int),
        a > 0 || b > 0 ==> forall|d: int| #[trigger]
            is_common_divisor(d, a as int, b as int) ==> d <= g,
{
    proof {
        if a > 0 || b > 0 {
            lemma_gcd_is_greatest(a as int, b as int);
        }
    }
    let mut x: u64 = a;
    let mut y: u64 = b;
    while y != 0
        invariant
            gcd_of(x as int, y as int) == gcd_of(a as int, b as int),
        decreases y,
    {
        let rest: u64 = x % y;
        x = y;
        y = rest;
    }
    x
}

} // verus!
