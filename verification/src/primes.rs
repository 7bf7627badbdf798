//! Prime numbers and what a prime dividing a product implies.

use crate::gcd::{
    divides, gcd_of, lemma_coprime_cancel, lemma_divides_quotient, lemma_divisor_bound,
    lemma_gcd_divides_both, lemma_multiple_divides,
};
use vstd::arithmetic::div_mod::*;
use vstd::prelude::*;

verus! {

/// `p` is prime: at least 2, with no divisor strictly between 1 and itself.
pub open spec fn is_prime(p: int) -> bool {
    p >= 2 && forall|d: int| 1 < d < p ==> !#[trigger] divides(d, p)
}

/// A prime has no common divisor but 1 with a number it does not divide.
pub proof fn lemma_prime_coprime(a: int, p: int)
    requires
        is_prime(p),
        a >= 0,
        !divides(p, a),
    ensures
        gcd_of(a, p) == 1,
{
    let g = gcd_of(a, p);
    lemma_gcd_divides_both(a, p);
    lemma_divisor_bound(g, p);
    // g divides p, so it is 1 or p, and p does not divide a
    assert(divides(g, p));
}

/// Euclid's lemma: a prime that divides a product divides one of the
/// factors.
pub proof fn lemma_prime_divides_product(p: int, a: int, b: int)
    requires
        is_prime(p),
        a >= 0,
        divides(p, a * b),
    ensures
        divides(p, a) || divides(p, b),
{
    if !divides(p, a) {
        lemma_prime_coprime(a, p);
        lemma_coprime_cancel(a, p, b);
    }
}

/// A prime divides no positive number below it.
pub proof fn lemma_prime_exceeds(p: int, k: int)
    requires
        is_prime(p),
        0 < k < p,
    ensures
        !divides(p, k),
{
    lemma_small_mod(k as nat, p as nat);
}

/// What two different primes both divide, their product divides.
pub proof fn lemma_two_primes_divide(p: int, q: int, n: int)
    requires
        is_prime(p),
        is_prime(q),
        p != q,
        divides(p, n),
        divides(q, n),
    ensures
        divides(p * q, n),
{
    // q does not divide p: it is neither 1 nor p
    if q < p {
        assert(!divides(q, p));
    } else {
        lemma_prime_exceeds(q, p);
    }
    lemma_prime_coprime(p, q);
    lemma_divides_quotient(p, n);
    let u = n / p;
    lemma_coprime_cancel(p, q, u);
    lemma_divides_quotient(q, u);
    let v = u / q;
    assert(n == (p * q) * v && p * q > 0) by (nonlinear_arith)
        requires
            n == p * u,
            u == q * v,
            p >= 2,
            q >= 2,
    ;
    lemma_multiple_divides(p * q, v);
}

} // verus!
