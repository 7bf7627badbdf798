//! Modular exponentiation by squaring.

use vstd::arithmetic::div_mod::*;
use vstd::arithmetic::power::*;
use vstd::prelude::*;

verus! {

/// One round of square-and-multiply: with the exponent halved and the base
/// squared, the accumulator times the remaining power leaves the same
/// remainder as before. An odd exponent first moves one factor of the base
/// into the accumulator.
proof fn lemma_square_and_multiply(z: int, b: int, e: nat, m: int)
    requires
        m > 0,
        e > 0,
    ensures
        e % 2 == 1 ==> (((z * b) % m) * pow((b * b) % m, e / 2)) % m == (z * pow(b, e)) % m,
        e % 2 == 0 ==> (z * pow((b * b) % m, e / 2)) % m == (z * pow(b, e)) % m,
{
    let half: nat = e / 2;
    let squares = pow(b * b, half);
    // pow(b * b, half) == pow(b, 2 * half)
    lemma_square_is_pow2(b);
    lemma_pow_multiplies(b, 2, half);
    // reducing the squared base does not change the remainder
    lemma_pow_mod_noop(b * b, half, m);
    if e % 2 == 1 {
        assert(e == 2 * half + 1);
        assert(pow(b, e) == b * pow(b, 2 * half)) by {
            reveal(pow);
        }
        let acc = z * b;
        lemma_mul_mod_noop_left(acc, pow((b * b) % m, half), m);
        lemma_mul_mod_noop_right(acc, pow((b * b) % m, half), m);
        lemma_mul_mod_noop_right(acc, squares, m);
        assert((z * b) * squares == z * (b * squares)) by (nonlinear_arith);
    } else {
        assert(e == 2 * half);
        lemma_mul_mod_noop_right(z, pow((b * b) % m, half), m);
        lemma_mul_mod_noop_right(z, squares, m);
    }
}

/// Computes `x` to the power `y` modulo `m` by squaring, with products
/// held in 128 bits so that none wraps, whatever the modulus.
pub fn modexp(x: u64, y: u64, m: u64) -> (z: u64)
    requires
        m != 0,
    ensures
        z == pow(x as int, y as nat) % (m as int),
        z < m,
        y == 0 && m > 1 ==> z == 1,
{
    let modulus: u128 = m as u128;
    let mut acc: u128 = 1 % modulus;
    let mut exponent: u128 = y as u128;
    let mut base: u128 = x as u128;

    proof {
        lemma_mul_mod_noop_left(1, pow(x as int, y as nat), m as int);
        assert(1 * pow(x as int, y as nat) == pow(x as int, y as nat)) by (nonlinear_arith);
    }

    while exponent > 0
        invariant
            modulus == m,
            modulus > 0,
            acc < modulus,
            base <= u64::MAX,
            (acc * pow(base as int, exponent as nat)) % (modulus as int) == pow(
                x as int,
                y as nat,
            ) % (m as int),
        decreases exponent,
    {
        proof {
            lemma_square_and_multiply(acc as int, base as int, exponent as nat, modulus as int);
            assert(acc * base <= 0xffff_ffff_ffff_ffff * 0xffff_ffff_ffff_ffff
                && base * base <= 0xffff_ffff_ffff_ffff * 0xffff_ffff_ffff_ffff)
                by (nonlinear_arith)
                requires
                    acc <= 0xffff_ffff_ffff_ffff,
                    base <= 0xffff_ffff_ffff_ffff,
            ;
        }
        if exponent % 2 == 1 {
            acc = (acc * base) % modulus;
        }
        exponent /= 2;
        base = (base * base) % modulus;
    }

    proof {
        lemma_pow0(base as int);
        lemma_small_mod(acc as nat, modulus as nat);
        if y == 0 && m > 1 {
            lemma_pow0(x as int);
            lemma_small_mod(1, m as nat);
        }
    }
    acc as u64
}

} // verus!
