//! Key generation: which pairs of primes make a key.
//!
//! Primes come from outside, two at a time. `genkey_step` decides about one
//! drawn pair: it is the key, or another pair has to be drawn.

use crate::cipher::{decrypted, encrypted, lemma_decrypt_inverts_encrypt, totient, EXP};
use crate::gcd::{gcd, gcd_of};
use crate::inverse::mod_inverse;
use crate::primes::is_prime;
use vstd::prelude::*;

verus! {

/// What a supplier of primes hands out: a prime of exactly 32 bits.
pub open spec fn is_key_prime(p: int) -> bool {
    is_prime(p) && 0x8000_0000 <= p < 0x1_0000_0000
}

/// The pair `(p, q)` passes as a key: the public exponent is below the
/// totient and has no common divisor with it but 1.
pub open spec fn key_accepted(p: int, q: int) -> bool {
    EXP < totient(p, q) && gcd_of(EXP as int, totient(p, q)) == 1
}

/// The pair `(p, q)` is a valid key: two primes of 32 bits that pass.
pub open spec fn valid_key(p: int, q: int) -> bool {
    is_key_prime(p) && is_key_prime(q) && key_accepted(p, q)
}

/// With a valid key of two different primes, every message that is
/// encrypted under the product of the two comes back when the ciphertext
/// is decrypted under the pair.
pub proof fn lemma_valid_key_round_trip(p: u32, q: u32, msg: u32)
    requires
        valid_key(p as int, q as int),
        p != q,
    ensures
        decrypted(p as int, q as int, encrypted(p * q, msg as int)) == msg,
{
    assert(msg < p * q) by (nonlinear_arith)
        requires
            msg < 0x1_0000_0000,
            0x8000_0000 <= p,
            0x8000_0000 <= q,
    ;
    lemma_decrypt_inverts_encrypt(p as int, q as int, msg as int);
}

/// Decides about one drawn pair `(p, q)`: the result is the pair where it
/// passes as a key, and nothing where another pair has to be drawn.
pub fn genkey_step(p: u32, q: u32) -> (key: Option<(u32, u32)>)
    requires
        p >= 1,
        q >= 1,
    ensures
        key is Some <==> key_accepted(p as int, q as int),
        key is Some ==> key == Some((p, q)),
        key is Some && is_key_prime(p as int) && is_key_prime(q as int) ==> valid_key(
            key.unwrap().0 as int,
            key.unwrap().1 as int,
        ),
{
    proof {
        assert(0 <= (p - 1) * (q - 1) <= 0xffff_ffff * 0xffff_ffff) by (nonlinear_arith)
            requires
                1 <= p <= 0xffff_ffff,
                1 <= q <= 0xffff_ffff,
        ;
    }
    let totient: u64 = (p - 1) as u64 * (q - 1) as u64;

    // Without an inverse of the exponent there is no private key.
    if mod_inverse(EXP, totient).is_none() {
        return None;
    }
    if EXP < totient && gcd(EXP, totient) == 1 {
        Some((p, q))
    } else {
        None
    }
}

} // verus!
