//! The cipher: a message is raised to the public exponent modulo the
//! product of two primes, and a ciphertext to the private exponent, which
//! is the inverse of the public one modulo the totient.

use crate::fermat::lemma_power_cycle;
use crate::gcd::gcd_of;
use crate::inverse::{lemma_mod_inverse_exists, mod_inverse, mod_inverse_of};
use crate::modexp::modexp;
use crate::primes::{is_prime, lemma_two_primes_divide};
use vstd::arithmetic::div_mod::*;
use vstd::arithmetic::power::*;
use vstd::prelude::*;

verus! {

/// The public exponent. It is fixed.
pub const EXP: u64 = 65_537;

/// The totient of the product of the primes `p` and `q`.
pub open spec fn totient(p: int, q: int) -> int {
    (p - 1) * (q - 1)
}

/// The ciphertext of `msg` under the public modulus `n`.
pub open spec fn encrypted(n: int, msg: int) -> int {
    pow(msg, EXP as nat) % n
}

/// The pair `(p, q)` has a private exponent: the public exponent has an
/// inverse modulo the totient.
pub open spec fn has_private_exponent(p: int, q: int) -> bool {
    p >= 1 && q >= 1 && gcd_of(EXP as int, totient(p, q)) == 1
}

/// The private exponent of the pair `(p, q)`.
pub open spec fn private_exponent(p: int, q: int) -> int {
    mod_inverse_of(EXP as int, totient(p, q))
}

/// The plaintext of `msg` under the private key `(p, q)`.
pub open spec fn decrypted(p: int, q: int, msg: int) -> int {
    pow(msg, private_exponent(p, q) as nat) % (p * q)
}

/// A pair with a private exponent has both parts above 1, so the totient
/// and the modulus are positive and fit in 64 bits.
pub proof fn lemma_private_exponent_bounds(p: int, q: int)
    requires
        has_private_exponent(p, q),
        p <= u32::MAX,
        q <= u32::MAX,
    ensures
        p >= 2,
        q >= 2,
        0 < totient(p, q) <= u64::MAX,
        0 < p * q <= u64::MAX,
{
    assert(gcd_of(EXP as int, 0) == EXP);
    assert(p != 1 && q != 1 && 0 < (p - 1) * (q - 1) <= 0xffff_ffff * 0xffff_ffff && 0 < p * q
        <= 0xffff_ffff * 0xffff_ffff) by (nonlinear_arith)
        requires
            1 <= p <= 0xffff_ffff,
            1 <= q <= 0xffff_ffff,
            (p - 1) * (q - 1) != 0,
    ;
}

/// With two different primes `p` and `q`, raising to an exponent `e` and
/// then to its inverse modulo the totient gives every number below `p * q`
/// back.
pub proof fn lemma_inverse_exponent_undoes(p: int, q: int, e: int, msg: int)
    requires
        is_prime(p),
        is_prime(q),
        p != q,
        e >= 0,
        gcd_of(e, totient(p, q)) == 1,
        0 <= msg < p * q,
    ensures
        mod_inverse_of(e, totient(p, q)) >= 0,
        pow(pow(msg, e as nat) % (p * q), mod_inverse_of(e, totient(p, q)) as nat) % (p * q)
            == msg,
{
    let n = p * q;
    let phi = totient(p, q);
    let d = mod_inverse_of(e, phi);
    assert(phi >= 2 && n > 0) by (nonlinear_arith)
        requires
            p >= 2,
            q >= 2,
            p != q,
            phi == (p - 1) * (q - 1),
            n == p * q,
    ;
    lemma_mod_inverse_exists(e, phi);
    // e * d is one more than a multiple of the totient
    lemma_small_mod(1, phi as nat);
    lemma_fundamental_div_mod(e * d, phi);
    let k = (e * d) / phi;
    assert(e * d >= 0 && (k >= 0 ==> (q - 1) * k >= 0 && (p - 1) * k >= 0)) by (nonlinear_arith)
        requires
            e >= 0,
            d >= 0,
            p >= 2,
            q >= 2,
    ;
    lemma_div_pos_is_pos(e * d, phi);
    let turns_p = ((q - 1) * k) as nat;
    let turns_q = ((p - 1) * k) as nat;
    assert(e * d == 1 + (p - 1) * turns_p && e * d == 1 + (q - 1) * turns_q) by (nonlinear_arith)
        requires
            e * d == phi * k + 1,
            phi == (p - 1) * (q - 1),
            turns_p == (q - 1) * k,
            turns_q == (p - 1) * k,
    ;
    let full = pow(msg, (e * d) as nat);
    lemma_power_cycle(msg, p, turns_p);
    lemma_power_cycle(msg, q, turns_q);
    lemma_mod_equivalence(full, msg, p);
    lemma_mod_equivalence(full, msg, q);
    lemma_two_primes_divide(p, q, full - msg);
    lemma_mod_equivalence(full, msg, n);
    lemma_small_mod(msg as nat, n as nat);
    // the two powers, one after the other, are the power to e * d
    lemma_pow_mod_noop(pow(msg, e as nat), d as nat, n);
    lemma_pow_multiplies(msg, e as nat, d as nat);
}

/// Decryption undoes encryption: under two different primes whose totient
/// has no common divisor but 1 with the public exponent, every message
/// below the modulus comes back.
pub proof fn lemma_decrypt_inverts_encrypt(p: int, q: int, msg: int)
    requires
        is_prime(p),
        is_prime(q),
        p != q,
        gcd_of(EXP as int, totient(p, q)) == 1,
        0 <= msg < p * q,
    ensures
        decrypted(p, q, encrypted(p * q, msg)) == msg,
{
    lemma_inverse_exponent_undoes(p, q, EXP as int, msg);
}

/// Encrypts `msg` under the public modulus `key`.
pub fn encrypt(key: u64, msg: u32) -> (c: u64)
    requires
        key != 0,
    ensures
        c == encrypted(key as int, msg as int),
        c < key,
{
    modexp(msg as u64, EXP, key)
}

/// Decrypts `msg` under the private key `key`, a pair of primes. The pair
/// must have a private exponent and the plaintext must fit the message
/// width, as it does for every ciphertext that `encrypt` made of a message
/// under the same two, different, primes.
pub fn decrypt(key: (u32, u32), msg: u64) -> (m: u32)
    requires
        has_private_exponent(key.0 as int, key.1 as int),
        decrypted(key.0 as int, key.1 as int, msg as int) <= u32::MAX,
    ensures
        m == decrypted(key.0 as int, key.1 as int, msg as int),
{
    proof {
        lemma_private_exponent_bounds(key.0 as int, key.1 as int);
    }
    let totient: u64 = (key.0 - 1) as u64 * (key.1 - 1) as u64;
    let d: u64 = mod_inverse(EXP, totient).unwrap();
    let plain: u64 = modexp(msg, d, key.0 as u64 * key.1 as u64);
    plain as u32
}

/// Decrypts `msg` under the private key `key` where `decrypt` can: where
/// the pair has a private exponent and the plaintext fits the message
/// width. Otherwise there is no result.
pub fn checked_decrypt(key: (u32, u32), msg: u64) -> (m: Option<u32>)
    ensures
        m is Some <==> has_private_exponent(key.0 as int, key.1 as int) && decrypted(
            key.0 as int,
            key.1 as int,
            msg as int,
        ) <= u32::MAX,
        m is Some ==> m.unwrap() == decrypted(key.0 as int, key.1 as int, msg as int),
{
    if key.0 == 0 || key.1 == 0 {
        return None;
    }
    proof {
        assert(0 <= (key.0 - 1) * (key.1 - 1) <= 0xffff_ffff * 0xffff_ffff) by (nonlinear_arith)
            requires
                1 <= key.0 <= 0xffff_ffff,
                1 <= key.1 <= 0xffff_ffff,
        ;
    }
    let totient: u64 = (key.0 - 1) as u64 * (key.1 - 1) as u64;
    match mod_inverse(EXP, totient) {
        None => None,
        Some(d) => {
            proof {
                lemma_private_exponent_bounds(key.0 as int, key.1 as int);
            }
            let plain: u64 = modexp(msg, d, key.0 as u64 * key.1 as u64);
            if plain > u32::MAX as u64 {
                None
            } else {
                Some(plain as u32)
            }
        },
    }
}

} // verus!
