//! Fermat's little theorem, by the classical argument: multiplying the
//! numbers `1..p` by `a` and reducing modulo the prime `p` only reorders
//! them, so both lists have the same product.

use crate::gcd::{divides, lemma_coprime_cancel, lemma_multiple_divides};
use crate::primes::{
    is_prime, lemma_prime_coprime, lemma_prime_divides_product, lemma_prime_exceeds,
};
use vstd::arithmetic::div_mod::*;
use vstd::arithmetic::power::*;
use vstd::prelude::*;

verus! {

/// `n!`, the product of the numbers from 1 to `n`.
pub open spec fn factorial(n: nat) -> int
    decreases n,
{
    if n == 0 {
        1
    } else {
        n * factorial((n - 1) as nat)
    }
}

/// The product of the entries of `s`.
pub open spec fn product(s: Seq<int>) -> int
    decreases s.len(),
{
    if s.len() == 0 {
        1
    } else {
        product(s.drop_last()) * s.last()
    }
}

/// The entries of `s` lie in `1..=n` and no two of them are equal.
pub open spec fn distinct_within(s: Seq<int>, n: int) -> bool {
    &&& forall|i: int| 0 <= i < s.len() ==> 1 <= #[trigger] s[i] <= n
    &&& forall|i: int, j: int| 0 <= i < j < s.len() ==> s[i] != s[j]
}

/// The first `k` multiples of `a`, each reduced modulo `p`.
pub open spec fn multiples(a: int, p: int, k: nat) -> Seq<int> {
    Seq::new(k, |i: int| (a * (i + 1)) % p)
}

/// A factorial is positive.
pub proof fn lemma_factorial_positive(n: nat)
    ensures
        factorial(n) > 0,
    decreases n,
{
    if n > 0 {
        lemma_factorial_positive((n - 1) as nat);
        assert(n * factorial((n - 1) as nat) > 0) by (nonlinear_arith)
            requires
                n > 0,
                factorial((n - 1) as nat) > 0,
        ;
    }
}

/// Taking one entry out of a sequence divides its product by that entry.
pub proof fn lemma_product_remove(s: Seq<int>, j: int)
    requires
        0 <= j < s.len(),
    ensures
        product(s) == s[j] * product(s.remove(j)),
    decreases s.len(),
{
    let rest = s.remove(j);
    if j == s.len() - 1 {
        assert(rest =~= s.drop_last());
        assert(product(s.drop_last()) * s.last() == s.last() * product(s.drop_last()))
            by (nonlinear_arith);
    } else {
        lemma_product_remove(s.drop_last(), j);
        assert(rest.drop_last() =~= s.drop_last().remove(j));
        assert(rest.last() == s.last());
        assert(rest.len() > 0);
        let inner = product(s.drop_last().remove(j));
        assert(product(rest) == inner * s.last());
        assert((s[j] * inner) * s.last() == s[j] * (inner * s.last())) by (nonlinear_arith);
    }
}

/// Taking one entry out of a sequence of different numbers leaves
/// different numbers, none of them the one taken out.
proof fn lemma_remove_distinct(s: Seq<int>, j: int, n: int)
    requires
        0 <= j < s.len(),
        distinct_within(s, n),
        s[j] == n,
    ensures
        distinct_within(s.remove(j), n - 1),
        s.remove(j).len() == s.len() - 1,
{
    let rest = s.remove(j);
    assert forall|i: int| 0 <= i < rest.len() implies 1 <= #[trigger] rest[i] <= n - 1 by {
        if i < j {
            assert(rest[i] == s[i]);
        } else {
            assert(rest[i] == s[i + 1]);
        }
    }
    assert forall|i: int, k: int| 0 <= i < k < rest.len() implies rest[i] != rest[k] by {
        let from_i = if i < j {
            i
        } else {
            i + 1
        };
        let from_k = if k < j {
            k
        } else {
            k + 1
        };
        assert(rest[i] == s[from_i]);
        assert(rest[k] == s[from_k]);
    }
}

/// The pigeonhole principle: different numbers from `1..=n` are at most
/// `n` numbers.
pub proof fn lemma_pigeonhole(s: Seq<int>, n: int)
    requires
        n >= 0,
        distinct_within(s, n),
    ensures
        s.len() <= n,
    decreases n,
{
    if s.len() > 0 {
        if n == 0 {
            assert(1 <= s[0] <= n);
        } else if exists|j: int| 0 <= j < s.len() && s[j] == n {
            let j = choose|j: int| 0 <= j < s.len() && s[j] == n;
            lemma_remove_distinct(s, j, n);
            lemma_pigeonhole(s.remove(j), n - 1);
        } else {
            assert(distinct_within(s, n - 1));
            lemma_pigeonhole(s, n - 1);
        }
    }
}

/// A sequence of `n` different numbers from `1..=n` holds each of them
/// once, in some order, so its product is `n!`.
pub proof fn lemma_rearranged_product(s: Seq<int>, n: nat)
    requires
        s.len() == n,
        distinct_within(s, n as int),
    ensures
        product(s) == factorial(n),
    decreases n,
{
    if n > 0 {
        if !exists|j: int| 0 <= j < s.len() && s[j] == n {
            assert(distinct_within(s, n - 1));
            lemma_pigeonhole(s, n - 1);
        }
        let j = choose|j: int| 0 <= j < s.len() && s[j] == n;
        lemma_remove_distinct(s, j, n as int);
        lemma_rearranged_product(s.remove(j), (n - 1) as nat);
        lemma_product_remove(s, j);
    }
}

/// The product of the first `k` multiples of `a` is `a` to the power `k`
/// times `k!`, and reducing each multiple modulo `p` keeps that remainder.
pub proof fn lemma_multiples_product(a: int, p: int, k: nat)
    requires
        p > 0,
    ensures
        product(multiples(a, p, k)) % p == (pow(a, k) * factorial(k)) % p,
    decreases k,
{
    reveal(pow);
    if k == 0 {
        assert(pow(a, 0) * factorial(0) == 1) by (nonlinear_arith)
            requires
                pow(a, 0) == 1,
                factorial(0) == 1,
        ;
    } else {
        let before = (k - 1) as nat;
        let s = multiples(a, p, k);
        assert(s.drop_last() =~= multiples(a, p, before));
        let shorter = product(multiples(a, p, before));
        let plain = pow(a, before) * factorial(before);
        lemma_multiples_product(a, p, before);
        assert(product(s) == shorter * ((a * k) % p));
        lemma_mul_mod_noop_right(shorter, a * k, p);
        lemma_mul_mod_noop_left(shorter, a * k, p);
        lemma_mul_mod_noop_left(plain, a * k, p);
        assert(plain * (a * k) == pow(a, k) * factorial(k)) by (nonlinear_arith)
            requires
                plain == pow(a, before) * factorial(before),
                pow(a, k) == a * pow(a, before),
                factorial(k) == k * factorial(before),
        ;
    }
}

/// Modulo a prime `p` that does not divide `a`, the multiples of `a` by
/// `1..p` are different numbers from `1..p`.
pub proof fn lemma_multiples_distinct(a: int, p: int)
    requires
        is_prime(p),
        a >= 0,
        !divides(p, a),
    ensures
        distinct_within(multiples(a, p, (p - 1) as nat), p - 1),
{
    let s = multiples(a, p, (p - 1) as nat);
    assert forall|i: int| 0 <= i < s.len() implies 1 <= #[trigger] s[i] <= p - 1 by {
        lemma_mod_bound(a * (i + 1), p);
        if s[i] == 0 {
            lemma_prime_divides_product(p, a, i + 1);
            lemma_prime_exceeds(p, i + 1);
        }
    }
    assert forall|i: int, j: int| 0 <= i < j < s.len() implies s[i] != s[j] by {
        if s[i] == s[j] {
            lemma_mod_equivalence(a * (j + 1), a * (i + 1), p);
            assert(a * (j + 1) - a * (i + 1) == a * (j - i)) by (nonlinear_arith);
            lemma_prime_divides_product(p, a, j - i);
            lemma_prime_exceeds(p, j - i);
        }
    }
}

/// A prime divides no factorial of a number below it.
pub proof fn lemma_factorial_avoids_prime(p: int, k: nat)
    requires
        is_prime(p),
        k < p,
    ensures
        !divides(p, factorial(k)),
    decreases k,
{
    if k == 0 {
        lemma_small_mod(1, p as nat);
    } else {
        lemma_factorial_avoids_prime(p, (k - 1) as nat);
        lemma_prime_exceeds(p, k as int);
        if divides(p, factorial(k)) {
            lemma_prime_divides_product(p, k as int, factorial((k - 1) as nat));
        }
    }
}

/// Fermat's little theorem: for a prime `p` that does not divide `a`,
/// `a` to the power `p - 1` leaves the remainder 1 modulo `p`.
pub proof fn lemma_fermat_little(a: int, p: int)
    requires
        is_prime(p),
        a >= 0,
        !divides(p, a),
    ensures
        pow(a, (p - 1) as nat) % p == 1,
{
    let n = (p - 1) as nat;
    let s = multiples(a, p, n);
    let f = factorial(n);
    let power = pow(a, n);
    lemma_multiples_distinct(a, p);
    lemma_rearranged_product(s, n);
    lemma_multiples_product(a, p, n);
    // f == power * f modulo p, so p divides f * (power - 1)
    lemma_mod_equivalence(power * f, f, p);
    assert(power * f - f == f * (power - 1)) by (nonlinear_arith);
    lemma_factorial_positive(n);
    lemma_factorial_avoids_prime(p, n);
    lemma_prime_coprime(f, p);
    lemma_coprime_cancel(f, p, power - 1);
    lemma_mod_equivalence(power, 1, p);
    lemma_small_mod(1, p as nat);
}

/// For a prime `p` and any `a`, raising `a` to one more than a multiple of
/// `p - 1` gives back `a` modulo `p`.
pub proof fn lemma_power_cycle(a: int, p: int, k: nat)
    requires
        is_prime(p),
        a >= 0,
    ensures
        (p - 1) * k >= 0,
        pow(a, (1 + (p - 1) * k) as nat) % p == a % p,
{
    let cycle = (p - 1) as nat;
    let turns: nat = cycle * k;
    assert((p - 1) * k == turns) by (nonlinear_arith)
        requires
            turns == cycle * k,
            cycle == p - 1,
    ;
    let rest = pow(a, turns);
    assert(pow(a, (1 + turns) as nat) == a * rest) by {
        reveal(pow);
    }
    if divides(p, a) {
        lemma_multiple_divides(p, (a / p) * rest);
        lemma_fundamental_div_mod(a, p);
        assert(a * rest == p * ((a / p) * rest)) by (nonlinear_arith)
            requires
                a == p * (a / p),
        ;
    } else {
        lemma_fermat_little(a, p);
        lemma_pow_multiplies(a, cycle, k);
        lemma_pow_mod_noop(pow(a, cycle), k, p);
        lemma1_pow(k);
        lemma_small_mod(1, p as nat);
        assert(rest % p == 1);
        lemma_mul_mod_noop_right(a, rest, p);
        assert(a * 1 == a) by (nonlinear_arith);
    }
}

} // verus!
