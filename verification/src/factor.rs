//! Primes, the multiplicity of a prime in a number, and prime factorization.

use crate::fundamental::{lemma_multiplicity_in_product, product_of};
use crate::interval::divides;
use primefactor::PrimeFactors;
use vstd::arithmetic::power2::{lemma2_to64, lemma2_to64_rest, lemma_pow2_adds, lemma_pow2_pos, lemma_pow2_unfold, pow2};
use vstd::prelude::*;

verus! {

/// `p` is at least two and has no divisor strictly between one and itself.
pub open spec fn is_prime(p: int) -> bool {
    p >= 2 && forall|d: int| 1 < d < p ==> !#[trigger] divides(d, p)
}

/// How many times the prime `p` divides `n`: the largest `e` with `p^e | n`.
/// Zero when `n` is not positive.
pub open spec fn multiplicity(n: int, p: int) -> nat
    decreases n,
    via multiplicity_decreases
{
    if n >= 1 && p >= 2 && n % p == 0 {
        1 + multiplicity(n / p, p)
    } else {
        0
    }
}

#[via_fn]
proof fn multiplicity_decreases(n: int, p: int) {
    if n >= 1 && p >= 2 && n % p == 0 {
        lemma_quotient_smaller(n, p);
    }
}

/// Dividing a positive number by at least two makes it smaller, and not
/// more than half of it.
pub proof fn lemma_quotient_smaller(n: int, p: int)
    requires
        n >= 1,
        p >= 2,
    ensures
        0 <= n / p < n,
        2 * (n / p) <= n,
{
    assert(0 <= n / p && 2 * (n / p) <= n) by (nonlinear_arith)
        requires
            n >= 1,
            p >= 2,
    ;
}

/// The whole part of the base-two logarithm; zero below two.
pub open spec fn floor_log2(n: int) -> nat
    decreases n,
{
    if n < 2 {
        0
    } else {
        1 + floor_log2(n / 2)
    }
}

/// One prime of a factorization together with its exponent.
#[derive(Clone, Copy, Debug, PartialEq, Eq, Structural)]
pub struct PrimePower {
    pub prime: u128,
    pub exponent: u32,
}

/// `fs` is the prime factorization of `n`: its primes ascend strictly, each
/// comes with its multiplicity in `n`, which is at least one, and no prime
/// that divides `n` is missing.
pub open spec fn is_factorization(fs: Seq<PrimePower>, n: int) -> bool {
    &&& forall|i: int|
        0 <= i < fs.len() ==> {
            &&& is_prime((#[trigger] fs[i]).prime as int)
            &&& fs[i].exponent >= 1
            &&& fs[i].exponent == multiplicity(n, fs[i].prime as int)
        }
    &&& forall|i: int, j: int| 0 <= i < j < fs.len() ==> (#[trigger] fs[i]).prime < (#[trigger] fs[j]).prime
    &&& forall|p: int|
        is_prime(p) && #[trigger] divides(p, n) ==> exists|i: int|
            0 <= i < fs.len() && (#[trigger] fs[i]).prime == p
}

/// The primes of a list of prime powers.
pub open spec fn primes_of(fs: Seq<PrimePower>) -> Seq<int> {
    fs.map_values(|f: PrimePower| f.prime as int)
}

/// The exponents of a list of prime powers.
pub open spec fn exponents_of(fs: Seq<PrimePower>) -> Seq<int> {
    fs.map_values(|f: PrimePower| f.exponent as int)
}

/// Below this bound a Miller-Rabin test to the twelve bases from 2 to 37
/// takes no composite for a prime: it is the least composite that passes.
pub const FACTOR_LIMIT: u128 = 318_665_857_834_031_151_167_461;

/// What the factorizer gives for every number: factors from two on in
/// strictly ascending order, each with the number of times it divides `n`,
/// which is at least one, such that the powers multiply to `n`. A factor
/// below [`FACTOR_LIMIT`] is a prime; of a larger one that is not said.
pub open spec fn is_factor_list(fs: Seq<PrimePower>, n: int) -> bool {
    &&& forall|i: int|
        0 <= i < fs.len() ==> {
            &&& (#[trigger] fs[i]).prime >= 2
            &&& fs[i].exponent >= 1
            &&& fs[i].exponent == multiplicity(n, fs[i].prime as int)
            &&& fs[i].prime < FACTOR_LIMIT ==> is_prime(fs[i].prime as int)
        }
    &&& forall|i: int, j: int| 0 <= i < j < fs.len() ==> (#[trigger] fs[i]).prime < (#[trigger] fs[j]).prime
    &&& product_of(primes_of(fs), exponents_of(fs), fs.len() as int) == n
}

/// `PrimeFactors::factorize` of the `prime-factor` crate: trial division by
/// ascending candidates, which yields each divisor found once, smallest
/// first, with the number of times it divides `n`; what is left of `n` in
/// the end is the last factor. What the trial division finds is a prime.
/// What is left is taken for a prime on the word of a Miller-Rabin test to
/// the twelve bases from 2 to 37, which is sure only below
/// [`FACTOR_LIMIT`]. The crate squares its candidates in `u128`, which is
/// safe for every `n` below two to the power 127. Trusted, not proved.
#[verifier::external_body]
pub(crate) fn factorize(n: u128) -> (fs: Vec<PrimePower>)
    requires
        1 <= n <= i128::MAX,
    ensures
        is_factor_list(fs@, n as int),
{
    PrimeFactors::factorize(n).factors().iter().map(
        |f| PrimePower { prime: f.integer, exponent: f.exponent },
    ).collect()
}

/// Where every factor of a factor list is a prime, the list is the prime
/// factorization: no prime that divides `n` is missing from it.
pub proof fn lemma_factor_list_complete(fs: Seq<PrimePower>, n: int)
    requires
        is_factor_list(fs, n),
        forall|i: int| 0 <= i < fs.len() ==> is_prime((#[trigger] fs[i]).prime as int),
    ensures
        is_factorization(fs, n),
{
    let ps = primes_of(fs);
    let es = exponents_of(fs);
    assert forall|p: int| is_prime(p) && #[trigger] divides(p, n) implies exists|i: int|
        0 <= i < fs.len() && (#[trigger] fs[i]).prime == p by {
        assert forall|j: int| 0 <= j < fs.len() implies is_prime(#[trigger] ps[j]) by {
            assert(is_prime(fs[j].prime as int));
        }
        assert forall|i: int, j: int| 0 <= i < j < fs.len() implies #[trigger] ps[i] < #[trigger] ps[j] by {
            assert(fs[i].prime < fs[j].prime);
        }
        lemma_multiplicity_in_product(ps, es, fs.len() as int, p);
        if forall|j: int| 0 <= j < fs.len() ==> #[trigger] ps[j] != p {
            assert(multiplicity(n, p) == 0);
            assert(false);
        }
        let j = choose|j: int| 0 <= j < fs.len() && #[trigger] ps[j] == p;
        assert(fs[j].prime == p);
    }
}

/// The whole part of the base-two logarithm of `n`.
pub fn ilog2(n: u64) -> (k: u32)
    ensures
        k == floor_log2(n as int),
        k <= 63,
{
    let mut v: u64 = n;
    let mut k: u32 = 0;
    proof {
        lemma2_to64();
    }
    while v >= 2
        invariant
            floor_log2(n as int) == k + floor_log2(v as int),
            v as int * pow2(k as nat) <= n,
            k <= 63,
        decreases v,
    {
        proof {
            lemma_halving_step(k as nat, v as int, n as int);
        }
        v = v / 2;
        k = k + 1;
    }
    k
}

proof fn lemma_halving_step(k: nat, v: int, n: int)
    requires
        v >= 2,
        v * pow2(k) <= n,
        n <= u64::MAX,
        k <= 63,
    ensures
        (v / 2) * pow2(k + 1) <= n,
        k + 1 <= 63,
{
    let b = pow2(k) as int;
    lemma_pow2_pos(k);
    lemma_pow2_unfold(k + 1);
    assert((v / 2) * (2 * b) <= v * b) by (nonlinear_arith)
        requires
            v >= 2,
            b >= 1,
    ;
    if k == 63 {
        lemma2_to64_rest();
        assert(v * b >= 2 * b) by (nonlinear_arith)
            requires
                v >= 2,
                b >= 1,
        ;
    }
}

/// A number below two to the `k` holds any prime at most `k` times.
pub proof fn lemma_multiplicity_bound(n: int, p: int, k: nat)
    requires
        n < pow2(k),
    ensures
        multiplicity(n, p) <= k,
    decreases k,
{
    if n >= 1 && p >= 2 && n % p == 0 {
        lemma_quotient_smaller(n, p);
        if k == 0 {
            lemma2_to64();
        } else {
            lemma_pow2_unfold(k);
            lemma_multiplicity_bound(n / p, p, (k - 1) as nat);
        }
    }
}

/// No prime divides a number that fits in `i128` more than 127 times.
pub proof fn lemma_multiplicity_small(n: int, p: int)
    requires
        n <= i128::MAX,
    ensures
        multiplicity(n, p) <= 127,
{
    assert(pow2(127) == 0x8000_0000_0000_0000_0000_0000_0000_0000) by {
        lemma2_to64_rest();
        lemma_pow2_adds(63, 64);
    }
    lemma_multiplicity_bound(n, p, 127);
}

} // verus!
