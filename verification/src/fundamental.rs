//! A number is the product of its prime powers.

use crate::factor::{is_prime, lemma_quotient_smaller, multiplicity};
use crate::interval::{coprime, divides};
use vstd::arithmetic::div_mod::{
    lemma_fundamental_div_mod, lemma_fundamental_div_mod_converse, lemma_small_mod,
};
use vstd::arithmetic::power::{lemma_pow0, lemma_pow1, lemma_pow_adds, pow};
use vstd::prelude::*;

verus! {

/// A multiple of a positive number is divided by it, and what is divided
/// by it is a multiple.
pub proof fn lemma_divides_multiple(d: int, k: int)
    requires
        d > 0,
    ensures
        divides(d, d * k),
        (d * k) / d == k,
{
    assert(d * k == k * d + 0) by (nonlinear_arith);
    lemma_fundamental_div_mod_converse(d * k, d, k, 0);
}

/// What a positive number divides is that number times the quotient.
pub proof fn lemma_divided_is_multiple(d: int, n: int)
    requires
        d > 0,
        divides(d, n),
    ensures
        n == d * (n / d),
{
    lemma_fundamental_div_mod(n, d);
}

/// A divisor of a divisor is a divisor.
pub proof fn lemma_divides_transitive(a: int, b: int, c: int)
    requires
        a > 0,
        b > 0,
        divides(a, b),
        divides(b, c),
    ensures
        divides(a, c),
{
    lemma_divided_is_multiple(a, b);
    lemma_divided_is_multiple(b, c);
    let x = b / a;
    let y = c / b;
    assert(c == a * (x * y)) by (nonlinear_arith)
        requires
            b == a * x,
            c == b * y,
    ;
    lemma_divides_multiple(a, x * y);
}

/// A positive number is not divided by anything larger.
pub proof fn lemma_divisor_not_larger(d: int, n: int)
    requires
        d > 0,
        n > 0,
        divides(d, n),
    ensures
        d <= n,
{
    if d > n {
        lemma_small_mod(n as nat, d as nat);
    }
}

/// Every number from two on has a prime divisor.
pub proof fn lemma_prime_divisor(n: int) -> (p: int)
    requires
        n >= 2,
    ensures
        is_prime(p),
        divides(p, n),
        p <= n,
    decreases n,
{
    if is_prime(n) {
        lemma_divides_multiple(n, 1);
        n
    } else {
        let d = choose|d: int| 1 < d < n && #[trigger] divides(d, n);
        let p = lemma_prime_divisor(d);
        lemma_divides_transitive(p, d, n);
        p
    }
}

/// A prime that divides `r * b`, where `r` is positive and below the prime,
/// divides `b`.
proof fn lemma_euclid_descent(q: int, r: int, b: int)
    requires
        is_prime(q),
        0 < r < q,
        divides(q, r * b),
    ensures
        divides(q, b),
    decreases r,
{
    if r == 1 {
        assert(r * b == b) by (nonlinear_arith)
            requires
                r == 1,
        ;
    } else {
        assert(!divides(r, q));
        let s = q % r;
        let u = q / r;
        lemma_fundamental_div_mod(q, r);
        assert(0 < s < r);
        lemma_divided_is_multiple(q, r * b);
        let k = (r * b) / q;
        assert(s * b == q * (b - u * k)) by (nonlinear_arith)
            requires
                q == r * u + s,
                r * b == q * k,
        ;
        lemma_divides_multiple(q, b - u * k);
        lemma_euclid_descent(q, s, b);
    }
}

/// A prime that divides a product divides one of the factors.
pub proof fn lemma_euclid(q: int, a: int, b: int)
    requires
        is_prime(q),
        divides(q, a * b),
    ensures
        divides(q, a) || divides(q, b),
{
    let r = a % q;
    let t = a / q;
    lemma_fundamental_div_mod(a, q);
    if r != 0 {
        lemma_divided_is_multiple(q, a * b);
        let k = (a * b) / q;
        assert(r * b == q * (k - t * b)) by (nonlinear_arith)
            requires
                a == q * t + r,
                a * b == q * k,
        ;
        lemma_divides_multiple(q, k - t * b);
        lemma_euclid_descent(q, r, b);
    }
}

/// One prime does not divide another.
pub proof fn lemma_primes_apart(p: int, q: int)
    requires
        is_prime(p),
        is_prime(q),
        p != q,
    ensures
        !divides(q, p),
{
    if divides(q, p) {
        lemma_divisor_not_larger(q, p);
    }
}

/// A prime factor more does not change how often another prime divides.
pub proof fn lemma_multiplicity_of_other(p: int, q: int, m: int)
    requires
        is_prime(p),
        is_prime(q),
        p != q,
        m >= 1,
    ensures
        multiplicity(p * m, q) == multiplicity(m, q),
    decreases m,
{
    assert(p * m >= 1) by (nonlinear_arith)
        requires
            p >= 2,
            m >= 1,
    ;
    if (p * m) % q == 0 {
        lemma_primes_apart(p, q);
        lemma_euclid(q, p, m);
        assert(divides(q, m));
        let m1 = m / q;
        lemma_divided_is_multiple(q, m);
        lemma_quotient_smaller(m, q);
        assert(m1 >= 1) by {
            lemma_divisor_not_larger(q, m);
            if m1 <= 0 {
                assert(q * m1 <= 0) by (nonlinear_arith)
                    requires
                        q >= 2,
                        m1 <= 0,
                ;
            }
        }
        assert(p * m == q * (p * m1)) by (nonlinear_arith)
            requires
                m == q * m1,
        ;
        lemma_divides_multiple(q, p * m1);
        lemma_multiplicity_of_other(p, q, m1);
    } else {
        if m % q == 0 {
            lemma_divided_is_multiple(q, m);
            let m1 = m / q;
            assert(p * m == q * (p * m1)) by (nonlinear_arith)
                requires
                    m == q * m1,
            ;
            lemma_divides_multiple(q, p * m1);
        }
    }
}

/// A prime factor more is divided by that prime once more.
pub proof fn lemma_multiplicity_of_same(p: int, m: int)
    requires
        p >= 2,
        m >= 1,
    ensures
        multiplicity(p * m, p) == 1 + multiplicity(m, p),
{
    assert(p * m >= 1) by (nonlinear_arith)
        requires
            p >= 2,
            m >= 1,
    ;
    lemma_divides_multiple(p, m);
}

/// The product of the first `k` primes of a list, each to the power with
/// which it divides `n`.
pub open spec fn power_product(n: int, primes: Seq<int>, k: int) -> int
    decreases k,
{
    if k <= 0 {
        1
    } else {
        power_product(n, primes, k - 1) * pow(
            primes[k - 1],
            multiplicity(n, primes[k - 1]),
        )
    }
}

/// No prime divides one.
proof fn lemma_power_product_of_one(primes: Seq<int>, k: int)
    requires
        0 <= k <= primes.len(),
        forall|i: int| 0 <= i < primes.len() ==> is_prime(#[trigger] primes[i]),
    ensures
        power_product(1, primes, k) == 1,
    decreases k,
{
    if k > 0 {
        lemma_power_product_of_one(primes, k - 1);
        assert(is_prime(primes[k - 1]));
        lemma_small_mod(1, primes[k - 1] as nat);
        lemma_pow0(primes[k - 1]);
    }
}

/// With a prime factor more, the product of prime powers holds that prime
/// once more.
proof fn lemma_power_product_step(p: int, m: int, primes: Seq<int>, j: int, k: int)
    requires
        m >= 1,
        0 <= j < primes.len(),
        primes[j] == p,
        0 <= k <= primes.len(),
        forall|i: int| 0 <= i < primes.len() ==> is_prime(#[trigger] primes[i]),
        forall|i: int, l: int| 0 <= i < l < primes.len() ==> #[trigger] primes[i] < #[trigger] primes[l],
    ensures
        power_product(p * m, primes, k) == (if j < k {
            p
        } else {
            1
        }) * power_product(m, primes, k),
    decreases k,
{
    if k > 0 {
        lemma_power_product_step(p, m, primes, j, k - 1);
        let q = primes[k - 1];
        assert(is_prime(q));
        assert(is_prime(p));
        let before_n = power_product(p * m, primes, k - 1);
        let before_m = power_product(m, primes, k - 1);
        let e = multiplicity(m, q);
        if k - 1 == j {
            lemma_multiplicity_of_same(p, m);
            lemma_pow_adds(p, 1, e);
            lemma_pow1(p);
            let x = pow(p, e);
            assert(before_n * (p * x) == p * (before_m * x)) by (nonlinear_arith)
                requires
                    before_n == 1 * before_m,
            ;
        } else {
            if k - 1 < j {
                assert(primes[k - 1] < primes[j]);
            } else {
                assert(primes[j] < primes[k - 1]);
            }
            lemma_multiplicity_of_other(p, q, m);
            let x = pow(q, e);
            let c = if j < k - 1 {
                p
            } else {
                1
            };
            assert(before_n * x == c * (before_m * x)) by (nonlinear_arith)
                requires
                    before_n == c * before_m,
            ;
        }
    } else {
        assert(1 == 1 * 1int);
    }
}

/// A positive number all of whose prime divisors are in a list of distinct
/// primes is the product of those primes, each to the power with which it
/// divides the number.
pub proof fn law_product_of_prime_powers(n: int, primes: Seq<int>)
    requires
        n >= 1,
        forall|i: int| 0 <= i < primes.len() ==> is_prime(#[trigger] primes[i]),
        forall|i: int, l: int| 0 <= i < l < primes.len() ==> #[trigger] primes[i] < #[trigger] primes[l],
        forall|p: int| is_prime(p) && #[trigger] divides(p, n) ==> primes.contains(p),
    ensures
        power_product(n, primes, primes.len() as int) == n,
    decreases n,
{
    if n == 1 {
        lemma_power_product_of_one(primes, primes.len() as int);
    } else {
        let p = lemma_prime_divisor(n);
        assert(primes.contains(p));
        let j = choose|j: int| 0 <= j < primes.len() && primes[j] == p;
        let m = n / p;
        lemma_divided_is_multiple(p, n);
        lemma_quotient_smaller(n, p);
        assert(m >= 1) by {
            if m <= 0 {
                assert(p * m <= 0) by (nonlinear_arith)
                    requires
                        p >= 2,
                        m <= 0,
                ;
            }
        }
        lemma_divides_multiple(m, p);
        assert(m * p == p * m) by (nonlinear_arith);
        assert forall|q: int| is_prime(q) && #[trigger] divides(q, m) implies primes.contains(q) by {
            lemma_divides_transitive(q, m, n);
        }
        law_product_of_prime_powers(m, primes);
        lemma_power_product_step(p, m, primes, j, primes.len() as int);
    }
}

/// What is coprime to a number is coprime to its divisors.
proof fn lemma_coprime_to_divisor(a: int, b: int, c: int)
    requires
        coprime(a, b),
        b > 0,
        c > 0,
        divides(c, b),
    ensures
        coprime(a, c),
{
    assert forall|d: int| d > 1 implies !(#[trigger] divides(d, a) && divides(d, c)) by {
        if divides(d, a) && divides(d, c) {
            lemma_divides_transitive(d, c, b);
        }
    }
}

/// A number that divides a product and is coprime to one factor divides
/// the other.
pub proof fn lemma_gauss(a: int, b: int, d: int)
    requires
        b > 0,
        coprime(a, b),
        divides(b, a * d),
    ensures
        divides(b, d),
    decreases b,
{
    if b == 1 {
        lemma_fundamental_div_mod_converse(d, 1, d, 0);
    } else {
        let p = lemma_prime_divisor(b);
        lemma_divides_transitive(p, b, a * d);
        lemma_euclid(p, a, d);
        assert(!divides(p, a));
        let b1 = b / p;
        let d1 = d / p;
        lemma_divided_is_multiple(p, b);
        lemma_divided_is_multiple(p, d);
        lemma_quotient_smaller(b, p);
        assert(b1 >= 1) by {
            if b1 <= 0 {
                assert(p * b1 <= 0) by (nonlinear_arith)
                    requires
                        p >= 2,
                        b1 <= 0,
                ;
            }
        }
        lemma_divides_multiple(b1, p);
        assert(b1 * p == p * b1) by (nonlinear_arith);
        lemma_coprime_to_divisor(a, b, b1);
        lemma_divided_is_multiple(b, a * d);
        let k = (a * d) / b;
        assert(a * d1 == b1 * k) by (nonlinear_arith)
            requires
                a * d == b * k,
                b == p * b1,
                d == p * d1,
                p >= 2,
        ;
        lemma_divides_multiple(b1, k);
        lemma_gauss(a, b1, d1);
        lemma_divided_is_multiple(b1, d1);
        let t = d1 / b1;
        assert(d == b * t) by (nonlinear_arith)
            requires
                d == p * d1,
                d1 == b1 * t,
                b == p * b1,
        ;
        lemma_divides_multiple(b, t);
    }
}

/// A fraction has one form in lowest terms: two fractions in lowest terms,
/// with positive denominators, that have the same value have the same
/// numerator and the same denominator.
pub proof fn law_lowest_terms_unique(a: int, b: int, c: int, d: int)
    requires
        b > 0,
        d > 0,
        coprime(a, b),
        coprime(c, d),
        a * d == c * b,
    ensures
        a == c,
        b == d,
{
    lemma_divides_multiple(b, c);
    assert(b * c == c * b) by (nonlinear_arith);
    lemma_gauss(a, b, d);
    lemma_divides_multiple(d, a);
    assert(d * a == a * d) by (nonlinear_arith);
    assert(c * b == d * a);
    lemma_gauss(c, d, b);
    lemma_divisor_not_larger(b, d);
    lemma_divisor_not_larger(d, b);
    assert(a == c) by (nonlinear_arith)
        requires
            a * d == c * b,
            b == d,
            b > 0,
    ;
}

/// The product of the first `k` numbers of `ps`, each to the power that
/// `es` gives it.
pub open spec fn product_of(ps: Seq<int>, es: Seq<int>, k: int) -> int
    decreases k,
{
    if k <= 0 {
        1
    } else {
        product_of(ps, es, k - 1) * pow(ps[k - 1], es[k - 1] as nat)
    }
}

/// A power of `p` as a factor more does not change how often another prime
/// divides.
pub proof fn lemma_multiplicity_past_power(p: int, a: nat, q: int, m: int)
    requires
        is_prime(p),
        is_prime(q),
        p != q,
        m >= 1,
    ensures
        m * pow(p, a) >= 1,
        multiplicity(m * pow(p, a), q) == multiplicity(m, q),
    decreases a,
{
    if a == 0 {
        lemma_pow0(p);
        assert(m * 1 == m);
    } else {
        lemma_multiplicity_past_power(p, (a - 1) as nat, q, m);
        let rest = m * pow(p, (a - 1) as nat);
        lemma_pow_adds(p, 1, (a - 1) as nat);
        lemma_pow1(p);
        let x = pow(p, (a - 1) as nat);
        assert(m * (p * x) == p * (m * x)) by (nonlinear_arith);
        lemma_multiplicity_of_other(p, q, rest);
        assert(p * rest >= 1) by (nonlinear_arith)
            requires
                p >= 2,
                rest >= 1,
        ;
    }
}

/// A power of `p` as a factor more is divided by `p` as often more as the
/// power says.
pub proof fn lemma_multiplicity_of_power(p: int, a: nat, m: int)
    requires
        p >= 2,
        m >= 1,
    ensures
        m * pow(p, a) >= 1,
        multiplicity(m * pow(p, a), p) == a + multiplicity(m, p),
    decreases a,
{
    if a == 0 {
        lemma_pow0(p);
        assert(m * 1 == m);
    } else {
        lemma_multiplicity_of_power(p, (a - 1) as nat, m);
        let rest = m * pow(p, (a - 1) as nat);
        lemma_pow_adds(p, 1, (a - 1) as nat);
        lemma_pow1(p);
        let x = pow(p, (a - 1) as nat);
        assert(m * (p * x) == p * (m * x)) by (nonlinear_arith);
        lemma_multiplicity_of_same(p, rest);
        assert(p * rest >= 1) by (nonlinear_arith)
            requires
                p >= 2,
                rest >= 1,
        ;
    }
}

/// In a product of powers of distinct primes, each of those primes divides
/// as often as its power says, and no other prime divides at all.
pub proof fn lemma_multiplicity_in_product(ps: Seq<int>, es: Seq<int>, k: int, q: int)
    requires
        0 <= k <= ps.len(),
        k <= es.len(),
        forall|j: int| 0 <= j < k ==> is_prime(#[trigger] ps[j]),
        forall|j: int| 0 <= j < k ==> #[trigger] es[j] >= 0,
        forall|i: int, j: int| 0 <= i < j < k ==> #[trigger] ps[i] < #[trigger] ps[j],
        is_prime(q),
    ensures
        product_of(ps, es, k) >= 1,
        (forall|j: int| 0 <= j < k ==> #[trigger] ps[j] != q) ==> multiplicity(
            product_of(ps, es, k),
            q,
        ) == 0,
        forall|j: int|
            0 <= j < k && #[trigger] ps[j] == q ==> multiplicity(product_of(ps, es, k), q) == es[j],
    decreases k,
{
    if k > 0 {
        lemma_multiplicity_in_product(ps, es, k - 1, q);
        let before = product_of(ps, es, k - 1);
        let p = ps[k - 1];
        let a = es[k - 1] as nat;
        assert(is_prime(p));
        assert(es[k - 1] >= 0);
        if q == p {
            lemma_multiplicity_of_power(p, a, before);
            assert forall|j: int| 0 <= j < k - 1 implies #[trigger] ps[j] != q by {
                assert(ps[j] < ps[k - 1]);
            }
        } else {
            lemma_multiplicity_past_power(p, a, q, before);
            if forall|j: int| 0 <= j < k ==> #[trigger] ps[j] != q {
                assert forall|j: int| 0 <= j < k - 1 implies #[trigger] ps[j] != q by {}
            }
        }
    } else {
        lemma_small_mod(1, q as nat);
    }
}

} // verus!
