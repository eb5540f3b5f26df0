//! Monzos: a ratio as the vector of the exponents of its prime factors.

use crate::factor::{
    factorize, floor_log2, ilog2, is_factor_list, is_factorization, is_prime,
    lemma_factor_list_complete, lemma_multiplicity_small, multiplicity, PrimePower, FACTOR_LIMIT,
};
use crate::fundamental::{
    law_product_of_prime_powers, lemma_divides_multiple, lemma_divides_transitive, lemma_multiplicity_in_product, lemma_multiplicity_of_power,
    lemma_prime_divisor, power_product, product_of,
};
use crate::interval::{divides, Interval};
use crate::prime_table::{PrimeTable, MAX_PRIME_COUNT};
use vstd::arithmetic::power::{lemma_pow0, lemma_pow1, lemma_pow_adds, lemma_pow_positive, pow};
use vstd::arithmetic::div_mod::lemma_fundamental_div_mod;
use vstd::prelude::*;

verus! {

/// The exponents of the primes 2, 3, 5, 7, 11, ... in a ratio, lowest prime
/// first. Primes beyond the end have exponent zero.
pub type Monzo = Vec<i32>;

/// The exponents of a monzo as mathematical integers.
pub open spec fn exponents(m: Seq<i32>) -> Seq<int> {
    m.map_values(|e: i32| e as int)
}

/// Every prime that divides `n` is in `primes`.
pub open spec fn covered(n: int, primes: Seq<int>) -> bool {
    forall|p: int| is_prime(p) && #[trigger] divides(p, n) ==> primes.contains(p)
}

/// The index of the last entry of `primes` that divides `n`, or -1 when
/// none does.
pub open spec fn top_index(n: int, primes: Seq<int>) -> int
    decreases primes.len(),
{
    if primes.len() == 0 {
        -1
    } else if divides(primes.last(), n) {
        primes.len() - 1
    } else {
        top_index(n, primes.drop_last())
    }
}

/// The exponent of the prime `p` in the ratio: positive from the numerator,
/// negative from the denominator.
pub open spec fn exponent(iv: Interval, p: int) -> int {
    multiplicity(iv.num(), p) - multiplicity(iv.den(), p)
}

/// The length of the monzo of `iv`: it ends at the highest prime that the
/// ratio uses, and is empty where the ratio uses none.
pub open spec fn monzo_len(iv: Interval, primes: Seq<int>) -> int {
    let n = top_index(iv.num(), primes);
    let d = top_index(iv.den(), primes);
    if n >= d {
        n + 1
    } else {
        d + 1
    }
}


/// The octaves spanned by the primes above two among the first `k`: the sum
/// over `1 <= i < k` of the whole octaves in `primes[i]` times its exponent.
pub open spec fn octave_span(iv: Interval, primes: Seq<int>, k: int) -> int
    decreases k,
{
    if k <= 1 {
        0
    } else {
        octave_span(iv, primes, k - 1) + floor_log2(primes[k - 1]) * exponent(iv, primes[k - 1])
    }
}

/// The monzo of a ratio over the primes of a table. With `octave_reduced`,
/// entry zero holds, besides the exponent of two, the octaves that the other
/// primes span.
pub open spec fn monzo_of(iv: Interval, primes: Seq<int>, octave_reduced: bool) -> Seq<int> {
    let len = monzo_len(iv, primes);
    Seq::new(
        len as nat,
        |i: int|
            if i == 0 {
                exponent(iv, primes[0]) + if octave_reduced {
                    octave_span(iv, primes, len)
                } else {
                    0
                }
            } else {
                exponent(iv, primes[i])
            },
    )
}

/// The sum over `1 <= i < k` of the whole octaves in `primes[i]` times the
/// multiplicity of `primes[i]` in `n`.
pub open spec fn span(n: int, primes: Seq<int>, k: int) -> int
    decreases k,
{
    if k <= 1 {
        0
    } else {
        span(n, primes, k - 1) + floor_log2(primes[k - 1]) * multiplicity(n, primes[k - 1])
    }
}

/// A bound on every entry of a monzo: 127 for the exponent of one prime,
/// and 63 octaves times 127 for each of the at most 100 000 primes of a
/// table.
pub const MAX_OCTAVES: i32 = 800_100_127;

proof fn lemma_top_index_is(n: int, primes: Seq<int>, t: int)
    requires
        -1 <= t < primes.len(),
        t >= 0 ==> divides(primes[t], n),
        forall|i: int| t < i < primes.len() ==> !divides(#[trigger] primes[i], n),
    ensures
        top_index(n, primes) == t,
    decreases primes.len(),
{
    if primes.len() > 0 && t < primes.len() - 1 {
        let rest = primes.drop_last();
        assert(!divides(primes[primes.len() - 1], n));
        assert forall|i: int| t < i < rest.len() implies !divides(#[trigger] rest[i], n) by {
            assert(rest[i] == primes[i]);
        }
        lemma_top_index_is(n, rest, t);
    }
}

/// Above `top_index` nothing divides, and `top_index` itself, where it is an
/// index, does.
pub proof fn lemma_top_index(n: int, primes: Seq<int>)
    ensures
        -1 <= top_index(n, primes) < primes.len(),
        top_index(n, primes) >= 0 ==> divides(primes[top_index(n, primes)], n),
        forall|i: int| top_index(n, primes) < i < primes.len() ==> !divides(#[trigger] primes[i], n),
    decreases primes.len(),
{
    if primes.len() > 0 && !divides(primes.last(), n) {
        let rest = primes.drop_last();
        lemma_top_index(n, rest);
        assert forall|i: int| top_index(n, primes) < i < primes.len() implies !divides(
            #[trigger] primes[i],
            n,
        ) by {
            if i < rest.len() {
                assert(rest[i] == primes[i]);
            }
        }
    }
}

/// Entries that do not divide `n` add nothing to the span.
proof fn lemma_span_skip(n: int, primes: Seq<int>, a: int, b: int)
    requires
        0 <= a <= b <= primes.len(),
        forall|i: int| a <= i < b ==> multiplicity(n, #[trigger] primes[i]) == 0,
    ensures
        span(n, primes, b) == span(n, primes, a),
    decreases b - a,
{
    if a < b {
        lemma_span_skip(n, primes, a, b - 1);
        assert(multiplicity(n, primes[b - 1]) == 0);
        assert(floor_log2(primes[b - 1]) * 0 == 0);
    }
}

/// Below two to the `k + 1`, the whole part of the base-two logarithm is at
/// most `k`.
proof fn lemma_floor_log2_bound(x: int, k: nat)
    requires
        x < vstd::arithmetic::power2::pow2(k + 1),
    ensures
        floor_log2(x) <= k,
    decreases k,
{
    if x >= 2 {
        vstd::arithmetic::power2::lemma_pow2_unfold(k + 1);
        if k == 0 {
            vstd::arithmetic::power2::lemma2_to64();
        } else {
            lemma_floor_log2_bound(x / 2, (k - 1) as nat);
        }
    }
}

/// A span over machine-sized primes is bounded by its length.
proof fn lemma_span_bound(n: int, primes: Seq<int>, k: int)
    requires
        n <= i128::MAX,
        0 <= k <= primes.len(),
        forall|i: int| 0 <= i < primes.len() ==> #[trigger] primes[i] <= u64::MAX,
    ensures
        0 <= span(n, primes, k) <= 8001 * k,
    decreases k,
{
    if k > 1 {
        lemma_span_bound(n, primes, k - 1);
        let p = primes[k - 1];
        lemma_multiplicity_small(n, p);
        vstd::arithmetic::power2::lemma2_to64();
        lemma_floor_log2_bound(p, 63);
        let a = floor_log2(p) as int;
        let b = multiplicity(n, p) as int;
        assert(0 <= a * b <= 8001) by (nonlinear_arith)
            requires
                0 <= a <= 63,
                0 <= b <= 127,
        ;
    }
}

/// A prime that falls between two neighbours of a factorization, before its
/// first or after its last entry, does not divide the number.
proof fn lemma_not_a_factor(fs: Seq<PrimePower>, n: int, q: int, k: int)
    requires
        is_factorization(fs, n),
        is_prime(q),
        0 <= k <= fs.len(),
        k > 0 ==> fs[k - 1].prime < q,
        k < fs.len() ==> q < fs[k].prime,
    ensures
        !divides(q, n),
        multiplicity(n, q) == 0,
{
    if divides(q, n) {
        let i = choose|i: int| 0 <= i < fs.len() && (#[trigger] fs[i]).prime == q;
        if i < k {
            if i < k - 1 {
                assert(fs[i].prime < fs[k - 1].prime);
            }
        } else {
            if i > k {
                assert(fs[k].prime < fs[i].prime);
            }
        }
    }
}

/// The exponents of the table's primes in `n` up to the last that divides
/// it, and the octaves they span.
pub open spec fn is_tally(v: Seq<i32>, o: int, n: int, primes: Seq<int>) -> bool {
    &&& v.len() == top_index(n, primes) + 1
    &&& forall|i: int| 0 <= i < v.len() ==> #[trigger] v[i] == multiplicity(n, primes[i])
    &&& o == span(n, primes, v.len() as int)
}

/// Files each exponent of a prime factorization under the index of its
/// prime. `None` exactly when a prime factor of `n` is missing from the
/// table.
fn tally_of_factors(fs: &Vec<PrimePower>, n: u128, table: &PrimeTable) -> (r: Option<
    (Vec<i32>, i64),
>)
    requires
        table.wf(),
        1 <= n <= i128::MAX,
        is_factorization(fs@, n as int),
    ensures
        r is Some <==> covered(n as int, table@),
        r matches Some((v, o)) ==> is_tally(v@, o as int, n as int, table@),
{
    let mut v: Vec<i32> = Vec::new();
    let mut o: i64 = 0;
    let mut k: usize = 0;
    while k < fs.len()
        invariant
            table.wf(),
            1 <= n <= i128::MAX,
            is_factorization(fs@, n as int),
            0 <= k <= fs.len(),
            0 <= v.len() <= table@.len(),
            forall|j: int| 0 <= j < k ==> table@.contains((#[trigger] fs@[j]).prime as int),
            k == 0 ==> v@.len() == 0,
            k > 0 ==> v.len() >= 1 && table@[v.len() - 1] == fs@[k - 1].prime,
            k > 0 ==> forall|i: int|
                0 <= i < v.len() ==> #[trigger] v@[i] == multiplicity(n as int, table@[i]),
            o == span(n as int, table@, v.len() as int),
        decreases fs.len() - k,
    {
        let f: PrimePower = fs[k];
        let found: Option<usize> = table.index_of(f.prime);
        let ix: usize = match found {
            Some(ix) => ix,
            None => {
                proof {
                    assert(is_prime(fs@[k as int].prime as int));
                    assert(multiplicity(n as int, f.prime as int) >= 1);
                    assert(divides(f.prime as int, n as int));
                }
                return None;
            },
        };
        let ghost old_len = v.len() as int;
        let ghost old_v = v@;
        proof {
            assert(fs@[k as int].exponent == multiplicity(n as int, f.prime as int));
            lemma_multiplicity_small(n as int, f.prime as int);
            if k > 0 {
                assert(fs@[k - 1].prime < fs@[k as int].prime);
                if ix < old_len {
                    if ix < old_len - 1 {
                        assert(table@[ix as int] < table@[old_len - 1]);
                    }
                }
            }
            assert forall|i: int| old_len <= i < ix implies multiplicity(
                n as int,
                #[trigger] table@[i],
            ) == 0 by {
                assert(table@[i] < table@[ix as int]);
                if k > 0 {
                    if old_len - 1 < i {
                        assert(table@[old_len - 1] < table@[i]);
                    }
                }
                lemma_not_a_factor(fs@, n as int, table@[i], k as int);
            }
        }
        while v.len() < ix + 1
            invariant
                0 <= old_len <= v.len() <= ix + 1,
                old_v.len() == old_len,
                ix < table@.len(),
                table@.len() <= MAX_PRIME_COUNT,
                v@.subrange(0, old_len) =~= old_v,
                forall|i: int| old_len <= i < v.len() ==> #[trigger] v@[i] == 0,
            decreases ix + 1 - v.len(),
        {
            v.push(0);
        }
        assert(v.len() == ix + 1);
        v[ix] = f.exponent as i32;
        proof {
            assert forall|i: int| 0 <= i < v.len() implies #[trigger] v@[i] == multiplicity(
                n as int,
                table@[i],
            ) by {
                if i < ix {
                    if i < old_len {
                        assert(v@[i] == old_v[i]);
                    }
                }
            }
        }
        if ix != 0 {
            let l: u32 = ilog2(table.prime(ix));
            proof {
                lemma_span_skip(n as int, table@, old_len, ix as int);
                lemma_span_bound(n as int, table@, ix as int);
                lemma_span_bound(n as int, table@, ix + 1);
            }
            o = o + (l as i64) * (f.exponent as i64);
        }
        k = k + 1;
    }
    proof {
        let t = v.len() - 1;
        if k == 0 {
            assert forall|i: int| -1 < i < table@.len() implies !divides(
                #[trigger] table@[i],
                n as int,
            ) by {
                lemma_not_a_factor(fs@, n as int, table@[i], 0);
            }
            lemma_top_index_is(n as int, table@, -1);
        } else {
            assert(multiplicity(n as int, fs@[k - 1].prime as int) >= 1);
            assert forall|i: int| t < i < table@.len() implies !divides(
                #[trigger] table@[i],
                n as int,
            ) by {
                assert(table@[t] < table@[i]);
                lemma_not_a_factor(fs@, n as int, table@[i], k as int);
            }
            lemma_top_index_is(n as int, table@, t);
        }
        assert forall|p: int| is_prime(p) && #[trigger] divides(p, n as int) implies table@.contains(
            p,
        ) by {
            let j = choose|j: int| 0 <= j < fs@.len() && (#[trigger] fs@[j]).prime == p;
            assert(table@.contains(fs@[j].prime as int));
        }
    }
    Some((v, o))
}

/// The product of powers reads only the exponents that it uses.
proof fn lemma_product_of_agrees(ps: Seq<int>, es: Seq<int>, fs: Seq<int>, k: int)
    requires
        0 <= k <= es.len(),
        k <= fs.len(),
        forall|j: int| 0 <= j < k ==> #[trigger] es[j] == fs[j],
    ensures
        product_of(ps, es, k) == product_of(ps, fs, k),
    decreases k,
{
    if k > 0 {
        lemma_product_of_agrees(ps, es, fs, k - 1);
        assert(es[k - 1] == fs[k - 1]);
    }
}

/// Divides `n` by each prime of the table as often as it goes, and files
/// the counts under the indices of the primes. `None` exactly when a prime
/// factor of `n` is missing from the table: when something is left of `n`.
fn tally_by_table(n: u128, table: &PrimeTable) -> (r: Option<(Vec<i32>, i64)>)
    requires
        table.wf(),
        1 <= n <= i128::MAX,
    ensures
        r is Some <==> covered(n as int, table@),
        r matches Some((v, o)) ==> is_tally(v@, o as int, n as int, table@),
{
    let ghost ps = table@;
    let count: usize = table.len();
    let mut x: u128 = n;
    let mut all: Vec<i32> = Vec::new();
    let mut used: usize = 0;
    let mut i: usize = 0;
    while i < count
        invariant
            table.wf(),
            ps == table@,
            count == ps.len(),
            1 <= n <= i128::MAX,
            0 <= used <= i <= count,
            all@.len() == i,
            1 <= x <= n,
            n == x * product_of(ps, exponents(all@), i as int),
            forall|j: int| 0 <= j < i ==> 0 <= #[trigger] all@[j] <= 127,
            forall|j: int| 0 <= j < i ==> !divides(#[trigger] ps[j], x as int),
            used > 0 ==> all@[used - 1] > 0,
            forall|j: int| used <= j < i ==> #[trigger] all@[j] == 0,
        decreases count - i,
    {
        let p: u128 = table.prime(i) as u128;
        let ghost x0 = x;
        let ghost before = all@;
        let mut e: i32 = 0;
        proof {
            assert(is_prime(ps[i as int]));
            lemma_pow0(p as int);
        }
        while x % p == 0
            invariant
                p >= 2,
                1 <= x <= x0,
                x0 <= i128::MAX,
                0 <= e <= 127,
                x0 == x * pow(p as int, e as nat),
            decreases x,
        {
            proof {
                lemma_fundamental_div_mod(x as int, p as int);
                lemma_multiplicity_of_power(p as int, e as nat, x as int);
                lemma_multiplicity_small(x0 as int, p as int);
                lemma_pow_adds(p as int, 1, e as nat);
                lemma_pow1(p as int);
                let q = (x / p) as int;
                let w = pow(p as int, e as nat);
                assert(q * (p * w) == (p * q) * w) by (nonlinear_arith);
                assert(q >= 1 && q < x) by (nonlinear_arith)
                    requires
                        x == p * q,
                        x >= 1,
                        p >= 2,
                ;
            }
            x = x / p;
            e = e + 1;
        }
        all.push(e);
        if e > 0 {
            used = i + 1;
        }
        proof {
            let w = pow(p as int, e as nat);
            lemma_pow_positive(p as int, e as nat);
            lemma_product_of_agrees(ps, exponents(before), exponents(all@), i as int);
            let rest = product_of(ps, exponents(before), i as int);
            assert(exponents(all@)[i as int] == e);
            assert(x0 * rest == x * (rest * w)) by (nonlinear_arith)
                requires
                    x0 == x * w,
            ;
            assert forall|j: int| 0 <= j < i + 1 implies !divides(#[trigger] ps[j], x as int) by {
                if j < i {
                    if divides(ps[j], x as int) {
                        assert(is_prime(ps[j]));
                        lemma_divides_multiple(x as int, w);
                        lemma_divides_transitive(ps[j], x as int, x0 as int);
                    }
                }
            }
            assert forall|j: int| 0 <= j < i + 1 implies 0 <= #[trigger] all@[j] <= 127 by {
                if j < i {
                    assert(all@[j] == before[j]);
                }
            }
            assert forall|j: int| used <= j < i + 1 implies #[trigger] all@[j] == 0 by {
                if j < i {
                    assert(all@[j] == before[j]);
                }
            }
            if used > 0 && used <= i {
                assert(all@[used - 1] == before[used - 1]);
            }
            assert(rest >= 1) by (nonlinear_arith)
                requires
                    n == x0 * rest,
                    n >= 1,
                    x0 >= 1,
            ;
            assert(rest * w >= 1) by (nonlinear_arith)
                requires
                    rest >= 1,
                    w >= 1,
            ;
            assert(x <= n) by (nonlinear_arith)
                requires
                    n == x * (rest * w),
                    rest * w >= 1,
                    x >= 1,
            ;
        }
        i = i + 1;
    }
    let ghost es = exponents(all@);
    let ghost whole = product_of(ps, es, count as int);
    proof {
        assert forall|j: int| 0 <= j < ps.len() implies #[trigger] es[j] >= 0 by {
            assert(all@[j] >= 0);
        }
    }
    if x != 1 {
        proof {
            let q = lemma_prime_divisor(x as int);
            lemma_multiplicity_in_product(ps, es, count as int, q);
            lemma_divides_multiple(x as int, whole);
            lemma_divides_transitive(q, x as int, n as int);
            if ps.contains(q) {
                let j = choose|j: int| 0 <= j < ps.len() && ps[j] == q;
                assert(!divides(ps[j], x as int));
            }
        }
        return None;
    }
    proof {
        assert(x * whole == whole) by (nonlinear_arith)
            requires
                x == 1,
        ;
        assert(n == whole);
        assert forall|j: int| 0 <= j < ps.len() implies multiplicity(n as int, #[trigger] ps[j])
            == all@[j] by {
            lemma_multiplicity_in_product(ps, es, count as int, ps[j]);
            assert(es[j] == all@[j]);
        }
        assert forall|q: int| is_prime(q) && #[trigger] divides(q, n as int) implies ps.contains(
            q,
        ) by {
            lemma_multiplicity_in_product(ps, es, count as int, q);
            if !ps.contains(q) {
                assert forall|j: int| 0 <= j < count implies #[trigger] ps[j] != q by {}
                assert(multiplicity(n as int, q) == 0);
            }
        }
        assert forall|j: int| used - 1 < j < ps.len() implies !divides(#[trigger] ps[j], n as int) by {
            assert(all@[j] == 0);
            assert(is_prime(ps[j]));
        }
        if used > 0 {
            assert(multiplicity(n as int, ps[used - 1]) > 0);
        }
        lemma_top_index_is(n as int, ps, used - 1);
    }
    all.truncate(used);
    let mut o: i64 = 0;
    let mut k: usize = 1;
    while k < used
        invariant
            table.wf(),
            ps == table@,
            1 <= n <= i128::MAX,
            used <= ps.len(),
            1 <= k,
            k <= used || used == 0,
            all@.len() == used,
            forall|j: int| 0 <= j < used ==> #[trigger] all@[j] == multiplicity(n as int, ps[j]),
            o == span(n as int, ps, if k <= used { k as int } else { used as int }),
        decreases used - k,
    {
        proof {
            lemma_span_bound(n as int, ps, k as int);
            lemma_span_bound(n as int, ps, k + 1);
            lemma_multiplicity_small(n as int, ps[k as int]);
        }
        let l: u32 = ilog2(table.prime(k));
        o = o + (l as i64) * (all[k] as i64);
        k = k + 1;
    }
    Some((all, o))
}

/// Factorizes `n` and files each exponent under the index of its prime.
/// `None` exactly when a prime factor of `n` is missing from the table.
///
/// A factor that is not in the table and is small enough to be a prime for
/// certain settles it. A larger one may be a composite that was taken for
/// a prime; then the table itself is asked.
fn tally(n: u128, table: &PrimeTable) -> (r: Option<(Vec<i32>, i64)>)
    requires
        table.wf(),
        1 <= n <= i128::MAX,
    ensures
        r is Some <==> covered(n as int, table@),
        r matches Some((v, o)) ==> is_tally(v@, o as int, n as int, table@),
{
    let fs: Vec<PrimePower> = factorize(n);
    let mut j: usize = 0;
    while j < fs.len()
        invariant
            table.wf(),
            1 <= n <= i128::MAX,
            is_factor_list(fs@, n as int),
            0 <= j <= fs.len(),
            forall|i: int| 0 <= i < j ==> table@.contains((#[trigger] fs@[i]).prime as int),
        decreases fs.len() - j,
    {
        let p: u128 = fs[j].prime;
        if table.index_of(p).is_none() {
            if p < FACTOR_LIMIT {
                proof {
                    assert(is_prime(fs@[j as int].prime as int));
                    assert(multiplicity(n as int, p as int) >= 1);
                    assert(divides(p as int, n as int));
                }
                return None;
            }
            return tally_by_table(n, table);
        }
        j = j + 1;
    }
    proof {
        assert forall|i: int| 0 <= i < fs@.len() implies is_prime((#[trigger] fs@[i]).prime as int) by {
            assert(table@.contains(fs@[i].prime as int));
            let at = choose|at: int| 0 <= at < table@.len() && table@[at] == fs@[i].prime as int;
            assert(is_prime(table@[at]));
        }
        lemma_factor_list_complete(fs@, n as int);
    }
    tally_of_factors(&fs, n, table)
}

/// The octaves of a ratio are those of its numerator less those of its
/// denominator.
proof fn lemma_octave_span_split(iv: Interval, primes: Seq<int>, k: int)
    ensures
        octave_span(iv, primes, k) == span(iv.num(), primes, k) - span(iv.den(), primes, k),
    decreases k,
{
    if k > 1 {
        lemma_octave_span_split(iv, primes, k - 1);
        let l = floor_log2(primes[k - 1]) as int;
        let a = multiplicity(iv.num(), primes[k - 1]) as int;
        let b = multiplicity(iv.den(), primes[k - 1]) as int;
        assert(l * (a - b) == l * a - l * b) by (nonlinear_arith);
    }
}

/// The span of `n` over `k` primes is its span up to the last prime that
/// divides it.
proof fn lemma_span_settles(n: int, primes: Seq<int>, k: int)
    requires
        top_index(n, primes) < k <= primes.len(),
    ensures
        span(n, primes, k) == span(n, primes, top_index(n, primes) + 1),
{
    let a = top_index(n, primes) + 1;
    lemma_top_index(n, primes);
    assert forall|i: int| a <= i < k implies multiplicity(n, #[trigger] primes[i]) == 0 by {
        assert(!divides(primes[i], n));
    }
    lemma_span_skip(n, primes, a, k);
}

/// No entry of a monzo over a table leaves the range of `MAX_OCTAVES`.
pub proof fn lemma_monzo_bounds(iv: Interval, table: &PrimeTable, octave_reduced: bool)
    requires
        iv.wf(),
        table.wf(),
    ensures
        0 <= monzo_of(iv, table@, octave_reduced).len() <= table@.len(),
        forall|i: int|
            0 <= i < monzo_of(iv, table@, octave_reduced).len() ==> -MAX_OCTAVES <= (
            #[trigger] monzo_of(iv, table@, octave_reduced)[i]) <= MAX_OCTAVES,
{
    let primes = table@;
    let len = monzo_len(iv, primes);
    lemma_top_index(iv.num(), primes);
    lemma_top_index(iv.den(), primes);
    lemma_octave_span_split(iv, primes, len);
    lemma_span_bound(iv.num(), primes, len);
    lemma_span_bound(iv.den(), primes, len);
    assert forall|i: int| 0 <= i < len implies -MAX_OCTAVES <= (#[trigger] monzo_of(
        iv,
        primes,
        octave_reduced,
    )[i]) <= MAX_OCTAVES by {
        lemma_multiplicity_small(iv.num(), primes[i]);
        lemma_multiplicity_small(iv.den(), primes[i]);
    }
}

/// A source of monzos: a value that denotes an exact ratio.
pub trait JIRatio {
    /// The ratio that `self` denotes.
    spec fn ratio(&self) -> Interval;

    /// The monzo of the ratio over the primes of `primes`. There is none for
    /// the sentinel, and none where a prime factor is missing from the
    /// table.
    fn monzo(&self, primes: &PrimeTable, octave_reduced: bool) -> (r: Option<Monzo>)
        requires
            self.ratio().wf(),
            primes.wf(),
        ensures
            r is Some <==> (!self.ratio().sentinel() && covered(self.ratio().num(), primes@)
                && covered(self.ratio().den(), primes@)),
            r matches Some(m) ==> exponents(m@) == monzo_of(self.ratio(), primes@, octave_reduced),
    ;
}

impl JIRatio for Interval {
    open spec fn ratio(&self) -> Interval {
        *self
    }

    fn monzo(&self, primes: &PrimeTable, octave_reduced: bool) -> (r: Option<Monzo>) {
        if self.is_sentinel() {
            return None;
        }
        let num: u128 = self.numerator() as u128;
        let den: u128 = self.denominator() as u128;
        let (vn, on) = match tally(num, primes) {
            Some(t) => t,
            None => {
                return None;
            },
        };
        let (vd, od) = match tally(den, primes) {
            Some(t) => t,
            None => {
                return None;
            },
        };
        let len: usize = if vn.len() >= vd.len() {
            vn.len()
        } else {
            vd.len()
        };
        let ghost table = primes@;
        proof {
            lemma_top_index(self.num(), table);
            lemma_top_index(self.den(), table);
            assert(len == monzo_len(*self, table));
        }
        let mut m: Vec<i32> = Vec::new();
        let mut i: usize = 0;
        while i < len
            invariant
                self.wf(),
                primes.wf(),
                table == primes@,
                is_tally(vn@, on as int, self.num(), table),
                is_tally(vd@, od as int, self.den(), table),
                vn.len() <= len <= table.len(),
                vd.len() <= len,
                0 <= i <= len,
                m.len() == i,
                forall|j: int| 0 <= j < i ==> #[trigger] m@[j] == exponent(*self, table[j]),
            decreases len - i,
        {
            proof {
                lemma_top_index(self.num(), table);
                lemma_top_index(self.den(), table);
                lemma_multiplicity_small(self.num(), table[i as int]);
                lemma_multiplicity_small(self.den(), table[i as int]);
                if i >= vn.len() {
                    assert(!divides(table[i as int], self.num()));
                }
                if i >= vd.len() {
                    assert(!divides(table[i as int], self.den()));
                }
            }
            let a: i32 = if i < vn.len() {
                vn[i]
            } else {
                0
            };
            let b: i32 = if i < vd.len() {
                vd[i]
            } else {
                0
            };
            m.push(a - b);
            i = i + 1;
        }
        if octave_reduced && len > 0 {
            proof {
                lemma_octave_span_split(*self, table, len as int);
                lemma_span_settles(self.num(), table, len as int);
                lemma_span_settles(self.den(), table, len as int);
                lemma_span_bound(self.num(), table, len as int);
                lemma_span_bound(self.den(), table, len as int);
                lemma_multiplicity_small(self.num(), table[0]);
                lemma_multiplicity_small(self.den(), table[0]);
            }
            let octaves: i64 = on - od;
            m[0] = m[0] + octaves as i32;
        }
        proof {
            assert(exponents(m@) =~= monzo_of(*self, table, octave_reduced));
        }
        Some(m)
    }
}

/// A monzo moved by whole octaves: the count is added at index zero, and
/// becomes the only entry of an empty monzo.
pub open spec fn shifted(m: Seq<int>, octaves: int) -> Seq<int> {
    if m.len() == 0 {
        seq![octaves]
    } else {
        m.update(0, m[0] + octaves)
    }
}

/// A copy of `monzo` moved by `octaves` octaves.
pub fn shift_octaves(monzo: &Monzo, octaves: i32) -> (r: Monzo)
    requires
        monzo@.len() > 0 ==> i32::MIN <= monzo@[0] + octaves <= i32::MAX,
    ensures
        exponents(r@) == shifted(exponents(monzo@), octaves as int),
{
    let mut r: Vec<i32> = Vec::new();
    if monzo.len() == 0 {
        r.push(octaves);
        assert(exponents(r@) =~= shifted(exponents(monzo@), octaves as int));
        return r;
    }
    r.push(monzo[0] + octaves);
    let mut i: usize = 1;
    while i < monzo.len()
        invariant
            1 <= i <= monzo.len(),
            r.len() == i,
            r@[0] == monzo@[0] + octaves,
            forall|j: int| 1 <= j < i ==> #[trigger] r@[j] == monzo@[j],
        decreases monzo.len() - i,
    {
        r.push(monzo[i]);
        i = i + 1;
    }
    assert(exponents(r@) =~= shifted(exponents(monzo@), octaves as int));
    r
}

/// The unison has no prime factors: its monzo is empty. Moved by `n`
/// octaves, it holds exactly `n` at index zero and nothing else.
pub proof fn law_unison_octaves(iv: Interval, table: &PrimeTable, octave_reduced: bool, n: int)
    requires
        iv.num() == 1,
        iv.den() == 1,
        table.wf(),
    ensures
        monzo_of(iv, table@, octave_reduced) == Seq::<int>::empty(),
        shifted(monzo_of(iv, table@, octave_reduced), n) == seq![n],
        shifted(monzo_of(iv, table@, octave_reduced), n)[0] == n,
{
    let primes = table@;
    assert forall|i: int| -1 < i < primes.len() implies !divides(#[trigger] primes[i], 1) by {
        assert(is_prime(primes[i]));
        vstd::arithmetic::div_mod::lemma_small_mod(1, primes[i] as nat);
    }
    lemma_top_index_is(1, primes, -1);
    assert(monzo_len(iv, primes) == 0);
    assert(monzo_of(iv, primes, octave_reduced) =~= Seq::<int>::empty());
}

/// The part of an exponent that counts for the numerator: the exponent
/// where it is positive, else zero.
pub open spec fn positive_part(e: int) -> nat {
    if e > 0 {
        e as nat
    } else {
        0
    }
}

/// The numerator of the ratio that a monzo stands for: the product, over
/// its first `k` entries, of the primes with positive exponents.
pub open spec fn numerator_of(m: Seq<int>, primes: Seq<int>, k: int) -> int
    decreases k,
{
    if k <= 0 {
        1
    } else {
        numerator_of(m, primes, k - 1) * pow(primes[k - 1], positive_part(m[k - 1]))
    }
}

/// The denominator of the ratio that a monzo stands for: the product, over
/// its first `k` entries, of the primes with negative exponents.
pub open spec fn denominator_of(m: Seq<int>, primes: Seq<int>, k: int) -> int
    decreases k,
{
    if k <= 0 {
        1
    } else {
        denominator_of(m, primes, k - 1) * pow(primes[k - 1], positive_part(-m[k - 1]))
    }
}

/// The octaves that the entries above index zero of a monzo span, among
/// its first `k`.
pub open spec fn octaves_in(m: Seq<int>, primes: Seq<int>, k: int) -> int
    decreases k,
{
    if k <= 1 {
        0
    } else {
        octaves_in(m, primes, k - 1) + floor_log2(primes[k - 1]) * m[k - 1]
    }
}

/// A monzo with plain exponents: an octave-reduced one with the octaves of
/// its other entries taken out of entry zero again.
pub open spec fn plain(m: Seq<int>, primes: Seq<int>, octave_reduced: bool) -> Seq<int> {
    if octave_reduced && m.len() > 0 {
        m.update(0, m[0] - octaves_in(m, primes, m.len() as int))
    } else {
        m
    }
}

proof fn lemma_octaves_in(iv: Interval, primes: Seq<int>, m: Seq<int>, k: int)
    requires
        0 <= k <= m.len(),
        forall|i: int| 1 <= i < k ==> #[trigger] m[i] == exponent(iv, primes[i]),
    ensures
        octaves_in(m, primes, k) == octave_span(iv, primes, k),
    decreases k,
{
    if k > 1 {
        lemma_octaves_in(iv, primes, m, k - 1);
        assert(m[k - 1] == exponent(iv, primes[k - 1]));
    }
}

proof fn lemma_power_product_settles(n: int, primes: Seq<int>, a: int, b: int)
    requires
        0 <= a <= b <= primes.len(),
        forall|i: int| a <= i < b ==> multiplicity(n, #[trigger] primes[i]) == 0,
    ensures
        power_product(n, primes, b) == power_product(n, primes, a),
    decreases b - a,
{
    if a < b {
        lemma_power_product_settles(n, primes, a, b - 1);
        assert(multiplicity(n, primes[b - 1]) == 0);
        lemma_pow0(primes[b - 1]);
    }
}

proof fn lemma_ratio_of_exponents(iv: Interval, primes: Seq<int>, m: Seq<int>, k: int)
    requires
        0 <= k <= m.len(),
        forall|i: int| 0 <= i < k ==> #[trigger] m[i] == exponent(iv, primes[i]),
    ensures
        numerator_of(m, primes, k) * power_product(iv.den(), primes, k) == denominator_of(
            m,
            primes,
            k,
        ) * power_product(iv.num(), primes, k),
    decreases k,
{
    if k > 0 {
        lemma_ratio_of_exponents(iv, primes, m, k - 1);
        let p = primes[k - 1];
        let a = multiplicity(iv.num(), p);
        let b = multiplicity(iv.den(), p);
        assert(m[k - 1] == a - b);
        let up = positive_part(a - b);
        let down = positive_part(b - a);
        assert(up + b == down + a);
        lemma_pow_adds(p, up, b);
        lemma_pow_adds(p, down, a);
        let (x, y, u, v) = (pow(p, up), pow(p, b), pow(p, down), pow(p, a));
        let (n0, d0, pn, pd) = (
            numerator_of(m, primes, k - 1),
            denominator_of(m, primes, k - 1),
            power_product(iv.num(), primes, k - 1),
            power_product(iv.den(), primes, k - 1),
        );
        assert(x * y == u * v);
        assert((n0 * x) * (pd * y) == (n0 * pd) * (x * y)) by (nonlinear_arith);
        assert((d0 * u) * (pn * v) == (d0 * pn) * (u * v)) by (nonlinear_arith);
    }
}

/// The monzo of a ratio gives the ratio back: the primes of the monzo,
/// raised to its exponents, multiply to a fraction of the same value. So
/// the monzo has the size of the ratio it was taken from, to the last
/// cent.
pub proof fn law_monzo_gives_back_ratio(iv: Interval, table: &PrimeTable, octave_reduced: bool)
    requires
        iv.wf(),
        !iv.sentinel(),
        table.wf(),
        covered(iv.num(), table@),
        covered(iv.den(), table@),
    ensures
        ({
            let m = plain(monzo_of(iv, table@, octave_reduced), table@, octave_reduced);
            numerator_of(m, table@, m.len() as int) * iv.den() == denominator_of(
                m,
                table@,
                m.len() as int,
            ) * iv.num()
        }),
{
    let primes = table@;
    let reduced = monzo_of(iv, primes, octave_reduced);
    let m = plain(reduced, primes, octave_reduced);
    let len = monzo_len(iv, primes);
    lemma_top_index(iv.num(), primes);
    lemma_top_index(iv.den(), primes);
    if octave_reduced {
        lemma_octaves_in(iv, primes, reduced, len);
    }
    assert(m =~= monzo_of(iv, primes, false));
    lemma_ratio_of_exponents(iv, primes, m, len);
    assert forall|i: int| len <= i < primes.len() implies multiplicity(
        iv.num(),
        #[trigger] primes[i],
    ) == 0 by {
        assert(!divides(primes[i], iv.num()));
    }
    assert forall|i: int| len <= i < primes.len() implies multiplicity(
        iv.den(),
        #[trigger] primes[i],
    ) == 0 by {
        assert(!divides(primes[i], iv.den()));
    }
    lemma_power_product_settles(iv.num(), primes, len, primes.len() as int);
    lemma_power_product_settles(iv.den(), primes, len, primes.len() as int);
    law_product_of_prime_powers(iv.num(), primes);
    law_product_of_prime_powers(iv.den(), primes);
}

} // verus!
