//! Exact frequency ratios.
//!
//! An [`Interval`] is a positive fraction in lowest terms, or the sentinel:
//! the mark "keep whatever was tuned before", which is no pitch ratio.

use crate::fundamental::law_lowest_terms_unique;
use rational::Rational;
use vstd::prelude::*;

verus! {

/// `d` divides `n`.
pub open spec fn divides(d: int, n: int) -> bool {
    d != 0 && n % d == 0
}

/// No integer above one divides both `a` and `b`.
pub open spec fn coprime(a: int, b: int) -> bool {
    forall|d: int| d > 1 ==> !(#[trigger] divides(d, a) && divides(d, b))
}

/// `p / q` is the same fraction as `n / d`, and both `p` and `q` fit the
/// machine representation of an interval.
pub open spec fn fits_as(p: int, q: int, n: int, d: int) -> bool {
    0 <= p <= i128::MAX && 0 < q <= i128::MAX && p * d == n * q
}

/// The fraction `n / d` can be held by an [`Interval`].
pub open spec fn representable(n: int, d: int) -> bool {
    exists|p: int, q: int| #[trigger] fits_as(p, q, n, d)
}

/// A frequency ratio, or the mark that stands for "no change".
#[derive(Clone, Copy, Debug, PartialEq, Eq, Structural)]
pub struct Interval {
    num: i128,
    den: i128,
}

/// `Rational::new` of the `rational` crate: the fraction `num / den` brought
/// to lowest terms with a positive denominator. Trusted, not proved.
#[verifier::external_body]
fn lowest_terms(num: i128, den: i128) -> (r: (i128, i128))
    requires
        num >= 0,
        den > 0,
    ensures
        r.0 >= 0,
        r.1 > 0,
        r.0 * den == num * r.1,
        coprime(r.0 as int, r.1 as int),
{
    let q: Rational = Rational::new(num, den);
    (q.numerator(), q.denominator())
}

/// `Rational::checked_mul` of the `rational` crate: the product in lowest
/// terms, or `None` when its numerator or denominator leaves the `i128`
/// range. Trusted, not proved.
#[verifier::external_body]
fn product(a: &Interval, b: &Interval) -> (r: Option<Interval>)
    requires
        a.wf(),
        b.wf(),
    ensures
        match r {
            Some(p) => p.wf() && p.num() * (a.den() * b.den()) == (a.num() * b.num()) * p.den(),
            None => !representable(a.num() * b.num(), a.den() * b.den()),
        },
{
    match Rational::new(a.num, a.den).checked_mul(Rational::new(b.num, b.den)) {
        Some(p) => Some(Interval { num: p.numerator(), den: p.denominator() }),
        None => None,
    }
}

/// `Rational::checked_div` of the `rational` crate: the quotient in lowest
/// terms, or `None` when its numerator or denominator leaves the `i128`
/// range. The divisor must not be zero. Trusted, not proved.
#[verifier::external_body]
fn quotient(a: &Interval, b: &Interval) -> (r: Option<Interval>)
    requires
        a.wf(),
        b.wf(),
        b.num() > 0,
    ensures
        match r {
            Some(p) => p.wf() && p.num() * (a.den() * b.num()) == (a.num() * b.den()) * p.den(),
            None => !representable(a.num() * b.den(), a.den() * b.num()),
        },
{
    match Rational::new(a.num, a.den).checked_div(Rational::new(b.num, b.den)) {
        Some(p) => Some(Interval { num: p.numerator(), den: p.denominator() }),
        None => None,
    }
}

/// Two to the power 64.
spec fn two_64() -> int {
    0x1_0000_0000_0000_0000
}

/// A product of two numbers below two to the power 127, in two halves of
/// 128 bits.
struct Wide {
    high: u128,
    low: u128,
}

impl View for Wide {
    type V = int;

    closed spec fn view(&self) -> int {
        self.high * two_64() * two_64() + self.low
    }
}

/// The product of `x` and `y`, neither of which uses the top bit, from the
/// four products of their halves.
fn wide_product(x: u128, y: u128) -> (r: Wide)
    requires
        x <= i128::MAX,
        y <= i128::MAX,
    ensures
        r@ == x * y,
{
    let x1: u128 = x >> 64;
    let x0: u128 = x & 0xFFFF_FFFF_FFFF_FFFF;
    let y1: u128 = y >> 64;
    let y0: u128 = y & 0xFFFF_FFFF_FFFF_FFFF;
    assert(x == x1 * 0x1_0000_0000_0000_0000 + x0 && x0 < 0x1_0000_0000_0000_0000 && x1
        < 0x8000_0000_0000_0000) by (bit_vector)
        requires
            x1 == x >> 64,
            x0 == x & 0xFFFF_FFFF_FFFF_FFFF,
            x <= 0x7FFF_FFFF_FFFF_FFFF_FFFF_FFFF_FFFF_FFFFu128,
    ;
    assert(y == y1 * 0x1_0000_0000_0000_0000 + y0 && y0 < 0x1_0000_0000_0000_0000 && y1
        < 0x8000_0000_0000_0000) by (bit_vector)
        requires
            y1 == y >> 64,
            y0 == y & 0xFFFF_FFFF_FFFF_FFFF,
            y <= 0x7FFF_FFFF_FFFF_FFFF_FFFF_FFFF_FFFF_FFFFu128,
    ;
    proof {
        assert(x1 * y1 < 0x8000_0000_0000_0000 * 0x8000_0000_0000_0000) by (nonlinear_arith)
            requires
                0 <= x1 < 0x8000_0000_0000_0000,
                0 <= y1 < 0x8000_0000_0000_0000,
        ;
        assert(x1 * y0 <= 0x7FFF_FFFF_FFFF_FFFF * 0xFFFF_FFFF_FFFF_FFFF) by (nonlinear_arith)
            requires
                0 <= x1 <= 0x7FFF_FFFF_FFFF_FFFF,
                0 <= y0 <= 0xFFFF_FFFF_FFFF_FFFF,
        ;
        assert(x0 * y1 <= 0xFFFF_FFFF_FFFF_FFFF * 0x7FFF_FFFF_FFFF_FFFF) by (nonlinear_arith)
            requires
                0 <= y1 <= 0x7FFF_FFFF_FFFF_FFFF,
                0 <= x0 <= 0xFFFF_FFFF_FFFF_FFFF,
        ;
        assert(x0 * y0 <= 0xFFFF_FFFF_FFFF_FFFF * 0xFFFF_FFFF_FFFF_FFFF) by (nonlinear_arith)
            requires
                0 <= x0 <= 0xFFFF_FFFF_FFFF_FFFF,
                0 <= y0 <= 0xFFFF_FFFF_FFFF_FFFF,
        ;
    }
    let top: u128 = x1 * y1;
    let middle: u128 = x1 * y0 + x0 * y1;
    let bottom: u128 = x0 * y0;
    let m1: u128 = middle >> 64;
    let m0: u128 = middle & 0xFFFF_FFFF_FFFF_FFFF;
    assert(middle == m1 * 0x1_0000_0000_0000_0000 + m0 && m0 < 0x1_0000_0000_0000_0000 && m1
        < 0x1_0000_0000_0000_0000) by (bit_vector)
        requires
            m1 == middle >> 64,
            m0 == middle & 0xFFFF_FFFF_FFFF_FFFF,
    ;
    let shifted: u128 = m0 * 0x1_0000_0000_0000_0000;
    let (low, carry): (u128, u128) = if bottom > u128::MAX - shifted {
        (bottom - (u128::MAX - shifted) - 1, 1)
    } else {
        (bottom + shifted, 0)
    };
    let high: u128 = top + m1 + carry;
    proof {
        let t = two_64();
        assert(x * y == (x1 * y1) * t * t + (x1 * y0 + x0 * y1) * t + x0 * y0) by (nonlinear_arith)
            requires
                x == x1 * t + x0,
                y == y1 * t + y0,
        ;
        assert(high * t * t + low == top * t * t + (m1 * t + m0) * t + bottom) by (nonlinear_arith)
            requires
                high == top + m1 + carry,
                low + carry * (t * t) == bottom + m0 * t,
                t == 0x1_0000_0000_0000_0000,
        ;
    }
    Wide { high, low }
}

impl Interval {
    /// The numerator, as a mathematical integer.
    pub closed spec fn num(&self) -> int {
        self.num as int
    }

    /// The denominator, as a mathematical integer.
    pub closed spec fn den(&self) -> int {
        self.den as int
    }

    /// Lowest terms, positive denominator, nothing negative. The sentinel
    /// is held as zero.
    pub open spec fn wf(&self) -> bool {
        &&& 0 <= self.num() <= i128::MAX
        &&& 0 < self.den() <= i128::MAX
        &&& coprime(self.num(), self.den())
    }

    /// The mark "keep the previous tuning" rather than a pitch ratio.
    pub open spec fn sentinel(&self) -> bool {
        self.num() == 0
    }

    /// `self` and `other` denote the same number.
    pub open spec fn same_value(&self, other: &Interval) -> bool {
        self.num() * other.den() == other.num() * self.den()
    }

    /// `self` is numerically smaller than `other`.
    pub open spec fn smaller(&self, other: &Interval) -> bool {
        self.num() * other.den() < other.num() * self.den()
    }

    /// The pitch ratio `num / den`, in lowest terms. `None` exactly when
    /// `num` or `den` is not positive: zero is no pitch ratio, and the
    /// sentinel is made by [`Interval::keep`] alone.
    pub fn new(num: i128, den: i128) -> (r: Option<Interval>)
        ensures
            r is Some <==> (num > 0 && den > 0),
            r matches Some(iv) ==> iv.wf() && !iv.sentinel() && iv.num() * den == num * iv.den(),
    {
        if num <= 0 || den <= 0 {
            return None;
        }
        let (n, d) = lowest_terms(num, den);
        proof {
            if n == 0 {
                assert(n * den == 0);
                assert(num * d > 0) by (nonlinear_arith)
                    requires
                        num > 0,
                        d > 0,
                ;
            }
        }
        Some(Interval { num: n, den: d })
    }

    /// The mark "keep the previous tuning".
    pub fn keep() -> (r: Interval)
        ensures
            r.wf(),
            r.sentinel(),
            r.den() == 1,
    {
        let r = Interval { num: 0, den: 1 };
        proof {
            lemma_coprime_with_one(0);
        }
        r
    }

    /// The unison, 1/1.
    pub fn unison() -> (r: Interval)
        ensures
            r.wf(),
            r.num() == 1,
            r.den() == 1,
    {
        let r = Interval { num: 1, den: 1 };
        proof {
            lemma_coprime_with_one(1);
        }
        r
    }

    /// Whether this is the sentinel rather than a pitch ratio.
    pub fn is_sentinel(&self) -> (r: bool)
        ensures
            r == self.sentinel(),
    {
        self.num == 0
    }

    /// The numerator in lowest terms; zero for the sentinel.
    pub fn numerator(&self) -> (r: i128)
        ensures
            r == self.num(),
    {
        self.num
    }

    /// The denominator in lowest terms; one for the sentinel.
    pub fn denominator(&self) -> (r: i128)
        ensures
            r == self.den(),
    {
        self.den
    }

    /// The product of two intervals, in lowest terms. `None` exactly when the
    /// product cannot be held.
    pub fn multiply(&self, rhs: &Interval) -> (r: Option<Interval>)
        requires
            self.wf(),
            rhs.wf(),
        ensures
            r is Some <==> representable(self.num() * rhs.num(), self.den() * rhs.den()),
            r matches Some(p) ==> p.wf() && p.num() * (self.den() * rhs.den()) == (self.num()
                * rhs.num()) * p.den(),
    {
        let r = product(self, rhs);
        proof {
            if let Some(p) = r {
                assert(fits_as(p.num(), p.den(), self.num() * rhs.num(), self.den() * rhs.den()));
            }
        }
        r
    }

    /// The quotient of two intervals, in lowest terms. `None` exactly when the
    /// divisor is zero or the quotient cannot be held.
    pub fn divide(&self, rhs: &Interval) -> (r: Option<Interval>)
        requires
            self.wf(),
            rhs.wf(),
        ensures
            r is Some <==> (!rhs.sentinel() && representable(
                self.num() * rhs.den(),
                self.den() * rhs.num(),
            )),
            r matches Some(p) ==> p.wf() && p.num() * (self.den() * rhs.num()) == (self.num()
                * rhs.den()) * p.den(),
    {
        if rhs.num == 0 {
            return None;
        }
        let r = quotient(self, rhs);
        proof {
            if let Some(p) = r {
                assert(fits_as(p.num(), p.den(), self.num() * rhs.den(), self.den() * rhs.num()));
            }
        }
        r
    }

    /// One octave down: half the value. `None` exactly when the half cannot
    /// be held.
    pub fn halve(&self) -> (r: Option<Interval>)
        requires
            self.wf(),
        ensures
            r is Some <==> representable(self.num(), self.den() * 2),
            r matches Some(p) ==> p.wf() && p.num() * (self.den() * 2) == self.num() * p.den(),
    {
        let two = Interval { num: 2, den: 1 };
        proof {
            lemma_coprime_with_one(2);
        }
        self.divide(&two)
    }

    /// Comparison by numeric value.
    pub fn less_than(&self, other: &Interval) -> (r: bool)
        requires
            self.wf(),
            other.wf(),
        ensures
            r == self.smaller(other),
    {
        let left: Wide = wide_product(self.num as u128, other.den as u128);
        let right: Wide = wide_product(other.num as u128, self.den as u128);
        left.high < right.high || (left.high == right.high && left.low < right.low)
    }

    /// Equality by numeric value.
    pub fn equals(&self, other: &Interval) -> (r: bool)
        requires
            self.wf(),
            other.wf(),
        ensures
            r == self.same_value(other),
            r == (*self == *other),
    {
        proof {
            if self.same_value(other) {
                Self::law_same_value_same_interval(*self, *other);
            }
        }
        self.num == other.num && self.den == other.den
    }

    /// Two intervals of the same value are the same interval: a value has
    /// one numerator and one denominator in lowest terms.
    pub proof fn law_same_value_same_interval(a: Interval, b: Interval)
        requires
            a.wf(),
            b.wf(),
            a.same_value(&b),
        ensures
            a == b,
    {
        law_lowest_terms_unique(a.num(), a.den(), b.num(), b.den());
    }
}

/// Every integer is coprime with one.
pub proof fn lemma_coprime_with_one(n: int)
    ensures
        coprime(n, 1),
{
    assert forall|d: int| d > 1 implies !(#[trigger] divides(d, n) && divides(d, 1)) by {
        assert(1int % d == 1) by (nonlinear_arith)
            requires
                d > 1,
        ;
    }
}

} // verus!
