//! Exact rational numbers over `i64`, the sample domain of the library.
//!
//! A [`Rat`] holds a numerator and a strictly positive denominator and is not
//! normalised: `1/2` and `2/4` are different representations of the same
//! value.  Contracts therefore speak of the mathematical value through the
//! spec-level pair `(int, int)` returned by [`q`], compared with [`q_eq`],
//! [`q_le`] and [`q_lt`] by cross multiplication.  Every arithmetic operation
//! is checked: it returns `Some` exactly when the raw (unreduced) result fits
//! back into the representation.

use vstd::arithmetic::div_mod::lemma_fundamental_div_mod;
use vstd::prelude::*;

verus! {

/// An exact rational number `num / den` with `den >= 1` and `num > i64::MIN`.
#[derive(Clone, Copy, Debug, PartialEq, Eq, Structural)]
pub struct Rat {
    pub num: i64,
    pub den: i64,
}

/// The mathematical value of `r` as a pair (numerator, denominator).
pub open spec fn q(r: Rat) -> (int, int) {
    (r.num as int, r.den as int)
}

/// `x` fits the numerator range kept symmetric around zero, so that negation
/// is always defined.
pub open spec fn i64_fits(x: int) -> bool {
    -(i64::MAX as int) <= x <= i64::MAX as int
}

/// The pair `a` is representable as a `Rat`: numerator in the symmetric
/// `i64` range and denominator in `1 ..= i64::MAX`.
pub open spec fn q_fits(a: (int, int)) -> bool {
    i64_fits(a.0) && 1 <= a.1 <= i64::MAX as int
}

/// The pair `a` is a well-formed rational: strictly positive denominator.
pub open spec fn q_wf(a: (int, int)) -> bool {
    a.1 >= 1
}

/// Exact sum, over the common denominator `a.1 * b.1`.
pub open spec fn q_add(a: (int, int), b: (int, int)) -> (int, int) {
    (a.0 * b.1 + b.0 * a.1, a.1 * b.1)
}

/// Exact negation.
pub open spec fn q_neg(a: (int, int)) -> (int, int) {
    (-a.0, a.1)
}

/// Exact difference.
pub open spec fn q_sub(a: (int, int), b: (int, int)) -> (int, int) {
    q_add(a, q_neg(b))
}

/// Exact product.
pub open spec fn q_mul(a: (int, int), b: (int, int)) -> (int, int) {
    (a.0 * b.0, a.1 * b.1)
}

/// Exact quotient `a / b`, with the sign moved into the numerator so the
/// denominator stays positive.  Meaningful only for `b.0 != 0`.
pub open spec fn q_div(a: (int, int), b: (int, int)) -> (int, int) {
    if b.0 >= 0 {
        (a.0 * b.1, a.1 * b.0)
    } else {
        (-(a.0 * b.1), -(a.1 * b.0))
    }
}

/// Exact absolute value.
pub open spec fn q_abs(a: (int, int)) -> (int, int) {
    (if a.0 >= 0 { a.0 } else { -a.0 }, a.1)
}

/// The integer rational `n / 1`.
pub open spec fn q_int(n: int) -> (int, int) {
    (n, 1)
}

/// `a <= b` as values, by cross multiplication (valid for positive
/// denominators).
pub open spec fn q_le(a: (int, int), b: (int, int)) -> bool {
    a.0 * b.1 <= b.0 * a.1
}

/// `a < b` as values.
pub open spec fn q_lt(a: (int, int), b: (int, int)) -> bool {
    a.0 * b.1 < b.0 * a.1
}

/// `a == b` as values.
pub open spec fn q_eq(a: (int, int), b: (int, int)) -> bool {
    a.0 * b.1 == b.0 * a.1
}

/// The floor of `a`, for a positive denominator (`int` division is
/// Euclidean, hence a floor here).
pub open spec fn q_floor(a: (int, int)) -> int {
    a.0 / a.1
}

/// `a` reduced modulo `b`, for `b > 0`: the unique value in `[0, b)` that
/// differs from `a` by an integer multiple of `b`.
pub open spec fn q_mod(a: (int, int), b: (int, int)) -> (int, int) {
    q_sub(a, q_mul(q_int(q_floor(q_div(a, b))), b))
}

/// Bounded values have bounded products.
pub proof fn lemma_mul_range(x: int, y: int, xb: int, yb: int) by (nonlinear_arith)
    requires
        -xb <= x <= xb,
        -yb <= y <= yb,
        0 <= xb,
        0 <= yb,
    ensures
        -(xb * yb) <= x * y <= xb * yb,
{
}

/// The product of two positive values is positive.
pub proof fn lemma_mul_pos(x: int, y: int) by (nonlinear_arith)
    requires
        x >= 1,
        y >= 1,
    ensures
        x * y >= 1,
        x * y >= x,
        x * y >= y,
{
}

impl Rat {
    /// The representation invariant: positive denominator, numerator and
    /// denominator inside the symmetric `i64` range.
    pub open spec fn wf(self) -> bool {
        q_fits(q(self))
    }

    /// Builds the rational `num / den`, moving the sign of a negative
    /// denominator into the numerator.
    pub fn new(num: i64, den: i64) -> (r: Rat)
        requires
            den != 0,
            num > i64::MIN,
            den > i64::MIN,
        ensures
            r.wf(),
            q(r) == (if den >= 1 {
                (num as int, den as int)
            } else {
                (-(num as int), -(den as int))
            }),
    {
        if den >= 1 {
            Rat { num, den }
        } else {
            Rat { num: -num, den: -den }
        }
    }

    /// The rational equal to the integer `n`.
    pub fn from_int(n: i64) -> (r: Rat)
        requires
            n > i64::MIN,
        ensures
            r.wf(),
            q(r) == q_int(n as int),
    {
        Rat { num: n, den: 1 }
    }

    /// The additive identity.
    pub fn zero() -> (r: Rat)
        ensures
            r.wf(),
            q(r) == q_int(0),
    {
        Rat { num: 0, den: 1 }
    }

    /// Exact negation; always representable.
    pub fn neg(self) -> (r: Rat)
        requires
            self.wf(),
        ensures
            r.wf(),
            q(r) == q_neg(q(self)),
    {
        Rat { num: -self.num, den: self.den }
    }

    /// Exact absolute value; always representable.
    pub fn abs(self) -> (r: Rat)
        requires
            self.wf(),
        ensures
            r.wf(),
            q(r) == q_abs(q(self)),
    {
        if self.num >= 0 {
            self
        } else {
            Rat { num: -self.num, den: self.den }
        }
    }

    /// Exact sum; `Some` exactly when the raw result is representable.
    pub fn checked_add(self, other: Rat) -> (r: Option<Rat>)
        requires
            self.wf(),
            other.wf(),
        ensures
            r matches Some(c) ==> c.wf() && q(c) == q_add(q(self), q(other)),
            r is Some <==> q_fits(q_add(q(self), q(other))),
    {
        proof {
            lemma_mul_range(self.num as int, other.den as int, i64::MAX as int, i64::MAX as int);
            lemma_mul_range(other.num as int, self.den as int, i64::MAX as int, i64::MAX as int);
            lemma_mul_range(self.den as int, other.den as int, i64::MAX as int, i64::MAX as int);
            lemma_mul_pos(self.den as int, other.den as int);
        }
        let n1: i128 = (self.num as i128) * (other.den as i128);
        let n2: i128 = (other.num as i128) * (self.den as i128);
        let n: i128 = n1 + n2;
        let d: i128 = (self.den as i128) * (other.den as i128);
        if -(i64::MAX as i128) <= n && n <= i64::MAX as i128 && d <= i64::MAX as i128 {
            Some(Rat { num: n as i64, den: d as i64 })
        } else {
            None
        }
    }

    /// Exact difference; `Some` exactly when the raw result is representable.
    pub fn checked_sub(self, other: Rat) -> (r: Option<Rat>)
        requires
            self.wf(),
            other.wf(),
        ensures
            r matches Some(c) ==> c.wf() && q(c) == q_sub(q(self), q(other)),
            r is Some <==> q_fits(q_sub(q(self), q(other))),
    {
        self.checked_add(other.neg())
    }

    /// Exact product; `Some` exactly when the raw result is representable.
    pub fn checked_mul(self, other: Rat) -> (r: Option<Rat>)
        requires
            self.wf(),
            other.wf(),
        ensures
            r matches Some(c) ==> c.wf() && q(c) == q_mul(q(self), q(other)),
            r is Some <==> q_fits(q_mul(q(self), q(other))),
    {
        proof {
            lemma_mul_range(self.num as int, other.num as int, i64::MAX as int, i64::MAX as int);
            lemma_mul_range(self.den as int, other.den as int, i64::MAX as int, i64::MAX as int);
            lemma_mul_pos(self.den as int, other.den as int);
        }
        let n: i128 = (self.num as i128) * (other.num as i128);
        let d: i128 = (self.den as i128) * (other.den as i128);
        if -(i64::MAX as i128) <= n && n <= i64::MAX as i128 && d <= i64::MAX as i128 {
            Some(Rat { num: n as i64, den: d as i64 })
        } else {
            None
        }
    }

    /// Exact quotient; `Some` exactly when the divisor is nonzero and the raw
    /// result is representable.
    pub fn checked_div(self, other: Rat) -> (r: Option<Rat>)
        requires
            self.wf(),
            other.wf(),
        ensures
            r matches Some(c) ==> c.wf() && q(c) == q_div(q(self), q(other)),
            r is Some <==> other.num != 0 && q_fits(q_div(q(self), q(other))),
    {
        if other.num == 0 {
            return None;
        }
        proof {
            lemma_mul_range(self.num as int, other.den as int, i64::MAX as int, i64::MAX as int);
            lemma_mul_range(self.den as int, other.num as int, i64::MAX as int, i64::MAX as int);
            if other.num >= 1 {
                lemma_mul_pos(self.den as int, other.num as int);
            } else {
                assert((self.den as int) * (other.num as int) <= -1) by (nonlinear_arith)
                    requires
                        self.den >= 1,
                        other.num <= -1,
                ;
            }
        }
        let n0: i128 = (self.num as i128) * (other.den as i128);
        let d0: i128 = (self.den as i128) * (other.num as i128);
        let (n, d): (i128, i128) = if other.num >= 1 {
            (n0, d0)
        } else {
            (-n0, -d0)
        };
        if -(i64::MAX as i128) <= n && n <= i64::MAX as i128 && d <= i64::MAX as i128 {
            Some(Rat { num: n as i64, den: d as i64 })
        } else {
            None
        }
    }

    /// `self <= other` as values.
    pub fn le(self, other: Rat) -> (r: bool)
        requires
            self.wf(),
            other.wf(),
        ensures
            r == q_le(q(self), q(other)),
    {
        proof {
            lemma_mul_range(self.num as int, other.den as int, i64::MAX as int, i64::MAX as int);
            lemma_mul_range(other.num as int, self.den as int, i64::MAX as int, i64::MAX as int);
        }
        (self.num as i128) * (other.den as i128) <= (other.num as i128) * (self.den as i128)
    }

    /// `self < other` as values.
    pub fn lt(self, other: Rat) -> (r: bool)
        requires
            self.wf(),
            other.wf(),
        ensures
            r == q_lt(q(self), q(other)),
    {
        proof {
            lemma_mul_range(self.num as int, other.den as int, i64::MAX as int, i64::MAX as int);
            lemma_mul_range(other.num as int, self.den as int, i64::MAX as int, i64::MAX as int);
        }
        (self.num as i128) * (other.den as i128) < (other.num as i128) * (self.den as i128)
    }

    /// `self` reduced modulo `m`, for a strictly positive `m`: the unique
    /// value in `[0, m)` congruent to `self`.  `Some` exactly when `m > 0`
    /// and the raw result is representable.
    pub fn checked_mod(self, m: Rat) -> (r: Option<Rat>)
        requires
            self.wf(),
            m.wf(),
        ensures
            r matches Some(c) ==> c.wf() && q(c) == q_mod(q(self), q(m)),
            r is Some <==> m.num >= 1 && q_fits(q_mod(q(self), q(m))),
            r matches Some(c) ==> q_le(q_int(0), q(c)) && q_lt(q(c), q(m)),
    {
        if m.num < 1 {
            return None;
        }
        proof {
            lemma_mul_range(self.num as int, m.den as int, i64::MAX as int, i64::MAX as int);
            lemma_mul_range(self.den as int, m.num as int, i64::MAX as int, i64::MAX as int);
            lemma_mul_range(self.den as int, m.den as int, i64::MAX as int, i64::MAX as int);
            lemma_mul_pos(self.den as int, m.num as int);
            lemma_mul_pos(self.den as int, m.den as int);
        }
        let numer: i128 = (self.num as i128) * (m.den as i128);
        let denom: i128 = (self.den as i128) * (m.num as i128);
        let d: i128 = (self.den as i128) * (m.den as i128);
        let rem_opt = numer.checked_rem_euclid(denom);
        proof {
            vstd::arithmetic::div_mod::lemma_mod_bound(numer as int, denom as int);
        }
        let rem: i128 = rem_opt.unwrap();
        proof {
            let a = q(self);
            let b = q(m);
            lemma_fundamental_div_mod(numer as int, denom as int);
            // The remainder is exactly the raw numerator of `q_mod`:
            // numer - (numer / denom) * denom rearranges by associativity
            // and commutativity of multiplication.
            let fl = q_floor(q_div(a, b));
            assert((a.1 * b.0) * fl == (fl * b.0) * a.1 && (-(fl * b.0)) * a.1 == -((fl * b.0)
                * a.1)) by (nonlinear_arith);
            assert(rem == q_mod(a, b).0);
            assert(d == q_mod(a, b).1);
        }
        if rem <= i64::MAX as i128 && d <= i64::MAX as i128 {
            let c = Rat { num: rem as i64, den: d as i64 };
            proof {
                let a = q(self);
                let b = q(m);
                // 0 <= c < m as values: the remainder lies in [0, denom).
                assert(q_le(q_int(0), q(c)));
                assert(q_lt(q(c), b)) by (nonlinear_arith)
                    requires
                        q(c).0 < (a.1 * b.0),
                        q(c).1 == a.1 * b.1,
                        a.1 >= 1,
                        b.1 >= 1,
                        b.0 >= 1,
                ;
            }
            Some(c)
        } else {
            None
        }
    }

    /// `self == other` as values (`2/4` equals `1/2`).
    pub fn eq_value(self, other: Rat) -> (r: bool)
        requires
            self.wf(),
            other.wf(),
        ensures
            r == q_eq(q(self), q(other)),
    {
        proof {
            lemma_mul_range(self.num as int, other.den as int, i64::MAX as int, i64::MAX as int);
            lemma_mul_range(other.num as int, self.den as int, i64::MAX as int, i64::MAX as int);
        }
        (self.num as i128) * (other.den as i128) == (other.num as i128) * (self.den as i128)
    }
}

/// Sums of equal values are equal.
pub proof fn lemma_q_add_congr(a: (int, int), a2: (int, int), b: (int, int)) by (nonlinear_arith)
    requires
        q_wf(a),
        q_wf(a2),
        q_wf(b),
        q_eq(a, a2),
    ensures
        q_eq(q_add(a, b), q_add(a2, b)),
{
}

/// Products of equal values are equal.
pub proof fn lemma_q_mul_congr(a: (int, int), a2: (int, int), b: (int, int)) by (nonlinear_arith)
    requires
        q_wf(a),
        q_wf(a2),
        q_wf(b),
        q_eq(a, a2),
    ensures
        q_eq(q_mul(a, b), q_mul(a2, b)),
{
}

/// Order does not distinguish equal values.
pub proof fn lemma_q_le_congr(a: (int, int), a2: (int, int), b: (int, int)) by (nonlinear_arith)
    requires
        q_wf(a),
        q_wf(a2),
        q_wf(b),
        q_eq(a, a2),
    ensures
        q_le(a, b) == q_le(a2, b),
        q_le(b, a) == q_le(b, a2),
        q_lt(a, b) == q_lt(a2, b),
        q_lt(b, a) == q_lt(b, a2),
{
}

/// For `b > 0`, the reduced value `a mod b` lies in `[0, b)`.
pub proof fn lemma_q_mod_range(a: (int, int), b: (int, int))
    requires
        q_wf(a),
        q_wf(b),
        b.0 >= 1,
    ensures
        q_wf(q_mod(a, b)),
        q_le(q_int(0), q_mod(a, b)),
        q_lt(q_mod(a, b), b),
{
    let numer = a.0 * b.1;
    let denom = a.1 * b.0;
    lemma_mul_pos(a.1, b.0);
    lemma_mul_pos(a.1, b.1);
    lemma_fundamental_div_mod(numer, denom);
    vstd::arithmetic::div_mod::lemma_mod_bound(numer, denom);
    let fl = numer / denom;
    let rem = numer % denom;
    assert((a.1 * b.0) * fl == (fl * b.0) * a.1 && (-(fl * b.0)) * a.1 == -((fl * b.0) * a.1))
        by (nonlinear_arith);
    assert(q_mod(a, b).0 == rem);
    assert(q_le(q_int(0), q_mod(a, b)));
    assert(rem * b.1 < b.0 * (a.1 * b.1)) by (nonlinear_arith)
        requires
            rem < a.1 * b.0,
            b.1 >= 1,
    ;
}

/// A value already in `[0, b)` is its own reduction modulo `b`.
pub proof fn lemma_q_mod_small(x: (int, int), b: (int, int))
    requires
        q_wf(x),
        q_wf(b),
        b.0 >= 1,
        q_le(q_int(0), x),
        q_lt(x, b),
    ensures
        q_eq(q_mod(x, b), x),
{
    lemma_mul_pos(x.1, b.0);
    assert(x.0 * b.1 >= 0) by (nonlinear_arith)
        requires
            x.0 >= 0,
            b.1 >= 1,
    ;
    assert(x.0 * b.1 < x.1 * b.0) by (nonlinear_arith)
        requires
            x.0 * b.1 < b.0 * x.1,
    ;
    vstd::arithmetic::div_mod::lemma_basic_div(x.0 * b.1, x.1 * b.0);
    assert(q_floor(q_div(x, b)) == 0);
    assert(q_mod(x, b) == (x.0 * b.1 + (-(0 * b.0)) * x.1, x.1 * b.1));
    assert((x.0 * b.1 + (-(0 * b.0)) * x.1) * x.1 == x.0 * (x.1 * b.1)) by (nonlinear_arith);
}

/// Quotients of equal values (by one positive divisor) are equal.
pub proof fn lemma_q_div_congr(a: (int, int), a2: (int, int), b: (int, int))
    requires
        q_wf(a),
        q_wf(a2),
        q_wf(b),
        b.0 >= 1,
        q_eq(a, a2),
    ensures
        q_eq(q_div(a, b), q_div(a2, b)),
{
    assert((a.0 * b.1) * (a2.1 * b.0) == (a2.0 * b.1) * (a.1 * b.0)) by (nonlinear_arith)
        requires
            a.0 * a2.1 == a2.0 * a.1,
    ;
}

/// Negations of equal values are equal.
pub proof fn lemma_q_neg_congr(a: (int, int), a2: (int, int))
    requires
        q_eq(a, a2),
    ensures
        q_eq(q_neg(a), q_neg(a2)),
{
    assert((-a.0) * a2.1 == -(a.0 * a2.1) && (-a2.0) * a.1 == -(a2.0 * a.1)) by (nonlinear_arith);
}

/// Shifting a bound across a difference: `e - p < a` exactly when
/// `e < a + p`.
pub proof fn lemma_q_sub_lt(e: (int, int), p: (int, int), a: (int, int))
    requires
        q_wf(e),
        q_wf(p),
        q_wf(a),
    ensures
        q_lt(q_sub(e, p), a) <==> q_lt(e, q_add(a, p)),
{
    let e0 = e.0;
    let e1 = e.1;
    let p0 = p.0;
    let p1 = p.1;
    let a0 = a.0;
    let a1 = a.1;
    assert((e0 * p1 + (-p0) * e1) * a1 == (e0 * p1) * a1 - (p0 * e1) * a1) by (nonlinear_arith);
    assert(e0 * (a1 * p1) == (e0 * p1) * a1) by (nonlinear_arith);
    assert((a0 * p1 + p0 * a1) * e1 == a0 * (e1 * p1) + (p0 * e1) * a1) by (nonlinear_arith);
}

} // verus!
