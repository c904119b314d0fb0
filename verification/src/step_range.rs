//! An immutable stepped range of rational sample instants.
//!
//! A [`StepRange`] describes the evenly spaced values `start, start + step,
//! start + 2*step, ...` yielded while the value is `<= end` (the upper bound
//! is inclusive: the end value itself is yielded when it lies on the step
//! grid).  For an ascending range the number of values is
//! `floor((end - start) / step) + 1`.

use crate::error::SignalError;
use crate::rat::{
    i64_fits, lemma_mul_pos, lemma_mul_range, lemma_q_le_congr, lemma_q_sub_lt, q, q_add, q_div,
    q_eq, q_fits, q_floor, q_int, q_le, q_lt, q_mul, q_sub, q_wf, Rat,
};
use vstd::arithmetic::div_mod::lemma_fundamental_div_mod;
use vstd::arithmetic::div_mod::lemma_mod_bound;
use vstd::prelude::*;

verus! {

/// A range with a step: yields `start + k * step` while the value is `<= end`.
#[derive(Clone, Copy, Debug, PartialEq, Eq, Structural)]
pub struct StepRange {
    pub start: Rat,
    pub end: Rat,
    pub step: Rat,
}

/// For a divisor `d >= 1`: `k * d <= x` exactly when `k <= x / d`.
/// This is what makes `floor((end - start) / step)` count the yielded values.
proof fn lemma_int_div_le(k: int, x: int, d: int)
    requires
        d >= 1,
    ensures
        (k * d <= x) <==> (k <= x / d),
{
    lemma_fundamental_div_mod(x, d);
    lemma_mod_bound(x, d);
    let quo = x / d;
    let rem = x % d;
    if k <= quo {
        assert(k * d <= x) by (nonlinear_arith)
            requires
                k <= quo,
                d >= 1,
                x == d * quo + rem,
                rem >= 0,
        ;
    }
    if k * d <= x {
        assert(k <= quo) by (nonlinear_arith)
            requires
                k * d <= x,
                x == d * quo + rem,
                0 <= rem < d,
                d >= 1,
        ;
    }
}

/// The inclusive-bound test `start + k * step <= end`, cross-multiplied over
/// the sample denominator, rearranges to `k * ((e1 * s1) * p0) <= delta * p1`.
proof fn lemma_le_iff_raw(s0: int, s1: int, e0: int, e1: int, p0: int, p1: int, k: int)
    ensures
        ((s0 * (1 * p1) + (k * p0) * s1) * e1 <= e0 * (s1 * (1 * p1))) <==> (k * ((e1 * s1) * p0)
            <= (e0 * s1 + (-s0) * e1) * p1),
{
    assert((s0 * (1 * p1) + (k * p0) * s1) * e1 == (s0 * p1) * e1 + ((k * p0) * s1) * e1)
        by (nonlinear_arith);
    assert(e0 * (s1 * (1 * p1)) == e0 * (s1 * p1)) by (nonlinear_arith);
    assert(k * ((e1 * s1) * p0) == ((k * p0) * s1) * e1) by (nonlinear_arith);
    assert((e0 * s1 + (-s0) * e1) * p1 == e0 * (s1 * p1) - (s0 * p1) * e1) by (nonlinear_arith);
}

impl StepRange {
    /// All three fields are well-formed rationals.
    pub open spec fn wf(self) -> bool {
        self.start.wf() && self.end.wf() && self.step.wf()
    }

    /// The k-th sample instant, `start + k * step`, as an exact pair.
    pub open spec fn sample(self, k: int) -> (int, int) {
        q_add(q(self.start), q_mul(q_int(k), q(self.step)))
    }

    /// The number of values an ascending range yields:
    /// `floor((end - start) / step) + 1`.
    pub open spec fn count(self) -> int {
        q_floor(q_div(q_sub(q(self.end), q(self.start)), q(self.step))) + 1
    }

    /// Every sample numerator up to and including index `count` (the first
    /// one past the end), over the common denominator `start.den * step.den`,
    /// fits the representation.
    pub open spec fn samples_fit(self) -> bool {
        &&& 1 <= self.sample(0).1 <= i64::MAX as int
        &&& forall|k: int| 0 <= k <= self.count() ==> i64_fits(#[trigger] self.sample(k).0)
    }

    /// The range can be materialised: it is already exhausted, or ascending
    /// with every sample representable.
    pub open spec fn yields(self) -> bool {
        q_lt(q(self.end), q(self.start)) || (self.step.num >= 1 && self.samples_fit())
    }

    /// The number of values a materialisation yields.
    pub open spec fn yield_count(self) -> int {
        if q_lt(q(self.end), q(self.start)) {
            0
        } else {
            self.count()
        }
    }

    /// The error reported when the range cannot be materialised.
    pub open spec fn yield_err(self) -> SignalError {
        if self.step.num < 1 {
            SignalError::InvalidStep
        } else {
            SignalError::OutOfRange
        }
    }

    /// A copy of the range with a new step; start and end are unchanged and
    /// the original range is not modified.
    pub fn with_step(self, new_step: Rat) -> (r: StepRange)
        ensures
            r.start == self.start,
            r.end == self.end,
            r.step == new_step,
    {
        StepRange { step: new_step, ..self }
    }

    /// A copy of the range whose step is recomputed as `(end - start) / n`,
    /// so that an ascending copy spans the same interval in `n` steps.
    /// `n == 0` is a caller error (division by zero) and is rejected.
    pub fn with_num_points(self, n: usize) -> (r: Result<StepRange, SignalError>)
        requires
            self.wf(),
        ensures
            n == 0 ==> r == Err::<StepRange, SignalError>(SignalError::ZeroPoints),
            r matches Ok(r2) ==> r2.wf() && r2.start == self.start && r2.end == self.end && q(
                r2.step,
            ) == q_div(q_sub(q(self.end), q(self.start)), q_int(n as int)),
            r is Ok <==> (1 <= n <= i64::MAX && q_fits(q_sub(q(self.end), q(self.start)))
                && q_fits(q_div(q_sub(q(self.end), q(self.start)), q_int(n as int)))),
            n >= 1 && !(r is Ok) ==> r == Err::<StepRange, SignalError>(SignalError::OutOfRange),
    {
        if n == 0 {
            return Err(SignalError::ZeroPoints);
        }
        let n64: u64 = n as u64;
        if n64 > i64::MAX as u64 {
            return Err(SignalError::OutOfRange);
        }
        let nr = Rat::from_int(n64 as i64);
        match self.end.checked_sub(self.start) {
            Some(delta) => match delta.checked_div(nr) {
                Some(new_step) => Ok(StepRange { step: new_step, ..self }),
                None => Err(SignalError::OutOfRange),
            },
            None => Err(SignalError::OutOfRange),
        }
    }

    /// The sample rate `1 / step` of a time axis; fails on a zero step.
    pub fn sample_rate(&self) -> (r: Result<Rat, SignalError>)
        requires
            self.wf(),
        ensures
            r matches Ok(v) ==> v.wf() && q(v) == q_div(q_int(1), q(self.step)),
            r is Ok <==> self.step.num != 0,
            self.step.num == 0 ==> r == Err::<Rat, SignalError>(SignalError::InvalidStep),
    {
        if self.step.num == 0 {
            return Err(SignalError::InvalidStep);
        }
        match Rat::from_int(1).checked_div(self.step) {
            Some(v) => Ok(v),
            None => {
                proof {
                    assert(false);
                }
                Err(SignalError::InvalidStep)
            },
        }
    }

    /// Materialises the yielded values, index-aligned with the sample grid:
    /// the result holds exactly `start + k * step` for `k = 0, 1, ...` while
    /// the value is `<= end` (inclusive upper bound).  An already exhausted
    /// range (`end < start`) yields no values; otherwise a step that does not
    /// move toward `end` is a domain error, and a sample that does not fit
    /// the representation is reported rather than approximated.
    pub fn points(&self) -> (r: Result<Vec<Rat>, SignalError>)
        requires
            self.wf(),
        ensures
            r is Ok <==> (q_lt(q(self.end), q(self.start)) || (self.step.num >= 1
                && self.samples_fit())),
            r matches Ok(v) ==> v@.len() as int == (if q_lt(q(self.end), q(self.start)) {
                0int
            } else {
                self.count()
            }),
            r matches Ok(v) ==> forall|k: int|
                0 <= k < v@.len() ==> (#[trigger] v@[k]).wf() && q(v@[k]) == self.sample(k),
            !q_lt(q(self.end), q(self.start)) && self.step.num < 1 ==> r == Err::<
                Vec<Rat>,
                SignalError,
            >(SignalError::InvalidStep),
            !q_lt(q(self.end), q(self.start)) && self.step.num >= 1 && !self.samples_fit() ==> r
                == Err::<Vec<Rat>, SignalError>(SignalError::OutOfRange),
    {
        if self.end.lt(self.start) {
            return Ok(Vec::new());
        }
        if self.step.num < 1 {
            return Err(SignalError::InvalidStep);
        }
        proof {
            lemma_mul_range(
                self.start.den as int,
                self.step.den as int,
                i64::MAX as int,
                i64::MAX as int,
            );
            lemma_mul_pos(self.start.den as int, self.step.den as int);
            lemma_mul_range(
                self.step.num as int,
                self.start.den as int,
                i64::MAX as int,
                i64::MAX as int,
            );
            lemma_mul_range(
                self.start.num as int,
                self.step.den as int,
                i64::MAX as int,
                i64::MAX as int,
            );
        }
        let d128: i128 = (self.start.den as i128) * (self.step.den as i128);
        let coef: i128 = (self.step.num as i128) * (self.start.den as i128);
        let mut num: i128 = (self.start.num as i128) * (self.step.den as i128);
        let e_num: i128 = self.end.num as i128;
        let e_den: i128 = self.end.den as i128;
        proof {
            self.lemma_count_nonneg();
            self.lemma_sample_zero();
        }
        if d128 > i64::MAX as i128 {
            assert(!self.samples_fit());
            return Err(SignalError::OutOfRange);
        }
        let mut v: Vec<Rat> = Vec::new();
        loop
            invariant
                self.wf(),
                self.step.num >= 1,
                q_le(q(self.start), q(self.end)),
                d128 as int == self.sample(0).1,
                1 <= d128 <= i64::MAX as i128,
                coef as int == self.step.num as int * self.start.den as int,
                e_num as int == self.end.num as int,
                e_den as int == self.end.den as int,
                num as int == self.sample(v@.len() as int).0,
                v@.len() as int <= self.count(),
                forall|j: int|
                    0 <= j < v@.len() ==> (#[trigger] v@[j]).wf() && q(v@[j]) == self.sample(j),
            decreases self.count() - v@.len(),
        {
            let ghost k = v@.len() as int;
            proof {
                self.lemma_sample_den(k);
            }
            if num < -(i64::MAX as i128) || num > i64::MAX as i128 {
                proof {
                    assert(!i64_fits(self.sample(k).0));
                    assert(!self.samples_fit());
                }
                return Err(SignalError::OutOfRange);
            }
            proof {
                lemma_mul_range(num as int, e_den as int, i64::MAX as int, i64::MAX as int);
                lemma_mul_range(e_num as int, d128 as int, i64::MAX as int, i64::MAX as int);
                self.lemma_sample_le_end(k);
            }
            if num * e_den <= e_num * d128 {
                assert(q_le(self.sample(k), q(self.end)));
                assert(k <= self.count() - 1);
                v.push(Rat { num: num as i64, den: d128 as i64 });
                proof {
                    self.lemma_sample_succ(k);
                    lemma_mul_range(
                        self.step.num as int,
                        self.start.den as int,
                        i64::MAX as int,
                        i64::MAX as int,
                    );
                }
                num = num + coef;
            } else {
                assert(!q_le(self.sample(k), q(self.end)));
                assert(k > self.count() - 1);
                assert(v@.len() as int == self.count());
                proof {
                    assert forall|kk: int| 0 <= kk <= self.count() implies i64_fits(
                        #[trigger] self.sample(kk).0,
                    ) by {
                        if kk < self.count() {
                            assert(q(v@[kk]) == self.sample(kk));
                            assert(v@[kk].wf());
                        } else {
                            assert(num as int == self.sample(kk).0);
                        }
                    }
                    assert(self.samples_fit());
                }
                return Ok(v);
            }
        }
    }

    /// The denominator of every sample is `start.den * step.den`.
    proof fn lemma_sample_den(self, k: int)
        ensures
            self.sample(k).1 == self.start.den as int * self.step.den as int,
            self.sample(k).1 == self.sample(0).1,
    {
        assert(self.start.den as int * (1 * self.step.den as int) == self.start.den as int
            * self.step.den as int);
    }

    /// Consecutive sample numerators differ by `step.num * start.den`.
    proof fn lemma_sample_succ(self, k: int)
        ensures
            self.sample(k + 1).0 == self.sample(k).0 + self.step.num as int
                * self.start.den as int,
    {
        let s0 = self.start.num as int;
        let s1 = self.start.den as int;
        let p0 = self.step.num as int;
        let p1 = self.step.den as int;
        assert(((k + 1) * p0) * s1 == (k * p0) * s1 + p0 * s1) by (nonlinear_arith);
    }

    /// A sample is within the inclusive upper bound exactly when its index is
    /// below the count.
    pub proof fn lemma_sample_le_end(self, k: int)
        requires
            self.wf(),
            self.step.num >= 1,
        ensures
            q_le(self.sample(k), q(self.end)) <==> k <= self.count() - 1,
    {
        let s0 = self.start.num as int;
        let s1 = self.start.den as int;
        let e0 = self.end.num as int;
        let e1 = self.end.den as int;
        let p0 = self.step.num as int;
        let p1 = self.step.den as int;
        let a0 = e0 * s1 + (-s0) * e1;
        let a1 = e1 * s1;
        assert(q_sub(q(self.end), q(self.start)) == (a0, a1));
        let x = a0 * p1;
        let d = a1 * p0;
        assert(d >= 1) by (nonlinear_arith)
            requires
                d == (e1 * s1) * p0,
                e1 >= 1,
                s1 >= 1,
                p0 >= 1,
        ;
        assert(self.count() - 1 == x / d);
        lemma_le_iff_raw(s0, s1, e0, e1, p0, p1, k);
        assert(q_le(self.sample(k), q(self.end)) == ((s0 * (1 * p1) + (k * p0) * s1) * e1 <= e0 * (
        s1 * (1 * p1))));
        lemma_int_div_le(k, x, d);
    }

    /// The first sample is `start` itself, scaled onto the common
    /// denominator `start.den * step.den`.
    proof fn lemma_sample_zero(self)
        ensures
            self.sample(0).0 == self.start.num as int * self.step.den as int,
            self.sample(0).1 == self.start.den as int * self.step.den as int,
    {
        let s0 = self.start.num as int;
        let s1 = self.start.den as int;
        let p0 = self.step.num as int;
        let p1 = self.step.den as int;
        assert(s0 * (1 * p1) == s0 * p1 && (0 * p0) * s1 == 0 && s1 * (1 * p1) == s1 * p1)
            by (nonlinear_arith);
    }

    /// As values, consecutive samples differ by one step.
    pub proof fn lemma_sample_value_succ(self, k: int)
        requires
            self.wf(),
        ensures
            q_wf(self.sample(k)),
            q_wf(self.sample(k + 1)),
            q_wf(q_add(self.sample(k), q(self.step))),
            q_eq(self.sample(k + 1), q_add(self.sample(k), q(self.step))),
    {
        self.lemma_sample_succ(k);
        self.lemma_sample_den(k);
        self.lemma_sample_den(k + 1);
        let n = self.sample(k).0;
        let s1 = self.start.den as int;
        let p0 = self.step.num as int;
        let p1 = self.step.den as int;
        let dd = s1 * p1;
        lemma_mul_pos(s1, p1);
        lemma_mul_pos(dd, p1);
        assert((n + p0 * s1) * (dd * p1) == n * (dd * p1) + ((p0 * s1) * p1) * dd)
            by (nonlinear_arith);
        assert((n * p1 + p0 * dd) * dd == n * (dd * p1) + ((p0 * s1) * p1) * dd) by (
        nonlinear_arith)
            requires
                dd == s1 * p1,
        ;
    }

    /// The stepped range yields `floor((end - start) / step) + 1` values,
    /// the last of which is at most `end` and strictly greater than
    /// `end - step`.
    pub proof fn lemma_axis_last_sample(self)
        requires
            self.wf(),
            self.step.num >= 1,
            q_le(q(self.start), q(self.end)),
        ensures
            self.count() >= 1,
            q_le(self.sample(self.count() - 1), q(self.end)),
            q_lt(q_sub(q(self.end), q(self.step)), self.sample(self.count() - 1)),
    {
        self.lemma_count_nonneg();
        let kk = self.count() - 1;
        self.lemma_sample_le_end(kk);
        self.lemma_sample_le_end(kk + 1);
        assert(q_lt(q(self.end), self.sample(kk + 1)));
        self.lemma_sample_value_succ(kk);
        lemma_q_le_congr(self.sample(kk + 1), q_add(self.sample(kk), q(self.step)), q(self.end));
        assert(q_lt(q(self.end), q_add(self.sample(kk), q(self.step))));
        lemma_q_sub_lt(q(self.end), q(self.step), self.sample(kk));
    }

    /// Re-stepping a strictly ascending axis to `n` points yields exactly
    /// `n + 1` values: the recomputed step divides the span evenly, so the
    /// inclusive upper bound adds the end value itself to the `n` steps.
    pub proof fn lemma_with_num_points_count(self, r2: StepRange, n: int)
        requires
            self.wf(),
            r2.wf(),
            n >= 1,
            q_lt(q(self.start), q(self.end)),
            r2.start == self.start,
            r2.end == self.end,
            q(r2.step) == q_div(q_sub(q(self.end), q(self.start)), q_int(n)),
        ensures
            r2.count() == n + 1,
    {
        let s0 = self.start.num as int;
        let s1 = self.start.den as int;
        let e0 = self.end.num as int;
        let e1 = self.end.den as int;
        let d0 = e0 * s1 + (-s0) * e1;
        let d1 = e1 * s1;
        assert(q_sub(q(self.end), q(self.start)) == (d0, d1));
        assert((-s0) * e1 == -(s0 * e1)) by (nonlinear_arith);
        assert(d0 >= 1);
        assert(q(r2.step) == (d0 * 1, d1 * n));
        lemma_mul_pos(e1, s1);
        lemma_mul_pos(d1, d0);
        assert(q_div((d0, d1), (d0 * 1, d1 * n)) == (d0 * (d1 * n), d1 * (d0 * 1)));
        assert(d0 * (d1 * n) == (d1 * d0) * n) by (nonlinear_arith);
        assert(d1 * (d0 * 1) == d1 * d0) by (nonlinear_arith);
        vstd::arithmetic::div_mod::lemma_div_multiples_vanish(n, d1 * d0);
        assert(r2.count() == ((d1 * d0) * n) / (d1 * d0) + 1);
    }

    /// For an ascending range the count is at least one.
    pub proof fn lemma_count_nonneg(self)
        requires
            self.wf(),
            self.step.num >= 1,
            q_le(q(self.start), q(self.end)),
        ensures
            self.count() >= 1,
    {
        let s0 = self.start.num as int;
        let s1 = self.start.den as int;
        let e0 = self.end.num as int;
        let e1 = self.end.den as int;
        let p0 = self.step.num as int;
        let p1 = self.step.den as int;
        let a0 = e0 * s1 + (-s0) * e1;
        let a1 = e1 * s1;
        let x = a0 * p1;
        let d = a1 * p0;
        assert(x >= 0 && d >= 1) by (nonlinear_arith)
            requires
                a0 == e0 * s1 + (-s0) * e1,
                s0 * e1 <= e0 * s1,
                x == a0 * p1,
                d == (e1 * s1) * p0,
                e1 >= 1,
                s1 >= 1,
                p0 >= 1,
                p1 >= 1,
        ;
        vstd::arithmetic::div_mod::lemma_div_pos_is_pos(x, d);
        assert(self.count() - 1 == x / d);
    }
}

/// A restartable cursor over the values of a [`StepRange`]: starting from
/// `start`, it yields the current value while it is `<= end` (inclusive) and
/// then advances by `step`.  The cursor keeps every value on one fixed
/// denominator; if an advanced value is not representable there, the cursor
/// is exhausted.
#[derive(Clone, Copy, Debug, PartialEq, Eq, Structural)]
pub struct StepRangeIter {
    pub current: Option<Rat>,
    pub end: Rat,
    pub step: Rat,
}

/// The numerator of the value one step after `c`, on `c`'s own denominator
/// (which the cursor keeps divisible by `step.den`).
pub open spec fn advanced_num(c: Rat, step: Rat) -> int {
    c.num + step.num * ((c.den as int) / (step.den as int))
}

impl StepRangeIter {
    /// The cursor's fields are well-formed and the current denominator is a
    /// multiple of the step's, so an advance only changes the numerator.
    pub open spec fn wf(self) -> bool {
        &&& self.end.wf()
        &&& self.step.wf()
        &&& (self.current matches Some(c) ==> c.wf() && (c.den as int) % (self.step.den as int)
            == 0)
    }

    /// Yields the current value while it is within the inclusive upper
    /// bound, then advances by one step.  Exhausted cursors stay exhausted;
    /// an advanced value that does not fit the fixed-width representation
    /// exhausts the cursor.
    pub fn next(&mut self) -> (r: Option<Rat>)
        requires
            old(self).wf(),
        ensures
            final(self).wf(),
            final(self).end == old(self).end,
            final(self).step == old(self).step,
            match old(self).current {
                None => r is None && final(self).current is None,
                Some(c) => if q_le(q(c), q(old(self).end)) {
                    &&& r == Some(c)
                    &&& (final(self).current is Some <==> i64_fits(advanced_num(c, old(self).step)))
                    &&& (final(self).current matches Some(c2) ==> c2.den == c.den
                        && c2.num as int == advanced_num(c, old(self).step) && q_eq(
                        q(c2),
                        q_add(q(c), q(old(self).step)),
                    ))
                } else {
                    r is None && final(self).current == Some(c)
                },
            },
    {
        match self.current {
            None => None,
            Some(c) => {
                if c.le(self.end) {
                    proof {
                        vstd::arithmetic::div_mod::lemma_div_pos_is_pos(
                            c.den as int,
                            self.step.den as int,
                        );
                        vstd::arithmetic::div_mod::lemma_div_nonincreasing(
                            c.den as int,
                            self.step.den as int,
                        );
                    }
                    let quot: i64 = c.den.checked_div_euclid(self.step.den).unwrap();
                    proof {
                        lemma_mul_range(
                            self.step.num as int,
                            quot as int,
                            i64::MAX as int,
                            i64::MAX as int,
                        );
                    }
                    let incr: i128 = (self.step.num as i128) * (quot as i128);
                    let n2: i128 = (c.num as i128) + incr;
                    if -(i64::MAX as i128) <= n2 && n2 <= i64::MAX as i128 {
                        let c2 = Rat { num: n2 as i64, den: c.den };
                        proof {
                            lemma_fundamental_div_mod(c.den as int, self.step.den as int);
                            let cn = c.num as int;
                            let cd = c.den as int;
                            let p0 = self.step.num as int;
                            let p1 = self.step.den as int;
                            let t = cd / p1;
                            assert((cn + p0 * t) * (cd * p1) == cn * (cd * p1) + ((p0 * t) * p1)
                                * cd) by (nonlinear_arith);
                            assert((cn * p1 + p0 * cd) * cd == cn * (cd * p1) + ((p0 * t) * p1)
                                * cd) by (nonlinear_arith)
                                requires
                                    cd == p1 * t,
                            ;
                            assert(q_eq(q(c2), q_add(q(c), q(self.step))));
                        }
                        self.current = Some(c2);
                    } else {
                        self.current = None;
                    }
                    Some(c)
                } else {
                    None
                }
            },
        }
    }
}

impl StepRange {
    /// The cursor walks the sample grid: a cursor value holding the `k`-th
    /// sample (on the grid denominator `start.den * step.den`, as
    /// [`StepRange::iter`] sets it up) advances to exactly the `k + 1`-th
    /// sample numerator.  With [`StepRangeIter::next`]'s contract this pins
    /// the whole iteration to `start, start + step, start + 2 * step, ...`.
    pub proof fn lemma_iter_tracks_samples(self, c: Rat, k: int)
        requires
            self.wf(),
            c.wf(),
            q(c) == self.sample(k),
            c.den as int == self.start.den as int * self.step.den as int,
        ensures
            (c.den as int) % (self.step.den as int) == 0,
            advanced_num(c, self.step) == self.sample(k + 1).0,
    {
        let s1 = self.start.den as int;
        let p1 = self.step.den as int;
        self.lemma_sample_den(k);
        self.lemma_sample_succ(k);
        assert(s1 * p1 == p1 * s1) by (nonlinear_arith);
        vstd::arithmetic::div_mod::lemma_mod_multiples_basic(s1, p1);
        vstd::arithmetic::div_mod::lemma_div_multiples_vanish(s1, p1);
    }

    /// A fresh cursor positioned at `start`; each call restarts the
    /// iteration from the beginning.  The start value is rescaled onto the
    /// denominator `start.den * step.den`; a start that is not representable
    /// there gives an already exhausted cursor.
    pub fn iter(&self) -> (r: StepRangeIter)
        requires
            self.wf(),
        ensures
            r.wf(),
            r.end == self.end,
            r.step == self.step,
            r.current is Some <==> (i64_fits(self.sample(0).0) && self.sample(0).1
                <= i64::MAX as int),
            r.current matches Some(c) ==> q(c) == self.sample(0) && q_eq(q(c), q(self.start)),
    {
        proof {
            self.lemma_sample_zero();
            lemma_mul_range(
                self.start.num as int,
                self.step.den as int,
                i64::MAX as int,
                i64::MAX as int,
            );
            lemma_mul_range(
                self.start.den as int,
                self.step.den as int,
                i64::MAX as int,
                i64::MAX as int,
            );
            lemma_mul_pos(self.start.den as int, self.step.den as int);
        }
        let n: i128 = (self.start.num as i128) * (self.step.den as i128);
        let d: i128 = (self.start.den as i128) * (self.step.den as i128);
        if -(i64::MAX as i128) <= n && n <= i64::MAX as i128 && d <= i64::MAX as i128 {
            let c = Rat { num: n as i64, den: d as i64 };
            proof {
                let s0 = self.start.num as int;
                let s1 = self.start.den as int;
                let p1 = self.step.den as int;
                vstd::arithmetic::div_mod::lemma_mod_multiples_basic(s1, p1);
                assert((s0 * p1) * s1 == s0 * (s1 * p1)) by (nonlinear_arith);
                assert(q_eq(q(c), q(self.start)));
            }
            StepRangeIter { current: Some(c), end: self.end, step: self.step }
        } else {
            StepRangeIter { current: None, end: self.end, step: self.step }
        }
    }
}

} // verus!
