//! Composable waveform generators.
//!
//! A [`Generator`] is a pure description: given a time value it produces a
//! sample.  The closed set of kinds is [`Sine`], [`Sawtooth`], [`Sum`] (an
//! additive mixer that owns an ordered collection of sub-generators) and
//! [`Clip`] (a magnitude limiter wrapping one sub-generator).
//!
//! A sine's transcendental factor cannot be evaluated in exact rational
//! arithmetic, so evaluation takes a sine table: one rational entry per sine
//! leaf (in depth-first, left-to-right order) holding `sin(2*pi*f*t)` for
//! that leaf's frequency `f`, as supplied by the caller.  Everything else —
//! amplitude scaling, the piecewise-linear sawtooth, summation and polar
//! clipping — is computed and verified here, for every value of the table.

use crate::error::SignalError;
use crate::rat::{
    lemma_mul_pos, lemma_q_add_congr, lemma_q_div_congr, lemma_q_le_congr, lemma_q_mod_range,
    lemma_q_mod_small, lemma_q_mul_congr, lemma_q_neg_congr, q, q_abs, q_add, q_div, q_eq, q_fits,
    q_int, q_le, q_lt, q_mod, q_mul, q_neg, q_sub, q_wf, Rat,
};
use vstd::prelude::*;

verus! {

/// A sine wave: `amplitude * sin(2*pi * frequency * time)`.
#[derive(Clone, Copy, Debug, PartialEq, Eq, Structural)]
pub struct Sine {
    pub frequency: Rat,
    pub amplitude: Rat,
}

/// A period-wrapped piecewise-linear ramp: over one period it rises from 0
/// to `amplitude` in the first quarter, falls to `-amplitude` through the
/// middle half, and rises back to 0 in the last quarter.
#[derive(Clone, Copy, Debug, PartialEq, Eq, Structural)]
pub struct Sawtooth {
    pub period: Rat,
    pub amplitude: Rat,
}

/// One end of a clipping range: absent, inclusive, or exclusive.
#[derive(Clone, Copy, Debug, PartialEq, Eq, Structural)]
pub enum ClipBound {
    Unbounded,
    Included(Rat),
    Excluded(Rat),
}

/// Adds the outputs of an ordered collection of generators; the empty sum is
/// zero.  Insertion order is preserved (it fixes the sine-table layout),
/// though it cannot change the value of the sum.
pub struct Sum {
    pub signals: Vec<Generator>,
}

/// Clips the wrapped generator's output: the sample's polar magnitude is
/// clamped against the lower and upper bound while its phase (the sign, for
/// real samples) is kept unchanged.
pub struct Clip {
    pub lower: ClipBound,
    pub upper: ClipBound,
    pub gen: Box<Generator>,
}

/// A waveform generator: the capability "given a time, produce a sample".
pub enum Generator {
    Sine(Sine),
    Sawtooth(Sawtooth),
    Sum(Sum),
    Clip(Clip),
}

/// The linear ramp `x * amplitude / period * 4` shared by the sawtooth's
/// three segments.
pub open spec fn saw_rise(p: (int, int), a: (int, int), x: (int, int)) -> (int, int) {
    q_mul(q_div(q_mul(x, a), p), q_int(4))
}

/// The sawtooth sample at time `t` (for `p > 0`): with `tm = t mod p`,
/// rising on `[0, p/4]`, falling on `(p/4, 3p/4]`, rising again on
/// `(3p/4, p)`.
pub open spec fn saw_eval(p: (int, int), a: (int, int), t: (int, int)) -> (int, int) {
    let tm = q_mod(t, p);
    let quarter = q_div(p, q_int(4));
    if q_le(tm, quarter) {
        saw_rise(p, a, tm)
    } else {
        let three_quarter = q_div(q_mul(q_int(3), p), q_int(4));
        if q_le(tm, three_quarter) {
            q_add(q_neg(saw_rise(p, a, q_sub(tm, quarter))), a)
        } else {
            q_sub(saw_rise(p, a, q_sub(tm, three_quarter)), a)
        }
    }
}

/// The ramp's three checked steps are representable.
pub open spec fn saw_rise_fits(p: (int, int), a: (int, int), x: (int, int)) -> bool {
    &&& q_fits(q_mul(x, a))
    &&& q_fits(q_div(q_mul(x, a), p))
    &&& q_fits(saw_rise(p, a, x))
}

/// Every intermediate of the sawtooth evaluation, in evaluation order, is
/// representable.
pub open spec fn saw_fits(p: (int, int), a: (int, int), t: (int, int)) -> bool {
    let tm = q_mod(t, p);
    let quarter = q_div(p, q_int(4));
    &&& q_fits(tm)
    &&& q_fits(quarter)
    &&& if q_le(tm, quarter) {
        saw_rise_fits(p, a, tm)
    } else {
        let three_quarter = q_div(q_mul(q_int(3), p), q_int(4));
        &&& q_fits(q_mul(q_int(3), p))
        &&& q_fits(three_quarter)
        &&& if q_le(tm, three_quarter) {
            &&& q_fits(q_sub(tm, quarter))
            &&& saw_rise_fits(p, a, q_sub(tm, quarter))
            &&& q_fits(q_add(q_neg(saw_rise(p, a, q_sub(tm, quarter))), a))
        } else {
            &&& q_fits(q_sub(tm, three_quarter))
            &&& saw_rise_fits(p, a, q_sub(tm, three_quarter))
            &&& q_fits(q_sub(saw_rise(p, a, q_sub(tm, three_quarter)), a))
        }
    }
}

/// The magnitude clamped against the lower bound: an inclusive bound lifts
/// only what is strictly below it, an exclusive bound lifts what is at or
/// below it.
pub open spec fn clamp_lower(m: (int, int), b: ClipBound) -> (int, int) {
    match b {
        ClipBound::Unbounded => m,
        ClipBound::Excluded(bd) => if q_le(m, q(bd)) {
            q(bd)
        } else {
            m
        },
        ClipBound::Included(bd) => if q_lt(m, q(bd)) {
            q(bd)
        } else {
            m
        },
    }
}

/// The magnitude clamped against the upper bound, mirrored.
pub open spec fn clamp_upper(m: (int, int), b: ClipBound) -> (int, int) {
    match b {
        ClipBound::Unbounded => m,
        ClipBound::Excluded(bd) => if q_le(q(bd), m) {
            q(bd)
        } else {
            m
        },
        ClipBound::Included(bd) => if q_lt(q(bd), m) {
            q(bd)
        } else {
            m
        },
    }
}

/// A sample clipped in polar form: the magnitude is clamped against both
/// bounds and recombined with the unchanged phase (for a real sample, its
/// sign; zero keeps phase zero).
pub open spec fn clip_value(lower: ClipBound, upper: ClipBound, v: (int, int)) -> (int, int) {
    let m2 = clamp_upper(clamp_lower(q_abs(v), lower), upper);
    if v.0 >= 0 {
        m2
    } else {
        q_neg(m2)
    }
}

impl ClipBound {
    /// A present bound holds a well-formed rational.
    pub open spec fn wf(self) -> bool {
        match self {
            ClipBound::Unbounded => true,
            ClipBound::Included(bd) => bd.wf(),
            ClipBound::Excluded(bd) => bd.wf(),
        }
    }
}

impl Sine {
    pub open spec fn wf(self) -> bool {
        self.frequency.wf() && self.amplitude.wf()
    }

    /// The sample for a given value of this leaf's sine factor:
    /// `amplitude * sine_value`.
    pub fn output(&self, sine_value: Rat) -> (r: Result<Rat, SignalError>)
        requires
            self.wf(),
            sine_value.wf(),
        ensures
            r is Ok <==> q_fits(q_mul(q(self.amplitude), q(sine_value))),
            r matches Ok(v) ==> v.wf() && q(v) == q_mul(q(self.amplitude), q(sine_value)),
            r is Err ==> r == Err::<Rat, SignalError>(SignalError::OutOfRange),
    {
        match self.amplitude.checked_mul(sine_value) {
            Some(v) => Ok(v),
            None => Err(SignalError::OutOfRange),
        }
    }

    /// The number of cycles completed at `time`: `frequency * time`.  The
    /// caller turns this into the sine factor `sin(2*pi * phase)`.
    pub fn phase(&self, time: Rat) -> (r: Result<Rat, SignalError>)
        requires
            self.wf(),
            time.wf(),
        ensures
            r is Ok <==> q_fits(q_mul(q(self.frequency), q(time))),
            r matches Ok(v) ==> v.wf() && q(v) == q_mul(q(self.frequency), q(time)),
            r is Err ==> r == Err::<Rat, SignalError>(SignalError::OutOfRange),
    {
        match self.frequency.checked_mul(time) {
            Some(v) => Ok(v),
            None => Err(SignalError::OutOfRange),
        }
    }
}

impl Sawtooth {
    pub open spec fn wf(self) -> bool {
        self.period.wf() && self.amplitude.wf()
    }

    /// The sawtooth sample at `time`.  A period that is not strictly
    /// positive is a domain error; a result that leaves the fixed-width
    /// representation is reported rather than approximated.
    pub fn output(&self, time: Rat) -> (r: Result<Rat, SignalError>)
        requires
            self.wf(),
            time.wf(),
        ensures
            self.period.num < 1 ==> r == Err::<Rat, SignalError>(SignalError::InvalidPeriod),
            self.period.num >= 1 ==> {
                &&& r is Ok <==> saw_fits(q(self.period), q(self.amplitude), q(time))
                &&& (r matches Ok(v) ==> v.wf() && q(v) == saw_eval(
                    q(self.period),
                    q(self.amplitude),
                    q(time),
                ))
                &&& (r is Err ==> r == Err::<Rat, SignalError>(SignalError::OutOfRange))
            },
    {
        if self.period.num < 1 {
            return Err(SignalError::InvalidPeriod);
        }
        let tm = match time.checked_mod(self.period) {
            Some(v) => v,
            None => { return Err(SignalError::OutOfRange) },
        };
        let quarter = match self.period.checked_div(Rat::from_int(4)) {
            Some(v) => v,
            None => { return Err(SignalError::OutOfRange) },
        };
        if tm.le(quarter) {
            self.rise(tm)
        } else {
            let three = match Rat::from_int(3).checked_mul(self.period) {
                Some(v) => v,
                None => { return Err(SignalError::OutOfRange) },
            };
            let three_quarter = match three.checked_div(Rat::from_int(4)) {
                Some(v) => v,
                None => { return Err(SignalError::OutOfRange) },
            };
            if tm.le(three_quarter) {
                let x = match tm.checked_sub(quarter) {
                    Some(v) => v,
                    None => { return Err(SignalError::OutOfRange) },
                };
                let rise = match self.rise(x) {
                    Ok(v) => v,
                    Err(e) => { return Err(e) },
                };
                match rise.neg().checked_add(self.amplitude) {
                    Some(v) => Ok(v),
                    None => Err(SignalError::OutOfRange),
                }
            } else {
                let x = match tm.checked_sub(three_quarter) {
                    Some(v) => v,
                    None => { return Err(SignalError::OutOfRange) },
                };
                let rise = match self.rise(x) {
                    Ok(v) => v,
                    Err(e) => { return Err(e) },
                };
                match rise.checked_sub(self.amplitude) {
                    Some(v) => Ok(v),
                    None => Err(SignalError::OutOfRange),
                }
            }
        }
    }

    /// The shared ramp `x * amplitude / period * 4`.
    fn rise(&self, x: Rat) -> (r: Result<Rat, SignalError>)
        requires
            self.wf(),
            x.wf(),
            self.period.num >= 1,
        ensures
            r is Ok <==> saw_rise_fits(q(self.period), q(self.amplitude), q(x)),
            r matches Ok(v) ==> v.wf() && q(v) == saw_rise(q(self.period), q(self.amplitude), q(x)),
            r is Err ==> r == Err::<Rat, SignalError>(SignalError::OutOfRange),
    {
        let m = match x.checked_mul(self.amplitude) {
            Some(v) => v,
            None => { return Err(SignalError::OutOfRange) },
        };
        let d = match m.checked_div(self.period) {
            Some(v) => v,
            None => { return Err(SignalError::OutOfRange) },
        };
        match d.checked_mul(Rat::from_int(4)) {
            Some(v) => Ok(v),
            None => Err(SignalError::OutOfRange),
        }
    }
}

/// A sample clipped in polar form; total, since clamping only compares and
/// substitutes already-representable values.
pub fn clip_sample(lower: &ClipBound, upper: &ClipBound, v: Rat) -> (r: Rat)
    requires
        lower.wf(),
        upper.wf(),
        v.wf(),
    ensures
        r.wf(),
        q(r) == clip_value(*lower, *upper, q(v)),
{
    let m = v.abs();
    let m1 = match lower {
        ClipBound::Unbounded => m,
        ClipBound::Excluded(bd) => if m.le(*bd) {
            *bd
        } else {
            m
        },
        ClipBound::Included(bd) => if m.lt(*bd) {
            *bd
        } else {
            m
        },
    };
    let m2 = match upper {
        ClipBound::Unbounded => m1,
        ClipBound::Excluded(bd) => if bd.le(m1) {
            *bd
        } else {
            m1
        },
        ClipBound::Included(bd) => if bd.lt(m1) {
            *bd
        } else {
            m1
        },
    };
    if v.num >= 0 {
        m2
    } else {
        m2.neg()
    }
}

impl Sum {
    /// An empty mixer.
    pub fn new() -> (r: Sum)
        ensures
            r.signals@.len() == 0,
    {
        Sum { signals: Vec::new() }
    }

    /// Appends one generator to the mix, builder style.
    pub fn add(self, g: Generator) -> (r: Sum)
        ensures
            r.signals@ == self.signals@.push(g),
    {
        let mut s = self;
        s.signals.push(g);
        s
    }
}

/// The values of a sine table, as exact pairs.
pub open spec fn smap(s: Seq<Rat>) -> Seq<(int, int)> {
    s.map_values(|r: Rat| q(r))
}

/// Every entry of a sine table is a well-formed rational.
pub open spec fn rats_wf(s: Seq<Rat>) -> bool {
    forall|k: int| 0 <= k < s.len() ==> (#[trigger] s[k]).wf()
}

impl Generator {
    /// Every rational in the tree is well-formed.
    pub open spec fn wf(self) -> bool
        decreases self,
    {
        match self {
            Generator::Sine(s) => s.wf(),
            Generator::Sawtooth(s) => s.wf(),
            Generator::Sum(s) => Self::seq_wf(s.signals@),
            Generator::Clip(c) => c.lower.wf() && c.upper.wf() && (*c.gen).wf(),
        }
    }

    pub open spec fn seq_wf(cs: Seq<Generator>) -> bool
        decreases cs,
    {
        cs.len() == 0 || (cs[0].wf() && Self::seq_wf(cs.drop_first()))
    }

    /// The number of sine leaves, in depth-first left-to-right order: the
    /// length of the sine table an evaluation consumes.
    pub open spec fn sine_count(self) -> nat
        decreases self,
    {
        match self {
            Generator::Sine(_) => 1,
            Generator::Sawtooth(_) => 0,
            Generator::Sum(s) => Self::seq_sine_count(s.signals@),
            Generator::Clip(c) => (*c.gen).sine_count(),
        }
    }

    pub open spec fn seq_sine_count(cs: Seq<Generator>) -> nat
        decreases cs,
    {
        if cs.len() == 0 {
            0
        } else {
            cs[0].sine_count() + Self::seq_sine_count(cs.drop_first())
        }
    }

    /// Every sawtooth in the tree has a strictly positive period.
    pub open spec fn periods_pos(self) -> bool
        decreases self,
    {
        match self {
            Generator::Sine(_) => true,
            Generator::Sawtooth(s) => s.period.num >= 1,
            Generator::Sum(s) => Self::seq_periods_pos(s.signals@),
            Generator::Clip(c) => (*c.gen).periods_pos(),
        }
    }

    pub open spec fn seq_periods_pos(cs: Seq<Generator>) -> bool
        decreases cs,
    {
        cs.len() == 0 || (cs[0].periods_pos() && Self::seq_periods_pos(cs.drop_first()))
    }

    /// The sine table holds an entry for every sine leaf reached when
    /// reading from index `i`.
    pub open spec fn sines_ok_at(self, len: int, i: int) -> bool
        decreases self,
    {
        match self {
            Generator::Sine(_) => i < len,
            Generator::Sawtooth(_) => true,
            Generator::Sum(s) => Self::seq_sines_ok_at(s.signals@, len, i),
            Generator::Clip(c) => (*c.gen).sines_ok_at(len, i),
        }
    }

    pub open spec fn seq_sines_ok_at(cs: Seq<Generator>, len: int, i: int) -> bool
        decreases cs,
    {
        cs.len() == 0 || (cs[0].sines_ok_at(len, i) && Self::seq_sines_ok_at(
            cs.drop_first(),
            len,
            i + cs[0].sine_count(),
        ))
    }

    /// The exact value at time `t`, reading this subtree's sine factors from
    /// the table `qs` starting at index `i`.
    pub open spec fn eval_at(self, t: (int, int), qs: Seq<(int, int)>, i: int) -> (int, int)
        decreases self,
    {
        match self {
            Generator::Sine(s) => q_mul(q(s.amplitude), qs[i]),
            Generator::Sawtooth(s) => saw_eval(q(s.period), q(s.amplitude), t),
            Generator::Sum(s) => Self::seq_eval_at(s.signals@, t, qs, i, q_int(0)),
            Generator::Clip(c) => clip_value(c.lower, c.upper, (*c.gen).eval_at(t, qs, i)),
        }
    }

    /// A sum folded left to right: `acc` already holds the mixed value of
    /// the children before `cs`.
    pub open spec fn seq_eval_at(
        cs: Seq<Generator>,
        t: (int, int),
        qs: Seq<(int, int)>,
        i: int,
        acc: (int, int),
    ) -> (int, int)
        decreases cs,
    {
        if cs.len() == 0 {
            acc
        } else {
            Self::seq_eval_at(
                cs.drop_first(),
                t,
                qs,
                i + cs[0].sine_count(),
                q_add(acc, cs[0].eval_at(t, qs, i)),
            )
        }
    }

    /// Every intermediate of the evaluation, in evaluation order, is
    /// representable.
    pub open spec fn eval_fits_at(self, t: (int, int), qs: Seq<(int, int)>, i: int) -> bool
        decreases self,
    {
        match self {
            Generator::Sine(s) => q_fits(q_mul(q(s.amplitude), qs[i])),
            Generator::Sawtooth(s) => saw_fits(q(s.period), q(s.amplitude), t),
            Generator::Sum(s) => Self::seq_eval_fits_at(s.signals@, t, qs, i, q_int(0)),
            Generator::Clip(c) => (*c.gen).eval_fits_at(t, qs, i),
        }
    }

    pub open spec fn seq_eval_fits_at(
        cs: Seq<Generator>,
        t: (int, int),
        qs: Seq<(int, int)>,
        i: int,
        acc: (int, int),
    ) -> bool
        decreases cs,
    {
        cs.len() == 0 || {
            &&& cs[0].eval_fits_at(t, qs, i)
            &&& q_fits(q_add(acc, cs[0].eval_at(t, qs, i)))
            &&& Self::seq_eval_fits_at(
                cs.drop_first(),
                t,
                qs,
                i + cs[0].sine_count(),
                q_add(acc, cs[0].eval_at(t, qs, i)),
            )
        }
    }

    /// The table is long enough exactly when it has one entry per leaf.
    pub proof fn lemma_sines_ok_iff(self, len: int, i: int)
        requires
            i <= len,
        ensures
            self.sines_ok_at(len, i) <==> i + self.sine_count() <= len,
        decreases self,
    {
        match self {
            Generator::Sine(_) => {},
            Generator::Sawtooth(_) => {},
            Generator::Sum(s) => {
                Self::lemma_seq_sines_ok_iff(s.signals@, len, i);
            },
            Generator::Clip(c) => {
                (*c.gen).lemma_sines_ok_iff(len, i);
            },
        }
    }

    pub proof fn lemma_seq_sines_ok_iff(cs: Seq<Generator>, len: int, i: int)
        requires
            i <= len,
        ensures
            Self::seq_sines_ok_at(cs, len, i) <==> i + Self::seq_sine_count(cs) <= len,
        decreases cs,
    {
        if cs.len() == 0 {
        } else {
            cs[0].lemma_sines_ok_iff(len, i);
            if cs[0].sines_ok_at(len, i) {
                Self::lemma_seq_sines_ok_iff(cs.drop_first(), len, i + cs[0].sine_count());
            }
        }
    }

    /// Walks the tree checking every sawtooth's period.
    #[verifier::loop_isolation(false)]
    pub fn periods_ok(&self) -> (r: bool)
        ensures
            r == self.periods_pos(),
        decreases *self,
    {
        match self {
            Generator::Sine(_) => true,
            Generator::Sawtooth(s) => s.period.num >= 1,
            Generator::Sum(s) => {
                let mut j: usize = 0;
                proof {
                    assert(s.signals@.skip(0) =~= s.signals@);
                }
                loop
                    invariant
                        j <= s.signals.len(),
                        Generator::seq_periods_pos(s.signals@) <==> Generator::seq_periods_pos(
                            s.signals@.skip(j as int),
                        ),
                    decreases s.signals.len() - j,
                {
                    if j == s.signals.len() {
                        return true;
                    }
                    proof {
                        assert(s.signals@.skip(j as int)[0] == s.signals@[j as int]);
                        assert(s.signals@.skip(j as int).drop_first() =~= s.signals@.skip(
                            j as int + 1,
                        ));
                        assert(decreases_to!(*self => s.signals@[j as int]));
                    }
                    let child = &s.signals[j];
                    if !child.periods_ok() {
                        return false;
                    }
                    j = j + 1;
                }
            },
            Generator::Clip(c) => c.gen.periods_ok(),
        }
    }

    /// Walks the tree matching sine leaves against table entries from index
    /// `i`: reports whether every leaf has an entry, and on success the
    /// index just past the consumed entries.
    #[verifier::loop_isolation(false)]
    pub(crate) fn sines_check(&self, len: usize, i: usize) -> (r: (bool, usize))
        requires
            i <= len,
        ensures
            r.0 == self.sines_ok_at(len as int, i as int),
            r.0 ==> r.1 == i + self.sine_count() && r.1 <= len,
        decreases *self,
    {
        match self {
            Generator::Sine(_) => if i < len {
                (true, i + 1)
            } else {
                (false, i)
            },
            Generator::Sawtooth(_) => (true, i),
            Generator::Sum(s) => {
                let mut pos: usize = i;
                let mut j: usize = 0;
                proof {
                    assert(s.signals@.skip(0) =~= s.signals@);
                }
                loop
                    invariant
                        j <= s.signals.len(),
                        pos <= len,
                        Generator::seq_sines_ok_at(s.signals@, len as int, i as int)
                            <==> Generator::seq_sines_ok_at(
                            s.signals@.skip(j as int),
                            len as int,
                            pos as int,
                        ),
                        i + Generator::seq_sine_count(s.signals@) == pos
                            + Generator::seq_sine_count(s.signals@.skip(j as int)),
                    decreases s.signals.len() - j,
                {
                    if j == s.signals.len() {
                        return (true, pos);
                    }
                    proof {
                        assert(s.signals@.skip(j as int)[0] == s.signals@[j as int]);
                        assert(s.signals@.skip(j as int).drop_first() =~= s.signals@.skip(
                            j as int + 1,
                        ));
                        assert(decreases_to!(*self => s.signals@[j as int]));
                    }
                    let child = &s.signals[j];
                    let (ok, p2) = child.sines_check(len, pos);
                    if !ok {
                        return (false, p2);
                    }
                    pos = p2;
                    j = j + 1;
                }
            },
            Generator::Clip(c) => c.gen.sines_check(len, i),
        }
    }
}

impl Generator {
    /// The verified evaluator: the sample of this subtree at `time`, reading
    /// sine factors from the table starting at index `i`; on success also
    /// the index just past the consumed entries.
    #[verifier::loop_isolation(false)]
    fn output_at(&self, time: Rat, sines: &Vec<Rat>, i: usize) -> (r: Result<
        (Rat, usize),
        SignalError,
    >)
        requires
            self.wf(),
            time.wf(),
            rats_wf(sines@),
            self.periods_pos(),
            self.sines_ok_at(sines@.len() as int, i as int),
            i <= sines@.len(),
        ensures
            r is Ok <==> self.eval_fits_at(q(time), smap(sines@), i as int),
            r matches Ok(v) ==> v.0.wf() && q(v.0) == self.eval_at(q(time), smap(sines@), i as int)
                && v.1 == i + self.sine_count() && v.1 <= sines@.len(),
            r is Err ==> r == Err::<(Rat, usize), SignalError>(SignalError::OutOfRange),
        decreases *self,
    {
        match self {
            Generator::Sine(s) => {
                let n = sines.len();
                proof {
                    assert(i < n);
                    assert(smap(sines@)[i as int] == q(sines@[i as int]));
                }
                let v = sines[i];
                match s.output(v) {
                    Ok(out) => Ok((out, i + 1)),
                    Err(e) => Err(e),
                }
            },
            Generator::Sawtooth(s) => match s.output(time) {
                Ok(out) => Ok((out, i)),
                Err(e) => Err(e),
            },
            Generator::Sum(s) => {
                let ghost qt = q(time);
                let ghost qs = smap(sines@);
                let ghost len = sines@.len() as int;
                let mut acc = Rat::zero();
                let mut pos: usize = i;
                let mut j: usize = 0;
                proof {
                    assert(s.signals@.skip(0) =~= s.signals@);
                }
                loop
                    invariant
                        j <= s.signals.len(),
                        pos <= sines@.len(),
                        acc.wf(),
                        Generator::seq_wf(s.signals@.skip(j as int)),
                        Generator::seq_periods_pos(s.signals@.skip(j as int)),
                        Generator::seq_sines_ok_at(s.signals@.skip(j as int), len, pos as int),
                        i + Generator::seq_sine_count(s.signals@) == pos
                            + Generator::seq_sine_count(s.signals@.skip(j as int)),
                        Generator::seq_eval_at(s.signals@, qt, qs, i as int, q_int(0))
                            == Generator::seq_eval_at(
                            s.signals@.skip(j as int),
                            qt,
                            qs,
                            pos as int,
                            q(acc),
                        ),
                        Generator::seq_eval_fits_at(s.signals@, qt, qs, i as int, q_int(0))
                            == Generator::seq_eval_fits_at(
                            s.signals@.skip(j as int),
                            qt,
                            qs,
                            pos as int,
                            q(acc),
                        ),
                    decreases s.signals.len() - j,
                {
                    if j == s.signals.len() {
                        return Ok((acc, pos));
                    }
                    proof {
                        assert(s.signals@.skip(j as int)[0] == s.signals@[j as int]);
                        assert(s.signals@.skip(j as int).drop_first() =~= s.signals@.skip(
                            j as int + 1,
                        ));
                        assert(decreases_to!(*self => s.signals@[j as int]));
                    }
                    let child = &s.signals[j];
                    match child.output_at(time, sines, pos) {
                        Ok((v, p2)) => {
                            match acc.checked_add(v) {
                                Some(a2) => {
                                    acc = a2;
                                    pos = p2;
                                    j = j + 1;
                                },
                                None => {
                                    return Err(SignalError::OutOfRange);
                                },
                            }
                        },
                        Err(e) => {
                            return Err(e);
                        },
                    }
                }
            },
            Generator::Clip(c) => match c.gen.output_at(time, sines, i) {
                Ok((v, p2)) => Ok((clip_sample(&c.lower, &c.upper, v), p2)),
                Err(e) => Err(e),
            },
        }
    }

    /// The exact value of this generator at time `t`, for a sine table `qs`
    /// holding one entry per sine leaf.
    pub open spec fn eval(self, t: (int, int), qs: Seq<(int, int)>) -> (int, int) {
        self.eval_at(t, qs, 0)
    }

    /// The generator's sample at `time`, given the sine table `sines`
    /// (exactly one entry per sine leaf, in depth-first left-to-right
    /// order).  Fails with `InvalidPeriod` if any sawtooth's period is not
    /// strictly positive, with `SineCountMismatch` if the table length is
    /// not the sine-leaf count, and with `OutOfRange` if an intermediate
    /// result leaves the fixed-width representation; otherwise returns the
    /// exact sample.
    pub fn output(&self, time: Rat, sines: &Vec<Rat>) -> (r: Result<Rat, SignalError>)
        requires
            self.wf(),
            time.wf(),
            rats_wf(sines@),
        ensures
            !self.periods_pos() <==> r == Err::<Rat, SignalError>(SignalError::InvalidPeriod),
            self.periods_pos() && sines@.len() != self.sine_count() <==> r == Err::<
                Rat,
                SignalError,
            >(SignalError::SineCountMismatch),
            self.periods_pos() && sines@.len() == self.sine_count() ==> {
                &&& r is Ok <==> self.eval_fits_at(q(time), smap(sines@), 0)
                &&& (r matches Ok(v) ==> v.wf() && q(v) == self.eval(q(time), smap(sines@)))
                &&& (r is Err ==> r == Err::<Rat, SignalError>(SignalError::OutOfRange))
            },
    {
        if !self.periods_ok() {
            return Err(SignalError::InvalidPeriod);
        }
        let (ok, pos) = self.sines_check(sines.len(), 0);
        proof {
            self.lemma_sines_ok_iff(sines@.len() as int, 0);
        }
        if !ok || pos != sines.len() {
            return Err(SignalError::SineCountMismatch);
        }
        match self.output_at(time, sines, 0) {
            Ok((v, _)) => Ok(v),
            Err(e) => Err(e),
        }
    }

    /// The frequencies of the sine leaves, in depth-first left-to-right
    /// order: the table layout that `output` expects.
    pub open spec fn freqs(self) -> Seq<Rat>
        decreases self,
    {
        match self {
            Generator::Sine(s) => seq![s.frequency],
            Generator::Sawtooth(_) => Seq::empty(),
            Generator::Sum(s) => Self::seq_freqs(s.signals@),
            Generator::Clip(c) => (*c.gen).freqs(),
        }
    }

    pub open spec fn seq_freqs(cs: Seq<Generator>) -> Seq<Rat>
        decreases cs,
    {
        if cs.len() == 0 {
            Seq::empty()
        } else {
            cs[0].freqs() + Self::seq_freqs(cs.drop_first())
        }
    }

    /// Collects the sine leaves' frequencies, in the order in which
    /// `output` consumes the sine table: entry `k` of the table must hold
    /// `sin(2*pi * frequencies[k] * time)`.
    #[verifier::loop_isolation(false)]
    pub fn frequencies(&self) -> (r: Vec<Rat>)
        ensures
            r@ == self.freqs(),
        decreases *self,
    {
        match self {
            Generator::Sine(s) => {
                let mut v: Vec<Rat> = Vec::new();
                v.push(s.frequency);
                proof {
                    assert(v@ =~= seq![s.frequency]);
                }
                v
            },
            Generator::Sawtooth(_) => {
                let v: Vec<Rat> = Vec::new();
                proof {
                    assert(v@ =~= Seq::<Rat>::empty());
                }
                v
            },
            Generator::Sum(s) => {
                let mut v: Vec<Rat> = Vec::new();
                let mut j: usize = 0;
                proof {
                    assert(s.signals@.skip(0) =~= s.signals@);
                    assert(v@ + Generator::seq_freqs(s.signals@) =~= Generator::seq_freqs(
                        s.signals@,
                    ));
                }
                loop
                    invariant
                        j <= s.signals.len(),
                        v@ + Generator::seq_freqs(s.signals@.skip(j as int))
                            == Generator::seq_freqs(s.signals@),
                    decreases s.signals.len() - j,
                {
                    if j == s.signals.len() {
                        proof {
                            assert(v@ + Generator::seq_freqs(s.signals@.skip(j as int)) =~= v@);
                        }
                        return v;
                    }
                    proof {
                        assert(s.signals@.skip(j as int)[0] == s.signals@[j as int]);
                        assert(s.signals@.skip(j as int).drop_first() =~= s.signals@.skip(
                            j as int + 1,
                        ));
                        assert(decreases_to!(*self => s.signals@[j as int]));
                    }
                    let child = &s.signals[j];
                    let mut cf = child.frequencies();
                    proof {
                        assert((v@ + cf@) + Generator::seq_freqs(s.signals@.skip(j as int + 1))
                            =~= v@ + (cf@ + Generator::seq_freqs(s.signals@.skip(j as int + 1))));
                    }
                    v.append(&mut cf);
                    j = j + 1;
                }
            },
            Generator::Clip(c) => c.gen.frequencies(),
        }
    }
}

impl Clip {
    /// Wraps `gen` with a magnitude range.
    pub fn new(gen: Generator, lower: ClipBound, upper: ClipBound) -> (r: Clip)
        ensures
            r.lower == lower,
            r.upper == upper,
            *r.gen == gen,
    {
        Clip { lower, upper, gen: Box::new(gen) }
    }
}

/// The provable half of the sine landmarks: with a zero sine factor (the
/// factor at time 0, where the sine vanishes) the sample is zero, and with a
/// unit factor (the factor a quarter period in, where the sine crests) the
/// sample is the amplitude itself.
pub proof fn lemma_sine_landmarks(s: Sine)
    requires
        s.wf(),
    ensures
        q_eq(q_mul(q(s.amplitude), q_int(0)), q_int(0)),
        q_eq(q_mul(q(s.amplitude), q_int(1)), q(s.amplitude)),
{
    let a0 = s.amplitude.num as int;
    let a1 = s.amplitude.den as int;
    assert((a0 * 0) * 1 == 0 * (a1 * 1) && (a0 * 1) * a1 == a0 * (a1 * 1)) by (nonlinear_arith);
}

/// The ramp maps equal values to equal values.
proof fn lemma_saw_rise_congr(p: (int, int), a: (int, int), x2: (int, int), x: (int, int))
    requires
        q_wf(p),
        q_wf(a),
        q_wf(x2),
        q_wf(x),
        p.0 >= 1,
        q_eq(x2, x),
    ensures
        q_wf(saw_rise(p, a, x2)),
        q_wf(saw_rise(p, a, x)),
        q_eq(saw_rise(p, a, x2), saw_rise(p, a, x)),
{
    lemma_mul_pos(x2.1, a.1);
    lemma_mul_pos(x.1, a.1);
    lemma_q_mul_congr(x2, x, a);
    lemma_q_div_congr(q_mul(x2, a), q_mul(x, a), p);
    lemma_mul_pos(x2.1 * a.1, p.0);
    lemma_mul_pos(x.1 * a.1, p.0);
    lemma_q_mul_congr(q_div(q_mul(x2, a), p), q_div(q_mul(x, a), p), q_int(4));
}

/// The sawtooth is periodic: its value at `t` equals its value at
/// `t mod period`, for every time and every positive period.
pub proof fn lemma_sawtooth_periodic(p: (int, int), a: (int, int), t: (int, int))
    requires
        q_wf(p),
        q_wf(a),
        q_wf(t),
        p.0 >= 1,
    ensures
        q_eq(saw_eval(p, a, t), saw_eval(p, a, q_mod(t, p))),
{
    let tm = q_mod(t, p);
    lemma_q_mod_range(t, p);
    lemma_q_mod_small(tm, p);
    lemma_q_mod_range(tm, p);
    let tm2 = q_mod(tm, p);
    let quarter = q_div(p, q_int(4));
    lemma_q_le_congr(tm2, tm, quarter);
    if q_le(tm, quarter) {
        lemma_saw_rise_congr(p, a, tm2, tm);
    } else {
        let tq = q_div(q_mul(q_int(3), p), q_int(4));
        lemma_q_le_congr(tm2, tm, tq);
        if q_le(tm, tq) {
            let x2 = q_sub(tm2, quarter);
            let x = q_sub(tm, quarter);
            lemma_q_add_congr(tm2, tm, q_neg(quarter));
            lemma_mul_pos(tm2.1, quarter.1);
            lemma_mul_pos(tm.1, quarter.1);
            lemma_saw_rise_congr(p, a, x2, x);
            lemma_q_neg_congr(saw_rise(p, a, x2), saw_rise(p, a, x));
            lemma_q_add_congr(q_neg(saw_rise(p, a, x2)), q_neg(saw_rise(p, a, x)), a);
        } else {
            let x2 = q_sub(tm2, tq);
            let x = q_sub(tm, tq);
            lemma_q_add_congr(tm2, tm, q_neg(tq));
            lemma_mul_pos(tm2.1, tq.1);
            lemma_mul_pos(tm.1, tq.1);
            lemma_saw_rise_congr(p, a, x2, x);
            lemma_q_add_congr(saw_rise(p, a, x2), saw_rise(p, a, x), q_neg(a));
        }
    }
}

impl Generator {
    /// An evaluation reads only its own window of the sine table: tables
    /// that agree on the `sine_count` entries from the start index give the
    /// same value.
    pub proof fn lemma_eval_shift(
        self,
        t: (int, int),
        qs1: Seq<(int, int)>,
        i1: int,
        qs2: Seq<(int, int)>,
        i2: int,
    )
        requires
            forall|k: int| 0 <= k < self.sine_count() ==> #[trigger] qs1[i1 + k] == qs2[i2 + k],
        ensures
            self.eval_at(t, qs1, i1) == self.eval_at(t, qs2, i2),
            self.eval_fits_at(t, qs1, i1) == self.eval_fits_at(t, qs2, i2),
        decreases self,
    {
        match self {
            Generator::Sine(_) => {
                assert(qs1[i1 + 0] == qs2[i2 + 0]);
            },
            Generator::Sawtooth(_) => {},
            Generator::Sum(s) => {
                Self::lemma_seq_eval_shift(s.signals@, t, qs1, i1, qs2, i2, q_int(0));
            },
            Generator::Clip(c) => {
                (*c.gen).lemma_eval_shift(t, qs1, i1, qs2, i2);
            },
        }
    }

    proof fn lemma_seq_eval_shift(
        cs: Seq<Generator>,
        t: (int, int),
        qs1: Seq<(int, int)>,
        i1: int,
        qs2: Seq<(int, int)>,
        i2: int,
        acc: (int, int),
    )
        requires
            forall|k: int|
                0 <= k < Self::seq_sine_count(cs) ==> #[trigger] qs1[i1 + k] == qs2[i2 + k],
        ensures
            Self::seq_eval_at(cs, t, qs1, i1, acc) == Self::seq_eval_at(cs, t, qs2, i2, acc),
            Self::seq_eval_fits_at(cs, t, qs1, i1, acc) == Self::seq_eval_fits_at(
                cs,
                t,
                qs2,
                i2,
                acc,
            ),
        decreases cs,
    {
        if cs.len() == 0 {
        } else {
            let c0 = cs[0].sine_count();
            assert(forall|k: int| 0 <= k < c0 ==> #[trigger] qs1[i1 + k] == qs2[i2 + k]);
            cs[0].lemma_eval_shift(t, qs1, i1, qs2, i2);
            let acc2 = q_add(acc, cs[0].eval_at(t, qs1, i1));
            assert(forall|k: int|
                0 <= k < Self::seq_sine_count(cs.drop_first()) ==> #[trigger] qs1[(i1 + c0) + k]
                    == qs2[(i2 + c0) + k]) by {
                assert forall|k: int|
                    0 <= k < Self::seq_sine_count(cs.drop_first()) implies #[trigger] qs1[(i1 + c0)
                    + k] == qs2[(i2 + c0) + k] by {
                    assert(qs1[i1 + (c0 + k)] == qs2[i2 + (c0 + k)]);
                }
            }
            Self::lemma_seq_eval_shift(cs.drop_first(), t, qs1, i1 + c0, qs2, i2 + c0, acc2);
        }
    }
}

/// Mixing two generators adds their outputs, and the order of the mix
/// cannot change the value: `Sum([A, B])` at `t` equals
/// `A(t) + B(t)`, and equals `Sum([B, A])` at `t` once the sine table is
/// rearranged the same way.
pub proof fn lemma_sum_pair(
    a: Generator,
    b: Generator,
    vab: Vec<Generator>,
    vba: Vec<Generator>,
    t: (int, int),
    qab: Seq<(int, int)>,
    qba: Seq<(int, int)>,
)
    requires
        vab@ == seq![a, b],
        vba@ == seq![b, a],
        qab.len() == a.sine_count() + b.sine_count(),
        qba == qab.skip(a.sine_count() as int) + qab.take(a.sine_count() as int),
    ensures
        Generator::Sum(Sum { signals: vab }).eval(t, qab) == q_add(
            a.eval_at(t, qab, 0),
            b.eval_at(t, qab, a.sine_count() as int),
        ),
        q_eq(
            Generator::Sum(Sum { signals: vab }).eval(t, qab),
            Generator::Sum(Sum { signals: vba }).eval(t, qba),
        ),
{
    let ca = a.sine_count() as int;
    let cb = b.sine_count() as int;
    let x = a.eval_at(t, qab, 0);
    let y = b.eval_at(t, qab, ca);
    assert(seq![a, b].drop_first() =~= seq![b]);
    assert(seq![b].drop_first() =~= Seq::<Generator>::empty());
    assert(seq![b, a].drop_first() =~= seq![a]);
    assert(seq![a].drop_first() =~= Seq::<Generator>::empty());
    // In the swapped mix, each generator reads the same window of the
    // rearranged table.
    assert(forall|k: int| 0 <= k < cb ==> #[trigger] qba[0 + k] == qab[ca + k]);
    b.lemma_eval_shift(t, qba, 0, qab, ca);
    assert(forall|k: int| 0 <= k < ca ==> #[trigger] qba[cb + k] == qab[0 + k]);
    a.lemma_eval_shift(t, qba, cb, qab, 0);
    // Folding over a two-element mix: the zero accumulator disappears and
    // the two outputs are added.
    reveal_with_fuel(Generator::seq_eval_at, 4);
    assert(0 * x.1 == 0 && x.0 * 1 == x.0 && 1 * x.1 == x.1) by (nonlinear_arith);
    assert(0 * y.1 == 0 && y.0 * 1 == y.0 && 1 * y.1 == y.1) by (nonlinear_arith);
    assert(q_add(q_int(0), x) == x);
    assert(q_add(q_int(0), y) == y);
    assert(Generator::seq_eval_at(seq![a, b], t, qab, 0, q_int(0)) == Generator::seq_eval_at(
        seq![b],
        t,
        qab,
        0 + ca,
        x,
    ));
    assert(Generator::seq_eval_at(seq![b], t, qab, 0 + ca, x) == q_add(x, y));
    assert(Generator::Sum(Sum { signals: vab }).eval(t, qab) == q_add(x, y));
    assert(Generator::seq_eval_at(seq![b, a], t, qba, 0, q_int(0)) == Generator::seq_eval_at(
        seq![a],
        t,
        qba,
        0 + cb,
        y,
    ));
    assert(Generator::seq_eval_at(seq![a], t, qba, 0 + cb, y) == q_add(y, x));
    assert(Generator::Sum(Sum { signals: vba }).eval(t, qba) == q_add(y, x));
    assert((x.0 * y.1 + y.0 * x.1) * (y.1 * x.1) == (y.0 * x.1 + x.0 * y.1) * (x.1 * y.1))
        by (nonlinear_arith);
}

/// Clipping bounds the magnitude and keeps the phase: with an upper bound
/// `u >= 0` (inclusive or exclusive), the clipped sample's magnitude never
/// exceeds `u`, and the clipped sample keeps the raw sample's sign (a zero
/// sample, whose phase is zero, stays non-negative).
pub proof fn lemma_clip_magnitude(lower: ClipBound, upper: ClipBound, u: Rat, v: (int, int))
    requires
        q_wf(v),
        lower.wf(),
        u.wf(),
        upper == ClipBound::Included(u) || upper == ClipBound::Excluded(u),
        q_le(q_int(0), q(u)),
    ensures
        q_le(q_abs(clip_value(lower, upper, v)), q(u)),
        v.0 >= 0 ==> clip_value(lower, upper, v).0 >= 0,
        v.0 < 0 ==> clip_value(lower, upper, v).0 <= 0,
{
    let m = q_abs(v);
    assert(m.0 >= 0);
    let m1 = clamp_lower(m, lower);
    match lower {
        ClipBound::Unbounded => {},
        ClipBound::Excluded(l) => {
            if q_le(m, q(l)) {
                assert(q(l).0 >= 0) by (nonlinear_arith)
                    requires
                        m.0 * q(l).1 <= q(l).0 * m.1,
                        m.0 >= 0,
                        q(l).1 >= 1,
                        m.1 >= 1,
                ;
            }
        },
        ClipBound::Included(l) => {
            if q_lt(m, q(l)) {
                assert(q(l).0 >= 0) by (nonlinear_arith)
                    requires
                        m.0 * q(l).1 < q(l).0 * m.1,
                        m.0 >= 0,
                        q(l).1 >= 1,
                        m.1 >= 1,
                ;
            }
        },
    }
    assert(m1.0 >= 0);
    let m2 = clamp_upper(m1, upper);
    assert(m2.0 >= 0);
    assert(q_le(m2, q(u)));
    assert(q_abs(m2) == m2);
    assert(q_abs(q_neg(m2)) == m2);
}

} // verus!
