use fft_pipeline::error::SignalError;
use fft_pipeline::rat::Rat;
use fft_pipeline::signals::{Clip, ClipBound, Generator, Sawtooth, Sine, Sum};

fn to_f64(r: &Rat) -> f64 {
    r.num as f64 / r.den as f64
}

/// A rational approximation of an externally computed value (a sine factor).
fn rat_approx(x: f64) -> Rat {
    Rat::new((x * 1_000_000_000.0).round() as i64, 1_000_000_000)
}

/// An exact rational for a time on the quarter grid used by the tests.
fn rat_time(t: f64) -> Rat {
    Rat::new((t * 64.0) as i64, 64)
}

/// The real part of a sine's sample at `time`: the transcendental factor is
/// computed here and handed to the generator.
fn sine_re(s: &Sine, time: f64) -> f64 {
    let f = to_f64(&s.frequency);
    let sine = (2.0 * std::f64::consts::PI * f * time).sin();
    to_f64(&s.output(rat_approx(sine)).unwrap())
}

fn saw_re(s: &Sawtooth, time: f64) -> f64 {
    to_f64(&s.output(rat_time(time)).unwrap())
}

#[test]
fn test_sin_default() {
    let s = Sine { frequency: Rat::new(1, 1), amplitude: Rat::new(1, 1) };
    let epsilon = 0.0001;
    assert!(sine_re(&s, 0.0) - 0.0 < epsilon);
    assert!(sine_re(&s, 0.25) - 1.0 < epsilon);
    assert!(sine_re(&s, 0.5) - 0.0 < epsilon);
    assert!(sine_re(&s, 0.75) - -1.0 < epsilon);
    assert!(sine_re(&s, 1.0) - 0.0 < epsilon);
}

#[test]
fn test_sin_frequency() {
    let s = Sine { frequency: Rat::new(2, 1), amplitude: Rat::new(1, 1) };
    let epsilon = 0.0001;
    assert!(sine_re(&s, 0.0) - 0.0 < epsilon);
    assert!(sine_re(&s, 0.125) - 1.0 < epsilon);
    assert!(sine_re(&s, 0.25) - 0.0 < epsilon);
    assert!(sine_re(&s, 0.375) - -1.0 < epsilon);
    assert!(sine_re(&s, 0.5) - 0.0 < epsilon);
}

#[test]
fn test_sin_amplitude() {
    let s = Sine { frequency: Rat::new(1, 1), amplitude: Rat::new(10, 1) };
    let epsilon = 0.0001;
    assert!(sine_re(&s, 0.0) - 0.0 < epsilon);
    assert!(sine_re(&s, 0.25) - 10.0 < epsilon);
    assert!(sine_re(&s, 0.5) - 0.0 < epsilon);
    assert!(sine_re(&s, 0.75) - -10.0 < epsilon);
    assert!(sine_re(&s, 1.0) - 0.0 < epsilon);
}

#[test]
fn test_sawtooth_default() {
    let s = Sawtooth { period: Rat::new(1, 1), amplitude: Rat::new(1, 1) };
    assert_eq!(saw_re(&s, 0.0), 0.0);
    assert_eq!(saw_re(&s, 0.25), 1.0);
    assert_eq!(saw_re(&s, 0.5), 0.0);
    assert_eq!(saw_re(&s, 0.75), -1.0);
    assert_eq!(saw_re(&s, 1.0), 0.0);
}

#[test]
fn test_sawtooth_period() {
    let s = Sawtooth { period: Rat::new(2, 1), amplitude: Rat::new(1, 1) };
    assert_eq!(saw_re(&s, 0.0), 0.0);

    assert_eq!(saw_re(&s, 0.25), 0.5);
    assert_eq!(saw_re(&s, 0.5), 1.0);
    assert_eq!(saw_re(&s, 0.75), 0.5);

    assert_eq!(saw_re(&s, 1.0), 0.0);

    assert_eq!(saw_re(&s, 1.25), -0.5);
    assert_eq!(saw_re(&s, 1.5), -1.0);
    assert_eq!(saw_re(&s, 1.75), -0.5);

    assert_eq!(saw_re(&s, 2.0), 0.0);
}

#[test]
fn test_sawtooth_amplitude() {
    let s = Sawtooth { period: Rat::new(1, 1), amplitude: Rat::new(10, 1) };
    assert_eq!(saw_re(&s, 0.0), 0.0);
    assert_eq!(saw_re(&s, 0.25), 10.0);
    assert_eq!(saw_re(&s, 0.5), 0.0);
    assert_eq!(saw_re(&s, 0.75), -10.0);
    assert_eq!(saw_re(&s, 1.0), 0.0);
}

#[test]
fn sawtooth_periodicity_matches_reduced_time() {
    // evaluate(t) == evaluate(t mod period) on the sampled grid
    let s = Sawtooth { period: Rat::new(2, 1), amplitude: Rat::new(1, 1) };
    for k in 0..32 {
        let t = k as f64 * 0.25;
        let reduced = t % 2.0;
        assert_eq!(saw_re(&s, t), saw_re(&s, reduced));
    }
}

#[test]
fn sawtooth_zero_period_is_domain_error() {
    let s = Sawtooth { period: Rat::new(0, 1), amplitude: Rat::new(1, 1) };
    assert_eq!(s.output(Rat::new(1, 4)), Err(SignalError::InvalidPeriod));
}

#[test]
fn sine_scales_the_given_factor_exactly() {
    let s = Sine { frequency: Rat::new(3, 1), amplitude: Rat::new(5, 2) };
    // amplitude * sine_value, exactly
    let out = s.output(Rat::new(1, 3)).unwrap();
    assert!(out.eq_value(Rat::new(5, 6)));
    // a unit factor returns the amplitude itself
    let top = s.output(Rat::new(1, 1)).unwrap();
    assert!(top.eq_value(Rat::new(5, 2)));
    // phase bookkeeping: frequency * time
    let ph = s.phase(Rat::new(1, 12)).unwrap();
    assert!(ph.eq_value(Rat::new(1, 4)));
}

#[test]
fn sine_overflow_is_reported() {
    let s = Sine { frequency: Rat::new(1, 1), amplitude: Rat::new(i64::MAX, 1) };
    assert_eq!(s.output(Rat::new(2, 3)), Err(SignalError::OutOfRange));
}

#[test]
fn sum_of_two_sines_adds_and_commutes() {
    let a = Sine { frequency: Rat::new(1, 1), amplitude: Rat::new(2, 1) };
    let b = Sine { frequency: Rat::new(2, 1), amplitude: Rat::new(1, 1) };
    let sa = Rat::new(1, 2); // the sine factor handed to a
    let sb = Rat::new(-1, 4); // the sine factor handed to b
    let ab = Generator::Sum(Sum::new().add(Generator::Sine(a)).add(Generator::Sine(b)));
    let ba = Generator::Sum(Sum::new().add(Generator::Sine(b)).add(Generator::Sine(a)));
    let t = Rat::new(1, 8);
    let out_ab = ab.output(t, &vec![sa, sb]).unwrap();
    let out_ba = ba.output(t, &vec![sb, sa]).unwrap();
    // Sum([A,B]) == Sum([B,A]) == A + B, here 2*(1/2) + 1*(-1/4) = 3/4
    assert!(out_ab.eq_value(out_ba));
    assert!(out_ab.eq_value(Rat::new(3, 4)));
}

#[test]
fn empty_sum_is_zero() {
    let g = Generator::Sum(Sum::new());
    let out = g.output(Rat::new(1, 2), &vec![]).unwrap();
    assert!(out.eq_value(Rat::new(0, 1)));
}

#[test]
fn sine_table_must_match_leaf_count() {
    let g = Generator::Sine(Sine { frequency: Rat::new(1, 1), amplitude: Rat::new(1, 1) });
    assert_eq!(g.output(Rat::new(0, 1), &vec![]), Err(SignalError::SineCountMismatch));
    let two = vec![Rat::new(0, 1), Rat::new(0, 1)];
    assert_eq!(g.output(Rat::new(0, 1), &two), Err(SignalError::SineCountMismatch));
}

#[test]
fn clip_bounds_magnitude_and_keeps_sign() {
    // a sine of amplitude 2 clipped to [-1, 1], both ends inclusive
    let inner = Sine { frequency: Rat::new(9, 1), amplitude: Rat::new(2, 1) };
    let clip = Clip::new(
        Generator::Sine(inner),
        ClipBound::Included(Rat::new(-1, 1)),
        ClipBound::Included(Rat::new(1, 1)),
    );
    let g = Generator::Clip(clip);
    let one = Rat::new(1, 1);
    for k in -8i64..9 {
        // sine factors sweeping [-1, 1]
        let factor = Rat::new(k, 8);
        let raw = inner.output(factor).unwrap();
        let out = g.output(Rat::new(0, 1), &vec![factor]).unwrap();
        // output magnitude never exceeds 1
        assert!(out.abs().le(one));
        // phase (the sign) of the output equals the unclipped sample's
        if raw.num >= 0 {
            assert!(out.num >= 0);
        } else {
            assert!(out.num <= 0);
        }
        // inside the range the sample passes through unchanged
        if raw.abs().le(one) {
            assert!(out.eq_value(raw));
        }
    }
}

#[test]
fn clip_exclusive_and_lower_bounds() {
    let inner = Generator::Sawtooth(Sawtooth { period: Rat::new(1, 1), amplitude: Rat::new(2, 1) });
    // exclusive upper bound: a magnitude at the bound is clamped too
    let g = Generator::Clip(Clip::new(inner, ClipBound::Unbounded, ClipBound::Excluded(Rat::new(2, 1))));
    let out = g.output(Rat::new(1, 4), &vec![]).unwrap(); // raw sample is 2
    assert!(out.eq_value(Rat::new(2, 1)));
    // a lower bound lifts small magnitudes, keeping phase zero for zero input
    let inner2 = Generator::Sawtooth(Sawtooth { period: Rat::new(1, 1), amplitude: Rat::new(2, 1) });
    let g2 = Generator::Clip(Clip::new(inner2, ClipBound::Included(Rat::new(1, 2)), ClipBound::Unbounded));
    let out2 = g2.output(Rat::new(0, 1), &vec![]).unwrap(); // raw sample is 0
    assert!(out2.eq_value(Rat::new(1, 2)));
}

#[test]
fn frequencies_lists_sine_leaves_in_order() {
    let a = Generator::Sine(Sine { frequency: Rat::new(100, 1), amplitude: Rat::new(2, 1) });
    let b = Generator::Sine(Sine { frequency: Rat::new(200, 1), amplitude: Rat::new(1, 1) });
    let saw = Generator::Sawtooth(Sawtooth { period: Rat::new(1, 2), amplitude: Rat::new(1, 1) });
    let g = Generator::Sum(Sum::new().add(a).add(saw).add(b));
    let fs = g.frequencies();
    assert_eq!(fs.len(), 2);
    assert!(fs[0].eq_value(Rat::new(100, 1)));
    assert!(fs[1].eq_value(Rat::new(200, 1)));
}
