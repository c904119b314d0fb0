use fft_pipeline::error::SignalError;
use fft_pipeline::rat::Rat;
use fft_pipeline::step_range::StepRange;

fn to_f64(r: &Rat) -> f64 {
    r.num as f64 / r.den as f64
}

#[test]
fn rat_arithmetic_is_exact() {
    let a = Rat::new(1, 2);
    let b = Rat::new(1, 3);
    assert!(a.checked_add(b).unwrap().eq_value(Rat::new(5, 6)));
    assert!(a.checked_sub(b).unwrap().eq_value(Rat::new(1, 6)));
    assert!(a.checked_mul(b).unwrap().eq_value(Rat::new(1, 6)));
    assert!(a.checked_div(b).unwrap().eq_value(Rat::new(3, 2)));
    assert!(Rat::new(9, 4).checked_mod(Rat::new(1, 1)).unwrap().eq_value(Rat::new(1, 4)));
    // a modulo of a negative value is still non-negative
    assert!(Rat::new(-1, 4).checked_mod(Rat::new(1, 1)).unwrap().eq_value(Rat::new(3, 4)));
    assert!(Rat::new(-3, 4).abs().eq_value(Rat::new(3, 4)));
    assert!(Rat::new(2, 4).eq_value(Rat::new(1, 2)));
    assert!(Rat::new(1, 3).lt(Rat::new(1, 2)));
    // a negative denominator moves its sign into the numerator
    let c = Rat::new(1, -2);
    assert_eq!((c.num, c.den), (-1, 2));
}

#[test]
fn rat_checked_ops_report_unrepresentable_results() {
    let big = Rat::new(i64::MAX, 1);
    assert_eq!(big.checked_add(Rat::new(1, 1)), None);
    assert_eq!(big.checked_mul(Rat::new(2, 3)), None);
    assert_eq!(Rat::new(1, 1).checked_div(Rat::new(0, 1)), None);
    assert_eq!(Rat::new(1, 1).checked_mod(Rat::new(0, 1)), None);
    assert_eq!(Rat::new(1, 1).checked_mod(Rat::new(-1, 1)), None);
}

#[test]
fn points_yields_inclusive_grid() {
    // 0, 0.25, 0.5, 0.75, 1.0 — the stop value itself is yielded
    let r = StepRange { start: Rat::new(0, 1), end: Rat::new(1, 1), step: Rat::new(1, 4) };
    let pts = r.points().unwrap();
    assert_eq!(pts.len(), 5);
    for (k, p) in pts.iter().enumerate() {
        assert!(p.eq_value(Rat::new(k as i64, 4)));
    }
    // floor((end - start) / step) + 1, the last value <= end and > end - step
    let last = pts[pts.len() - 1];
    assert!(last.le(r.end));
    assert!(r.end.checked_sub(r.step).unwrap().lt(last));
}

#[test]
fn points_count_matches_floor_formula_off_grid() {
    // stop not on the grid: 0, 0.4, 0.8 — floor(1/0.4) + 1 = 3 values
    let r = StepRange { start: Rat::new(0, 1), end: Rat::new(1, 1), step: Rat::new(2, 5) };
    let pts = r.points().unwrap();
    assert_eq!(pts.len(), 3);
    assert!(pts[2].eq_value(Rat::new(4, 5)));
}

#[test]
fn points_rejects_invalid_step_and_empty_range() {
    let r = StepRange { start: Rat::new(0, 1), end: Rat::new(1, 1), step: Rat::new(0, 1) };
    assert_eq!(r.points(), Err(SignalError::InvalidStep));
    let r2 = StepRange { start: Rat::new(0, 1), end: Rat::new(1, 1), step: Rat::new(-1, 4) };
    assert_eq!(r2.points(), Err(SignalError::InvalidStep));
    // an exhausted range yields nothing, whatever the step
    let r3 = StepRange { start: Rat::new(2, 1), end: Rat::new(1, 1), step: Rat::new(0, 1) };
    assert_eq!(r3.points(), Ok(vec![]));
}

#[test]
fn with_step_replaces_only_the_step() {
    let r = StepRange { start: Rat::new(0, 1), end: Rat::new(10, 1), step: Rat::new(1, 1) };
    let r2 = r.with_step(Rat::new(1, 2));
    assert_eq!((r2.start, r2.end, r2.step), (r.start, r.end, Rat::new(1, 2)));
    // the original is unchanged (it is a plain value)
    assert_eq!(r.step, Rat::new(1, 1));
}

#[test]
fn with_num_points_recomputes_the_step() {
    let r = StepRange { start: Rat::new(0, 1), end: Rat::new(1, 1), step: Rat::new(1, 1) };
    let r2 = r.with_num_points(4).unwrap();
    assert!(r2.step.eq_value(Rat::new(1, 4)));
    // the inclusive stop adds one: n steps give n + 1 grid values
    assert_eq!(r2.points().unwrap().len(), 5);
    // zero points is a domain error, not a silent division by zero
    assert_eq!(r.with_num_points(0), Err(SignalError::ZeroPoints));
}

#[test]
fn sample_rate_is_step_reciprocal() {
    let r = StepRange { start: Rat::new(0, 1), end: Rat::new(1, 1), step: Rat::new(1, 1000) };
    assert!(r.sample_rate().unwrap().eq_value(Rat::new(1000, 1)));
    let bad = r.with_step(Rat::new(0, 1));
    assert_eq!(bad.sample_rate(), Err(SignalError::InvalidStep));
}

#[test]
fn iter_restarts_and_stops_past_the_end() {
    let r = StepRange { start: Rat::new(0, 1), end: Rat::new(1, 2), step: Rat::new(1, 4) };
    let mut it = r.iter();
    let mut got: Vec<f64> = Vec::new();
    while let Some(v) = it.next() {
        got.push(to_f64(&v));
    }
    assert_eq!(got, vec![0.0, 0.25, 0.5]);
    assert_eq!(it.next(), None);
    // a fresh cursor starts over from the beginning
    let mut it2 = r.iter();
    assert!(it2.next().unwrap().eq_value(Rat::new(0, 1)));
}
