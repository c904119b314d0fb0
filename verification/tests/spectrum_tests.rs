use fft_pipeline::error::SignalError;
use fft_pipeline::generate::trace;
use fft_pipeline::rat::Rat;
use fft_pipeline::signals::{Generator, Sawtooth, Sine, Sum};
use fft_pipeline::spectrum::{spectrum_axis, truncate_half};
use fft_pipeline::step_range::StepRange;
use num_complex::Complex;
use rustfft::FftPlanner;

fn to_f64(r: &Rat) -> f64 {
    r.num as f64 / r.den as f64
}

fn rat_approx(x: f64) -> Rat {
    Rat::new((x * 1_000_000_000.0).round() as i64, 1_000_000_000)
}

#[test]
fn trace_is_index_aligned_with_the_axis() {
    let g = Generator::Sum(
        Sum::new().add(Generator::Sawtooth(Sawtooth {
            period: Rat::new(1, 2),
            amplitude: Rat::new(1, 1),
        })),
    );
    let axis = StepRange { start: Rat::new(0, 1), end: Rat::new(1, 1), step: Rat::new(1, 8) };
    let sines: Vec<Vec<Rat>> = (0..9).map(|_| Vec::new()).collect();
    let tr = trace(&g, &axis, &sines).unwrap();
    assert_eq!(tr.len(), 9);
    // spot checks of the sawtooth ramp over period 1/2
    assert_eq!(to_f64(&tr[0]), 0.0);
    assert_eq!(to_f64(&tr[1]), 1.0); // t = 1/8 = period/4: the crest
    assert_eq!(to_f64(&tr[2]), 0.0); // t = 1/4 = period/2
    assert_eq!(to_f64(&tr[3]), -1.0); // t = 3/8: the trough
    assert_eq!(to_f64(&tr[4]), 0.0); // t = 1/2: one full period
}

#[test]
fn trace_rejects_misaligned_sine_tables() {
    let g = Generator::Sine(Sine { frequency: Rat::new(1, 1), amplitude: Rat::new(1, 1) });
    let axis = StepRange { start: Rat::new(0, 1), end: Rat::new(1, 1), step: Rat::new(1, 4) };
    // 5 instants, but only 4 tables
    let sines: Vec<Vec<Rat>> = (0..4).map(|_| vec![Rat::new(0, 1)]).collect();
    assert_eq!(trace(&g, &axis, &sines), Err(SignalError::SineCountMismatch));
    // 5 tables, but one lacks the sine entry
    let mut sines2: Vec<Vec<Rat>> = (0..5).map(|_| vec![Rat::new(0, 1)]).collect();
    sines2[3] = Vec::new();
    assert_eq!(trace(&g, &axis, &sines2), Err(SignalError::SineCountMismatch));
}

#[test]
fn empty_trace_is_a_domain_error() {
    let axis = StepRange { start: Rat::new(0, 1), end: Rat::new(1, 1), step: Rat::new(1, 1000) };
    assert_eq!(spectrum_axis(&axis, 0), Err(SignalError::EmptyTrace));
    // one sample leaves no retained bin
    assert_eq!(spectrum_axis(&axis, 1), Err(SignalError::ZeroPoints));
    // no sample rate without a step
    let bad = axis.with_step(Rat::new(0, 1));
    assert_eq!(spectrum_axis(&bad, 8), Err(SignalError::InvalidStep));
}

#[test]
fn spectrum_axis_spans_to_half_the_sample_rate() {
    let axis = StepRange { start: Rat::new(0, 1), end: Rat::new(1, 1), step: Rat::new(1, 1000) };
    let fx = spectrum_axis(&axis, 1000).unwrap();
    assert!(fx.start.eq_value(Rat::new(0, 1)));
    assert!(fx.end.eq_value(Rat::new(500, 1)));
    assert!(fx.step.eq_value(Rat::new(1, 1)));
    // n/2 steps with the inclusive stop: n/2 + 1 grid values
    assert_eq!(fx.points().unwrap().len(), 501);
}

#[test]
fn truncate_half_keeps_the_leading_bins_in_order() {
    let bins = vec![10, 11, 12, 13, 14];
    assert_eq!(truncate_half(bins), vec![10, 11]);
    let even = vec![1, 2, 3, 4];
    assert_eq!(truncate_half(even), vec![1, 2]);
    let empty: Vec<u32> = Vec::new();
    assert_eq!(truncate_half(empty), Vec::<u32>::new());
}

#[test]
fn pure_sine_peaks_within_one_bin_of_its_frequency() {
    // 1000 samples over one second: sample rate 1000, well above Nyquist for
    // a 100 Hz sine
    let n: usize = 1000;
    let freq = 100.0_f64;
    let g = Generator::Sine(Sine { frequency: Rat::new(100, 1), amplitude: Rat::new(2, 1) });
    let axis = StepRange {
        start: Rat::new(0, 1),
        end: Rat::new(n as i64 - 1, n as i64),
        step: Rat::new(1, n as i64),
    };
    let pts = axis.points().unwrap();
    assert_eq!(pts.len(), n);
    // the external collaborator computes the sine factors
    let sines: Vec<Vec<Rat>> = pts
        .iter()
        .map(|t| vec![rat_approx((2.0 * std::f64::consts::PI * freq * to_f64(t)).sin())])
        .collect();
    let tr = trace(&g, &axis, &sines).unwrap();
    // forward transform (the external primitive), then the verified
    // truncate-without-rotate policy
    let mut buf: Vec<Complex<f64>> =
        tr.iter().map(|r| Complex::new(to_f64(r), 0.0)).collect();
    let mut planner = FftPlanner::new();
    let fft = planner.plan_fft_forward(n);
    fft.process(&mut buf);
    let one_sided = truncate_half(buf);
    assert_eq!(one_sided.len(), n / 2);
    let mags: Vec<f64> = one_sided.iter().map(|c| c.norm()).collect();
    let peak = mags
        .iter()
        .enumerate()
        .max_by(|a, b| a.1.partial_cmp(b.1).unwrap())
        .unwrap()
        .0;
    // the derived frequency axis pairs each bin with its frequency
    let fx = spectrum_axis(&axis, n).unwrap();
    let fx_pts = fx.points().unwrap();
    assert_eq!(fx_pts.len(), n / 2 + 1);
    let peak_freq = to_f64(&fx_pts[peak]);
    let bin_width = to_f64(&fx.step);
    assert!((peak_freq - freq).abs() <= bin_width);
}
