//! Spectral post-processing: the one-sided layout of a forward transform.
//!
//! The numerical transform itself is an external collaborator: the caller
//! runs it on the full trace buffer (length `N`) and gets `N` complex bins
//! in natural order — bin 0 is DC, bins ascend to Nyquist, then mirror into
//! negative frequencies.  This module carries the verified policy around it:
//! the retained one-sided half is the first `N/2` bins, truncated without
//! any rotation, and the matching frequency axis spans `[0, sample_rate/2]`
//! re-stepped to `N/2` points.

use crate::error::SignalError;
use crate::rat::{q, q_div, q_fits, q_int, q_lt, q_sub, Rat};
use crate::step_range::StepRange;
use vstd::prelude::*;

verus! {

/// Keeps the first `len/2` bins in their natural order: bin 0 stays DC and
/// bins ascend toward Nyquist.  The mirrored negative-frequency half is
/// dropped; nothing is rotated into a zero-centred layout.
pub fn truncate_half<T>(bins: Vec<T>) -> (r: Vec<T>)
    ensures
        r@ == bins@.subrange(0, bins@.len() as int / 2),
{
    let mut bins = bins;
    let half = bins.len() / 2;
    bins.truncate(half);
    bins
}

/// The frequency axis paired with the one-sided spectrum of a trace of
/// length `n` sampled on `time_axis`: a stepped range over
/// `[0, sample_rate / 2]` re-stepped to `n / 2` points.  An empty trace is
/// a domain error, detected before the transform would run; so are a zero
/// time step (no sample rate) and a trace so short that no bin remains.
pub fn spectrum_axis(time_axis: &StepRange, n: usize) -> (r: Result<StepRange, SignalError>)
    requires
        time_axis.wf(),
    ensures
        n == 0 <==> r == Err::<StepRange, SignalError>(SignalError::EmptyTrace),
        n >= 1 && time_axis.step.num == 0 <==> r == Err::<StepRange, SignalError>(
            SignalError::InvalidStep,
        ),
        n == 1 && time_axis.step.num != 0 <==> r == Err::<StepRange, SignalError>(
            SignalError::ZeroPoints,
        ),
        r matches Ok(ax) ==> {
            &&& ax.wf()
            &&& q(ax.start) == q_int(0)
            &&& q(ax.end) == q_div(q_div(q_int(1), q(time_axis.step)), q_int(2))
            &&& q(ax.step) == q_div(q_sub(q(ax.end), q_int(0)), q_int((n / 2) as int))
        },
        n >= 2 && time_axis.step.num != 0 ==> {
            let hs = q_div(q_div(q_int(1), q(time_axis.step)), q_int(2));
            &&& (r is Ok <==> q_fits(hs) && q_fits(q_sub(hs, q_int(0))) && (n / 2) as int
                <= i64::MAX as int && q_fits(q_div(q_sub(hs, q_int(0)), q_int((n / 2) as int))))
            &&& (r is Err ==> r == Err::<StepRange, SignalError>(SignalError::OutOfRange))
        },
{
    if n == 0 {
        return Err(SignalError::EmptyTrace);
    }
    let sr = match time_axis.sample_rate() {
        Ok(v) => v,
        Err(e) => { return Err(e) },
    };
    if n == 1 {
        return Err(SignalError::ZeroPoints);
    }
    let half_sr = match sr.checked_div(Rat::from_int(2)) {
        Some(v) => v,
        None => { return Err(SignalError::OutOfRange) },
    };
    let base = StepRange { start: Rat::zero(), end: half_sr, step: Rat::from_int(1) };
    match base.with_num_points(n / 2) {
        Ok(ax) => Ok(ax),
        Err(e) => Err(e),
    }
}

/// Chained through the spectral stage, re-stepping to `n / 2` points gives
/// an axis that yields exactly `n / 2 + 1` values: the inclusive upper
/// bound adds the Nyquist end itself to the `n / 2` steps.  Pairing the
/// axis with the `n / 2` retained bins therefore keeps the first `n / 2`
/// axis values.
pub proof fn lemma_spectrum_axis_count(time_axis: StepRange, ax: StepRange, n: int)
    requires
        time_axis.wf(),
        ax.wf(),
        time_axis.step.num >= 1,
        n >= 2,
        q(ax.start) == q_int(0),
        q(ax.end) == q_div(q_div(q_int(1), q(time_axis.step)), q_int(2)),
        q(ax.step) == q_div(q_sub(q(ax.end), q(ax.start)), q_int(n / 2)),
    ensures
        ax.count() == n / 2 + 1,
{
    let p0 = time_axis.step.num as int;
    let p1 = time_axis.step.den as int;
    assert(q(ax.end) == ((1 * p1) * 1, (1 * p0) * 2));
    assert(q_lt(q(ax.start), q(ax.end))) by (nonlinear_arith)
        requires
            q(ax.start) == q_int(0),
            q(ax.end) == ((1 * p1) * 1, (1 * p0) * 2),
            p0 >= 1,
            p1 >= 1,
    ;
    ax.lemma_with_num_points_count(ax, n / 2);
}

} // verus!
