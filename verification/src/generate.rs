//! Trace production: pointwise evaluation of a generator over a time axis.

use crate::error::SignalError;
use crate::rat::{q, Rat};
use crate::signals::{rats_wf, smap, Generator};
use crate::step_range::StepRange;
use vstd::prelude::*;

verus! {

/// Every per-instant sine table is made of well-formed rationals.
pub open spec fn tables_wf(s: Seq<Vec<Rat>>) -> bool {
    forall|k: int| 0 <= k < s.len() ==> rats_wf((#[trigger] s[k])@)
}

/// Every per-instant sine table has exactly one entry per sine leaf.
pub open spec fn tables_aligned(s: Seq<Vec<Rat>>, gen: Generator, n: int) -> bool {
    s.len() == n && forall|k: int| 0 <= k < n ==> (#[trigger] s[k])@.len() == gen.sine_count()
}

/// Every evaluation along the axis stays representable.
pub open spec fn trace_fits(gen: Generator, axis: StepRange, s: Seq<Vec<Rat>>) -> bool {
    forall|k: int|
        0 <= k < axis.yield_count() ==> gen.eval_fits_at(
            axis.sample(k),
            smap((#[trigger] s[k])@),
            0,
        )
}

/// Produces the trace of `gen` over `axis`: the ordered, finite sequence of
/// the samples `gen` takes at each instant the axis yields, index-aligned
/// with the axis.  `sines` holds one sine table per instant (one entry per
/// sine leaf, see [`Generator::output`]).  Domain errors — a bad period, an
/// axis that cannot be materialised, a misaligned sine table — are detected
/// before any sample is produced, in that order.
#[verifier::loop_isolation(false)]
pub fn trace(gen: &Generator, axis: &StepRange, sines: &Vec<Vec<Rat>>) -> (r: Result<
    Vec<Rat>,
    SignalError,
>)
    requires
        gen.wf(),
        axis.wf(),
        tables_wf(sines@),
    ensures
        !gen.periods_pos() <==> r == Err::<Vec<Rat>, SignalError>(SignalError::InvalidPeriod),
        gen.periods_pos() && !axis.yields() ==> r == Err::<Vec<Rat>, SignalError>(
            axis.yield_err(),
        ),
        gen.periods_pos() && axis.yields() && !tables_aligned(sines@, *gen, axis.yield_count())
            ==> r == Err::<Vec<Rat>, SignalError>(SignalError::SineCountMismatch),
        gen.periods_pos() && axis.yields() && tables_aligned(sines@, *gen, axis.yield_count())
            ==> {
            &&& r is Ok <==> trace_fits(*gen, *axis, sines@)
            &&& (r matches Ok(tr) ==> tr@.len() == axis.yield_count() && forall|k: int|
                0 <= k < tr@.len() ==> (#[trigger] tr@[k]).wf() && q(tr@[k]) == gen.eval_at(
                    axis.sample(k),
                    smap(sines@[k]@),
                    0,
                ))
            &&& (r is Err ==> r == Err::<Vec<Rat>, SignalError>(SignalError::OutOfRange))
        },
{
    if !gen.periods_ok() {
        return Err(SignalError::InvalidPeriod);
    }
    let pts = match axis.points() {
        Ok(v) => v,
        Err(e) => { return Err(e) },
    };
    if sines.len() != pts.len() {
        return Err(SignalError::SineCountMismatch);
    }
    let mut k: usize = 0;
    while k < pts.len()
        invariant
            k <= pts.len(),
            forall|j: int| 0 <= j < k ==> (#[trigger] sines@[j])@.len() == gen.sine_count(),
        decreases pts.len() - k,
    {
        let table = &sines[k];
        let (ok, pos) = gen.sines_check(table.len(), 0);
        proof {
            gen.lemma_sines_ok_iff(table@.len() as int, 0);
        }
        if !ok || pos != table.len() {
            return Err(SignalError::SineCountMismatch);
        }
        k = k + 1;
    }
    let mut out: Vec<Rat> = Vec::new();
    let mut k: usize = 0;
    while k < pts.len()
        invariant
            k <= pts.len(),
            out@.len() == k,
            forall|j: int|
                0 <= j < k ==> (#[trigger] out@[j]).wf() && q(out@[j]) == gen.eval_at(
                    axis.sample(j),
                    smap(sines@[j]@),
                    0,
                ),
            forall|j: int|
                0 <= j < k ==> gen.eval_fits_at(axis.sample(j), smap((#[trigger] sines@[j])@), 0),
        decreases pts.len() - k,
    {
        let t = pts[k];
        match gen.output(t, &sines[k]) {
            Ok(v) => {
                out.push(v);
            },
            Err(e) => {
                return Err(e);
            },
        }
        k = k + 1;
    }
    Ok(out)
}

} // verus!
