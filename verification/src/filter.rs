//! Pre-filtering of telegrams by measured-run intervals: only telegrams
//! captured during a recorded measurement of a known line and run are kept.

use vstd::prelude::*;

use crate::types::Telegram;

verus! {

/// One finished measurement: a line and run ridden between two timestamps.
#[derive(Clone, Copy, Debug, PartialEq, Eq)]
pub struct MeasurementInterval {
    /// Unix second the measurement started.
    pub start: i64,
    /// Unix second the measurement stopped.
    pub stop: i64,
    /// Line ridden during the measurement.
    pub line: i32,
    /// Run ridden during the measurement.
    pub run: i32,
}

/// A telegram fits an interval when it was captured inside the measured
/// time span and names the measured line and run.
pub open spec fn spec_fits(iv: MeasurementInterval, tg: Telegram) -> bool {
    &&& iv.start <= tg.time <= iv.stop
    &&& tg.line == Some(iv.line)
    &&& tg.run_number == Some(iv.run)
}

/// Executable interval membership test.
pub fn fits(iv: &MeasurementInterval, tg: &Telegram) -> (r: bool)
    ensures
        r == spec_fits(*iv, *tg),
{
    let line_ok = match tg.line {
        Some(l) => l == iv.line,
        None => false,
    };
    let run_ok = match tg.run_number {
        Some(n) => n == iv.run,
        None => false,
    };
    iv.start <= tg.time && tg.time <= iv.stop && line_ok && run_ok
}

/// A telegram fits some interval of the collection.
pub open spec fn spec_any_fits(ivs: Seq<MeasurementInterval>, tg: Telegram) -> bool {
    exists|i: int| 0 <= i < ivs.len() && spec_fits(ivs[i], tg)
}

/// The telegrams that fit some interval, in input order.
pub open spec fn spec_filter_telegrams(ts: Seq<Telegram>, ivs: Seq<MeasurementInterval>) -> Seq<
    Telegram,
>
    decreases ts.len(),
{
    if ts.len() == 0 {
        Seq::empty()
    } else {
        let prev = spec_filter_telegrams(ts.drop_last(), ivs);
        if spec_any_fits(ivs, ts.last()) {
            prev.push(ts.last())
        } else {
            prev
        }
    }
}

/// Keep exactly the telegrams matching some supplied measurement interval,
/// in input order.
pub fn filter(unfiltered: &Vec<Telegram>, wt: &Vec<MeasurementInterval>) -> (r: Vec<Telegram>)
    ensures
        r@ == spec_filter_telegrams(unfiltered@, wt@),
{
    let mut out: Vec<Telegram> = Vec::new();
    let mut i: usize = 0;
    assert(unfiltered@.take(0) =~= Seq::<Telegram>::empty());
    while i < unfiltered.len()
        invariant
            i <= unfiltered@.len(),
            out@ == spec_filter_telegrams(unfiltered@.take(i as int), wt@),
        decreases unfiltered@.len() - i,
    {
        let tg = &unfiltered[i];
        let mut matched = false;
        let mut j: usize = 0;
        while j < wt.len()
            invariant
                j <= wt@.len(),
                tg == unfiltered@[i as int],
                matched == exists|k: int| 0 <= k < j && spec_fits(wt@[k], *tg),
            decreases wt@.len() - j,
        {
            if fits(&wt[j], tg) {
                matched = true;
            }
            j = j + 1;
        }
        if matched {
            out.push(*tg);
        }
        proof {
            assert(unfiltered@.take(i + 1).drop_last() =~= unfiltered@.take(i as int));
            assert(unfiltered@.take(i + 1).last() == unfiltered@[i as int]);
        }
        i = i + 1;
    }
    assert(unfiltered@.take(unfiltered@.len() as int) =~= unfiltered@);
    out
}

} // verus!
