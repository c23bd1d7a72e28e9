//! The correlated telegram of the stop-finding flow, its position
//! interpolation, and the plain configuration records of the command-line
//! tool built around the engine.

use vstd::prelude::*;

use crate::gps::GpsPoint;
use crate::types::{coord_in_range, ReportLocation, Telegram, COORD_LIMIT};

verus! {

/// Denominator of the interpolation fraction.
///
/// The fraction divides the time elapsed since the "before" fix by the SUM
/// of the two bracketing fix timestamps, not by their difference.  Existing
/// datasets were produced with this denominator, so it is kept for
/// compatibility and isolated in this single function, so that a corrected
/// variant (`after_t - before_t`) can be substituted in one place.
pub open spec fn interpolation_denominator(before_t: int, after_t: int) -> int {
    after_t + before_t
}

/// `(num * delta) / den`, with the quotient truncated toward zero, for
/// `num >= 0` and `den > 0` and `delta` of either sign.
pub open spec fn scaled_delta(num: int, delta: int, den: int) -> int {
    if delta >= 0 {
        (num * delta) / den
    } else {
        -((num * (-delta)) / den)
    }
}

/// Linear interpolation of one coordinate axis for a telegram at time `t`
/// bracketed by fixes at `before_t < t < after_t` carrying axis values
/// `before_c` and `after_c`:
/// `before_c + (t - before_t) / (after_t + before_t) * (after_c - before_c)`,
/// evaluated in fixed-point arithmetic with the quotient truncated toward
/// zero.
pub open spec fn interp_axis(t: int, before_t: int, after_t: int, before_c: int, after_c: int) -> int {
    before_c + scaled_delta(t - before_t, after_c - before_c, interpolation_denominator(before_t, after_t))
}

/// The interpolated axis value lies between the two bracketing axis values.
pub proof fn lemma_interp_axis_between(t: int, before_t: int, after_t: int, before_c: int, after_c: int)
    requires
        0 < before_t < t < after_t,
    ensures
        before_c <= after_c ==> before_c <= interp_axis(t, before_t, after_t, before_c, after_c)
            <= after_c,
        after_c <= before_c ==> after_c <= interp_axis(t, before_t, after_t, before_c, after_c)
            <= before_c,
{
    let num = t - before_t;
    let den = interpolation_denominator(before_t, after_t);
    assert(0 < num < den);
    let delta = if after_c >= before_c {
        after_c - before_c
    } else {
        before_c - after_c
    };
    let q = (num * delta) / den;
    assert(q >= 0) by {
        vstd::arithmetic::mul::lemma_mul_nonnegative(num, delta);
        vstd::arithmetic::div_mod::lemma_div_pos_is_pos(num * delta, den);
    }
    assert(q <= delta) by {
        vstd::arithmetic::mul::lemma_mul_inequality(num, den, delta);
        assert(num * delta <= den * delta);
        vstd::arithmetic::div_mod::lemma_div_is_ordered(num * delta, den * delta, den);
        vstd::arithmetic::div_mod::lemma_div_by_multiple(delta, den);
        assert((den * delta) / den == delta);
    }
}

/// Compute `interp_axis` in executable fixed-point arithmetic.
pub(crate) fn interp_axis_exec(t: i64, before_t: i64, after_t: i64, before_c: i64, after_c: i64) -> (r: i64)
    requires
        0 < before_t < t < after_t,
        coord_in_range(before_c as int),
        coord_in_range(after_c as int),
    ensures
        r == interp_axis(t as int, before_t as int, after_t as int, before_c as int, after_c as int),
        coord_in_range(r as int),
{
    proof {
        lemma_interp_axis_between(t as int, before_t as int, after_t as int, before_c as int, after_c as int);
    }
    let num: u128 = (t - before_t) as u128;
    let den: u128 = (after_t as i128 + before_t as i128) as u128;
    if after_c >= before_c {
        let delta: u128 = (after_c - before_c) as u128;
        proof {
            vstd::arithmetic::mul::lemma_mul_upper_bound(
                num as int,
                i64::MAX as int,
                delta as int,
                2 * COORD_LIMIT as int,
            );
        }
        let q: u128 = (num * delta) / den;
        proof {
            lemma_scaled_delta_nonneg((t - before_t) as int, (after_c - before_c) as int, den as int);
        }
        before_c + (q as i64)
    } else {
        let delta: u128 = (before_c - after_c) as u128;
        proof {
            vstd::arithmetic::mul::lemma_mul_upper_bound(
                num as int,
                i64::MAX as int,
                delta as int,
                2 * COORD_LIMIT as int,
            );
        }
        let q: u128 = (num * delta) / den;
        proof {
            lemma_scaled_delta_nonneg((t - before_t) as int, (before_c - after_c) as int, den as int);
        }
        before_c - (q as i64)
    }
}

/// Bounds of the nonnegative-delta quotient, shared by both branches of the
/// executable interpolation.
proof fn lemma_scaled_delta_nonneg(num: int, delta: int, den: int)
    requires
        0 <= num < den,
        0 <= delta,
    ensures
        0 <= (num * delta) / den <= delta,
{
    vstd::arithmetic::mul::lemma_mul_nonnegative(num, delta);
    vstd::arithmetic::div_mod::lemma_div_pos_is_pos(num * delta, den);
    vstd::arithmetic::mul::lemma_mul_inequality(num, den, delta);
    vstd::arithmetic::div_mod::lemma_div_is_ordered(num * delta, den * delta, den);
    vstd::arithmetic::div_mod::lemma_div_by_multiple(delta, den);
}

/// A telegram matched with the GPS fix directly preceding and the fix
/// directly following its interception time, ready for position
/// interpolation.
#[derive(Clone, Copy, Debug, PartialEq, Eq)]
pub struct CorrTelegram {
    /// Transmission position (meldepunkt) of the telegram.
    pub transmission_position: i32,
    /// Unix timestamp of the telegram interception time.
    pub timestamp: i64,
    /// Fix that directly preceded the telegram transmission, within the
    /// correlation window.
    pub location_before: GpsPoint,
    /// Fix that directly followed the telegram transmission, within the
    /// correlation window.
    pub location_after: GpsPoint,
}

impl CorrTelegram {
    /// The two fixes are well-formed and bracket the telegram time strictly.
    pub open spec fn wf(self) -> bool {
        &&& self.location_before.wf()
        &&& self.location_after.wf()
        &&& self.location_before.timestamp < self.timestamp < self.location_after.timestamp
    }

    /// Pair a telegram with its two nearest bracketing fixes.
    pub fn new(tg: Telegram, before: GpsPoint, after: GpsPoint) -> (r: CorrTelegram)
        requires
            before.wf(),
            after.wf(),
            before.timestamp < tg.time < after.timestamp,
        ensures
            r == (CorrTelegram {
                transmission_position: tg.reporting_point,
                timestamp: tg.time,
                location_before: before,
                location_after: after,
            }),
            r.wf(),
    {
        CorrTelegram {
            transmission_position: tg.reporting_point,
            timestamp: tg.time,
            location_before: before,
            location_after: after,
        }
    }

    /// Linearly interpolate the telegram's transmission location between its
    /// two bracketing fixes, per axis, and hand it back keyed by the
    /// transmission position.
    pub fn interpolate_position(&self) -> (r: (i32, ReportLocation))
        requires
            self.wf(),
        ensures
            r.0 == self.transmission_position,
            r.1.lat == interp_axis(
                self.timestamp as int,
                self.location_before.timestamp as int,
                self.location_after.timestamp as int,
                self.location_before.lat as int,
                self.location_after.lat as int,
            ),
            r.1.lon == interp_axis(
                self.timestamp as int,
                self.location_before.timestamp as int,
                self.location_after.timestamp as int,
                self.location_before.lon as int,
                self.location_after.lon as int,
            ),
            r.1.wf(),
    {
        (
            self.transmission_position,
            ReportLocation {
                lat: interp_axis_exec(
                    self.timestamp,
                    self.location_before.timestamp,
                    self.location_after.timestamp,
                    self.location_before.lat,
                    self.location_after.lat,
                ),
                lon: interp_axis_exec(
                    self.timestamp,
                    self.location_before.timestamp,
                    self.location_after.timestamp,
                    self.location_before.lon,
                    self.location_after.lon,
                ),
            },
        )
    }
}

/// Parsed command line of the tool: a subcommand and a verbosity level.
#[derive(Clone, Debug)]
pub struct Cli {
    /// Selected subcommand.
    pub command: Command,
    /// Verbose output, counted once per occurrence of the flag.
    pub verbose: u8,
}

/// The subcommands the tool offers.
#[derive(Clone, Debug)]
pub enum Command {
    /// Correlate telegrams to the GPS data.
    Correlate(CorrelateArgs),
    /// Correlate to every edge of the graph a list of positions and a
    /// historical transit time.
    Crayon(CrayonArgs),
    /// Merge several stop files into one output.
    Merge(MergeArgs),
    /// Convert stop files to a geometry-exchange file for visualisation.
    StopsToGeo(StopsToGeoArgs),
    /// Filter the telegrams using measurement intervals.
    Filter(FilterArgs),
}

/// Arguments of the topology-inference subcommand.
#[derive(Clone, Debug)]
pub struct CrayonArgs {
    /// Telegram input files.
    pub telegrams: Vec<String>,
    /// Region number to analyse.
    pub region: i64,
    /// Stop coordinate file produced by an earlier correlation run.
    pub stops_json: String,
    /// Line geometry export to snap edges onto.
    pub overpass_turbo: String,
    /// File the resulting graph is written to.
    pub export: String,
    /// Optional diagnostic geometry output of the graph.
    pub geojson_graph: Option<String>,
    /// Optional diagnostic geometry output of the snapped points.
    pub geojson_points: Option<String>,
}

/// Arguments of the stop-correlation subcommand.
#[derive(Clone, Debug)]
pub struct CorrelateArgs {
    /// Telegram input files.
    pub telegrams: Vec<String>,
    /// GPS track input files.
    pub gps: Vec<String>,
    /// Legacy-format GPS track input files.
    pub gps_legacy: Vec<String>,
    /// Regions to process.
    pub region: Vec<i64>,
    /// Optional measured-run interval files used to pre-filter telegrams.
    pub wartrammer: Option<Vec<String>>,
    /// Output file for the inferred stop locations.
    pub stops_json: String,
    /// Optional diagnostic geometry output.
    pub geojson: Option<String>,
    /// Maximum time difference in seconds between a fix and a telegram.
    pub corr_window: i64,
    /// Optional telegram frequency recorded in the region metadata.
    pub meta_frequency: Option<u64>,
    /// Optional region name recorded in the region metadata.
    pub meta_city: Option<String>,
}

/// Arguments of the merge subcommand.
#[derive(Clone, Debug)]
pub struct MergeArgs {
    /// Directory the merged files are written into.
    pub out_dir: String,
    /// Stop files to merge.
    pub stops: Vec<String>,
}

/// Arguments of the geometry-conversion subcommand.
#[derive(Clone, Debug)]
pub struct StopsToGeoArgs {
    /// Stop files to convert.
    pub stops: Vec<String>,
    /// Geometry file to write; absent means standard output.
    pub geojson: Option<String>,
}

/// Arguments of the telegram-filter subcommand.
#[derive(Clone, Debug)]
pub struct FilterArgs {
    /// Telegram input files.
    pub telegrams: Vec<String>,
    /// Measured-run interval files.
    pub wartrammer: Vec<String>,
    /// Output file for the filtered telegrams.
    pub outfile: String,
}

} // verus!
