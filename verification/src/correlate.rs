//! Correlation of the telegrams of one recorded vehicle run ("trekkie run")
//! to locations: each telegram is bracketed by its nearest GPS fixes and the
//! transmission position interpolated, yielding rows ready for insertion
//! into a location table.  The run and its owner are identified by plain
//! 128-bit values.

use vstd::prelude::*;

use crate::gps::{
    find_fix_after, find_fix_before, first_fix_after, first_fix_before, lemma_first_fix_after_found,
    lemma_first_fix_before_found, Gps, GpsPoint,
};
use crate::structs::interp_axis;
use crate::types::Telegram;

verus! {

/// An interpolated transmission location, ready to be keyed by region and
/// reporting point.
#[derive(Clone, Copy, Debug, PartialEq, Eq)]
pub struct ApiTransmissionLocation {
    /// Fixed-point latitude.
    pub lat: i64,
    /// Fixed-point longitude.
    pub lon: i64,
}

/// One row of correlated output: an interpolated transmission location
/// together with the run it was generated from and that run's owner.
#[derive(Clone, Copy, Debug, PartialEq, Eq)]
pub struct InsertTransmissionLocationRaw {
    /// Row identifier, assigned by the consumer; never set here.
    pub id: Option<i64>,
    /// Region the telegram was captured in.
    pub region: i64,
    /// Reporting point the location was inferred for.
    pub reporting_point: i32,
    /// Fixed-point latitude.
    pub lat: i64,
    /// Fixed-point longitude.
    pub lon: i64,
    /// Run the row was generated from.
    pub trekkie_run: u128,
    /// Owner of that run.
    pub run_owner: u128,
}

/// Error type for the run correlation.
#[derive(Clone, Copy, Debug, PartialEq, Eq)]
pub enum CorrelateError {
    /// No appropriate input received.
    EmptyInput,
    /// Some of the data is for the inappropriate region.
    RegionMismatch,
}

/// A telegram of a recorded run matched with the GPS fix directly preceding
/// and the fix directly following its interception time.
#[derive(Clone, Copy, Debug, PartialEq, Eq)]
pub struct CorrTelegram {
    /// Transmission position (meldepunkt) of the telegram.
    pub reporting_point: i32,
    /// Unix timestamp of the telegram interception time.
    pub timestamp: i64,
    /// Fix that directly preceded the telegram transmission, within the
    /// correlation window.
    pub location_before: GpsPoint,
    /// Fix that directly followed the telegram transmission, within the
    /// correlation window.
    pub location_after: GpsPoint,
    /// Region identifier.
    pub region: i64,
    /// Run the telegram was recorded in, when known.
    pub trekkie_run: Option<u128>,
    /// Owner of that run, when known.
    pub run_owner: Option<u128>,
}

impl CorrTelegram {
    /// The two fixes are well-formed and bracket the telegram time strictly.
    pub open spec fn wf(self) -> bool {
        &&& self.location_before.wf()
        &&& self.location_after.wf()
        &&& self.location_before.timestamp < self.timestamp < self.location_after.timestamp
    }

    /// Pair a telegram of a recorded run with its two nearest bracketing
    /// fixes.
    pub fn new(tg: Telegram, before: GpsPoint, after: GpsPoint, trekkie_run: u128, run_owner: u128) -> (r:
        CorrTelegram)
        requires
            before.wf(),
            after.wf(),
            before.timestamp < tg.time < after.timestamp,
        ensures
            r == (CorrTelegram {
                reporting_point: tg.reporting_point,
                timestamp: tg.time,
                location_before: before,
                location_after: after,
                region: tg.region,
                trekkie_run: Some(trekkie_run),
                run_owner: Some(run_owner),
            }),
            r.wf(),
    {
        CorrTelegram {
            reporting_point: tg.reporting_point,
            timestamp: tg.time,
            location_before: before,
            location_after: after,
            region: tg.region,
            trekkie_run: Some(trekkie_run),
            run_owner: Some(run_owner),
        }
    }

    /// Linearly interpolate the transmission location between the two
    /// bracketing fixes, handing back region, reporting point and location.
    pub fn interpolate_position(&self) -> (r: (i64, i32, ApiTransmissionLocation))
        requires
            self.wf(),
        ensures
            r.0 == self.region,
            r.1 == self.reporting_point,
            r.2 == (ApiTransmissionLocation {
                lat: self.spec_interpolated_lat() as i64,
                lon: self.spec_interpolated_lon() as i64,
            }),
    {
        (self.region, self.reporting_point, self.interpolate_location())
    }

    /// The interpolated latitude.
    pub open spec fn spec_interpolated_lat(self) -> int {
        interp_axis(
            self.timestamp as int,
            self.location_before.timestamp as int,
            self.location_after.timestamp as int,
            self.location_before.lat as int,
            self.location_after.lat as int,
        )
    }

    /// The interpolated longitude.
    pub open spec fn spec_interpolated_lon(self) -> int {
        interp_axis(
            self.timestamp as int,
            self.location_before.timestamp as int,
            self.location_after.timestamp as int,
            self.location_before.lon as int,
            self.location_after.lon as int,
        )
    }

    /// Interpolate both axes.
    fn interpolate_location(&self) -> (r: ApiTransmissionLocation)
        requires
            self.wf(),
        ensures
            r == (ApiTransmissionLocation {
                lat: self.spec_interpolated_lat() as i64,
                lon: self.spec_interpolated_lon() as i64,
            }),
    {
        ApiTransmissionLocation {
            lat: crate::structs::interp_axis_exec(
                self.timestamp,
                self.location_before.timestamp,
                self.location_after.timestamp,
                self.location_before.lat,
                self.location_after.lat,
            ),
            lon: crate::structs::interp_axis_exec(
                self.timestamp,
                self.location_before.timestamp,
                self.location_after.timestamp,
                self.location_before.lon,
                self.location_after.lon,
            ),
        }
    }

    /// Convert into a row ready for insertion.  Fails exactly when the run
    /// or its owner is not set.
    pub fn to_insert(&self) -> (r: Result<InsertTransmissionLocationRaw, &'static str>)
        requires
            self.wf(),
        ensures
            r is Ok <==> (self.trekkie_run is Some && self.run_owner is Some),
            r is Ok ==> r.unwrap() == (InsertTransmissionLocationRaw {
                id: None,
                region: self.region,
                reporting_point: self.reporting_point,
                lat: self.spec_interpolated_lat() as i64,
                lon: self.spec_interpolated_lon() as i64,
                trekkie_run: self.trekkie_run.unwrap(),
                run_owner: self.run_owner.unwrap(),
            }),
    {
        let trekkie_run = match self.trekkie_run {
            Some(r) => r,
            None => {
                return Err("trekkie run is not set!");
            },
        };
        let run_owner = match self.run_owner {
            Some(r) => r,
            None => {
                return Err("trekkie run is not set!");
            },
        };
        let loc = self.interpolate_location();
        Ok(
            InsertTransmissionLocationRaw {
                id: None,
                region: self.region,
                reporting_point: self.reporting_point,
                lat: loc.lat,
                lon: loc.lon,
                trekkie_run,
                run_owner,
            },
        )
    }
}

/// Match one telegram of a recorded run against the index: the nearest fix
/// strictly before and the nearest fix strictly after the telegram time,
/// each within `corr_window` seconds.  Yields nothing unless both sides
/// produce a fix.
pub fn correlate_trekkie_run_telegram(
    telegram: &Telegram,
    gps: &Gps,
    corr_window: i64,
    trekkie_run: u128,
    run_owner: u128,
) -> (r: Option<CorrTelegram>)
    requires
        gps.wf(),
        corr_window < i64::MAX,
        telegram.time + corr_window <= i64::MAX,
        i64::MIN + corr_window <= telegram.time,
    ensures
        r is Some <==> (first_fix_before(gps@, telegram.time as int, 1, corr_window as int) is Some
            && first_fix_after(gps@, telegram.time as int, 1, corr_window as int) is Some),
        r is Some ==> r.unwrap() == (CorrTelegram {
            reporting_point: telegram.reporting_point,
            timestamp: telegram.time,
            location_before: first_fix_before(
                gps@,
                telegram.time as int,
                1,
                corr_window as int,
            ).unwrap(),
            location_after: first_fix_after(
                gps@,
                telegram.time as int,
                1,
                corr_window as int,
            ).unwrap(),
            region: telegram.region,
            trekkie_run: Some(trekkie_run),
            run_owner: Some(run_owner),
        }),
        r is Some ==> r.unwrap().wf(),
{
    let before = find_fix_before(gps, telegram.time, corr_window);
    let after = find_fix_after(gps, telegram.time, corr_window);
    match (before, after) {
        (Some(b), Some(a)) => {
            proof {
                lemma_first_fix_before_found(gps@, telegram.time as int, 1, corr_window as int);
                lemma_first_fix_after_found(gps@, telegram.time as int, 1, corr_window as int);
            }
            Some(CorrTelegram::new(*telegram, b, a, trekkie_run, run_owner))
        },
        _ => None,
    }
}

/// The row one telegram contributes: present exactly when both bracketing
/// fixes exist within the window.
pub open spec fn spec_trekkie_row(
    tg: Telegram,
    gps: Seq<GpsPoint>,
    w: int,
    trekkie_run: u128,
    run_owner: u128,
) -> Option<InsertTransmissionLocationRaw> {
    match first_fix_before(gps, tg.time as int, 1, w) {
        Some(b) => match first_fix_after(gps, tg.time as int, 1, w) {
            Some(a) => Some(
                InsertTransmissionLocationRaw {
                    id: None,
                    region: tg.region,
                    reporting_point: tg.reporting_point,
                    lat: interp_axis(
                        tg.time as int,
                        b.timestamp as int,
                        a.timestamp as int,
                        b.lat as int,
                        a.lat as int,
                    ) as i64,
                    lon: interp_axis(
                        tg.time as int,
                        b.timestamp as int,
                        a.timestamp as int,
                        b.lon as int,
                        a.lon as int,
                    ) as i64,
                    trekkie_run,
                    run_owner,
                },
            ),
            None => None,
        },
        None => None,
    }
}

/// All rows of a run, in telegram order: one per telegram with both
/// bracketing fixes, the rest dropped.
pub open spec fn spec_correlate_trekkie_run(
    ts: Seq<Telegram>,
    gps: Seq<GpsPoint>,
    w: int,
    trekkie_run: u128,
    run_owner: u128,
) -> Seq<InsertTransmissionLocationRaw>
    decreases ts.len(),
{
    if ts.len() == 0 {
        Seq::empty()
    } else {
        let prev = spec_correlate_trekkie_run(ts.drop_last(), gps, w, trekkie_run, run_owner);
        match spec_trekkie_row(ts.last(), gps, w, trekkie_run, run_owner) {
            Some(row) => prev.push(row),
            None => prev,
        }
    }
}

/// Correlate the telegrams of one recorded run to locations.  An empty
/// telegram input is the one error; otherwise every telegram bracketed by
/// fixes within the window yields one row, in telegram order.
pub fn correlate_trekkie_run(
    telegrams: &Vec<Telegram>,
    gps: Vec<GpsPoint>,
    corr_window: i64,
    trekkie_run: u128,
    run_owner: u128,
) -> (r: Result<Vec<InsertTransmissionLocationRaw>, CorrelateError>)
    requires
        forall|i: int| 0 <= i < gps@.len() ==> (#[trigger] gps@[i]).wf(),
        corr_window < i64::MAX,
        crate::stops::times_admit_window(telegrams@, corr_window as int),
    ensures
        r is Err <==> telegrams@.len() == 0,
        r is Err ==> r == Err::<Vec<InsertTransmissionLocationRaw>, CorrelateError>(
            CorrelateError::EmptyInput,
        ),
        r is Ok ==> r.unwrap()@ == spec_correlate_trekkie_run(
            telegrams@,
            gps@,
            corr_window as int,
            trekkie_run,
            run_owner,
        ),
{
    if telegrams.len() == 0 {
        return Err(CorrelateError::EmptyInput);
    }

    let mut index = Gps::empty();
    let mut g: usize = 0;
    while g < gps.len()
        invariant
            g <= gps@.len(),
            forall|i: int| 0 <= i < gps@.len() ==> (#[trigger] gps@[i]).wf(),
            index.wf(),
            index@ == gps@.take(g as int),
        decreases gps@.len() - g,
    {
        index.insert(gps[g]);
        proof {
            assert(gps@.take(g + 1).drop_last() =~= gps@.take(g as int));
            assert(gps@.take(g as int + 1) =~= gps@.take(g as int).push(gps@[g as int]));
        }
        g = g + 1;
    }
    assert(gps@.take(gps@.len() as int) =~= gps@);

    let mut out: Vec<InsertTransmissionLocationRaw> = Vec::new();
    let mut i: usize = 0;
    assert(telegrams@.take(0) =~= Seq::<Telegram>::empty());
    while i < telegrams.len()
        invariant
            i <= telegrams@.len(),
            index.wf(),
            index@ == gps@,
            corr_window < i64::MAX,
            crate::stops::times_admit_window(telegrams@, corr_window as int),
            out@ == spec_correlate_trekkie_run(
                telegrams@.take(i as int),
                gps@,
                corr_window as int,
                trekkie_run,
                run_owner,
            ),
        decreases telegrams@.len() - i,
    {
        let tg = &telegrams[i];
        match correlate_trekkie_run_telegram(tg, &index, corr_window, trekkie_run, run_owner) {
            Some(ct) => {
                match ct.to_insert() {
                    Ok(row) => {
                        out.push(row);
                    },
                    Err(_) => {},
                }
            },
            None => {},
        }
        proof {
            assert(telegrams@.take(i + 1).drop_last() =~= telegrams@.take(i as int));
            assert(telegrams@.take(i + 1).last() == telegrams@[i as int]);
        }
        i = i + 1;
    }
    assert(telegrams@.take(telegrams@.len() as int) =~= telegrams@);
    Ok(out)
}

} // verus!
