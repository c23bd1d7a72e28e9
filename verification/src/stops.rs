//! Stop finding: correlate telegrams against a GPS track index, interpolate
//! a location estimate per telegram, deduplicate repeated estimates by
//! pairwise averaging, and group the resulting table by region with its
//! metadata.

use vstd::prelude::*;

use crate::gps::{
    find_fix_after, find_fix_before, first_fix_after, first_fix_before, lemma_first_fix_after_found,
    lemma_first_fix_before_found, Gps, GpsPoint,
};
use crate::structs::{interp_axis, CorrTelegram};
use crate::types::{
    coord_in_range, lemma_seq_find_idx, seq_find_idx, seq_has_key, ReportLocation, Telegram,
    COORD_LIMIT,
};

verus! {

/// Match one telegram against the index: the nearest fix strictly before and
/// the nearest fix strictly after the telegram time, each within
/// `corr_window` seconds.  Yields nothing (the telegram is dropped) unless
/// both sides produce a fix.
pub fn correlate_telegram(telegram: &Telegram, gps: &Gps, corr_window: i64) -> (r: Option<
    CorrTelegram,
>)
    requires
        gps.wf(),
        corr_window < i64::MAX,
        telegram.time + corr_window <= i64::MAX,
        i64::MIN + corr_window <= telegram.time,
    ensures
        r is Some <==> (first_fix_before(gps@, telegram.time as int, 1, corr_window as int) is Some
            && first_fix_after(gps@, telegram.time as int, 1, corr_window as int) is Some),
        r is Some ==> r.unwrap() == (CorrTelegram {
            transmission_position: telegram.reporting_point,
            timestamp: telegram.time,
            location_before: first_fix_before(
                gps@,
                telegram.time as int,
                1,
                corr_window as int,
            ).unwrap(),
            location_after: first_fix_after(
                gps@,
                telegram.time as int,
                1,
                corr_window as int,
            ).unwrap(),
        }),
        r is Some ==> r.unwrap().wf(),
{
    let before = find_fix_before(gps, telegram.time, corr_window);
    let after = find_fix_after(gps, telegram.time, corr_window);
    match (before, after) {
        (Some(b), Some(a)) => {
            proof {
                lemma_first_fix_before_found(gps@, telegram.time as int, 1, corr_window as int);
                lemma_first_fix_after_found(gps@, telegram.time as int, 1, corr_window as int);
            }
            Some(CorrTelegram::new(*telegram, b, a))
        },
        _ => None,
    }
}

/// Pairwise average of two fixed-point axis values, truncated toward zero:
/// `(a + b) / 2`.
pub open spec fn pairwise_avg(a: int, b: int) -> int {
    if a + b >= 0 {
        (a + b) / 2
    } else {
        -((-(a + b)) / 2)
    }
}

/// Pairwise average of a new and a stored location estimate, per axis.  This
/// is the deduplication step: a running pairwise average favouring recent
/// samples, not a true arithmetic mean.
pub open spec fn avg_location(new: ReportLocation, old: ReportLocation) -> ReportLocation {
    ReportLocation {
        lat: pairwise_avg(new.lat as int, old.lat as int) as i64,
        lon: pairwise_avg(new.lon as int, old.lon as int) as i64,
    }
}

/// Average one axis in executable arithmetic.
fn avg_axis(a: i64, b: i64) -> (r: i64)
    requires
        coord_in_range(a as int),
        coord_in_range(b as int),
    ensures
        r == pairwise_avg(a as int, b as int),
        coord_in_range(r as int),
{
    let sum: i64 = a + b;
    if sum >= 0 {
        let q: u64 = (sum as u64) / 2;
        proof {
            vstd::arithmetic::div_mod::lemma_div_is_ordered(sum as int, 2 * COORD_LIMIT, 2);
            vstd::arithmetic::div_mod::lemma_div_pos_is_pos(sum as int, 2);
        }
        q as i64
    } else {
        let q: u64 = ((-sum) as u64) / 2;
        proof {
            vstd::arithmetic::div_mod::lemma_div_is_ordered(-sum as int, 2 * COORD_LIMIT, 2);
            vstd::arithmetic::div_mod::lemma_div_pos_is_pos(-sum as int, 2);
        }
        -(q as i64)
    }
}

/// One entry of the location estimate table: a (region, reporting point) key
/// and its current coordinate estimate.
pub type LocationEntry = ((i64, i32), ReportLocation);

/// Deduplicating table of location estimates, at most one entry per
/// (region, reporting point) key, in first-appearance order.
#[derive(Clone, Debug, PartialEq, Eq)]
pub struct LocationTable {
    /// The entries, unique by key.
    pub entries: Vec<LocationEntry>,
}

/// Result of inserting an estimate into the table: a fresh key is appended;
/// an existing key keeps its place and its stored estimate is replaced by
/// the pairwise average of the new and the stored one.
pub open spec fn spec_insert_estimate(
    s: Seq<LocationEntry>,
    key: (i64, i32),
    pos: ReportLocation,
) -> Seq<LocationEntry> {
    if seq_has_key(s, key) {
        let j = seq_find_idx(s, key);
        s.update(j, (key, avg_location(pos, s[j].1)))
    } else {
        s.push((key, pos))
    }
}

impl LocationTable {
    /// Unique keys, every estimate in coordinate range.
    pub open spec fn wf(self) -> bool {
        &&& forall|i: int, j: int|
            0 <= i < j < self.entries@.len() ==> (#[trigger] self.entries@[i]).0 != (
            #[trigger] self.entries@[j]).0
        &&& forall|i: int| 0 <= i < self.entries@.len() ==> (#[trigger] self.entries@[i]).1.wf()
    }

    /// An empty table.
    pub fn new() -> (t: LocationTable)
        ensures
            t.entries@ =~= Seq::<LocationEntry>::empty(),
            t.wf(),
    {
        LocationTable { entries: Vec::new() }
    }

    /// Look up the estimate stored for a key.
    pub fn get(&self, region: i64, reporting_point: i32) -> (r: Option<ReportLocation>)
        ensures
            seq_has_key(self.entries@, (region, reporting_point)) ==> r == Some(
                self.entries@[seq_find_idx(self.entries@, (region, reporting_point))].1,
            ),
            !seq_has_key(self.entries@, (region, reporting_point)) ==> r is None,
    {
        let ghost key = (region, reporting_point);
        proof {
            lemma_seq_find_idx(self.entries@, key);
        }
        let mut i: usize = 0;
        while i < self.entries.len()
            invariant
                i <= self.entries@.len(),
                key == (region, reporting_point),
                forall|k: int| 0 <= k < i ==> (#[trigger] self.entries@[k]).0 != key,
            decreases self.entries@.len() - i,
        {
            let e = &self.entries[i];
            if e.0.0 == region && e.0.1 == reporting_point {
                proof {
                    assert(self.entries@[i as int].0 =~= key);
                    lemma_find_at(self.entries@, key, i as int);
                }
                return Some(e.1);
            }
            i = i + 1;
        }
        None
    }

    /// Record one location estimate: insert it if its key is new, else
    /// average it pairwise into the stored estimate.
    pub fn insert(&mut self, region: i64, reporting_point: i32, pos: ReportLocation)
        requires
            old(self).wf(),
            pos.wf(),
        ensures
            final(self).wf(),
            final(self).entries@ == spec_insert_estimate(
                old(self).entries@,
                (region, reporting_point),
                pos,
            ),
    {
        let ghost key = (region, reporting_point);
        proof {
            lemma_seq_find_idx(self.entries@, key);
        }
        let mut i: usize = 0;
        while i < self.entries.len()
            invariant
                i <= self.entries@.len(),
                self.entries@ == old(self).entries@,
                self.wf(),
                pos.wf(),
                key == (region, reporting_point),
                forall|k: int| 0 <= k < i ==> (#[trigger] self.entries@[k]).0 != key,
            decreases self.entries@.len() - i,
        {
            let e = &self.entries[i];
            if e.0.0 == region && e.0.1 == reporting_point {
                proof {
                    assert(self.entries@[i as int].0 =~= key);
                    lemma_find_at(self.entries@, key, i as int);
                }
                let avg = ReportLocation {
                    lat: avg_axis(pos.lat, self.entries[i].1.lat),
                    lon: avg_axis(pos.lon, self.entries[i].1.lon),
                };
                self.entries[i] = ((region, reporting_point), avg);
                proof {
                    assert(self.entries@[i as int].0 =~= key);
                    lemma_update_keeps_wf(old(self), self, i as int);
                }
                return ;
            }
            i = i + 1;
        }
        self.entries.push(((region, reporting_point), pos));
        proof {
            lemma_push_keeps_wf(old(self), self, key, pos);
        }
    }
}

/// When the elements before `i` miss the key and element `i` carries it, the
/// first occurrence is exactly `i`.
proof fn lemma_find_at<K, V>(s: Seq<(K, V)>, key: K, i: int)
    requires
        0 <= i < s.len(),
        s[i].0 == key,
        forall|k: int| 0 <= k < i ==> (#[trigger] s[k]).0 != key,
    ensures
        seq_find_idx(s, key) == i,
        seq_has_key(s, key),
{
    lemma_seq_find_idx(s, key);
    let j = seq_find_idx(s, key);
    if j < i {
        assert(s[j].0 != key);
    }
    if j > i {
        assert(s[i].0 != key);
    }
}

/// Updating the estimate stored at an existing key preserves the table
/// invariant.
proof fn lemma_update_keeps_wf(old_t: &LocationTable, new_t: &LocationTable, i: int)
    requires
        old_t.wf(),
        0 <= i < old_t.entries@.len(),
        new_t.entries@.len() == old_t.entries@.len(),
        new_t.entries@ == old_t.entries@.update(i, new_t.entries@[i]),
        new_t.entries@[i].0 == old_t.entries@[i].0,
        new_t.entries@[i].1.wf(),
    ensures
        new_t.wf(),
{
    assert forall|a: int, b: int| 0 <= a < b < new_t.entries@.len() implies (
    #[trigger] new_t.entries@[a]).0 != (#[trigger] new_t.entries@[b]).0 by {
        assert(old_t.entries@[a].0 != old_t.entries@[b].0);
    }
    assert forall|a: int| 0 <= a < new_t.entries@.len() implies (
    #[trigger] new_t.entries@[a]).1.wf() by {
        if a != i {
            assert(new_t.entries@[a] == old_t.entries@[a]);
        }
    }
}

/// Appending an entry under a fresh key preserves the table invariant.
proof fn lemma_push_keeps_wf(
    old_t: &LocationTable,
    new_t: &LocationTable,
    key: (i64, i32),
    pos: ReportLocation,
)
    requires
        old_t.wf(),
        pos.wf(),
        forall|k: int| 0 <= k < old_t.entries@.len() ==> (#[trigger] old_t.entries@[k]).0 != key,
        new_t.entries@ == old_t.entries@.push((key, pos)),
    ensures
        new_t.wf(),
{
    assert forall|a: int, b: int| 0 <= a < b < new_t.entries@.len() implies (
    #[trigger] new_t.entries@[a]).0 != (#[trigger] new_t.entries@[b]).0 by {
        if b < old_t.entries@.len() {
            assert(old_t.entries@[a].0 != old_t.entries@[b].0);
        } else {
            assert(new_t.entries@[b] == (key, pos));
            assert(old_t.entries@[a].0 != key);
        }
    }
    assert forall|a: int| 0 <= a < new_t.entries@.len() implies (
    #[trigger] new_t.entries@[a]).1.wf() by {
        if a < old_t.entries@.len() {
            assert(new_t.entries@[a] == old_t.entries@[a]);
        }
    }
}

/// The location estimate one telegram contributes: present exactly when
/// both bracketing fixes exist within the window, keyed by the telegram's
/// region and reporting point, with the interpolated coordinate.
pub open spec fn spec_estimate_of(tg: Telegram, gps: Seq<GpsPoint>, w: int) -> Option<
    LocationEntry,
> {
    match first_fix_before(gps, tg.time as int, 1, w) {
        Some(b) => match first_fix_after(gps, tg.time as int, 1, w) {
            Some(a) => Some(
                (
                    (tg.region, tg.reporting_point),
                    ReportLocation {
                        lat: interp_axis(
                            tg.time as int,
                            b.timestamp as int,
                            a.timestamp as int,
                            b.lat as int,
                            a.lat as int,
                        ) as i64,
                        lon: interp_axis(
                            tg.time as int,
                            b.timestamp as int,
                            a.timestamp as int,
                            b.lon as int,
                            a.lon as int,
                        ) as i64,
                    },
                ),
            ),
            None => None,
        },
        None => None,
    }
}

/// The deduplicated estimate table produced by correlating and
/// interpolating the telegrams in order.
pub open spec fn spec_correlate_stops(ts: Seq<Telegram>, gps: Seq<GpsPoint>, w: int) -> Seq<
    LocationEntry,
>
    decreases ts.len(),
{
    if ts.len() == 0 {
        Seq::empty()
    } else {
        let prev = spec_correlate_stops(ts.drop_last(), gps, w);
        match spec_estimate_of(ts.last(), gps, w) {
            Some(kp) => spec_insert_estimate(prev, kp.0, kp.1),
            None => prev,
        }
    }
}

/// Every telegram time admits the window without leaving the machine range.
pub open spec fn times_admit_window(ts: Seq<Telegram>, w: int) -> bool {
    forall|i: int|
        0 <= i < ts.len() ==> (#[trigger] ts[i]).time + w <= i64::MAX && i64::MIN + w <= ts[i].time
}

/// Correlate every telegram against the index, interpolate a location for
/// each matched one, and deduplicate the estimates into one table.
/// Unmatched telegrams are dropped silently.
pub fn correlate_stops(telegrams: &Vec<Telegram>, gps: &Gps, corr_window: i64) -> (t: LocationTable)
    requires
        gps.wf(),
        corr_window < i64::MAX,
        times_admit_window(telegrams@, corr_window as int),
    ensures
        t.wf(),
        t.entries@ == spec_correlate_stops(telegrams@, gps@, corr_window as int),
{
    let mut table = LocationTable::new();
    let mut i: usize = 0;
    assert(telegrams@.take(0) =~= Seq::<Telegram>::empty());
    while i < telegrams.len()
        invariant
            i <= telegrams@.len(),
            gps.wf(),
            corr_window < i64::MAX,
            times_admit_window(telegrams@, corr_window as int),
            table.wf(),
            table.entries@ == spec_correlate_stops(
                telegrams@.take(i as int),
                gps@,
                corr_window as int,
            ),
        decreases telegrams@.len() - i,
    {
        let tg = &telegrams[i];
        match correlate_telegram(tg, gps, corr_window) {
            Some(ct) => {
                let (mp, pos) = ct.interpolate_position();
                table.insert(tg.region, mp, pos);
            },
            None => {},
        }
        proof {
            assert(telegrams@.take(i + 1).drop_last() =~= telegrams@.take(i as int));
            assert(telegrams@.take(i + 1).last() == telegrams@[i as int]);
        }
        i = i + 1;
    }
    assert(telegrams@.take(telegrams@.len() as int) =~= telegrams@);
    table
}


/// The distinct regions occurring among the entries, in first-appearance
/// order.
pub open spec fn spec_distinct_regions(entries: Seq<LocationEntry>) -> Seq<i64>
    decreases entries.len(),
{
    if entries.len() == 0 {
        Seq::empty()
    } else {
        let prev = spec_distinct_regions(entries.drop_last());
        if prev.contains(entries.last().0.0) {
            prev
        } else {
            prev.push(entries.last().0.0)
        }
    }
}

/// The (reporting point, estimate) pairs of one region, in table order.
pub open spec fn spec_region_items(entries: Seq<LocationEntry>, region: i64) -> Seq<
    (i32, ReportLocation),
>
    decreases entries.len(),
{
    if entries.len() == 0 {
        Seq::empty()
    } else {
        let prev = spec_region_items(entries.drop_last(), region);
        if entries.last().0.0 == region {
            prev.push((entries.last().0.1, entries.last().1))
        } else {
            prev
        }
    }
}

/// Group the estimate table by region: one output entry per distinct region
/// in first-appearance order, carrying that region's (reporting point,
/// estimate) pairs in table order.
pub fn group_by_region(table: &LocationTable) -> (r: Vec<(i64, Vec<(i32, ReportLocation)>)>)
    ensures
        r@.len() == spec_distinct_regions(table.entries@).len(),
        forall|j: int|
            0 <= j < r@.len() ==> (#[trigger] r@[j]).0 == spec_distinct_regions(table.entries@)[j]
                && r@[j].1@ == spec_region_items(table.entries@, r@[j].0),
{
    let regions = distinct_regions(table);
    let mut out: Vec<(i64, Vec<(i32, ReportLocation)>)> = Vec::new();
    let mut k: usize = 0;
    while k < regions.len()
        invariant
            k <= regions@.len(),
            regions@ == spec_distinct_regions(table.entries@),
            out@.len() == k,
            forall|j: int|
                0 <= j < k ==> (#[trigger] out@[j]).0 == regions@[j] && out@[j].1@
                    == spec_region_items(table.entries@, regions@[j]),
        decreases regions@.len() - k,
    {
        let reg = regions[k];
        let items = region_items(table, reg);
        out.push((reg, items));
        k = k + 1;
    }
    out
}

/// Collect the distinct regions of the table, in first-appearance order.
fn distinct_regions(table: &LocationTable) -> (r: Vec<i64>)
    ensures
        r@ == spec_distinct_regions(table.entries@),
{
    let mut out: Vec<i64> = Vec::new();
    let mut i: usize = 0;
    assert(table.entries@.take(0) =~= Seq::<LocationEntry>::empty());
    while i < table.entries.len()
        invariant
            i <= table.entries@.len(),
            out@ == spec_distinct_regions(table.entries@.take(i as int)),
        decreases table.entries@.len() - i,
    {
        let reg = table.entries[i].0.0;
        let mut seen = false;
        let mut j: usize = 0;
        while j < out.len()
            invariant
                j <= out@.len(),
                seen == exists|k: int| 0 <= k < j && out@[k] == reg,
            decreases out@.len() - j,
        {
            if out[j] == reg {
                seen = true;
            }
            j = j + 1;
        }
        proof {
            assert(seen == out@.contains(reg));
        }
        if !seen {
            out.push(reg);
        }
        proof {
            assert(table.entries@.take(i + 1).drop_last() =~= table.entries@.take(i as int));
            assert(table.entries@.take(i + 1).last() == table.entries@[i as int]);
        }
        i = i + 1;
    }
    assert(table.entries@.take(table.entries@.len() as int) =~= table.entries@);
    out
}

/// Collect one region's (reporting point, estimate) pairs, in table order.
fn region_items(table: &LocationTable, region: i64) -> (r: Vec<(i32, ReportLocation)>)
    ensures
        r@ == spec_region_items(table.entries@, region),
{
    let mut out: Vec<(i32, ReportLocation)> = Vec::new();
    let mut i: usize = 0;
    assert(table.entries@.take(0) =~= Seq::<LocationEntry>::empty());
    while i < table.entries.len()
        invariant
            i <= table.entries@.len(),
            out@ == spec_region_items(table.entries@.take(i as int), region),
        decreases table.entries@.len() - i,
    {
        let e = &table.entries[i];
        if e.0.0 == region {
            out.push((e.0.1, e.1));
        }
        proof {
            assert(table.entries@.take(i + 1).drop_last() =~= table.entries@.take(i as int));
            assert(table.entries@.take(i + 1).last() == table.entries@[i as int]);
        }
        i = i + 1;
    }
    assert(table.entries@.take(table.entries@.len() as int) =~= table.entries@);
    out
}

/// Metadata of a region as the engine models it: every field optional, all
/// plain values.
#[derive(Clone, Debug, PartialEq, Eq)]
pub struct RegionMetaInformation {
    /// Telegram frequency of the region, in Hz.
    pub frequency: Option<u64>,
    /// Name of the city the region covers.
    pub city_name: Option<String>,
    /// Telegram type spoken in the region.
    pub type_r09: Option<u8>,
    /// Fixed-point latitude of the region's nominal centre.
    pub lat: Option<i64>,
    /// Fixed-point longitude of the region's nominal centre.
    pub lon: Option<i64>,
}

/// The all-absent metadata record substituted for a region missing from the
/// metadata table.
pub open spec fn region_meta_absent() -> RegionMetaInformation {
    RegionMetaInformation {
        frequency: None,
        city_name: None,
        type_r09: None,
        lat: None,
        lon: None,
    }
}

/// The regions of `regions` missing from the metadata table, in order: the
/// observable (warning-level) signal of the metadata fill.
pub open spec fn spec_missing_regions(
    regions: Seq<i64>,
    known: Seq<(i64, RegionMetaInformation)>,
) -> Seq<i64>
    decreases regions.len(),
{
    if regions.len() == 0 {
        Seq::empty()
    } else {
        let prev = spec_missing_regions(regions.drop_last(), known);
        if seq_has_key(known, regions.last()) {
            prev
        } else {
            prev.push(regions.last())
        }
    }
}

/// Copy one metadata record.
fn clone_meta(m: &RegionMetaInformation) -> (r: RegionMetaInformation)
    ensures
        r == *m,
{
    RegionMetaInformation {
        frequency: m.frequency,
        city_name: match &m.city_name {
            Some(s) => Some(s.clone()),
            None => None,
        },
        type_r09: m.type_r09,
        lat: m.lat,
        lon: m.lon,
    }
}

/// Look up one region in the metadata table.
fn find_meta(known: &Vec<(i64, RegionMetaInformation)>, region: i64) -> (r: Option<
    RegionMetaInformation,
>)
    ensures
        seq_has_key(known@, region) ==> r == Some(known@[seq_find_idx(known@, region)].1),
        !seq_has_key(known@, region) ==> r is None,
{
    proof {
        lemma_seq_find_idx(known@, region);
    }
    let mut i: usize = 0;
    while i < known.len()
        invariant
            i <= known@.len(),
            forall|k: int| 0 <= k < i ==> (#[trigger] known@[k]).0 != region,
        decreases known@.len() - i,
    {
        if known[i].0 == region {
            proof {
                lemma_find_at(known@, region, i as int);
            }
            return Some(clone_meta(&known[i].1));
        }
        i = i + 1;
    }
    None
}

/// Resolve metadata for every region: a region present in `known` takes its
/// record, a missing one takes the all-absent record and is reported in the
/// second component so the caller can signal it.  Missing metadata is
/// non-fatal.
pub fn fill_region_meta(regions: &Vec<i64>, known: &Vec<(i64, RegionMetaInformation)>) -> (r: (
    Vec<(i64, RegionMetaInformation)>,
    Vec<i64>,
))
    ensures
        r.0@.len() == regions@.len(),
        forall|i: int|
            0 <= i < regions@.len() ==> (#[trigger] r.0@[i]).0 == regions@[i] && r.0@[i].1 == (
            if seq_has_key(known@, regions@[i]) {
                known@[seq_find_idx(known@, regions@[i])].1
            } else {
                region_meta_absent()
            }),
        r.1@ == spec_missing_regions(regions@, known@),
{
    let mut metas: Vec<(i64, RegionMetaInformation)> = Vec::new();
    let mut missing: Vec<i64> = Vec::new();
    let mut i: usize = 0;
    assert(regions@.take(0) =~= Seq::<i64>::empty());
    while i < regions.len()
        invariant
            i <= regions@.len(),
            metas@.len() == i,
            forall|k: int|
                0 <= k < i ==> (#[trigger] metas@[k]).0 == regions@[k] && metas@[k].1 == (
                if seq_has_key(known@, regions@[k]) {
                    known@[seq_find_idx(known@, regions@[k])].1
                } else {
                    region_meta_absent()
                }),
            missing@ == spec_missing_regions(regions@.take(i as int), known@),
        decreases regions@.len() - i,
    {
        let reg = regions[i];
        match find_meta(known, reg) {
            Some(m) => {
                metas.push((reg, m));
            },
            None => {
                metas.push((
                    reg,
                    RegionMetaInformation {
                        frequency: None,
                        city_name: None,
                        type_r09: None,
                        lat: None,
                        lon: None,
                    },
                ));
                missing.push(reg);
            },
        }
        proof {
            assert(regions@.take(i + 1).drop_last() =~= regions@.take(i as int));
            assert(regions@.take(i + 1).last() == regions@[i as int]);
        }
        i = i + 1;
    }
    assert(regions@.take(regions@.len() as int) =~= regions@);
    (metas, missing)
}


/// No hidden nondeterminism in stop finding: the deduplicated estimate
/// table is a function of the telegrams, the GPS index contents and the
/// window alone, so re-running the pipeline on identical inputs produces
/// the identical table.
pub proof fn lemma_correlate_stops_deterministic(
    ts1: Seq<Telegram>,
    ts2: Seq<Telegram>,
    gps1: Seq<GpsPoint>,
    gps2: Seq<GpsPoint>,
    w1: int,
    w2: int,
)
    requires
        ts1 == ts2,
        gps1 == gps2,
        w1 == w2,
    ensures
        spec_correlate_stops(ts1, gps1, w1) == spec_correlate_stops(ts2, gps2, w2),
{
}

} // verus!
