use lofi::correlate::{correlate_trekkie_run, correlate_trekkie_run_telegram, CorrTelegram as RunCorrTelegram, CorrelateError};
use lofi::filter::{filter, fits, MeasurementInterval};
use lofi::gps::{Gps, GpsPoint};
use lofi::stops::{correlate_stops, correlate_telegram, fill_region_meta, group_by_region, LocationTable, RegionMetaInformation};
use lofi::structs::CorrTelegram;
use lofi::types::{ReportLocation, Telegram};

fn telegram(region: i64, rp: i32, time: i64, line: Option<i32>, run: Option<i32>) -> Telegram {
    Telegram { region, reporting_point: rp, time, line, run_number: run, request_status: 1 }
}

fn fix(timestamp: i64, lat: i64, lon: i64) -> GpsPoint {
    GpsPoint { timestamp, lat, lon }
}

#[test]
fn adjacent_fixes_are_selected() {
    // a "before" fix at t-1 and an "after" fix at t+1 are exactly the two picked
    let mut gps = Gps::empty();
    gps.insert(fix(999, 1, 2));
    gps.insert(fix(1001, 3, 4));
    let tg = telegram(0, 100, 1000, None, None);
    let ct = correlate_telegram(&tg, &gps, 5).expect("both sides bracketed");
    assert_eq!(ct.location_before.timestamp, 999);
    assert_eq!(ct.location_after.timestamp, 1001);
    assert_eq!(ct.transmission_position, 100);
    assert_eq!(ct.timestamp, 1000);
}

#[test]
fn fix_at_telegram_time_is_excluded() {
    // a fix exactly at the telegram's own second is neither "before" nor "after"
    let mut gps = Gps::empty();
    gps.insert(fix(1000, 1, 2));
    let tg = telegram(0, 100, 1000, None, None);
    assert!(correlate_telegram(&tg, &gps, 5).is_none());

    // with neighbours present, the exact-time fix still plays no part
    let mut gps2 = Gps::empty();
    gps2.insert(fix(1000, 9, 9));
    gps2.insert(fix(999, 1, 2));
    gps2.insert(fix(1001, 3, 4));
    let ct = correlate_telegram(&tg, &gps2, 5).expect("neighbours bracket");
    assert_eq!(ct.location_before.timestamp, 999);
    assert_eq!(ct.location_after.timestamp, 1001);
}

#[test]
fn nearest_offsets_win() {
    let mut gps = Gps::empty();
    gps.insert(fix(995, 1, 1));
    gps.insert(fix(998, 2, 2));
    gps.insert(fix(1003, 3, 3));
    gps.insert(fix(1005, 4, 4));
    let tg = telegram(0, 1, 1000, None, None);
    let ct = correlate_telegram(&tg, &gps, 7).unwrap();
    assert_eq!(ct.location_before.timestamp, 998);
    assert_eq!(ct.location_after.timestamp, 1003);
}

#[test]
fn window_bounds_the_scan() {
    let mut gps = Gps::empty();
    gps.insert(fix(990, 1, 1));
    gps.insert(fix(1010, 2, 2));
    let tg = telegram(0, 1, 1000, None, None);
    assert!(correlate_telegram(&tg, &gps, 5).is_none());
    assert!(correlate_telegram(&tg, &gps, 0).is_none());
    assert!(correlate_telegram(&tg, &gps, 10).is_some());
}

#[test]
fn interpolation_follows_sum_denominator_formula() {
    // before at t=100, after at t=200, telegram at t=150: the fraction is
    // (150 - 100) / (200 + 100) = 50/300 of the axis delta
    let tg = telegram(0, 7, 150, None, None);
    let before = fix(100, 10_000_000, 20_000_000);
    let after = fix(200, 20_000_000, 40_000_000);
    let ct = CorrTelegram::new(tg, before, after);
    let (mp, loc) = ct.interpolate_position();
    assert_eq!(mp, 7);
    assert_eq!(loc.lat, 10_000_000 + 50 * 10_000_000i64 / 300);
    assert_eq!(loc.lon, 20_000_000 + 50 * 20_000_000i64 / 300);
    assert_eq!(loc.lat, 11_666_666);
    assert_eq!(loc.lon, 23_333_333);
}

#[test]
fn dedup_is_pairwise_average_and_order_dependent() {
    let mut table = LocationTable::new();
    table.insert(0, 1, ReportLocation { lat: 100, lon: 100 });
    table.insert(0, 1, ReportLocation { lat: 200, lon: 200 });
    assert_eq!(table.entries.len(), 1);
    assert_eq!(table.entries[0].1, ReportLocation { lat: 150, lon: 150 });
    table.insert(0, 1, ReportLocation { lat: 0, lon: 0 });
    assert_eq!(table.entries[0].1, ReportLocation { lat: 75, lon: 75 });

    // a different key is kept separately
    table.insert(0, 2, ReportLocation { lat: 5, lon: 5 });
    assert_eq!(table.entries.len(), 2);
    assert_eq!(table.get(0, 2), Some(ReportLocation { lat: 5, lon: 5 }));
    assert_eq!(table.get(9, 9), None);
}

#[test]
fn correlate_stops_dedups_by_region_and_point() {
    let mut gps = Gps::empty();
    for t in 990..1011 {
        gps.insert(fix(t, 1_000, 2_000));
    }
    let telegrams = vec![
        telegram(1, 5, 1000, None, None),
        telegram(1, 5, 1005, None, None),
        telegram(2, 5, 1005, None, None),
    ];
    let table = correlate_stops(&telegrams, &gps, 5);
    // constant track: every estimate lands on the track point
    assert_eq!(table.entries.len(), 2);
    assert_eq!(table.entries[0].0, (1, 5));
    assert_eq!(table.entries[1].0, (2, 5));
    assert_eq!(table.entries[0].1, ReportLocation { lat: 1_000, lon: 2_000 });
}

#[test]
fn pipeline_is_deterministic() {
    let mut gps = Gps::empty();
    for t in 990..1011 {
        gps.insert(fix(t, 1_000 + t, 2_000 - t));
    }
    let telegrams = vec![
        telegram(1, 5, 1000, None, None),
        telegram(1, 6, 1004, None, None),
        telegram(1, 5, 1008, None, None),
    ];
    let t1 = correlate_stops(&telegrams, &gps, 5);
    let t2 = correlate_stops(&telegrams, &gps, 5);
    assert_eq!(t1, t2);
    let g1 = group_by_region(&t1);
    let g2 = group_by_region(&t2);
    assert_eq!(g1, g2);
}

#[test]
fn trekkie_run_rejects_empty_input() {
    let r = correlate_trekkie_run(&Vec::new(), Vec::new(), 5, 1, 2);
    assert_eq!(r.unwrap_err(), CorrelateError::EmptyInput);
}

#[test]
fn trekkie_run_produces_rows() {
    let gps = vec![fix(999, 100, 200), fix(1001, 300, 400)];
    let telegrams = vec![telegram(3, 42, 1000, Some(1), Some(5))];
    let rows = correlate_trekkie_run(&telegrams, gps, 5, 7, 9).unwrap();
    assert_eq!(rows.len(), 1);
    let row = &rows[0];
    assert_eq!(row.region, 3);
    assert_eq!(row.reporting_point, 42);
    assert_eq!(row.trekkie_run, 7);
    assert_eq!(row.run_owner, 9);
    assert_eq!(row.id, None);
    // frac = (1000 - 999) / (1001 + 999) = 1/2000 of the delta
    assert_eq!(row.lat, 100 + 1 * (300 - 100) / 2000);
    assert_eq!(row.lon, 200 + 1 * (400 - 200) / 2000);
}

#[test]
fn trekkie_telegram_unmatched_is_dropped() {
    let mut gps = Gps::empty();
    gps.insert(fix(999, 1, 1));
    let tg = telegram(3, 42, 1000, Some(1), Some(5));
    // only a "before" fix: no correlation
    assert!(correlate_trekkie_run_telegram(&tg, &gps, 5, 7, 9).is_none());
}

#[test]
fn to_insert_requires_run_identifiers() {
    let ct = RunCorrTelegram {
        reporting_point: 1,
        timestamp: 1000,
        location_before: fix(999, 1, 1),
        location_after: fix(1001, 2, 2),
        region: 0,
        trekkie_run: None,
        run_owner: Some(9),
    };
    assert_eq!(ct.to_insert().unwrap_err(), "trekkie run is not set!");
    let ct2 = RunCorrTelegram { trekkie_run: Some(7), run_owner: None, ..ct };
    assert_eq!(ct2.to_insert().unwrap_err(), "trekkie run is not set!");
    let ct3 = RunCorrTelegram { trekkie_run: Some(7), run_owner: Some(9), ..ct };
    assert!(ct3.to_insert().is_ok());
}

#[test]
fn filter_keeps_matching_telegrams_in_order() {
    let iv = MeasurementInterval { start: 1000, stop: 2000, line: 1, run: 5 };
    let inside = telegram(0, 1, 1500, Some(1), Some(5));
    let wrong_line = telegram(0, 2, 1500, Some(2), Some(5));
    let wrong_run = telegram(0, 3, 1500, Some(1), Some(6));
    let too_early = telegram(0, 4, 999, Some(1), Some(5));
    let boundary = telegram(0, 5, 2000, Some(1), Some(5));
    let no_line = telegram(0, 6, 1500, None, Some(5));

    assert!(fits(&iv, &inside));
    assert!(!fits(&iv, &wrong_line));
    assert!(!fits(&iv, &wrong_run));
    assert!(!fits(&iv, &too_early));
    assert!(fits(&iv, &boundary));
    assert!(!fits(&iv, &no_line));

    let kept = filter(
        &vec![inside, wrong_line, wrong_run, too_early, boundary, no_line],
        &vec![iv],
    );
    assert_eq!(kept.len(), 2);
    assert_eq!(kept[0].reporting_point, 1);
    assert_eq!(kept[1].reporting_point, 5);
}

#[test]
fn region_meta_fill_substitutes_absent_records() {
    let known = vec![(
        1i64,
        RegionMetaInformation {
            frequency: Some(170_790_000),
            city_name: Some(String::from("somewhere")),
            type_r09: Some(16),
            lat: Some(51_000_000),
            lon: Some(13_700_000),
        },
    )];
    let regions = vec![1i64, 2i64];
    let (metas, missing) = fill_region_meta(&regions, &known);
    assert_eq!(metas.len(), 2);
    assert_eq!(metas[0].0, 1);
    assert_eq!(metas[0].1.frequency, Some(170_790_000));
    assert_eq!(metas[1].0, 2);
    assert_eq!(metas[1].1.frequency, None);
    assert_eq!(metas[1].1.city_name, None);
    assert_eq!(metas[1].1.lat, None);
    assert_eq!(missing, vec![2i64]);
}

#[test]
fn gps_index_keeps_last_fix_per_timestamp() {
    let mut gps = Gps::empty();
    gps.insert(fix(1000, 1, 1));
    gps.insert(fix(1000, 2, 2));
    let p = gps.get(1000).unwrap();
    assert_eq!((p.lat, p.lon), (2, 2));
    assert!(gps.get(999).is_none());
}
