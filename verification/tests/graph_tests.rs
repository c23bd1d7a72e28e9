use lofi::crayon::correlate_lines;
use lofi::crayon::run_analyser::{analyse_day, finalise, rate, EdgeData, EdgeTable};
use lofi::types::Telegram;

fn telegram(region: i64, rp: i32, time: i64, line: Option<i32>, run: Option<i32>) -> Telegram {
    Telegram { region, reporting_point: rp, time, line, run_number: run, request_status: 1 }
}

fn edge(from: i32, to: i32, times: Vec<i64>, lines: Vec<i32>) -> ((i32, i32), EdgeData) {
    let count = times.len() as i32;
    ((from, to), EdgeData { count, times, lines })
}

#[test]
fn run_sequence_records_one_edge() {
    // A -> B for the same line/run, nothing from B or C
    let day = vec![
        telegram(0, 10, 1000, Some(1), Some(5)),
        telegram(0, 20, 1060, Some(1), Some(5)),
        telegram(0, 30, 1061, Some(2), Some(9)),
    ];
    let mut graph = EdgeTable::new();
    analyse_day(&day, &mut graph);
    assert_eq!(graph.edges.len(), 1);
    let e = &graph.edges[0];
    assert_eq!(e.0, (10, 20));
    assert_eq!(e.1.count, 1);
    assert_eq!(e.1.times, vec![60_000i64]);
    assert_eq!(e.1.lines, vec![1i32]);
}

#[test]
fn scan_gives_up_beyond_time_threshold() {
    // the same-run successor lies 11 minutes out; an unrelated telegram sits
    // at 2 minutes; the scan must end without an edge
    let day = vec![
        telegram(0, 10, 1000, Some(1), Some(5)),
        telegram(0, 30, 1120, Some(2), Some(9)),
        telegram(0, 20, 1660, Some(1), Some(5)),
    ];
    let mut graph = EdgeTable::new();
    analyse_day(&day, &mut graph);
    assert_eq!(graph.edges.len(), 0);
}

#[test]
fn threshold_boundary_is_inclusive() {
    // exactly 600 seconds out still matches; 601 does not
    let day = vec![
        telegram(0, 10, 1000, Some(1), Some(5)),
        telegram(0, 20, 1600, Some(1), Some(5)),
    ];
    let mut graph = EdgeTable::new();
    analyse_day(&day, &mut graph);
    assert_eq!(graph.edges.len(), 1);
    assert_eq!(graph.edges[0].1.times, vec![600_000i64]);

    let day2 = vec![
        telegram(0, 10, 1000, Some(1), Some(5)),
        telegram(0, 20, 1601, Some(1), Some(5)),
    ];
    let mut graph2 = EdgeTable::new();
    analyse_day(&day2, &mut graph2);
    assert_eq!(graph2.edges.len(), 0);
}

#[test]
fn repeated_observations_accumulate() {
    let day = vec![
        telegram(0, 10, 1000, Some(1), Some(5)),
        telegram(0, 20, 1050, Some(1), Some(5)),
        telegram(0, 10, 2000, Some(3), Some(8)),
        telegram(0, 20, 2060, Some(3), Some(8)),
    ];
    let mut graph = EdgeTable::new();
    analyse_day(&day, &mut graph);
    // 10->20 twice (once per run), 20->10 never within threshold of a match
    let e = graph.edges.iter().find(|e| e.0 == (10, 20)).unwrap();
    assert_eq!(e.1.count, 2);
    assert_eq!(e.1.times, vec![50_000i64, 60_000i64]);
    assert_eq!(e.1.lines, vec![1i32, 3i32]);
}

#[test]
fn self_loops_are_not_recorded() {
    let day = vec![
        telegram(0, 10, 1000, Some(1), Some(5)),
        telegram(0, 10, 1050, Some(1), Some(5)),
    ];
    let mut graph = EdgeTable::new();
    analyse_day(&day, &mut graph);
    assert_eq!(graph.edges.len(), 0);
}

#[test]
fn rating_matches_formula_exactly() {
    // mean equal to the expected travel time: decay term is exactly one
    // scale unit, so the rating is 50 * 1_000_000 + 10_000 * count
    assert_eq!(rate(1, &vec![120]), 50_010_000);
    assert_eq!(rate(2, &vec![119, 121]), 50_020_000);
    // one whole unit of deviation: the decay is the scaled 1/e power
    assert_eq!(rate(1, &vec![121]), 50 * 367_879 + 10_000);
    // far from the expected time the decay term vanishes
    assert_eq!(rate(1, &vec![60_000]), 10_000);
    assert_eq!(rate(10, &vec![60_000; 10]), 100_000);
}

#[test]
fn statistical_filter_retains_ratings_above_two_sigma() {
    // ratings 10_000, 10_000, 100_000: mean 40_000, population variance
    // 1.8e9, sigma about 42_426; only the third edge exceeds 2 * sigma
    let table = EdgeTable {
        edges: vec![
            edge(1, 2, vec![60_000], vec![1]),
            edge(3, 4, vec![60_000], vec![1]),
            edge(5, 6, vec![60_000; 10], vec![2]),
        ],
    };
    let graph = finalise(&table);
    assert_eq!(graph.len(), 1);
    assert_eq!(graph[0].0, 5);
    assert_eq!(graph[0].1, vec![6i32]);
}

#[test]
fn filter_of_identical_ratings_keeps_all() {
    // all ratings equal: sigma is zero and every positive rating exceeds it
    let table = EdgeTable {
        edges: vec![
            edge(1, 2, vec![60_000], vec![1]),
            edge(1, 3, vec![60_000], vec![1]),
            edge(3, 4, vec![60_000], vec![1]),
        ],
    };
    let graph = finalise(&table);
    assert_eq!(graph.len(), 2);
    assert_eq!(graph[0], (1, vec![2i32, 3i32]));
    assert_eq!(graph[1], (3, vec![4i32]));
}

#[test]
fn empty_table_yields_empty_graph() {
    let graph = finalise(&EdgeTable::new());
    assert_eq!(graph.len(), 0);
}

#[test]
fn correlate_lines_filters_region_and_status() {
    // two same-run telegrams in the region, one door-closed in between, one
    // from another region
    let telegrams = vec![
        telegram(1, 10, 86_400_000, Some(1), Some(5)),
        Telegram { request_status: 0, ..telegram(1, 99, 86_400_010, Some(1), Some(5)) },
        telegram(2, 77, 86_400_020, Some(1), Some(5)),
        telegram(1, 20, 86_400_050, Some(1), Some(5)),
    ];
    let (table, graph, _rg) = correlate_lines(&telegrams, 1, &Vec::new(), &Vec::new());
    assert_eq!(table.edges.len(), 1);
    assert_eq!(table.edges[0].0, (10, 20));
    assert_eq!(table.edges[0].1.times, vec![50_000i64]);
    // a single rating: retained exactly when it exceeds twice the (zero) sigma
    assert_eq!(graph.len(), 1);
    assert_eq!(graph[0], (10, vec![20i32]));
}

#[test]
fn correlate_lines_partitions_by_calendar_day() {
    // the same run half a day apart on day one, then again on day two; the
    // day boundary keeps the second day's pair separate
    let day1 = 86_400i64 * 1000;
    let day2 = 86_400i64 * 1001;
    let telegrams = vec![
        telegram(1, 10, day1 + 100, Some(1), Some(5)),
        telegram(1, 20, day1 + 160, Some(1), Some(5)),
        telegram(1, 10, day2 + 100, Some(1), Some(5)),
        telegram(1, 20, day2 + 130, Some(1), Some(5)),
    ];
    let (table, _graph, _rg) = correlate_lines(&telegrams, 1, &Vec::new(), &Vec::new());
    assert_eq!(table.edges.len(), 1);
    assert_eq!(table.edges[0].0, (10, 20));
    assert_eq!(table.edges[0].1.count, 2);
    assert_eq!(table.edges[0].1.times, vec![60_000i64, 30_000i64]);
}

#[test]
fn correlate_lines_is_idempotent() {
    let telegrams = vec![
        telegram(1, 10, 86_400_000, Some(1), Some(5)),
        telegram(1, 20, 86_400_050, Some(1), Some(5)),
        telegram(1, 30, 86_400_100, Some(1), Some(5)),
    ];
    let stops = vec![(10, (0i64, 0i64)), (20, (1_000i64, 1_000i64)), (30, (2_000i64, 2_000i64))];
    let geoms = vec![(1i32, vec![vec![(0i64, 0i64), (1_000, 1_000), (2_000, 2_000)]])];
    let r1 = correlate_lines(&telegrams, 1, &geoms, &stops);
    let r2 = correlate_lines(&telegrams, 1, &geoms, &stops);
    assert_eq!(r1, r2);
}
