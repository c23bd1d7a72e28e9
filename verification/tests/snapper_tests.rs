use lofi::crayon::run_analyser::{
    convert_list, find_closest_on_track, find_ideal_track, generate_positions, EdgeData,
    EdgeTable,
};

#[test]
fn closest_vertex_by_planar_distance() {
    let segment = vec![(0i64, 0i64), (10, 0), (20, 0)];
    let (i, d) = find_closest_on_track(&segment, &(11, 0));
    assert_eq!(i, 1);
    assert_eq!(d, 1);
    // ties resolve to the earliest vertex
    let (i2, d2) = find_closest_on_track(&segment, &(5, 0));
    assert_eq!(i2, 0);
    assert_eq!(d2, 5);
    // distance is the floored euclidean norm
    let (i3, d3) = find_closest_on_track(&vec![(0i64, 0i64)], &(3, 4));
    assert_eq!(i3, 0);
    assert_eq!(d3, 5);
    let (_, d4) = find_closest_on_track(&vec![(0i64, 0i64)], &(1, 1));
    assert_eq!(d4, 1);
}

#[test]
fn empty_segment_has_no_vertex() {
    let (i, d) = find_closest_on_track(&Vec::new(), &(0, 0));
    assert_eq!(i, 0);
    assert_eq!(d, u64::MAX);
}

#[test]
fn snapped_path_includes_both_matched_vertices() {
    // a two-point geometry matching the edge endpoints snaps to itself
    let geoms = vec![(7i32, vec![vec![(0i64, 0i64), (1, 1)]])];
    let track = find_ideal_track(&vec![7], &geoms, &(0, 0), &(1, 1));
    assert_eq!(track, vec![(0i64, 0i64), (1, 1)]);
}

#[test]
fn reversed_segment_is_invalid() {
    // the previous-match index must strictly precede the next-match index
    let geoms = vec![(7i32, vec![vec![(1i64, 1i64), (0, 0)]])];
    let track = find_ideal_track(&vec![7], &geoms, &(0, 0), &(1, 1));
    assert_eq!(track, Vec::<(i64, i64)>::new());
}

#[test]
fn reversed_segment_falls_back_to_next_candidate() {
    // the reversed segment is skipped and the forward copy wins
    let geoms = vec![(
        7i32,
        vec![vec![(1i64, 1i64), (0, 0)], vec![(0i64, 0i64), (1, 1)]],
    )];
    let track = find_ideal_track(&vec![7], &geoms, &(0, 0), &(1, 1));
    assert_eq!(track, vec![(0i64, 0i64), (1, 1)]);
}

#[test]
fn best_candidate_minimises_summed_distance() {
    // line 8 passes right through the endpoints, line 7 is far away
    let geoms = vec![
        (7i32, vec![vec![(500i64, 500i64), (600, 600)]]),
        (8i32, vec![vec![(0i64, 0i64), (5, 5), (10, 10)]]),
    ];
    let track = find_ideal_track(&vec![7, 8], &geoms, &(0, 0), &(10, 10));
    assert_eq!(track, vec![(0i64, 0i64), (5, 5), (10, 10)]);
}

#[test]
fn missing_line_geometry_yields_empty_path() {
    let geoms = vec![(7i32, vec![vec![(0i64, 0i64), (1, 1)]])];
    let track = find_ideal_track(&vec![9], &geoms, &(0, 0), &(1, 1));
    assert_eq!(track, Vec::<(i64, i64)>::new());
}

#[test]
fn percentage_indexing_is_exact() {
    let path = vec![(0i64, 0i64), (1, 1), (2, 2), (3, 3)];
    let keyed = convert_list(&path);
    assert_eq!(
        keyed,
        vec![(0i32, (0i64, 0i64)), (25, (1, 1)), (50, (2, 2)), (75, (3, 3))]
    );
    let two = convert_list(&vec![(9i64, 9i64), (8, 8)]);
    assert_eq!(two, vec![(0i32, (9i64, 9i64)), (50, (8, 8))]);
    assert_eq!(convert_list(&Vec::new()).len(), 0);
}

fn one_edge_table() -> EdgeTable {
    EdgeTable {
        edges: vec![(
            (1, 2),
            EdgeData { count: 1, times: vec![60_000], lines: vec![7] },
        )],
    }
}

#[test]
fn generate_positions_frames_the_snapped_path() {
    let graph = vec![(1i32, vec![2i32])];
    let stops = vec![(1i32, (0i64, 0i64)), (2i32, (9i64, 9i64))];
    let geoms = vec![(7i32, vec![vec![(0i64, 0i64), (9, 9)]])];
    let table = one_edge_table();
    let rg = generate_positions(&table, &graph, &stops, &geoms);
    assert_eq!(rg.len(), 1);
    assert_eq!(rg[0].0, 1);
    let segs = &rg[0].1;
    assert_eq!(segs.len(), 1);
    assert_eq!(segs[0].historical_time, 60_000);
    assert_eq!(segs[0].next_reporting_point, 2);
    // path = previous + snapped vertices + next, keyed by percentage
    assert_eq!(
        segs[0].positions,
        vec![(0i32, (0i64, 0i64)), (25, (0, 0)), (50, (9, 9)), (75, (9, 9))]
    );
}

#[test]
fn generate_positions_skips_edges_without_coordinates() {
    let graph = vec![(1i32, vec![2i32])];
    let geoms = vec![(7i32, vec![vec![(0i64, 0i64), (9, 9)]])];
    let table = one_edge_table();
    // next endpoint has no coordinate: the edge and its source are omitted
    let stops = vec![(1i32, (0i64, 0i64))];
    let rg = generate_positions(&table, &graph, &stops, &geoms);
    assert_eq!(rg.len(), 0);
    // previous endpoint missing likewise
    let stops2 = vec![(2i32, (9i64, 9i64))];
    let rg2 = generate_positions(&table, &graph, &stops2, &geoms);
    assert_eq!(rg2.len(), 0);
}

#[test]
fn generate_positions_without_candidates_keeps_endpoints() {
    // no geometry at all: the path is just the two endpoints
    let graph = vec![(1i32, vec![2i32])];
    let stops = vec![(1i32, (0i64, 0i64)), (2i32, (9i64, 9i64))];
    let table = one_edge_table();
    let rg = generate_positions(&table, &graph, &stops, &Vec::new());
    assert_eq!(rg.len(), 1);
    assert_eq!(
        rg[0].1[0].positions,
        vec![(0i32, (0i64, 0i64)), (50, (9, 9))]
    );
}

#[test]
fn generate_positions_skips_unaccumulated_edges() {
    let graph = vec![(3i32, vec![4i32])];
    let stops = vec![(3i32, (0i64, 0i64)), (4i32, (9i64, 9i64))];
    let table = one_edge_table();
    let rg = generate_positions(&table, &graph, &stops, &Vec::new());
    assert_eq!(rg.len(), 0);
}
