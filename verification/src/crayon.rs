//! Topology inference: building a per-day run-sequence graph from telegram
//! order, filtering it statistically, and snapping the surviving edges onto
//! real-world line geometries.

pub mod run_analyser;

use vstd::prelude::*;

use crate::crayon::run_analyser::{
    analyse_day, counts_budget, finalise, generate_positions, graph_view, len_budget,
    lemma_analyse_day_budget, lemma_budget_monotone, region_graph_view, spec_analyse_day,
    spec_finalise, spec_generate_positions, table_view, Coordinate, EdgeTable, LineSegment,
    MAX_SAMPLES,
};
use crate::types::{Telegram, REQUEST_STATUS_DOOR_CLOSED};

verus! {

/// Seconds per calendar day; telegrams are partitioned by `time / 86400`.
pub const SECONDS_PER_DAY: i64 = 86400;

/// The calendar day (as days since the unix epoch) a telegram belongs to.
pub open spec fn spec_day_of(time: int) -> int {
    time / (SECONDS_PER_DAY as int)
}

/// A telegram takes part in graph building when it belongs to the analysed
/// region and its request status carries positional information (not
/// door-closed).
pub open spec fn spec_informative(tg: Telegram, region: i64) -> bool {
    tg.region == region && tg.request_status != REQUEST_STATUS_DOOR_CLOSED
}


/// The telegrams of one region that carry positional information, in input
/// order.
pub open spec fn spec_region_filter(ts: Seq<Telegram>, region: i64) -> Seq<Telegram>
    decreases ts.len(),
{
    if ts.len() == 0 {
        Seq::empty()
    } else {
        let prev = spec_region_filter(ts.drop_last(), region);
        if spec_informative(ts.last(), region) {
            prev.push(ts.last())
        } else {
            prev
        }
    }
}

/// The stream partitioned into runs of consecutive telegrams sharing a
/// calendar day.  For a time-ascending stream this is exactly the partition
/// by calendar day.
pub open spec fn spec_split_days(ts: Seq<Telegram>) -> Seq<Seq<Telegram>>
    decreases ts.len(),
{
    if ts.len() == 0 {
        Seq::empty()
    } else {
        let groups = spec_split_days(ts.drop_last());
        let t = ts.last();
        if groups.len() > 0 && spec_day_of(groups.last().last().time as int) == spec_day_of(
            t.time as int,
        ) {
            groups.update(groups.len() - 1, groups.last().push(t))
        } else {
            groups.push(seq![t])
        }
    }
}

/// The accumulator table after analysing the first `n` day groups.
pub open spec fn spec_analyse_groups(
    groups: Seq<Seq<Telegram>>,
    n: int,
    acc: Seq<((i32, i32), (int, Seq<i64>, Seq<i32>))>,
) -> Seq<((i32, i32), (int, Seq<i64>, Seq<i32>))>
    decreases n,
{
    if n <= 0 {
        acc
    } else {
        spec_analyse_day(groups[n - 1], spec_analyse_groups(groups, n - 1, acc))
    }
}

/// The accumulator table of the whole run: region-filtered telegrams,
/// partitioned by calendar day, each day analysed in turn.
pub open spec fn spec_crayon_table(ts: Seq<Telegram>, region: i64) -> Seq<
    ((i32, i32), (int, Seq<i64>, Seq<i32>)),
> {
    let groups = spec_split_days(spec_region_filter(ts, region));
    spec_analyse_groups(groups, groups.len() as int, Seq::empty())
}

/// Run the whole topology inference for one region: keep the region's
/// informative telegrams, partition them by calendar day, accumulate the
/// run-sequence graph over all days, filter it statistically, and snap the
/// retained edges onto the line geometries.  Hands back the accumulator
/// table, the adjacency graph and the path-annotated graph.
pub fn correlate_lines(
    telegrams: &Vec<Telegram>,
    region: i64,
    overpass_structs: &Vec<(i32, Vec<Vec<Coordinate>>)>,
    region_data: &Vec<(i32, Coordinate)>,
) -> (r: (EdgeTable, Vec<(i32, Vec<i32>)>, Vec<(i32, Vec<LineSegment>)>))
    requires
        crate::crayon::run_analyser::times_ascending(telegrams@),
        crate::crayon::run_analyser::telegrams_wf(telegrams@),
        telegrams@.len() <= MAX_SAMPLES,
        crate::crayon::run_analyser::geoms_wf(overpass_structs@),
        forall|i: int|
            0 <= i < region_data@.len() ==> crate::crayon::run_analyser::coordinate_wf(
                (#[trigger] region_data@[i]).1,
            ),
    ensures
        r.0.wf(),
        table_view(r.0.edges@) == spec_crayon_table(telegrams@, region),
        graph_view(r.1@) == spec_finalise(spec_crayon_table(telegrams@, region)),
        region_graph_view(r.2@) == spec_generate_positions(
            spec_finalise(spec_crayon_table(telegrams@, region)),
            spec_crayon_table(telegrams@, region),
            region_data@,
            overpass_structs@,
        ),
{
    let n = telegrams.len();
    let mut graph = EdgeTable::new();
    let mut daily: Vec<Telegram> = Vec::new();
    let mut i: usize = 0;
    assert(telegrams@.take(0) =~= Seq::<Telegram>::empty());
    while i < n
        invariant
            i <= n,
            n == telegrams@.len(),
            n <= MAX_SAMPLES,
            crate::crayon::run_analyser::times_ascending(telegrams@),
            crate::crayon::run_analyser::telegrams_wf(telegrams@),
            graph.wf(),
            crate::crayon::run_analyser::times_ascending(daily@),
            crate::crayon::run_analyser::telegrams_wf(daily@),
            daily@.len() <= i,
            (daily@.len() > 0 ==> (i >= 1 && daily@.last().time <= telegrams@[i - 1].time)),
            counts_budget(table_view(graph.edges@), (n - i) + daily@.len()),
            len_budget(table_view(graph.edges@), (n - i) + daily@.len()),
            ({
                let groups = spec_split_days(
                    spec_region_filter(telegrams@.take(i as int), region),
                );
                &&& (daily@.len() == 0 <==> groups.len() == 0)
                &&& (groups.len() > 0 ==> daily@ == groups.last())
                &&& table_view(graph.edges@) == spec_analyse_groups(
                    groups,
                    if groups.len() > 0 {
                        groups.len() - 1
                    } else {
                        0
                    },
                    Seq::empty(),
                )
            }),
        decreases n - i,
    {
        let ghost pre_groups = spec_split_days(
            spec_region_filter(telegrams@.take(i as int), region),
        );
        let tg = telegrams[i];
        proof {
            assert(telegrams@.take(i + 1).drop_last() =~= telegrams@.take(i as int));
            assert(telegrams@.take(i + 1).last() == telegrams@[i as int]);
        }
        if tg.region == region && tg.request_status != REQUEST_STATUS_DOOR_CLOSED {
            proof {
                assert(spec_informative(telegrams@[i as int], region));
                let filt = spec_region_filter(telegrams@.take(i as int), region);
                let filt2 = spec_region_filter(telegrams@.take(i + 1), region);
                assert(filt2 == filt.push(telegrams@[i as int]));
                assert(filt2.drop_last() =~= filt);
                assert(filt2.last() == tg);
                assert(filt2.len() == filt.len() + 1);
            }
            let flush = if daily.len() > 0 {
                let last = daily[daily.len() - 1];
                (last.time as u64) / (SECONDS_PER_DAY as u64) != (tg.time as u64)
                    / (SECONDS_PER_DAY as u64)
            } else {
                false
            };
            if flush {
                proof {
                    assert(daily@.len() > 0);
                    assert(spec_day_of(daily@.last().time as int) != spec_day_of(
                        tg.time as int,
                    ));
                    assert(counts_budget(table_view(graph.edges@), daily@.len() as int)
                        && len_budget(table_view(graph.edges@), daily@.len() as int)) by {
                        lemma_budget_monotone(
                            table_view(graph.edges@),
                            (n - i) + daily@.len(),
                            daily@.len() as int,
                        );
                    }
                    assert(crate::crayon::run_analyser::counts_below(
                        table_view(graph.edges@),
                        daily@.len() as int,
                    ));
                    lemma_analyse_day_budget(
                        daily@,
                        daily@.len() as int,
                        table_view(graph.edges@),
                        (n - i) + daily@.len(),
                    );
                }
                analyse_day(&daily, &mut graph);
                daily = Vec::new();
                daily.push(tg);
                proof {
                    let groups = spec_split_days(
                        spec_region_filter(telegrams@.take(i + 1), region),
                    );
                    assert(groups == pre_groups.push(seq![tg]));
                    assert(daily@ =~= seq![tg]);
                    assert(spec_analyse_groups(groups, groups.len() - 1, Seq::empty())
                        == spec_analyse_day(
                        pre_groups.last(),
                        spec_analyse_groups(pre_groups, pre_groups.len() - 1, Seq::empty()),
                    )) by {
                        assert(groups[groups.len() - 2] == pre_groups.last());
                        assert(spec_analyse_groups(groups, groups.len() - 2, Seq::empty())
                            == spec_analyse_groups(
                            pre_groups,
                            pre_groups.len() - 1,
                            Seq::empty(),
                        )) by {
                            lemma_analyse_groups_prefix(
                                groups,
                                pre_groups,
                                pre_groups.len() - 1,
                            );
                        }
                    }
                }
            } else {
                proof {
                    if daily@.len() > 0 {
                        assert(spec_day_of(daily@.last().time as int) == spec_day_of(
                            tg.time as int,
                        ));
                    }
                }
                let ghost old_daily = daily@;
                daily.push(tg);
                proof {
                    assert(crate::crayon::run_analyser::times_ascending(daily@)) by {
                        assert forall|a: int, b: int|
                            0 <= a <= b < daily@.len() implies (#[trigger] daily@[a]).time <= (
                        #[trigger] daily@[b]).time by {
                            if b < old_daily.len() {
                                assert(daily@[a] == old_daily[a] && daily@[b] == old_daily[b]);
                            } else {
                                if a < old_daily.len() {
                                    assert(daily@[a] == old_daily[a]);
                                    assert(old_daily[a].time <= old_daily.last().time);
                                    assert(old_daily.last().time <= telegrams@[i - 1].time);
                                }
                            }
                        }
                    }
                    let groups = spec_split_days(
                        spec_region_filter(telegrams@.take(i + 1), region),
                    );
                    if old_daily.len() == 0 {
                        assert(groups == pre_groups.push(seq![tg]));
                        assert(daily@ =~= seq![tg]);
                        assert(spec_analyse_groups(groups, groups.len() - 1, Seq::empty())
                            == spec_analyse_groups(pre_groups, 0, Seq::empty())) by {
                            lemma_analyse_groups_prefix(groups, pre_groups, 0);
                        }
                    } else {
                        assert(groups == pre_groups.update(
                            pre_groups.len() - 1,
                            pre_groups.last().push(tg),
                        ));
                        assert(groups.last() == pre_groups.last().push(tg));
                        assert(daily@ == groups.last());
                        assert(spec_analyse_groups(groups, groups.len() - 1, Seq::empty())
                            == spec_analyse_groups(
                            pre_groups,
                            pre_groups.len() - 1,
                            Seq::empty(),
                        )) by {
                            lemma_analyse_groups_update_last(groups, pre_groups);
                        }
                    }
                }
            }
        } else {
            proof {
                assert(!spec_informative(telegrams@[i as int], region));
                assert(spec_region_filter(telegrams@.take(i + 1), region) == spec_region_filter(
                    telegrams@.take(i as int),
                    region,
                ));
                lemma_budget_monotone(
                    table_view(graph.edges@),
                    (n - i) + daily@.len(),
                    (n - i - 1) + daily@.len(),
                );
            }
        }
        i = i + 1;
    }
    assert(telegrams@.take(n as int) =~= telegrams@);
    if daily.len() > 0 {
        proof {
            lemma_budget_monotone(
                table_view(graph.edges@),
                (n - n) + daily@.len(),
                daily@.len() as int,
            );
            assert(crate::crayon::run_analyser::counts_below(
                table_view(graph.edges@),
                daily@.len() as int,
            ));
            lemma_analyse_day_budget(
                daily@,
                daily@.len() as int,
                table_view(graph.edges@),
                daily@.len() as int,
            );
            let groups = spec_split_days(spec_region_filter(telegrams@, region));
            assert(spec_analyse_groups(groups, groups.len() as int, Seq::empty())
                == spec_analyse_day(
                groups.last(),
                spec_analyse_groups(groups, groups.len() - 1, Seq::empty()),
            ));
        }
        analyse_day(&daily, &mut graph);
    }
    proof {
        assert(counts_budget(table_view(graph.edges@), 0) && len_budget(
            table_view(graph.edges@),
            0,
        ));
        assert forall|k: int|
            0 <= k < graph.edges@.len() implies (#[trigger] graph.edges@[k]).1.times@.len()
            <= MAX_SAMPLES by {
            assert(table_view(graph.edges@)[k] == (
                graph.edges@[k].0,
                crate::crayon::run_analyser::edge_view(graph.edges@[k].1),
            ));
            assert(table_view(graph.edges@)[k].1.0 + 0 <= MAX_SAMPLES as int);
            assert(crate::crayon::run_analyser::edge_wf(
                graph.edges@[k].0,
                crate::crayon::run_analyser::edge_view(graph.edges@[k].1),
            ));
        }
    }
    let finished = finalise(&graph);
    let rg = generate_positions(&graph, &finished, region_data, overpass_structs);
    (graph, finished, rg)
}

/// Analysing a prefix of groups ignores the groups past the prefix.
proof fn lemma_analyse_groups_prefix(g1: Seq<Seq<Telegram>>, g2: Seq<Seq<Telegram>>, n: int)
    requires
        0 <= n <= g2.len(),
        g2.len() <= g1.len(),
        forall|k: int| 0 <= k < g2.len() ==> g1[k] == g2[k],
    ensures
        spec_analyse_groups(g1, n, Seq::empty()) == spec_analyse_groups(g2, n, Seq::empty()),
    decreases n,
{
    if n > 0 {
        lemma_analyse_groups_prefix(g1, g2, n - 1);
    }
}

/// Analysing up to the last group is unaffected by replacing the last
/// group.
proof fn lemma_analyse_groups_update_last(g1: Seq<Seq<Telegram>>, g2: Seq<Seq<Telegram>>)
    requires
        g2.len() >= 1,
        g1 == g2.update(g2.len() - 1, g1[g2.len() - 1]),
    ensures
        spec_analyse_groups(g1, g1.len() - 1, Seq::empty()) == spec_analyse_groups(
            g2,
            g2.len() - 1,
            Seq::empty(),
        ),
{
    assert forall|k: int| 0 <= k < g2.len() - 1 implies g1[k] == g2[k] by {}
    lemma_analyse_groups_prefix_any(g1, g2, g2.len() - 1);
}

/// Prefix congruence for group analysis.
proof fn lemma_analyse_groups_prefix_any(g1: Seq<Seq<Telegram>>, g2: Seq<Seq<Telegram>>, n: int)
    requires
        0 <= n,
        n <= g1.len(),
        n <= g2.len(),
        forall|k: int| 0 <= k < n ==> g1[k] == g2[k],
    ensures
        spec_analyse_groups(g1, n, Seq::empty()) == spec_analyse_groups(g2, n, Seq::empty()),
    decreases n,
{
    if n > 0 {
        lemma_analyse_groups_prefix_any(g1, g2, n - 1);
    }
}


/// No hidden nondeterminism in topology inference: accumulator table,
/// adjacency graph and path-annotated graph are functions of the telegrams,
/// the region, the geometries and the stop coordinates alone, so re-running
/// the pipeline on identical inputs produces identical output.
pub proof fn lemma_correlate_lines_deterministic(
    ts1: Seq<Telegram>,
    ts2: Seq<Telegram>,
    region1: i64,
    region2: i64,
)
    requires
        ts1 == ts2,
        region1 == region2,
    ensures
        spec_crayon_table(ts1, region1) == spec_crayon_table(ts2, region2),
        spec_finalise(spec_crayon_table(ts1, region1)) == spec_finalise(
            spec_crayon_table(ts2, region2),
        ),
{
}

} // verus!
