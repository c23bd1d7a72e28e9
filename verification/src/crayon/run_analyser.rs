//! The run analyser: accumulates directed reporting-point transitions from
//! one day's telegrams, scores and filters the accumulated edges
//! statistically, and snaps retained edges onto line geometries.

use vstd::prelude::*;

use crate::types::{
    lemma_seq_find_idx, seq_find_idx, seq_has_key, Telegram, SAME_RUN_TIME_THRESHOLD,
};

verus! {

/// A fixed-point (latitude, longitude) pair.
pub type Coordinate = (i64, i64);

/// Largest transit-time sample an edge can accumulate, in milliseconds: the
/// forward scan gives up beyond `SAME_RUN_TIME_THRESHOLD` seconds.
pub const MAX_TIME_SAMPLE: i64 = 600_000;

/// Accumulated evidence for one directed edge between two reporting points:
/// how often the transition was observed, the transit-time samples in
/// milliseconds, and the lines it was observed on.
#[derive(Clone, Debug, PartialEq, Eq)]
pub struct EdgeData {
    /// Number of observations.
    pub count: i32,
    /// One transit-time sample per observation, milliseconds.
    pub times: Vec<i64>,
    /// Distinct lines the transition was observed on, in first-appearance
    /// order.
    pub lines: Vec<i32>,
}

/// Mathematical content of one edge accumulator: count, time samples, lines.
pub open spec fn edge_view(e: EdgeData) -> (int, Seq<i64>, Seq<i32>) {
    (e.count as int, e.times@, e.lines@)
}

/// Mathematical content of the whole accumulator table.
pub open spec fn table_view(s: Seq<((i32, i32), EdgeData)>) -> Seq<
    ((i32, i32), (int, Seq<i64>, Seq<i32>)),
> {
    s.map_values(|p: ((i32, i32), EdgeData)| (p.0, edge_view(p.1)))
}

/// A well-formed accumulator: a proper edge between two distinct reporting
/// points, one time sample per observation, every sample within the scan
/// threshold, and a nonempty duplicate-free line list.
pub open spec fn edge_wf(key: (i32, i32), e: (int, Seq<i64>, Seq<i32>)) -> bool {
    &&& key.0 != key.1
    &&& e.0 == e.1.len()
    &&& e.1.len() >= 1
    &&& forall|k: int| 0 <= k < e.1.len() ==> 0 <= #[trigger] e.1[k] <= MAX_TIME_SAMPLE
    &&& e.2.len() >= 1
    &&& forall|k1: int, k2: int| 0 <= k1 < k2 < e.2.len() ==> e.2[k1] != e.2[k2]
}

/// Accumulator table for the run-sequence graph, one entry per ordered pair
/// of reporting points, in first-appearance order.  Accumulators persist
/// and merge across all days processed.
#[derive(Clone, Debug, PartialEq, Eq)]
pub struct EdgeTable {
    /// The accumulators, unique by key.
    pub edges: Vec<((i32, i32), EdgeData)>,
}

impl EdgeTable {
    /// Unique keys and well-formed accumulators.
    pub open spec fn wf(self) -> bool {
        &&& forall|i: int, j: int|
            0 <= i < j < self.edges@.len() ==> (#[trigger] self.edges@[i]).0 != (
            #[trigger] self.edges@[j]).0
        &&& forall|i: int|
            0 <= i < self.edges@.len() ==> edge_wf(
                (#[trigger] self.edges@[i]).0,
                edge_view(self.edges@[i].1),
            )
    }

    /// An empty table.
    pub fn new() -> (t: EdgeTable)
        ensures
            t.edges@ =~= Seq::<((i32, i32), EdgeData)>::empty(),
            t.wf(),
    {
        EdgeTable { edges: Vec::new() }
    }
}

/// A line list extended by one observation: unchanged when the line is
/// already present, appended otherwise.
pub open spec fn spec_add_line(lines: Seq<i32>, line: i32) -> Seq<i32> {
    if lines.contains(line) {
        lines
    } else {
        lines.push(line)
    }
}

/// The table after recording one observation of the edge `key` with
/// transit-time sample `dt_ms` on `line`: a fresh key is appended with a
/// count of one; an existing key keeps its place, its count grows by one,
/// the sample is appended and the line recorded.
pub open spec fn spec_record_edge(
    s: Seq<((i32, i32), (int, Seq<i64>, Seq<i32>))>,
    key: (i32, i32),
    dt_ms: i64,
    line: i32,
) -> Seq<((i32, i32), (int, Seq<i64>, Seq<i32>))> {
    if seq_has_key(s, key) {
        let j = seq_find_idx(s, key);
        s.update(j, (key, (s[j].1.0 + 1, s[j].1.1.push(dt_ms), spec_add_line(s[j].1.2, line))))
    } else {
        s.push((key, (1, seq![dt_ms], seq![line])))
    }
}

/// Every accumulator can take `budget` more observations without its count
/// leaving the machine range.
pub open spec fn counts_below(s: Seq<((i32, i32), (int, Seq<i64>, Seq<i32>))>, budget: int) -> bool {
    forall|k: int| 0 <= k < s.len() ==> (#[trigger] s[k]).1.0 + budget <= i32::MAX
}

/// Recording one observation spends one unit of the count budget.
proof fn lemma_record_edge_counts(
    s: Seq<((i32, i32), (int, Seq<i64>, Seq<i32>))>,
    key: (i32, i32),
    dt_ms: i64,
    line: i32,
    budget: int,
)
    requires
        counts_below(s, budget),
        1 <= budget <= i32::MAX,
    ensures
        counts_below(spec_record_edge(s, key, dt_ms, line), budget - 1),
{
    lemma_seq_find_idx(s, key);
    let r = spec_record_edge(s, key, dt_ms, line);
    assert forall|k: int| 0 <= k < r.len() implies (#[trigger] r[k]).1.0 + (budget - 1)
        <= i32::MAX by {
        if seq_has_key(s, key) {
            let j = seq_find_idx(s, key);
            if k != j {
                assert(r[k] == s[k]);
            } else {
                assert(s[j].1.0 + budget <= i32::MAX);
            }
        } else {
            if k < s.len() {
                assert(r[k] == s[k]);
            }
        }
    }
}

/// Record one observation of a directed edge.
fn record_edge(table: &mut EdgeTable, from: i32, to: i32, dt_ms: i64, line: i32)
    requires
        old(table).wf(),
        from != to,
        0 <= dt_ms <= MAX_TIME_SAMPLE,
        counts_below(table_view(old(table).edges@), 1),
    ensures
        final(table).wf(),
        table_view(final(table).edges@) == spec_record_edge(
            table_view(old(table).edges@),
            (from, to),
            dt_ms,
            line,
        ),
{
    let ghost key = (from, to);
    let ghost tv = table_view(table.edges@);
    proof {
        lemma_seq_find_idx(tv, key);
    }
    let mut i: usize = 0;
    while i < table.edges.len()
        invariant
            i <= table.edges@.len(),
            *table == *old(table),
            old(table).wf(),
            counts_below(table_view(old(table).edges@), 1),
            from != to,
            0 <= dt_ms <= MAX_TIME_SAMPLE,
            key == (from, to),
            tv == table_view(table.edges@),
            forall|k: int| 0 <= k < i ==> (#[trigger] table.edges@[k]).0 != key,
        decreases table.edges@.len() - i,
    {
        if table.edges[i].0.0 == from && table.edges[i].0.1 == to {
            proof {
                assert(table.edges@[i as int].0 =~= key);
                assert(forall|k: int| 0 <= k < i ==> (#[trigger] tv[k]).0 != key);
                assert(tv[i as int].0 == key);
                lemma_find_at_edges(tv, key, i as int);
            }
            // whether the line was seen before, read out first
            let mut line_seen = false;
            let mut j: usize = 0;
            while j < table.edges[i].1.lines.len()
                invariant
                    i < table.edges@.len(),
                    j <= table.edges@[i as int].1.lines@.len(),
                    line_seen == exists|k: int|
                        0 <= k < j && table.edges@[i as int].1.lines@[k] == line,
                decreases table.edges@[i as int].1.lines@.len() - j,
            {
                if table.edges[i].1.lines[j] == line {
                    line_seen = true;
                }
                j = j + 1;
            }
            proof {
                assert(line_seen == table.edges@[i as int].1.lines@.contains(line));
            }
            proof {
                assert(tv[i as int].1.0 == table.edges@[i as int].1.count as int);
                assert(tv[i as int].1.0 + 1 <= i32::MAX);
            }
            let e = &mut table.edges[i];
            e.1.count = e.1.count + 1;
            e.1.times.push(dt_ms);
            if !line_seen {
                e.1.lines.push(line);
            }
            proof {
                let old_tv = table_view(old(table).edges@);
                let j0 = seq_find_idx(old_tv, key);
                assert(j0 == i as int);
                assert(table.edges@ == old(table).edges@.update(
                    i as int,
                    table.edges@[i as int],
                ));
                assert(table_view(table.edges@) =~~= spec_record_edge(old_tv, key, dt_ms, line));
                let old_e = edge_view(old(table).edges@[i as int].1);
                let new_e = edge_view(table.edges@[i as int].1);
                assert(edge_wf(old(table).edges@[i as int].0, old_e));
                assert forall|k: int| 0 <= k < new_e.1.len() implies 0 <= #[trigger] new_e.1[k]
                    <= MAX_TIME_SAMPLE by {
                    if k < old_e.1.len() {
                        assert(new_e.1[k] == old_e.1[k]);
                    } else {
                        assert(new_e.1[k] == dt_ms);
                    }
                }
                assert forall|k1: int, k2: int| 0 <= k1 < k2 < new_e.2.len() implies new_e.2[k1]
                    != new_e.2[k2] by {
                    if k2 < old_e.2.len() {
                        assert(new_e.2[k1] == old_e.2[k1] && new_e.2[k2] == old_e.2[k2]);
                    } else {
                        assert(!line_seen);
                        assert(!old_e.2.contains(line));
                        assert(new_e.2[k1] == old_e.2[k1]);
                        assert(new_e.2[k2] == line);
                    }
                }
                lemma_update_keeps_wf_edges(old(table), table, i as int);
            }
            return ;
        }
        i = i + 1;
    }
    let mut new_times: Vec<i64> = Vec::new();
    new_times.push(dt_ms);
    let mut new_lines: Vec<i32> = Vec::new();
    new_lines.push(line);
    let data = EdgeData { count: 1, times: new_times, lines: new_lines };
    table.edges.push(((from, to), data));
    proof {
        let old_tv = table_view(old(table).edges@);
        assert(forall|k: int| 0 <= k < old_tv.len() ==> (#[trigger] old_tv[k]).0 != key);
        lemma_seq_find_idx(old_tv, key);
        assert(!seq_has_key(old_tv, key));
        assert(table_view(table.edges@) =~~= spec_record_edge(old_tv, key, dt_ms, line));
        lemma_push_keeps_wf_edges(old(table), table, key);
    }
}

/// When the entries before `i` miss the key and entry `i` carries it, the
/// first occurrence is exactly `i`.
proof fn lemma_find_at_edges(
    s: Seq<((i32, i32), (int, Seq<i64>, Seq<i32>))>,
    key: (i32, i32),
    i: int,
)
    requires
        0 <= i < s.len(),
        s[i].0 == key,
        forall|k: int| 0 <= k < i ==> (#[trigger] s[k]).0 != key,
    ensures
        seq_find_idx(s, key) == i,
        seq_has_key(s, key),
{
    lemma_seq_find_idx(s, key);
    let j = seq_find_idx(s, key);
    if j < i {
        assert(s[j].0 != key);
    }
    if j > i {
        assert(s[i].0 != key);
    }
}

/// Updating the accumulator stored at an existing key preserves the table
/// invariant, provided the updated accumulator is well-formed.
proof fn lemma_update_keeps_wf_edges(old_t: &EdgeTable, new_t: &EdgeTable, i: int)
    requires
        old_t.wf(),
        0 <= i < old_t.edges@.len(),
        new_t.edges@ == old_t.edges@.update(i, new_t.edges@[i]),
        new_t.edges@[i].0 == old_t.edges@[i].0,
        edge_wf(new_t.edges@[i].0, edge_view(new_t.edges@[i].1)),
    ensures
        new_t.wf(),
{
    assert forall|a: int, b: int| 0 <= a < b < new_t.edges@.len() implies (
    #[trigger] new_t.edges@[a]).0 != (#[trigger] new_t.edges@[b]).0 by {
        assert(old_t.edges@[a].0 != old_t.edges@[b].0);
    }
    assert forall|a: int| 0 <= a < new_t.edges@.len() implies edge_wf(
        (#[trigger] new_t.edges@[a]).0,
        edge_view(new_t.edges@[a].1),
    ) by {
        if a != i {
            assert(new_t.edges@[a] == old_t.edges@[a]);
        }
    }
}

/// Appending an accumulator under a fresh key preserves the table
/// invariant.
proof fn lemma_push_keeps_wf_edges(old_t: &EdgeTable, new_t: &EdgeTable, key: (i32, i32))
    requires
        old_t.wf(),
        forall|k: int| 0 <= k < old_t.edges@.len() ==> (#[trigger] old_t.edges@[k]).0 != key,
        new_t.edges@.len() == old_t.edges@.len() + 1,
        new_t.edges@ == old_t.edges@.push(new_t.edges@.last()),
        new_t.edges@.last().0 == key,
        edge_wf(key, edge_view(new_t.edges@.last().1)),
    ensures
        new_t.wf(),
{
    assert forall|a: int, b: int| 0 <= a < b < new_t.edges@.len() implies (
    #[trigger] new_t.edges@[a]).0 != (#[trigger] new_t.edges@[b]).0 by {
        if b < old_t.edges@.len() {
            assert(old_t.edges@[a].0 != old_t.edges@[b].0);
        } else {
            assert(old_t.edges@[a].0 != key);
        }
    }
    assert forall|a: int| 0 <= a < new_t.edges@.len() implies edge_wf(
        (#[trigger] new_t.edges@[a]).0,
        edge_view(new_t.edges@[a].1),
    ) by {
        if a < old_t.edges@.len() {
            assert(new_t.edges@[a] == old_t.edges@[a]);
        }
    }
}

/// The index of the next telegram of the same run as telegram `i`, scanning
/// forward from `j`.  The scan ends without a result as soon as it reaches a
/// telegram further than the time threshold from telegram `i` - also when
/// that telegram itself matches the run - and otherwise stops at the first
/// telegram whose line and run equal those of telegram `i`.
pub open spec fn spec_next_occurrence(ts: Seq<Telegram>, i: int, j: int) -> Option<int>
    decreases ts.len() - j,
{
    if j < 0 || j >= ts.len() {
        None
    } else if ts[j].time - ts[i].time > SAME_RUN_TIME_THRESHOLD {
        None
    } else if ts[j].line == ts[i].line && ts[j].run_number == ts[i].run_number {
        Some(j)
    } else {
        spec_next_occurrence(ts, i, j + 1)
    }
}

/// The table after processing telegram `i` of the day: an edge is recorded
/// exactly when a same-run successor is found within the threshold, the
/// telegram carries a line, and the two reporting points differ.
pub open spec fn spec_analyse_step(
    ts: Seq<Telegram>,
    i: int,
    acc: Seq<((i32, i32), (int, Seq<i64>, Seq<i32>))>,
) -> Seq<((i32, i32), (int, Seq<i64>, Seq<i32>))> {
    match spec_next_occurrence(ts, i, i + 1) {
        Some(j) => {
            if ts[i].line is Some && ts[i].reporting_point != ts[j].reporting_point {
                spec_record_edge(
                    acc,
                    (ts[i].reporting_point, ts[j].reporting_point),
                    ((ts[j].time - ts[i].time) * 1000) as i64,
                    ts[i].line.unwrap(),
                )
            } else {
                acc
            }
        },
        None => acc,
    }
}

/// The table after processing the first `n` telegrams of the day.
pub open spec fn spec_analyse_day_upto(
    ts: Seq<Telegram>,
    n: int,
    acc0: Seq<((i32, i32), (int, Seq<i64>, Seq<i32>))>,
) -> Seq<((i32, i32), (int, Seq<i64>, Seq<i32>))>
    decreases n,
{
    if n <= 0 {
        acc0
    } else {
        spec_analyse_step(ts, n - 1, spec_analyse_day_upto(ts, n - 1, acc0))
    }
}

/// The table after processing one whole day.
pub open spec fn spec_analyse_day(
    ts: Seq<Telegram>,
    acc0: Seq<((i32, i32), (int, Seq<i64>, Seq<i32>))>,
) -> Seq<((i32, i32), (int, Seq<i64>, Seq<i32>))> {
    spec_analyse_day_upto(ts, ts.len() as int, acc0)
}

/// Telegram times never decrease along the sequence.
pub open spec fn times_ascending(ts: Seq<Telegram>) -> bool {
    forall|a: int, b: int| 0 <= a <= b < ts.len() ==> (#[trigger] ts[a]).time <= (#[trigger] ts[b]).time
}

/// Every telegram of the sequence is well-formed.
pub open spec fn telegrams_wf(ts: Seq<Telegram>) -> bool {
    forall|i: int| 0 <= i < ts.len() ==> (#[trigger] ts[i]).wf()
}

/// A recorded edge always lies within the time threshold: the forward scan
/// never hands back a successor further than the threshold from its origin.
pub proof fn lemma_next_occurrence_within_threshold(ts: Seq<Telegram>, i: int, j: int)
    requires
        (spec_next_occurrence(ts, i, j) is Some),
    ensures
        ({
            let h = spec_next_occurrence(ts, i, j).unwrap();
            &&& j <= h < ts.len()
            &&& ts[h].time - ts[i].time <= SAME_RUN_TIME_THRESHOLD
            &&& ts[h].line == ts[i].line
            &&& ts[h].run_number == ts[i].run_number
        }),
    decreases ts.len() - j,
{
    if j < 0 || j >= ts.len() {
    } else if ts[j].time - ts[i].time > SAME_RUN_TIME_THRESHOLD {
    } else if ts[j].line == ts[i].line && ts[j].run_number == ts[i].run_number {
    } else {
        lemma_next_occurrence_within_threshold(ts, i, j + 1);
    }
}

/// Accumulate one day's telegrams into the run-sequence graph: for each
/// telegram, scan forward for the next telegram of the same line and run;
/// the scan ends without an edge as soon as it reaches any telegram further
/// than the time threshold.  A found successor at a distinct reporting point
/// records an edge with the transit time in milliseconds.
pub fn analyse_day(telegrams: &Vec<Telegram>, graph: &mut EdgeTable)
    requires
        old(graph).wf(),
        times_ascending(telegrams@),
        telegrams_wf(telegrams@),
        telegrams@.len() < i32::MAX,
        counts_below(table_view(old(graph).edges@), telegrams@.len() as int),
    ensures
        final(graph).wf(),
        table_view(final(graph).edges@) == spec_analyse_day(
            telegrams@,
            table_view(old(graph).edges@),
        ),
{
    let n = telegrams.len();
    let mut i: usize = 0;
    while i < n
        invariant
            i <= n,
            n == telegrams@.len(),
            times_ascending(telegrams@),
            telegrams_wf(telegrams@),
            n < i32::MAX,
            graph.wf(),
            counts_below(table_view(graph.edges@), n - i),
            table_view(graph.edges@) == spec_analyse_day_upto(
                telegrams@,
                i as int,
                table_view(old(graph).edges@),
            ),
        decreases n - i,
    {
        let ghost pre = table_view(graph.edges@);
        let mut j: usize = i + 1;
        let mut done = false;
        let mut hit: Option<usize> = None;
        while j < n && !done
            invariant
                i < n,
                n == telegrams@.len(),
                i + 1 <= j <= n,
                times_ascending(telegrams@),
                telegrams_wf(telegrams@),
                (!done ==> hit is None && spec_next_occurrence(telegrams@, i as int, i + 1)
                    == spec_next_occurrence(telegrams@, i as int, j as int)),
                (done ==> match hit {
                    Some(h) => spec_next_occurrence(telegrams@, i as int, i + 1) == Some(
                        h as int,
                    ) && i < h < n,
                    None => spec_next_occurrence(telegrams@, i as int, i + 1) is None,
                }),
            decreases n - j, (if done { 0int } else { 1int }),
        {
            let dt = telegrams[j].time - telegrams[i].time;
            if dt > SAME_RUN_TIME_THRESHOLD {
                done = true;
            } else if crate::types::opt_id_eq(telegrams[j].line, telegrams[i].line)
                && crate::types::opt_id_eq(telegrams[j].run_number, telegrams[i].run_number) {
                hit = Some(j);
                done = true;
            } else {
                j = j + 1;
            }
        }
        proof {
            if !done {
                assert(spec_next_occurrence(telegrams@, i as int, j as int) is None);
            }
        }
        match hit {
            Some(h) => {
                match telegrams[i].line {
                    Some(line) => {
                        if telegrams[i].reporting_point != telegrams[h].reporting_point {
                            let dt = telegrams[h].time - telegrams[i].time;
                            proof {
                                lemma_next_occurrence_within_threshold(
                                    telegrams@,
                                    i as int,
                                    i + 1,
                                );
                                lemma_record_edge_counts(
                                    pre,
                                    (telegrams@[i as int].reporting_point, telegrams@[h as int].reporting_point),
                                    (dt * 1000) as i64,
                                    line,
                                    n - i,
                                );
                            }
                            record_edge(
                                graph,
                                telegrams[i].reporting_point,
                                telegrams[h].reporting_point,
                                dt * 1000,
                                line,
                            );
                        }
                    },
                    None => {},
                }
            },
            None => {},
        }
        proof {
            assert(table_view(graph.edges@) == spec_analyse_step(telegrams@, i as int, pre));
            assert(counts_below(table_view(graph.edges@), n - i - 1)) by {
                assert forall|k: int|
                    0 <= k < table_view(graph.edges@).len() implies (#[trigger] table_view(
                    graph.edges@,
                )[k]).1.0 + (n - i - 1) <= i32::MAX by {
                    if table_view(graph.edges@) == pre {
                        assert(pre[k].1.0 + (n - i) <= i32::MAX);
                    }
                }
            }
        }
        i = i + 1;
    }
}


/// Fixed-point scale of edge ratings: one unit is a millionth.
pub const RATING_SCALE: i64 = 1_000_000;

/// `1/e` at the rating scale.
pub const INV_E_SCALED: i64 = 367_879;

/// Whole deviations (in sample units) beyond which the decay term of a
/// rating is taken as zero; the true value there is below one scale unit.
pub const EXP_CUTOFF: i64 = 25;

/// Largest magnitude a rating can reach under the input bounds of `rate`.
pub const RATING_BOUND: i64 = 30_000_000_000;

/// Largest sample count `rate` and `finalise` accept.
pub const MAX_SAMPLES: usize = 0x10_0000;

/// Sum of a sequence of time samples.
pub open spec fn spec_sum(times: Seq<i64>) -> int
    decreases times.len(),
{
    if times.len() == 0 {
        0
    } else {
        spec_sum(times.drop_last()) + times.last()
    }
}

/// `(1/e)^q` at the rating scale, evaluated by repeated scaled
/// multiplication with the quotient truncated at each step.
pub open spec fn pow_inv_e(q: nat) -> int
    decreases q,
{
    if q == 0 {
        RATING_SCALE as int
    } else {
        (pow_inv_e((q - 1) as nat) * INV_E_SCALED) / (RATING_SCALE as int)
    }
}

/// The scaled power stays within `[0, RATING_SCALE]`.
pub proof fn lemma_pow_inv_e_bounds(q: nat)
    ensures
        0 <= pow_inv_e(q) <= RATING_SCALE,
    decreases q,
{
    if q == 0 {
    } else {
        lemma_pow_inv_e_bounds((q - 1) as nat);
        let p = pow_inv_e((q - 1) as nat);
        assert(p * INV_E_SCALED >= 0) by {
            vstd::arithmetic::mul::lemma_mul_nonnegative(p, INV_E_SCALED as int);
        }
        vstd::arithmetic::div_mod::lemma_div_pos_is_pos(p * INV_E_SCALED, RATING_SCALE as int);
        assert(p * INV_E_SCALED <= RATING_SCALE * RATING_SCALE) by {
            vstd::arithmetic::mul::lemma_mul_upper_bound(
                p,
                RATING_SCALE as int,
                INV_E_SCALED as int,
                RATING_SCALE as int,
            );
        }
        vstd::arithmetic::div_mod::lemma_div_is_ordered(
            p * INV_E_SCALED,
            RATING_SCALE * RATING_SCALE,
            RATING_SCALE as int,
        );
        assert((RATING_SCALE * RATING_SCALE) / (RATING_SCALE as int) == RATING_SCALE) by {
            vstd::arithmetic::div_mod::lemma_div_by_multiple(
                RATING_SCALE as int,
                RATING_SCALE as int,
            );
        }
    }
}

/// Numerator of the degree-four polynomial approximating `e^(-n/d)` on
/// `0 <= n < d`: `24d^4 - 24nd^3 + 12n^2d^2 - 4n^3d + n^4`, grouped into its
/// positive and negative monomials.
pub open spec fn poly_num(n: int, d: int) -> int {
    let n2 = n * n;
    let n3 = n2 * n;
    let n4 = n3 * n;
    let d2 = d * d;
    let d3 = d2 * d;
    let d4 = d3 * d;
    (24 * d4 + 12 * n2 * d2 + n4) - (24 * n * d3 + 4 * n3 * d)
}

/// The fractional decay: `RATING_SCALE * poly / (24 d^4)`, an approximation
/// of `e^(-n/d)` at the rating scale for a fractional deviation `n/d`.
pub open spec fn exp_frac(n: int, d: int) -> int {
    let d2 = d * d;
    let d3 = d2 * d;
    let d4 = d3 * d;
    (RATING_SCALE * poly_num(n, d)) / (24 * d4)
}

/// On `0 <= n < d` the polynomial lies between 0 and `24 d^4`, so the
/// fractional decay lies between 0 and the scale.
pub proof fn lemma_poly_bounds(n: int, d: int)
    requires
        0 <= n < d,
    ensures
        0 <= poly_num(n, d),
        poly_num(n, d) <= 24 * (((d * d) * d) * d),
        0 <= exp_frac(n, d) <= RATING_SCALE,
{
    let n2 = n * n;
    let n3 = n2 * n;
    let n4 = n3 * n;
    let d2 = d * d;
    let d3 = d2 * d;
    let d4 = d3 * d;
    assert(d4 >= 1 && (24 * n * d3 + 4 * n3 * d) <= (24 * d4 + 12 * n2 * d2 + n4) && (24 * d4 + 12
        * n2 * d2 + n4) - (24 * n * d3 + 4 * n3 * d) <= 24 * d4) by (nonlinear_arith)
        requires
            0 <= n < d,
            n2 == n * n,
            n3 == n2 * n,
            n4 == n3 * n,
            d2 == d * d,
            d3 == d2 * d,
            d4 == d3 * d,
    ;
    let p = poly_num(n, d);
    assert(p == (24 * d4 + 12 * n2 * d2 + n4) - (24 * n * d3 + 4 * n3 * d));
    assert(RATING_SCALE * p >= 0) by {
        vstd::arithmetic::mul::lemma_mul_nonnegative(RATING_SCALE as int, p);
    }
    vstd::arithmetic::div_mod::lemma_div_pos_is_pos(RATING_SCALE * p, 24 * d4);
    assert(RATING_SCALE * p <= (24 * d4) * RATING_SCALE) by {
        vstd::arithmetic::mul::lemma_mul_inequality(p, 24 * d4, RATING_SCALE as int);
    }
    vstd::arithmetic::div_mod::lemma_div_is_ordered(
        RATING_SCALE * p,
        (24 * d4) * RATING_SCALE,
        24 * d4,
    );
    assert(((24 * d4) * RATING_SCALE) / (24 * d4) == RATING_SCALE) by {
        vstd::arithmetic::div_mod::lemma_div_by_multiple(RATING_SCALE as int, 24 * d4);
    }
}

/// Scaled approximation of `e^(-d_num/d_den)`: the whole part of the
/// deviation through the scaled power, the fractional part through the
/// polynomial, zero beyond the cutoff.
pub open spec fn spec_exp_decay(d_num: int, d_den: int) -> int {
    let q = d_num / d_den;
    if q >= EXP_CUTOFF {
        0
    } else {
        (pow_inv_e(q as nat) * exp_frac(d_num % d_den, d_den)) / (RATING_SCALE as int)
    }
}

/// The decay term lies between 0 and the scale.
pub proof fn lemma_exp_decay_bounds(d_num: int, d_den: int)
    requires
        0 <= d_num,
        1 <= d_den,
    ensures
        0 <= spec_exp_decay(d_num, d_den) <= RATING_SCALE,
{
    let q = d_num / d_den;
    vstd::arithmetic::div_mod::lemma_div_pos_is_pos(d_num, d_den);
    if q >= EXP_CUTOFF {
    } else {
        vstd::arithmetic::div_mod::lemma_fundamental_div_mod(d_num, d_den);
        vstd::arithmetic::div_mod::lemma_mod_bound(d_num, d_den);
        let f = d_num % d_den;
        lemma_pow_inv_e_bounds(q as nat);
        lemma_poly_bounds(f, d_den);
        let p = pow_inv_e(q as nat);
        let e = exp_frac(f, d_den);
        assert(p * e >= 0) by {
            vstd::arithmetic::mul::lemma_mul_nonnegative(p, e);
        }
        vstd::arithmetic::div_mod::lemma_div_pos_is_pos(p * e, RATING_SCALE as int);
        assert(p * e <= RATING_SCALE * RATING_SCALE) by {
            vstd::arithmetic::mul::lemma_mul_upper_bound(
                p,
                RATING_SCALE as int,
                e,
                RATING_SCALE as int,
            );
        }
        vstd::arithmetic::div_mod::lemma_div_is_ordered(
            p * e,
            RATING_SCALE * RATING_SCALE,
            RATING_SCALE as int,
        );
        assert((RATING_SCALE * RATING_SCALE) / (RATING_SCALE as int) == RATING_SCALE) by {
            vstd::arithmetic::div_mod::lemma_div_by_multiple(
                RATING_SCALE as int,
                RATING_SCALE as int,
            );
        }
    }
}

/// Score of one edge: `50 e^(-|mean(times) - expected|) + 0.01 count`,
/// evaluated at the rating scale (so the constants become `50 *
/// RATING_SCALE` and `RATING_SCALE / 100`).  The mean deviation is carried
/// exactly as the rational `|sum - expected * len| / len`.
pub open spec fn spec_rate(count: int, times: Seq<i64>) -> int {
    let dev = spec_sum(times) - (crate::types::EXPECTED_TRAVEL_TIME as int) * times.len();
    let dev_abs = if dev >= 0 {
        dev
    } else {
        -dev
    };
    50 * spec_exp_decay(dev_abs, times.len() as int) + 10_000 * count
}

/// The sum of bounded samples is bounded.
proof fn lemma_sum_bounds(times: Seq<i64>)
    requires
        forall|k: int| 0 <= k < times.len() ==> 0 <= #[trigger] times[k] <= MAX_TIME_SAMPLE,
    ensures
        0 <= spec_sum(times) <= times.len() * (MAX_TIME_SAMPLE as int),
    decreases times.len(),
{
    if times.len() == 0 {
    } else {
        lemma_sum_bounds(times.drop_last());
        assert((times.len() - 1) * (MAX_TIME_SAMPLE as int) + MAX_TIME_SAMPLE == times.len() * (
        MAX_TIME_SAMPLE as int)) by (nonlinear_arith);
    }
}

/// Evaluate the decay term in executable arithmetic.
fn exp_decay_exec(dev: u64, den: u64) -> (r: i64)
    requires
        1 <= den <= MAX_SAMPLES as u64,
        dev <= (MAX_SAMPLES as u64) * (MAX_TIME_SAMPLE as u64),
    ensures
        r == spec_exp_decay(dev as int, den as int),
        0 <= r <= RATING_SCALE,
{
    proof {
        lemma_exp_decay_bounds(dev as int, den as int);
    }
    let q: u64 = dev / den;
    let f: u64 = dev % den;
    if q >= EXP_CUTOFF as u64 {
        0
    } else {
        let mut pow: u64 = RATING_SCALE as u64;
        let mut k: u64 = 0;
        while k < q
            invariant
                k <= q,
                pow == pow_inv_e(k as nat),
                0 <= pow <= RATING_SCALE as u64,
            decreases q - k,
        {
            proof {
                lemma_pow_inv_e_bounds((k + 1) as nat);
                vstd::arithmetic::mul::lemma_mul_upper_bound(
                    pow as int,
                    RATING_SCALE as int,
                    INV_E_SCALED as int,
                    INV_E_SCALED as int,
                );
                vstd::arithmetic::mul::lemma_mul_nonnegative(pow as int, INV_E_SCALED as int);
            }
            pow = pow * (INV_E_SCALED as u64) / (RATING_SCALE as u64);
            k = k + 1;
        }
        proof {
            vstd::arithmetic::div_mod::lemma_mod_bound(dev as int, den as int);
            lemma_poly_bounds(f as int, den as int);
        }
        let fd: u128 = den as u128;
        let fnm: u128 = f as u128;
        proof {
            vstd::arithmetic::mul::lemma_mul_upper_bound(f as int, 0x10_0000, f as int, 0x10_0000);
            vstd::arithmetic::mul::lemma_mul_upper_bound(den as int, 0x10_0000, den as int, 0x10_0000);
            vstd::arithmetic::mul::lemma_mul_nonnegative(f as int, f as int);
            vstd::arithmetic::mul::lemma_mul_nonnegative(den as int, den as int);
        }
        let n2: u128 = fnm * fnm;
        let d2: u128 = fd * fd;
        proof {
            vstd::arithmetic::mul::lemma_mul_upper_bound(n2 as int, 0x10000000000, f as int, 0x10_0000);
            vstd::arithmetic::mul::lemma_mul_upper_bound(d2 as int, 0x10000000000, den as int, 0x10_0000);
            vstd::arithmetic::mul::lemma_mul_nonnegative(n2 as int, f as int);
            vstd::arithmetic::mul::lemma_mul_nonnegative(d2 as int, den as int);
        }
        let n3: u128 = n2 * fnm;
        let d3: u128 = d2 * fd;
        proof {
            vstd::arithmetic::mul::lemma_mul_upper_bound(n3 as int, 0x1000000000000000, f as int, 0x10_0000);
            vstd::arithmetic::mul::lemma_mul_upper_bound(d3 as int, 0x1000000000000000, den as int, 0x10_0000);
            vstd::arithmetic::mul::lemma_mul_nonnegative(n3 as int, f as int);
            vstd::arithmetic::mul::lemma_mul_nonnegative(d3 as int, den as int);
        }
        let n4: u128 = n3 * fnm;
        let d4: u128 = d3 * fd;
        proof {
            vstd::arithmetic::mul::lemma_mul_upper_bound(12 * n2 as int, 12 * 0x10000000000int, d2 as int, 0x10000000000);
            vstd::arithmetic::mul::lemma_mul_nonnegative(12 * n2 as int, d2 as int);
            vstd::arithmetic::mul::lemma_mul_upper_bound(24 * f as int, 24 * 0x10_0000int, d3 as int, 0x1000000000000000);
            vstd::arithmetic::mul::lemma_mul_nonnegative(24 * f as int, d3 as int);
            vstd::arithmetic::mul::lemma_mul_upper_bound(4 * n3 as int, 4 * 0x1000000000000000int, den as int, 0x10_0000);
            vstd::arithmetic::mul::lemma_mul_nonnegative(4 * n3 as int, den as int);
        }
        let pos: u128 = 24 * d4 + 12 * n2 * d2 + n4;
        let neg: u128 = 24 * fnm * d3 + 4 * n3 * fd;
        proof {
            lemma_poly_bounds(f as int, den as int);
            assert(pos as int - neg as int == poly_num(f as int, den as int));
        }
        let num: u128 = pos - neg;
        proof {
            assert(d2 >= 1 && d3 >= 1 && d4 >= 1) by (nonlinear_arith)
                requires
                    den as int >= 1,
                    d2 as int == (den as int) * (den as int),
                    d3 as int == (d2 as int) * (den as int),
                    d4 as int == (d3 as int) * (den as int),
            ;
            vstd::arithmetic::mul::lemma_mul_upper_bound(
                RATING_SCALE as int,
                RATING_SCALE as int,
                num as int,
                24 * 0x100000000000000000000int,
            );
            vstd::arithmetic::mul::lemma_mul_nonnegative(RATING_SCALE as int, num as int);
        }
        let frac: u128 = (RATING_SCALE as u128) * num / (24 * d4);
        proof {
            assert(frac == exp_frac(f as int, den as int));
            lemma_pow_inv_e_bounds(q as nat);
            vstd::arithmetic::mul::lemma_mul_upper_bound(
                pow as int,
                RATING_SCALE as int,
                frac as int,
                RATING_SCALE as int,
            );
            vstd::arithmetic::mul::lemma_mul_nonnegative(pow as int, frac as int);
        }
        let decay: u128 = (pow as u128) * frac / (RATING_SCALE as u128);
                decay as i64
    }
}

/// Score one edge: the rating decays with the deviation of the mean
/// transit-time sample from the expected transit time, and grows slightly
/// with the observation count.  The result is at the rating scale.
pub fn rate(count: i32, times: &Vec<i64>) -> (r: i64)
    requires
        1 <= times@.len() <= MAX_SAMPLES,
        forall|k: int| 0 <= k < times@.len() ==> 0 <= #[trigger] times@[k] <= MAX_TIME_SAMPLE,
    ensures
        r == spec_rate(count as int, times@),
{
    proof {
        lemma_sum_bounds(times@);
    }
    let mut total: i64 = 0;
    let mut k: usize = 0;
    assert(times@.take(0) =~= Seq::<i64>::empty());
    while k < times.len()
        invariant
            k <= times@.len(),
            times@.len() <= MAX_SAMPLES,
            forall|j: int| 0 <= j < times@.len() ==> 0 <= #[trigger] times@[j] <= MAX_TIME_SAMPLE,
            total == spec_sum(times@.take(k as int)),
            0 <= total <= k * (MAX_TIME_SAMPLE as int),
        decreases times@.len() - k,
    {
        proof {
            assert(times@.take(k + 1).drop_last() =~= times@.take(k as int));
            assert(times@.take(k + 1).last() == times@[k as int]);
            assert(k * (MAX_TIME_SAMPLE as int) + MAX_TIME_SAMPLE == (k + 1) * (
            MAX_TIME_SAMPLE as int)) by (nonlinear_arith);
        }
        total = total + times[k];
        k = k + 1;
    }
    assert(times@.take(times@.len() as int) =~= times@);
    let n: i64 = times.len() as i64;
    let expected: i64 = crate::types::EXPECTED_TRAVEL_TIME * n;
    let dev: u64 = if total >= expected {
        (total - expected) as u64
    } else {
        (expected - total) as u64
    };
    proof {
        assert(n * (MAX_TIME_SAMPLE as int) <= (MAX_SAMPLES as int) * (MAX_TIME_SAMPLE as int))
            by (nonlinear_arith)
            requires
                1 <= n <= MAX_SAMPLES as int,
        ;
        assert(dev <= (MAX_SAMPLES as u64) * (MAX_TIME_SAMPLE as u64));
    }
    let decay: i64 = exp_decay_exec(dev, n as u64);
    50 * decay + 10_000 * (count as i64)
}


/// Mathematical content of the adjacency graph: source reporting point and
/// its reachable successors, in insertion order.
pub open spec fn graph_view(g: Seq<(i32, Vec<i32>)>) -> Seq<(i32, Seq<i32>)> {
    g.map_values(|p: (i32, Vec<i32>)| (p.0, p.1@))
}

/// The rating of one accumulated edge.
pub open spec fn spec_edge_rating(e: ((i32, i32), (int, Seq<i64>, Seq<i32>))) -> int {
    spec_rate(e.1.0, e.1.1)
}

/// Sum of the first `k` edge ratings.
pub open spec fn spec_sum_ratings(s: Seq<((i32, i32), (int, Seq<i64>, Seq<i32>))>, k: int) -> int
    decreases k,
{
    if k <= 0 {
        0
    } else {
        spec_sum_ratings(s, k - 1) + spec_edge_rating(s[k - 1])
    }
}

/// Sum of the squares of the first `k` edge ratings.
pub open spec fn spec_sumsq_ratings(s: Seq<((i32, i32), (int, Seq<i64>, Seq<i32>))>, k: int) -> int
    decreases k,
{
    if k <= 0 {
        0
    } else {
        spec_sumsq_ratings(s, k - 1) + spec_edge_rating(s[k - 1]) * spec_edge_rating(s[k - 1])
    }
}

/// The retention criterion of the statistical filter, in exact integer
/// arithmetic.  Over a population of `n` ratings with sum `s1` and sum of
/// squares `s2`, the population standard deviation is
/// `sigma = sqrt((n * s2 - s1 * s1) / (n * n))`; for a nonnegative rating
/// `r`, `r > 2 * sigma` holds exactly when `(n*r)^2 > 4 * (n*s2 - s1^2)`,
/// which avoids the irrational square root.
pub open spec fn spec_retained(r: int, n: int, s1: int, s2: int) -> bool {
    (n * r) * (n * r) > 4 * (n * s2 - s1 * s1)
}

/// Auxiliary bound: `2 r S <= k r^2 + Q` for the rating prefix sums.
proof fn lemma_cross_bound(s: Seq<((i32, i32), (int, Seq<i64>, Seq<i32>))>, k: int, r: int)
    requires
        0 <= k <= s.len(),
    ensures
        2 * r * spec_sum_ratings(s, k) <= k * (r * r) + spec_sumsq_ratings(s, k),
    decreases k,
{
    if k > 0 {
        lemma_cross_bound(s, k - 1, r);
        let x = spec_edge_rating(s[k - 1]);
        let sum_prev = spec_sum_ratings(s, k - 1);
        let sq_prev = spec_sumsq_ratings(s, k - 1);
        assert(spec_sum_ratings(s, k) == sum_prev + x);
        assert(spec_sumsq_ratings(s, k) == sq_prev + x * x);
        assert(2 * r * (sum_prev + x) == 2 * r * sum_prev + 2 * r * x) by (nonlinear_arith);
        assert(2 * r * x <= r * r + x * x) by (nonlinear_arith);
        assert(k * (r * r) == (k - 1) * (r * r) + r * r) by (nonlinear_arith);
        assert(2 * r * spec_sum_ratings(s, k) == 2 * r * sum_prev + 2 * r * x);
        assert(2 * r * sum_prev <= (k - 1) * (r * r) + sq_prev);
        assert(2 * r * spec_sum_ratings(s, k) <= (k - 1) * (r * r) + sq_prev + r * r + x * x);
        assert(2 * r * spec_sum_ratings(s, k) <= k * (r * r) + spec_sumsq_ratings(s, k))
            by (nonlinear_arith)
            requires
                2 * r * spec_sum_ratings(s, k) <= (k - 1) * (r * r) + sq_prev + r * r + x * x,
                spec_sumsq_ratings(s, k) == sq_prev + x * x,
        ;
    } else {
        assert(spec_sum_ratings(s, k) == 0 && spec_sumsq_ratings(s, k) == 0);
        assert(2 * r * spec_sum_ratings(s, k) == 0 && k * (r * r) == 0) by (nonlinear_arith)
            requires
                k == 0,
                spec_sum_ratings(s, k) == 0,
        ;
    }
}

/// The population variance term of the retention criterion is never
/// negative: `k * Q >= S^2` for any prefix of the ratings.  This is what
/// makes the squared criterion an exact rendering of `rating > 2 * sigma`.
pub proof fn lemma_variance_term_nonneg(
    s: Seq<((i32, i32), (int, Seq<i64>, Seq<i32>))>,
    k: int,
)
    requires
        0 <= k <= s.len(),
    ensures
        k * spec_sumsq_ratings(s, k) >= spec_sum_ratings(s, k) * spec_sum_ratings(s, k),
    decreases k,
{
    if k > 0 {
        lemma_variance_term_nonneg(s, k - 1);
        let r = spec_edge_rating(s[k - 1]);
        lemma_cross_bound(s, k - 1, r);
        let sum_prev = spec_sum_ratings(s, k - 1);
        let sq_prev = spec_sumsq_ratings(s, k - 1);
        assert((sum_prev + r) * (sum_prev + r) == sum_prev * sum_prev + 2 * r * sum_prev + r * r)
            by (nonlinear_arith);
        assert(k * (sq_prev + r * r) == (k - 1) * sq_prev + (k - 1) * (r * r) + sq_prev + r * r)
            by (nonlinear_arith);
    }
}

/// The adjacency graph extended by one retained edge: a fresh source is
/// appended with a single successor; an existing source keeps its place and
/// the successor is appended to its list.
pub open spec fn spec_graph_insert(g: Seq<(i32, Seq<i32>)>, from: i32, to: i32) -> Seq<
    (i32, Seq<i32>),
> {
    if seq_has_key(g, from) {
        let j = seq_find_idx(g, from);
        g.update(j, (from, g[j].1.push(to)))
    } else {
        g.push((from, seq![to]))
    }
}

/// The adjacency graph built from the retained ones among the first `k`
/// accumulated edges.
pub open spec fn spec_finalise_upto(
    s: Seq<((i32, i32), (int, Seq<i64>, Seq<i32>))>,
    k: int,
) -> Seq<(i32, Seq<i32>)>
    decreases k,
{
    if k <= 0 {
        Seq::empty()
    } else {
        let prev = spec_finalise_upto(s, k - 1);
        if spec_retained(
            spec_edge_rating(s[k - 1]),
            s.len() as int,
            spec_sum_ratings(s, s.len() as int),
            spec_sumsq_ratings(s, s.len() as int),
        ) {
            spec_graph_insert(prev, s[k - 1].0.0, s[k - 1].0.1)
        } else {
            prev
        }
    }
}

/// The adjacency graph of the whole accumulator table: each edge is scored,
/// and an edge is retained exactly when its rating exceeds twice the
/// population standard deviation of all ratings (including its own).
pub open spec fn spec_finalise(s: Seq<((i32, i32), (int, Seq<i64>, Seq<i32>))>) -> Seq<
    (i32, Seq<i32>),
> {
    spec_finalise_upto(s, s.len() as int)
}

/// Bounds of one edge rating under the input bounds of `rate`.
proof fn lemma_rate_bounds(count: int, times: Seq<i64>)
    requires
        1 <= count <= MAX_SAMPLES as int,
        1 <= times.len() <= MAX_SAMPLES as int,
        forall|k: int| 0 <= k < times.len() ==> 0 <= #[trigger] times[k] <= MAX_TIME_SAMPLE,
    ensures
        10_000 <= spec_rate(count, times) <= RATING_BOUND,
{
    let dev = spec_sum(times) - (crate::types::EXPECTED_TRAVEL_TIME as int) * times.len();
    let dev_abs = if dev >= 0 {
        dev
    } else {
        -dev
    };
    lemma_exp_decay_bounds(dev_abs, times.len() as int);
}

/// Append one retained edge to the adjacency graph under construction.
fn graph_insert(graph: &mut Vec<(i32, Vec<i32>)>, from: i32, to: i32)
    ensures
        graph_view(final(graph)@) == spec_graph_insert(graph_view(old(graph)@), from, to),
{
    let ghost gv = graph_view(graph@);
    proof {
        lemma_seq_find_idx(gv, from);
    }
    let mut i: usize = 0;
    while i < graph.len()
        invariant
            i <= graph@.len(),
            *graph == *old(graph),
            gv == graph_view(graph@),
            forall|k: int| 0 <= k < i ==> (#[trigger] graph@[k]).0 != from,
        decreases graph@.len() - i,
    {
        if graph[i].0 == from {
            proof {
                assert(gv[i as int].0 == from);
                assert(forall|k: int| 0 <= k < i ==> (#[trigger] gv[k]).0 != from);
                lemma_find_at_graph(gv, from, i as int);
            }
            let e = &mut graph[i];
            e.1.push(to);
            proof {
                assert(graph_view(graph@) =~~= spec_graph_insert(gv, from, to));
            }
            return ;
        }
        i = i + 1;
    }
    let mut tos: Vec<i32> = Vec::new();
    tos.push(to);
    graph.push((from, tos));
    proof {
        assert(forall|k: int| 0 <= k < gv.len() ==> (#[trigger] gv[k]).0 != from);
        lemma_seq_find_idx(gv, from);
        assert(!seq_has_key(gv, from));
        assert(graph_view(graph@) =~~= spec_graph_insert(gv, from, to));
    }
}

/// When the entries before `i` miss the key and entry `i` carries it, the
/// first occurrence is exactly `i`.
proof fn lemma_find_at_graph(s: Seq<(i32, Seq<i32>)>, key: i32, i: int)
    requires
        0 <= i < s.len(),
        s[i].0 == key,
        forall|k: int| 0 <= k < i ==> (#[trigger] s[k]).0 != key,
    ensures
        seq_find_idx(s, key) == i,
        seq_has_key(s, key),
{
    lemma_seq_find_idx(s, key);
    let j = seq_find_idx(s, key);
    if j < i {
        assert(s[j].0 != key);
    }
    if j > i {
        assert(s[i].0 != key);
    }
}

/// Score every accumulated edge and retain exactly those whose rating
/// exceeds twice the population standard deviation of all ratings, grouped
/// by source reporting point into the adjacency graph.
pub fn finalise(rated_graph: &EdgeTable) -> (g: Vec<(i32, Vec<i32>)>)
    requires
        rated_graph.wf(),
        rated_graph.edges@.len() <= MAX_SAMPLES,
        forall|i: int|
            0 <= i < rated_graph.edges@.len() ==> (#[trigger] rated_graph.edges@[i]).1.times@.len()
                <= MAX_SAMPLES,
    ensures
        graph_view(g@) == spec_finalise(table_view(rated_graph.edges@)),
{
    let ghost tv = table_view(rated_graph.edges@);
    let n = rated_graph.edges.len();

    let mut ratings: Vec<i64> = Vec::new();
    let mut k: usize = 0;
    while k < n
        invariant
            k <= n,
            n == rated_graph.edges@.len(),
            rated_graph.wf(),
            n <= MAX_SAMPLES,
            forall|i: int|
                0 <= i < rated_graph.edges@.len() ==> (
                #[trigger] rated_graph.edges@[i]).1.times@.len() <= MAX_SAMPLES,
            tv == table_view(rated_graph.edges@),
            ratings@.len() == k,
            forall|j: int|
                0 <= j < k ==> #[trigger] ratings@[j] == spec_edge_rating(tv[j]) && 10_000
                    <= ratings@[j] <= RATING_BOUND,
        decreases n - k,
    {
        let e = &rated_graph.edges[k];
        proof {
            assert(edge_wf(rated_graph.edges@[k as int].0, edge_view(
                rated_graph.edges@[k as int].1,
            )));
            lemma_rate_bounds(e.1.count as int, e.1.times@);
        }
        let r = rate(e.1.count, &e.1.times);
        ratings.push(r);
        k = k + 1;
    }

    let mut s1: i128 = 0;
    let mut s2: i128 = 0;
    let mut k2: usize = 0;
    while k2 < n
        invariant
            k2 <= n,
            n <= MAX_SAMPLES,
            n == rated_graph.edges@.len(),
            tv == table_view(rated_graph.edges@),
            tv.len() == n,
            ratings@.len() == n,
            forall|j: int|
                0 <= j < n ==> #[trigger] ratings@[j] == spec_edge_rating(tv[j]) && 10_000
                    <= ratings@[j] <= RATING_BOUND,
            s1 == spec_sum_ratings(tv, k2 as int),
            s2 == spec_sumsq_ratings(tv, k2 as int),
            0 <= s1 <= k2 * (RATING_BOUND as int),
            0 <= s2 <= k2 * ((RATING_BOUND as int) * (RATING_BOUND as int)),
        decreases n - k2,
    {
        let r: i128 = ratings[k2] as i128;
        proof {
            assert(tv.len() == n);
            assert(r * r <= (RATING_BOUND as int) * (RATING_BOUND as int) && r * r >= 0)
                by (nonlinear_arith)
                requires
                    0 <= r <= RATING_BOUND as int,
            ;
            assert(k2 * (RATING_BOUND as int) + RATING_BOUND <= (k2 + 1) * (RATING_BOUND as int))
                by (nonlinear_arith);
            assert(k2 * ((RATING_BOUND as int) * (RATING_BOUND as int)) + (RATING_BOUND as int) * (
            RATING_BOUND as int) == (k2 + 1) * ((RATING_BOUND as int) * (RATING_BOUND as int)))
                by (nonlinear_arith);
            assert((MAX_SAMPLES as int) * (RATING_BOUND as int) < 0x1000000000000000000000000int
                && (MAX_SAMPLES as int) * ((RATING_BOUND as int) * (RATING_BOUND as int))
                < 0x1000000000000000000000000000000int) by (nonlinear_arith)
                requires
                    MAX_SAMPLES as int == 0x10_0000int,
                    RATING_BOUND as int == 30_000_000_000int,
            ;
            assert(k2 * (RATING_BOUND as int) <= (MAX_SAMPLES as int) * (RATING_BOUND as int))
                by (nonlinear_arith)
                requires
                    0 <= k2 <= MAX_SAMPLES as int,
            ;
            assert(k2 * ((RATING_BOUND as int) * (RATING_BOUND as int)) <= (MAX_SAMPLES as int) * (
            (RATING_BOUND as int) * (RATING_BOUND as int))) by (nonlinear_arith)
                requires
                    0 <= k2 <= MAX_SAMPLES as int,
            ;
        }
        s1 = s1 + r;
        s2 = s2 + r * r;
        k2 = k2 + 1;
    }

    let mut graph: Vec<(i32, Vec<i32>)> = Vec::new();
    let mut k3: usize = 0;
    while k3 < n
        invariant
            k3 <= n,
            n == rated_graph.edges@.len(),
            n <= MAX_SAMPLES,
            tv == table_view(rated_graph.edges@),
            ratings@.len() == n,
            forall|j: int|
                0 <= j < n ==> #[trigger] ratings@[j] == spec_edge_rating(tv[j]) && 10_000
                    <= ratings@[j] <= RATING_BOUND,
            s1 == spec_sum_ratings(tv, n as int),
            s2 == spec_sumsq_ratings(tv, n as int),
            0 <= s1 <= n * (RATING_BOUND as int),
            0 <= s2 <= n * ((RATING_BOUND as int) * (RATING_BOUND as int)),
            graph_view(graph@) == spec_finalise_upto(tv, k3 as int),
        decreases n - k3,
    {
        let r: i128 = ratings[k3] as i128;
        let nn: i128 = n as i128;
        proof {
            let rb = RATING_BOUND as int;
            let ms = MAX_SAMPLES as int;
            assert(0 <= nn * r <= ms * rb && (nn * r) * (nn * r) <= (ms * rb) * (ms * rb))
                by (nonlinear_arith)
                requires
                    0 <= r <= rb,
                    0 <= nn <= ms,
            ;
            assert(0 <= nn * s2 <= ms * (ms * (rb * rb))) by (nonlinear_arith)
                requires
                    0 <= s2 <= nn * (rb * rb),
                    0 <= nn <= ms,
            ;
            assert(0 <= s1 * s1 <= (ms * rb) * (ms * rb)) by (nonlinear_arith)
                requires
                    0 <= s1 <= nn * rb,
                    0 <= nn <= ms,
            ;
            assert((ms * rb) * (ms * rb) < 0x10000000000000000000000000000000int)
                by (nonlinear_arith)
                requires
                    ms == 0x10_0000int,
                    rb == 30_000_000_000int,
            ;
            assert(ms * (ms * (rb * rb)) < 0x10000000000000000000000000000000int)
                by (nonlinear_arith)
                requires
                    ms == 0x10_0000int,
                    rb == 30_000_000_000int,
            ;
        }
        let lhs: i128 = (nn * r) * (nn * r);
        let rhs: i128 = 4 * (nn * s2 - s1 * s1);
        if lhs > rhs {
            let from = rated_graph.edges[k3].0.0;
            let to = rated_graph.edges[k3].0.1;
            proof {
                assert(tv[k3 as int].0 == rated_graph.edges@[k3 as int].0);
            }
            graph_insert(&mut graph, from, to);
        }
        k3 = k3 + 1;
    }
    graph
}


/// Squared planar distance between two fixed-point coordinates.
pub open spec fn dist_sq(a: Coordinate, b: Coordinate) -> int {
    (a.0 - b.0) * (a.0 - b.0) + (a.1 - b.1) * (a.1 - b.1)
}

/// Both axes of a coordinate lie in the accepted range.
pub open spec fn coordinate_wf(c: Coordinate) -> bool {
    crate::types::coord_in_range(c.0 as int) && crate::types::coord_in_range(c.1 as int)
}

/// Every vertex of a geometry segment lies in the accepted range.
pub open spec fn segment_wf(seg: Seq<Coordinate>) -> bool {
    forall|i: int| 0 <= i < seg.len() ==> coordinate_wf(#[trigger] seg[i])
}

/// Compute the squared distance in executable arithmetic.
fn dist_sq_exec(a: &Coordinate, b: &Coordinate) -> (r: u128)
    requires
        coordinate_wf(*a),
        coordinate_wf(*b),
    ensures
        r == dist_sq(*a, *b),
        r <= 8_000_000_000_000_000_000_000_000,
{
    let dx: i128 = a.0 as i128 - b.0 as i128;
    let dy: i128 = a.1 as i128 - b.1 as i128;
    proof {
        let lim = 2 * crate::types::COORD_LIMIT as int;
        assert(dx * dx >= 0 && dx * dx <= lim * lim && dy * dy >= 0 && dy * dy <= lim * lim
            && lim * lim == 4_000_000_000_000_000_000_000_000) by (nonlinear_arith)
            requires
                -lim <= dx <= lim,
                -lim <= dy <= lim,
                lim == 2_000_000_000_000int,
        ;
    }
    (dx * dx + dy * dy) as u128
}

/// Integer square root, defined by counting up: the largest `r` with
/// `r * r <= x`.
pub open spec fn spec_isqrt(x: nat) -> nat
    decreases x,
{
    if x == 0 {
        0
    } else {
        let r = spec_isqrt((x - 1) as nat);
        if (r + 1) * (r + 1) <= x {
            r + 1
        } else {
            r
        }
    }
}

/// The defining property of the integer square root.
pub proof fn lemma_isqrt_bounds(x: nat)
    ensures
        spec_isqrt(x) * spec_isqrt(x) <= x,
        x < (spec_isqrt(x) + 1) * (spec_isqrt(x) + 1),
        spec_isqrt(x) <= x,
    decreases x,
{
    let s0 = spec_isqrt(x);
    vstd::arithmetic::mul::lemma_mul_nonnegative(s0 as int, s0 as int);
    vstd::arithmetic::mul::lemma_mul_nonnegative(s0 as int + 1, s0 as int + 1);
    if x == 0 {
        assert(spec_isqrt(x) == 0);
        assert(s0 * s0 == 0 && (s0 + 1) * (s0 + 1) == 1) by (nonlinear_arith)
            requires
                s0 == 0,
        ;
    } else {
        lemma_isqrt_bounds((x - 1) as nat);
        let r = spec_isqrt((x - 1) as nat);
        vstd::arithmetic::mul::lemma_mul_nonnegative(r as int + 1, r as int + 1);
        vstd::arithmetic::mul::lemma_mul_nonnegative(r as int, r as int);
        if (r + 1) * (r + 1) <= x {
            assert(spec_isqrt(x) == r + 1);
            assert(x < (r + 2) * (r + 2)) by (nonlinear_arith)
                requires
                    0 <= r,
                    x <= (r + 1) * (r + 1),
            ;
        } else {
            assert(spec_isqrt(x) == r);
            assert(r * r <= x - 1 <= x);
        }
        assert(s0 * s0 <= x);
        assert(x < (s0 + 1) * (s0 + 1));
    }
}

/// Any value bracketing `x` the way the integer square root does is the
/// integer square root.
pub proof fn lemma_isqrt_unique(x: nat, r: nat)
    requires
        r * r <= x,
        x < (r + 1) * (r + 1),
    ensures
        r == spec_isqrt(x),
{
    lemma_isqrt_bounds(x);
    let s = spec_isqrt(x);
    vstd::arithmetic::mul::lemma_mul_nonnegative(s as int, s as int);
    vstd::arithmetic::mul::lemma_mul_nonnegative(r as int, r as int);
    if r < s {
        assert((r + 1) * (r + 1) <= s * s) by (nonlinear_arith)
            requires
                r + 1 <= s,
        ;
    }
    if s < r {
        assert((s + 1) * (s + 1) <= r * r) by (nonlinear_arith)
            requires
                s + 1 <= r,
        ;
    }
}

/// Compute the integer square root by binary search.
fn isqrt(x: u128) -> (r: u64)
    requires
        x < 0x1000000000000000000000000000000,
    ensures
        r == spec_isqrt(x as nat),
{
    let mut lo: u64 = 0;
    let mut hi: u64 = 0x1000_0000_0000_0000;
    proof {
        assert((hi as int) * (hi as int) == 0x1000000000000000000000000000000int)
            by (nonlinear_arith)
            requires
                hi == 0x1000_0000_0000_0000u64,
        ;
    }
    while lo + 1 < hi
        invariant
            lo < hi <= 0x1000_0000_0000_0000u64,
            (lo as int) * (lo as int) <= x as int,
            (x as int) < (hi as int) * (hi as int),
        decreases hi - lo,
    {
        let mid: u64 = lo + (hi - lo) / 2;
        proof {
            assert((mid as int) * (mid as int) <= 0x1000000000000000000000000000000int)
                by (nonlinear_arith)
                requires
                    mid <= 0x1000_0000_0000_0000u64,
        ;
        }
        if (mid as u128) * (mid as u128) <= x {
            lo = mid;
        } else {
            hi = mid;
        }
    }
    proof {
        assert((lo as int + 1) * (lo as int + 1) >= (hi as int) * (hi as int))
            by (nonlinear_arith)
            requires
                lo as int + 1 >= hi as int,
                hi as int >= 1,
        ;
        lemma_isqrt_unique(x as nat, lo as nat);
    }
    lo
}

/// Index of the vertex of `seg` nearest to `c` (by planar distance, ties
/// resolved to the earliest index), or 0 for an empty segment.
pub open spec fn spec_closest_idx(seg: Seq<Coordinate>, c: Coordinate) -> int
    decreases seg.len(),
{
    if seg.len() <= 1 {
        0
    } else {
        let prev = spec_closest_idx(seg.drop_last(), c);
        if dist_sq(seg.last(), c) < dist_sq(seg[prev], c) {
            seg.len() - 1
        } else {
            prev
        }
    }
}

/// Distance from `c` to the nearest vertex of `seg`, rounded down to whole
/// coordinate units; the no-vertex sentinel is the largest machine value, so
/// an empty segment can never win a comparison.
pub open spec fn spec_closest_dist(seg: Seq<Coordinate>, c: Coordinate) -> int {
    if seg.len() == 0 {
        u64::MAX as int
    } else {
        spec_isqrt(dist_sq(seg[spec_closest_idx(seg, c)], c) as nat) as int
    }
}

/// The nearest index lies inside the segment and no vertex is nearer.
pub proof fn lemma_closest_idx_props(seg: Seq<Coordinate>, c: Coordinate)
    requires
        seg.len() > 0,
    ensures
        0 <= spec_closest_idx(seg, c) < seg.len(),
        forall|j: int|
            0 <= j < seg.len() ==> dist_sq(seg[spec_closest_idx(seg, c)], c) <= dist_sq(
                #[trigger] seg[j],
                c,
            ),
    decreases seg.len(),
{
    if seg.len() > 1 {
        lemma_closest_idx_props(seg.drop_last(), c);
        assert forall|j: int|
            0 <= j < seg.len() implies dist_sq(seg[spec_closest_idx(seg, c)], c) <= dist_sq(
            #[trigger] seg[j],
            c,
        ) by {
            if j < seg.len() - 1 {
                assert(seg.drop_last()[j] == seg[j]);
                let p = spec_closest_idx(seg.drop_last(), c);
                assert(dist_sq(seg.drop_last()[p], c) <= dist_sq(seg.drop_last()[j], c));
            }
        }
    }
}

/// Scan a geometry segment for the vertex nearest to a coordinate: the index
/// of the first vertex at minimum planar distance, and that distance rounded
/// down to whole coordinate units (the largest machine value for an empty
/// segment).
pub fn find_closest_on_track(segment: &Vec<Coordinate>, coordinate: &Coordinate) -> (r: (
    usize,
    u64,
))
    requires
        segment_wf(segment@),
        coordinate_wf(*coordinate),
    ensures
        r.0 == spec_closest_idx(segment@, *coordinate),
        r.1 == spec_closest_dist(segment@, *coordinate),
{
    if segment.len() == 0 {
        return (0, u64::MAX);
    }
    let mut best_i: usize = 0;
    let mut best_sq: u128 = dist_sq_exec(&segment[0], coordinate);
    let mut i: usize = 1;
    assert(segment@.take(1).drop_last() =~= Seq::<Coordinate>::empty());
    while i < segment.len()
        invariant
            1 <= i <= segment@.len(),
            segment_wf(segment@),
            coordinate_wf(*coordinate),
            best_i == spec_closest_idx(segment@.take(i as int), *coordinate),
            best_i < i,
            best_sq == dist_sq(segment@[best_i as int], *coordinate),
            best_sq <= 8_000_000_000_000_000_000_000_000,
        decreases segment@.len() - i,
    {
        let d = dist_sq_exec(&segment[i], coordinate);
        proof {
            assert(segment@.take(i + 1).drop_last() =~= segment@.take(i as int));
            assert(segment@.take(i + 1).last() == segment@[i as int]);
            let p = spec_closest_idx(segment@.take(i as int), *coordinate);
            assert(segment@.take(i + 1)[p] == segment@[p]);
        }
        if d < best_sq {
            best_i = i;
            best_sq = d;
        }
        i = i + 1;
    }
    assert(segment@.take(segment@.len() as int) =~= segment@);
    let d = isqrt(best_sq);
    (best_i, d)
}


/// Every vertex of every segment of every line geometry lies in range.
pub open spec fn geoms_wf(geoms: Seq<(i32, Vec<Vec<Coordinate>>)>) -> bool {
    forall|i: int, j: int|
        0 <= i < geoms.len() && 0 <= j < geoms[i].1@.len() ==> segment_wf(
            #[trigger] geoms[i].1@[j]@,
        )
}

/// Best snapping candidate among the first `n` segments of one line's
/// geometry: the segment index, the vertex nearest the previous coordinate,
/// the vertex nearest the next coordinate, and the summed distance.  A
/// candidate is valid only when the previous-match index strictly precedes
/// the next-match index; of equally good candidates the earliest segment
/// wins.
pub open spec fn spec_best_in_segments(
    segs: Seq<Vec<Coordinate>>,
    prev: Coordinate,
    next: Coordinate,
    n: int,
) -> Option<(int, int, int, int)>
    decreases n,
{
    if n <= 0 {
        None
    } else {
        let best = spec_best_in_segments(segs, prev, next, n - 1);
        let seg = segs[n - 1]@;
        let si = spec_closest_idx(seg, prev);
        let sd = spec_closest_dist(seg, prev);
        let ei = spec_closest_idx(seg, next);
        let ed = spec_closest_dist(seg, next);
        if si < ei && (best is None || sd + ed < best.unwrap().3) {
            Some((n - 1, si, ei, sd + ed))
        } else {
            best
        }
    }
}

/// Best snapping candidate across the first `n` candidate lines: the
/// position of the line in the candidate list, the geometry entry, segment
/// and vertex interval, and the summed distance.  Lines without a geometry
/// yield no candidates; of equally good candidates the earliest line wins.
pub open spec fn spec_best_track(
    lines: Seq<i32>,
    geoms: Seq<(i32, Vec<Vec<Coordinate>>)>,
    prev: Coordinate,
    next: Coordinate,
    n: int,
) -> Option<(int, int, int, int, int)>
    decreases n,
{
    if n <= 0 {
        None
    } else {
        let best = spec_best_track(lines, geoms, prev, next, n - 1);
        if !seq_has_key(geoms, lines[n - 1]) {
            best
        } else {
            let segs = geoms[seq_find_idx(geoms, lines[n - 1])].1;
            match spec_best_in_segments(segs@, prev, next, segs@.len() as int) {
                Some(c) => {
                    if best is None || c.3 < best.unwrap().4 {
                        Some((n - 1, c.0, c.1, c.2, c.3))
                    } else {
                        best
                    }
                },
                None => best,
            }
        }
    }
}

/// The snapped path for one edge: the vertex sub-sequence (both matched
/// vertices included) of the best candidate, or empty when no candidate is
/// valid.
pub open spec fn spec_ideal_track(
    lines: Seq<i32>,
    geoms: Seq<(i32, Vec<Vec<Coordinate>>)>,
    prev: Coordinate,
    next: Coordinate,
) -> Seq<Coordinate> {
    match spec_best_track(lines, geoms, prev, next, lines.len() as int) {
        Some(b) => geoms[seq_find_idx(geoms, lines[b.0])].1@[b.1]@.subrange(b.2, b.3 + 1),
        None => Seq::empty(),
    }
}

/// A best segment candidate points at a real segment and a proper vertex
/// interval inside it.
proof fn lemma_best_in_segments_props(
    segs: Seq<Vec<Coordinate>>,
    prev: Coordinate,
    next: Coordinate,
    n: int,
)
    requires
        n <= segs.len(),
        (spec_best_in_segments(segs, prev, next, n) is Some),
    ensures
        ({
            let c = spec_best_in_segments(segs, prev, next, n).unwrap();
            &&& 0 <= c.0 < n
            &&& 0 <= c.1 < c.2 < segs[c.0]@.len()
            &&& 0 <= c.3
        }),
    decreases n,
{
    let best = spec_best_in_segments(segs, prev, next, n - 1);
    let seg = segs[n - 1]@;
    let si = spec_closest_idx(seg, prev);
    let sd = spec_closest_dist(seg, prev);
    let ei = spec_closest_idx(seg, next);
    let ed = spec_closest_dist(seg, next);
    if si < ei && (best is None || sd + ed < best.unwrap().3) {
        if seg.len() == 0 {
            assert(si == 0 && ei == 0);
        }
        lemma_closest_idx_props(seg, prev);
        lemma_closest_idx_props(seg, next);
        assert(sd >= 0 && ed >= 0) by {
            if seg.len() > 0 {
                lemma_isqrt_bounds(dist_sq(seg[spec_closest_idx(seg, prev)], prev) as nat);
                lemma_isqrt_bounds(dist_sq(seg[spec_closest_idx(seg, next)], next) as nat);
            }
        }
    } else {
        lemma_best_in_segments_props(segs, prev, next, n - 1);
    }
}

/// A best track candidate points at a present geometry, a real segment of
/// it and a proper vertex interval.
proof fn lemma_best_track_props(
    lines: Seq<i32>,
    geoms: Seq<(i32, Vec<Vec<Coordinate>>)>,
    prev: Coordinate,
    next: Coordinate,
    n: int,
)
    requires
        n <= lines.len(),
        (spec_best_track(lines, geoms, prev, next, n) is Some),
    ensures
        ({
            let b = spec_best_track(lines, geoms, prev, next, n).unwrap();
            &&& 0 <= b.0 < n
            &&& seq_has_key(geoms, lines[b.0])
            &&& 0 <= b.1 < geoms[seq_find_idx(geoms, lines[b.0])].1@.len()
            &&& 0 <= b.2 < b.3 < geoms[seq_find_idx(geoms, lines[b.0])].1@[b.1]@.len()
        }),
    decreases n,
{
    let best = spec_best_track(lines, geoms, prev, next, n - 1);
    if !seq_has_key(geoms, lines[n - 1]) {
        lemma_best_track_props(lines, geoms, prev, next, n - 1);
    } else {
        let segs = geoms[seq_find_idx(geoms, lines[n - 1])].1;
        match spec_best_in_segments(segs@, prev, next, segs@.len() as int) {
            Some(c) => {
                if best is None || c.3 < best.unwrap().4 {
                    lemma_best_in_segments_props(segs@, prev, next, segs@.len() as int);
                } else {
                    lemma_best_track_props(lines, geoms, prev, next, n - 1);
                }
            },
            None => {
                lemma_best_track_props(lines, geoms, prev, next, n - 1);
            },
        }
    }
}

/// Look up one line's geometry by line id.
fn find_geom(geoms: &Vec<(i32, Vec<Vec<Coordinate>>)>, line: i32) -> (r: Option<usize>)
    ensures
        (r is Some <==> seq_has_key(geoms@, line)),
        r is Some ==> r.unwrap() as int == seq_find_idx(geoms@, line),
{
    proof {
        lemma_seq_find_idx(geoms@, line);
    }
    let mut i: usize = 0;
    while i < geoms.len()
        invariant
            i <= geoms@.len(),
            forall|k: int| 0 <= k < i ==> (#[trigger] geoms@[k]).0 != line,
        decreases geoms@.len() - i,
    {
        if geoms[i].0 == line {
            proof {
                lemma_find_at_geoms(geoms@, line, i as int);
            }
            return Some(i);
        }
        i = i + 1;
    }
    None
}

/// When the entries before `i` miss the key and entry `i` carries it, the
/// first occurrence is exactly `i`.
proof fn lemma_find_at_geoms(s: Seq<(i32, Vec<Vec<Coordinate>>)>, key: i32, i: int)
    requires
        0 <= i < s.len(),
        s[i].0 == key,
        forall|k: int| 0 <= k < i ==> (#[trigger] s[k]).0 != key,
    ensures
        seq_find_idx(s, key) == i,
        seq_has_key(s, key),
{
    lemma_seq_find_idx(s, key);
    let j = seq_find_idx(s, key);
    if j < i {
        assert(s[j].0 != key);
    }
    if j > i {
        assert(s[i].0 != key);
    }
}

/// Snap one edge onto the supplied line geometries: over every candidate
/// line and every segment of its geometry, match the vertex nearest each
/// edge endpoint; among the candidates whose previous-match strictly
/// precedes their next-match, pick the one with the least summed distance
/// (earliest line, then earliest segment, on ties) and hand back the vertex
/// run between the two matches, both included.  No valid candidate yields an
/// empty path.
pub fn find_ideal_track(
    lines: &Vec<i32>,
    line_coordinates: &Vec<(i32, Vec<Vec<Coordinate>>)>,
    previous_coords: &Coordinate,
    next_coords: &Coordinate,
) -> (r: Vec<Coordinate>)
    requires
        geoms_wf(line_coordinates@),
        coordinate_wf(*previous_coords),
        coordinate_wf(*next_coords),
    ensures
        r@ == spec_ideal_track(lines@, line_coordinates@, *previous_coords, *next_coords),
{
    let ghost gv = line_coordinates@;
    let mut best: Option<(usize, usize, usize, usize, usize, u128)> = None;
    let mut li: usize = 0;
    while li < lines.len()
        invariant
            li <= lines@.len(),
            gv == line_coordinates@,
            geoms_wf(gv),
            coordinate_wf(*previous_coords),
            coordinate_wf(*next_coords),
            (match best {
                Some(b) => spec_best_track(lines@, gv, *previous_coords, *next_coords, li as int)
                    == Some((b.0 as int, b.2 as int, b.3 as int, b.4 as int, b.5 as int))
                    && b.0 < li && seq_has_key(gv, lines@[b.0 as int]) && b.1 as int
                    == seq_find_idx(gv, lines@[b.0 as int]),
                None => spec_best_track(
                    lines@,
                    gv,
                    *previous_coords,
                    *next_coords,
                    li as int,
                ) is None,
            }),
        decreases lines@.len() - li,
    {
        let ghost pre_best = spec_best_track(
            lines@,
            gv,
            *previous_coords,
            *next_coords,
            li as int,
        );
        let line = lines[li];
        match find_geom(line_coordinates, line) {
            None => {
                proof {
                    assert(!seq_has_key(gv, lines@[li as int]));
                    assert(spec_best_track(
                        lines@,
                        gv,
                        *previous_coords,
                        *next_coords,
                        li as int + 1,
                    ) == pre_best);
                }
            },
            Some(g) => {
                proof {
                    lemma_seq_find_idx(gv, lines@[li as int]);
                    assert(g < line_coordinates@.len());
                }
                let segs = &line_coordinates[g].1;
                let mut sbest: Option<(usize, usize, usize, u128)> = None;
                let mut sj: usize = 0;
                while sj < segs.len()
                    invariant
                        sj <= segs@.len(),
                        segs@ == gv[g as int].1@,
                        0 <= g < gv.len(),
                        seq_has_key(gv, lines@[li as int]),
                        g as int == seq_find_idx(gv, lines@[li as int]),
                        li < lines@.len(),
                        geoms_wf(gv),
                        coordinate_wf(*previous_coords),
                        coordinate_wf(*next_coords),
                        (match sbest {
                            Some(c) => spec_best_in_segments(
                                segs@,
                                *previous_coords,
                                *next_coords,
                                sj as int,
                            ) == Some((c.0 as int, c.1 as int, c.2 as int, c.3 as int)),
                            None => spec_best_in_segments(
                                segs@,
                                *previous_coords,
                                *next_coords,
                                sj as int,
                            ) is None,
                        }),
                    decreases segs@.len() - sj,
                {
                    proof {
                        assert(segment_wf(gv[g as int].1@[sj as int]@));
                    }
                    let (start_index, start_distance) = find_closest_on_track(
                        &segs[sj],
                        previous_coords,
                    );
                    let (end_index, end_distance) = find_closest_on_track(&segs[sj], next_coords);
                    let sum: u128 = start_distance as u128 + end_distance as u128;
                    let better = match sbest {
                        Some(c) => sum < c.3,
                        None => true,
                    };
                    if start_index < end_index && better {
                        sbest = Some((sj, start_index, end_index, sum));
                    }
                    sj = sj + 1;
                }
                proof {
                    assert(g as int == seq_find_idx(gv, lines@[li as int]));
                    assert(segs@ == gv[seq_find_idx(gv, lines@[li as int])].1@);
                }
                match sbest {
                    Some(c) => {
                        let better = match best {
                            Some(b) => c.3 < b.5,
                            None => true,
                        };
                        if better {
                            best = Some((li, g, c.0, c.1, c.2, c.3));
                            proof {
                                assert(spec_best_track(
                                    lines@,
                                    gv,
                                    *previous_coords,
                                    *next_coords,
                                    li as int + 1,
                                ) == Some(
                                    (li as int, c.0 as int, c.1 as int, c.2 as int, c.3 as int),
                                ));
                            }
                        } else {
                            proof {
                                assert(spec_best_track(
                                    lines@,
                                    gv,
                                    *previous_coords,
                                    *next_coords,
                                    li as int + 1,
                                ) == pre_best);
                            }
                        }
                    },
                    None => {
                        proof {
                            assert(spec_best_track(
                                lines@,
                                gv,
                                *previous_coords,
                                *next_coords,
                                li as int + 1,
                            ) == pre_best);
                        }
                    },
                }
            },
        }
        li = li + 1;
    }
    match best {
        None => Vec::new(),
        Some(b) => {
            proof {
                lemma_best_track_props(
                    lines@,
                    gv,
                    *previous_coords,
                    *next_coords,
                    lines@.len() as int,
                );
                lemma_seq_find_idx(gv, lines@[b.0 as int]);
                assert(b.1 < line_coordinates@.len());
                assert(b.2 < line_coordinates@[b.1 as int].1@.len());
                assert(b.3 < b.4 < line_coordinates@[b.1 as int].1@[b.2 as int]@.len());
            }
            let seg = &line_coordinates[b.1].1[b.2];
            let seg_len = seg.len();
            let mut out: Vec<Coordinate> = Vec::new();
            let mut k: usize = b.3;
            assert(seg@.subrange(b.3 as int, b.3 as int) =~= Seq::<Coordinate>::empty());
            while k <= b.4
                invariant
                    b.3 <= k <= b.4 + 1,
                    b.4 < seg_len,
                    seg_len == seg@.len(),
                    seg@ == gv[b.1 as int].1@[b.2 as int]@,
                    b.1 < gv.len(),
                    b.2 < gv[b.1 as int].1@.len(),
                    out@ == seg@.subrange(b.3 as int, k as int),
                decreases b.4 + 1 - k,
            {
                out.push(seg[k]);
                proof {
                    assert(seg@.subrange(b.3 as int, k + 1) =~= seg@.subrange(
                        b.3 as int,
                        k as int,
                    ).push(seg@[k as int]));
                }
                k = k + 1;
            }
            out
        },
    }
}

/// Percentage position of index `i` along a path of `len` points.
pub open spec fn spec_percent(i: int, len: int) -> int {
    (100 * i) / len
}

/// Re-index a path: every point keyed by its integer percentage position
/// (0 to 100) along the sequence, in order.
pub fn convert_list(vec_data: &Vec<Coordinate>) -> (r: Vec<(i32, Coordinate)>)
    ensures
        r@.len() == vec_data@.len(),
        forall|i: int|
            0 <= i < vec_data@.len() ==> #[trigger] r@[i] == (
            spec_percent(i, vec_data@.len() as int) as i32, vec_data@[i]),
{
    let mut out: Vec<(i32, Coordinate)> = Vec::new();
    let n = vec_data.len();
    let mut i: usize = 0;
    while i < n
        invariant
            i <= n,
            n == vec_data@.len(),
            out@.len() == i,
            forall|k: int|
                0 <= k < i ==> #[trigger] out@[k] == (
                spec_percent(k, vec_data@.len() as int) as i32, vec_data@[k]),
        decreases n - i,
    {
        let pct: i32 = ((i as u128) * 100 / (n as u128)) as i32;
        proof {
            vstd::arithmetic::div_mod::lemma_div_pos_is_pos(100 * (i as int), n as int);
            vstd::arithmetic::mul::lemma_mul_inequality(i as int, n as int, 100);
            vstd::arithmetic::div_mod::lemma_div_is_ordered(
                100 * (i as int),
                100 * (n as int),
                n as int,
            );
            assert((100 * (n as int)) / (n as int) == 100) by {
                vstd::arithmetic::div_mod::lemma_div_by_multiple(100, n as int);
            }
        }
        out.push((pct, vec_data[i]));
        i = i + 1;
    }
    out
}


/// One snapped edge of the final output: the successor reporting point, the
/// historical (mean) transit time, and the path re-indexed by percentage
/// position.
#[derive(Clone, Debug, PartialEq, Eq)]
pub struct LineSegment {
    /// Mean of the accumulated transit-time samples, milliseconds.
    pub historical_time: u32,
    /// Reporting point the edge leads to.
    pub next_reporting_point: i32,
    /// Path coordinates keyed by integer percentage position.
    pub positions: Vec<(i32, Coordinate)>,
}

/// Mathematical content of one output segment.
pub open spec fn segment_view(ls: LineSegment) -> (int, i32, Seq<(i32, Coordinate)>) {
    (ls.historical_time as int, ls.next_reporting_point, ls.positions@)
}

/// Mathematical content of the final per-source-point output.
pub open spec fn region_graph_view(g: Seq<(i32, Vec<LineSegment>)>) -> Seq<
    (i32, Seq<(int, i32, Seq<(i32, Coordinate)>)>),
> {
    g.map_values(
        |p: (i32, Vec<LineSegment>)| (p.0, p.1@.map_values(|ls: LineSegment| segment_view(ls))),
    )
}

/// A path re-indexed by percentage position.
pub open spec fn spec_positions(path: Seq<Coordinate>) -> Seq<(i32, Coordinate)> {
    Seq::new(path.len(), |i: int| (spec_percent(i, path.len() as int) as i32, path[i]))
}

/// Mean of the transit-time samples, truncated to whole milliseconds.
pub open spec fn spec_mean_time(times: Seq<i64>) -> int {
    spec_sum(times) / (times.len() as int)
}

/// The output segments of one source reporting point, over the first `n` of
/// its successors: a successor without a coordinate is skipped, one whose
/// edge was never accumulated is skipped, and each remaining successor
/// yields a snapped, percentage-indexed path framed by the two endpoint
/// coordinates.
pub open spec fn spec_segments_for(
    prev: i32,
    prev_c: Coordinate,
    nexts: Seq<i32>,
    n: int,
    table: Seq<((i32, i32), (int, Seq<i64>, Seq<i32>))>,
    stops: Seq<(i32, Coordinate)>,
    geoms: Seq<(i32, Vec<Vec<Coordinate>>)>,
) -> Seq<(int, i32, Seq<(i32, Coordinate)>)>
    decreases n,
{
    if n <= 0 {
        Seq::empty()
    } else {
        let acc = spec_segments_for(prev, prev_c, nexts, n - 1, table, stops, geoms);
        let next = nexts[n - 1];
        if !seq_has_key(stops, next) {
            acc
        } else {
            let next_c = stops[seq_find_idx(stops, next)].1;
            if !seq_has_key(table, (prev, next)) {
                acc
            } else {
                let e = table[seq_find_idx(table, (prev, next))].1;
                let track = spec_ideal_track(e.2, geoms, prev_c, next_c);
                let path = seq![prev_c] + track + seq![next_c];
                acc.push((spec_mean_time(e.1), next, spec_positions(path)))
            }
        }
    }
}

/// The final output over the first `n` adjacency entries: a source point
/// without a coordinate is skipped, and a source point none of whose edges
/// produced a segment appears not at all.
pub open spec fn spec_generate_upto(
    graph: Seq<(i32, Seq<i32>)>,
    n: int,
    table: Seq<((i32, i32), (int, Seq<i64>, Seq<i32>))>,
    stops: Seq<(i32, Coordinate)>,
    geoms: Seq<(i32, Vec<Vec<Coordinate>>)>,
) -> Seq<(i32, Seq<(int, i32, Seq<(i32, Coordinate)>)>)>
    decreases n,
{
    if n <= 0 {
        Seq::empty()
    } else {
        let acc = spec_generate_upto(graph, n - 1, table, stops, geoms);
        let prev = graph[n - 1].0;
        if !seq_has_key(stops, prev) {
            acc
        } else {
            let prev_c = stops[seq_find_idx(stops, prev)].1;
            let segs = spec_segments_for(
                prev,
                prev_c,
                graph[n - 1].1,
                graph[n - 1].1.len() as int,
                table,
                stops,
                geoms,
            );
            if segs.len() == 0 {
                acc
            } else {
                acc.push((prev, segs))
            }
        }
    }
}

/// The final output of the track snapper over the whole adjacency graph.
pub open spec fn spec_generate_positions(
    graph: Seq<(i32, Seq<i32>)>,
    table: Seq<((i32, i32), (int, Seq<i64>, Seq<i32>))>,
    stops: Seq<(i32, Coordinate)>,
    geoms: Seq<(i32, Vec<Vec<Coordinate>>)>,
) -> Seq<(i32, Seq<(int, i32, Seq<(i32, Coordinate)>)>)> {
    spec_generate_upto(graph, graph.len() as int, table, stops, geoms)
}

/// Look up one reporting point's coordinate.
fn find_stop(stops: &Vec<(i32, Coordinate)>, rp: i32) -> (r: Option<Coordinate>)
    ensures
        (r is Some <==> seq_has_key(stops@, rp)),
        r is Some ==> r.unwrap() == stops@[seq_find_idx(stops@, rp)].1,
{
    proof {
        lemma_seq_find_idx(stops@, rp);
    }
    let mut i: usize = 0;
    while i < stops.len()
        invariant
            i <= stops@.len(),
            forall|k: int| 0 <= k < i ==> (#[trigger] stops@[k]).0 != rp,
        decreases stops@.len() - i,
    {
        if stops[i].0 == rp {
            proof {
                lemma_find_at_stops(stops@, rp, i as int);
            }
            return Some(stops[i].1);
        }
        i = i + 1;
    }
    None
}

/// When the entries before `i` miss the key and entry `i` carries it, the
/// first occurrence is exactly `i`.
proof fn lemma_find_at_stops(s: Seq<(i32, Coordinate)>, key: i32, i: int)
    requires
        0 <= i < s.len(),
        s[i].0 == key,
        forall|k: int| 0 <= k < i ==> (#[trigger] s[k]).0 != key,
    ensures
        seq_find_idx(s, key) == i,
        seq_has_key(s, key),
{
    lemma_seq_find_idx(s, key);
    let j = seq_find_idx(s, key);
    if j < i {
        assert(s[j].0 != key);
    }
    if j > i {
        assert(s[i].0 != key);
    }
}

/// Look up one accumulated edge by its ordered key.
fn find_edge(table: &EdgeTable, from: i32, to: i32) -> (r: Option<usize>)
    ensures
        (r is Some <==> seq_has_key(table_view(table.edges@), (from, to))),
        r is Some ==> r.unwrap() as int == seq_find_idx(table_view(table.edges@), (from, to)),
        r is Some ==> r.unwrap() < table.edges@.len(),
{
    let ghost tv = table_view(table.edges@);
    let ghost key = (from, to);
    proof {
        lemma_seq_find_idx(tv, key);
    }
    let mut i: usize = 0;
    while i < table.edges.len()
        invariant
            i <= table.edges@.len(),
            tv == table_view(table.edges@),
            key == (from, to),
            forall|k: int| 0 <= k < i ==> (#[trigger] tv[k]).0 != key,
        decreases table.edges@.len() - i,
    {
        if table.edges[i].0.0 == from && table.edges[i].0.1 == to {
            proof {
                assert(tv[i as int].0 =~= key);
                lemma_find_at_edges(tv, key, i as int);
            }
            return Some(i);
        }
        i = i + 1;
    }
    proof {
        assert forall|k: int| 0 <= k < tv.len() implies (#[trigger] tv[k]).0 != key by {
            assert(tv[k].0 == table.edges@[k].0);
        }
    }
    None
}

/// Mean of the samples in executable arithmetic.
fn mean_time(times: &Vec<i64>) -> (r: u32)
    requires
        1 <= times@.len() <= MAX_SAMPLES,
        forall|k: int| 0 <= k < times@.len() ==> 0 <= #[trigger] times@[k] <= MAX_TIME_SAMPLE,
    ensures
        r as int == spec_mean_time(times@),
{
    proof {
        lemma_sum_bounds(times@);
    }
    let mut total: u64 = 0;
    let mut k: usize = 0;
    assert(times@.take(0) =~= Seq::<i64>::empty());
    while k < times.len()
        invariant
            k <= times@.len(),
            times@.len() <= MAX_SAMPLES,
            forall|j: int| 0 <= j < times@.len() ==> 0 <= #[trigger] times@[j] <= MAX_TIME_SAMPLE,
            total == spec_sum(times@.take(k as int)),
            total <= k * (MAX_TIME_SAMPLE as int),
        decreases times@.len() - k,
    {
        proof {
            assert(times@.take(k + 1).drop_last() =~= times@.take(k as int));
            assert(times@.take(k + 1).last() == times@[k as int]);
            assert(k * (MAX_TIME_SAMPLE as int) + MAX_TIME_SAMPLE == (k + 1) * (
            MAX_TIME_SAMPLE as int)) by (nonlinear_arith);
            lemma_sum_bounds(times@.take(k as int));
        }
        total = total + (times[k] as u64);
        k = k + 1;
    }
    assert(times@.take(times@.len() as int) =~= times@);
    let n: u64 = times.len() as u64;
    proof {
        vstd::arithmetic::div_mod::lemma_div_pos_is_pos(total as int, n as int);
        vstd::arithmetic::mul::lemma_mul_inequality(
            times@.len() as int,
            MAX_SAMPLES as int,
            MAX_TIME_SAMPLE as int,
        );
        vstd::arithmetic::div_mod::lemma_div_is_ordered(
            total as int,
            (n as int) * (MAX_TIME_SAMPLE as int),
            n as int,
        );
        assert(((n as int) * (MAX_TIME_SAMPLE as int)) / (n as int) == MAX_TIME_SAMPLE) by {
            vstd::arithmetic::div_mod::lemma_div_by_multiple(MAX_TIME_SAMPLE as int, n as int);
        }
        assert(total <= (n as int) * (MAX_TIME_SAMPLE as int)) by {
            vstd::arithmetic::mul::lemma_mul_inequality(
                times@.len() as int,
                times@.len() as int,
                MAX_TIME_SAMPLE as int,
            );
        }
    }
    (total / n) as u32
}

/// Produce the final path-annotated graph: for every retained edge whose
/// two endpoints have coordinates and whose accumulator is present, snap the
/// edge onto the line geometries of the lines it was observed on, frame the
/// snapped path with the endpoint coordinates, re-index it by percentage
/// position, and attach the mean historical transit time.  Edges with a
/// missing endpoint coordinate or accumulator are skipped; a source point
/// with no surviving edge is omitted.
pub fn generate_positions(
    line_graph: &EdgeTable,
    graph: &Vec<(i32, Vec<i32>)>,
    region: &Vec<(i32, Coordinate)>,
    overpass_turbo: &Vec<(i32, Vec<Vec<Coordinate>>)>,
) -> (r: Vec<(i32, Vec<LineSegment>)>)
    requires
        line_graph.wf(),
        forall|i: int|
            0 <= i < line_graph.edges@.len() ==> (#[trigger] line_graph.edges@[i]).1.times@.len()
                <= MAX_SAMPLES,
        geoms_wf(overpass_turbo@),
        forall|i: int| 0 <= i < region@.len() ==> coordinate_wf((#[trigger] region@[i]).1),
    ensures
        region_graph_view(r@) == spec_generate_positions(
            graph_view(graph@),
            table_view(line_graph.edges@),
            region@,
            overpass_turbo@,
        ),
{
    let ghost tv = table_view(line_graph.edges@);
    let ghost gvw = graph_view(graph@);
    let mut out: Vec<(i32, Vec<LineSegment>)> = Vec::new();
    let mut gi: usize = 0;
    while gi < graph.len()
        invariant
            gi <= graph@.len(),
            tv == table_view(line_graph.edges@),
            gvw == graph_view(graph@),
            line_graph.wf(),
            forall|i: int|
                0 <= i < line_graph.edges@.len() ==> (
                #[trigger] line_graph.edges@[i]).1.times@.len() <= MAX_SAMPLES,
            geoms_wf(overpass_turbo@),
            forall|i: int| 0 <= i < region@.len() ==> coordinate_wf((#[trigger] region@[i]).1),
            region_graph_view(out@) == spec_generate_upto(
                gvw,
                gi as int,
                tv,
                region@,
                overpass_turbo@,
            ),
        decreases graph@.len() - gi,
    {
        let ghost pre = region_graph_view(out@);
        let prev = graph[gi].0;
        proof {
            assert(gvw[gi as int] == (graph@[gi as int].0, graph@[gi as int].1@));
        }
        match find_stop(region, prev) {
            None => {
                proof {
                    assert(spec_generate_upto(gvw, gi as int + 1, tv, region@, overpass_turbo@)
                        == pre);
                }
            },
            Some(prev_c) => {
                proof {
                    lemma_seq_find_idx(region@, prev);
                }
                let nexts = &graph[gi].1;
                let mut segs: Vec<LineSegment> = Vec::new();
                let mut ni: usize = 0;
                while ni < nexts.len()
                    invariant
                        ni <= nexts@.len(),
                        nexts@ == graph@[gi as int].1@,
                        gi < graph@.len(),
                        tv == table_view(line_graph.edges@),
                        gvw == graph_view(graph@),
                        line_graph.wf(),
                        forall|i: int|
                            0 <= i < line_graph.edges@.len() ==> (
                            #[trigger] line_graph.edges@[i]).1.times@.len() <= MAX_SAMPLES,
                        geoms_wf(overpass_turbo@),
                        forall|i: int|
                            0 <= i < region@.len() ==> coordinate_wf((#[trigger] region@[i]).1),
                        coordinate_wf(prev_c),
                        seq_has_key(region@, graph@[gi as int].0),
                        prev == graph@[gi as int].0,
                        prev_c == region@[seq_find_idx(region@, graph@[gi as int].0)].1,
                        segs@.map_values(|ls: LineSegment| segment_view(ls)) == spec_segments_for(
                            prev,
                            prev_c,
                            nexts@,
                            ni as int,
                            tv,
                            region@,
                            overpass_turbo@,
                        ),
                    decreases nexts@.len() - ni,
                {
                    let ghost spre = segs@.map_values(|ls: LineSegment| segment_view(ls));
                    let next = nexts[ni];
                    match find_stop(region, next) {
                        None => {
                            proof {
                                assert(spec_segments_for(
                                    prev,
                                    prev_c,
                                    nexts@,
                                    ni as int + 1,
                                    tv,
                                    region@,
                                    overpass_turbo@,
                                ) == spre);
                            }
                        },
                        Some(next_c) => {
                            proof {
                                lemma_seq_find_idx(region@, next);
                                assert(coordinate_wf(next_c));
                            }
                            match find_edge(line_graph, prev, next) {
                                None => {
                                    proof {
                                        assert(spec_segments_for(
                                            prev,
                                            prev_c,
                                            nexts@,
                                            ni as int + 1,
                                            tv,
                                            region@,
                                            overpass_turbo@,
                                        ) == spre);
                                    }
                                },
                                Some(ei) => {
                                    proof {
                                        assert(tv[ei as int] == (
                                            line_graph.edges@[ei as int].0,
                                            edge_view(line_graph.edges@[ei as int].1),
                                        ));
                                        assert(edge_wf(
                                            line_graph.edges@[ei as int].0,
                                            edge_view(line_graph.edges@[ei as int].1),
                                        ));
                                    }
                                    let e = &line_graph.edges[ei];
                                    let mt = mean_time(&e.1.times);
                                    let mut track = find_ideal_track(
                                        &e.1.lines,
                                        overpass_turbo,
                                        &prev_c,
                                        &next_c,
                                    );
                                    let ghost track_v = track@;
                                    let mut path: Vec<Coordinate> = Vec::new();
                                    path.push(prev_c);
                                    path.append(&mut track);
                                    path.push(next_c);
                                    proof {
                                        assert(path@ =~= seq![prev_c] + track_v + seq![next_c]);
                                    }
                                    let positions = convert_list(&path);
                                    proof {
                                        assert(positions@ =~= spec_positions(path@));
                                    }
                                    let seg = LineSegment {
                                        historical_time: mt,
                                        next_reporting_point: next,
                                        positions,
                                    };
                                    segs.push(seg);
                                    proof {
                                        assert(segs@.map_values(
                                            |ls: LineSegment| segment_view(ls),
                                        ) =~= spre.push(segment_view(seg)));
                                        assert(spec_segments_for(
                                            prev,
                                            prev_c,
                                            nexts@,
                                            ni as int + 1,
                                            tv,
                                            region@,
                                            overpass_turbo@,
                                        ) == spre.push(
                                            (
                                                spec_mean_time(
                                                    tv[seq_find_idx(tv, (prev, next))].1.1,
                                                ),
                                                next,
                                                spec_positions(
                                                    seq![prev_c] + spec_ideal_track(
                                                        tv[seq_find_idx(tv, (prev, next))].1.2,
                                                        overpass_turbo@,
                                                        prev_c,
                                                        next_c,
                                                    ) + seq![next_c],
                                                ),
                                            ),
                                        ));
                                    }
                                },
                            }
                        },
                    }
                    ni = ni + 1;
                }
                if segs.len() > 0 {
                    let ghost segs_view = segs@.map_values(|ls: LineSegment| segment_view(ls));
                    out.push((prev, segs));
                    proof {
                        assert(region_graph_view(out@) =~= pre.push((prev, segs_view)));
                        assert(spec_generate_upto(gvw, gi as int + 1, tv, region@, overpass_turbo@)
                            == pre.push((prev, segs_view)));
                    }
                } else {
                    proof {
                        assert(spec_generate_upto(gvw, gi as int + 1, tv, region@, overpass_turbo@)
                            == pre);
                    }
                }
            },
        }
        gi = gi + 1;
    }
    out
}


/// Caps for graph building against the sample limit: every accumulator
/// count, and the table length, can take `budget` more observations without
/// crossing `MAX_SAMPLES`.
pub open spec fn counts_budget(s: Seq<((i32, i32), (int, Seq<i64>, Seq<i32>))>, budget: int) -> bool {
    forall|k: int| 0 <= k < s.len() ==> (#[trigger] s[k]).1.0 + budget <= MAX_SAMPLES as int
}

/// The table itself can take `budget` more fresh edges within the cap.
pub open spec fn len_budget(s: Seq<((i32, i32), (int, Seq<i64>, Seq<i32>))>, budget: int) -> bool {
    s.len() + budget <= MAX_SAMPLES as int
}

/// Budgets only shrink when the budget parameter shrinks.
pub proof fn lemma_budget_monotone(
    s: Seq<((i32, i32), (int, Seq<i64>, Seq<i32>))>,
    b1: int,
    b2: int,
)
    requires
        counts_budget(s, b1),
        len_budget(s, b1),
        b2 <= b1,
    ensures
        counts_budget(s, b2),
        len_budget(s, b2),
{
    assert forall|k: int| 0 <= k < s.len() implies (#[trigger] s[k]).1.0 + b2
        <= MAX_SAMPLES as int by {
        assert(s[k].1.0 + b1 <= MAX_SAMPLES as int);
    }
}

/// Recording one observation spends one unit of both budgets.
proof fn lemma_record_edge_budget(
    s: Seq<((i32, i32), (int, Seq<i64>, Seq<i32>))>,
    key: (i32, i32),
    dt_ms: i64,
    line: i32,
    budget: int,
)
    requires
        counts_budget(s, budget),
        len_budget(s, budget),
        1 <= budget,
    ensures
        counts_budget(spec_record_edge(s, key, dt_ms, line), budget - 1),
        len_budget(spec_record_edge(s, key, dt_ms, line), budget - 1),
{
    lemma_seq_find_idx(s, key);
    let r = spec_record_edge(s, key, dt_ms, line);
    assert forall|k: int| 0 <= k < r.len() implies (#[trigger] r[k]).1.0 + (budget - 1)
        <= MAX_SAMPLES as int by {
        if seq_has_key(s, key) {
            let j = seq_find_idx(s, key);
            if k != j {
                assert(r[k] == s[k]);
            } else {
                assert(s[j].1.0 + budget <= MAX_SAMPLES as int);
            }
        } else {
            if k < s.len() {
                assert(r[k] == s[k]);
            }
        }
    }
}

/// One day's analysis spends at most one budget unit per telegram.
pub proof fn lemma_analyse_day_budget(
    ts: Seq<Telegram>,
    n: int,
    acc: Seq<((i32, i32), (int, Seq<i64>, Seq<i32>))>,
    budget: int,
)
    requires
        counts_budget(acc, budget),
        len_budget(acc, budget),
        0 <= n <= budget,
    ensures
        counts_budget(spec_analyse_day_upto(ts, n, acc), budget - n),
        len_budget(spec_analyse_day_upto(ts, n, acc), budget - n),
    decreases n,
{
    if n > 0 {
        lemma_analyse_day_budget(ts, n - 1, acc, budget);
        let mid = spec_analyse_day_upto(ts, n - 1, acc);
        match spec_next_occurrence(ts, n - 1, n) {
            Some(j) => {
                if ts[n - 1].line is Some && ts[n - 1].reporting_point != ts[j].reporting_point {
                    lemma_record_edge_budget(
                        mid,
                        (ts[n - 1].reporting_point, ts[j].reporting_point),
                        ((ts[j].time - ts[n - 1].time) * 1000) as i64,
                        ts[n - 1].line.unwrap(),
                        budget - (n - 1),
                    );
                } else {
                    lemma_budget_monotone(mid, budget - (n - 1), budget - n);
                }
            },
            None => {
                lemma_budget_monotone(mid, budget - (n - 1), budget - n);
            },
        }
    }
}

} // verus!
