//! Shared data model of the engine: telegrams and the constants that govern
//! correlation, graph building and filtering.

use vstd::prelude::*;

verus! {

/// Default correlation window in seconds: the largest time distance allowed
/// between a telegram and a bracketing GPS fix.
pub const DEFAULT_CORRELATION_WINDOW: i64 = 7;

/// Forward-scan cut-off of the run-sequence graph builder, in seconds
/// (10 minutes): a telegram further than this from the scan origin ends the
/// scan for a same-run successor.
pub const SAME_RUN_TIME_THRESHOLD: i64 = 600;

/// Nominal transit time between two adjacent reporting points, used by the
/// statistical edge filter as the centre of its score function.
pub const EXPECTED_TRAVEL_TIME: i64 = 120;

/// Request status value that carries no positional information (doors
/// closed); telegrams with this status are excluded from graph building.
pub const REQUEST_STATUS_DOOR_CLOSED: u8 = 0;

/// Bound on the magnitude of a fixed-point latitude or longitude.  Generous
/// enough for nanodegree scaling of the full +/-180 degree range; keeping
/// coordinates inside it lets every computation of the engine stay inside
/// 128-bit intermediates.
pub const COORD_LIMIT: i64 = 1_000_000_000_000;

/// True of a fixed-point coordinate axis value the engine accepts.
pub open spec fn coord_in_range(c: int) -> bool {
    -COORD_LIMIT <= c <= COORD_LIMIT
}

/// A decoded R09 telegram, reduced to the plain fields the engine reads.
///
/// `time` is unix seconds; within one day's batch telegrams are expected in
/// ascending time order.  `line` and `run_number` identify the vehicle run
/// that emitted the telegram, when known.
#[derive(Clone, Copy, Debug, PartialEq, Eq)]
pub struct Telegram {
    /// Region identifier the telegram was captured in.
    pub region: i64,
    /// Reporting point (meldepunkt) the telegram references.
    pub reporting_point: i32,
    /// Unix timestamp of the telegram interception, in seconds.
    pub time: i64,
    /// Line identifier, when the telegram carried one.
    pub line: Option<i32>,
    /// Vehicle run identifier, when the telegram carried one.
    pub run_number: Option<i32>,
    /// Raw request status of the telegram.
    pub request_status: u8,
}

impl Telegram {
    /// Timestamps the engine works on are positive unix seconds.
    pub open spec fn wf(self) -> bool {
        0 < self.time
    }
}

/// A location estimate for one reporting point: a fixed-point WGS84
/// coordinate produced by the position interpolator and averaged by the
/// estimate deduplicator.
#[derive(Clone, Copy, Debug, PartialEq, Eq)]
pub struct ReportLocation {
    /// Fixed-point latitude.
    pub lat: i64,
    /// Fixed-point longitude.
    pub lon: i64,
}

impl ReportLocation {
    /// Both axes stay inside the coordinate range the engine accepts.
    pub open spec fn wf(self) -> bool {
        &&& coord_in_range(self.lat as int)
        &&& coord_in_range(self.lon as int)
    }
}

/// Equality of two optional identifiers, usable from executable code.
pub fn opt_id_eq(a: Option<i32>, b: Option<i32>) -> (r: bool)
    ensures
        r == (a == b),
{
    match (a, b) {
        (Option::None, Option::None) => true,
        (Option::Some(x), Option::Some(y)) => x == y,
        _ => false,
    }
}

/// Index of the first pair in `s` whose key equals `key`, or `s.len()` when
/// no pair matches.  The engine's association tables are sequences of
/// key-value pairs searched with this function.
pub open spec fn seq_find_idx<K, V>(s: Seq<(K, V)>, key: K) -> int
    decreases s.len(),
{
    if s.len() == 0 {
        0
    } else if s[0].0 == key {
        0
    } else {
        1 + seq_find_idx(s.skip(1), key)
    }
}

/// Some pair in `s` carries `key`.
pub open spec fn seq_has_key<K, V>(s: Seq<(K, V)>, key: K) -> bool {
    seq_find_idx(s, key) < s.len()
}

/// `seq_find_idx` lands inside the sequence or just past it, lands on the
/// key when the key occurs, and skips no earlier occurrence.
pub proof fn lemma_seq_find_idx<K, V>(s: Seq<(K, V)>, key: K)
    ensures
        0 <= seq_find_idx(s, key) <= s.len(),
        seq_find_idx(s, key) < s.len() ==> s[seq_find_idx(s, key)].0 == key,
        forall|k: int| 0 <= k < seq_find_idx(s, key) ==> (#[trigger] s[k]).0 != key,
    decreases s.len(),
{
    if s.len() == 0 {
    } else if s[0].0 == key {
    } else {
        lemma_seq_find_idx(s.skip(1), key);
        let j = seq_find_idx(s.skip(1), key);
        if j < s.skip(1).len() {
            assert(s[1 + j] == s.skip(1)[j]);
        }
        assert forall|k: int| 0 <= k < 1 + j implies (#[trigger] s[k]).0 != key by {
            if k > 0 {
                assert(s[k] == s.skip(1)[k - 1]);
            }
        }
    }
}

} // verus!
