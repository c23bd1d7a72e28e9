//! Time-indexed GPS track: a lookup from integer-second timestamps to fixes,
//! and the outward offset scans the temporal correlator runs on it.

use vstd::prelude::*;

use crate::types::coord_in_range;

verus! {

/// One GPS fix: a fixed-point coordinate recorded at an integer-second
/// timestamp.  A track holds at most one fix per timestamp; when several are
/// inserted for one timestamp, the one inserted last wins.
#[derive(Clone, Copy, Debug, PartialEq, Eq)]
pub struct GpsPoint {
    /// Unix timestamp of the fix, in seconds.
    pub timestamp: i64,
    /// Fixed-point latitude.
    pub lat: i64,
    /// Fixed-point longitude.
    pub lon: i64,
}

impl GpsPoint {
    /// Positive timestamp (the position interpolator divides by a sum of two
    /// fix timestamps, which this keeps positive) and in-range coordinates.
    pub open spec fn wf(self) -> bool {
        &&& 0 < self.timestamp
        &&& coord_in_range(self.lat as int)
        &&& coord_in_range(self.lon as int)
    }
}

/// The fix stored for timestamp `t`, scanning the inserted fixes from the
/// most recent insertion backwards, so that of two fixes sharing a timestamp
/// the later insertion wins.
pub open spec fn spec_get(points: Seq<GpsPoint>, t: int) -> Option<GpsPoint>
    decreases points.len(),
{
    if points.len() == 0 {
        None
    } else if points.last().timestamp == t {
        Some(points.last())
    } else {
        spec_get(points.drop_last(), t)
    }
}

/// A successful lookup hands back a fix carrying the looked-up timestamp,
/// well-formed whenever every inserted fix was.
pub proof fn lemma_spec_get_found(points: Seq<GpsPoint>, t: int)
    requires
        forall|i: int| 0 <= i < points.len() ==> points[i].wf(),
        spec_get(points, t) is Some,
    ensures
        spec_get(points, t).unwrap().timestamp == t,
        spec_get(points, t).unwrap().wf(),
    decreases points.len(),
{
    if points.len() == 0 {
    } else if points.last().timestamp == t {
    } else {
        lemma_spec_get_found(points.drop_last(), t);
    }
}

/// GPS track index: timestamp -> fix lookup over the fixes inserted so far.
pub struct Gps {
    points: Vec<GpsPoint>,
}

impl View for Gps {
    type V = Seq<GpsPoint>;

    closed spec fn view(&self) -> Seq<GpsPoint> {
        self.points@
    }
}

impl Gps {
    /// Every fix held by the index is well-formed.
    pub open spec fn wf(self) -> bool {
        forall|i: int| 0 <= i < self@.len() ==> self@[i].wf()
    }

    /// An index holding no fixes.
    pub fn empty() -> (g: Gps)
        ensures
            g@ =~= Seq::<GpsPoint>::empty(),
            g.wf(),
    {
        Gps { points: Vec::new() }
    }

    /// Record one fix.  A fix inserted for an already-present timestamp
    /// shadows the earlier one.
    pub fn insert(&mut self, p: GpsPoint)
        requires
            old(self).wf(),
            p.wf(),
        ensures
            final(self)@ == old(self)@.push(p),
            final(self).wf(),
    {
        self.points.push(p);
        proof {
            assert forall|i: int| 0 <= i < self@.len() implies self@[i].wf() by {
                if i < old(self)@.len() {
                    assert(self@[i] == old(self)@[i]);
                } else {
                    assert(self@[i] == p);
                }
            }
        }
    }

    /// Look up the fix recorded at timestamp `t`, if any.
    pub fn get(&self, t: i64) -> (r: Option<GpsPoint>)
        ensures
            r == spec_get(self@, t as int),
    {
        let mut i: usize = self.points.len();
        assert(self.points@.take(i as int) =~= self.points@);
        while i > 0
            invariant
                i <= self.points.len(),
                spec_get(self.points@, t as int) == spec_get(
                    self.points@.take(i as int),
                    t as int,
                ),
            decreases i,
        {
            i = i - 1;
            let p = self.points[i];
            assert(self.points@.take(i as int + 1).last() == p);
            if p.timestamp == t {
                return Some(p);
            }
            assert(self.points@.take(i as int + 1).drop_last() =~= self.points@.take(i as int));
        }
        assert(self.points@.take(0) =~= Seq::<GpsPoint>::empty());
        None
    }
}

/// First fix found at `t + o` for offsets `o` in `off..=w`, scanned in
/// ascending order: the temporally closest fix strictly after `t` within the
/// window, for the scan start `off == 1`.
pub open spec fn first_fix_after(points: Seq<GpsPoint>, t: int, off: int, w: int) -> Option<
    GpsPoint,
>
    decreases w + 1 - off,
{
    if off > w {
        None
    } else if spec_get(points, t + off) is Some {
        spec_get(points, t + off)
    } else {
        first_fix_after(points, t, off + 1, w)
    }
}

/// First fix found at `t - o` for offsets `o` in `off..=w`, scanned in
/// ascending order: the temporally closest fix strictly before `t` within the
/// window, for the scan start `off == 1`.
pub open spec fn first_fix_before(points: Seq<GpsPoint>, t: int, off: int, w: int) -> Option<
    GpsPoint,
>
    decreases w + 1 - off,
{
    if off > w {
        None
    } else if spec_get(points, t - off) is Some {
        spec_get(points, t - off)
    } else {
        first_fix_before(points, t, off + 1, w)
    }
}

/// With fixes present directly adjacent to the telegram time (at `t - 1` and
/// `t + 1`) and any window of at least one second, the scans select exactly
/// those two fixes.
pub proof fn lemma_adjacent_fixes_selected(points: Seq<GpsPoint>, t: int, w: int)
    requires
        w >= 1,
        spec_get(points, t - 1) is Some,
        spec_get(points, t + 1) is Some,
    ensures
        first_fix_before(points, t, 1, w) == spec_get(points, t - 1),
        first_fix_after(points, t, 1, w) == spec_get(points, t + 1),
{
}

/// The forward scan consults offsets `1..=w` only: two indexes that agree on
/// `t + 1 ..= t + w` are scanned alike.  In particular a fix recorded exactly
/// at the telegram's own timestamp `t` never becomes an "after" fix.
pub proof fn lemma_scan_after_ignores_offset_zero(
    p1: Seq<GpsPoint>,
    p2: Seq<GpsPoint>,
    t: int,
    off: int,
    w: int,
)
    requires
        1 <= off,
        forall|o: int| 1 <= o <= w ==> #[trigger] spec_get(p1, t + o) == spec_get(p2, t + o),
    ensures
        first_fix_after(p1, t, off, w) == first_fix_after(p2, t, off, w),
    decreases w + 1 - off,
{
    if off > w {
    } else {
        assert(spec_get(p1, t + off) == spec_get(p2, t + off));
        lemma_scan_after_ignores_offset_zero(p1, p2, t, off + 1, w);
    }
}

/// The backward scan consults offsets `-1..=-w` only: two indexes that agree
/// on `t - w ..= t - 1` are scanned alike.  In particular a fix recorded
/// exactly at the telegram's own timestamp `t` never becomes a "before" fix.
pub proof fn lemma_scan_before_ignores_offset_zero(
    p1: Seq<GpsPoint>,
    p2: Seq<GpsPoint>,
    t: int,
    off: int,
    w: int,
)
    requires
        1 <= off,
        forall|o: int| 1 <= o <= w ==> #[trigger] spec_get(p1, t - o) == spec_get(p2, t - o),
    ensures
        first_fix_before(p1, t, off, w) == first_fix_before(p2, t, off, w),
    decreases w + 1 - off,
{
    if off > w {
    } else {
        assert(spec_get(p1, t - off) == spec_get(p2, t - off));
        lemma_scan_before_ignores_offset_zero(p1, p2, t, off + 1, w);
    }
}

/// A found "after" fix lies at some offset in `off..=w` and is well-formed.
pub proof fn lemma_first_fix_after_found(points: Seq<GpsPoint>, t: int, off: int, w: int)
    requires
        forall|i: int| 0 <= i < points.len() ==> points[i].wf(),
        first_fix_after(points, t, off, w) is Some,
        1 <= off,
    ensures
        first_fix_after(points, t, off, w).unwrap().wf(),
        t + off <= first_fix_after(points, t, off, w).unwrap().timestamp <= t + w,
    decreases w + 1 - off,
{
    if off > w {
    } else if spec_get(points, t + off) is Some {
        lemma_spec_get_found(points, t + off);
    } else {
        lemma_first_fix_after_found(points, t, off + 1, w);
    }
}

/// A found "before" fix lies at some offset in `-w..=-off` and is
/// well-formed.
pub proof fn lemma_first_fix_before_found(points: Seq<GpsPoint>, t: int, off: int, w: int)
    requires
        forall|i: int| 0 <= i < points.len() ==> points[i].wf(),
        first_fix_before(points, t, off, w) is Some,
        1 <= off,
    ensures
        first_fix_before(points, t, off, w).unwrap().wf(),
        t - w <= first_fix_before(points, t, off, w).unwrap().timestamp <= t - off,
    decreases w + 1 - off,
{
    if off > w {
    } else if spec_get(points, t - off) is Some {
        lemma_spec_get_found(points, t - off);
    } else {
        lemma_first_fix_before_found(points, t, off + 1, w);
    }
}

/// Run the forward scan: first fix at `t + 1 ..= t + w`, nearest offset
/// first.
pub fn find_fix_after(gps: &Gps, t: i64, w: i64) -> (r: Option<GpsPoint>)
    requires
        w < i64::MAX,
        t + w <= i64::MAX,
    ensures
        r == first_fix_after(gps@, t as int, 1, w as int),
{
    let mut off: i64 = 1;
    while off <= w
        invariant
            1 <= off,
            off <= w + 1 || off == 1,
            w < i64::MAX,
            t + w <= i64::MAX,
            first_fix_after(gps@, t as int, 1, w as int) == first_fix_after(
                gps@,
                t as int,
                off as int,
                w as int,
            ),
        decreases w + 1 - off,
    {
        match gps.get(t + off) {
            Some(p) => {
                return Some(p);
            },
            None => {
                off = off + 1;
            },
        }
    }
    None
}

/// Run the backward scan: first fix at `t - 1 ..= t - w`, nearest offset
/// first.
pub fn find_fix_before(gps: &Gps, t: i64, w: i64) -> (r: Option<GpsPoint>)
    requires
        w < i64::MAX,
        i64::MIN + w <= t,
    ensures
        r == first_fix_before(gps@, t as int, 1, w as int),
{
    let mut off: i64 = 1;
    while off <= w
        invariant
            1 <= off,
            off <= w + 1 || off == 1,
            w < i64::MAX,
            i64::MIN + w <= t,
            first_fix_before(gps@, t as int, 1, w as int) == first_fix_before(
                gps@,
                t as int,
                off as int,
                w as int,
            ),
        decreases w + 1 - off,
    {
        match gps.get(t - off) {
            Some(p) => {
                return Some(p);
            },
            None => {
                off = off + 1;
            },
        }
    }
    None
}

} // verus!
