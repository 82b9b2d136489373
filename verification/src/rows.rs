//! The key sequence that a warped track emits: authored keys merged with the
//! knots of the time map.

use crate::binary32::Binary32;
use crate::model::Interpolation;
use crate::model::Track;
use crate::model::TrackView;
use crate::plan::ContactTimeWarpControlPointV1;
use vstd::prelude::*;

verus! {

/// One interior V1 time-warp control point, resolved into the binary32 time
/// domain a candidate clip stores.
///
/// A candidate clip stores binary32 key times, so whether a control point is
/// the same instant as an authored key is decided in that domain and nowhere
/// else: the control point's source instant is narrowed once, and it coincides
/// with an authored key exactly when [`Self::coincides_with`] holds for that
/// key's stored time.
///
/// A coincident control point and authored key are one instant, so they are
/// emitted as one key: with the authored key's stored value, at this knot's
/// output time. A control point that coincides with no authored key adds one
/// key sampled at its source time.
#[derive(Debug, Clone, Copy, PartialEq, Eq, Structural)]
pub struct FootCycleClipWarpKnotV1 {
    /// Index of the control point in the operation's own map.
    pub control_point_index: usize,
    /// The control point's source instant, narrowed once.
    pub source_time: Binary32,
    /// The control point's output instant, narrowed once.
    pub output_time: Binary32,
}

impl FootCycleClipWarpKnotV1 {
    /// Whether this knot is emitted for a track that spans `start` to `end` in
    /// a clip of this duration: it is one instant with an end of the span or
    /// lies strictly within it, and is one instant with neither source
    /// endpoint.
    pub open spec fn admitted(self, duration: Binary32, start: Binary32, end: Binary32) -> bool {
        &&& self.source_time.one_instant(start) || self.source_time.one_instant(end) || (
        start.lt_number(self.source_time) && self.source_time.lt_number(end))
        &&& !self.source_time.one_instant(Binary32 { bits: 0 })
        &&& !self.source_time.one_instant(duration)
    }

    /// Index of the control point this knot resolves, in the operation's own
    /// map.
    #[must_use]
    pub fn control_point_index(self) -> (r: usize)
        ensures
            r == self.control_point_index,
    {
        self.control_point_index
    }

    /// The control point's source instant, narrowed once to the stored domain.
    #[must_use]
    pub fn source_time(self) -> (r: Binary32)
        ensures
            r == self.source_time,
    {
        self.source_time
    }

    /// The output time the emitted key carries.
    #[must_use]
    pub fn output_time(self) -> (r: Binary32)
        ensures
            r == self.output_time,
    {
        self.output_time
    }

    /// Whether the binary32 `time` is this same instant: equal to the source
    /// time, or one representable place beside it on either side.
    ///
    /// Nothing is representable between two adjacent values, so emitting a key
    /// at each would spell one instant twice. A time two places away is a
    /// different instant.
    #[must_use]
    pub fn coincides_with(self, time: Binary32) -> (r: bool)
        ensures
            r == self.source_time.one_instant(time),
    {
        self.source_time.equals(time) || self.source_time.next_up().equals(time)
            || time.next_up().equals(self.source_time)
    }
}

/// One row of the key sequence a track emits for a validated V1 time warp.
///
/// The rows say which keys a candidate stores and in what order. A knot-
/// bearing row carries the knot it names and no stored value.
#[derive(Debug, Clone, Copy, PartialEq, Eq, Structural)]
pub enum FootCycleClipWarpRowV1 {
    /// The authored key at this index, at its own time, mapped by the warp.
    Authored(usize),
    /// A knot that is no authored key: one key sampled at the instant its
    /// control point resolves to.
    Knot(FootCycleClipWarpKnotV1),
    /// One authored key and the knot that is the same instant, as one key: the
    /// authored time and value, at the instant this knot's control point maps
    /// that to.
    Coalesced(usize, FootCycleClipWarpKnotV1),
}

/// Row `i` of a map, resolved for a clip of this duration.
pub open spec fn resolved(
    points: Seq<ContactTimeWarpControlPointV1>,
    duration: Binary32,
    i: int,
) -> FootCycleClipWarpKnotV1 {
    FootCycleClipWarpKnotV1 {
        control_point_index: i as usize,
        source_time: points[i].input.product(duration.widened()).narrowed(),
        output_time: points[i].output.product(duration.widened()).narrowed(),
    }
}

/// The admitted knots among the interior rows before row `n`, in map order.
pub open spec fn knots_before(
    points: Seq<ContactTimeWarpControlPointV1>,
    duration: Binary32,
    start: Binary32,
    end: Binary32,
    n: int,
) -> Seq<FootCycleClipWarpKnotV1>
    decreases n,
{
    if n <= 1 {
        Seq::empty()
    } else {
        let before = knots_before(points, duration, start, end, n - 1);
        let knot = resolved(points, duration, n - 1);
        if knot.admitted(duration, start, end) {
            before.push(knot)
        } else {
            before
        }
    }
}

/// The knots that a track emits: those that its span admits, if it is linear.
pub open spec fn track_knots(
    points: Seq<ContactTimeWarpControlPointV1>,
    duration: Binary32,
    track: TrackView,
) -> Seq<FootCycleClipWarpKnotV1> {
    if track.interpolation == Interpolation::Linear {
        knots_before(points, duration, track.start(), track.end(), points.len() - 1)
    } else {
        Seq::empty()
    }
}

/// Whether a knot binds to authored key `a`: they are one instant, and the
/// next key is not the one that the knot equals.
pub open spec fn binds(times: Seq<Binary32>, a: int, knot: FootCycleClipWarpKnotV1) -> bool {
    &&& knot.source_time.one_instant(times[a])
    &&& !(a + 1 < times.len() && times[a + 1].eq_number(knot.source_time))
}

/// The authored keys from `a` on merged with the knots from `k` on.
pub open spec fn merged(
    times: Seq<Binary32>,
    a: int,
    knots: Seq<FootCycleClipWarpKnotV1>,
    k: int,
) -> Seq<FootCycleClipWarpRowV1>
    decreases (times.len() - a) + (knots.len() - k),
    when 0 <= a <= times.len() && 0 <= k <= knots.len()
{
    if k == knots.len() && a == times.len() {
        Seq::empty()
    } else if k == knots.len() || (a < times.len() && !binds(times, a, knots[k])
        && times[a].lt_number(knots[k].source_time)) {
        seq![FootCycleClipWarpRowV1::Authored(a as usize)] + merged(times, a + 1, knots, k)
    } else if a < times.len() && binds(times, a, knots[k]) {
        seq![FootCycleClipWarpRowV1::Coalesced(a as usize, knots[k])] + merged(
            times,
            a + 1,
            knots,
            k + 1,
        )
    } else {
        seq![FootCycleClipWarpRowV1::Knot(knots[k])] + merged(times, a, knots, k + 1)
    }
}

/// The rows that a track emits, in source order.
pub open spec fn track_rows(
    points: Seq<ContactTimeWarpControlPointV1>,
    duration: Binary32,
    track: TrackView,
) -> Seq<FootCycleClipWarpRowV1> {
    merged(track.times, 0, track_knots(points, duration, track), 0)
}

/// A map has no more knots before a row than rows.
proof fn lemma_knots_before_count(
    points: Seq<ContactTimeWarpControlPointV1>,
    duration: Binary32,
    start: Binary32,
    end: Binary32,
    n: int,
)
    ensures
        knots_before(points, duration, start, end, n).len() <= if n < 0 {
            0
        } else {
            n
        },
    decreases n,
{
    if n > 1 {
        lemma_knots_before_count(points, duration, start, end, n - 1);
    }
}

/// A track has no more knots than its map has rows.
pub proof fn lemma_knot_count(
    points: Seq<ContactTimeWarpControlPointV1>,
    duration: Binary32,
    track: TrackView,
)
    ensures
        track_knots(points, duration, track).len() <= points.len(),
{
    lemma_knots_before_count(points, duration, track.start(), track.end(), points.len() - 1);
}

/// Every authored key that a merge names exists.
pub proof fn lemma_rows_in_bounds(
    times: Seq<Binary32>,
    a: int,
    knots: Seq<FootCycleClipWarpKnotV1>,
    k: int,
)
    requires
        0 <= a <= times.len() <= usize::MAX,
        0 <= k <= knots.len(),
    ensures
        merged(times, a, knots, k).len() <= (times.len() - a) + (knots.len() - k),
        forall|i: int|
            0 <= i < merged(times, a, knots, k).len() ==> match #[trigger] merged(
                times,
                a,
                knots,
                k,
            )[i] {
                FootCycleClipWarpRowV1::Authored(index) => index < times.len(),
                FootCycleClipWarpRowV1::Coalesced(index, _) => index < times.len(),
                FootCycleClipWarpRowV1::Knot(_) => true,
            },
    decreases (times.len() - a) + (knots.len() - k),
{
    let all = merged(times, a, knots, k);
    if k == knots.len() && a == times.len() {
    } else if k == knots.len() || (a < times.len() && !binds(times, a, knots[k])
        && times[a].lt_number(knots[k].source_time)) {
        lemma_rows_in_bounds(times, a + 1, knots, k);
        assert(forall|i: int|
            1 <= i < all.len() ==> #[trigger] all[i] == merged(times, a + 1, knots, k)[i - 1]);
    } else if a < times.len() && binds(times, a, knots[k]) {
        lemma_rows_in_bounds(times, a + 1, knots, k + 1);
        assert(forall|i: int|
            1 <= i < all.len() ==> #[trigger] all[i] == merged(times, a + 1, knots, k + 1)[i
                - 1]);
    } else {
        lemma_rows_in_bounds(times, a, knots, k + 1);
        assert(forall|i: int|
            1 <= i < all.len() ==> #[trigger] all[i] == merged(times, a, knots, k + 1)[i - 1]);
    }
}

/// Resolves the knots one `track` emits for a validated V1 time warp.
///
/// Only a LINEAR track emits knots, and only interior rows of the map can
/// contribute one. A knot one representable place outside the track's span is
/// the same instant as the key at that end and is admitted; a knot that is the
/// same instant as a source endpoint, `0` or `duration`, contributes nothing,
/// because the map's exact end rows define the output there.
///
/// A control point that is not finite and normalized may resolve to an instant
/// that is not a number, which is admitted nowhere.
pub fn time_warp_knots_v1(
    control_points: &[ContactTimeWarpControlPointV1],
    duration: Binary32,
    track: &Track,
) -> (r: Vec<FootCycleClipWarpKnotV1>)
    ensures
        r@ == track_knots(control_points@, duration, track@),
        r@.len() <= control_points@.len(),
{
    let mut knots: Vec<FootCycleClipWarpKnotV1> = Vec::new();
    if track.interpolation != Interpolation::Linear || control_points.len() < 2 {
        return knots;
    }
    let start: Binary32 = track.start_time();
    let end: Binary32 = track.end_time();
    let wide: crate::binary64::Binary64 = duration.widen();
    let zero: Binary32 = Binary32 { bits: 0 };
    for index in 1..control_points.len() - 1
        invariant
            control_points@.len() >= 2,
            start == track@.start(),
            end == track@.end(),
            wide == duration.widened(),
            zero.bits == 0,
            knots@ == knots_before(control_points@, duration, start, end, index as int),
            knots@.len() <= index,
    {
        let point: ContactTimeWarpControlPointV1 = control_points[index];
        let knot: FootCycleClipWarpKnotV1 = FootCycleClipWarpKnotV1 {
            control_point_index: index,
            source_time: point.input_time().times(wide).narrow(),
            output_time: point.output_time().times(wide).narrow(),
        };
        if (knot.coincides_with(start) || knot.coincides_with(end) || (start.less_than(
            knot.source_time(),
        ) && knot.source_time().less_than(end))) && !knot.coincides_with(zero)
            && !knot.coincides_with(duration) {
            knots.push(knot);
        }
    }
    knots
}

/// A merge of authored keys and knots that is under way.
pub struct WarpRows<'a> {
    times: &'a [Binary32],
    authored_index: usize,
    knots: Vec<FootCycleClipWarpKnotV1>,
    knot_index: usize,
}

impl<'a> WarpRows<'a> {
    /// Whether both positions are in bounds.
    pub closed spec fn wf(self) -> bool {
        &&& self.authored_index <= self.times@.len()
        &&& self.knot_index <= self.knots@.len()
    }

    /// The rows that are still to come.
    pub closed spec fn remaining(self) -> Seq<FootCycleClipWarpRowV1> {
        merged(self.times@, self.authored_index as int, self.knots@, self.knot_index as int)
    }

    /// How many authored keys and knots are still to come.
    pub closed spec fn pending(self) -> int {
        (self.times@.len() - self.authored_index) + (self.knots@.len() - self.knot_index)
    }

    /// The merge of a track's authored keys with its knots.
    pub fn new(
        control_points: &[ContactTimeWarpControlPointV1],
        duration: Binary32,
        track: &'a Track,
    ) -> (r: WarpRows<'a>)
        ensures
            r.wf(),
            r.remaining() == track_rows(control_points@, duration, track@),
    {
        WarpRows {
            times: track.times.as_slice(),
            authored_index: 0,
            knots: time_warp_knots_v1(control_points, duration, track),
            knot_index: 0,
        }
    }

    fn next_authored(&mut self) -> (r: Option<FootCycleClipWarpRowV1>)
        requires
            old(self).wf(),
            old(self).authored_index < old(self).times@.len() ==> old(self).remaining() == seq![
                FootCycleClipWarpRowV1::Authored(old(self).authored_index),
            ] + merged(
                old(self).times@,
                old(self).authored_index + 1,
                old(self).knots@,
                old(self).knot_index as int,
            ),
            old(self).authored_index == old(self).times@.len() ==> old(self).remaining().len() == 0,
        ensures
            final(self).wf(),
            match r {
                Some(row) => old(self).remaining() == seq![row] + final(self).remaining()
                    && final(self).pending() < old(self).pending(),
                None => old(self).remaining().len() == 0 && final(self).remaining() == old(
                    self,
                ).remaining() && final(self).pending() == old(self).pending(),
            },
    {
        let index: usize = self.authored_index;
        if index >= self.times.len() {
            return None;
        }
        self.authored_index = index + 1;
        Some(FootCycleClipWarpRowV1::Authored(index))
    }

    /// The next row, if there is one. After the last row there is none, however
    /// often it is asked for.
    pub fn next(&mut self) -> (r: Option<FootCycleClipWarpRowV1>)
        requires
            old(self).wf(),
        ensures
            final(self).wf(),
            match r {
                Some(row) => old(self).remaining() == seq![row] + final(self).remaining()
                    && final(self).pending() < old(self).pending(),
                None => old(self).remaining().len() == 0 && final(self).remaining() == old(
                    self,
                ).remaining() && final(self).pending() == old(self).pending(),
            },
    {
        if self.knot_index >= self.knots.len() {
            return self.next_authored();
        }
        let knot: FootCycleClipWarpKnotV1 = self.knots[self.knot_index];
        if self.authored_index < self.times.len() {
            let authored_time: Binary32 = self.times[self.authored_index];
            // A key the knot is exactly is the key it binds to, so yield a
            // merely adjacent key first when the next one is that key.
            let equal_key_follows: bool = self.authored_index + 1 < self.times.len()
                && self.times[self.authored_index + 1].equals(knot.source_time());
            if knot.coincides_with(authored_time) && !equal_key_follows {
                self.knot_index = self.knot_index + 1;
                let index: usize = self.authored_index;
                self.authored_index = index + 1;
                return Some(FootCycleClipWarpRowV1::Coalesced(index, knot));
            }
            if authored_time.less_than(knot.source_time()) {
                return self.next_authored();
            }
        }
        self.knot_index = self.knot_index + 1;
        Some(FootCycleClipWarpRowV1::Knot(knot))
    }
}

/// Merges a track's authored keys with its resolved knots into the key
/// sequence the candidate emits, in source order.
///
/// A knot that is the same instant as the next authored key coalesces with it;
/// otherwise whichever comes first in the emitted binary32 domain comes first.
/// A key the knot's source time equals wins over a key it is merely beside.
/// Coalescing re-times an authored key, it never removes one. The rows are not
/// a refusal check: two knots that name one instant still arrive as two rows.
pub fn time_warp_rows_v1(
    control_points: &[ContactTimeWarpControlPointV1],
    duration: Binary32,
    track: &Track,
) -> (r: Vec<FootCycleClipWarpRowV1>)
    ensures
        r@ == track_rows(control_points@, duration, track@),
{
    let mut merge: WarpRows = WarpRows::new(control_points, duration, track);
    let mut rows: Vec<FootCycleClipWarpRowV1> = Vec::new();
    let ghost all = track_rows(control_points@, duration, track@);
    loop
        invariant
            merge.wf(),
            rows@ + merge.remaining() == all,
            all == track_rows(control_points@, duration, track@),
        decreases merge.pending(),
    {
        match merge.next() {
            Some(row) => {
                rows.push(row);
            },
            None => {
                return rows;
            },
        }
    }
}

} // verus!
