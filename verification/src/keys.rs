//! The keys a candidate stores: every row with its output time and the place
//! that its value comes from.

use crate::binary32::Binary32;
use crate::binary64::Binary64;
use crate::error::FootCycleClipWarpError;
use crate::model::Track;
use crate::model::TrackView;
use crate::operation;
use crate::plan::ContactTimeWarpControlPointV1;
use crate::rows;
use crate::rows::FootCycleClipWarpKnotV1;
use crate::rows::FootCycleClipWarpRowV1;
use crate::rows::WarpRows;
use vstd::prelude::*;

verus! {

/// Where an emitted key's stored value comes from.
#[derive(Debug, Clone, Copy, PartialEq, Eq, Structural)]
pub enum CandidateValue {
    /// The authored key at this index, copied verbatim.
    Authored(usize),
    /// The track sampled at this instant, for a key no authored key is.
    Sampled(Binary32),
}

/// One key the candidate clip will store, in the emitted binary32 domain.
#[derive(Debug, Clone, Copy, PartialEq, Eq, Structural)]
pub struct CandidateKey {
    /// Time of the key in the candidate.
    pub output_time: Binary32,
    /// Where its value comes from.
    pub value: CandidateValue,
}

/// The first row from `i` on whose input lies after `x`.
pub open spec fn first_after(
    points: Seq<ContactTimeWarpControlPointV1>,
    x: Binary64,
    i: int,
) -> int
    decreases points.len() - i,
{
    if i >= points.len() {
        points.len() as int
    } else if !points[i].input.le_number(x) {
        i
    } else {
        first_after(points, x, i + 1)
    }
}

/// The last row of the segment that normalized time `x` falls in; the outer
/// segments also serve what lies outside the map.
pub open spec fn segment(points: Seq<ContactTimeWarpControlPointV1>, x: Binary64) -> int {
    let upper = first_after(points, x, 0);
    if upper < 1 {
        1
    } else if upper > points.len() - 1 {
        points.len() - 1
    } else {
        upper
    }
}

/// Normalized time `x` mapped along the segment from `left` to `right`.
pub open spec fn interpolated(
    left: ContactTimeWarpControlPointV1,
    right: ContactTimeWarpControlPointV1,
    x: Binary64,
) -> Binary64 {
    let fraction = x.difference(left.input).quotient(right.input.difference(left.input));
    left.output.sum(fraction.product(right.output.difference(left.output)))
}

/// A source time mapped to its output time, in binary64 and narrowed once.
pub open spec fn mapped(
    source_time: Binary32,
    duration: Binary32,
    points: Seq<ContactTimeWarpControlPointV1>,
) -> Binary32 {
    let x = source_time.widened().quotient(duration.widened());
    let right = segment(points, x);
    interpolated(points[right - 1], points[right], x).product(duration.widened()).narrowed()
}

proof fn lemma_first_after(
    points: Seq<ContactTimeWarpControlPointV1>,
    x: Binary64,
    i: int,
    upper: int,
)
    requires
        0 <= i <= upper <= points.len(),
        forall|j: int| i <= j < upper ==> (#[trigger] points[j]).input.le_number(x),
        upper < points.len() ==> !points[upper].input.le_number(x),
    ensures
        first_after(points, x, i) == upper,
    decreases upper - i,
{
    if i < upper {
        assert(points[i].input.le_number(x));
        lemma_first_after(points, x, i + 1, upper);
    }
}

/// Maps an authored source time to its output time.
pub fn map_time(
    source_time: Binary32,
    duration: Binary32,
    points: &[ContactTimeWarpControlPointV1],
) -> (r: Binary32)
    requires
        points@.len() >= 2,
        forall|i: int, j: int|
            0 <= i < j < points@.len() && (#[trigger] points@[j]).input.le_number(
                source_time.widened().quotient(duration.widened()),
            ) ==> (#[trigger] points@[i]).input.le_number(
                source_time.widened().quotient(duration.widened()),
            ),
    ensures
        r == mapped(source_time, duration, points@),
{
    let wide: Binary64 = duration.widen();
    let normalized: Binary64 = source_time.widen().over(wide);
    let mut low: usize = 0;
    let mut high: usize = points.len();
    while low < high
        invariant
            0 <= low <= high <= points@.len(),
            forall|i: int, j: int|
                0 <= i < j < points@.len() && (#[trigger] points@[j]).input.le_number(normalized)
                    ==> (#[trigger] points@[i]).input.le_number(normalized),
            forall|i: int| 0 <= i < low ==> (#[trigger] points@[i]).input.le_number(normalized),
            high < points@.len() ==> !points@[high as int].input.le_number(normalized),
        decreases high - low,
    {
        let middle: usize = low + (high - low) / 2;
        if points[middle].input_time().at_most(normalized) {
            low = middle + 1;
        } else {
            high = middle;
        }
    }
    proof {
        lemma_first_after(points@, normalized, 0, low as int);
    }
    let last: usize = points.len() - 1;
    let right: usize = if low < 1 {
        1
    } else if low > last {
        last
    } else {
        low
    };
    let left: usize = right - 1;
    let x0: Binary64 = points[left].input_time();
    let x1: Binary64 = points[right].input_time();
    let y0: Binary64 = points[left].output_time();
    let y1: Binary64 = points[right].output_time();
    let fraction: Binary64 = normalized.minus(x0).over(x1.minus(x0));
    y0.plus(fraction.times(y1.minus(y0))).times(wide).narrow()
}

/// The key that one row becomes.
pub open spec fn row_key(
    track: TrackView,
    points: Seq<ContactTimeWarpControlPointV1>,
    duration: Binary32,
    row: FootCycleClipWarpRowV1,
) -> CandidateKey {
    match row {
        FootCycleClipWarpRowV1::Authored(index) => CandidateKey {
            output_time: mapped(track.times[index as int], duration, points),
            value: CandidateValue::Authored(index),
        },
        FootCycleClipWarpRowV1::Knot(knot) => CandidateKey {
            output_time: knot.output_time,
            value: CandidateValue::Sampled(knot.source_time),
        },
        FootCycleClipWarpRowV1::Coalesced(index, knot) => CandidateKey {
            output_time: knot.output_time,
            value: CandidateValue::Authored(index),
        },
    }
}

/// The knot that a row names, with the instant it names: the authored key's
/// time when it coalesced, else its own.
pub open spec fn named(times: Seq<Binary32>, row: FootCycleClipWarpRowV1) -> Option<
    (FootCycleClipWarpKnotV1, Binary32),
> {
    match row {
        FootCycleClipWarpRowV1::Authored(_) => None,
        FootCycleClipWarpRowV1::Knot(knot) => Some((knot, knot.source_time)),
        FootCycleClipWarpRowV1::Coalesced(index, knot) => Some((knot, times[index as int])),
    }
}

/// The last knot named before row `n`.
pub open spec fn last_named(
    times: Seq<Binary32>,
    rows: Seq<FootCycleClipWarpRowV1>,
    n: int,
) -> Option<(FootCycleClipWarpKnotV1, Binary32)>
    decreases n,
{
    if n <= 0 {
        None
    } else if named(times, rows[n - 1]) is Some {
        named(times, rows[n - 1])
    } else {
        last_named(times, rows, n - 1)
    }
}

/// Whether row `i` names an instant that the knot named before it names too.
pub open spec fn source_collision(
    times: Seq<Binary32>,
    rows: Seq<FootCycleClipWarpRowV1>,
    i: int,
) -> bool {
    match (last_named(times, rows, i), named(times, rows[i])) {
        (Some((previous, instant)), Some((knot, _))) => knot.source_time.one_instant(
            previous.source_time,
        ) || knot.source_time.one_instant(instant),
        _ => false,
    }
}

/// Whether the key of row `i` does not come after the key of the row before.
pub open spec fn output_collision(
    track: TrackView,
    points: Seq<ContactTimeWarpControlPointV1>,
    duration: Binary32,
    rows: Seq<FootCycleClipWarpRowV1>,
    i: int,
) -> bool {
    i > 0 && row_key(track, points, duration, rows[i]).output_time.le_number(
        row_key(track, points, duration, rows[i - 1]).output_time,
    )
}

/// Why the key of row `i` is refused, if it is.
pub open spec fn row_refusal(
    track: TrackView,
    track_index: usize,
    points: Seq<ContactTimeWarpControlPointV1>,
    duration: Binary32,
    rows: Seq<FootCycleClipWarpRowV1>,
    i: int,
) -> Option<FootCycleClipWarpError> {
    if source_collision(track.times, rows, i) {
        Some(FootCycleClipWarpError::SourceTimeCollision { track_index })
    } else if output_collision(track, points, duration, rows, i) {
        Some(FootCycleClipWarpError::TimeCollision { track_index })
    } else {
        None
    }
}

/// Why the first refused key from row `i` on is refused.
pub open spec fn first_row_refusal(
    track: TrackView,
    track_index: usize,
    points: Seq<ContactTimeWarpControlPointV1>,
    duration: Binary32,
    rows: Seq<FootCycleClipWarpRowV1>,
    i: int,
) -> Option<FootCycleClipWarpError>
    decreases rows.len() - i,
{
    if i >= rows.len() {
        None
    } else if row_refusal(track, track_index, points, duration, rows, i) is Some {
        row_refusal(track, track_index, points, duration, rows, i)
    } else {
        first_row_refusal(track, track_index, points, duration, rows, i + 1)
    }
}

/// Why the keys of a warped track are refused, if they are.
pub open spec fn keys_refusal(
    track: TrackView,
    track_index: usize,
    points: Seq<ContactTimeWarpControlPointV1>,
    duration: Binary32,
) -> Option<FootCycleClipWarpError> {
    first_row_refusal(
        track,
        track_index,
        points,
        duration,
        rows::track_rows(points, duration, track),
        0,
    )
}

/// The keys of a warped track, in source order.
pub open spec fn track_keys(
    track: TrackView,
    points: Seq<ContactTimeWarpControlPointV1>,
    duration: Binary32,
) -> Seq<CandidateKey> {
    let rows = rows::track_rows(points, duration, track);
    Seq::new(rows.len(), |i: int| row_key(track, points, duration, rows[i]))
}

/// No row of an accepted track is refused.
pub proof fn lemma_accepted_rows(
    track: TrackView,
    track_index: usize,
    points: Seq<ContactTimeWarpControlPointV1>,
    duration: Binary32,
    rows: Seq<FootCycleClipWarpRowV1>,
    i: int,
)
    requires
        0 <= i,
        first_row_refusal(track, track_index, points, duration, rows, i) is None,
    ensures
        forall|j: int| i <= j < rows.len() ==> !#[trigger] source_collision(track.times, rows, j),
        forall|j: int|
            i <= j < rows.len() ==> !#[trigger] output_collision(
                track,
                points,
                duration,
                rows,
                j,
            ),
    decreases rows.len() - i,
{
    if i < rows.len() {
        lemma_accepted_rows(track, track_index, points, duration, rows, i + 1);
    }
}

/// A warped track has no more keys than authored keys and rows of its map.
pub proof fn lemma_key_count(
    track: TrackView,
    points: Seq<ContactTimeWarpControlPointV1>,
    duration: Binary32,
)
    requires
        track.times.len() <= usize::MAX,
    ensures
        track_keys(track, points, duration).len() <= track.times.len() + points.len(),
{
    rows::lemma_knot_count(points, duration, track);
    rows::lemma_rows_in_bounds(track.times, 0, rows::track_knots(points, duration, track), 0);
}

/// Every authored key that the keys of a warped track copy exists.
pub proof fn lemma_keys_in_bounds(
    track: TrackView,
    points: Seq<ContactTimeWarpControlPointV1>,
    duration: Binary32,
)
    requires
        track.times.len() <= usize::MAX,
    ensures
        forall|i: int|
            0 <= i < track_keys(track, points, duration).len() ==> match (#[trigger] track_keys(
                track,
                points,
                duration,
            )[i]).value {
                CandidateValue::Authored(index) => index < track.times.len(),
                CandidateValue::Sampled(_) => true,
            },
{
    let all = rows::track_rows(points, duration, track);
    rows::lemma_rows_in_bounds(track.times, 0, rows::track_knots(points, duration, track), 0);
    assert forall|i: int| 0 <= i < track_keys(track, points, duration).len() implies match (
    #[trigger] track_keys(track, points, duration)[i]).value {
        CandidateValue::Authored(index) => index < track.times.len(),
        CandidateValue::Sampled(_) => true,
    } by {
        assert(track_keys(track, points, duration)[i] == row_key(track, points, duration, all[i]));
    }
}

/// Refuses an output time that does not come after the one before it.
pub fn validate_candidate_key(
    previous: Option<CandidateKey>,
    key: CandidateKey,
    track_index: usize,
) -> (r: Result<(), FootCycleClipWarpError>)
    ensures
        r == if previous is Some && key.output_time.le_number(previous->0.output_time) {
            Err(FootCycleClipWarpError::TimeCollision { track_index })
        } else {
            Ok(())
        },
{
    if let Some(before) = previous {
        if key.output_time.at_most(before.output_time) {
            return Err(FootCycleClipWarpError::TimeCollision { track_index });
        }
    }
    Ok(())
}

/// A walk over the keys of one warped track that validates each key before it
/// hands it out. Counting and building share this one walk.
pub struct WarpKeys<'a> {
    track: &'a Track,
    track_index: usize,
    points: &'a [ContactTimeWarpControlPointV1],
    duration: Binary32,
    merge: WarpRows<'a>,
    previous: Option<CandidateKey>,
    previous_knot: Option<(FootCycleClipWarpKnotV1, Binary32)>,
    visited: Ghost<int>,
}

impl<'a> WarpKeys<'a> {
    /// All rows of the track.
    pub closed spec fn rows(self) -> Seq<FootCycleClipWarpRowV1> {
        rows::track_rows(self.points@, self.duration, self.track@)
    }

    /// The keys the walk hands out when none is refused.
    pub closed spec fn keys(self) -> Seq<CandidateKey> {
        track_keys(self.track@, self.points@, self.duration)
    }

    /// Why the rest of the walk ends early, if it does.
    pub closed spec fn refusal(self) -> Option<FootCycleClipWarpError> {
        first_row_refusal(
            self.track@,
            self.track_index,
            self.points@,
            self.duration,
            self.rows(),
            self.visited@,
        )
    }

    /// Why the key of row `i` is refused, if it is.
    pub closed spec fn refusal_at(self, i: int) -> Option<FootCycleClipWarpError> {
        row_refusal(
            self.track@,
            self.track_index,
            self.points@,
            self.duration,
            self.rows(),
            i,
        )
    }

    /// How many keys were handed out.
    pub closed spec fn handed_out(self) -> int {
        self.visited@
    }

    /// What holds of a walk between two keys.
    pub closed spec fn wf(self) -> bool {
        &&& operation::valid_map(self.points@)
        &&& self.merge.wf()
        &&& 0 <= self.visited@ <= self.rows().len()
        &&& self.merge.remaining() == self.rows().skip(self.visited@)
        &&& self.previous == if self.visited@ == 0 {
            None
        } else {
            Some(
                row_key(self.track@, self.points@, self.duration, self.rows()[self.visited@ - 1]),
            )
        }
        &&& self.previous_knot == last_named(self.track@.times, self.rows(), self.visited@)
    }

    /// A walk from the first key.
    pub fn new(
        track: &'a Track,
        track_index: usize,
        points: &'a [ContactTimeWarpControlPointV1],
        duration: Binary32,
    ) -> (r: WarpKeys<'a>)
        requires
            operation::valid_map(points@),
        ensures
            r.wf(),
            r.handed_out() == 0,
            r.keys() == track_keys(track@, points@, duration),
            r.refusal() == keys_refusal(track@, track_index, points@, duration),
            forall|i: int| #[trigger]
                r.refusal_at(i) == row_refusal(
                    track@,
                    track_index,
                    points@,
                    duration,
                    rows::track_rows(points@, duration, track@),
                    i,
                ),
    {
        let merge: WarpRows<'a> = WarpRows::new(points, duration, track);
        proof {
            let all = rows::track_rows(points@, duration, track@);
            assert(all.skip(0) == all);
            assert(track@.times.len() == track.times.len());
            lemma_key_count(track@, points@, duration);
        }
        WarpKeys {
            track,
            track_index,
            points,
            duration,
            merge,
            previous: None,
            previous_knot: None,
            visited: Ghost(0),
        }
    }

    /// The next key, the refusal of the next key, or the end.
    ///
    /// A key that is handed out is not refused, and a refusal is that of the
    /// very key that comes next: all keys before it were handed out, and it is
    /// not. After the last key the walk stays at its end.
    #[verifier::rlimit(40)]
    pub fn next(&mut self) -> (r: Result<Option<CandidateKey>, FootCycleClipWarpError>)
        requires
            old(self).wf(),
        ensures
            final(self).keys() == old(self).keys(),
            forall|i: int| #[trigger] final(self).refusal_at(i) == old(self).refusal_at(i),
            match r {
                Ok(Some(key)) => {
                    &&& final(self).wf()
                    &&& 0 <= old(self).handed_out() < old(self).keys().len()
                    &&& old(self).refusal_at(old(self).handed_out()) is None
                    &&& key == old(self).keys()[old(self).handed_out()]
                    &&& final(self).handed_out() == old(self).handed_out() + 1
                    &&& final(self).refusal() == old(self).refusal()
                },
                Ok(None) => {
                    &&& final(self).wf()
                    &&& old(self).handed_out() == old(self).keys().len()
                    &&& final(self).handed_out() == old(self).handed_out()
                    &&& old(self).refusal() is None
                    &&& final(self).refusal() is None
                },
                Err(error) => {
                    &&& 0 <= old(self).handed_out() < old(self).keys().len()
                    &&& old(self).refusal_at(old(self).handed_out()) == Some(error)
                    &&& old(self).refusal() == Some(error)
                    &&& final(self).handed_out() == old(self).handed_out()
                },
            },
    {
        let ghost n = self.visited@;
        let ghost all = self.rows();
        let row: FootCycleClipWarpRowV1 = match self.merge.next() {
            Some(row) => row,
            None => {
                assert(all.skip(n).len() == 0);
                return Ok(None);
            },
        };
        proof {
            let rest = self.merge.remaining();
            assert(all.skip(n) == seq![row] + rest);
            assert(all.skip(n).len() == all.len() - n);
            assert(all[n] == all.skip(n)[0]);
            assert((seq![row] + rest)[0] == row);
            assert(all.skip(n + 1) == rest) by {
                assert forall|i: int| 0 <= i < rest.len() implies all.skip(n + 1)[i] == rest[i] by {
                    assert(all.skip(n)[i + 1] == (seq![row] + rest)[i + 1]);
                }
            }
            assert(self.track@.times.len() == self.track.times.len());
            rows::lemma_rows_in_bounds(
                self.track@.times,
                0,
                rows::track_knots(self.points@, self.duration, self.track@),
                0,
            );
        }
        let naming: Option<(FootCycleClipWarpKnotV1, Binary32)> = match row {
            FootCycleClipWarpRowV1::Authored(_) => None,
            FootCycleClipWarpRowV1::Knot(knot) => Some((knot, knot.source_time())),
            FootCycleClipWarpRowV1::Coalesced(index, knot) => Some((knot, self.track.times[index])),
        };
        if let (Some((before, instant)), Some((knot, _))) = (self.previous_knot, naming) {
            if knot.coincides_with(before.source_time()) || knot.coincides_with(instant) {
                return Err(
                    FootCycleClipWarpError::SourceTimeCollision { track_index: self.track_index },
                );
            }
        }
        if naming.is_some() {
            self.previous_knot = naming;
        }
        let key: CandidateKey = match row {
            FootCycleClipWarpRowV1::Authored(index) => CandidateKey {
                output_time: map_time(self.track.times[index], self.duration, self.points),
                value: CandidateValue::Authored(index),
            },
            FootCycleClipWarpRowV1::Knot(knot) => CandidateKey {
                output_time: knot.output_time(),
                value: CandidateValue::Sampled(knot.source_time()),
            },
            FootCycleClipWarpRowV1::Coalesced(index, knot) => CandidateKey {
                output_time: knot.output_time(),
                value: CandidateValue::Authored(index),
            },
        };
        match validate_candidate_key(self.previous, key, self.track_index) {
            Err(error) => {
                return Err(error);
            },
            Ok(()) => {},
        }
        self.previous = Some(key);
        self.visited = Ghost(n + 1);
        Ok(Some(key))
    }
}

/// How many keys one warped track stores, or why its keys are refused.
pub fn count_warp_track_keys(
    track: &Track,
    track_index: usize,
    points: &[ContactTimeWarpControlPointV1],
    duration: Binary32,
) -> (r: Result<usize, FootCycleClipWarpError>)
    requires
        operation::valid_map(points@),
        track@.times.len() + points@.len() <= usize::MAX,
    ensures
        r == match keys_refusal(track@, track_index, points@, duration) {
            Some(error) => Err(error),
            None => Ok(track_keys(track@, points@, duration).len() as usize),
        },
{
    let mut walk: WarpKeys = WarpKeys::new(track, track_index, points, duration);
    let mut generated: usize = 0;
    let ghost keys = track_keys(track@, points@, duration);
    proof {
        assert(track@.times.len() == track.times.len());
        lemma_key_count(track@, points@, duration);
    }
    loop
        invariant
            walk.wf(),
            walk.keys() == keys,
            keys == track_keys(track@, points@, duration),
            keys.len() <= usize::MAX,
            walk.handed_out() == generated,
            generated <= keys.len(),
            walk.refusal() == keys_refusal(track@, track_index, points@, duration),
        decreases keys.len() - generated,
    {
        match walk.next() {
            Err(error) => {
                return Err(error);
            },
            Ok(None) => {
                return Ok(generated);
            },
            Ok(Some(_)) => {
                generated = generated + 1;
            },
        }
    }
}

} // verus!
