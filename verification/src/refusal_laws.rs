//! What each refusal says of the clip and the operation it refuses.

use crate::acceptance_laws;
use crate::binary32::Binary32;
use crate::binary64::Binary64;
use crate::candidate;
use crate::candidate_laws;
use crate::cubic;
use crate::error::FootCycleClipResourceV1;
use crate::error::FootCycleClipWarpError;
use crate::error::FootCycleCubicSplineRefusalV1;
use crate::keys;
use crate::map_laws;
use crate::model::ClipView;
use crate::model::DocumentShapeError;
use crate::model::Interpolation;
use crate::model::Property;
use crate::model::Quat;
use crate::model::TrackShapeViolation;
use crate::model::TrackView;
use crate::model::ValuesView;
use crate::operation;
use crate::plan::ContactTimeWarpControlPointV1;
use crate::plan::ContactTransformOperationV1;
use crate::preflight;
use crate::row_laws;
use crate::rows;
use crate::rows::FootCycleClipWarpRowV1;
use vstd::prelude::*;

verus! {

/// Whether both coordinates of a row are in `[0, 1]`.
pub open spec fn in_unit(point: ContactTimeWarpControlPointV1) -> bool {
    &&& 0 <= point.input.place() <= 0x3ff0_0000_0000_0000
    &&& 0 <= point.output.place() <= 0x3ff0_0000_0000_0000
}

/// Whether row `i` comes after the row before it in both coordinates.
pub open spec fn rises(points: Seq<ContactTimeWarpControlPointV1>, i: int) -> bool {
    &&& points[i - 1].input.place() < points[i].input.place()
    &&& points[i - 1].output.place() < points[i].output.place()
}

/// Whether a duration is finite and positive, also as binary32.
pub open spec fn usable(duration_s: Binary64) -> bool {
    &&& duration_s.finite() && duration_s.place() > 0
    &&& duration_s.narrowed().finite() && duration_s.narrowed().place() > 0
}

/// Whether an operation is a time warp of version 1 that keeps the duration.
pub open spec fn warps(duration_s: Binary64, operation: ContactTransformOperationV1) -> bool {
    operation matches ContactTransformOperationV1::TimeWarp { version, output_duration_s, .. }
        && version == 1 && output_duration_s.place() == duration_s.place()
}

proof fn lemma_first_unnormalized(points: Seq<ContactTimeWarpControlPointV1>, i: int)
    requires
        0 <= i,
    ensures
        match operation::first_unnormalized(points, i) {
            Some(index) => i <= index < points.len() && !in_unit(points[index]) && forall|j: int|
                i <= j < index ==> in_unit(#[trigger] points[j]),
            None => forall|j: int| i <= j < points.len() ==> in_unit(#[trigger] points[j]),
        },
    decreases points.len() - i,
{
    if i < points.len() {
        lemma_first_unnormalized(points, i + 1);
        assert(points[i].normalized() <==> in_unit(points[i]));
    }
}

proof fn lemma_first_fall(points: Seq<ContactTimeWarpControlPointV1>, i: int)
    requires
        1 <= i,
        forall|j: int| 0 <= j < points.len() ==> in_unit(#[trigger] points[j]),
    ensures
        match operation::first_fall(points, i) {
            Some(index) => i <= index < points.len() && !rises(points, index) && forall|j: int|
                i <= j < index ==> #[trigger] rises(points, j),
            None => forall|j: int| i <= j < points.len() ==> #[trigger] rises(points, j),
        },
    decreases points.len() - i,
{
    if i < points.len() {
        lemma_first_fall(points, i + 1);
        assert(in_unit(points[i]) && in_unit(points[i - 1]));
        assert(operation::rises_at(points, i) <==> rises(points, i));
    }
}

/// What a refusal for the operation says: the first thing that is wrong with
/// the duration, the operation or its rows. Any other answer, acceptance too,
/// means that nothing is wrong with them.
#[verifier::spinoff_prover]
#[verifier::rlimit(60)]
pub proof fn law_operation_refusals_name_their_cause(
    clip: ClipView,
    operation: ContactTransformOperationV1,
)
    requires
        operation.rows().len() <= usize::MAX,
    ensures
        ({
            let points = match operation {
                ContactTransformOperationV1::TimeWarp { control_points, .. } => control_points@,
                ContactTransformOperationV1::Trim { .. } => Seq::empty(),
            };
            let last = points.len() - 1;
            match candidate::warp_refusal(clip, operation) {
                Some(FootCycleClipWarpError::InvalidClipDuration { duration_s }) => {
                    &&& duration_s == clip.duration_s
                    &&& !usable(clip.duration_s)
                },
                Some(FootCycleClipWarpError::UnsupportedOperation) => {
                    &&& usable(clip.duration_s)
                    &&& operation is Trim
                },
                Some(FootCycleClipWarpError::UnsupportedVersion { version: found }) => {
                    &&& usable(clip.duration_s)
                    &&& operation matches ContactTransformOperationV1::TimeWarp { version, .. }
                        && version == found
                    &&& found != 1
                },
                Some(
                    FootCycleClipWarpError::DurationMismatch {
                        clip_duration_s,
                        operation_duration_s,
                    },
                ) => {
                    &&& usable(clip.duration_s)
                    &&& clip_duration_s == clip.duration_s
                    &&& operation matches ContactTransformOperationV1::TimeWarp {
                        version,
                        output_duration_s,
                        ..
                    } && version == 1 && output_duration_s == operation_duration_s
                    &&& clip_duration_s.place() != operation_duration_s.place()
                },
                Some(FootCycleClipWarpError::InvalidControlPointCount { found, maximum }) => {
                    &&& usable(clip.duration_s) && warps(clip.duration_s, operation)
                    &&& found == points.len() && maximum == 4096
                    &&& found < 2 || found > 4096
                },
                Some(FootCycleClipWarpError::InvalidControlPoint { index }) => {
                    &&& usable(clip.duration_s) && warps(clip.duration_s, operation)
                    &&& 2 <= points.len() <= 4096
                    &&& index < points.len() && !in_unit(points[index as int])
                    &&& forall|j: int| 0 <= j < index ==> in_unit(#[trigger] points[j])
                },
                Some(FootCycleClipWarpError::InvalidMapEndpoints) => {
                    &&& usable(clip.duration_s) && warps(clip.duration_s, operation)
                    &&& 2 <= points.len() <= 4096
                    &&& forall|j: int| 0 <= j < points.len() ==> in_unit(#[trigger] points[j])
                    &&& points[0].input.place() != 0 || points[0].output.place() != 0
                        || points[last].input.bits != 0x3ff0_0000_0000_0000
                        || points[last].output.bits != 0x3ff0_0000_0000_0000
                },
                Some(FootCycleClipWarpError::NonMonotoneMap { index }) => {
                    &&& usable(clip.duration_s) && warps(clip.duration_s, operation)
                    &&& 2 <= points.len() <= 4096
                    &&& forall|j: int| 0 <= j < points.len() ==> in_unit(#[trigger] points[j])
                    &&& points[0].input.place() == 0 && points[0].output.place() == 0
                    &&& points[last].input.bits == 0x3ff0_0000_0000_0000
                    &&& points[last].output.bits == 0x3ff0_0000_0000_0000
                    &&& 1 <= index < points.len() && !rises(points, index as int)
                    &&& forall|j: int| 1 <= j < index ==> #[trigger] rises(points, j)
                },
                _ => {
                    &&& usable(clip.duration_s) && warps(clip.duration_s, operation)
                    &&& acceptance_laws::retiming(points)
                },
            }
        }),
{
    let points = operation.rows();
    lemma_first_unnormalized(points, 0);
    if operation::first_unnormalized(points, 0) is None {
        lemma_first_fall(points, 1);
    }
    acceptance_laws::lemma_retiming(points);
    operation::law_accepted_maps_are_the_valid_ones(points);
    if operation::operation_refusal(clip.duration_s, operation) is None {
        let k = acceptance_laws::lemma_first_refused_track(
            clip,
            points,
            clip.duration_s.narrowed(),
            candidate::identity_map(points),
            0,
        );
        if k < clip.tracks.len() {
            acceptance_laws::lemma_keys_collide(
                clip.tracks[k],
                k as usize,
                points,
                clip.duration_s.narrowed(),
                rows::track_rows(points, clip.duration_s.narrowed(), clip.tracks[k]),
                0,
            );
        }
    }
}

/// The clip without its tracks from track `k` on.
pub open spec fn cut(clip: ClipView, k: int) -> ClipView {
    ClipView { name: clip.name, duration_s: clip.duration_s, tracks: clip.tracks.take(k) }
}

/// Whether the first rule of shape that a track breaks is this one.
pub open spec fn breaks(track: TrackView, violation: TrackShapeViolation) -> bool {
    let n = track.times.len();
    let finite = forall|i: int| 0 <= i < n ==> (#[trigger] track.times[i]).finite();
    let rising = forall|i: int, j: int|
        0 <= i < j < n ==> (#[trigger] track.times[i]).place() < (#[trigger] track.times[j]).place();
    let kind = track.values is Quats <==> track.property == Property::Rotation;
    let stored = match track.values {
        ValuesView::Vec3s(values) => values.len(),
        ValuesView::Quats(values) => values.len(),
    };
    let counted = stored == if track.interpolation == Interpolation::CubicSpline {
        3 * n
    } else {
        n
    };
    match violation {
        TrackShapeViolation::EmptyTimes => n == 0,
        TrackShapeViolation::NonFiniteTime => n > 0 && !finite,
        TrackShapeViolation::TimesNotStrictlyIncreasing => n > 0 && finite && !rising,
        TrackShapeViolation::ValueTypeMismatchesProperty => n > 0 && finite && rising && !kind,
        TrackShapeViolation::ValueCountMismatch => n > 0 && finite && rising && kind && !counted,
        TrackShapeViolation::NonFiniteValue => n > 0 && finite && rising && kind && counted
            && !acceptance_laws::sound(track),
    }
}

/// Whether key `k` is the first of a cubic spline that does not stand still,
/// and for this reason.
pub open spec fn varies(
    track: TrackView,
    k: int,
    reason: FootCycleCubicSplineRefusalV1,
) -> bool {
    let same = match track.values {
        ValuesView::Vec3s(values) => values[3 * k + 1].x.bits == values[1].x.bits && values[3 * k
            + 1].y.bits == values[1].y.bits && values[3 * k + 1].z.bits == values[1].z.bits,
        ValuesView::Quats(values) => values[3 * k + 1].x.bits == values[1].x.bits && values[3 * k
            + 1].y.bits == values[1].y.bits && values[3 * k + 1].z.bits == values[1].z.bits
            && values[3 * k + 1].w.bits == values[1].w.bits,
    };
    &&& 0 <= k < track.times.len()
    &&& forall|j: int| 0 <= j < k ==> acceptance_laws::key_still(track.values, j)
    &&& !acceptance_laws::key_still(track.values, k)
    &&& reason == FootCycleCubicSplineRefusalV1::DifferingValues <==> !same
}

/// Whether row `r` is the first that does not keep apart from those before it,
/// and whether that is for its source time.
pub open spec fn collides(
    track: TrackView,
    points: Seq<ContactTimeWarpControlPointV1>,
    duration: Binary32,
    r: int,
    source: bool,
) -> bool {
    let all = rows::track_rows(points, duration, track);
    &&& 0 <= r < all.len()
    &&& forall|m: int, q: int|
        #[trigger] acceptance_laws::next_carrier(all, m, q) && q < r
            ==> !acceptance_laws::too_near(track, all[m], all[q])
    &&& forall|q: int|
        0 < q < r ==> acceptance_laws::row_time(track, points, duration, all[q - 1]).place()
            < acceptance_laws::row_time(track, points, duration, #[trigger] all[q]).place()
    &&& source <==> exists|m: int| #[trigger]
        acceptance_laws::next_carrier(all, m, r) && acceptance_laws::too_near(
            track,
            all[m],
            all[r],
        )
    &&& !source ==> r > 0 && acceptance_laws::row_time(track, points, duration, all[r]).place()
        <= acceptance_laws::row_time(track, points, duration, all[r - 1]).place()
}

/// Why track `k` is refused, said of what the tracks up to it hold.
pub open spec fn track_cause(
    clip: ClipView,
    points: Seq<ContactTimeWarpControlPointV1>,
    duration: Binary32,
    k: int,
    error: FootCycleClipWarpError,
) -> bool {
    let track = clip.tracks[k];
    let upto = clip.tracks.take(k + 1);
    let moves = acceptance_laws::moves(points);
    let taken = exists|j: int|
        0 <= j < k && (#[trigger] clip.tracks[j]).bone == track.bone && clip.tracks[j].property
            == track.property;
    let input_keys = acceptance_laws::keys_of(upto);
    let input_values = acceptance_laws::values_of(upto);
    let generated = acceptance_laws::retimed_keys_of(upto, points, duration, moves);
    let work = acceptance_laws::work_of(upto, points, duration, moves);
    let counted = !taken && input_keys <= 1_048_576 && input_values <= 3_145_728;
    let spline = track.interpolation == Interpolation::CubicSpline;
    match error {
        FootCycleClipWarpError::DuplicateTrackTarget { track_index, bone, property } => {
            track_index == k && bone == track.bone && property == track.property && taken
        },
        FootCycleClipWarpError::LimitExceeded { resource, observed, maximum } => {
            &&& !taken
            &&& match resource {
                FootCycleClipResourceV1::InputKeys => {
                    &&& observed == input_keys
                    &&& maximum == 1_048_576
                },
                FootCycleClipResourceV1::InputValues => {
                    &&& observed == input_values
                    &&& maximum == 3_145_728
                    &&& input_keys <= 1_048_576
                },
                FootCycleClipResourceV1::GeneratedKeys => {
                    &&& observed == generated
                    &&& maximum == 1_048_576
                    &&& counted && acceptance_laws::fit(track, points, duration, moves)
                },
                FootCycleClipResourceV1::Work => {
                    &&& observed == work
                    &&& maximum == 8_388_608
                    &&& counted && acceptance_laws::fit(track, points, duration, moves)
                    &&& generated <= 1_048_576
                },
                _ => false,
            }
            &&& observed > maximum
        },
        FootCycleClipWarpError::CountOverflow { resource } => {
            &&& !taken
            &&& match resource {
                FootCycleClipResourceV1::InputKeys => input_keys > usize::MAX,
                FootCycleClipResourceV1::InputValues => input_values > usize::MAX,
                FootCycleClipResourceV1::GeneratedKeys => generated > usize::MAX,
                FootCycleClipResourceV1::Work => work > usize::MAX,
                _ => false,
            }
        },
        FootCycleClipWarpError::InvalidTrack { track_index, source } => {
            &&& track_index == k && counted
            &&& source matches DocumentShapeError::TrackShape { clip_index, node, violation }
                && clip_index == 0 && node == track.bone && breaks(track, violation)
        },
        FootCycleClipWarpError::TrackTimeOutOfRange {
            track_index,
            key_index,
            time_s,
            duration_s,
        } => {
            &&& track_index == k && counted && acceptance_laws::sound(track)
            &&& key_index < track.times.len() && time_s == track.times[key_index as int]
            &&& duration_s == duration
            &&& time_s.place() < 0 || time_s.place() > duration.place()
            &&& forall|i: int|
                0 <= i < key_index ==> 0 <= (#[trigger] track.times[i]).place() <= duration.place()
        },
        FootCycleClipWarpError::InvalidQuaternionKey { track_index, key_index } => {
            &&& track_index == k && counted && acceptance_laws::sound(track)
            &&& acceptance_laws::inside(track, duration)
            &&& key_index < track.times.len()
            &&& track.values matches ValuesView::Quats(values) && !acceptance_laws::key_turns(
                track,
                values,
                key_index as int,
            ) && forall|i: int|
                0 <= i < key_index ==> acceptance_laws::key_turns(track, values, i)
        },
        FootCycleClipWarpError::UnsupportedCubicSpline { track_index, reason } => {
            &&& track_index == k && counted && acceptance_laws::sound(track)
            &&& acceptance_laws::inside(track, duration) && acceptance_laws::turns(track)
            &&& spline && track.times.len() > 1
            &&& exists|i: int| varies(track, i, reason)
        },
        FootCycleClipWarpError::SourceTimeCollision { track_index } => {
            &&& track_index == k && counted && acceptance_laws::sound(track)
            &&& acceptance_laws::inside(track, duration) && acceptance_laws::turns(track)
            &&& !spline && moves
            &&& exists|r: int| collides(track, points, duration, r, true)
        },
        FootCycleClipWarpError::TimeCollision { track_index } => {
            &&& track_index == k && counted && acceptance_laws::sound(track)
            &&& acceptance_laws::inside(track, duration) && acceptance_laws::turns(track)
            &&& !spline && moves
            &&& exists|r: int| collides(track, points, duration, r, false)
        },
        _ => false,
    }
}

proof fn lemma_breaks(track: TrackView)
    ensures
        track.shape_violation() matches Some(violation) ==> breaks(track, violation),
{
    acceptance_laws::lemma_sound(track);
    if track.times_finite() && !track.times_increase() {
        let (i, j) = choose|i: int, j: int|
            0 <= i < j < track.times.len() && !(#[trigger] track.times[i]).lt_number(
                #[trigger] track.times[j],
            );
        assert(track.times[i].place() >= track.times[j].place());
    }
    if track.times_increase() {
        assert forall|i: int, j: int| 0 <= i < j < track.times.len() implies (
        #[trigger] track.times[i]).place() < (#[trigger] track.times[j]).place() by {
            assert(track.times[i].lt_number(track.times[j]));
        }
    }
}

proof fn lemma_first_outside(times: Seq<Binary32>, duration: Binary32, i: int)
    requires
        0 <= i,
        duration.finite(),
        forall|j: int| 0 <= j < times.len() ==> (#[trigger] times[j]).finite(),
    ensures
        preflight::first_outside(times, duration, i) matches Some(k) ==> {
            &&& i <= k < times.len()
            &&& times[k].place() < 0 || times[k].place() > duration.place()
            &&& forall|j: int|
                i <= j < k ==> 0 <= (#[trigger] times[j]).place() <= duration.place()
        },
    decreases times.len() - i,
{
    if i < times.len() {
        lemma_first_outside(times, duration, i + 1);
    }
}

proof fn lemma_first_unnormalizable(track: TrackView, values: Seq<Quat>, i: int)
    requires
        0 <= i,
    ensures
        preflight::first_unnormalizable(track, values, i) matches Some(k) ==> {
            &&& i <= k < track.times.len()
            &&& !acceptance_laws::key_turns(track, values, k)
            &&& forall|j: int| i <= j < k ==> acceptance_laws::key_turns(track, values, j)
        },
    decreases track.times.len() - i,
{
    if i < track.times.len() {
        lemma_first_unnormalizable(track, values, i + 1);
        assert(values[track.value_at(i)].normalizable() <==> acceptance_laws::key_turns(
            track,
            values,
            i,
        ));
    }
}

proof fn lemma_key_still(values: ValuesView, k: int)
    ensures
        acceptance_laws::key_still(values, k) <==> {
            &&& values.sample(3 * k + 1) == values.sample(1)
            &&& values.sample(3 * k).zero()
            &&& values.sample(3 * k + 2).zero()
        },
        values.sample(3 * k + 1) == values.sample(1) <==> match values {
            ValuesView::Vec3s(values) => values[3 * k + 1].x.bits == values[1].x.bits && values[3
                * k + 1].y.bits == values[1].y.bits && values[3 * k + 1].z.bits == values[1].z.bits,
            ValuesView::Quats(values) => values[3 * k + 1].x.bits == values[1].x.bits && values[3
                * k + 1].y.bits == values[1].y.bits && values[3 * k + 1].z.bits == values[1].z.bits
                && values[3 * k + 1].w.bits == values[1].w.bits,
        },
{
    match values {
        ValuesView::Vec3s(stored) => {
            let a = stored[3 * k + 1];
            let b = stored[1];
            if a.x.bits == b.x.bits && a.y.bits == b.y.bits && a.z.bits == b.z.bits {
                acceptance_laws::lemma_same_vec3(a, b);
            }
        },
        ValuesView::Quats(stored) => {
            let a = stored[3 * k + 1];
            let b = stored[1];
            if a.x.bits == b.x.bits && a.y.bits == b.y.bits && a.z.bits == b.z.bits && a.w.bits
                == b.w.bits {
                acceptance_laws::lemma_same_quat(a, b);
            }
        },
    }
}

proof fn lemma_first_variation(track: TrackView, key: int) -> (k: int)
    requires
        0 <= key,
        forall|j: int| 0 <= j < key ==> acceptance_laws::key_still(track.values, j),
    ensures
        cubic::first_variation(track.values, track.times.len(), key) matches Some(reason)
            ==> varies(track, k, reason),
    decreases track.times.len() - key,
{
    if key < track.times.len() {
        lemma_key_still(track.values, key);
        if acceptance_laws::key_still(track.values, key) {
            lemma_first_variation(track, key + 1)
        } else {
            key
        }
    } else {
        key
    }
}

/// Whether a valid map and a sound track within the clip meet.
spec fn walkable(
    track: TrackView,
    points: Seq<ContactTimeWarpControlPointV1>,
    duration: Binary32,
) -> bool {
    &&& operation::valid_map(points)
    &&& map_laws::proper_duration(duration)
    &&& track.times.len() <= usize::MAX
    &&& acceptance_laws::sound(track)
    &&& acceptance_laws::inside(track, duration)
}

proof fn lemma_row_collision(
    track: TrackView,
    points: Seq<ContactTimeWarpControlPointV1>,
    duration: Binary32,
    r: int,
)
    requires
        walkable(track, points, duration),
        0 <= r < rows::track_rows(points, duration, track).len(),
    ensures
        ({
            let all = rows::track_rows(points, duration, track);
            &&& keys::source_collision(track.times, all, r) <==> exists|m: int| #[trigger]
                acceptance_laws::next_carrier(all, m, r) && acceptance_laws::too_near(
                    track,
                    all[m],
                    all[r],
                )
            &&& keys::output_collision(track, points, duration, all, r) <==> r > 0
                && acceptance_laws::row_time(track, points, duration, all[r]).place()
                <= acceptance_laws::row_time(track, points, duration, all[r - 1]).place()
        }),
{
    let all = rows::track_rows(points, duration, track);
    acceptance_laws::lemma_row_proper(track, points, duration, r);
    if r > 0 {
        acceptance_laws::lemma_row_proper(track, points, duration, r - 1);
    }
    let last = acceptance_laws::lemma_last_carrier(track.times, all, r);
    if last >= 0 {
        acceptance_laws::lemma_row_proper(track, points, duration, last);
        if row_laws::carried(all[r]) is Some {
            assert(acceptance_laws::next_carrier(all, last, r));
        }
    }
    if exists|m: int| #[trigger]
        acceptance_laws::next_carrier(all, m, r) && acceptance_laws::too_near(
            track,
            all[m],
            all[r],
        ) {
        let m = choose|m: int| #[trigger]
            acceptance_laws::next_carrier(all, m, r) && acceptance_laws::too_near(
                track,
                all[m],
                all[r],
            );
        if last < m {
            assert(row_laws::carried(all[m]) is None);
        }
        if last > m {
            assert(row_laws::carried(all[last]) is None);
        }
        assert(last == m);
    }
}

proof fn lemma_first_collision(
    track: TrackView,
    track_index: usize,
    points: Seq<ContactTimeWarpControlPointV1>,
    duration: Binary32,
    i: int,
) -> (r: int)
    requires
        walkable(track, points, duration),
        0 <= i,
        forall|q: int|
            0 <= q < i && q < rows::track_rows(points, duration, track).len()
                ==> #[trigger] keys::row_refusal(
                track,
                track_index,
                points,
                duration,
                rows::track_rows(points, duration, track),
                q,
            ) is None,
    ensures
        match keys::first_row_refusal(
            track,
            track_index,
            points,
            duration,
            rows::track_rows(points, duration, track),
            i,
        ) {
            None => true,
            Some(FootCycleClipWarpError::SourceTimeCollision { track_index: t }) => t
                == track_index && collides(track, points, duration, r, true),
            Some(FootCycleClipWarpError::TimeCollision { track_index: t }) => t == track_index
                && collides(track, points, duration, r, false),
            _ => false,
        },
    decreases rows::track_rows(points, duration, track).len() - i,
{
    let all = rows::track_rows(points, duration, track);
    if i >= all.len() {
        i
    } else if keys::row_refusal(track, track_index, points, duration, all, i) is None {
        lemma_first_collision(track, track_index, points, duration, i + 1)
    } else {
        assert forall|m: int, q: int| #[trigger]
            acceptance_laws::next_carrier(all, m, q) && q < i implies !acceptance_laws::too_near(
            track,
            all[m],
            all[q],
        ) by {
            assert(keys::row_refusal(track, track_index, points, duration, all, q) is None);
            lemma_row_collision(track, points, duration, q);
        }
        assert forall|q: int| 0 < q < i implies acceptance_laws::row_time(
            track,
            points,
            duration,
            all[q - 1],
        ).place() < acceptance_laws::row_time(
            track,
            points,
            duration,
            #[trigger] all[q],
        ).place() by {
            assert(keys::row_refusal(track, track_index, points, duration, all, q) is None);
            lemma_row_collision(track, points, duration, q);
        }
        lemma_row_collision(track, points, duration, i);
        i
    }
}

/// Why what a track holds is refused.
#[verifier::spinoff_prover]
#[verifier::rlimit(60)]
proof fn lemma_content_cause(
    clip: ClipView,
    points: Seq<ContactTimeWarpControlPointV1>,
    duration: Binary32,
    k: int,
)
    requires
        operation::valid_map(points),
        map_laws::proper_duration(duration),
        0 <= k < clip.tracks.len() <= usize::MAX,
        clip.tracks[k].times.len() <= usize::MAX,
        !preflight::target_taken(clip, k),
        acceptance_laws::keys_of(clip.tracks.take(k + 1)) <= 1_048_576,
        acceptance_laws::values_of(clip.tracks.take(k + 1)) <= 3_145_728,
    ensures
        preflight::content_refusal(
            clip.tracks[k],
            k as usize,
            points,
            duration,
            candidate::identity_map(points),
        ) matches Some(error) ==> track_cause(clip, points, duration, k, error),
{
    let track = clip.tracks[k];
    acceptance_laws::lemma_moves(points);
    acceptance_laws::lemma_sound(track);
    lemma_breaks(track);
    assert(!exists|j: int|
        0 <= j < k && (#[trigger] clip.tracks[j]).bone == track.bone && clip.tracks[j].property
            == track.property);
    if acceptance_laws::sound(track) {
        candidate_laws::lemma_times_in_range(track.times, duration, 0);
        lemma_first_outside(track.times, duration, 0);
        acceptance_laws::lemma_turns(track);
        if let ValuesView::Quats(values) = track.values {
            lemma_first_unnormalizable(track, values, 0);
        }
        if acceptance_laws::inside(track, duration) && acceptance_laws::turns(track) {
            let i = lemma_first_variation(track, 0);
            let r = lemma_first_collision(track, k as usize, points, duration, 0);
        }
    }
}

/// Why the first refused track is refused.
#[verifier::spinoff_prover]
#[verifier::rlimit(60)]
proof fn lemma_track_cause(
    clip: ClipView,
    points: Seq<ContactTimeWarpControlPointV1>,
    duration: Binary32,
    k: int,
)
    requires
        operation::valid_map(points),
        map_laws::proper_duration(duration),
        0 <= k < clip.tracks.len() <= usize::MAX,
        clip.tracks[k].times.len() <= usize::MAX,
    ensures
        preflight::track_refusal(
            clip,
            points,
            duration,
            candidate::identity_map(points),
            k,
        ) matches Some(error) ==> track_cause(clip, points, duration, k, error),
{
    let identity = candidate::identity_map(points);
    let track = clip.tracks[k];
    acceptance_laws::lemma_moves(points);
    acceptance_laws::lemma_counts_are_sums(clip, points, duration, identity, k + 1);
    let counted = preflight::counts(clip, points, duration, identity, k + 1);
    let before = preflight::counts(clip, points, duration, identity, k);
    assert(counted == preflight::charged(before, track, points, duration, identity));
    if preflight::target_taken(clip, k) {
        let j = choose|j: int|
            0 <= j < k && (#[trigger] clip.tracks[j]).bone == track.bone && clip.tracks[j].property
                == track.property;
        assert(clip.tracks[j].bone == track.bone);
    } else if counted.input_keys <= 1_048_576 && counted.input_values <= 3_145_728 {
        lemma_content_cause(clip, points, duration, k);
        acceptance_laws::lemma_content(track, k as usize, points, duration, identity);
    }
}

/// Whether an error is about the duration or the operation, not about tracks.
pub open spec fn about_operation(error: FootCycleClipWarpError) -> bool {
    match error {
        FootCycleClipWarpError::InvalidClipDuration { .. } => true,
        FootCycleClipWarpError::UnsupportedOperation => true,
        FootCycleClipWarpError::UnsupportedVersion { .. } => true,
        FootCycleClipWarpError::DurationMismatch { .. } => true,
        FootCycleClipWarpError::InvalidControlPointCount { .. } => true,
        FootCycleClipWarpError::InvalidControlPoint { .. } => true,
        FootCycleClipWarpError::InvalidMapEndpoints => true,
        FootCycleClipWarpError::NonMonotoneMap { .. } => true,
        _ => false,
    }
}

/// A track is refused alike in a clip that is cut behind it.
#[verifier::spinoff_prover]
#[verifier::rlimit(60)]
proof fn lemma_cut_refusal(
    clip: ClipView,
    points: Seq<ContactTimeWarpControlPointV1>,
    duration: Binary32,
    identity: bool,
    n: int,
    i: int,
)
    requires
        0 <= i < n <= clip.tracks.len(),
    ensures
        preflight::track_refusal(cut(clip, n), points, duration, identity, i)
            == preflight::track_refusal(clip, points, duration, identity, i),
{
    let other = cut(clip, n);
    assert(other.tracks[i] == clip.tracks[i]);
    candidate_laws::lemma_counts_of_prefix(other, clip, points, duration, identity, i);
    let bone = clip.tracks[i].bone;
    let property = clip.tracks[i].property;
    if preflight::target_taken(clip, i) {
        let j = choose|j: int|
            0 <= j < i && (#[trigger] clip.tracks[j]).bone == bone && clip.tracks[j].property
                == property;
        assert(other.tracks[j].bone == bone);
    }
    if preflight::target_taken(other, i) {
        let j = choose|j: int|
            0 <= j < i && (#[trigger] other.tracks[j]).bone == bone && other.tracks[j].property
                == property;
        assert(clip.tracks[j].bone == bone);
    }
}

#[verifier::spinoff_prover]
#[verifier::rlimit(60)]
proof fn lemma_cut_refusals(
    clip: ClipView,
    points: Seq<ContactTimeWarpControlPointV1>,
    duration: Binary32,
    identity: bool,
    n: int,
    i: int,
)
    requires
        0 <= i <= n <= clip.tracks.len(),
        forall|j: int|
            i <= j < n - 1 ==> #[trigger] preflight::track_refusal(
                clip,
                points,
                duration,
                identity,
                j,
            ) is None,
    ensures
        preflight::first_track_refusal(cut(clip, n), points, duration, identity, i) == if i < n {
            preflight::track_refusal(clip, points, duration, identity, n - 1)
        } else {
            None
        },
    decreases n - i,
{
    if i < n {
        lemma_cut_refusal(clip, points, duration, identity, n, i);
        if i < n - 1 {
            assert(preflight::track_refusal(clip, points, duration, identity, i) is None);
        }
        lemma_cut_refusals(clip, points, duration, identity, n, i + 1);
    }
}

/// What a refusal for a clip says. Too many tracks are refused first, and a
/// name that is too long next. Every other refusal is for one track: the clip
/// without that track and those after it is accepted, the clip without those
/// after it is refused alike, and what the tracks up to it hold is the cause.
#[verifier::spinoff_prover]
#[verifier::rlimit(60)]
pub proof fn law_track_refusals_name_their_cause(
    clip: ClipView,
    operation: ContactTransformOperationV1,
)
    requires
        clip.tracks.len() <= usize::MAX,
        vstd::utf8::encode_utf8(clip.name).len() <= usize::MAX,
        forall|t: int|
            0 <= t < clip.tracks.len() ==> (#[trigger] clip.tracks[t]).times.len() <= usize::MAX,
    ensures
        match candidate::warp_refusal(clip, operation) {
            None => true,
            Some(
                FootCycleClipWarpError::LimitExceeded {
                    resource: FootCycleClipResourceV1::Tracks,
                    observed,
                    maximum,
                },
            ) => {
                &&& observed == clip.tracks.len()
                &&& maximum == 4096
                &&& observed > maximum
            },
            Some(
                FootCycleClipWarpError::LimitExceeded {
                    resource: FootCycleClipResourceV1::NameBytes,
                    observed,
                    maximum,
                },
            ) => {
                &&& clip.tracks.len() <= 4096
                &&& observed == vstd::utf8::encode_utf8(clip.name).len()
                &&& maximum == 65536
                &&& observed > maximum
            },
            Some(error) => about_operation(error) || {
                &&& clip.tracks.len() <= 4096
                &&& vstd::utf8::encode_utf8(clip.name).len() <= 65536
                &&& exists|k: int|
                    {
                        &&& 0 <= k < clip.tracks.len()
                        &&& candidate::warp_refusal(cut(clip, k), operation) is None
                        &&& candidate::warp_refusal(cut(clip, k + 1), operation) == Some(error)
                        &&& #[trigger] track_cause(
                            clip,
                            operation.rows(),
                            clip.duration_s.narrowed(),
                            k,
                            error,
                        )
                    }
            },
        },
{
    let points = operation.rows();
    let duration = clip.duration_s.narrowed();
    let identity = candidate::identity_map(points);
    let refusal = candidate::warp_refusal(clip, operation);
    operation::law_accepted_maps_are_the_valid_ones(points);
    if operation::operation_refusal(clip.duration_s, operation) is None && clip.tracks.len()
        <= 4096 && vstd::utf8::encode_utf8(clip.name).len() <= 65536 {
        let k = acceptance_laws::lemma_first_refused_track(clip, points, duration, identity, 0);
        if k < clip.tracks.len() {
            lemma_track_cause(clip, points, duration, k);
            lemma_cut_refusals(clip, points, duration, identity, k, 0);
            lemma_cut_refusals(clip, points, duration, identity, k + 1, 0);
            if k > 0 {
                assert(preflight::track_refusal(clip, points, duration, identity, k - 1) is None);
            }
            assert(cut(clip, k + 1).tracks.len() == k + 1);
            assert(candidate::warp_refusal(cut(clip, k), operation) is None);
            assert(candidate::warp_refusal(cut(clip, k + 1), operation) == refusal);
            assert(track_cause(clip, points, duration, k, refusal->Some_0));
        }
    }
}

} // verus!
