//! Which clips and operations are accepted, and what each refusal says.

use crate::binary32::Binary32;
use crate::candidate;
use crate::candidate_laws;
use crate::cubic;
use crate::error::FootCycleClipWarpError;
use crate::keys;
use crate::map_laws;
use crate::model;
use crate::model::ClipView;
use crate::model::Interpolation;
use crate::model::Property;
use crate::model::Quat;
use crate::model::TrackView;
use crate::model::ValuesView;
use crate::model::Vec3;
use crate::number_laws;
use crate::operation;
use crate::plan::ContactTimeWarpControlPointV1;
use crate::plan::ContactTransformOperationV1;
use crate::preflight;
use crate::row_laws;
use crate::rows;
use crate::rows::FootCycleClipWarpRowV1;
use vstd::prelude::*;

verus! {

/// The first refused track from `i` on, or the number of tracks if there is
/// none.
pub proof fn lemma_first_refused_track(
    clip: ClipView,
    points: Seq<ContactTimeWarpControlPointV1>,
    duration: Binary32,
    identity: bool,
    i: int,
) -> (k: int)
    requires
        0 <= i <= clip.tracks.len(),
    ensures
        i <= k <= clip.tracks.len(),
        forall|j: int|
            i <= j < k ==> #[trigger] preflight::track_refusal(clip, points, duration, identity, j)
                is None,
        k < clip.tracks.len() ==> preflight::track_refusal(clip, points, duration, identity, k)
            is Some && preflight::first_track_refusal(clip, points, duration, identity, i)
            == preflight::track_refusal(clip, points, duration, identity, k),
        k == clip.tracks.len() ==> preflight::first_track_refusal(
            clip,
            points,
            duration,
            identity,
            i,
        ) is None,
    decreases clip.tracks.len() - i,
{
    if i >= clip.tracks.len() || preflight::track_refusal(clip, points, duration, identity, i)
        is Some {
        i
    } else {
        lemma_first_refused_track(clip, points, duration, identity, i + 1)
    }
}

/// The keys of a track are refused for a collision or not at all.
pub proof fn lemma_keys_collide(
    track: TrackView,
    track_index: usize,
    points: Seq<ContactTimeWarpControlPointV1>,
    duration: Binary32,
    rows: Seq<FootCycleClipWarpRowV1>,
    i: int,
)
    ensures
        match keys::first_row_refusal(track, track_index, points, duration, rows, i) {
            None => true,
            Some(FootCycleClipWarpError::SourceTimeCollision { track_index: t }) => t
                == track_index,
            Some(FootCycleClipWarpError::TimeCollision { track_index: t }) => t == track_index,
            Some(_) => false,
        },
    decreases rows.len() - i,
{
    if i < rows.len() {
        lemma_keys_collide(track, track_index, points, duration, rows, i + 1);
    }
}

/// A track is refused for its target only where an earlier track animates the
/// same property of the same bone, and the refusal names that property and
/// bone. Tracks with pairwise distinct targets are never refused for them, and
/// no clip with two equal targets is accepted.
#[verifier::spinoff_prover]
#[verifier::rlimit(60)]
pub proof fn law_only_equal_targets_are_refused(
    clip: ClipView,
    operation: ContactTransformOperationV1,
)
    ensures
        candidate::warp_refusal(clip, operation) matches Some(
            FootCycleClipWarpError::DuplicateTrackTarget { track_index, bone, property },
        ) ==> {
            &&& 0 <= track_index < clip.tracks.len()
            &&& clip.tracks[track_index as int].bone == bone
            &&& clip.tracks[track_index as int].property == property
            &&& exists|j: int|
                0 <= j < track_index && (#[trigger] clip.tracks[j]).bone == bone
                    && clip.tracks[j].property == property
            &&& forall|j: int, l: int|
                0 <= j < l < track_index ==> (#[trigger] clip.tracks[j]).bone != (
                #[trigger] clip.tracks[l]).bone || clip.tracks[j].property
                    != clip.tracks[l].property
        },
        (forall|j: int, l: int|
            0 <= j < l < clip.tracks.len() ==> (#[trigger] clip.tracks[j]).bone != (
            #[trigger] clip.tracks[l]).bone || clip.tracks[j].property != clip.tracks[l].property)
            ==> !(candidate::warp_refusal(clip, operation) matches Some(
            FootCycleClipWarpError::DuplicateTrackTarget { .. },
        )),
        candidate::warp_refusal(clip, operation) is None ==> forall|j: int, l: int|
            0 <= j < l < clip.tracks.len() ==> (#[trigger] clip.tracks[j]).bone != (
            #[trigger] clip.tracks[l]).bone || clip.tracks[j].property != clip.tracks[l].property,
{
    let points = operation.rows();
    let duration = clip.duration_s.narrowed();
    let identity = candidate::identity_map(points);
    let k = lemma_first_refused_track(clip, points, duration, identity, 0);
    assert forall|j: int, l: int| 0 <= j < l < k implies (#[trigger] clip.tracks[j]).bone != (
    #[trigger] clip.tracks[l]).bone || clip.tracks[j].property != clip.tracks[l].property by {
        assert(preflight::track_refusal(clip, points, duration, identity, l) is None);
        assert(!preflight::target_taken(clip, l));
    }
    if k < clip.tracks.len() {
        lemma_keys_collide(
            clip.tracks[k],
            k as usize,
            points,
            duration,
            rows::track_rows(points, duration, clip.tracks[k]),
            0,
        );
    }
}

/// A track of sound shape: it has keys, at finite and strictly increasing
/// times, and stores finite values of the kind of its property, one per key or
/// three per key of a cubic spline.
pub open spec fn sound(track: TrackView) -> bool {
    let wanted = if track.interpolation == Interpolation::CubicSpline {
        3 * track.times.len()
    } else {
        track.times.len()
    };
    &&& track.times.len() > 0
    &&& forall|i: int| 0 <= i < track.times.len() ==> (#[trigger] track.times[i]).finite()
    &&& forall|i: int, j: int|
        0 <= i < j < track.times.len() ==> (#[trigger] track.times[i]).place() < (
        #[trigger] track.times[j]).place()
    &&& match track.values {
        ValuesView::Vec3s(values) => {
            &&& track.property == Property::Translation || track.property == Property::Scale
            &&& values.len() == wanted
            &&& forall|i: int|
                0 <= i < values.len() ==> (#[trigger] values[i]).x.finite()
                    && values[i].y.finite() && values[i].z.finite()
        },
        ValuesView::Quats(values) => {
            &&& track.property == Property::Rotation
            &&& values.len() == wanted
            &&& forall|i: int|
                0 <= i < values.len() ==> (#[trigger] values[i]).x.finite()
                    && values[i].y.finite() && values[i].z.finite() && values[i].w.finite()
        },
    }
}

/// Whether every key of a track lies within a clip of this duration.
pub open spec fn inside(track: TrackView, duration: Binary32) -> bool {
    forall|i: int|
        0 <= i < track.times.len() ==> 0 <= (#[trigger] track.times[i]).place()
            <= duration.place()
}

/// Whether the quaternion of key `k` has a finite and positive squared length.
pub open spec fn key_turns(track: TrackView, values: Seq<Quat>, k: int) -> bool {
    let value = if track.interpolation == Interpolation::CubicSpline {
        values[3 * k + 1]
    } else {
        values[k]
    };
    value.squared_length().finite() && value.squared_length().place() > 0
}

/// Whether the quaternion of every key of a rotation track has a finite and
/// positive squared length; the tangents of a cubic spline need not.
pub open spec fn turns(track: TrackView) -> bool {
    match track.values {
        ValuesView::Quats(values) => forall|k: int|
            0 <= k < track.times.len() ==> key_turns(track, values, k),
        ValuesView::Vec3s(_) => true,
    }
}

/// Whether key `k` of a cubic spline has the value of the first key, bit for
/// bit, and tangents of zero.
pub open spec fn key_still(values: ValuesView, k: int) -> bool {
    match values {
        ValuesView::Vec3s(values) => {
            &&& values[3 * k + 1].x.bits == values[1].x.bits
            &&& values[3 * k + 1].y.bits == values[1].y.bits
            &&& values[3 * k + 1].z.bits == values[1].z.bits
            &&& values[3 * k].x.place() == 0
            &&& values[3 * k].y.place() == 0
            &&& values[3 * k].z.place() == 0
            &&& values[3 * k + 2].x.place() == 0
            &&& values[3 * k + 2].y.place() == 0
            &&& values[3 * k + 2].z.place() == 0
        },
        ValuesView::Quats(values) => {
            &&& values[3 * k + 1].x.bits == values[1].x.bits
            &&& values[3 * k + 1].y.bits == values[1].y.bits
            &&& values[3 * k + 1].z.bits == values[1].z.bits
            &&& values[3 * k + 1].w.bits == values[1].w.bits
            &&& values[3 * k].x.place() == 0
            &&& values[3 * k].y.place() == 0
            &&& values[3 * k].z.place() == 0
            &&& values[3 * k].w.place() == 0
            &&& values[3 * k + 2].x.place() == 0
            &&& values[3 * k + 2].y.place() == 0
            &&& values[3 * k + 2].z.place() == 0
            &&& values[3 * k + 2].w.place() == 0
        },
    }
}

/// Whether a cubic spline stands still: it has one key, or each of its keys
/// has the value of the first, bit for bit, and tangents of zero.
pub open spec fn still(track: TrackView) -> bool {
    track.times.len() > 1 ==> forall|k: int|
        0 <= k < track.times.len() ==> key_still(track.values, k)
}

/// The output time of a row: that of its control point if it carries one, else
/// the mapped time of its authored key.
pub open spec fn row_time(
    track: TrackView,
    points: Seq<ContactTimeWarpControlPointV1>,
    duration: Binary32,
    row: FootCycleClipWarpRowV1,
) -> Binary32 {
    match row {
        FootCycleClipWarpRowV1::Authored(index) => keys::mapped(
            track.times[index as int],
            duration,
            points,
        ),
        FootCycleClipWarpRowV1::Knot(knot) => knot.output_time,
        FootCycleClipWarpRowV1::Coalesced(_, knot) => knot.output_time,
    }
}

/// Whether the control points of two rows are too near each other: their
/// source times, or the second source time and the key that the first shares,
/// are equal or adjacent.
pub open spec fn too_near(
    track: TrackView,
    first: FootCycleClipWarpRowV1,
    second: FootCycleClipWarpRowV1,
) -> bool {
    match (row_laws::carried(first), row_laws::carried(second)) {
        (Some(a), Some(b)) => {
            ||| -1 <= b.source_time.place() - a.source_time.place() <= 1
            ||| match first {
                FootCycleClipWarpRowV1::Coalesced(index, _) => -1 <= b.source_time.place()
                    - track.times[index as int].place() <= 1,
                _ => false,
            }
        },
        _ => false,
    }
}

/// Whether row `q` is the next row after row `r` that carries a control point.
pub open spec fn next_carrier(rows: Seq<FootCycleClipWarpRowV1>, r: int, q: int) -> bool {
    &&& 0 <= r < q < rows.len()
    &&& row_laws::carried(rows[r]) is Some
    &&& row_laws::carried(rows[q]) is Some
    &&& forall|m: int| r < m < q ==> row_laws::carried(#[trigger] rows[m]) is None
}

/// Whether the rows of a track keep apart: no control point is too near the
/// one before it, and the output times strictly increase.
pub open spec fn rows_clear(
    track: TrackView,
    points: Seq<ContactTimeWarpControlPointV1>,
    duration: Binary32,
) -> bool {
    let all = rows::track_rows(points, duration, track);
    &&& forall|r: int, q: int|
        #[trigger] next_carrier(all, r, q) ==> !too_near(track, all[r], all[q])
    &&& forall|r: int|
        0 < r < all.len() ==> row_time(track, points, duration, all[r - 1]).place() < row_time(
            track,
            points,
            duration,
            #[trigger] all[r],
        ).place()
}

/// Whether a track can be retimed: it is sound, lies within the clip, turns
/// properly, and stands still if it is a cubic spline; if the map moves
/// anything, the rows of any other track keep apart.
pub open spec fn fit(
    track: TrackView,
    points: Seq<ContactTimeWarpControlPointV1>,
    duration: Binary32,
    moves: bool,
) -> bool {
    &&& sound(track)
    &&& inside(track, duration)
    &&& turns(track)
    &&& track.interpolation == Interpolation::CubicSpline ==> still(track)
    &&& track.interpolation != Interpolation::CubicSpline && moves ==> rows_clear(
        track,
        points,
        duration,
    )
}

pub proof fn lemma_sound(track: TrackView)
    ensures
        track.shape_violation() is None <==> sound(track),
{
    if track.shape_violation() is None {
        assert(track.times_finite() && track.times_increase());
        match track.values {
            ValuesView::Vec3s(values) => {
                assert(model::finite_vec3s(values));
            },
            ValuesView::Quats(values) => {
                assert(model::finite_quats(values));
            },
        }
        assert forall|i: int, j: int| 0 <= i < j < track.times.len() implies (
        #[trigger] track.times[i]).place() < (#[trigger] track.times[j]).place() by {
            assert(track.times[i].lt_number(track.times[j]));
        }
        assert(sound(track));
    }
    if sound(track) {
        assert(track.times_finite());
        assert(track.times_increase());
        match track.values {
            ValuesView::Vec3s(values) => {
                assert(model::finite_vec3s(values));
            },
            ValuesView::Quats(values) => {
                assert(model::finite_quats(values));
            },
        }
    }
}

#[verifier::spinoff_prover]
#[verifier::rlimit(60)]
pub proof fn lemma_turns(track: TrackView)
    ensures
        preflight::normalizable_keys(track) <==> turns(track),
{
    if let ValuesView::Quats(values) = track.values {
        candidate_laws::lemma_normalizable(track, values, 0);
        if preflight::normalizable_keys(track) {
            assert forall|k: int| 0 <= k < track.times.len() implies key_turns(
                track,
                values,
                k,
            ) by {
                assert(values[track.value_at(k)].normalizable());
            }
        }
        if turns(track) {
            assert forall|j: int| 0 <= j < track.times.len() implies (
            #[trigger] values[track.value_at(j)]).normalizable() by {
                assert(key_turns(track, values, j));
            }
        }
    }
}

pub proof fn lemma_same_vec3(a: Vec3, b: Vec3)
    requires
        a.x.bits == b.x.bits,
        a.y.bits == b.y.bits,
        a.z.bits == b.z.bits,
    ensures
        a == b,
{
}

pub proof fn lemma_same_quat(a: Quat, b: Quat)
    requires
        a.x.bits == b.x.bits,
        a.y.bits == b.y.bits,
        a.z.bits == b.z.bits,
        a.w.bits == b.w.bits,
    ensures
        a == b,
{
}

pub proof fn lemma_still(track: TrackView)
    ensures
        cubic::cubic_refusal(track) is None <==> still(track),
{
    cubic::law_kept_splines_are_constant(track);
    let n = track.times.len();
    if n > 1 {
        if cubic::constant(track.values, n) {
            assert forall|k: int| 0 <= k < n implies key_still(track.values, k) by {
                assert(track.values.sample(3 * k + 1) == track.values.sample(1));
            }
        }
        if still(track) {
            assert forall|k: int| 0 <= k < n implies {
                &&& #[trigger] track.values.sample(3 * k + 1) == track.values.sample(1)
                &&& track.values.sample(3 * k).zero()
                &&& track.values.sample(3 * k + 2).zero()
            } by {
                assert(key_still(track.values, k));
                match track.values {
                    ValuesView::Vec3s(values) => {
                        lemma_same_vec3(values[3 * k + 1], values[1]);
                    },
                    ValuesView::Quats(values) => {
                        lemma_same_quat(values[3 * k + 1], values[1]);
                    },
                }
            }
        }
    }
}

/// The last row before row `n` that carries a control point, or `-1`.
pub proof fn lemma_last_carrier(
    times: Seq<Binary32>,
    rows: Seq<FootCycleClipWarpRowV1>,
    n: int,
) -> (r: int)
    requires
        0 <= n <= rows.len(),
    ensures
        -1 <= r < n,
        r == -1 <==> keys::last_named(times, rows, n) is None,
        r >= 0 ==> keys::last_named(times, rows, n) == keys::named(times, rows[r])
            && row_laws::carried(rows[r]) is Some,
        forall|m: int| r < m < n ==> row_laws::carried(#[trigger] rows[m]) is None,
    decreases n,
{
    if n <= 0 {
        -1
    } else if keys::named(times, rows[n - 1]) is Some {
        n - 1
    } else {
        lemma_last_carrier(times, rows, n - 1)
    }
}

/// Rows none of which is refused from `i` on are not refused.
proof fn lemma_no_refused_row(
    track: TrackView,
    track_index: usize,
    points: Seq<ContactTimeWarpControlPointV1>,
    duration: Binary32,
    rows: Seq<FootCycleClipWarpRowV1>,
    i: int,
)
    requires
        0 <= i,
        forall|j: int|
            i <= j < rows.len() ==> #[trigger] keys::row_refusal(
                track,
                track_index,
                points,
                duration,
                rows,
                j,
            ) is None,
    ensures
        keys::first_row_refusal(track, track_index, points, duration, rows, i) is None,
    decreases rows.len() - i,
{
    if i < rows.len() {
        assert(keys::row_refusal(track, track_index, points, duration, rows, i) is None);
        lemma_no_refused_row(track, track_index, points, duration, rows, i + 1);
    }
}

/// The times of a row are numbers.
pub proof fn lemma_row_proper(
    track: TrackView,
    points: Seq<ContactTimeWarpControlPointV1>,
    duration: Binary32,
    r: int,
)
    requires
        operation::valid_map(points),
        map_laws::proper_duration(duration),
        track.times.len() <= usize::MAX,
        sound(track),
        inside(track, duration),
        0 <= r < rows::track_rows(points, duration, track).len(),
    ensures
        !row_time(
            track,
            points,
            duration,
            rows::track_rows(points, duration, track)[r],
        ).nan(),
        row_laws::carried(rows::track_rows(points, duration, track)[r]) matches Some(knot)
            ==> !knot.source_time.nan(),
        rows::track_rows(points, duration, track)[r] matches FootCycleClipWarpRowV1::Coalesced(
            index,
            _,
        ) ==> !track.times[index as int].nan(),
{
    let row = rows::track_rows(points, duration, track)[r];
    let knots = rows::track_knots(points, duration, track);
    assert(track.times_increase()) by {
        lemma_sound(track);
    }
    map_laws::law_knots_in_source_order(points, duration, track);
    row_laws::lemma_row_contents(track.times, knots, r);
    if let Some(knot) = row_laws::carried(row) {
        let k = choose|k: int| 0 <= k < knots.len() && knots[k] == knot;
        assert(knots[k] == knot);
    }
    match row {
        FootCycleClipWarpRowV1::Authored(index) => {
            map_laws::law_map_keeps_clip_and_its_ends(track.times[index as int], duration, points);
        },
        _ => {},
    }
}

/// The keys of a track are accepted exactly when its rows keep apart.
#[verifier::spinoff_prover]
#[verifier::rlimit(60)]
pub proof fn lemma_rows_clear(
    track: TrackView,
    track_index: usize,
    points: Seq<ContactTimeWarpControlPointV1>,
    duration: Binary32,
)
    requires
        operation::valid_map(points),
        map_laws::proper_duration(duration),
        track.times.len() <= usize::MAX,
        sound(track),
        inside(track, duration),
    ensures
        keys::keys_refusal(track, track_index, points, duration) is None <==> rows_clear(
            track,
            points,
            duration,
        ),
{
    let all = rows::track_rows(points, duration, track);
    if keys::keys_refusal(track, track_index, points, duration) is None {
        keys::lemma_accepted_rows(track, track_index, points, duration, all, 0);
        assert forall|r: int, q: int| #[trigger] next_carrier(all, r, q) implies !too_near(
            track,
            all[r],
            all[q],
        ) by {
            let last = lemma_last_carrier(track.times, all, q);
            assert(last == r) by {
                if last < r {
                    assert(row_laws::carried(all[r]) is None);
                }
                if last > r {
                    assert(row_laws::carried(all[last]) is None);
                }
            }
            assert(!keys::source_collision(track.times, all, q));
            lemma_row_proper(track, points, duration, r);
            lemma_row_proper(track, points, duration, q);
        }
        assert forall|r: int| 0 < r < all.len() implies row_time(
            track,
            points,
            duration,
            all[r - 1],
        ).place() < row_time(track, points, duration, #[trigger] all[r]).place() by {
            assert(!keys::output_collision(track, points, duration, all, r));
            lemma_row_proper(track, points, duration, r - 1);
            lemma_row_proper(track, points, duration, r);
        }
    }
    if rows_clear(track, points, duration) {
        assert forall|j: int| 0 <= j < all.len() implies #[trigger] keys::row_refusal(
            track,
            track_index,
            points,
            duration,
            all,
            j,
        ) is None by {
            lemma_row_proper(track, points, duration, j);
            let last = lemma_last_carrier(track.times, all, j);
            if last >= 0 && row_laws::carried(all[j]) is Some {
                assert(next_carrier(all, last, j));
                lemma_row_proper(track, points, duration, last);
            }
            if j > 0 {
                lemma_row_proper(track, points, duration, j - 1);
                assert(row_time(track, points, duration, all[j - 1]).place() < row_time(
                    track,
                    points,
                    duration,
                    all[j],
                ).place());
            }
        }
        lemma_no_refused_row(track, track_index, points, duration, all, 0);
    }
}

/// What a track holds is accepted exactly when the track is fit.
pub proof fn lemma_content(
    track: TrackView,
    track_index: usize,
    points: Seq<ContactTimeWarpControlPointV1>,
    duration: Binary32,
    identity: bool,
)
    requires
        operation::valid_map(points),
        map_laws::proper_duration(duration),
        track.times.len() <= usize::MAX,
    ensures
        preflight::content_refusal(track, track_index, points, duration, identity) is None <==> fit(
            track,
            points,
            duration,
            !identity,
        ),
{
    lemma_sound(track);
    if sound(track) {
        candidate_laws::lemma_times_in_range(track.times, duration, 0);
        lemma_turns(track);
        lemma_still(track);
        if inside(track, duration) {
            lemma_rows_clear(track, track_index, points, duration);
        }
    }
}

/// The sum of some numbers.
pub open spec fn total(parts: Seq<nat>) -> nat
    decreases parts.len(),
{
    if parts.len() == 0 {
        0
    } else {
        total(parts.drop_last()) + parts.last()
    }
}

/// Whether a map moves any of its control points.
pub open spec fn moves(points: Seq<ContactTimeWarpControlPointV1>) -> bool {
    exists|i: int|
        0 <= i < points.len() && (#[trigger] points[i]).input.place() != points[i].output.place()
}

/// How many keys a track has once it is retimed: one for each of its rows, or
/// those it has where nothing moves or where it is a cubic spline.
pub open spec fn retimed_keys(
    track: TrackView,
    points: Seq<ContactTimeWarpControlPointV1>,
    duration: Binary32,
    moves: bool,
) -> nat {
    if moves && track.interpolation != Interpolation::CubicSpline {
        rows::track_rows(points, duration, track).len()
    } else {
        track.times.len()
    }
}

/// Authored keys of some tracks.
pub open spec fn keys_of(tracks: Seq<TrackView>) -> nat {
    total(Seq::new(tracks.len(), |t: int| tracks[t].times.len()))
}

/// Stored values of some tracks, tangents included.
pub open spec fn values_of(tracks: Seq<TrackView>) -> nat {
    total(
        Seq::new(
            tracks.len(),
            |t: int|
                match tracks[t].values {
                    ValuesView::Vec3s(values) => values.len(),
                    ValuesView::Quats(values) => values.len(),
                },
        ),
    )
}

/// Keys of some tracks once they are retimed.
pub open spec fn retimed_keys_of(
    tracks: Seq<TrackView>,
    points: Seq<ContactTimeWarpControlPointV1>,
    duration: Binary32,
    moves: bool,
) -> nat {
    total(Seq::new(tracks.len(), |t: int| retimed_keys(tracks[t], points, duration, moves)))
}

/// The work of retiming some tracks: every authored key, every retimed key,
/// and every control point for each LINEAR track if anything moves.
pub open spec fn work_of(
    tracks: Seq<TrackView>,
    points: Seq<ContactTimeWarpControlPointV1>,
    duration: Binary32,
    moves: bool,
) -> nat {
    total(
        Seq::new(
            tracks.len(),
            |t: int|
                tracks[t].times.len() + retimed_keys(tracks[t], points, duration, moves) + (
                if moves && tracks[t].interpolation == Interpolation::Linear {
                    points.len()
                } else {
                    0
                }),
        ),
    )
}

/// The counts of the first `n` tracks are sums over these tracks.
pub proof fn lemma_counts_are_sums(
    clip: ClipView,
    points: Seq<ContactTimeWarpControlPointV1>,
    duration: Binary32,
    identity: bool,
    n: int,
)
    requires
        0 <= n <= clip.tracks.len(),
    ensures
        ({
            let counted = preflight::counts(clip, points, duration, identity, n);
            let tracks = clip.tracks.take(n);
            &&& counted.input_keys == keys_of(tracks)
            &&& counted.input_values == values_of(tracks)
            &&& counted.candidate_keys == retimed_keys_of(tracks, points, duration, !identity)
            &&& counted.work == work_of(tracks, points, duration, !identity)
        }),
    decreases n,
{
    let tracks = clip.tracks.take(n);
    if n > 0 {
        lemma_counts_are_sums(clip, points, duration, identity, n - 1);
        let before = clip.tracks.take(n - 1);
        let m = (n - 1) as nat;
        assert(Seq::new(n as nat, |t: int| tracks[t].times.len()).drop_last() =~= Seq::new(
            m,
            |t: int| before[t].times.len(),
        ));
        assert(Seq::new(
            n as nat,
            |t: int|
                match tracks[t].values {
                    ValuesView::Vec3s(values) => values.len(),
                    ValuesView::Quats(values) => values.len(),
                },
        ).drop_last() =~= Seq::new(
            m,
            |t: int|
                match before[t].values {
                    ValuesView::Vec3s(values) => values.len(),
                    ValuesView::Quats(values) => values.len(),
                },
        ));
        assert(Seq::new(
            n as nat,
            |t: int| retimed_keys(tracks[t], points, duration, !identity),
        ).drop_last() =~= Seq::new(
            m,
            |t: int| retimed_keys(before[t], points, duration, !identity),
        ));
        assert(Seq::new(
            n as nat,
            |t: int|
                tracks[t].times.len() + retimed_keys(tracks[t], points, duration, !identity) + (
                if !identity && tracks[t].interpolation == Interpolation::Linear {
                    points.len()
                } else {
                    0
                }),
        ).drop_last() =~= Seq::new(
            m,
            |t: int|
                before[t].times.len() + retimed_keys(before[t], points, duration, !identity) + (
                if !identity && before[t].interpolation == Interpolation::Linear {
                    points.len()
                } else {
                    0
                }),
        ));
    }
}

/// Counts only grow with more tracks.
proof fn lemma_counts_grow(
    clip: ClipView,
    points: Seq<ContactTimeWarpControlPointV1>,
    duration: Binary32,
    identity: bool,
    n: int,
    m: int,
)
    requires
        0 <= n <= m,
    ensures
        ({
            let a = preflight::counts(clip, points, duration, identity, n);
            let b = preflight::counts(clip, points, duration, identity, m);
            &&& a.input_keys <= b.input_keys
            &&& a.input_values <= b.input_values
            &&& a.candidate_keys <= b.candidate_keys
            &&& a.work <= b.work
        }),
    decreases m - n,
{
    if n < m {
        lemma_counts_grow(clip, points, duration, identity, n, m - 1);
    }
}

/// Whether the rows of a map are those of a retiming: between two and 4096
/// rows, with coordinates in `[0, 1]` that strictly increase from `(0, 0)` to
/// `(1, 1)`.
pub open spec fn retiming(points: Seq<ContactTimeWarpControlPointV1>) -> bool {
    &&& 2 <= points.len() <= 4096
    &&& points[0].input.place() == 0 && points[0].output.place() == 0
    &&& points[points.len() - 1].input.bits == 0x3ff0_0000_0000_0000
    &&& points[points.len() - 1].output.bits == 0x3ff0_0000_0000_0000
    &&& forall|i: int, j: int|
        0 <= i < j < points.len() ==> (#[trigger] points[i]).input.place() < (
        #[trigger] points[j]).input.place() && points[i].output.place() < points[j].output.place()
}

pub proof fn lemma_retiming(points: Seq<ContactTimeWarpControlPointV1>)
    ensures
        operation::valid_map(points) <==> retiming(points),
{
    if retiming(points) {
        let last = points.len() - 1;
        assert forall|i: int| 0 <= i < points.len() implies (
        #[trigger] points[i]).normalized() by {
            if i > 0 {
                assert(points[0].input.place() < points[i].input.place());
            }
            if i < last {
                assert(points[i].input.place() < points[last].input.place());
            }
        }
        assert(operation::exact_endpoints(points));
    }
    if operation::valid_map(points) {
        assert(points[points.len() - 1].normalized());
    }
}

/// A map that is a retiming is the identity exactly when it moves nothing.
pub proof fn lemma_moves(points: Seq<ContactTimeWarpControlPointV1>)
    requires
        operation::valid_map(points),
    ensures
        candidate::identity_map(points) <==> !moves(points),
{
    if !moves(points) {
        assert forall|i: int| 0 <= i < points.len() implies (#[trigger] points[i]).input.eq_number(
            points[i].output,
        ) by {
            assert(points[i].normalized());
        }
    }
}

/// A clip and an operation are accepted together exactly when all of this
/// holds. The duration is finite and positive, also as binary32. The operation
/// is a time warp of version 1 that keeps the duration, and its rows are a
/// retiming. The clip has at most 4096 tracks and 65536 bytes of name. No two
/// tracks have one target, and every track can be retimed. All tracks together
/// have at most 1048576 authored keys, 3145728 values and 1048576 retimed keys,
/// and cost at most 8388608 of work.
#[verifier::spinoff_prover]
#[verifier::rlimit(60)]
pub proof fn law_accepted_exactly(clip: ClipView, operation: ContactTransformOperationV1)
    requires
        vstd::utf8::encode_utf8(clip.name).len() <= usize::MAX,
        forall|t: int|
            0 <= t < clip.tracks.len() ==> (#[trigger] clip.tracks[t]).times.len() <= usize::MAX,
    ensures
        candidate::warp_refusal(clip, operation) is None <==> match operation {
            ContactTransformOperationV1::Trim { .. } => false,
            ContactTransformOperationV1::TimeWarp { version, output_duration_s, control_points } =>
            {
                let duration = clip.duration_s.narrowed();
                let points = control_points@;
                &&& clip.duration_s.finite() && clip.duration_s.place() > 0
                &&& duration.finite() && duration.place() > 0
                &&& version == 1
                &&& output_duration_s.place() == clip.duration_s.place()
                &&& retiming(points)
                &&& clip.tracks.len() <= 4096
                &&& vstd::utf8::encode_utf8(clip.name).len() <= 65536
                &&& forall|j: int, l: int|
                    0 <= j < l < clip.tracks.len() ==> (#[trigger] clip.tracks[j]).bone != (
                    #[trigger] clip.tracks[l]).bone || clip.tracks[j].property
                        != clip.tracks[l].property
                &&& forall|t: int|
                    0 <= t < clip.tracks.len() ==> fit(
                        #[trigger] clip.tracks[t],
                        points,
                        duration,
                        moves(points),
                    )
                &&& keys_of(clip.tracks) <= 1_048_576
                &&& values_of(clip.tracks) <= 3_145_728
                &&& retimed_keys_of(clip.tracks, points, duration, moves(points)) <= 1_048_576
                &&& work_of(clip.tracks, points, duration, moves(points)) <= 8_388_608
            },
        },
{
    let points = operation.rows();
    let duration = clip.duration_s.narrowed();
    let identity = candidate::identity_map(points);
    let n = clip.tracks.len() as int;
    lemma_retiming(points);
    operation::law_accepted_maps_are_the_valid_ones(points);
    if operation::operation_refusal(clip.duration_s, operation) is None {
        lemma_moves(points);
        lemma_counts_are_sums(clip, points, duration, identity, n);
        assert(clip.tracks.take(n) =~= clip.tracks);
        lemma_accepted_tracks(clip, points, duration, identity);
    }
}

/// A track is accepted after others exactly when its target is free, it is fit,
/// and the counts stay within the limits.
#[verifier::spinoff_prover]
#[verifier::rlimit(60)]
proof fn lemma_accepted_next(
    clip: ClipView,
    points: Seq<ContactTimeWarpControlPointV1>,
    duration: Binary32,
    identity: bool,
    t: int,
)
    requires
        operation::valid_map(points),
        map_laws::proper_duration(duration),
        0 <= t < clip.tracks.len(),
        clip.tracks[t].times.len() <= usize::MAX,
    ensures
        preflight::track_refusal(clip, points, duration, identity, t) is None <==> {
            let counted = preflight::counts(clip, points, duration, identity, t + 1);
            &&& !preflight::claimed(clip, t, clip.tracks[t].bone, clip.tracks[t].property)
            &&& fit(clip.tracks[t], points, duration, !identity)
            &&& counted.input_keys <= 1_048_576
            &&& counted.input_values <= 3_145_728
            &&& counted.candidate_keys <= 1_048_576
            &&& counted.work <= 8_388_608
        },
{
    lemma_content(clip.tracks[t], t as usize, points, duration, identity);
    let before = preflight::counts(clip, points, duration, identity, t);
    let counted = preflight::charged(before, clip.tracks[t], points, duration, identity);
    assert(counted == preflight::counts(clip, points, duration, identity, t + 1));
    let content = preflight::content_refusal(
        clip.tracks[t],
        t as usize,
        points,
        duration,
        identity,
    );
    let charge = preflight::charge_refusal(
        before,
        clip.tracks[t],
        t as usize,
        points,
        duration,
        identity,
    );
    assert(charge is None <==> {
        &&& content is None
        &&& counted.input_keys <= 1_048_576
        &&& counted.input_values <= 3_145_728
        &&& counted.candidate_keys <= 1_048_576
        &&& counted.work <= 8_388_608
    });
}

/// Under a valid map the tracks are accepted exactly when they have distinct
/// targets, are fit, and stay within the limits together.
#[verifier::spinoff_prover]
#[verifier::rlimit(60)]
proof fn lemma_accepted_tracks(
    clip: ClipView,
    points: Seq<ContactTimeWarpControlPointV1>,
    duration: Binary32,
    identity: bool,
)
    requires
        operation::valid_map(points),
        map_laws::proper_duration(duration),
        forall|t: int|
            0 <= t < clip.tracks.len() ==> (#[trigger] clip.tracks[t]).times.len() <= usize::MAX,
    ensures
        preflight::first_track_refusal(clip, points, duration, identity, 0) is None <==> {
            let counted = preflight::counts(
                clip,
                points,
                duration,
                identity,
                clip.tracks.len() as int,
            );
            &&& forall|j: int, l: int|
                0 <= j < l < clip.tracks.len() ==> (#[trigger] clip.tracks[j]).bone != (
                #[trigger] clip.tracks[l]).bone || clip.tracks[j].property
                    != clip.tracks[l].property
            &&& forall|t: int|
                0 <= t < clip.tracks.len() ==> fit(
                    #[trigger] clip.tracks[t],
                    points,
                    duration,
                    !identity,
                )
            &&& counted.input_keys <= 1_048_576
            &&& counted.input_values <= 3_145_728
            &&& counted.candidate_keys <= 1_048_576
            &&& counted.work <= 8_388_608
        },
{
    let n = clip.tracks.len() as int;
    let counted = preflight::counts(clip, points, duration, identity, n);
    let k = lemma_first_refused_track(clip, points, duration, identity, 0);
    if k == n {
        assert forall|t: int| 0 <= t < n implies fit(
            #[trigger] clip.tracks[t],
            points,
            duration,
            !identity,
        ) && !preflight::claimed(clip, t, clip.tracks[t].bone, clip.tracks[t].property) by {
            assert(preflight::track_refusal(clip, points, duration, identity, t) is None);
            lemma_accepted_next(clip, points, duration, identity, t);
        }
        if n > 0 {
            assert(preflight::track_refusal(clip, points, duration, identity, n - 1) is None);
            lemma_accepted_next(clip, points, duration, identity, n - 1);
        }
    } else {
        lemma_accepted_next(clip, points, duration, identity, k);
        lemma_counts_grow(clip, points, duration, identity, k + 1, n);
    }
}

} // verus!
