//! What holds of every accepted track and of every candidate.

use crate::binary32::Binary32;
use crate::binary64::Binary64;
use crate::candidate;
use crate::cubic;
use crate::error;
use crate::error::FootCycleClipWarpError;
use crate::keys;
use crate::keys::CandidateKey;
use crate::keys::CandidateValue;
use crate::map_laws;
use crate::model;
use crate::model::Clip;
use crate::model::ClipView;
use crate::model::Interpolation;
use crate::model::Track;
use crate::model::TrackSample;
use crate::model::TrackView;
use crate::model::ValuesView;
use crate::number_laws;
use crate::operation;
use crate::plan::ContactTimeWarpControlPointV1;
use crate::plan::ContactTransformOperationV1;
use crate::plan::FootCycleMemberPlanV1;
use crate::plan::ONE_64;
use crate::preflight;
use crate::row_laws;
use crate::rows;
use crate::rows::FootCycleClipWarpRowV1;
use vstd::prelude::*;

verus! {

/// Whether a track that is no cubic spline is accepted under a valid map that
/// is not the identity.
pub open spec fn accepted_track(
    track: TrackView,
    track_index: usize,
    points: Seq<ContactTimeWarpControlPointV1>,
    duration: Binary32,
) -> bool {
    &&& operation::valid_map(points)
    &&& map_laws::proper_duration(duration)
    &&& track.times.len() <= usize::MAX
    &&& track.interpolation != Interpolation::CubicSpline
    &&& preflight::content_refusal(track, track_index, points, duration, false) is None
}

/// Whether a track that is no cubic spline can be warped: it is sound, its
/// quaternions can be normalized, and none of its keys is refused. Its keys
/// may lie outside the clip.
pub open spec fn warpable_track(
    track: TrackView,
    track_index: usize,
    points: Seq<ContactTimeWarpControlPointV1>,
    duration: Binary32,
) -> bool {
    &&& operation::valid_map(points)
    &&& map_laws::proper_duration(duration)
    &&& track.times.len() <= usize::MAX
    &&& track.interpolation != Interpolation::CubicSpline
    &&& track.shape_violation() is None
    &&& preflight::normalizable_keys(track)
    &&& keys::keys_refusal(track, track_index, points, duration) is None
}

/// Every key of a track whose times are in range lies within the clip.
pub proof fn lemma_times_in_range(times: Seq<Binary32>, duration: Binary32, i: int)
    requires
        0 <= i,
        duration.finite(),
        forall|j: int| 0 <= j < times.len() ==> (#[trigger] times[j]).finite(),
    ensures
        preflight::first_outside(times, duration, i) is None <==> forall|j: int|
            i <= j < times.len() ==> 0 <= (#[trigger] times[j]).place() <= duration.place(),
    decreases times.len() - i,
{
    if i < times.len() {
        lemma_times_in_range(times, duration, i + 1);
        if preflight::first_outside(times, duration, i) is None {
            assert forall|j: int| i <= j < times.len() implies 0 <= (
            #[trigger] times[j]).place() <= duration.place() by {
                if j > i {
                    assert(preflight::first_outside(times, duration, i + 1) is None);
                }
            }
        }
    }
}

/// What acceptance says of keys, knots and rows.
pub proof fn lemma_accepted(
    track: TrackView,
    track_index: usize,
    points: Seq<ContactTimeWarpControlPointV1>,
    duration: Binary32,
)
    requires
        accepted_track(track, track_index, points, duration),
    ensures
        track.shape_violation() is None,
        forall|i: int|
            0 <= i < track.times.len() ==> number_laws::proper_32(#[trigger] track.times[i])
                && track.times[i].place() <= duration.place(),
        row_laws::orderly(track.times, rows::track_knots(points, duration, track)),
        row_laws::distinct_knots(track.times, rows::track_rows(points, duration, track)),
        forall|i: int|
            0 <= i < rows::track_rows(points, duration, track).len()
                ==> !#[trigger] keys::output_collision(
                track,
                points,
                duration,
                rows::track_rows(points, duration, track),
                i,
            ),
{
    assert(track.times_finite() && track.times_increase());
    lemma_times_in_range(track.times, duration, 0);
    map_laws::law_knots_in_source_order(points, duration, track);
    keys::lemma_accepted_rows(
        track,
        track_index,
        points,
        duration,
        rows::track_rows(points, duration, track),
        0,
    );
}

/// An accepted track is ready, and no two of its knots are one instant.
pub proof fn law_accepted_knots_are_apart(
    track: TrackView,
    track_index: usize,
    points: Seq<ContactTimeWarpControlPointV1>,
    duration: Binary32,
)
    requires
        accepted_track(track, track_index, points, duration),
    ensures
        map_laws::ready_track(points, duration, track),
        map_laws::knots_apart(points, duration, track),
{
    lemma_accepted(track, track_index, points, duration);
    row_laws::lemma_knots_apart(track.times, rows::track_knots(points, duration, track));
}

/// In an accepted track, a knot has a key of its own exactly when it is one
/// instant with no authored key.
pub proof fn law_accepted_knots_alone_are_no_keys(
    track: TrackView,
    track_index: usize,
    points: Seq<ContactTimeWarpControlPointV1>,
    duration: Binary32,
    i: int,
)
    requires
        accepted_track(track, track_index, points, duration),
        0 <= i < rows::track_rows(points, duration, track).len(),
    ensures
        row_laws::faithful_row(track.times, rows::track_rows(points, duration, track)[i]),
{
    lemma_accepted(track, track_index, points, duration);
    row_laws::lemma_faithful_row(track.times, rows::track_knots(points, duration, track), i);
}

/// A key of a warpable track that is sampled is a question that a sampler has
/// to answer: the track is LINEAR, and the instant lies strictly between its
/// first and its last authored key.
pub proof fn law_sampled_instants_lie_between_keys(
    track: TrackView,
    track_index: usize,
    points: Seq<ContactTimeWarpControlPointV1>,
    duration: Binary32,
    i: int,
    time: Binary32,
)
    requires
        warpable_track(track, track_index, points, duration),
        0 <= i < keys::track_keys(track, points, duration).len(),
        keys::track_keys(track, points, duration)[i].value == CandidateValue::Sampled(time),
    ensures
        track.interpolation == Interpolation::Linear,
        track.start().lt_number(time),
        time.lt_number(track.end()),
        candidate::sampleable(track, time),
{
    let all = rows::track_rows(points, duration, track);
    assert(track.times_finite() && track.times_increase());
    keys::lemma_accepted_rows(track, track_index, points, duration, all, 0);
    assert(keys::track_keys(track, points, duration)[i] == keys::row_key(
        track,
        points,
        duration,
        all[i],
    ));
    if let FootCycleClipWarpRowV1::Knot(knot) = all[i] {
        map_laws::lemma_own_knot_between_keys(points, duration, track, i, knot);
    }
}

proof fn lemma_key_within_clip(
    track: TrackView,
    track_index: usize,
    points: Seq<ContactTimeWarpControlPointV1>,
    duration: Binary32,
    i: int,
)
    requires
        accepted_track(track, track_index, points, duration),
        0 <= i < keys::track_keys(track, points, duration).len(),
    ensures
        number_laws::proper_32(keys::track_keys(track, points, duration)[i].output_time),
        keys::track_keys(track, points, duration)[i].output_time.place() <= duration.place(),
{
    lemma_accepted(track, track_index, points, duration);
    map_laws::law_knots_in_source_order(points, duration, track);
    let knots = rows::track_knots(points, duration, track);
    row_laws::lemma_row_contents(track.times, knots, i);
    let row = rows::track_rows(points, duration, track)[i];
    assert(keys::track_keys(track, points, duration)[i] == keys::row_key(
        track,
        points,
        duration,
        row,
    ));
    match row {
        FootCycleClipWarpRowV1::Authored(index) => {
            map_laws::law_map_keeps_clip_and_its_ends(track.times[index as int], duration, points);
        },
        FootCycleClipWarpRowV1::Knot(knot) => {
            let k = choose|k: int| 0 <= k < knots.len() && knots[k] == knot;
            assert(knots[k] == knot);
        },
        FootCycleClipWarpRowV1::Coalesced(_, knot) => {
            let k = choose|k: int| 0 <= k < knots.len() && knots[k] == knot;
            assert(knots[k] == knot);
        },
    }
}

proof fn lemma_keys_ordered(
    track: TrackView,
    track_index: usize,
    points: Seq<ContactTimeWarpControlPointV1>,
    duration: Binary32,
    i: int,
    j: int,
)
    requires
        accepted_track(track, track_index, points, duration),
        0 <= i < j < keys::track_keys(track, points, duration).len(),
    ensures
        keys::track_keys(track, points, duration)[i].output_time.lt_number(
            keys::track_keys(track, points, duration)[j].output_time,
        ),
    decreases j - i,
{
    let all = rows::track_rows(points, duration, track);
    lemma_accepted(track, track_index, points, duration);
    lemma_key_within_clip(track, track_index, points, duration, j - 1);
    lemma_key_within_clip(track, track_index, points, duration, j);
    assert(!keys::output_collision(track, points, duration, all, j));
    if i < j - 1 {
        lemma_keys_ordered(track, track_index, points, duration, i, j - 1);
    }
}

/// The keys of an accepted track lie within the clip and strictly increase.
pub proof fn law_candidate_times_increase_within_clip(
    track: TrackView,
    track_index: usize,
    points: Seq<ContactTimeWarpControlPointV1>,
    duration: Binary32,
)
    requires
        accepted_track(track, track_index, points, duration),
    ensures
        forall|i: int|
            0 <= i < keys::track_keys(track, points, duration).len() ==> {
                let time = (#[trigger] keys::track_keys(track, points, duration)[i]).output_time;
                number_laws::proper_32(time) && time.place() <= duration.place()
            },
        forall|i: int, j: int|
            0 <= i < j < keys::track_keys(track, points, duration).len() ==> (
            #[trigger] keys::track_keys(track, points, duration)[i]).output_time.lt_number(
                (#[trigger] keys::track_keys(track, points, duration)[j]).output_time,
            ),
{
    let planned = keys::track_keys(track, points, duration);
    assert forall|i: int| 0 <= i < planned.len() implies {
        let time = (#[trigger] planned[i]).output_time;
        number_laws::proper_32(time) && time.place() <= duration.place()
    } by {
        lemma_key_within_clip(track, track_index, points, duration, i);
    }
    assert forall|i: int, j: int| 0 <= i < j < planned.len() implies (
    #[trigger] planned[i]).output_time.lt_number((#[trigger] planned[j]).output_time) by {
        lemma_keys_ordered(track, track_index, points, duration, i, j);
    }
}

/// An authored key at the start of the clip stays at the start, and one at the
/// end stays at the end: no knot re-times them.
pub proof fn law_source_endpoints_are_retained(
    track: TrackView,
    track_index: usize,
    points: Seq<ContactTimeWarpControlPointV1>,
    duration: Binary32,
    i: int,
    index: usize,
)
    requires
        accepted_track(track, track_index, points, duration),
        0 <= i < keys::track_keys(track, points, duration).len(),
        keys::track_keys(track, points, duration)[i].value == CandidateValue::Authored(index),
    ensures
        track.times[index as int].place() == 0 ==> keys::track_keys(
            track,
            points,
            duration,
        )[i].output_time.place() == 0,
        track.times[index as int].place() == duration.place() ==> keys::track_keys(
            track,
            points,
            duration,
        )[i].output_time.place() == duration.place(),
{
    lemma_accepted(track, track_index, points, duration);
    let knots = rows::track_knots(points, duration, track);
    row_laws::lemma_row_contents(track.times, knots, i);
    let row = rows::track_rows(points, duration, track)[i];
    assert(keys::track_keys(track, points, duration)[i] == keys::row_key(
        track,
        points,
        duration,
        row,
    ));
    match row {
        FootCycleClipWarpRowV1::Authored(_) => {
            map_laws::law_map_keeps_clip_and_its_ends(track.times[index as int], duration, points);
        },
        FootCycleClipWarpRowV1::Coalesced(_, knot) => {
            law_accepted_knots_alone_are_no_keys(track, track_index, points, duration, i);
            assert(track.interpolation == Interpolation::Linear);
            row_laws::law_knots_are_admitted_interior_rows(points, duration, track, knot);
        },
        FootCycleClipWarpRowV1::Knot(_) => {},
    }
}

/// A track that is not linear keeps one key per authored key, at its mapped
/// time and with its authored value.
pub proof fn law_other_tracks_only_move_their_keys(
    track: TrackView,
    points: Seq<ContactTimeWarpControlPointV1>,
    duration: Binary32,
)
    requires
        track.times.len() <= usize::MAX,
        track.interpolation != Interpolation::Linear,
    ensures
        keys::track_keys(track, points, duration) == Seq::new(
            track.times.len(),
            |i: int|
                CandidateKey {
                    output_time: keys::mapped(track.times[i], duration, points),
                    value: CandidateValue::Authored(i as usize),
                },
        ),
{
    row_laws::law_only_linear_tracks_have_knots(points, duration, track);
}

/// A warped STEP track stores the authored values unchanged.
pub proof fn law_step_values_are_kept<F: Fn(&Track, Binary32) -> TrackSample>(
    sample_track: F,
    track: Track,
    points: Seq<ContactTimeWarpControlPointV1>,
    duration: Binary32,
    out: TrackView,
)
    requires
        track.interpolation == Interpolation::Step,
        track@.shape_violation() is None,
        track@.times.len() <= usize::MAX,
        candidate::warped_track(sample_track, track, points, duration, out),
    ensures
        out.values == track@.values,
        out.times == Seq::new(
            track@.times.len(),
            |i: int| keys::mapped(track@.times[i], duration, points),
        ),
{
    law_other_tracks_only_move_their_keys(track@, points, duration);
    let planned = keys::track_keys(track@, points, duration);
    assert forall|j: int| 0 <= j < planned.len() implies #[trigger] out.values.sample(j)
        == track@.values.sample(j) by {
        assert(candidate::value_of_key(sample_track, track, planned[j], out.values.sample(j)));
    }
    lemma_same_samples(out.values, track@.values);
    assert(out.times =~= Seq::new(
        track@.times.len(),
        |i: int| keys::mapped(track@.times[i], duration, points),
    ));
}

/// What acceptance of a clip says of its duration, its map and its tracks.
pub proof fn law_accepted_clip(clip: ClipView, operation: ContactTransformOperationV1, i: int)
    requires
        candidate::warp_refusal(clip, operation) is None,
        0 <= i < clip.tracks.len(),
    ensures
        operation::valid_map(operation.rows()),
        map_laws::proper_duration(clip.duration_s.narrowed()),
        clip.tracks[i].shape_violation() is None,
        !preflight::target_taken(clip, i),
        clip.tracks[i].interpolation == Interpolation::CubicSpline ==> cubic::cubic_refusal(
            clip.tracks[i],
        ) is None,
        !candidate::identity_map(operation.rows()) && clip.tracks[i].interpolation
            != Interpolation::CubicSpline ==> accepted_track(
            clip.tracks[i],
            i as usize,
            operation.rows(),
            clip.duration_s.narrowed(),
        ),
{
    let points = operation.rows();
    let duration = clip.duration_s.narrowed();
    let identity = candidate::identity_map(points);
    operation::lemma_accepted_map_is_valid(points);
    preflight::lemma_accepted_track(clip, points, duration, identity, 0, i);
}

/// The counts that refusals look at go by the tracks counted.
pub proof fn lemma_counts_of_prefix(
    clip: ClipView,
    other: ClipView,
    points: Seq<ContactTimeWarpControlPointV1>,
    duration: Binary32,
    identity: bool,
    n: int,
)
    requires
        n <= clip.tracks.len(),
        n <= other.tracks.len(),
        forall|j: int| 0 <= j < n ==> #[trigger] clip.tracks[j] == other.tracks[j],
    ensures
        ({
            let a = preflight::counts(clip, points, duration, identity, n);
            let b = preflight::counts(other, points, duration, identity, n);
            &&& a.input_keys == b.input_keys
            &&& a.input_values == b.input_values
            &&& a.candidate_keys == b.candidate_keys
            &&& a.work == b.work
        }),
    decreases n,
{
    if n > 0 {
        lemma_counts_of_prefix(clip, other, points, duration, identity, n - 1);
        assert(clip.tracks[n - 1] == other.tracks[n - 1]);
    }
}

proof fn lemma_refusal_of_prefix(
    clip: ClipView,
    other: ClipView,
    points: Seq<ContactTimeWarpControlPointV1>,
    duration: Binary32,
    identity: bool,
    i: int,
    k: int,
)
    requires
        0 <= i <= k < clip.tracks.len(),
        k < other.tracks.len(),
        forall|j: int| 0 <= j <= k ==> #[trigger] clip.tracks[j] == other.tracks[j],
        preflight::track_refusal(clip, points, duration, identity, k) is Some,
    ensures
        preflight::first_track_refusal(clip, points, duration, identity, i)
            == preflight::first_track_refusal(other, points, duration, identity, i),
    decreases k - i,
{
    lemma_counts_of_prefix(clip, other, points, duration, identity, i);
    assert(clip.tracks[i] == other.tracks[i]);
    let bone = clip.tracks[i].bone;
    let property = clip.tracks[i].property;
    if preflight::target_taken(clip, i) {
        let j = choose|j: int|
            0 <= j < i && (#[trigger] clip.tracks[j]).bone == bone && clip.tracks[j].property
                == property;
        assert(other.tracks[j].bone == bone);
    }
    if preflight::target_taken(other, i) {
        let j = choose|j: int|
            0 <= j < i && (#[trigger] other.tracks[j]).bone == bone && other.tracks[j].property
                == property;
        assert(clip.tracks[j].bone == bone);
    }
    assert(preflight::track_refusal(clip, points, duration, identity, i)
        == preflight::track_refusal(other, points, duration, identity, i));
    if i < k {
        lemma_refusal_of_prefix(clip, other, points, duration, identity, i + 1, k);
    }
}

/// A refused track decides: clips with the same name and duration that agree
/// up to a refused track, and have no more tracks than a clip may have, are
/// refused alike whatever follows that track.
pub proof fn law_later_tracks_do_not_change_a_refusal(
    clip: ClipView,
    other: ClipView,
    operation: ContactTransformOperationV1,
    k: int,
)
    requires
        clip.name == other.name,
        clip.duration_s == other.duration_s,
        clip.tracks.len() <= error::FOOT_CYCLE_CLIP_V1_MAX_TRACKS,
        other.tracks.len() <= error::FOOT_CYCLE_CLIP_V1_MAX_TRACKS,
        0 <= k < clip.tracks.len(),
        k < other.tracks.len(),
        forall|j: int| 0 <= j <= k ==> #[trigger] clip.tracks[j] == other.tracks[j],
        preflight::track_refusal(
            clip,
            operation.rows(),
            clip.duration_s.narrowed(),
            candidate::identity_map(operation.rows()),
            k,
        ) is Some,
    ensures
        candidate::warp_refusal(clip, operation) is Some,
        candidate::warp_refusal(clip, operation) == candidate::warp_refusal(other, operation),
{
    let points = operation.rows();
    let duration = clip.duration_s.narrowed();
    let identity = candidate::identity_map(points);
    lemma_refusal_of_prefix(clip, other, points, duration, identity, 0, k);
    if preflight::first_track_refusal(clip, points, duration, identity, 0) is None {
        preflight::lemma_accepted_track(clip, points, duration, identity, 0, k);
    }
}

/// Keys that the first `n` tracks store.
pub open spec fn stored_keys(tracks: Seq<TrackView>, n: int) -> nat
    decreases n,
{
    if n <= 0 {
        0
    } else {
        stored_keys(tracks, n - 1) + tracks[n - 1].times.len()
    }
}

/// Values that the first `n` tracks store.
pub open spec fn stored_values(tracks: Seq<TrackView>, n: int) -> nat
    decreases n,
{
    if n <= 0 {
        0
    } else {
        stored_values(tracks, n - 1) + tracks[n - 1].values.len()
    }
}

/// Payload bytes of the keys and values of the first `n` tracks, by the sizes
/// of the types they are stored as.
pub open spec fn stored_bytes(tracks: Seq<TrackView>, n: int) -> nat
    decreases n,
{
    if n <= 0 {
        0
    } else {
        stored_bytes(tracks, n - 1) + (tracks[n - 1].times.len() * vstd::layout::size_of::<
            Binary32,
        >() + tracks[n - 1].values.len() * preflight::value_bytes(tracks[n - 1].values))
    }
}

/// One track of a candidate stores what its source track was counted for.
proof fn lemma_track_counted<F: Fn(&Track, Binary32) -> TrackSample>(
    sample_track: F,
    input: Clip,
    operation: ContactTransformOperationV1,
    out: ClipView,
    i: int,
)
    requires
        candidate::warp_refusal(input@, operation) is None,
        candidate::built(sample_track, input, operation, out),
        0 <= i < input@.tracks.len(),
    ensures
        ({
            let points = operation.rows();
            let track = input@.tracks[i];
            let generated = preflight::generated_keys(
                track,
                points,
                input.duration_s.narrowed(),
                candidate::identity_map(points),
            );
            &&& out.tracks[i].times.len() == generated
            &&& out.tracks[i].values.len() == preflight::generated_values(track, generated)
            &&& preflight::value_bytes(out.tracks[i].values) == preflight::value_bytes(track.values)
        }),
{
    law_accepted_clip(input@, operation, i);
    assert(input@.tracks[i] == input.tracks@[i]@);
    if !candidate::identity_map(operation.rows()) {
        assert(candidate::warped_track(
            sample_track,
            input.tracks@[i],
            operation.rows(),
            input.duration_s.narrowed(),
            out.tracks[i],
        ));
    }
}

proof fn lemma_counts_of_candidate<F: Fn(&Track, Binary32) -> TrackSample>(
    sample_track: F,
    input: Clip,
    operation: ContactTransformOperationV1,
    out: ClipView,
    n: int,
)
    requires
        candidate::warp_refusal(input@, operation) is None,
        candidate::built(sample_track, input, operation, out),
        0 <= n <= input@.tracks.len(),
    ensures
        ({
            let total = preflight::counts(
                input@,
                operation.rows(),
                input.duration_s.narrowed(),
                candidate::identity_map(operation.rows()),
                n,
            );
            &&& total.tracks == input@.tracks.len()
            &&& total.name_bytes == input@.name_bytes()
            &&& total.input_keys == stored_keys(input@.tracks, n)
            &&& total.input_values == stored_values(input@.tracks, n)
            &&& total.candidate_keys == stored_keys(out.tracks, n)
            &&& total.candidate_values == stored_values(out.tracks, n)
            &&& total.candidate_bytes == input@.name_bytes() + input@.tracks.len()
                * vstd::layout::size_of::<Track>() + stored_bytes(out.tracks, n)
        }),
    decreases n,
{
    if n > 0 {
        lemma_counts_of_candidate(sample_track, input, operation, out, n - 1);
        lemma_track_counted(sample_track, input, operation, out, n - 1);
    }
}

/// The counts of an accepted operation are those of the clip that is read and
/// of the candidate that is built: every track, key, value and payload byte.
/// Payload bytes go by the lengths of what is stored and the sizes of its
/// types.
pub proof fn law_counts_describe_the_candidate<F: Fn(&Track, Binary32) -> TrackSample>(
    sample_track: F,
    input: Clip,
    operation: ContactTransformOperationV1,
    out: ClipView,
)
    requires
        candidate::warp_refusal(input@, operation) is None,
        candidate::built(sample_track, input, operation, out),
    ensures
        ({
            let total = candidate::warp_counts(input@, operation);
            let n = input@.tracks.len() as int;
            &&& out.tracks.len() == n
            &&& total.tracks == n
            &&& total.input_keys == stored_keys(input@.tracks, n)
            &&& total.input_values == stored_values(input@.tracks, n)
            &&& total.candidate_keys == stored_keys(out.tracks, n)
            &&& total.candidate_values == stored_values(out.tracks, n)
            &&& total.name_bytes == out.name_bytes()
            &&& total.candidate_bytes == out.name_bytes() + n * vstd::layout::size_of::<Track>()
                + stored_bytes(out.tracks, n)
        }),
{
    lemma_counts_of_candidate(sample_track, input, operation, out, input@.tracks.len() as int);
}

/// The candidate keeps the name and the duration of the clip, and the target
/// and the interpolation of every track, in order. Cubic tracks are verbatim.
pub proof fn law_candidate_keeps_metadata<F: Fn(&Track, Binary32) -> TrackSample>(
    sample_track: F,
    input: Clip,
    operation: ContactTransformOperationV1,
    out: ClipView,
    i: int,
)
    requires
        candidate::built(sample_track, input, operation, out),
        0 <= i < input@.tracks.len(),
    ensures
        out.name == input@.name,
        out.duration_s == input@.duration_s,
        out.tracks.len() == input@.tracks.len(),
        out.tracks[i].bone == input@.tracks[i].bone,
        out.tracks[i].property == input@.tracks[i].property,
        out.tracks[i].interpolation == input@.tracks[i].interpolation,
        input@.tracks[i].interpolation == Interpolation::CubicSpline ==> out.tracks[i]
            == input@.tracks[i],
{
    assert(input@.tracks[i] == input.tracks@[i]@);
    if !candidate::identity_map(operation.rows()) {
        assert(candidate::warped_track(
            sample_track,
            input.tracks@[i],
            operation.rows(),
            input.duration_s.narrowed(),
            out.tracks[i],
        ));
    }
}

/// A structurally valid clip cannot exceed the input-value limit without first
/// exceeding the input-key limit: it stores at most three values per key.
pub proof fn law_input_values_follow_input_keys(tracks: Seq<TrackView>, n: int)
    requires
        0 <= n <= tracks.len(),
        forall|i: int| 0 <= i < n ==> (#[trigger] tracks[i]).shape_violation() is None,
    ensures
        stored_values(tracks, n) <= 3 * stored_keys(tracks, n),
        stored_keys(tracks, n) <= error::FOOT_CYCLE_CLIP_V1_MAX_INPUT_KEYS ==> stored_values(
            tracks,
            n,
        ) <= error::FOOT_CYCLE_CLIP_V1_MAX_INPUT_VALUES,
    decreases n,
{
    if n > 0 {
        assert(tracks[n - 1].shape_violation() is None);
        law_input_values_follow_input_keys(tracks, n - 1);
    }
}

/// A candidate track is itself a sound track within the clip, when what the
/// sampler gives is finite.
pub proof fn law_candidate_tracks_are_sound<F: Fn(&Track, Binary32) -> TrackSample>(
    sample_track: F,
    track: Track,
    track_index: usize,
    points: Seq<ContactTimeWarpControlPointV1>,
    duration: Binary32,
    out: TrackView,
)
    requires
        accepted_track(track@, track_index, points, duration),
        candidate::warped_track(sample_track, track, points, duration, out),
        forall|time: Binary32, value: TrackSample|
            candidate::sampleable(track@, time) && #[trigger] call_ensures(
                sample_track,
                (&track, time),
                value,
            ) ==> value.finite(),
    ensures
        out.shape_violation() is None,
        preflight::first_outside(out.times, duration, 0) is None,
{
    let planned = keys::track_keys(track@, points, duration);
    lemma_accepted(track@, track_index, points, duration);
    law_candidate_times_increase_within_clip(track@, track_index, points, duration);
    keys::lemma_keys_in_bounds(track@, points, duration);
    assert(out.times_finite()) by {
        assert forall|i: int| 0 <= i < out.times.len() implies (
        #[trigger] out.times[i]).finite() by {
            assert(out.times[i] == planned[i].output_time);
        }
    }
    assert(out.times_increase()) by {
        assert forall|i: int, j: int| 0 <= i < j < out.times.len() implies (
        #[trigger] out.times[i]).lt_number(#[trigger] out.times[j]) by {
            assert(out.times[i] == planned[i].output_time);
            assert(out.times[j] == planned[j].output_time);
        }
    }
    assert forall|j: int| 0 <= j < out.times.len() implies 0 <= (
    #[trigger] out.times[j]).place() <= duration.place() by {
        assert(out.times[j] == planned[j].output_time);
    }
    lemma_times_in_range(out.times, duration, 0);
    assert forall|j: int| 0 <= j < planned.len() implies (#[trigger] out.values.sample(
        j,
    )).finite() by {
        assert(candidate::value_of_key(sample_track, track, planned[j], out.values.sample(j)));
        match planned[j].value {
            CandidateValue::Authored(index) => {
                lemma_stored_value_finite(track@.values, index as int);
            },
            CandidateValue::Sampled(time) => {
                law_sampled_instants_lie_between_keys(
                    track@,
                    track_index,
                    points,
                    duration,
                    j,
                    time,
                );
            },
        }
    }
    match out.values {
        ValuesView::Vec3s(values) => {
            assert(model::finite_vec3s(values)) by {
                assert forall|j: int| 0 <= j < values.len() implies (
                #[trigger] values[j]).finite() by {
                    assert(out.values.sample(j).finite());
                }
            }
        },
        ValuesView::Quats(values) => {
            assert(model::finite_quats(values)) by {
                assert forall|j: int| 0 <= j < values.len() implies (
                #[trigger] values[j]).finite() by {
                    assert(out.values.sample(j).finite());
                }
            }
        },
    }
    lemma_keys_not_lost(track@, points, duration);
}

proof fn lemma_stored_value_finite(values: ValuesView, i: int)
    requires
        values.finite(),
        0 <= i < values.len(),
    ensures
        values.sample(i).finite(),
{
}

/// A track with a key has a candidate key.
proof fn lemma_keys_not_lost(
    track: TrackView,
    points: Seq<ContactTimeWarpControlPointV1>,
    duration: Binary32,
)
    requires
        0 < track.times.len() <= usize::MAX,
    ensures
        keys::track_keys(track, points, duration).len() > 0,
{
    row_laws::law_rows_keep_every_key_and_knot(points, duration, track);
    let all = rows::track_rows(points, duration, track);
    if all.len() == 0 {
        assert(row_laws::authored_in(all).len() == 0);
    }
}

/// Whether a sampler gives one answer to every question it may be asked.
pub open spec fn determined_sampler<F: Fn(&Track, Binary32) -> TrackSample>(
    sample_track: F,
) -> bool {
    forall|track: &Track, time: Binary32, a: TrackSample, b: TrackSample|
        candidate::sampleable(track@, time) && #[trigger] call_ensures(
            sample_track,
            (track, time),
            a,
        ) && #[trigger] call_ensures(sample_track, (track, time), b) ==> a == b
}

/// Where the sampler gives one answer per question, a track has one warped
/// form.
pub proof fn law_warped_track_is_determined<F: Fn(&Track, Binary32) -> TrackSample>(
    sample_track: F,
    track: Track,
    track_index: usize,
    points: Seq<ContactTimeWarpControlPointV1>,
    duration: Binary32,
    first: TrackView,
    second: TrackView,
)
    requires
        track@.interpolation == Interpolation::CubicSpline || warpable_track(
            track@,
            track_index,
            points,
            duration,
        ),
        determined_sampler(sample_track),
        candidate::warped_track(sample_track, track, points, duration, first),
        candidate::warped_track(sample_track, track, points, duration, second),
    ensures
        first == second,
{
    if track.interpolation != Interpolation::CubicSpline {
        let planned = keys::track_keys(track@, points, duration);
        assert forall|j: int| 0 <= j < planned.len() implies #[trigger] first.values.sample(j)
            == second.values.sample(j) by {
            let a = first.values.sample(j);
            let b = second.values.sample(j);
            assert(candidate::value_of_key(sample_track, track, planned[j], a));
            assert(candidate::value_of_key(sample_track, track, planned[j], b));
            if let CandidateValue::Sampled(time) = planned[j].value {
                law_sampled_instants_lie_between_keys(
                    track@,
                    track_index,
                    points,
                    duration,
                    j,
                    time,
                );
                let asked = &track;
                assert(call_ensures(sample_track, (asked, time), a));
                assert(call_ensures(sample_track, (asked, time), b));
            }
        }
        lemma_same_samples(first.values, second.values);
        assert(first == second);
    }
}

/// Where the sampler gives one answer per question, warping a track gives one
/// result: whatever capacity is planned for its keys, two results are the same
/// refusal or the same track.
pub proof fn law_warp_results_agree<F: Fn(&Track, Binary32) -> TrackSample>(
    sample_track: F,
    track: Track,
    track_index: usize,
    points: Seq<ContactTimeWarpControlPointV1>,
    duration: Binary32,
    first: Result<Track, FootCycleClipWarpError>,
    second: Result<Track, FootCycleClipWarpError>,
)
    requires
        operation::valid_map(points),
        map_laws::proper_duration(duration),
        track@.shape_violation() is None,
        preflight::normalizable_keys(track@),
        determined_sampler(sample_track),
        candidate::warp_result(sample_track, track, track_index, points, duration, first),
        candidate::warp_result(sample_track, track, track_index, points, duration, second),
    ensures
        match (first, second) {
            (Ok(a), Ok(b)) => a@ == b@,
            (Err(a), Err(b)) => a == b,
            _ => false,
        },
{
    assert(track@.times.len() == track.times.len());
    if let (Ok(a), Ok(b)) = (first, second) {
        law_warped_track_is_determined(
            sample_track,
            track,
            track_index,
            points,
            duration,
            a@,
            b@,
        );
    }
}

/// Where the sampler gives one answer per question, an accepted operation has
/// one candidate.
pub proof fn law_candidate_is_determined<F: Fn(&Track, Binary32) -> TrackSample>(
    sample_track: F,
    input: Clip,
    operation: ContactTransformOperationV1,
    first: ClipView,
    second: ClipView,
)
    requires
        candidate::warp_refusal(input@, operation) is None,
        determined_sampler(sample_track),
        candidate::built(sample_track, input, operation, first),
        candidate::built(sample_track, input, operation, second),
    ensures
        first == second,
{
    if !candidate::identity_map(operation.rows()) {
        assert forall|i: int| 0 <= i < first.tracks.len() implies first.tracks[i]
            == second.tracks[i] by {
            assert(input@.tracks[i] == input.tracks@[i]@);
            law_accepted_clip(input@, operation, i);
            law_warped_track_is_determined(
                sample_track,
                input.tracks@[i],
                i as usize,
                operation.rows(),
                input.duration_s.narrowed(),
                first.tracks[i],
                second.tracks[i],
            );
        }
        assert(first.tracks == second.tracks);
    }
}

/// Whether two operations say the same.
pub open spec fn same_operation(
    a: ContactTransformOperationV1,
    b: ContactTransformOperationV1,
) -> bool {
    match (a, b) {
        (
            ContactTransformOperationV1::Trim { interval: x },
            ContactTransformOperationV1::Trim { interval: y },
        ) => x == y,
        (
            ContactTransformOperationV1::TimeWarp {
                version: v,
                output_duration_s: d,
                control_points: x,
            },
            ContactTransformOperationV1::TimeWarp {
                version: w,
                output_duration_s: e,
                control_points: y,
            },
        ) => v == w && d == e && x@ == y@,
        _ => false,
    }
}

/// Only the operation of a plan is consulted: plans whose operations say the
/// same are refused alike, count alike and build the same candidates.
pub proof fn law_only_the_operation_counts<F: Fn(&Track, Binary32) -> TrackSample>(
    sample_track: F,
    input: Clip,
    first: FootCycleMemberPlanV1,
    second: FootCycleMemberPlanV1,
    out: ClipView,
)
    requires
        same_operation(first.operation, second.operation),
    ensures
        candidate::warp_refusal(input@, first.operation) == candidate::warp_refusal(
            input@,
            second.operation,
        ),
        candidate::warp_counts(input@, first.operation) == candidate::warp_counts(
            input@,
            second.operation,
        ),
        candidate::built(sample_track, input, first.operation, out) == candidate::built(
            sample_track,
            input,
            second.operation,
            out,
        ),
{
}

/// Values of one kind with the same samples are the same.
proof fn lemma_same_samples(a: ValuesView, b: ValuesView)
    requires
        a is Quats <==> b is Quats,
        a.len() == b.len(),
        forall|j: int| 0 <= j < a.len() ==> #[trigger] a.sample(j) == b.sample(j),
    ensures
        a == b,
{
    match (a, b) {
        (ValuesView::Vec3s(x), ValuesView::Vec3s(y)) => {
            assert forall|j: int| 0 <= j < x.len() implies x[j] == y[j] by {
                assert(a.sample(j) == b.sample(j));
            }
            assert(x == y);
        },
        (ValuesView::Quats(x), ValuesView::Quats(y)) => {
            assert forall|j: int| 0 <= j < x.len() implies x[j] == y[j] by {
                assert(a.sample(j) == b.sample(j));
            }
            assert(x == y);
        },
        _ => {},
    }
}

/// What the counts over the first tracks of an accepted clip are bounded by.
proof fn lemma_counts_bounded(
    clip: ClipView,
    points: Seq<ContactTimeWarpControlPointV1>,
    duration: Binary32,
    identity: bool,
    n: int,
)
    requires
        preflight::tracks_refusal(clip, points, duration, identity) is None,
        0 <= n <= clip.tracks.len(),
    ensures
        ({
            let total = preflight::counts(clip, points, duration, identity, n);
            &&& total.candidate_keys <= error::FOOT_CYCLE_CLIP_V1_MAX_GENERATED_KEYS
            &&& total.candidate_values <= 3 * total.candidate_keys
        }),
    decreases n,
{
    if n > 0 {
        lemma_counts_bounded(clip, points, duration, identity, n - 1);
        preflight::lemma_accepted_track(clip, points, duration, identity, 0, n - 1);
    }
}

/// The quaternion keys of a track can be normalized exactly when each can.
pub proof fn lemma_normalizable(track: TrackView, values: Seq<model::Quat>, i: int)
    requires
        0 <= i,
    ensures
        preflight::first_unnormalizable(track, values, i) is None <==> forall|j: int|
            i <= j < track.times.len() ==> (#[trigger] values[track.value_at(j)]).normalizable(),
    decreases track.times.len() - i,
{
    if i < track.times.len() {
        lemma_normalizable(track, values, i + 1);
        assert(values[track.value_at(i)] == values[track.value_at(i)]);
        if preflight::first_unnormalizable(track, values, i) is None {
            assert forall|j: int| i <= j < track.times.len() implies (
            #[trigger] values[track.value_at(j)]).normalizable() by {
                if j > i {
                    assert(preflight::first_unnormalizable(track, values, i + 1) is None);
                }
            }
        }
    }
}

/// Whether a sampler answers every question it may be asked with a finite
/// value, and with one that can be normalized if it is a quaternion.
pub open spec fn usable_sampler<F: Fn(&Track, Binary32) -> TrackSample>(sample_track: F) -> bool {
    forall|track: &Track, time: Binary32, value: TrackSample|
        candidate::sampleable(track@, time) && #[trigger] call_ensures(
            sample_track,
            (track, time),
            value,
        ) ==> value.finite() && match value {
            TrackSample::Vec3(_) => true,
            TrackSample::Quat(value) => value.normalizable(),
        }
}

/// The quaternions of a candidate track can be normalized.
proof fn lemma_candidate_normalizable<F: Fn(&Track, Binary32) -> TrackSample>(
    sample_track: F,
    track: Track,
    track_index: usize,
    points: Seq<ContactTimeWarpControlPointV1>,
    duration: Binary32,
    out: TrackView,
)
    requires
        accepted_track(track@, track_index, points, duration),
        candidate::warped_track(sample_track, track, points, duration, out),
        usable_sampler(sample_track),
    ensures
        preflight::normalizable_keys(out),
{
    let planned = keys::track_keys(track@, points, duration);
    keys::lemma_keys_in_bounds(track@, points, duration);
    if let (ValuesView::Quats(values), ValuesView::Quats(authored)) = (out.values, track@.values) {
        lemma_normalizable(track@, authored, 0);
        assert forall|j: int| 0 <= j < out.times.len() implies (
        #[trigger] values[out.value_at(j)]).normalizable() by {
            let value = out.values.sample(j);
            assert(candidate::value_of_key(sample_track, track, planned[j], value));
            match planned[j].value {
                CandidateValue::Authored(index) => {
                    assert(authored[track@.value_at(index as int)].normalizable());
                },
                CandidateValue::Sampled(time) => {
                    law_sampled_instants_lie_between_keys(
                        track@,
                        track_index,
                        points,
                        duration,
                        j,
                        time,
                    );
                    let asked = &track;
                    assert(call_ensures(sample_track, (asked, time), value));
                },
            }
        }
        lemma_normalizable(out, values, 0);
    }
}

/// A candidate track is not refused on its own account under the identity map.
proof fn lemma_candidate_content<F: Fn(&Track, Binary32) -> TrackSample>(
    sample_track: F,
    input: Clip,
    operation: ContactTransformOperationV1,
    out: ClipView,
    points: Seq<ContactTimeWarpControlPointV1>,
    i: int,
)
    requires
        candidate::warp_refusal(input@, operation) is None,
        candidate::built(sample_track, input, operation, out),
        usable_sampler(sample_track),
        0 <= i < input@.tracks.len(),
    ensures
        preflight::content_refusal(
            out.tracks[i],
            i as usize,
            points,
            input.duration_s.narrowed(),
            true,
        ) is None,
{
    let duration = input.duration_s.narrowed();
    let rows = operation.rows();
    let identity = candidate::identity_map(rows);
    let track = input.tracks@[i];
    assert(input@.tracks[i] == track@);
    law_accepted_clip(input@, operation, i);
    preflight::lemma_accepted_track(input@, rows, duration, identity, 0, i);
    if !identity {
        assert(candidate::warped_track(sample_track, track, rows, duration, out.tracks[i]));
        if track.interpolation != Interpolation::CubicSpline {
            law_candidate_tracks_are_sound(
                sample_track,
                track,
                i as usize,
                rows,
                duration,
                out.tracks[i],
            );
            lemma_candidate_normalizable(
                sample_track,
                track,
                i as usize,
                rows,
                duration,
                out.tracks[i],
            );
        }
    }
}

/// The counts of a candidate under the identity map.
proof fn lemma_counts_under_identity(
    clip: ClipView,
    points: Seq<ContactTimeWarpControlPointV1>,
    duration: Binary32,
    n: int,
)
    requires
        0 <= n <= clip.tracks.len(),
        forall|i: int| 0 <= i < n ==> (#[trigger] clip.tracks[i]).shape_violation() is None,
    ensures
        ({
            let total = preflight::counts(clip, points, duration, true, n);
            &&& total.input_keys == stored_keys(clip.tracks, n)
            &&& total.input_values == stored_values(clip.tracks, n)
            &&& total.candidate_keys == total.input_keys
            &&& total.candidate_values == total.input_values
            &&& total.candidate_bytes == clip.name_bytes() + clip.tracks.len()
                * vstd::layout::size_of::<Track>() + stored_bytes(clip.tracks, n)
            &&& total.work == 2 * total.input_keys
        }),
    decreases n,
{
    if n > 0 {
        assert(clip.tracks[n - 1].shape_violation() is None);
        lemma_counts_under_identity(clip, points, duration, n - 1);
    }
}

proof fn lemma_candidate_accepted<F: Fn(&Track, Binary32) -> TrackSample>(
    sample_track: F,
    input: Clip,
    operation: ContactTransformOperationV1,
    out: ClipView,
    points: Seq<ContactTimeWarpControlPointV1>,
    i: int,
)
    requires
        candidate::warp_refusal(input@, operation) is None,
        candidate::built(sample_track, input, operation, out),
        usable_sampler(sample_track),
        0 <= i <= input@.tracks.len(),
    ensures
        preflight::first_track_refusal(out, points, input.duration_s.narrowed(), true, i) is None,
    decreases input@.tracks.len() - i,
{
    let duration = input.duration_s.narrowed();
    let rows = operation.rows();
    let identity = candidate::identity_map(rows);
    if i < input@.tracks.len() {
        lemma_candidate_accepted(sample_track, input, operation, out, points, i + 1);
        lemma_candidate_content(sample_track, input, operation, out, points, i);
        lemma_counts_bounded(input@, rows, duration, identity, i + 1);
        lemma_counts_of_candidate(sample_track, input, operation, out, i + 1);
        assert forall|j: int| 0 <= j <= i implies (
        #[trigger] out.tracks[j]).shape_violation() is None by {
            lemma_candidate_content(sample_track, input, operation, out, points, j);
        }
        lemma_counts_under_identity(out, points, duration, i + 1);
        law_accepted_clip(input@, operation, i);
        law_candidate_keeps_metadata(sample_track, input, operation, out, i);
        if preflight::target_taken(out, i) {
            let bone = out.tracks[i].bone;
            let property = out.tracks[i].property;
            let j = choose|j: int|
                0 <= j < i && (#[trigger] out.tracks[j]).bone == bone && out.tracks[j].property
                    == property;
            law_candidate_keeps_metadata(sample_track, input, operation, out, j);
            assert(input@.tracks[j].bone == bone);
            assert(preflight::target_taken(input@, i));
        }
    }
}

/// A candidate is itself admissible: under any identity map of its duration it
/// is accepted and comes back as it is. What the first preflight planned to
/// store is what the second one reads and stores.
pub proof fn law_candidate_is_admissible<F: Fn(&Track, Binary32) -> TrackSample>(
    sample_track: F,
    input: Clip,
    operation: ContactTransformOperationV1,
    out: Clip,
    identity: ContactTransformOperationV1,
)
    requires
        candidate::warp_refusal(input@, operation) is None,
        candidate::built(sample_track, input, operation, out@),
        usable_sampler(sample_track),
        operation::operation_refusal(out.duration_s, identity) is None,
        candidate::identity_map(identity.rows()),
    ensures
        candidate::warp_refusal(out@, identity) is None,
        forall|again: ClipView| #[trigger]
            candidate::built(sample_track, out, identity, again) <==> again == out@,
        ({
            let planned = candidate::warp_counts(input@, operation);
            let read = candidate::warp_counts(out@, identity);
            &&& read.tracks == planned.tracks
            &&& read.input_keys == planned.candidate_keys
            &&& read.input_values == planned.candidate_values
            &&& read.candidate_keys == planned.candidate_keys
            &&& read.candidate_values == planned.candidate_values
            &&& read.name_bytes == planned.name_bytes
            &&& read.candidate_bytes == planned.candidate_bytes
        }),
{
    let n = input@.tracks.len() as int;
    let points = identity.rows();
    let duration = input.duration_s.narrowed();
    if n > 0 {
        law_candidate_keeps_metadata(sample_track, input, operation, out@, 0);
    }
    assert(out@.duration_s == input@.duration_s);
    assert(out@.tracks.len() == n);
    lemma_candidate_accepted(sample_track, input, operation, out@, points, 0);
    law_counts_describe_the_candidate(sample_track, input, operation, out@);
    assert forall|j: int| 0 <= j < n implies (
    #[trigger] out@.tracks[j]).shape_violation() is None by {
        lemma_candidate_content(sample_track, input, operation, out@, points, j);
    }
    lemma_counts_under_identity(out@, points, duration, n);
    lemma_count_headers(out@, points, duration, true, n);
}

/// The counts that do not grow with the tracks.
proof fn lemma_count_headers(
    clip: ClipView,
    points: Seq<ContactTimeWarpControlPointV1>,
    duration: Binary32,
    identity: bool,
    n: int,
)
    ensures
        preflight::counts(clip, points, duration, identity, n).tracks == clip.tracks.len(),
        preflight::counts(clip, points, duration, identity, n).name_bytes == clip.name_bytes(),
    decreases n,
{
    if n > 0 {
        lemma_count_headers(clip, points, duration, identity, n - 1);
    }
}

/// The map of the rows `(0, 0)` and `(1, 1)` is an identity map that every
/// clip of a valid duration can be warped with.
pub proof fn law_two_rows_are_an_identity_map(
    duration_s: Binary64,
    operation: ContactTransformOperationV1,
)
    requires
        operation::valid_duration(duration_s),
        match operation {
            ContactTransformOperationV1::TimeWarp { version, output_duration_s, control_points } => {
                &&& version == 1
                &&& output_duration_s == duration_s
                &&& control_points@.len() == 2
                &&& control_points@[0].input.bits == 0 && control_points@[0].output.bits == 0
                &&& control_points@[1].input.bits == ONE_64
                &&& control_points@[1].output.bits == ONE_64
            },
            ContactTransformOperationV1::Trim { .. } => false,
        },
    ensures
        operation::operation_refusal(duration_s, operation) is None,
        candidate::identity_map(operation.rows()),
{
    operation::law_accepted_maps_are_the_valid_ones(operation.rows());
}

} // verus!
