//! The candidate clip that a time warp builds.

use crate::binary32::Binary32;
use crate::binary64::Binary64;
use crate::error::FootCycleClipWarpError;
use crate::error::FOOT_CYCLE_CLIP_V1_MAX_CANDIDATE_BYTES;
use crate::keys;
use crate::keys::CandidateKey;
use crate::keys::CandidateValue;
use crate::keys::WarpKeys;
use crate::map_laws;
use crate::model::Clip;
use crate::model::ClipView;
use crate::model::Interpolation;
use crate::model::Quat;
use crate::model::Track;
use crate::model::TrackSample;
use crate::model::TrackValues;
use crate::model::TrackView;
use crate::model::ValuesView;
use crate::model::Vec3;
use crate::operation;
use crate::plan::ContactTimeWarpControlPointV1;
use crate::plan::ContactTransformOperationV1;
use crate::plan::FootCycleMemberPlanV1;
use crate::preflight;
use crate::preflight::FootCycleClipPreflightV1;
use crate::preflight::PreflightedClipWarp;
use crate::rows;
use crate::rows::FootCycleClipWarpRowV1;
use vstd::prelude::*;

verus! {

/// Whether a map sends every row to itself.
pub open spec fn identity_map(points: Seq<ContactTimeWarpControlPointV1>) -> bool {
    forall|i: int| 0 <= i < points.len() ==> (#[trigger] points[i]).input.eq_number(
        points[i].output,
    )
}

/// Why an operation cannot be applied to a clip, if it cannot.
pub open spec fn warp_refusal(
    clip: ClipView,
    operation: ContactTransformOperationV1,
) -> Option<FootCycleClipWarpError> {
    if let Some(error) = operation::operation_refusal(clip.duration_s, operation) {
        Some(error)
    } else {
        preflight::tracks_refusal(
            clip,
            operation.rows(),
            clip.duration_s.narrowed(),
            identity_map(operation.rows()),
        )
    }
}

/// The counts of the candidate of an accepted operation.
pub open spec fn warp_counts(
    clip: ClipView,
    operation: ContactTransformOperationV1,
) -> preflight::Counts {
    preflight::counts(
        clip,
        operation.rows(),
        clip.duration_s.narrowed(),
        identity_map(operation.rows()),
        clip.tracks.len() as int,
    )
}

/// Whether a stored value is the one that a key of a track asks for: the
/// authored value itself, or what the sampler gives for the instant.
pub open spec fn value_of_key<F: Fn(&Track, Binary32) -> TrackSample>(
    sample_track: F,
    track: Track,
    key: CandidateKey,
    value: TrackSample,
) -> bool {
    match key.value {
        CandidateValue::Authored(index) => value == track@.values.sample(index as int),
        CandidateValue::Sampled(time) => call_ensures(sample_track, (&track, time), value),
    }
}

/// Whether `out` is the warped form of `track`: a cubic track verbatim, any
/// other track with one value per key.
pub open spec fn warped_track<F: Fn(&Track, Binary32) -> TrackSample>(
    sample_track: F,
    track: Track,
    points: Seq<ContactTimeWarpControlPointV1>,
    duration: Binary32,
    out: TrackView,
) -> bool {
    let planned = keys::track_keys(track@, points, duration);
    if track@.interpolation == Interpolation::CubicSpline {
        out == track@
    } else {
        &&& out.bone == track.bone
        &&& out.property == track.property
        &&& out.interpolation == track.interpolation
        &&& out.times == Seq::new(planned.len(), |j: int| planned[j].output_time)
        &&& out.values is Quats <==> track@.values is Quats
        &&& out.values.len() == planned.len()
        &&& forall|j: int|
            0 <= j < planned.len() ==> value_of_key(
                sample_track,
                track,
                #[trigger] planned[j],
                out.values.sample(j),
            )
    }
}

/// Whether `candidate` is what an accepted operation makes of a clip: the clip
/// itself under the identity map, else its name, its duration and each of its
/// tracks warped, in order.
pub open spec fn built<F: Fn(&Track, Binary32) -> TrackSample>(
    sample_track: F,
    input: Clip,
    operation: ContactTransformOperationV1,
    candidate: ClipView,
) -> bool {
    if identity_map(operation.rows()) {
        candidate == input@
    } else {
        &&& candidate.name == input@.name
        &&& candidate.duration_s == input@.duration_s
        &&& candidate.tracks.len() == input@.tracks.len()
        &&& forall|i: int|
            0 <= i < input@.tracks.len() ==> warped_track(
                sample_track,
                input.tracks@[i],
                operation.rows(),
                input.duration_s.narrowed(),
                #[trigger] candidate.tracks[i],
            )
    }
}

/// Whether a track may have to be sampled at an instant: it is a LINEAR track
/// of sound shape whose quaternions can be normalized, and the instant lies
/// strictly between its first and its last key.
pub open spec fn sampleable(track: TrackView, time: Binary32) -> bool {
    &&& track.shape_violation() is None
    &&& track.interpolation == Interpolation::Linear
    &&& preflight::normalizable_keys(track)
    &&& track.start().lt_number(time)
    &&& time.lt_number(track.end())
}

/// Whether a sampler can be asked wherever a track may have to be sampled, and
/// answers with a value of the kind the track stores.
pub open spec fn fitting_sampler<F: Fn(&Track, Binary32) -> TrackSample>(sample_track: F) -> bool {
    &&& forall|track: &Track, time: Binary32|
        sampleable(track@, time) ==> #[trigger] call_requires(sample_track, (track, time))
    &&& forall|track: &Track, time: Binary32, value: TrackSample|
        sampleable(track@, time) && #[trigger] call_ensures(sample_track, (track, time), value)
            ==> value.fits(track@.values)
}

/// One value of the candidate: an authored value as it is stored, or what the
/// sampler gives.
pub fn candidate_value<F: Fn(&Track, Binary32) -> TrackSample>(
    track: &Track,
    key: CandidateKey,
    sample_track: &F,
) -> (r: TrackSample)
    requires
        match key.value {
            CandidateValue::Authored(index) => index < track@.values.len(),
            CandidateValue::Sampled(time) => call_requires(*sample_track, (track, time)),
        },
    ensures
        value_of_key(*sample_track, *track, key, r),
        match key.value {
            CandidateValue::Authored(_) => r.fits(track@.values),
            CandidateValue::Sampled(time) => fitting_sampler(*sample_track) && sampleable(
                track@,
                time,
            ) ==> r.fits(track@.values),
        },
{
    match key.value {
        CandidateValue::Authored(index) => match &track.values {
            TrackValues::Vec3s(authored) => TrackSample::Vec3(authored[index]),
            TrackValues::Quats(authored) => TrackSample::Quat(authored[index]),
        },
        CandidateValue::Sampled(source_time) => sample_track(track, source_time),
    }
}

/// Whether `result` is what warping one track gives: its warped form, or why
/// its keys are refused.
pub open spec fn warp_result<F: Fn(&Track, Binary32) -> TrackSample>(
    sample_track: F,
    track: Track,
    track_index: usize,
    points: Seq<ContactTimeWarpControlPointV1>,
    duration: Binary32,
    result: Result<Track, FootCycleClipWarpError>,
) -> bool {
    let refusal = if track@.interpolation == Interpolation::CubicSpline {
        None
    } else {
        keys::keys_refusal(track@, track_index, points, duration)
    };
    match (refusal, result) {
        (Some(expected), Err(error)) => error == expected,
        (None, Ok(out)) => warped_track(sample_track, track, points, duration, out@),
        _ => false,
    }
}

/// Builds the candidate of one track, or says why its keys are refused.
#[verifier::rlimit(40)]
pub fn warp_track<F: Fn(&Track, Binary32) -> TrackSample>(
    track: &Track,
    track_index: usize,
    points: &[ContactTimeWarpControlPointV1],
    duration: Binary32,
    candidate_keys: usize,
    sample_track: &F,
) -> (r: Result<Track, FootCycleClipWarpError>)
    requires
        operation::valid_map(points@),
        map_laws::proper_duration(duration),
        track@.shape_violation() is None,
        preflight::normalizable_keys(track@),
        fitting_sampler(*sample_track),
    ensures
        warp_result(*sample_track, *track, track_index, points@, duration, r),
{
    if track.interpolation == Interpolation::CubicSpline {
        return Ok(track.copied());
    }
    let mut times: Vec<Binary32> = Vec::with_capacity(candidate_keys);
    let (mut vec3s, mut quats): (Vec<Vec3>, Vec<Quat>) = match &track.values {
        TrackValues::Vec3s(_) => (Vec::with_capacity(candidate_keys), Vec::new()),
        TrackValues::Quats(_) => (Vec::new(), Vec::with_capacity(candidate_keys)),
    };
    let mut walk: WarpKeys = WarpKeys::new(track, track_index, points, duration);
    let ghost planned = keys::track_keys(track@, points@, duration);
    let ghost rotation = track@.values is Quats;
    let ghost all = rows::track_rows(points@, duration, track@);
    proof {
        assert(track@.times.len() == track.times.len());
        keys::lemma_keys_in_bounds(track@, points@, duration);
        assert(track@.times_finite() && track@.times_increase());
    }
    loop
        invariant
            walk.wf(),
            walk.keys() == planned,
            planned == keys::track_keys(track@, points@, duration),
            rotation == track@.values is Quats,
            walk.handed_out() == times@.len(),
            times@.len() <= planned.len(),
            walk.refusal() == keys::keys_refusal(track@, track_index, points@, duration),
            track@.interpolation != Interpolation::CubicSpline,
            track@.shape_violation() is None,
            preflight::normalizable_keys(track@),
            fitting_sampler(*sample_track),
            map_laws::ready_track(points@, duration, track@),
            all == rows::track_rows(points@, duration, track@),
            forall|j: int| #[trigger]
                walk.refusal_at(j) == keys::row_refusal(
                    track@,
                    track_index,
                    points@,
                    duration,
                    all,
                    j,
                ),
            forall|j: int|
                0 <= j < times@.len() ==> !#[trigger] keys::source_collision(track@.times, all, j),
            forall|j: int|
                0 <= j < planned.len() ==> match (#[trigger] planned[j]).value {
                    CandidateValue::Authored(index) => index < track@.times.len(),
                    CandidateValue::Sampled(_) => true,
                },
            forall|j: int| 0 <= j < times@.len() ==> #[trigger] times@[j] == planned[j].output_time,
            rotation ==> quats@.len() == times@.len() && forall|j: int|
                0 <= j < times@.len() ==> value_of_key(
                    *sample_track,
                    *track,
                    #[trigger] planned[j],
                    TrackSample::Quat(quats@[j]),
                ),
            !rotation ==> vec3s@.len() == times@.len() && forall|j: int|
                0 <= j < times@.len() ==> value_of_key(
                    *sample_track,
                    *track,
                    #[trigger] planned[j],
                    TrackSample::Vec3(vec3s@[j]),
                ),
        decreases planned.len() - times@.len(),
    {
        let ghost n = walk.handed_out();
        let ghost refused = walk.refusal_at(n);
        match walk.next() {
            Err(error) => {
                return Err(error);
            },
            Ok(None) => {
                let values: TrackValues = match &track.values {
                    TrackValues::Vec3s(_) => TrackValues::Vec3s(vec3s),
                    TrackValues::Quats(_) => TrackValues::Quats(quats),
                };
                let out: Track = Track {
                    bone: track.bone,
                    property: track.property,
                    interpolation: track.interpolation,
                    times,
                    values,
                };
                assert(out@.times == Seq::new(planned.len(), |j: int| planned[j].output_time));
                assert forall|j: int| 0 <= j < planned.len() implies value_of_key(
                    *sample_track,
                    *track,
                    #[trigger] planned[j],
                    out@.values.sample(j),
                ) by {}
                return Ok(out);
            },
            Ok(Some(key)) => {
                proof {
                    assert(refused is None);
                    assert(!keys::source_collision(track@.times, all, n));
                    assert(key == keys::row_key(track@, points@, duration, all[n]));
                    if let FootCycleClipWarpRowV1::Knot(knot) = all[n] {
                        map_laws::lemma_own_knot_between_keys(points@, duration, track@, n, knot);
                    }
                }
                let value: TrackSample = candidate_value(track, key, sample_track);
                times.push(key.output_time);
                match value {
                    TrackSample::Vec3(value) => {
                        vec3s.push(value);
                    },
                    TrackSample::Quat(value) => {
                        quats.push(value);
                    },
                }
            },
        }
    }
}

/// An operation that was accepted for a clip.
pub struct PreparedClipWarp<'a> {
    /// Duration of the candidate.
    pub output_duration_s: Binary64,
    /// The rows of the map.
    pub points: &'a [ContactTimeWarpControlPointV1],
    /// The narrowed clip duration.
    pub duration: Binary32,
    /// Whether the map sends every row to itself.
    pub identity: bool,
    /// The counts of the candidate.
    pub counts: FootCycleClipPreflightV1,
    /// The keys of each candidate track, in source order.
    pub track_candidate_keys: Vec<usize>,
}

fn is_identity(points: &[ContactTimeWarpControlPointV1]) -> (r: bool)
    ensures
        r == identity_map(points@),
{
    for i in 0..points.len()
        invariant
            forall|j: int| 0 <= j < i ==> (#[trigger] points@[j]).input.eq_number(points@[j].output),
    {
        if !points[i].input_time().equals(points[i].output_time()) {
            assert(!points@[i as int].input.eq_number(points@[i as int].output));
            return false;
        }
    }
    true
}

/// Validates an operation and a clip together, and counts the candidate.
pub fn prepare_clip_warp<'a>(input: &Clip, plan: &'a FootCycleMemberPlanV1) -> (r: Result<
    PreparedClipWarp<'a>,
    FootCycleClipWarpError,
>)
    ensures
        match (warp_refusal(input@, plan.operation), r) {
            (Some(expected), Err(error)) => error == expected,
            (None, Ok(prepared)) => {
                &&& prepared.output_duration_s == input.duration_s
                &&& prepared.points@ == plan.operation.rows()
                &&& operation::valid_map(prepared.points@)
                &&& prepared.duration == input.duration_s.narrowed()
                &&& prepared.identity == identity_map(prepared.points@)
                &&& prepared.counts@ == preflight::held(warp_counts(input@, plan.operation))
                &&& preflight::within_limits(prepared.counts@)
                &&& prepared.track_candidate_keys@.len() == input@.tracks.len()
                &&& forall|i: int|
                    0 <= i < input@.tracks.len() ==> #[trigger] prepared.track_candidate_keys@[i]
                        == preflight::generated_keys(
                        input@.tracks[i],
                        prepared.points@,
                        prepared.duration,
                        prepared.identity,
                    )
            },
            _ => false,
        },
{
    let (output_duration_s, points): (Binary64, &'a [ContactTimeWarpControlPointV1]) =
        match operation::validate_operation(input.duration_s, plan.operation()) {
        Ok(accepted) => accepted,
        Err(error) => {
            return Err(error);
        },
    };
    proof {
        operation::lemma_accepted_map_is_valid(points@);
    }
    let duration: Binary32 = input.duration_s.narrow();
    let identity: bool = is_identity(points);
    let preflighted: PreflightedClipWarp = match preflight::preflight(
        input,
        points,
        duration,
        identity,
    ) {
        Ok(preflighted) => preflighted,
        Err(error) => {
            return Err(error);
        },
    };
    Ok(
        PreparedClipWarp {
            output_duration_s,
            points,
            duration,
            identity,
            counts: preflighted.counts,
            track_candidate_keys: preflighted.track_candidate_keys,
        },
    )
}

/// Validates and counts one V1 clip candidate without allocating it.
///
/// This is the authoritative boundary before allocation that
/// [`time_warp_clip_v1`] uses. Hosts that retain multiple candidates can sum
/// the returned counts with checked arithmetic and enforce a budget before
/// constructing any candidate. Only track-local shape is validated; the host
/// owns skeleton binding and the validity of bone indices.
///
/// Every error that building the candidate can give is given here.
pub fn preflight_time_warp_clip_v1(input: &Clip, plan: &FootCycleMemberPlanV1) -> (r: Result<
    FootCycleClipPreflightV1,
    FootCycleClipWarpError,
>)
    ensures
        match (warp_refusal(input@, plan.operation), r) {
            (Some(expected), Err(error)) => error == expected,
            (None, Ok(accepted)) => {
                &&& accepted@ == preflight::held(warp_counts(input@, plan.operation))
                &&& preflight::within_limits(accepted@)
                &&& preflight::payload_sizes() ==> accepted@ == warp_counts(input@, plan.operation)
                    && accepted@.candidate_bytes <= FOOT_CYCLE_CLIP_V1_MAX_CANDIDATE_BYTES
            },
            _ => false,
        },
{
    match prepare_clip_warp(input, plan) {
        Ok(prepared) => {
            proof {
                if preflight::payload_sizes() {
                    preflight::law_candidate_bytes_bounded(
                        input@,
                        plan.operation.rows(),
                        input.duration_s.narrowed(),
                        prepared.identity,
                        input@.tracks.len() as int,
                    );
                }
            }
            Ok(prepared.counts)
        },
        Err(error) => Err(error),
    }
}

/// Applies one member's normalized source-to-output map to a copy of a clip.
///
/// Whether the plan was made for this clip is for the caller to know. Only
/// track-local shape is validated: the host must already have bound every bone
/// index to its skeleton. A key that is no authored key gets the value that
/// `sample_track` gives for its instant.
pub fn time_warp_clip_v1<F: Fn(&Track, Binary32) -> TrackSample>(
    input: &Clip,
    plan: &FootCycleMemberPlanV1,
    sample_track: &F,
) -> (r: Result<Clip, FootCycleClipWarpError>)
    requires
        fitting_sampler(*sample_track),
    ensures
        match (warp_refusal(input@, plan.operation), r) {
            (Some(expected), Err(error)) => error == expected,
            (None, Ok(candidate)) => built(*sample_track, *input, plan.operation, candidate@),
            _ => false,
        },
{
    let prepared: PreparedClipWarp = match prepare_clip_warp(input, plan) {
        Ok(prepared) => prepared,
        Err(error) => {
            return Err(error);
        },
    };
    if prepared.identity {
        return Ok(input.copied());
    }
    let mut tracks: Vec<Track> = Vec::with_capacity(input.tracks.len());
    let ghost points = plan.operation.rows();
    let ghost duration = input.duration_s.narrowed();
    for track_index in 0..input.tracks.len()
        invariant
            prepared.points@ == points,
            prepared.duration == duration,
            operation::valid_map(points),
            map_laws::proper_duration(duration),
            fitting_sampler(*sample_track),
            preflight::tracks_refusal(input@, points, duration, false) is None,
            prepared.track_candidate_keys@.len() == input.tracks@.len(),
            tracks@.len() == track_index,
            forall|i: int|
                0 <= i < track_index ==> warped_track(
                    *sample_track,
                    input.tracks@[i],
                    points,
                    duration,
                    (#[trigger] tracks@[i])@,
                ),
    {
        proof {
            preflight::lemma_accepted_track(input@, points, duration, false, 0, track_index as int);
            assert(input@.tracks[track_index as int] == input.tracks@[track_index as int]@);
        }
        match warp_track(
            &input.tracks[track_index],
            track_index,
            prepared.points,
            prepared.duration,
            prepared.track_candidate_keys[track_index],
            sample_track,
        ) {
            Ok(track) => {
                tracks.push(track);
            },
            Err(error) => {
                return Err(error);
            },
        }
    }
    Ok(
        Clip {
            name: input.name.clone(),
            duration_s: prepared.output_duration_s,
            tracks,
        },
    )
}

} // verus!
