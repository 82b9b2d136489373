//! Bones are names: renaming them renames what comes out, and nothing else.

use crate::binary32::Binary32;
use crate::candidate;
use crate::candidate_laws;
use crate::cubic;
use crate::error::FootCycleClipWarpError;
use crate::keys;
use crate::keys::CandidateValue;
use crate::model::Clip;
use crate::model::ClipView;
use crate::model::DocumentShapeError;
use crate::model::Interpolation;
use crate::model::Property;
use crate::model::Quat;
use crate::model::Track;
use crate::model::TrackSample;
use crate::model::TrackView;
use crate::plan::ContactTimeWarpControlPointV1;
use crate::plan::ContactTransformOperationV1;
use crate::preflight;
use crate::rows;
use crate::rows::FootCycleClipWarpRowV1;
use vstd::prelude::*;

verus! {

/// Whether different bones get different names.
pub open spec fn injective(name: spec_fn(usize) -> usize) -> bool {
    forall|a: usize, b: usize| #[trigger] name(a) == #[trigger] name(b) ==> a == b
}

/// A track with its bone renamed.
pub open spec fn renamed_track(track: TrackView, name: spec_fn(usize) -> usize) -> TrackView {
    TrackView {
        bone: name(track.bone),
        property: track.property,
        interpolation: track.interpolation,
        times: track.times,
        values: track.values,
    }
}

/// A clip with every bone renamed.
pub open spec fn renamed_clip(clip: ClipView, name: spec_fn(usize) -> usize) -> ClipView {
    ClipView {
        name: clip.name,
        duration_s: clip.duration_s,
        tracks: Seq::new(clip.tracks.len(), |i: int| renamed_track(clip.tracks[i], name)),
    }
}

/// A refusal with the bone that it names renamed.
pub open spec fn renamed_refusal(
    refusal: Option<FootCycleClipWarpError>,
    name: spec_fn(usize) -> usize,
) -> Option<FootCycleClipWarpError> {
    match refusal {
        Some(FootCycleClipWarpError::DuplicateTrackTarget { track_index, bone, property }) => Some(
            FootCycleClipWarpError::DuplicateTrackTarget {
                track_index,
                bone: name(bone),
                property,
            },
        ),
        Some(
            FootCycleClipWarpError::InvalidTrack {
                track_index,
                source: DocumentShapeError::TrackShape { clip_index, node, violation },
            },
        ) => Some(
            FootCycleClipWarpError::InvalidTrack {
                track_index,
                source: DocumentShapeError::TrackShape {
                    clip_index,
                    node: name(node),
                    violation,
                },
            },
        ),
        other => other,
    }
}

/// Whether a sampler does not look at the bone of the track it is asked about.
pub open spec fn bone_blind<F: Fn(&Track, Binary32) -> TrackSample>(sample_track: F) -> bool {
    forall|a: &Track, b: &Track, time: Binary32, value: TrackSample|
        candidate::sampleable(a@, time) && b@ == (TrackView { bone: b@.bone, ..a@ })
            && #[trigger] call_ensures(sample_track, (a, time), value) ==> #[trigger] call_ensures(
            sample_track,
            (b, time),
            value,
        )
}

proof fn lemma_same_rows(
    track: TrackView,
    name: spec_fn(usize) -> usize,
    points: Seq<ContactTimeWarpControlPointV1>,
    duration: Binary32,
)
    ensures
        rows::track_rows(points, duration, renamed_track(track, name)) == rows::track_rows(
            points,
            duration,
            track,
        ),
        keys::track_keys(renamed_track(track, name), points, duration) == keys::track_keys(
            track,
            points,
            duration,
        ),
{
    let other = renamed_track(track, name);
    assert(rows::track_knots(points, duration, other) == rows::track_knots(
        points,
        duration,
        track,
    ));
    let all = rows::track_rows(points, duration, track);
    assert(rows::track_rows(points, duration, other) == all);
    assert forall|i: int| 0 <= i < all.len() implies keys::row_key(
        other,
        points,
        duration,
        #[trigger] all[i],
    ) == keys::row_key(track, points, duration, all[i]) by {}
    assert(keys::track_keys(other, points, duration) =~= keys::track_keys(track, points, duration));
}

proof fn lemma_same_row_refusal(
    track: TrackView,
    name: spec_fn(usize) -> usize,
    track_index: usize,
    points: Seq<ContactTimeWarpControlPointV1>,
    duration: Binary32,
    all: Seq<FootCycleClipWarpRowV1>,
    i: int,
)
    ensures
        ({
            let refusal = keys::first_row_refusal(track, track_index, points, duration, all, i);
            &&& keys::first_row_refusal(
                renamed_track(track, name),
                track_index,
                points,
                duration,
                all,
                i,
            ) == refusal
            &&& renamed_refusal(refusal, name) == refusal
        }),
    decreases all.len() - i,
{
    if i < all.len() {
        lemma_same_row_refusal(track, name, track_index, points, duration, all, i + 1);
        assert(keys::row_refusal(
            renamed_track(track, name),
            track_index,
            points,
            duration,
            all,
            i,
        ) == keys::row_refusal(track, track_index, points, duration, all, i));
    }
}

proof fn lemma_same_unnormalizable(
    track: TrackView,
    name: spec_fn(usize) -> usize,
    values: Seq<Quat>,
    i: int,
)
    ensures
        preflight::first_unnormalizable(renamed_track(track, name), values, i)
            == preflight::first_unnormalizable(track, values, i),
    decreases track.times.len() - i,
{
    if i < track.times.len() {
        lemma_same_unnormalizable(track, name, values, i + 1);
    }
}

proof fn lemma_renamed_content(
    track: TrackView,
    name: spec_fn(usize) -> usize,
    track_index: usize,
    points: Seq<ContactTimeWarpControlPointV1>,
    duration: Binary32,
    identity: bool,
)
    ensures
        preflight::content_refusal(
            renamed_track(track, name),
            track_index,
            points,
            duration,
            identity,
        ) == renamed_refusal(
            preflight::content_refusal(track, track_index, points, duration, identity),
            name,
        ),
{
    let other = renamed_track(track, name);
    assert(other.times_finite() == track.times_finite());
    assert(other.times_increase() == track.times_increase());
    assert(other.shape_violation() == track.shape_violation());
    if let crate::model::ValuesView::Quats(values) = track.values {
        lemma_same_unnormalizable(track, name, values, 0);
    }
    assert(cubic::cubic_refusal(other) == cubic::cubic_refusal(track));
    lemma_same_rows(track, name, points, duration);
    lemma_same_row_refusal(
        track,
        name,
        track_index,
        points,
        duration,
        rows::track_rows(points, duration, track),
        0,
    );
}

proof fn lemma_same_counts(
    clip: ClipView,
    name: spec_fn(usize) -> usize,
    points: Seq<ContactTimeWarpControlPointV1>,
    duration: Binary32,
    identity: bool,
    n: int,
)
    requires
        n <= clip.tracks.len(),
    ensures
        preflight::counts(renamed_clip(clip, name), points, duration, identity, n)
            == preflight::counts(clip, points, duration, identity, n),
    decreases n,
{
    if n > 0 {
        lemma_same_counts(clip, name, points, duration, identity, n - 1);
        lemma_same_rows(clip.tracks[n - 1], name, points, duration);
    }
}

proof fn lemma_renamed_claim(
    clip: ClipView,
    name: spec_fn(usize) -> usize,
    n: int,
    bone: usize,
    property: Property,
)
    requires
        injective(name),
        n <= clip.tracks.len(),
    ensures
        preflight::claimed(renamed_clip(clip, name), n, name(bone), property)
            == preflight::claimed(clip, n, bone, property),
{
    let other = renamed_clip(clip, name);
    if preflight::claimed(clip, n, bone, property) {
        let j = choose|j: int|
            0 <= j < n && (#[trigger] clip.tracks[j]).bone == bone && clip.tracks[j].property
                == property;
        assert(other.tracks[j].bone == name(bone));
    }
    if preflight::claimed(other, n, name(bone), property) {
        let j = choose|j: int|
            0 <= j < n && (#[trigger] other.tracks[j]).bone == name(bone)
                && other.tracks[j].property == property;
        assert(name(clip.tracks[j].bone) == name(bone));
        assert(clip.tracks[j].bone == bone);
    }
}

proof fn lemma_renamed_tracks(
    clip: ClipView,
    name: spec_fn(usize) -> usize,
    points: Seq<ContactTimeWarpControlPointV1>,
    duration: Binary32,
    identity: bool,
    i: int,
)
    requires
        injective(name),
        0 <= i,
    ensures
        preflight::first_track_refusal(renamed_clip(clip, name), points, duration, identity, i)
            == renamed_refusal(
            preflight::first_track_refusal(clip, points, duration, identity, i),
            name,
        ),
    decreases clip.tracks.len() - i,
{
    if i < clip.tracks.len() {
        let track = clip.tracks[i];
        let other = renamed_clip(clip, name);
        assert(other.tracks[i] == renamed_track(track, name));
        lemma_renamed_tracks(clip, name, points, duration, identity, i + 1);
        lemma_renamed_claim(clip, name, i, track.bone, track.property);
        lemma_same_counts(clip, name, points, duration, identity, i);
        lemma_same_rows(track, name, points, duration);
        lemma_renamed_content(track, name, i as usize, points, duration, identity);
        let before = preflight::counts(clip, points, duration, identity, i);
        assert(preflight::charged(before, other.tracks[i], points, duration, identity)
            == preflight::charged(before, track, points, duration, identity));
        assert(preflight::track_refusal(other, points, duration, identity, i) == renamed_refusal(
            preflight::track_refusal(clip, points, duration, identity, i),
            name,
        ));
    }
}

/// Under an injective renaming of bones a clip is refused as before, with the
/// bone that the refusal names renamed, and counts as before: only that bones
/// of one property differ matters.
pub proof fn law_renaming_bones_renames_the_refusal(
    clip: ClipView,
    operation: ContactTransformOperationV1,
    name: spec_fn(usize) -> usize,
)
    requires
        injective(name),
    ensures
        candidate::warp_refusal(renamed_clip(clip, name), operation) == renamed_refusal(
            candidate::warp_refusal(clip, operation),
            name,
        ),
        candidate::warp_counts(renamed_clip(clip, name), operation) == candidate::warp_counts(
            clip,
            operation,
        ),
{
    let points = operation.rows();
    let duration = clip.duration_s.narrowed();
    let identity = candidate::identity_map(points);
    lemma_renamed_tracks(clip, name, points, duration, identity, 0);
    lemma_same_counts(clip, name, points, duration, identity, clip.tracks.len() as int);
}

/// Under a renaming of bones, a candidate of a clip is with its bones renamed
/// a candidate of the renamed clip, if the sampler does not look at bones.
pub proof fn law_renaming_bones_renames_the_candidate<F: Fn(&Track, Binary32) -> TrackSample>(
    sample_track: F,
    input: Clip,
    renamed: Clip,
    operation: ContactTransformOperationV1,
    name: spec_fn(usize) -> usize,
    out: ClipView,
)
    requires
        candidate::warp_refusal(input@, operation) is None,
        renamed@ == renamed_clip(input@, name),
        bone_blind(sample_track),
        candidate::built(sample_track, input, operation, out),
    ensures
        candidate::built(sample_track, renamed, operation, renamed_clip(out, name)),
{
    let points = operation.rows();
    let duration = input.duration_s.narrowed();
    if !candidate::identity_map(points) {
        let other = renamed_clip(out, name);
        assert(renamed.duration_s == renamed@.duration_s);
        assert forall|i: int| 0 <= i < renamed@.tracks.len() implies candidate::warped_track(
            sample_track,
            renamed.tracks@[i],
            points,
            duration,
            #[trigger] other.tracks[i],
        ) by {
            let track = input.tracks@[i];
            let again = renamed.tracks@[i];
            assert(input@.tracks[i] == track@);
            assert(renamed@.tracks[i] == again@);
            assert(again@ == renamed_track(track@, name));
            candidate_laws::law_accepted_clip(input@, operation, i);
            assert(candidate::warped_track(
                sample_track,
                track,
                points,
                duration,
                out.tracks[i],
            ));
            lemma_same_rows(track@, name, points, duration);
            if track.interpolation != Interpolation::CubicSpline {
                let planned = keys::track_keys(track@, points, duration);
                assert forall|j: int| 0 <= j < planned.len() implies candidate::value_of_key(
                    sample_track,
                    again,
                    #[trigger] planned[j],
                    other.tracks[i].values.sample(j),
                ) by {
                    let value = out.tracks[i].values.sample(j);
                    assert(candidate::value_of_key(sample_track, track, planned[j], value));
                    if let CandidateValue::Sampled(time) = planned[j].value {
                        candidate_laws::law_sampled_instants_lie_between_keys(
                            track@,
                            i as usize,
                            points,
                            duration,
                            j,
                            time,
                        );
                        let a = &track;
                        let b = &again;
                        assert(b@ == (TrackView { bone: b@.bone, ..a@ }));
                        assert(call_ensures(sample_track, (a, time), value));
                        assert(call_ensures(sample_track, (b, time), value));
                    }
                }
            }
        }
    }
}

/// Under an injective renaming of bones the candidate is the same with its
/// bones renamed, where the sampler gives one answer per question and does not
/// look at bones.
pub proof fn law_renamed_clips_have_renamed_candidates<F: Fn(&Track, Binary32) -> TrackSample>(
    sample_track: F,
    input: Clip,
    renamed: Clip,
    operation: ContactTransformOperationV1,
    name: spec_fn(usize) -> usize,
    out: ClipView,
    second: ClipView,
)
    requires
        candidate::warp_refusal(input@, operation) is None,
        injective(name),
        renamed@ == renamed_clip(input@, name),
        bone_blind(sample_track),
        candidate_laws::determined_sampler(sample_track),
        candidate::built(sample_track, input, operation, out),
        candidate::built(sample_track, renamed, operation, second),
    ensures
        candidate::warp_refusal(renamed@, operation) is None,
        second == renamed_clip(out, name),
{
    law_renaming_bones_renames_the_refusal(input@, operation, name);
    law_renaming_bones_renames_the_candidate(sample_track, input, renamed, operation, name, out);
    candidate_laws::law_candidate_is_determined(
        sample_track,
        renamed,
        operation,
        renamed_clip(out, name),
        second,
    );
}

} // verus!
