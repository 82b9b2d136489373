//! What warping does to a track, said of control points, keys and stored
//! values.

use crate::binary32::Binary32;
use crate::candidate;
use crate::candidate_laws;
use crate::keys;
use crate::map_laws;
use crate::model::Clip;
use crate::model::Interpolation;
use crate::model::Track;
use crate::model::TrackSample;
use crate::model::TrackValues;
use crate::model::TrackView;
use crate::model::ValuesView;
use crate::plan::ContactTimeWarpControlPointV1;
use crate::plan::ContactTransformOperationV1;
use crate::row_laws;
use crate::rows;
use crate::rows::FootCycleClipWarpKnotV1;
use crate::rows::FootCycleClipWarpRowV1;
use vstd::prelude::*;

verus! {

/// What a track and a clip hold is what their fields hold.
pub proof fn law_views_are_the_fields(clip: Clip, i: int)
    requires
        0 <= i < clip.tracks@.len(),
    ensures
        clip@.name == clip.name@,
        clip@.duration_s == clip.duration_s,
        clip@.tracks.len() == clip.tracks@.len(),
        clip@.tracks[i].bone == clip.tracks@[i].bone,
        clip@.tracks[i].property == clip.tracks@[i].property,
        clip@.tracks[i].interpolation == clip.tracks@[i].interpolation,
        clip@.tracks[i].times == clip.tracks@[i].times@,
        match (clip@.tracks[i].values, clip.tracks@[i].values) {
            (ValuesView::Vec3s(held), TrackValues::Vec3s(stored)) => held == stored@,
            (ValuesView::Quats(held), TrackValues::Quats(stored)) => held == stored@,
            _ => false,
        },
{
}

/// The interior control points of a map that a LINEAR track emits are decided
/// by their source times alone: those from one place before its first key to
/// one place after its last key, but for those within one place of the start
/// or the end of the clip. Each of them is carried by exactly one row, with its
/// own source and output times, and no other control point is carried by any.
#[verifier::spinoff_prover]
#[verifier::rlimit(60)]
pub proof fn law_inner_control_points_have_one_row(
    points: Seq<ContactTimeWarpControlPointV1>,
    duration: Binary32,
    track: TrackView,
    i: int,
)
    requires
        map_laws::ready_track(points, duration, track),
        track.interpolation == Interpolation::Linear,
        track.times.len() > 0,
        0 <= i < points.len(),
    ensures
        ({
            let all = rows::track_rows(points, duration, track);
            let wide = duration.widened();
            let source = points[i].input.product(wide).narrowed();
            let output = points[i].output.product(wide).narrowed();
            let emitted = {
                &&& 0 < i < points.len() - 1
                &&& track.times[0].place() - 1 <= source.place()
                &&& source.place() <= track.times[track.times.len() - 1].place() + 1
                &&& !(-1 <= source.place() <= 1)
                &&& !(-1 <= source.place() - duration.place() <= 1)
            };
            &&& emitted ==> exists|r: int|
                0 <= r < all.len() && #[trigger] row_laws::carried(all[r]) == Some(
                    (FootCycleClipWarpKnotV1 {
                        control_point_index: i as usize,
                        source_time: source,
                        output_time: output,
                    }),
                )
            &&& forall|r: int|
                0 <= r < all.len() ==> (#[trigger] row_laws::carried(all[r]) matches Some(knot)
                    ==> (knot.control_point_index == i ==> emitted && knot.source_time == source
                    && knot.output_time == output))
            &&& forall|r: int, q: int|
                0 <= r < q < all.len() ==> match (
                    #[trigger] row_laws::carried(all[r]),
                    #[trigger] row_laws::carried(all[q]),
                ) {
                    (Some(a), Some(b)) => a.control_point_index < b.control_point_index,
                    _ => true,
                }
        }),
{
    let knots = rows::track_knots(points, duration, track);
    let all = rows::track_rows(points, duration, track);
    let knot = rows::resolved(points, duration, i);
    map_laws::lemma_ready_track(points, duration, track);
    map_laws::law_rows_resolve_in_order(points, duration, i, i);
    row_laws::lemma_knots_resolved(
        points,
        duration,
        track.start(),
        track.end(),
        points.len() - 1,
    );
    row_laws::law_knots_are_admitted_interior_rows(points, duration, track, knot);
    let last = track.times.len() - 1;
    assert(!track.times[0].nan() && !track.times[last].nan());
    assert(last > 0 ==> track.times[0].lt_number(track.times[last]));
    if knots.contains(knot) {
        let k = choose|k: int| 0 <= k < knots.len() && knots[k] == knot;
        let r = row_laws::lemma_row_of_knot(track.times, knots, k);
        assert(row_laws::carried(all[r]) == Some(knot));
    }
    assert forall|r: int| 0 <= r < all.len() implies (#[trigger] row_laws::carried(
        all[r],
    ) matches Some(other) ==> (other.control_point_index == i ==> other == knot && knots.contains(
        knot,
    ))) by {
        row_laws::lemma_row_contents(track.times, knots, r);
        if let Some(other) = row_laws::carried(all[r]) {
            let k = choose|k: int| 0 <= k < knots.len() && knots[k] == other;
            assert(knots[k] == other);
        }
    }
    assert forall|r: int, q: int| 0 <= r < q < all.len() implies match (
        #[trigger] row_laws::carried(all[r]),
        #[trigger] row_laws::carried(all[q]),
    ) {
        (Some(a), Some(b)) => a.control_point_index < b.control_point_index,
        _ => true,
    } by {
        if row_laws::carried(all[r]) is Some && row_laws::carried(all[q]) is Some {
            let (k, l) = row_laws::lemma_knots_in_row_order(track.times, knots, r, q);
            assert(knots[k].control_point_index < knots[l].control_point_index);
        }
    }
}

/// A row that carries a control point shares its key with an authored key in a
/// set way, in a track that can be warped: with the key whose time it has, if
/// there is one; else with the earlier of the keys one place beside it; and
/// with no key if none is that near.
pub proof fn law_control_points_bind_to_the_nearest_key(
    points: Seq<ContactTimeWarpControlPointV1>,
    duration: Binary32,
    track: TrackView,
    track_index: usize,
    r: int,
)
    requires
        candidate_laws::warpable_track(track, track_index, points, duration),
        0 <= r < rows::track_rows(points, duration, track).len(),
    ensures
        match rows::track_rows(points, duration, track)[r] {
            FootCycleClipWarpRowV1::Authored(index) => index < track.times.len(),
            FootCycleClipWarpRowV1::Knot(knot) => forall|e: int|
                0 <= e < track.times.len() ==> {
                    let gap = (#[trigger] track.times[e]).place() - knot.source_time.place();
                    gap < -1 || gap > 1
                },
            FootCycleClipWarpRowV1::Coalesced(index, knot) => {
                let near = track.times[index as int].place() - knot.source_time.place();
                &&& index < track.times.len()
                &&& -1 <= near <= 1
                &&& forall|e: int|
                    0 <= e < track.times.len() && e != index ==> (
                    #[trigger] track.times[e]).place() != knot.source_time.place()
                &&& near != 0 ==> forall|e: int|
                    0 <= e < index ==> (#[trigger] track.times[e]).place() + 1
                        < knot.source_time.place()
            },
        },
{
    let knots = rows::track_knots(points, duration, track);
    let all = rows::track_rows(points, duration, track);
    assert(track.times_finite() && track.times_increase());
    map_laws::lemma_ready_track(points, duration, track);
    keys::lemma_accepted_rows(track, track_index, points, duration, all, 0);
    row_laws::lemma_faithful_row(track.times, knots, r);
    row_laws::lemma_row_contents(track.times, knots, r);
    match all[r] {
        FootCycleClipWarpRowV1::Authored(_) => {},
        FootCycleClipWarpRowV1::Knot(knot) => {
            let k = choose|k: int| 0 <= k < knots.len() && knots[k] == knot;
            assert(!knots[k].source_time.nan());
            assert forall|e: int| 0 <= e < track.times.len() implies {
                let gap = (#[trigger] track.times[e]).place() - knot.source_time.place();
                gap < -1 || gap > 1
            } by {
                assert(!knot.source_time.one_instant(track.times[e]));
            }
        },
        FootCycleClipWarpRowV1::Coalesced(index, knot) => {
            let k = choose|k: int| 0 <= k < knots.len() && knots[k] == knot;
            assert(!knots[k].source_time.nan());
            if track.times[index as int].place() != knot.source_time.place() {
                assert forall|e: int| 0 <= e < index implies (
                #[trigger] track.times[e]).place() + 1 < knot.source_time.place() by {
                    row_laws::lemma_earlier_key_binds(track.times, knots, r, index, knot, e);
                    assert(track.times[e].lt_number(track.times[index as int]));
                }
            }
        },
    }
}

/// Every key of a warped track that is no cubic spline comes from its row. A
/// row that names an authored key stores the value of that key bit for bit; a
/// row that names none stores what the sampler gives for the source time of
/// its control point. A row with a control point is at the output time of that
/// control point. This is said of the stored vectors and quaternions.
#[verifier::spinoff_prover]
#[verifier::rlimit(60)]
pub proof fn law_stored_keys_come_from_their_rows<F: Fn(&Track, Binary32) -> TrackSample>(
    sample_track: F,
    track: Track,
    track_index: usize,
    points: Seq<ContactTimeWarpControlPointV1>,
    duration: Binary32,
    out: Track,
    j: int,
)
    requires
        candidate_laws::warpable_track(track@, track_index, points, duration),
        candidate::warped_track(sample_track, track, points, duration, out@),
        0 <= j < rows::track_rows(points, duration, track@).len(),
    ensures
        out.bone == track.bone,
        out.property == track.property,
        out.interpolation == track.interpolation,
        out.times@.len() == rows::track_rows(points, duration, track@).len(),
        match (track.values, out.values) {
            (TrackValues::Vec3s(authored), TrackValues::Vec3s(stored)) => {
                &&& authored@.len() == track.times@.len()
                &&& stored@.len() == out.times@.len()
                &&& match rows::track_rows(points, duration, track@)[j] {
                    FootCycleClipWarpRowV1::Authored(i) => i < authored@.len() && stored@[j]
                        == authored@[i as int],
                    FootCycleClipWarpRowV1::Coalesced(i, _) => i < authored@.len() && stored@[j]
                        == authored@[i as int],
                    FootCycleClipWarpRowV1::Knot(knot) => call_ensures(
                        sample_track,
                        (&track, knot.source_time),
                        TrackSample::Vec3(stored@[j]),
                    ),
                }
            },
            (TrackValues::Quats(authored), TrackValues::Quats(stored)) => {
                &&& authored@.len() == track.times@.len()
                &&& stored@.len() == out.times@.len()
                &&& match rows::track_rows(points, duration, track@)[j] {
                    FootCycleClipWarpRowV1::Authored(i) => i < authored@.len() && stored@[j]
                        == authored@[i as int],
                    FootCycleClipWarpRowV1::Coalesced(i, _) => i < authored@.len() && stored@[j]
                        == authored@[i as int],
                    FootCycleClipWarpRowV1::Knot(knot) => call_ensures(
                        sample_track,
                        (&track, knot.source_time),
                        TrackSample::Quat(stored@[j]),
                    ),
                }
            },
            _ => false,
        },
        match rows::track_rows(points, duration, track@)[j] {
            FootCycleClipWarpRowV1::Authored(i) => out.times@[j] == keys::mapped(
                track.times@[i as int],
                duration,
                points,
            ),
            FootCycleClipWarpRowV1::Coalesced(_, knot) => out.times@[j]
                == points[knot.control_point_index as int].output.product(
                duration.widened(),
            ).narrowed(),
            FootCycleClipWarpRowV1::Knot(knot) => out.times@[j]
                == points[knot.control_point_index as int].output.product(
                duration.widened(),
            ).narrowed(),
        },
{
    let planned = keys::track_keys(track@, points, duration);
    let knots = rows::track_knots(points, duration, track@);
    let row = rows::track_rows(points, duration, track@)[j];
    assert(candidate::value_of_key(sample_track, track, planned[j], out@.values.sample(j)));
    assert(out.times@ == out@.times);
    row_laws::lemma_row_contents(track@.times, knots, j);
    if let Some(knot) = row_laws::carried(row) {
        assert(track@.interpolation == Interpolation::Linear);
        row_laws::law_knots_are_admitted_interior_rows(points, duration, track@, knot);
    }
}

/// Whether `at` places every authored key of a track in its candidate: in
/// order, and with the value that is stored for it.
pub open spec fn keeps_values(track: Track, out: Track, at: Seq<int>) -> bool {
    &&& at.len() == track.times@.len()
    &&& forall|i: int| 0 <= i < at.len() ==> 0 <= #[trigger] at[i] < out.times@.len()
    &&& forall|i: int, l: int| 0 <= i < l < at.len() ==> #[trigger] at[i] < #[trigger] at[l]
    &&& match (track.values, out.values) {
        (TrackValues::Vec3s(authored), TrackValues::Vec3s(stored)) => forall|i: int|
            0 <= i < at.len() ==> stored@[#[trigger] at[i]] == authored@[i],
        (TrackValues::Quats(authored), TrackValues::Quats(stored)) => forall|i: int|
            0 <= i < at.len() ==> stored@[#[trigger] at[i]] == authored@[i],
        _ => false,
    }
}

/// Every authored key of a warped track is still in its candidate, in order
/// and with its stored value.
pub proof fn law_every_authored_key_is_kept<F: Fn(&Track, Binary32) -> TrackSample>(
    sample_track: F,
    track: Track,
    track_index: usize,
    points: Seq<ContactTimeWarpControlPointV1>,
    duration: Binary32,
    out: Track,
)
    requires
        candidate_laws::warpable_track(track@, track_index, points, duration),
        candidate::warped_track(sample_track, track, points, duration, out@),
    ensures
        exists|at: Seq<int>| keeps_values(track, out, at),
{
    let knots = rows::track_knots(points, duration, track@);
    let all = rows::track_rows(points, duration, track@);
    let times = track@.times;
    let at = Seq::new(
        times.len(),
        |i: int| choose|r: int| 0 <= r < all.len() && row_laws::names_key(all[r], i),
    );
    assert forall|i: int| 0 <= i < at.len() implies 0 <= #[trigger] at[i] < all.len()
        && row_laws::names_key(all[at[i]], i) by {
        let r = row_laws::lemma_row_of_key(times, knots, i);
        assert(0 <= r < all.len() && row_laws::names_key(all[r], i));
    }
    assert forall|i: int, l: int| 0 <= i < l < at.len() implies #[trigger] at[i]
        < #[trigger] at[l] by {
        assert(row_laws::names_key(all[at[i]], i) && row_laws::names_key(all[at[l]], l));
        if at[l] < at[i] {
            row_laws::lemma_keys_in_row_order(times, knots, at[l], at[i], l, i);
        }
    }
    assert forall|i: int| 0 <= i < at.len() implies (match (track.values, out.values) {
        (TrackValues::Vec3s(authored), TrackValues::Vec3s(stored)) => stored@[#[trigger] at[i]]
            == authored@[i],
        (TrackValues::Quats(authored), TrackValues::Quats(stored)) => stored@[at[i]]
            == authored@[i],
        _ => false,
    }) by {
        assert(row_laws::names_key(all[at[i]], i));
        law_stored_keys_come_from_their_rows(
            sample_track,
            track,
            track_index,
            points,
            duration,
            out,
            at[i],
        );
    }
    assert(times.len() > 0);
    law_stored_keys_come_from_their_rows(
        sample_track,
        track,
        track_index,
        points,
        duration,
        out,
        at[0],
    );
    assert(keeps_values(track, out, at));
}

/// Where a map has a control point that moves, the candidate is warped there. A
/// LINEAR track that spans that control point has a key at its output time. A
/// STEP key at the phase of that control point is moved to its output time.
#[verifier::spinoff_prover]
#[verifier::rlimit(60)]
pub proof fn law_a_moved_control_point_moves_keys<F: Fn(&Track, Binary32) -> TrackSample>(
    sample_track: F,
    input: Clip,
    operation: ContactTransformOperationV1,
    out: Clip,
    t: int,
    i: int,
)
    requires
        candidate::warp_refusal(input@, operation) is None,
        candidate::built(sample_track, input, operation, out@),
        0 <= t < input.tracks@.len(),
        0 <= i < operation.rows().len(),
        operation.rows()[i].input.place() != operation.rows()[i].output.place(),
    ensures
        out.tracks@.len() == input.tracks@.len(),
        ({
            let duration = input.duration_s.narrowed();
            let wide = duration.widened();
            let point = operation.rows()[i];
            let source = point.input.product(wide).narrowed();
            let output = point.output.product(wide).narrowed();
            let times = input.tracks@[t].times@;
            &&& input.tracks@[t].interpolation == Interpolation::Linear && times[0].place()
                < source.place() < times[times.len() - 1].place() && source.place() > 1
                && source.place() + 1 < duration.place() ==> exists|j: int|
                0 <= j < out.tracks@[t].times@.len() && #[trigger] out.tracks@[t].times@[j]
                    == output
            &&& input.tracks@[t].interpolation == Interpolation::Step ==> {
                &&& out.tracks@[t].times@.len() == times.len()
                &&& forall|k: int|
                    0 <= k < times.len() && (#[trigger] times[k]).widened().quotient(wide).place()
                        == point.input.place() ==> out.tracks@[t].times@[k].place()
                        == output.place()
            }
        }),
{
    let points = operation.rows();
    let duration = input.duration_s.narrowed();
    let wide = duration.widened();
    let point = points[i];
    let track = input.tracks@[t];
    let result = out.tracks@[t];
    let times = track.times@;
    assert(!point.input.eq_number(point.output));
    assert(!candidate::identity_map(points));
    assert(input@.tracks[t] == track@);
    assert(out@.tracks[t] == result@);
    candidate_laws::law_accepted_clip(input@, operation, t);
    assert(candidate::warped_track(sample_track, track, points, duration, result@));
    assert(points[i].normalized());
    if track.interpolation == Interpolation::Linear {
        let source = point.input.product(wide).narrowed();
        let output = point.output.product(wide).narrowed();
        candidate_laws::law_accepted_knots_are_apart(track@, t as usize, points, duration);
        law_inner_control_points_have_one_row(points, duration, track@, i);
        if times[0].place() < source.place() < times[times.len() - 1].place() && source.place() > 1
            && source.place() + 1 < duration.place() {
            map_laws::lemma_end_rows_resolve_to_the_ends(points, duration);
            let all = rows::track_rows(points, duration, track@);
            let r = choose|r: int|
                0 <= r < all.len() && #[trigger] row_laws::carried(all[r]) == Some(
                    (FootCycleClipWarpKnotV1 {
                        control_point_index: i as usize,
                        source_time: source,
                        output_time: output,
                    }),
                );
            law_stored_keys_come_from_their_rows(
                sample_track,
                track,
                t as usize,
                points,
                duration,
                result,
                r,
            );
            assert(result.times@[r] == output);
        }
    }
    if track.interpolation == Interpolation::Step {
        candidate_laws::law_step_values_are_kept(sample_track, track, points, duration, result@);
        assert(result.times@ == result@.times);
        assert forall|k: int|
            0 <= k < times.len() && (#[trigger] times[k]).widened().quotient(wide).place()
                == point.input.place() implies result.times@[k].place() == point.output.product(
            wide,
        ).narrowed().place() by {
            assert(result.times@[k] == keys::mapped(times[k], duration, points));
            candidate_laws::lemma_accepted(track@, t as usize, points, duration);
            assert(times[k] == track@.times[k]);
            map_laws::lemma_phase_within_one(times[k], duration);
            map_laws::law_map_is_exact_at_its_rows(times[k], duration, points, i);
        }
    }
}

/// Where no control point of a map moves, the candidate is the clip itself.
pub proof fn law_unmoved_control_points_keep_the_clip<F: Fn(&Track, Binary32) -> TrackSample>(
    sample_track: F,
    input: Clip,
    operation: ContactTransformOperationV1,
    out: Clip,
)
    requires
        candidate::warp_refusal(input@, operation) is None,
        candidate::built(sample_track, input, operation, out@),
        forall|i: int|
            0 <= i < operation.rows().len() ==> (#[trigger] operation.rows()[i]).input.place()
                == operation.rows()[i].output.place(),
    ensures
        out.name@ == input.name@,
        out.duration_s.bits == input.duration_s.bits,
        out.tracks@.len() == input.tracks@.len(),
        forall|t: int|
            0 <= t < input.tracks@.len() ==> (#[trigger] out.tracks@[t])@ == input.tracks@[t]@,
{
    let points = operation.rows();
    crate::operation::lemma_accepted_map_is_valid(points);
    assert forall|i: int| 0 <= i < points.len() implies (#[trigger] points[i]).input.eq_number(
        points[i].output,
    ) by {
        assert(points[i].normalized());
    }
    assert(candidate::identity_map(points));
    assert forall|t: int| 0 <= t < input.tracks@.len() implies (#[trigger] out.tracks@[t])@
        == input.tracks@[t]@ by {
        assert(out@.tracks[t] == input@.tracks[t]);
    }
}

} // verus!
