//! What the entry points promise, said of their arguments and results.

use crate::acceptance_laws;
use crate::binary32::Binary32;
use crate::binary64::Binary64;
use crate::candidate;
use crate::candidate_laws;
use crate::error::FootCycleClipWarpError;
use crate::keys;
use crate::line_laws;
use crate::map_laws;
use crate::model::Clip;
use crate::model::ClipView;
use crate::model::Interpolation;
use crate::model::Quat;
use crate::model::Track;
use crate::model::TrackSample;
use crate::model::TrackValues;
use crate::model::TrackView;
use crate::model::ValuesView;
use crate::model::Vec3;
use crate::operation;
use crate::plan::ContactTimeWarpControlPointV1;
use crate::plan::ContactTransformOperationV1;
use crate::plan::FootCycleMemberPlanV1;
use crate::preflight;
use crate::preflight::FootCycleClipPreflightV1;
use crate::row_laws;
use crate::rows;
use crate::rows::FootCycleClipWarpKnotV1;
use crate::rows::FootCycleClipWarpRowV1;
use crate::warp_laws;
use vstd::prelude::*;

verus! {

/// Whether a clip and an operation may be put together, said of their fields:
/// of the duration and the operation, of the name, the number of tracks and
/// their targets, of each track, and of the sums over all tracks.
pub open spec fn may_retime(clip: Clip, operation: ContactTransformOperationV1) -> bool {
    match operation {
        ContactTransformOperationV1::Trim { .. } => false,
        ContactTransformOperationV1::TimeWarp { version, output_duration_s, control_points } => {
            let duration = clip.duration_s.narrowed();
            let points = control_points@;
            let moves = acceptance_laws::moves(points);
            let tracks = Seq::new(clip.tracks@.len(), |t: int| clip.tracks@[t]@);
            &&& clip.duration_s.finite() && clip.duration_s.place() > 0
            &&& duration.finite() && duration.place() > 0
            &&& version == 1
            &&& output_duration_s.place() == clip.duration_s.place()
            &&& acceptance_laws::retiming(points)
            &&& clip.tracks@.len() <= 4096
            &&& vstd::utf8::encode_utf8(clip.name@).len() <= 65536
            &&& forall|j: int, l: int|
                0 <= j < l < clip.tracks@.len() ==> (#[trigger] clip.tracks@[j]).bone != (
                #[trigger] clip.tracks@[l]).bone || clip.tracks@[j].property
                    != clip.tracks@[l].property
            &&& forall|t: int|
                0 <= t < clip.tracks@.len() ==> acceptance_laws::fit(
                    (#[trigger] clip.tracks@[t])@,
                    points,
                    duration,
                    moves,
                )
            &&& acceptance_laws::keys_of(tracks) <= 1_048_576
            &&& acceptance_laws::values_of(tracks) <= 3_145_728
            &&& acceptance_laws::retimed_keys_of(tracks, points, duration, moves) <= 1_048_576
            &&& acceptance_laws::work_of(tracks, points, duration, moves) <= 8_388_608
        },
    }
}

#[verifier::spinoff_prover]
#[verifier::rlimit(60)]
proof fn lemma_may_retime(clip: Clip, operation: ContactTransformOperationV1)
    requires
        vstd::utf8::encode_utf8(clip.name@).len() <= usize::MAX,
    ensures
        candidate::warp_refusal(clip@, operation) is None <==> may_retime(clip, operation),
{
    assert forall|t: int| 0 <= t < clip@.tracks.len() implies (
    #[trigger] clip@.tracks[t]).times.len() <= usize::MAX by {
        assert(clip@.tracks[t].times == clip.tracks@[t].times@);
        assert(clip.tracks@[t].times.len() <= usize::MAX);
    }
    acceptance_laws::law_accepted_exactly(clip@, operation);
    let tracks = Seq::new(clip.tracks@.len(), |t: int| clip.tracks@[t]@);
    assert(tracks =~= clip@.tracks);
    if may_retime(clip, operation) {
        assert forall|j: int, l: int| 0 <= j < l < clip@.tracks.len() implies (
        #[trigger] clip@.tracks[j]).bone != (#[trigger] clip@.tracks[l]).bone
            || clip@.tracks[j].property != clip@.tracks[l].property by {
            assert(clip.tracks@[j].bone != clip.tracks@[l].bone || clip.tracks@[j].property
                != clip.tracks@[l].property);
        }
        assert forall|t: int| 0 <= t < clip@.tracks.len() implies acceptance_laws::fit(
            #[trigger] clip@.tracks[t],
            operation.rows(),
            clip.duration_s.narrowed(),
            acceptance_laws::moves(operation.rows()),
        ) by {
            assert(clip.tracks@[t]@ == clip@.tracks[t]);
        }
    }
    if candidate::warp_refusal(clip@, operation) is None {
        assert forall|j: int, l: int| 0 <= j < l < clip.tracks@.len() implies (
        #[trigger] clip.tracks@[j]).bone != (#[trigger] clip.tracks@[l]).bone
            || clip.tracks@[j].property != clip.tracks@[l].property by {
            assert(clip@.tracks[j].bone != clip@.tracks[l].bone || clip@.tracks[j].property
                != clip@.tracks[l].property);
        }
        assert forall|t: int| 0 <= t < clip.tracks@.len() implies acceptance_laws::fit(
            (#[trigger] clip.tracks@[t])@,
            operation.rows(),
            clip.duration_s.narrowed(),
            acceptance_laws::moves(operation.rows()),
        ) by {
            assert(clip.tracks@[t]@ == clip@.tracks[t]);
        }
    }
}

/// Counting a candidate and building it succeed for exactly the clips and
/// operations that may be put together, and refuse all others with the same
/// error.
pub proof fn law_counting_and_building_agree<F: Fn(&Track, Binary32) -> TrackSample>(
    input: &Clip,
    plan: &FootCycleMemberPlanV1,
    sample_track: &F,
    counted: Result<FootCycleClipPreflightV1, FootCycleClipWarpError>,
    built: Result<Clip, FootCycleClipWarpError>,
)
    requires
        vstd::utf8::encode_utf8(input.name@).len() <= usize::MAX,
        call_ensures(candidate::preflight_time_warp_clip_v1, (input, plan), counted),
        call_ensures(candidate::time_warp_clip_v1::<F>, (input, plan, sample_track), built),
    ensures
        counted is Ok <==> may_retime(*input, plan.operation),
        built is Ok <==> may_retime(*input, plan.operation),
        counted matches Err(error) ==> built == Err::<Clip, FootCycleClipWarpError>(error),
        counted matches Err(error) ==> candidate::warp_refusal(input@, plan.operation) == Some(
            error,
        ),
{
    lemma_may_retime(*input, plan.operation);
}

/// How many values a track stores once it is retimed.
pub open spec fn retimed_values(
    track: TrackView,
    points: Seq<ContactTimeWarpControlPointV1>,
    duration: Binary32,
    moves: bool,
) -> nat {
    if track.interpolation == Interpolation::CubicSpline {
        3 * track.times.len()
    } else {
        acceptance_laws::retimed_keys(track, points, duration, moves)
    }
}

/// How many bytes the keys and values of a retimed track take.
pub open spec fn retimed_bytes(
    track: TrackView,
    points: Seq<ContactTimeWarpControlPointV1>,
    duration: Binary32,
    moves: bool,
) -> nat {
    acceptance_laws::retimed_keys(track, points, duration, moves) * vstd::layout::size_of::<
        Binary32,
    >() + retimed_values(track, points, duration, moves) * match track.values {
        ValuesView::Vec3s(_) => vstd::layout::size_of::<Vec3>(),
        ValuesView::Quats(_) => vstd::layout::size_of::<Quat>(),
    }
}

/// Values that some tracks store once they are retimed.
pub open spec fn retimed_values_of(
    tracks: Seq<TrackView>,
    points: Seq<ContactTimeWarpControlPointV1>,
    duration: Binary32,
    moves: bool,
) -> nat {
    acceptance_laws::total(
        Seq::new(tracks.len(), |t: int| retimed_values(tracks[t], points, duration, moves)),
    )
}

/// Bytes that the keys and values of some tracks take once they are retimed.
pub open spec fn retimed_bytes_of(
    tracks: Seq<TrackView>,
    points: Seq<ContactTimeWarpControlPointV1>,
    duration: Binary32,
    moves: bool,
) -> nat {
    acceptance_laws::total(
        Seq::new(tracks.len(), |t: int| retimed_bytes(tracks[t], points, duration, moves)),
    )
}

proof fn lemma_stored_counts_are_sums(
    clip: ClipView,
    points: Seq<ContactTimeWarpControlPointV1>,
    duration: Binary32,
    identity: bool,
    n: int,
)
    requires
        0 <= n <= clip.tracks.len(),
        forall|t: int|
            0 <= t < clip.tracks.len() ==> acceptance_laws::sound(#[trigger] clip.tracks[t]),
    ensures
        ({
            let counted = preflight::counts(clip, points, duration, identity, n);
            let tracks = clip.tracks.take(n);
            &&& counted.tracks == clip.tracks.len()
            &&& counted.name_bytes == clip.name_bytes()
            &&& counted.candidate_values == retimed_values_of(tracks, points, duration, !identity)
            &&& counted.candidate_bytes == clip.name_bytes() + clip.tracks.len()
                * vstd::layout::size_of::<Track>() + retimed_bytes_of(
                tracks,
                points,
                duration,
                !identity,
            )
        }),
    decreases n,
{
    let tracks = clip.tracks.take(n);
    if n > 0 {
        lemma_stored_counts_are_sums(clip, points, duration, identity, n - 1);
        let before = clip.tracks.take(n - 1);
        let m = (n - 1) as nat;
        assert(acceptance_laws::sound(clip.tracks[n - 1]));
        assert(Seq::new(
            n as nat,
            |t: int| retimed_values(tracks[t], points, duration, !identity),
        ).drop_last() =~= Seq::new(
            m,
            |t: int| retimed_values(before[t], points, duration, !identity),
        ));
        assert(Seq::new(
            n as nat,
            |t: int| retimed_bytes(tracks[t], points, duration, !identity),
        ).drop_last() =~= Seq::new(
            m,
            |t: int| retimed_bytes(before[t], points, duration, !identity),
        ));
    }
}

/// What the counts of an accepted clip are: sums over its tracks and what they
/// become, and bytes as a word holds them.
#[verifier::spinoff_prover]
#[verifier::rlimit(60)]
pub proof fn law_counts_are_sums_over_the_tracks(
    input: &Clip,
    plan: &FootCycleMemberPlanV1,
    counted: FootCycleClipPreflightV1,
    n: usize,
)
    requires
        vstd::utf8::encode_utf8(input.name@).len() <= usize::MAX,
        call_ensures(
            candidate::preflight_time_warp_clip_v1,
            (input, plan),
            Ok::<FootCycleClipPreflightV1, FootCycleClipWarpError>(counted),
        ),
    ensures
        plan.operation matches ContactTransformOperationV1::TimeWarp { control_points, .. } && {
            let points = control_points@;
            let duration = input.duration_s.narrowed();
            let moves = acceptance_laws::moves(points);
            let tracks = Seq::new(input.tracks@.len(), |t: int| input.tracks@[t]@);
            let name = vstd::utf8::encode_utf8(input.name@).len();
            let bytes = name + tracks.len() * vstd::layout::size_of::<Track>() + retimed_bytes_of(
                tracks,
                points,
                duration,
                moves,
            );
            &&& call_ensures(FootCycleClipPreflightV1::tracks, (counted,), n) ==> n == tracks.len()
            &&& call_ensures(FootCycleClipPreflightV1::input_keys, (counted,), n) ==> n
                == acceptance_laws::keys_of(tracks)
            &&& call_ensures(FootCycleClipPreflightV1::input_values, (counted,), n) ==> n
                == acceptance_laws::values_of(tracks)
            &&& call_ensures(FootCycleClipPreflightV1::candidate_keys, (counted,), n) ==> n
                == acceptance_laws::retimed_keys_of(tracks, points, duration, moves)
            &&& call_ensures(FootCycleClipPreflightV1::candidate_values, (counted,), n) ==> n
                == retimed_values_of(tracks, points, duration, moves)
            &&& call_ensures(FootCycleClipPreflightV1::name_bytes, (counted,), n) ==> n == name
            &&& call_ensures(FootCycleClipPreflightV1::candidate_bytes, (counted,), n) ==> (if bytes
                <= usize::MAX {
                n == bytes
            } else {
                n == usize::MAX
            })
            &&& call_ensures(FootCycleClipPreflightV1::work, (counted,), n) ==> n
                == acceptance_laws::work_of(tracks, points, duration, moves)
        },
{
    let points = plan.operation.rows();
    let duration = input.duration_s.narrowed();
    let tracks = Seq::new(input.tracks@.len(), |t: int| input.tracks@[t]@);
    let identity = candidate::identity_map(points);
    lemma_may_retime(*input, plan.operation);
    acceptance_laws::lemma_retiming(points);
    acceptance_laws::lemma_moves(points);
    assert(tracks =~= input@.tracks);
    assert(tracks.take(tracks.len() as int) =~= tracks);
    assert forall|t: int| 0 <= t < input@.tracks.len() implies acceptance_laws::sound(
        #[trigger] input@.tracks[t],
    ) by {
        assert(acceptance_laws::fit(
            input.tracks@[t]@,
            points,
            duration,
            acceptance_laws::moves(points),
        ));
    }
    acceptance_laws::lemma_counts_are_sums(
        input@,
        points,
        duration,
        identity,
        tracks.len() as int,
    );
    lemma_stored_counts_are_sums(input@, points, duration, identity, tracks.len() as int);
}

/// Whether two tracks store the same keys and values, bit for bit.
pub open spec fn same_contents(a: Track, b: Track) -> bool {
    &&& a.times@ == b.times@
    &&& match (a.values, b.values) {
        (TrackValues::Vec3s(left), TrackValues::Vec3s(right)) => left@ == right@,
        (TrackValues::Quats(left), TrackValues::Quats(right)) => left@ == right@,
        _ => false,
    }
}

/// Whether key `j` of `out` is what row `j` makes of `track`. A row that names
/// an authored key stores its value bit for bit, any other row what the sampler
/// gives for the source time of its control point. A row that carries a control
/// point is at its output time, any other row at the mapped time of its key.
pub open spec fn follows_row<F: Fn(&Track, Binary32) -> TrackSample>(
    sample_track: F,
    track: Track,
    points: Seq<ContactTimeWarpControlPointV1>,
    duration: Binary32,
    row: FootCycleClipWarpRowV1,
    out: Track,
    j: int,
) -> bool {
    &&& match (track.values, out.values) {
        (TrackValues::Vec3s(authored), TrackValues::Vec3s(stored)) => match row {
            FootCycleClipWarpRowV1::Authored(i) => stored@[j] == authored@[i as int],
            FootCycleClipWarpRowV1::Coalesced(i, _) => stored@[j] == authored@[i as int],
            FootCycleClipWarpRowV1::Knot(knot) => call_ensures(
                sample_track,
                (&track, knot.source_time),
                TrackSample::Vec3(stored@[j]),
            ),
        },
        (TrackValues::Quats(authored), TrackValues::Quats(stored)) => match row {
            FootCycleClipWarpRowV1::Authored(i) => stored@[j] == authored@[i as int],
            FootCycleClipWarpRowV1::Coalesced(i, _) => stored@[j] == authored@[i as int],
            FootCycleClipWarpRowV1::Knot(knot) => call_ensures(
                sample_track,
                (&track, knot.source_time),
                TrackSample::Quat(stored@[j]),
            ),
        },
        _ => false,
    }
    &&& match row {
        FootCycleClipWarpRowV1::Authored(i) => out.times@[j] == keys::mapped(
            track.times@[i as int],
            duration,
            points,
        ),
        FootCycleClipWarpRowV1::Coalesced(_, knot) => out.times@[j] == knot.output_time,
        FootCycleClipWarpRowV1::Knot(knot) => out.times@[j] == knot.output_time,
    }
}

/// What a built candidate is. It has the name, the duration and the tracks of
/// the clip, in order, each with its bone, property and interpolation. A cubic
/// spline is stored bit for bit, and so is every track where no control point
/// moves. Any other track has one key and one value for each of the rows that
/// are listed for it.
#[verifier::spinoff_prover]
#[verifier::rlimit(60)]
pub proof fn law_candidate_follows_the_rows<F: Fn(&Track, Binary32) -> TrackSample>(
    input: &Clip,
    plan: &FootCycleMemberPlanV1,
    sample_track: &F,
    out: Clip,
    points: &[ContactTimeWarpControlPointV1],
    t: int,
    rows: Vec<FootCycleClipWarpRowV1>,
)
    requires
        vstd::utf8::encode_utf8(input.name@).len() <= usize::MAX,
        call_ensures(
            candidate::time_warp_clip_v1::<F>,
            (input, plan, sample_track),
            Ok::<Clip, FootCycleClipWarpError>(out),
        ),
        plan.operation matches ContactTransformOperationV1::TimeWarp { control_points, .. }
            ==> points@ == control_points@,
        0 <= t < input.tracks@.len(),
        call_ensures(
            rows::time_warp_rows_v1,
            (points, input.duration_s.narrowed(), &input.tracks@[t]),
            rows,
        ),
    ensures
        out.name@ == input.name@,
        out.duration_s.bits == input.duration_s.bits,
        out.tracks@.len() == input.tracks@.len(),
        out.tracks@[t].bone == input.tracks@[t].bone,
        out.tracks@[t].property == input.tracks@[t].property,
        out.tracks@[t].interpolation == input.tracks@[t].interpolation,
        input.tracks@[t].interpolation == Interpolation::CubicSpline || !acceptance_laws::moves(
            points@,
        ) ==> same_contents(input.tracks@[t], out.tracks@[t]),
        input.tracks@[t].interpolation != Interpolation::CubicSpline && acceptance_laws::moves(
            points@,
        ) ==> {
            &&& out.tracks@[t].times@.len() == rows@.len()
            &&& out.tracks@[t].values@.len() == rows@.len()
            &&& forall|j: int|
                0 <= j < rows@.len() ==> follows_row(
                    *sample_track,
                    input.tracks@[t],
                    points@,
                    input.duration_s.narrowed(),
                    #[trigger] rows@[j],
                    out.tracks@[t],
                    j,
                )
        },
{
    let duration = input.duration_s.narrowed();
    let track = input.tracks@[t];
    let result = out.tracks@[t];
    lemma_may_retime(*input, plan.operation);
    acceptance_laws::lemma_retiming(points@);
    acceptance_laws::lemma_moves(points@);
    candidate_laws::law_accepted_clip(input@, plan.operation, t);
    assert(input@.tracks[t] == track@);
    assert(out@.tracks.len() == input@.tracks.len());
    assert(out@.tracks[t] == result@);
    assert(result.times@ == result@.times);
    assert(track.times@ == track@.times);
    if acceptance_laws::moves(points@) {
        assert(candidate::warped_track(*sample_track, track, points@, duration, result@));
        if track.interpolation != Interpolation::CubicSpline {
            lemma_track_follows_the_rows(
                *sample_track,
                track,
                t as usize,
                points@,
                duration,
                result,
            );
        }
    }
}

#[verifier::spinoff_prover]
#[verifier::rlimit(60)]
proof fn lemma_track_follows_the_rows<F: Fn(&Track, Binary32) -> TrackSample>(
    sample_track: F,
    track: Track,
    track_index: usize,
    points: Seq<ContactTimeWarpControlPointV1>,
    duration: Binary32,
    out: Track,
)
    requires
        candidate_laws::warpable_track(track@, track_index, points, duration),
        candidate::warped_track(sample_track, track, points, duration, out@),
    ensures
        out.times@.len() == rows::track_rows(points, duration, track@).len(),
        out.values@.len() == rows::track_rows(points, duration, track@).len(),
        forall|j: int|
            0 <= j < rows::track_rows(points, duration, track@).len() ==> follows_row(
                sample_track,
                track,
                points,
                duration,
                #[trigger] rows::track_rows(points, duration, track@)[j],
                out,
                j,
            ),
{
    let all = rows::track_rows(points, duration, track@);
    let knots = rows::track_knots(points, duration, track@);
    assert(out.times@ == out@.times);
    assert(out.values@.len() == all.len());
    assert forall|j: int| 0 <= j < all.len() implies follows_row(
        sample_track,
        track,
        points,
        duration,
        #[trigger] all[j],
        out,
        j,
    ) by {
        warp_laws::law_stored_keys_come_from_their_rows(
            sample_track,
            track,
            track_index,
            points,
            duration,
            out,
            j,
        );
        row_laws::lemma_row_contents(track@.times, knots, j);
        if let Some(knot) = row_laws::carried(all[j]) {
            if track@.interpolation != Interpolation::Linear {
                row_laws::law_only_linear_tracks_have_knots(points, duration, track@);
            }
            row_laws::law_knots_are_admitted_interior_rows(points, duration, track@, knot);
        }
    }
}

/// Whether some row names authored key `i`.
pub open spec fn has_key(rows: Seq<FootCycleClipWarpRowV1>, i: int) -> bool {
    exists|r: int| 0 <= r < rows.len() && #[trigger] row_laws::names_key(rows[r], i)
}

/// What the rows of a track are. Every authored key is named by one row, in
/// order. A LINEAR track also has the control points of the map that lie inside
/// it, each carried by one row, in order; any other track has none. Rows that
/// stand for themselves are in source order, and a control point shares the row
/// of an authored key exactly when it has its time or the one beside it.
pub proof fn law_rows_merge_keys_and_control_points(
    points: &[ContactTimeWarpControlPointV1],
    duration: Binary32,
    track: &Track,
    rows: Vec<FootCycleClipWarpRowV1>,
)
    requires
        acceptance_laws::retiming(points@),
        duration.finite() && duration.place() > 0,
        forall|i: int| 0 <= i < track.times@.len() ==> !(#[trigger] track.times@[i]).nan(),
        forall|i: int, j: int|
            0 <= i < j < track.times@.len() ==> (#[trigger] track.times@[i]).place() < (
            #[trigger] track.times@[j]).place(),
        call_ensures(rows::time_warp_rows_v1, (points, duration, track), rows),
    ensures
        forall|i: int| 0 <= i < track.times@.len() ==> #[trigger] has_key(rows@, i),
        forall|r: int, i: int|
            0 <= r < rows@.len() && #[trigger] row_laws::names_key(rows@[r], i) ==> 0 <= i
                < track.times@.len(),
        forall|r: int, q: int|
            0 <= r < q < rows@.len() ==> row_laws::interleaved(
                track.times@,
                #[trigger] rows@[r],
                #[trigger] rows@[q],
            ),
        forall|r: int|
            0 <= r < rows@.len() ==> (#[trigger] rows@[r] matches FootCycleClipWarpRowV1::Coalesced(
                i,
                knot,
            ) ==> {
                &&& i < track.times@.len()
                &&& -1 <= track.times@[i as int].place() - knot.source_time.place() <= 1
                &&& i + 1 < track.times@.len() ==> track.times@[i + 1].place()
                    != knot.source_time.place()
            }),
        track.interpolation != Interpolation::Linear ==> forall|r: int|
            0 <= r < rows@.len() ==> #[trigger] rows@[r] is Authored,
{
    let knots = rows::track_knots(points@, duration, track@);
    let times = track@.times;
    assert(times == track.times@);
    acceptance_laws::lemma_retiming(points@);
    assert forall|i: int, j: int| 0 <= i < j < times.len() implies (
    #[trigger] times[i]).lt_number(#[trigger] times[j]) by {
        assert(!times[i].nan() && !times[j].nan());
    }
    assert(track@.times_increase());
    assert(track.times.len() <= usize::MAX);
    map_laws::lemma_ready_track(points@, duration, track@);
    assert forall|i: int| 0 <= i < times.len() implies #[trigger] has_key(rows@, i) by {
        let r = row_laws::lemma_row_of_key(times, knots, i);
        assert(row_laws::names_key(rows@[r], i));
    }
    assert forall|r: int, i: int|
        0 <= r < rows@.len() && #[trigger] row_laws::names_key(rows@[r], i) implies 0 <= i
        < times.len() by {
        row_laws::lemma_row_contents(times, knots, r);
    }
    assert forall|r: int, q: int| 0 <= r < q < rows@.len() implies row_laws::interleaved(
        times,
        #[trigger] rows@[r],
        #[trigger] rows@[q],
    ) by {
        row_laws::lemma_rows_interleaved(times, knots, r, q);
    }
    assert forall|r: int| 0 <= r < rows@.len() implies (
    #[trigger] rows@[r] matches FootCycleClipWarpRowV1::Coalesced(i, knot) ==> {
        &&& i < times.len()
        &&& -1 <= times[i as int].place() - knot.source_time.place() <= 1
        &&& i + 1 < times.len() ==> times[i + 1].place() != knot.source_time.place()
    }) by {
        row_laws::lemma_shared_row(times, knots, r);
    }
    if track.interpolation != Interpolation::Linear {
        row_laws::law_only_linear_tracks_have_knots(points@, duration, track@);
    }
}

/// Which control points of a map the rows of a LINEAR track carry, decided by
/// source times alone: the interior ones from one place before the first key to
/// one place after the last key, but for those within one place of the start or
/// the end of the clip. The list of control points is the same.
#[verifier::spinoff_prover]
#[verifier::rlimit(60)]
pub proof fn law_rows_carry_the_inner_control_points(
    points: &[ContactTimeWarpControlPointV1],
    duration: Binary32,
    track: &Track,
    rows: Vec<FootCycleClipWarpRowV1>,
    knots: Vec<FootCycleClipWarpKnotV1>,
    i: int,
)
    requires
        acceptance_laws::retiming(points@),
        duration.finite() && duration.place() > 0,
        track.interpolation == Interpolation::Linear,
        track.times@.len() > 0,
        forall|i: int| 0 <= i < track.times@.len() ==> !(#[trigger] track.times@[i]).nan(),
        forall|i: int, j: int|
            0 <= i < j < track.times@.len() ==> (#[trigger] track.times@[i]).place() < (
            #[trigger] track.times@[j]).place(),
        call_ensures(rows::time_warp_rows_v1, (points, duration, track), rows),
        call_ensures(rows::time_warp_knots_v1, (points, duration, track), knots),
        0 <= i < points@.len(),
    ensures
        ({
            let wide = duration.widened();
            let source = points@[i].input.product(wide).narrowed();
            let output = points@[i].output.product(wide).narrowed();
            let knot = FootCycleClipWarpKnotV1 {
                control_point_index: i as usize,
                source_time: source,
                output_time: output,
            };
            let emitted = {
                &&& 0 < i < points@.len() - 1
                &&& track.times@[0].place() - 1 <= source.place()
                &&& source.place() <= track.times@[track.times@.len() - 1].place() + 1
                &&& !(-1 <= source.place() <= 1)
                &&& !(-1 <= source.place() - duration.place() <= 1)
            };
            &&& emitted <==> exists|r: int|
                0 <= r < rows@.len() && #[trigger] row_laws::carried(rows@[r]) == Some(knot)
            &&& emitted <==> exists|k: int| 0 <= k < knots@.len() && #[trigger] knots@[k] == knot
            &&& forall|r: int|
                0 <= r < rows@.len() ==> (#[trigger] row_laws::carried(rows@[r]) matches Some(other)
                    ==> (other.control_point_index == i ==> other == knot))
            &&& forall|k: int|
                0 <= k < knots@.len() ==> ((#[trigger] knots@[k]).control_point_index == i
                    ==> knots@[k] == knot)
        }),
        forall|r: int, q: int|
            0 <= r < q < rows@.len() ==> match (
                #[trigger] row_laws::carried(rows@[r]),
                #[trigger] row_laws::carried(rows@[q]),
            ) {
                (Some(a), Some(b)) => a.control_point_index < b.control_point_index,
                _ => true,
            },
        forall|k: int, l: int|
            0 <= k < l < knots@.len() ==> (#[trigger] knots@[k]).control_point_index < (
            #[trigger] knots@[l]).control_point_index,
        forall|k: int|
            0 <= k < knots@.len() ==> (#[trigger] knots@[k]).control_point_index < points@.len(),
{
    let times = track@.times;
    assert(times == track.times@);
    acceptance_laws::lemma_retiming(points@);
    assert forall|i: int, j: int| 0 <= i < j < times.len() implies (
    #[trigger] times[i]).lt_number(#[trigger] times[j]) by {
        assert(!times[i].nan() && !times[j].nan());
    }
    assert(track@.times_increase());
    assert(track.times.len() <= usize::MAX);
    warp_laws::law_inner_control_points_have_one_row(points@, duration, track@, i);
    row_laws::lemma_knots_resolved(
        points@,
        duration,
        track@.start(),
        track@.end(),
        points@.len() - 1,
    );
    let knot = rows::resolved(points@, duration, i);
    if exists|k: int| 0 <= k < knots@.len() && #[trigger] knots@[k] == knot {
        let k = choose|k: int| 0 <= k < knots@.len() && #[trigger] knots@[k] == knot;
        let r = row_laws::lemma_row_of_knot(times, knots@, k);
        assert(row_laws::carried(rows@[r]) == Some(knot));
    }
    if exists|r: int| 0 <= r < rows@.len() && #[trigger] row_laws::carried(rows@[r]) == Some(knot) {
        let r = choose|r: int|
            0 <= r < rows@.len() && #[trigger] row_laws::carried(rows@[r]) == Some(knot);
        row_laws::lemma_row_contents(times, knots@, r);
        let k = choose|k: int| 0 <= k < knots@.len() && #[trigger] knots@[k] == knot;
        assert(knots@[k] == knot);
    }
}

/// What a mapped time is. It lies within the clip, and both ends of the clip
/// stay. Where the phase of the source time lies between two neighbouring rows,
/// the mapped phase lies on the straight line between them, up to eight units
/// of `2^-53`; it is scaled by the duration and narrowed.
pub proof fn law_mapped_times_follow_the_rows(
    source_time: Binary32,
    duration: Binary32,
    points: &[ContactTimeWarpControlPointV1],
    r: Binary32,
    i: int,
)
    requires
        acceptance_laws::retiming(points@),
        duration.finite() && duration.place() > 0,
        source_time.finite() && 0 <= source_time.place() <= duration.place(),
        call_ensures(keys::map_time, (source_time, duration, points), r),
        0 <= i < points@.len() - 1,
    ensures
        r.finite() && 0 <= r.place() <= duration.place(),
        source_time.place() == 0 ==> r.place() == 0,
        source_time.place() == duration.place() ==> r.place() == duration.place(),
        points@[i].input.place() <= source_time.widened().quotient(duration.widened()).place()
            <= points@[i + 1].input.place() ==> exists|y: Binary64|
            line_laws::on_line(
                points@[i],
                points@[i + 1],
                source_time.widened().quotient(duration.widened()),
                y,
            ) && r == #[trigger] y.product(duration.widened()).narrowed(),
{
    let x = source_time.widened().quotient(duration.widened());
    acceptance_laws::lemma_retiming(points@);
    map_laws::law_map_keeps_clip_and_its_ends(source_time, duration, points@);
    map_laws::lemma_phase_within_one(source_time, duration);
    if points@[i].input.place() <= x.place() <= points@[i + 1].input.place() {
        line_laws::law_map_follows_the_line(source_time, duration, points@, i);
        let y = choose|y: Binary64|
            line_laws::on_line(points@[i], points@[i + 1], x, y) && r == #[trigger] y.product(
                duration.widened(),
            ).narrowed();
        assert(r == y.product(duration.widened()).narrowed());
    }
}

/// A control point coincides with a time exactly when the time is its source
/// time or the number beside it on either side; two places off it does not.
pub proof fn law_coincidence_is_adjacency(
    knot: FootCycleClipWarpKnotV1,
    time: Binary32,
    r: bool,
)
    requires
        call_ensures(FootCycleClipWarpKnotV1::coincides_with, (knot, time), r),
    ensures
        knot.source_time.nan() || time.nan() ==> !r,
        !knot.source_time.nan() && !time.nan() ==> (r <==> {
            ||| time.place() == knot.source_time.place()
            ||| time.place() == knot.source_time.place() + 1
            ||| time.place() == knot.source_time.place() - 1
        }),
{
}

/// Counting the keys of a track within the clip gives the number of its rows
/// where they keep apart, and a collision of that track where they do not.
pub proof fn law_counted_keys_are_the_rows(
    track: &Track,
    track_index: usize,
    points: &[ContactTimeWarpControlPointV1],
    duration: Binary32,
    r: Result<usize, FootCycleClipWarpError>,
    rows: Vec<FootCycleClipWarpRowV1>,
)
    requires
        acceptance_laws::retiming(points@),
        duration.finite() && duration.place() > 0,
        acceptance_laws::sound(track@),
        acceptance_laws::inside(track@, duration),
        call_ensures(rows::time_warp_rows_v1, (points, duration, track), rows),
        call_ensures(keys::count_warp_track_keys, (track, track_index, points, duration), r),
    ensures
        match r {
            Ok(n) => acceptance_laws::rows_clear(track@, points@, duration) && n == rows@.len(),
            Err(FootCycleClipWarpError::SourceTimeCollision { track_index: t }) => t == track_index
                && !acceptance_laws::rows_clear(track@, points@, duration),
            Err(FootCycleClipWarpError::TimeCollision { track_index: t }) => t == track_index
                && !acceptance_laws::rows_clear(track@, points@, duration),
            Err(_) => false,
        },
{
    acceptance_laws::lemma_retiming(points@);
    assert(track.times.len() <= usize::MAX);
    assert(rows.len() <= usize::MAX);
    acceptance_laws::lemma_rows_clear(track@, track_index, points@, duration);
    acceptance_laws::lemma_keys_collide(
        track@,
        track_index,
        points@,
        duration,
        rows::track_rows(points@, duration, track@),
        0,
    );
}

} // verus!
