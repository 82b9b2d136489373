//! What the library promises of every input, on concrete values.

use foot_cycle_clip::binary32::Binary32;
use foot_cycle_clip::binary64::Binary64;
use foot_cycle_clip::cubic;
use foot_cycle_clip::error;
use foot_cycle_clip::keys;
use foot_cycle_clip::model;
use foot_cycle_clip::model::Clip;
use foot_cycle_clip::model::DocumentShapeError;
use foot_cycle_clip::model::Interpolation;
use foot_cycle_clip::model::Property;
use foot_cycle_clip::model::Quat;
use foot_cycle_clip::model::Track;
use foot_cycle_clip::model::TrackSample;
use foot_cycle_clip::model::TrackShapeViolation;
use foot_cycle_clip::model::TrackValues;
use foot_cycle_clip::model::Vec3;
use foot_cycle_clip::operation;
use foot_cycle_clip::plan::ContactTimeWarpControlPointV1;
use foot_cycle_clip::plan::ContactTransformOperationV1;
use foot_cycle_clip::plan::FootCycleMemberPlanV1;
use foot_cycle_clip::preflight_time_warp_clip_v1;
use foot_cycle_clip::rows;
use foot_cycle_clip::targets::Targets;
use foot_cycle_clip::time_warp_clip_v1;
use foot_cycle_clip::time_warp_rows_v1;
use foot_cycle_clip::FootCycleClipResourceV1;
use foot_cycle_clip::FootCycleClipWarpError;
use foot_cycle_clip::FootCycleClipWarpKnotV1;
use foot_cycle_clip::FootCycleClipWarpRowV1;
use foot_cycle_clip::FootCycleCubicSplineRefusalV1;
use foot_cycle_clip::FOOT_CYCLE_CLIP_V1_MAX_CANDIDATE_BYTES;

fn b32(number: f32) -> Binary32 {
    Binary32::from_bits(number.to_bits())
}

fn b64(number: f64) -> Binary64 {
    Binary64::from_bits(number.to_bits())
}

fn splat(number: f32) -> Vec3 {
    Vec3 {
        x: b32(number),
        y: b32(number),
        z: b32(number),
    }
}

fn quat(x: f32, y: f32, z: f32, w: f32) -> Quat {
    Quat {
        x: b32(x),
        y: b32(y),
        z: b32(z),
        w: b32(w),
    }
}

fn map(points: &[(f64, f64)]) -> Vec<ContactTimeWarpControlPointV1> {
    points
        .iter()
        .map(|&(input, output)| ContactTimeWarpControlPointV1::new(b64(input), b64(output)))
        .collect()
}

fn plan(duration: f64, points: &[(f64, f64)]) -> FootCycleMemberPlanV1 {
    FootCycleMemberPlanV1 {
        operation: ContactTransformOperationV1::time_warp(b64(duration), map(points)),
    }
}

fn track(bone: usize, interpolation: Interpolation, times: &[f32]) -> Track {
    let per_key = if interpolation == Interpolation::CubicSpline {
        3
    } else {
        1
    };
    Track {
        bone,
        property: Property::Translation,
        interpolation,
        times: times.iter().map(|&time| b32(time)).collect(),
        values: TrackValues::Vec3s(if per_key == 3 {
            vec![splat(0.0); 3 * times.len()]
        } else {
            (0..times.len()).map(|key| splat(key as f32)).collect()
        }),
    }
}

fn clip(duration: f64, tracks: Vec<Track>) -> Clip {
    Clip {
        name: "stride".into(),
        duration_s: b64(duration),
        tracks,
    }
}

/// Answers every question with a value that names the instant it was asked.
fn named_instant(track: &Track, time: Binary32) -> TrackSample {
    match &track.values {
        TrackValues::Vec3s(_) => TrackSample::Vec3(Vec3 {
            x: time,
            y: time,
            z: time,
        }),
        TrackValues::Quats(_) => TrackSample::Quat(Quat {
            x: time,
            y: time,
            z: time,
            w: time,
        }),
    }
}

fn build(input: &Clip, plan: &FootCycleMemberPlanV1) -> Result<Clip, FootCycleClipWarpError> {
    time_warp_clip_v1(input, plan, &named_instant)
}

fn times(track: &Track) -> Vec<f32> {
    track
        .times
        .iter()
        .map(|time| f32::from_bits(time.bits))
        .collect()
}

fn knot(source_time: f32) -> FootCycleClipWarpKnotV1 {
    FootCycleClipWarpKnotV1 {
        control_point_index: 1,
        source_time: b32(source_time),
        output_time: b32(0.5),
    }
}

#[test]
fn one_instant_is_symmetric_and_one_place_wide() {
    for (a, b, expected) in [
        (0.5, 0.5, true),
        (0.5, 0.5_f32.next_up(), true),
        (0.5, 0.5_f32.next_up().next_up(), false),
        (0.0, -0.0, true),
        (-0.0, 1e-45, true),
        (-1e-45, 1e-45, false),
        (f32::MAX, f32::INFINITY, true),
        (f32::NAN, f32::NAN, false),
    ] {
        assert_eq!(knot(a).coincides_with(b32(b)), expected, "{a:e} {b:e}");
        assert_eq!(knot(b).coincides_with(b32(a)), expected, "{b:e} {a:e}");
    }
}

#[test]
fn rows_name_every_key_and_every_knot_once_and_in_order() {
    let points = map(&[
        (0.0, 0.0),
        (0.1, 0.2),
        (0.25, 0.3),
        (0.6, 0.5),
        (0.9, 0.8),
        (1.0, 1.0),
    ]);
    let track = track(0, Interpolation::Linear, &[0.0, 0.25, 0.5, 1.0]);
    let rows = time_warp_rows_v1(&points, b32(1.0), &track);
    let mut keys = Vec::new();
    let mut knots = Vec::new();
    for row in &rows {
        match row {
            FootCycleClipWarpRowV1::Authored(index) => keys.push(*index),
            FootCycleClipWarpRowV1::Knot(knot) => knots.push(*knot),
            FootCycleClipWarpRowV1::Coalesced(index, knot) => {
                keys.push(*index);
                knots.push(*knot);
            }
        }
    }
    assert_eq!(keys, vec![0, 1, 2, 3]);
    assert_eq!(
        knots,
        rows::time_warp_knots_v1(&points, b32(1.0), &track)
    );
    assert_eq!(
        knots
            .iter()
            .map(|knot| knot.control_point_index())
            .collect::<Vec<_>>(),
        vec![1, 2, 3, 4]
    );
    assert_eq!(rows.len(), 7);
}

#[test]
fn a_knot_outside_the_span_of_a_track_is_not_emitted() {
    let points = map(&[(0.0, 0.0), (0.1, 0.2), (0.5, 0.6), (0.9, 0.95), (1.0, 1.0)]);
    let short = track(0, Interpolation::Linear, &[0.25, 0.75]);
    let knots = rows::time_warp_knots_v1(&points, b32(1.0), &short);
    assert_eq!(knots.len(), 1);
    assert_eq!(knots[0].control_point_index(), 2);
    assert_eq!(knots[0].source_time(), b32(0.5));
    assert_eq!(knots[0].output_time(), b32(0.6));
    let empty = track(0, Interpolation::Linear, &[]);
    assert!(rows::time_warp_knots_v1(&points, b32(1.0), &empty).is_empty());
    assert!(rows::time_warp_knots_v1(&points[..1], b32(1.0), &short).is_empty());
}

#[test]
fn a_valid_map_keeps_the_ends_of_the_clip_and_stays_within_it() {
    let points = map(&[(0.0, 0.0), (1e-9, 0.3), (0.7, 0.3 + 1e-12), (1.0, 1.0)]);
    for duration in [1.0_f32, 1.1, 1e-45, 3e-39, f32::MAX] {
        assert_eq!(
            keys::map_time(b32(0.0), b32(duration), &points),
            b32(0.0)
        );
        assert_eq!(
            keys::map_time(b32(duration), b32(duration), &points),
            b32(duration)
        );
        let negative_zero = keys::map_time(b32(-0.0), b32(duration), &points);
        assert_eq!(f32::from_bits(negative_zero.bits), 0.0);
        for part in [0.1_f32, 0.5, 0.9] {
            let mapped = keys::map_time(b32(part * duration), b32(duration), &points);
            let mapped = f32::from_bits(mapped.bits);
            assert!((0.0..=duration).contains(&mapped), "{part} of {duration:e}");
        }
    }
}

#[test]
fn map_time_interpolates_within_the_segment() {
    let points = map(&[(0.0, 0.0), (0.25, 0.5), (1.0, 1.0)]);
    assert_eq!(keys::map_time(b32(0.125), b32(1.0), &points), b32(0.25));
    assert_eq!(keys::map_time(b32(0.25), b32(1.0), &points), b32(0.5));
    assert_eq!(keys::map_time(b32(1.25), b32(2.0), &points), b32(1.5));
}

#[test]
fn the_phase_of_a_key_resolves_to_the_key() {
    for duration in [1.0_f32, 0.566_666_7, 3.0e38, 1e-40] {
        for part in [0.1_f32, 0.333_333_34, 0.75] {
            let time = part * duration;
            let phase = f64::from(time) / f64::from(duration);
            let points = map(&[(0.0, 0.0), (phase, 0.5), (1.0, 1.0)]);
            let track = track(0, Interpolation::Linear, &[0.0, time, duration]);
            let rows = time_warp_rows_v1(&points, b32(duration), &track);
            assert!(
                matches!(rows[1], FootCycleClipWarpRowV1::Coalesced(1, knot) if knot.source_time() == b32(time)),
                "{time:e} of {duration:e}"
            );
        }
    }
}

#[test]
fn accepted_rows_and_candidate_times_strictly_increase() {
    let points = [
        (0.0, 0.0),
        (0.2, 0.1),
        (0.4, 0.35),
        (0.41, 0.7),
        (0.9, 0.9),
        (1.0, 1.0),
    ];
    let input = clip(
        2.0,
        vec![
            track(0, Interpolation::Linear, &[0.1, 0.4, 0.8, 1.7]),
            track(1, Interpolation::Step, &[0.0, 0.5, 2.0]),
        ],
    );
    let candidate = build(&input, &plan(2.0, &points)).unwrap();
    for (source, out) in input.tracks.iter().zip(&candidate.tracks) {
        let times = times(out);
        assert!(times.windows(2).all(|pair| pair[0] < pair[1]));
        assert!(times.iter().all(|time| (0.0..=2.0).contains(time)));
        assert_eq!(model::validate_track_shape(0, out), Ok(()));
        assert_eq!(source.bone, out.bone);
        assert_eq!(source.property, out.property);
        assert_eq!(source.interpolation, out.interpolation);
    }
    assert_eq!(candidate.tracks[1].values, input.tracks[1].values);
    assert_eq!(times(&candidate.tracks[1])[0], 0.0);
    assert_eq!(times(&candidate.tracks[1])[2], 2.0);
}

#[test]
fn a_key_no_authored_key_is_stores_what_the_sampler_gives() {
    let input = clip(1.0, vec![track(0, Interpolation::Linear, &[0.0, 1.0])]);
    let candidate = build(&input, &plan(1.0, &[(0.0, 0.0), (0.25, 0.5), (1.0, 1.0)])).unwrap();
    assert_eq!(times(&candidate.tracks[0]), vec![0.0, 0.5, 1.0]);
    assert_eq!(
        candidate.tracks[0].values,
        TrackValues::Vec3s(vec![splat(0.0), splat(0.25), splat(1.0)])
    );
    let rotation = Track {
        property: Property::Rotation,
        values: TrackValues::Quats(vec![quat(0.0, 0.0, 0.0, 1.0), quat(0.0, 1.0, 0.0, 0.0)]),
        ..track(0, Interpolation::Linear, &[0.0, 1.0])
    };
    let candidate = build(
        &clip(1.0, vec![rotation]),
        &plan(1.0, &[(0.0, 0.0), (0.25, 0.5), (1.0, 1.0)]),
    )
    .unwrap();
    assert_eq!(
        candidate.tracks[0].values,
        TrackValues::Quats(vec![
            quat(0.0, 0.0, 0.0, 1.0),
            quat(0.25, 0.25, 0.25, 0.25),
            quat(0.0, 1.0, 0.0, 0.0),
        ])
    );
}

#[test]
fn preflight_and_builder_agree_on_counts() {
    let input = clip(
        1.0,
        vec![
            track(0, Interpolation::Linear, &[0.0, 0.25, 1.0]),
            track(1, Interpolation::Step, &[0.5]),
            track(2, Interpolation::CubicSpline, &[0.0, 0.5]),
        ],
    );
    for points in [
        &[(0.0, 0.0), (0.25, 0.3), (0.5, 0.6), (1.0, 1.0)][..],
        &[(0.0, 0.0), (1.0, 1.0)][..],
    ] {
        let plan = plan(1.0, points);
        let counts = preflight_time_warp_clip_v1(&input, &plan).unwrap();
        let candidate = build(&input, &plan).unwrap();
        let keys: usize = candidate.tracks.iter().map(|track| track.times.len()).sum();
        let values: usize = candidate.tracks.iter().map(|track| track.values.len()).sum();
        assert_eq!(counts.tracks(), 3);
        assert_eq!(counts.input_keys(), 6);
        assert_eq!(counts.input_values(), 10);
        assert_eq!(counts.candidate_keys(), keys);
        assert_eq!(counts.candidate_values(), values);
        assert_eq!(counts.name_bytes(), candidate.name.len());
        assert_eq!(
            counts.candidate_bytes(),
            candidate.name.len()
                + 3 * std::mem::size_of::<Track>()
                + keys * std::mem::size_of::<f32>()
                + values * std::mem::size_of::<Vec3>()
        );
        assert!(counts.candidate_bytes() <= FOOT_CYCLE_CLIP_V1_MAX_CANDIDATE_BYTES);
        let probes = if points.len() == 2 { 0 } else { points.len() };
        assert_eq!(counts.work(), 6 + probes + keys);
        assert_eq!(candidate.duration_s, input.duration_s);
        assert_eq!(candidate.tracks[2], input.tracks[2]);
    }
}

#[test]
fn payload_sizes_are_those_of_the_stored_types() {
    assert_eq!(error::TRACK_ROW_BYTES, std::mem::size_of::<Track>());
    assert_eq!(error::KEY_TIME_BYTES, std::mem::size_of::<f32>());
    assert_eq!(error::KEY_TIME_BYTES, std::mem::size_of::<Binary32>());
    assert_eq!(error::VEC3_BYTES, std::mem::size_of::<glam::Vec3>());
    assert_eq!(error::VEC3_BYTES, std::mem::size_of::<Vec3>());
    assert_eq!(error::QUAT_BYTES, std::mem::size_of::<glam::Quat>());
    assert_eq!(error::QUAT_BYTES, std::mem::size_of::<Quat>());
    assert_eq!(
        FOOT_CYCLE_CLIP_V1_MAX_CANDIDATE_BYTES,
        65_536 + 4_096 * std::mem::size_of::<Track>() + 1_048_576 * 4 + 3 * 1_048_576 * 16
    );
}

#[test]
fn a_spline_is_kept_exactly_when_it_is_constant() {
    let constant = track(0, Interpolation::CubicSpline, &[0.0, 1.0]);
    assert_eq!(cubic::validate_cubic(&constant, 4), Ok(()));
    let with = |index: usize, value: Vec3| {
        let mut other = constant.clone();
        if let TrackValues::Vec3s(values) = &mut other.values {
            values[index] = value;
        }
        cubic::validate_cubic(&other, 4)
    };
    let refused = |reason| {
        Err(FootCycleClipWarpError::UnsupportedCubicSpline {
            track_index: 4,
            reason,
        })
    };
    // A negative zero is a zero tangent, but not the same value.
    assert_eq!(with(5, splat(-0.0)), Ok(()));
    assert_eq!(
        with(4, splat(-0.0)),
        refused(FootCycleCubicSplineRefusalV1::DifferingValues)
    );
    assert_eq!(
        with(3, splat(1e-45)),
        refused(FootCycleCubicSplineRefusalV1::NonZeroTangent)
    );
}

#[test]
fn an_accepted_map_is_exactly_a_valid_one() {
    assert_eq!(
        operation::validate_map(&map(&[(0.0, 0.0), (0.5, 0.4), (1.0, 1.0)])),
        Ok(())
    );
    assert_eq!(
        operation::validate_map(&map(&[(-0.0, 0.0), (1.0, 1.0)])),
        Ok(())
    );
    assert_eq!(
        operation::validate_map(&[]),
        Err(FootCycleClipWarpError::InvalidControlPointCount {
            found: 0,
            maximum: 4_096
        })
    );
    assert_eq!(
        operation::validate_map(&map(&[(0.0, 0.0), (f64::INFINITY, 0.5), (1.0, 1.0)])),
        Err(FootCycleClipWarpError::InvalidControlPoint { index: 1 })
    );
    assert_eq!(
        operation::validate_map(&map(&[(0.0, 0.1), (1.0, 1.0)])),
        Err(FootCycleClipWarpError::InvalidMapEndpoints)
    );
    assert_eq!(
        operation::validate_map(&map(&[(0.0, 0.0), (0.5, 0.5), (0.5, 0.6), (1.0, 1.0)])),
        Err(FootCycleClipWarpError::NonMonotoneMap { index: 2 })
    );
}

#[test]
fn refusals_come_in_order_and_name_their_track() {
    let identity = plan(1.0, &[(0.0, 0.0), (1.0, 1.0)]);
    let out_of_range = Track {
        times: vec![b32(-1.0), b32(0.5)],
        ..track(3, Interpolation::Step, &[0.0, 0.5])
    };
    assert_eq!(
        build(&clip(1.0, vec![out_of_range.clone()]), &identity),
        Err(FootCycleClipWarpError::TrackTimeOutOfRange {
            track_index: 0,
            key_index: 0,
            time_s: b32(-1.0),
            duration_s: b32(1.0),
        })
    );
    // A taken target is refused before what the track holds.
    assert_eq!(
        build(
            &clip(1.0, vec![track(3, Interpolation::Step, &[0.0]), out_of_range]),
            &identity
        ),
        Err(FootCycleClipWarpError::DuplicateTrackTarget {
            track_index: 1,
            bone: 3,
            property: Property::Translation,
        })
    );
    let unfit = Track {
        property: Property::Rotation,
        values: TrackValues::Quats(vec![quat(0.0, 0.0, 0.0, 1.0), quat(0.0, 0.0, 1e-30, 0.0)]),
        ..track(3, Interpolation::Step, &[0.0, 0.5])
    };
    assert_eq!(
        build(&clip(1.0, vec![unfit]), &identity),
        Err(FootCycleClipWarpError::InvalidQuaternionKey {
            track_index: 0,
            key_index: 1,
        })
    );
    let huge = Track {
        property: Property::Rotation,
        values: TrackValues::Quats(vec![quat(3e38, 0.0, 0.0, 0.0)]),
        ..track(3, Interpolation::Step, &[0.0])
    };
    assert_eq!(
        preflight_time_warp_clip_v1(&clip(1.0, vec![huge]), &identity),
        Err(FootCycleClipWarpError::InvalidQuaternionKey {
            track_index: 0,
            key_index: 0,
        })
    );
    let subnormal = f64::from_bits(1);
    assert_eq!(
        build(&clip(subnormal, vec![]), &plan(subnormal, &[])),
        Err(FootCycleClipWarpError::InvalidClipDuration {
            duration_s: b64(subnormal)
        })
    );
    assert_eq!(
        model::validate_track_shape(5, &track(2, Interpolation::Linear, &[0.5, 0.25])),
        Err(DocumentShapeError::TrackShape {
            clip_index: 5,
            node: 2,
            violation: TrackShapeViolation::TimesNotStrictlyIncreasing,
        })
    );
}

#[test]
fn a_clip_without_tracks_is_accepted() {
    let input = clip(0.5, vec![]);
    let plan = plan(0.5, &[(0.0, 0.0), (0.5, 0.25), (1.0, 1.0)]);
    assert_eq!(build(&input, &plan), Ok(input.clone()));
    let counts = preflight_time_warp_clip_v1(&input, &plan).unwrap();
    assert_eq!(counts.candidate_keys(), 0);
    assert_eq!(counts.candidate_bytes(), 6);
    assert_eq!(counts.work(), 0);
}

#[test]
fn targets_are_free_until_claimed() {
    let mut targets = Targets::new();
    assert!(targets.claim(1, Property::Translation));
    assert!(targets.claim(1, Property::Rotation));
    assert!(targets.claim(1, Property::Scale));
    assert!(targets.claim(2, Property::Scale));
    assert!(!targets.claim(1, Property::Rotation));
}

#[test]
fn limits_and_sums_hold_at_their_edges() {
    let resource = FootCycleClipResourceV1::Work;
    assert_eq!(error::checked_add(resource, 2, 3), Ok(5));
    assert_eq!(
        error::checked_add(resource, usize::MAX - 1, 1),
        Ok(usize::MAX)
    );
    assert_eq!(error::check_limit(resource, 0, 0), Ok(()));
    assert_eq!(
        error::check_limit(resource, 1, 0),
        Err(FootCycleClipWarpError::LimitExceeded {
            resource,
            observed: 1,
            maximum: 0,
        })
    );
}

#[test]
fn widening_and_narrowing_keep_order() {
    let singles = [0.0_f32, 1e-45, 1e-38, 0.1, 0.5, 1.0, 1.0_f32.next_up(), f32::MAX];
    for pair in singles.windows(2) {
        let (a, b) = (b32(pair[0]).widen(), b32(pair[1]).widen());
        assert!(a.less_than(b));
        let between = a.plus(b).times(b64(0.5));
        assert!(a.narrow().at_most(between.narrow()));
        assert!(between.narrow().at_most(b.narrow()));
    }
}

#[test]
fn knots_come_in_source_order_within_the_clip_and_apart() {
    let points = [
        (0.0, 0.0),
        (0.1, 0.05),
        (0.2, 0.4),
        (0.65, 0.5),
        (0.7, 0.9),
        (1.0, 1.0),
    ];
    let linear = track(0, Interpolation::Linear, &[0.2, 1.9]);
    let knots = rows::time_warp_knots_v1(&map(&points), b32(2.0), &linear);
    assert_eq!(knots.len(), 4);
    for pair in knots.windows(2) {
        assert!(pair[0].source_time().less_than(pair[1].source_time()));
        assert!(pair[0].output_time().less_than(pair[1].output_time()));
        assert!(!pair[1].coincides_with(pair[0].source_time()));
    }
    for knot in &knots {
        assert!(b32(0.0).at_most(knot.source_time()) && knot.source_time().at_most(b32(2.0)));
        assert!(b32(0.0).at_most(knot.output_time()) && knot.output_time().at_most(b32(2.0)));
    }
    assert!(preflight_time_warp_clip_v1(&clip(2.0, vec![linear]), &plan(2.0, &points)).is_ok());
}

#[test]
fn sampled_keys_lie_between_the_first_and_the_last_key() {
    let linear = track(0, Interpolation::Linear, &[0.25, 0.75]);
    let points = [
        (0.0, 0.0),
        (0.1, 0.2),
        (0.4, 0.5),
        (0.6, 0.65),
        (0.9, 0.8),
        (1.0, 1.0),
    ];
    let candidate = build(&clip(1.0, vec![linear]), &plan(1.0, &points)).unwrap();
    assert_eq!(
        candidate.tracks[0].values,
        TrackValues::Vec3s(vec![splat(0.0), splat(0.4), splat(0.6), splat(1.0)])
    );
}

#[test]
fn building_twice_gives_one_candidate() {
    let input = clip(1.0, vec![track(0, Interpolation::Linear, &[0.0, 0.3, 1.0])]);
    let plan = plan(1.0, &[(0.0, 0.0), (0.3, 0.2), (0.6, 0.7), (1.0, 1.0)]);
    assert_eq!(build(&input, &plan), build(&input, &plan));
}

#[test]
fn a_sound_track_stores_at_most_three_values_per_key() {
    for interpolation in [
        Interpolation::Linear,
        Interpolation::Step,
        Interpolation::CubicSpline,
    ] {
        let sound = track(0, interpolation, &[0.0, 0.5, 1.0]);
        assert_eq!(model::validate_track_shape(0, &sound), Ok(()));
        assert!(sound.values.len() <= 3 * sound.times.len());
    }
}

#[test]
fn the_row_walk_stays_at_its_end() {
    let below = 0.4_f32.next_down();
    let above = 0.4_f32.next_up();
    let points = map(&[
        (0.0, 0.0),
        (f64::from(below), 0.2),
        (f64::from(above), 0.5),
        (1.0, 1.0),
    ]);
    let track = track(0, Interpolation::Linear, &[0.0, 0.4, 0.6, 1.0]);
    let first = FootCycleClipWarpKnotV1 {
        control_point_index: 1,
        source_time: b32(below),
        output_time: b32(0.2),
    };
    let second = FootCycleClipWarpKnotV1 {
        control_point_index: 2,
        source_time: b32(above),
        output_time: b32(0.5),
    };
    let mut walk = rows::WarpRows::new(&points, b32(1.0), &track);
    for expected in [
        Some(FootCycleClipWarpRowV1::Authored(0)),
        Some(FootCycleClipWarpRowV1::Coalesced(1, first)),
        Some(FootCycleClipWarpRowV1::Knot(second)),
        Some(FootCycleClipWarpRowV1::Authored(2)),
        Some(FootCycleClipWarpRowV1::Authored(3)),
        None,
        None,
        None,
    ] {
        assert_eq!(walk.next(), expected);
    }
    let mut keys = keys::WarpKeys::new(&track, 6, &points, b32(1.0));
    assert!(matches!(keys.next(), Ok(Some(_))));
    assert!(matches!(keys.next(), Ok(Some(_))));
    assert_eq!(
        keys.next(),
        Err(FootCycleClipWarpError::SourceTimeCollision { track_index: 6 })
    );
}

#[test]
fn keys_before_a_colliding_one_are_handed_out() {
    let points = map(&[(0.0, 0.0), (0.25, 0.5), (0.5, 0.500_000_001), (1.0, 1.0)]);
    let step = track(7, Interpolation::Step, &[0.0, 0.25, 0.5, 1.0]);
    let mut walk = keys::WarpKeys::new(&step, 0, &points, b32(1.0));
    for (output_time, index) in [(0.0, 0), (0.5, 1)] {
        assert_eq!(
            walk.next(),
            Ok(Some(keys::CandidateKey {
                output_time: b32(output_time),
                value: keys::CandidateValue::Authored(index),
            }))
        );
    }
    assert_eq!(
        walk.next(),
        Err(FootCycleClipWarpError::TimeCollision { track_index: 0 })
    );
    let short = track(7, Interpolation::Step, &[0.25]);
    let mut walk = keys::WarpKeys::new(&short, 0, &points, b32(1.0));
    assert!(matches!(walk.next(), Ok(Some(_))));
    assert_eq!(walk.next(), Ok(None));
    assert_eq!(walk.next(), Ok(None));
}

#[test]
fn a_candidate_is_admissible_input() {
    let input = clip(
        1.5,
        vec![
            track(0, Interpolation::Linear, &[0.0, 0.3, 1.5]),
            track(1, Interpolation::Step, &[0.5, 0.75]),
            track(2, Interpolation::CubicSpline, &[0.0, 1.0]),
        ],
    );
    let warp = plan(1.5, &[(0.0, 0.0), (0.3, 0.2), (0.6, 0.8), (1.0, 1.0)]);
    let identity = plan(1.5, &[(0.0, 0.0), (1.0, 1.0)]);
    let candidate = build(&input, &warp).unwrap();
    assert_eq!(build(&candidate, &identity), Ok(candidate.clone()));
    let planned = preflight_time_warp_clip_v1(&input, &warp).unwrap();
    let read = preflight_time_warp_clip_v1(&candidate, &identity).unwrap();
    assert_eq!(read.input_keys(), planned.candidate_keys());
    assert_eq!(read.input_values(), planned.candidate_values());
    assert_eq!(read.candidate_bytes(), planned.candidate_bytes());
    assert_eq!(read.work(), 2 * planned.candidate_keys());
}

#[test]
fn renaming_bones_renames_the_candidate_and_the_refusal() {
    let rename = |clip: &Clip| {
        let mut other = clip.clone();
        for track in &mut other.tracks {
            track.bone = usize::MAX - track.bone;
        }
        other
    };
    let warp = plan(1.0, &[(0.0, 0.0), (0.25, 0.5), (1.0, 1.0)]);
    let input = clip(
        1.0,
        vec![
            track(0, Interpolation::Linear, &[0.0, 1.0]),
            track(1, Interpolation::Step, &[0.5]),
        ],
    );
    let candidate = build(&input, &warp).unwrap();
    assert_eq!(build(&rename(&input), &warp), Ok(rename(&candidate)));
    assert_eq!(
        preflight_time_warp_clip_v1(&rename(&input), &warp),
        preflight_time_warp_clip_v1(&input, &warp)
    );
    let twice = clip(
        1.0,
        vec![
            track(3, Interpolation::Step, &[0.0]),
            track(3, Interpolation::Step, &[0.5]),
        ],
    );
    for (clip, bone) in [(rename(&twice), usize::MAX - 3), (twice, 3)] {
        assert_eq!(
            build(&clip, &warp),
            Err(FootCycleClipWarpError::DuplicateTrackTarget {
                track_index: 1,
                bone,
                property: Property::Translation,
            })
        );
    }
}

#[test]
fn equal_operations_and_any_capacity_give_one_result() {
    let points = [(0.0, 0.0), (0.25, 0.5), (1.0, 1.0)];
    let input = clip(1.0, vec![track(0, Interpolation::Linear, &[0.0, 1.0])]);
    assert_eq!(
        build(&input, &plan(1.0, &points)),
        build(&input, &plan(1.0, &points))
    );
    let warped = |capacity: usize| {
        foot_cycle_clip::candidate::warp_track(
            &input.tracks[0],
            0,
            &map(&points),
            b32(1.0),
            capacity,
            &named_instant,
        )
    };
    assert_eq!(warped(0), warped(100));
    assert_eq!(warped(0).unwrap().times.len(), 3);
}

#[test]
fn payload_sizes_hold_for_the_stored_types() {
    assert!(foot_cycle_clip::preflight::payload_sizes_hold());
}

#[test]
fn a_map_is_exact_at_its_rows() {
    let points = map(&[(0.0, 0.0), (0.25, 0.1), (0.75, 0.3), (1.0, 1.0)]);
    for (time, output) in [(0.0_f32, 0.0_f64), (0.375, 0.1), (1.125, 0.3), (1.5, 1.0)] {
        assert_eq!(
            keys::map_time(b32(time), b32(1.5), &points),
            b32((output * 1.5) as f32)
        );
    }
}

#[test]
fn later_tracks_do_not_change_a_refusal() {
    let identity = plan(1.0, &[(0.0, 0.0), (1.0, 1.0)]);
    let refused = track(1, Interpolation::Step, &[0.5, 1.5]);
    let expected = Err(FootCycleClipWarpError::TrackTimeOutOfRange {
        track_index: 1,
        key_index: 1,
        time_s: b32(1.5),
        duration_s: b32(1.0),
    });
    let sound = track(0, Interpolation::Step, &[0.5]);
    for rest in [
        vec![],
        vec![track(2, Interpolation::Linear, &[])],
        vec![sound.clone(), sound.clone()],
    ] {
        let mut tracks = vec![sound.clone(), refused.clone()];
        tracks.extend(rest);
        assert_eq!(build(&clip(1.0, tracks), &identity), expected);
    }
}

#[test]
fn a_candidate_value_is_the_stored_one_or_what_the_sampler_gives() {
    let key = |value| keys::CandidateKey {
        output_time: b32(0.5),
        value,
    };
    for interpolation in [Interpolation::Linear, Interpolation::Step] {
        let track = track(0, interpolation, &[0.25, 0.75]);
        assert_eq!(
            foot_cycle_clip::candidate::candidate_value(
                &track,
                key(keys::CandidateValue::Authored(1)),
                &named_instant
            ),
            TrackSample::Vec3(splat(1.0))
        );
        for time in [0.25_f32, 0.5, 0.75] {
            assert_eq!(
                foot_cycle_clip::candidate::candidate_value(
                    &track,
                    key(keys::CandidateValue::Sampled(b32(time))),
                    &named_instant
                ),
                TrackSample::Vec3(splat(time))
            );
        }
    }
    let rotation = Track {
        property: Property::Rotation,
        values: TrackValues::Quats(vec![quat(0.0, 0.0, 0.5, 0.5)]),
        ..track(0, Interpolation::Step, &[0.25])
    };
    assert_eq!(
        foot_cycle_clip::candidate::candidate_value(
            &rotation,
            key(keys::CandidateValue::Authored(0)),
            &named_instant
        ),
        TrackSample::Quat(quat(0.0, 0.0, 0.5, 0.5))
    );
}

#[test]
fn a_track_with_keys_outside_the_clip_warps_alike_for_any_capacity() {
    let outside = track(0, Interpolation::Linear, &[0.0, 0.5, 2.0]);
    let points = map(&[(0.0, 0.0), (0.25, 0.5), (1.0, 1.0)]);
    let warped = |capacity: usize| {
        foot_cycle_clip::candidate::warp_track(
            &outside,
            0,
            &points,
            b32(1.0),
            capacity,
            &named_instant,
        )
    };
    assert_eq!(warped(0), warped(9));
    assert_eq!(times(&warped(0).unwrap()).len(), 4);
}
