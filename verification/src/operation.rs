//! Validation of a time-warp operation against a clip duration.

use crate::binary64::Binary64;
use crate::error::FootCycleClipWarpError;
use crate::plan::ContactTimeWarpControlPointV1;
use crate::plan::ContactTransformOperationV1;
use crate::plan::CONTACT_TRANSFORM_RESULT_V1_MAX_CONTROL_POINTS;
use crate::plan::ONE_64;
use vstd::prelude::*;

verus! {

/// Whether a duration is finite and positive, in binary64 and in binary32.
pub open spec fn valid_duration(duration_s: Binary64) -> bool {
    &&& duration_s.finite() && duration_s.place() > 0
    &&& duration_s.narrowed().finite() && duration_s.narrowed().place() > 0
}

/// Whether a map starts at `(0, 0)` and ends at `(1, 1)`.
pub open spec fn exact_endpoints(points: Seq<ContactTimeWarpControlPointV1>) -> bool {
    &&& points.len() > 0
    &&& points[0].input.place() == 0 && points[0].output.place() == 0
    &&& points.last().input.place() == ONE_64 && points.last().output.place() == ONE_64
}

/// Whether row `i` lies strictly after the row before it in both coordinates.
pub open spec fn rises_at(points: Seq<ContactTimeWarpControlPointV1>, i: int) -> bool {
    &&& points[i - 1].input.lt_number(points[i].input)
    &&& points[i - 1].output.lt_number(points[i].output)
}

/// The first row from `i` on that is not finite and normalized.
pub open spec fn first_unnormalized(points: Seq<ContactTimeWarpControlPointV1>, i: int) -> Option<
    int,
>
    decreases points.len() - i,
{
    if i >= points.len() {
        None
    } else if !points[i].normalized() {
        Some(i)
    } else {
        first_unnormalized(points, i + 1)
    }
}

/// The first row from `i` on that does not rise.
pub open spec fn first_fall(points: Seq<ContactTimeWarpControlPointV1>, i: int) -> Option<int>
    decreases points.len() - i,
{
    if i >= points.len() {
        None
    } else if !rises_at(points, i) {
        Some(i)
    } else {
        first_fall(points, i + 1)
    }
}

/// What is wrong with the rows of a map, if anything is.
pub open spec fn map_refusal(points: Seq<ContactTimeWarpControlPointV1>) -> Option<
    FootCycleClipWarpError,
> {
    if !(2 <= points.len() <= CONTACT_TRANSFORM_RESULT_V1_MAX_CONTROL_POINTS) {
        Some(
            FootCycleClipWarpError::InvalidControlPointCount {
                found: points.len() as usize,
                maximum: CONTACT_TRANSFORM_RESULT_V1_MAX_CONTROL_POINTS,
            },
        )
    } else if let Some(index) = first_unnormalized(points, 0) {
        Some(FootCycleClipWarpError::InvalidControlPoint { index: index as usize })
    } else if !exact_endpoints(points) {
        Some(FootCycleClipWarpError::InvalidMapEndpoints)
    } else if let Some(index) = first_fall(points, 1) {
        Some(FootCycleClipWarpError::NonMonotoneMap { index: index as usize })
    } else {
        None
    }
}

/// Why an operation cannot be applied to a clip of this duration, if it cannot.
pub open spec fn operation_refusal(
    duration_s: Binary64,
    operation: ContactTransformOperationV1,
) -> Option<FootCycleClipWarpError> {
    if !valid_duration(duration_s) {
        Some(FootCycleClipWarpError::InvalidClipDuration { duration_s })
    } else {
        match operation {
            ContactTransformOperationV1::Trim { .. } => Some(
                FootCycleClipWarpError::UnsupportedOperation,
            ),
            ContactTransformOperationV1::TimeWarp { version, output_duration_s, control_points } =>
            if version != 1 {
                Some(FootCycleClipWarpError::UnsupportedVersion { version })
            } else if !output_duration_s.eq_number(duration_s) {
                Some(
                    FootCycleClipWarpError::DurationMismatch {
                        clip_duration_s: duration_s,
                        operation_duration_s: output_duration_s,
                    },
                )
            } else {
                map_refusal(control_points@)
            },
        }
    }
}

/// A map whose rows are normalized, rise strictly, and start and end exactly.
pub open spec fn valid_map(points: Seq<ContactTimeWarpControlPointV1>) -> bool {
    &&& 2 <= points.len() <= CONTACT_TRANSFORM_RESULT_V1_MAX_CONTROL_POINTS
    &&& forall|i: int| 0 <= i < points.len() ==> (#[trigger] points[i]).normalized()
    &&& exact_endpoints(points)
    &&& forall|i: int, j: int|
        0 <= i < j < points.len() ==> (#[trigger] points[i]).input.place() < (
        #[trigger] points[j]).input.place() && points[i].output.place() < points[j].output.place()
}

proof fn lemma_normalized_rows(points: Seq<ContactTimeWarpControlPointV1>, i: int)
    requires
        0 <= i,
        first_unnormalized(points, i) is None,
    ensures
        forall|j: int| i <= j < points.len() ==> (#[trigger] points[j]).normalized(),
    decreases points.len() - i,
{
    if i < points.len() {
        lemma_normalized_rows(points, i + 1);
    }
}

proof fn lemma_rising_rows(points: Seq<ContactTimeWarpControlPointV1>, i: int)
    requires
        1 <= i,
        first_fall(points, i) is None,
    ensures
        forall|j: int| i <= j < points.len() ==> rises_at(points, j),
    decreases points.len() - i,
{
    if i < points.len() {
        lemma_rising_rows(points, i + 1);
    }
}

proof fn lemma_rises_between(points: Seq<ContactTimeWarpControlPointV1>, i: int, j: int)
    requires
        0 <= i < j < points.len(),
        forall|k: int| 1 <= k < points.len() ==> rises_at(points, k),
    ensures
        points[i].input.place() < points[j].input.place(),
        points[i].output.place() < points[j].output.place(),
    decreases j - i,
{
    assert(rises_at(points, j));
    if i < j - 1 {
        lemma_rises_between(points, i, j - 1);
    }
}

/// Rows that are not refused make a valid map.
pub proof fn lemma_accepted_map_is_valid(points: Seq<ContactTimeWarpControlPointV1>)
    requires
        map_refusal(points) is None,
    ensures
        valid_map(points),
{
    lemma_normalized_rows(points, 0);
    lemma_rising_rows(points, 1);
    assert forall|i: int, j: int| 0 <= i < j < points.len() implies (
    #[trigger] points[i]).input.place() < (#[trigger] points[j]).input.place()
        && points[i].output.place() < points[j].output.place() by {
        lemma_rises_between(points, i, j);
    }
}

proof fn lemma_valid_rows(points: Seq<ContactTimeWarpControlPointV1>, i: int)
    requires
        valid_map(points),
        0 <= i,
    ensures
        first_unnormalized(points, i) is None,
        i >= 1 ==> first_fall(points, i) is None,
    decreases points.len() - i,
{
    if i < points.len() {
        lemma_valid_rows(points, i + 1);
        assert(points[i].normalized());
        if i >= 1 {
            assert(points[i - 1].normalized());
            assert(points[i - 1].input.place() < points[i].input.place());
        }
    }
}

/// The rows that are accepted are exactly the valid maps: two or more rows
/// within the bound, all normalized, strictly increasing in both coordinates,
/// from `(0, 0)` to `(1, 1)`.
pub proof fn law_accepted_maps_are_the_valid_ones(points: Seq<ContactTimeWarpControlPointV1>)
    ensures
        map_refusal(points) is None <==> valid_map(points),
{
    if map_refusal(points) is None {
        lemma_accepted_map_is_valid(points);
    }
    if valid_map(points) {
        lemma_valid_rows(points, 0);
        lemma_valid_rows(points, 1);
    }
}

/// Holds the rows of a map against the closed V1 contract.
pub fn validate_map(control_points: &[ContactTimeWarpControlPointV1]) -> (r: Result<
    (),
    FootCycleClipWarpError,
>)
    ensures
        r == match map_refusal(control_points@) {
            Some(error) => Err(error),
            None => Ok(()),
        },
{
    let count: usize = control_points.len();
    if count < 2 || count > CONTACT_TRANSFORM_RESULT_V1_MAX_CONTROL_POINTS {
        return Err(
            FootCycleClipWarpError::InvalidControlPointCount {
                found: count,
                maximum: CONTACT_TRANSFORM_RESULT_V1_MAX_CONTROL_POINTS,
            },
        );
    }
    let zero: Binary64 = Binary64 { bits: 0 };
    let one: Binary64 = Binary64 { bits: ONE_64 };
    for index in 0..count
        invariant
            count == control_points@.len(),
            2 <= count <= CONTACT_TRANSFORM_RESULT_V1_MAX_CONTROL_POINTS,
            zero.bits == 0,
            one.bits == ONE_64,
            first_unnormalized(control_points@, 0) == first_unnormalized(
                control_points@,
                index as int,
            ),
    {
        let point: ContactTimeWarpControlPointV1 = control_points[index];
        if !point.input_time().is_finite() || !point.output_time().is_finite() || !zero.at_most(
            point.input_time(),
        ) || !point.input_time().at_most(one) || !zero.at_most(point.output_time())
            || !point.output_time().at_most(one) {
            return Err(FootCycleClipWarpError::InvalidControlPoint { index });
        }
    }
    proof {
        lemma_normalized_rows(control_points@, 0);
    }
    let first: ContactTimeWarpControlPointV1 = control_points[0];
    let last: ContactTimeWarpControlPointV1 = control_points[count - 1];
    if !first.input_time().equals(zero) || !first.output_time().equals(zero)
        || !last.input_time().equals(one) || !last.output_time().equals(one) {
        return Err(FootCycleClipWarpError::InvalidMapEndpoints);
    }
    for index in 1..count
        invariant
            count == control_points@.len(),
            2 <= count <= CONTACT_TRANSFORM_RESULT_V1_MAX_CONTROL_POINTS,
            first_unnormalized(control_points@, 0) is None,
            exact_endpoints(control_points@),
            first_fall(control_points@, 1) == first_fall(control_points@, index as int),
    {
        let before: ContactTimeWarpControlPointV1 = control_points[index - 1];
        let after: ContactTimeWarpControlPointV1 = control_points[index];
        if !before.input_time().less_than(after.input_time()) || !before.output_time().less_than(
            after.output_time(),
        ) {
            return Err(FootCycleClipWarpError::NonMonotoneMap { index });
        }
    }
    Ok(())
}

/// Holds an operation against the closed V1 contract and a clip duration, and
/// hands out its output duration and its map.
pub fn validate_operation<'a>(
    duration_s: Binary64,
    operation: &'a ContactTransformOperationV1,
) -> (r: Result<(Binary64, &'a [ContactTimeWarpControlPointV1]), FootCycleClipWarpError>)
    ensures
        match operation_refusal(duration_s, *operation) {
            Some(error) => r == Err::<
                (Binary64, &'a [ContactTimeWarpControlPointV1]),
                FootCycleClipWarpError,
            >(error),
            None => match (r, *operation) {
                (
                    Ok((duration, points)),
                    ContactTransformOperationV1::TimeWarp { output_duration_s, control_points, .. },
                ) => duration == output_duration_s && points@ == control_points@,
                _ => false,
            },
        },
{
    let zero: Binary64 = Binary64 { bits: 0 };
    let narrowed: crate::binary32::Binary32 = duration_s.narrow();
    if !duration_s.is_finite() || duration_s.at_most(zero) || !narrowed.is_finite()
        || narrowed.at_most(crate::binary32::Binary32 { bits: 0 }) {
        return Err(FootCycleClipWarpError::InvalidClipDuration { duration_s });
    }
    match operation {
        ContactTransformOperationV1::Trim { .. } => Err(
            FootCycleClipWarpError::UnsupportedOperation,
        ),
        ContactTransformOperationV1::TimeWarp { version, output_duration_s, control_points } => {
            if *version != 1 {
                return Err(FootCycleClipWarpError::UnsupportedVersion { version: *version });
            }
            if !output_duration_s.equals(duration_s) {
                return Err(
                    FootCycleClipWarpError::DurationMismatch {
                        clip_duration_s: duration_s,
                        operation_duration_s: *output_duration_s,
                    },
                );
            }
            match validate_map(control_points.as_slice()) {
                Err(error) => Err(error),
                Ok(()) => Ok((*output_duration_s, control_points.as_slice())),
            }
        },
    }
}

} // verus!
