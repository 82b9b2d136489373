//! Refusals and fixed limits of the candidate operation.

use crate::binary32::Binary32;
use crate::binary64::Binary64;
use crate::model::DocumentShapeError;
use crate::model::Property;
use vstd::prelude::*;

verus! {

/// Maximum tracks accepted by one V1 candidate operation.
pub const FOOT_CYCLE_CLIP_V1_MAX_TRACKS: usize = 4_096;

/// Maximum aggregate authored keyframes accepted by one V1 candidate.
pub const FOOT_CYCLE_CLIP_V1_MAX_INPUT_KEYS: usize = 1_048_576;

/// Maximum aggregate authored stored values, including cubic tangents: three
/// per input key. A structurally valid track cannot exceed it without first
/// exceeding the input-key bound.
pub const FOOT_CYCLE_CLIP_V1_MAX_INPUT_VALUES: usize = 3 * FOOT_CYCLE_CLIP_V1_MAX_INPUT_KEYS;

/// Maximum aggregate keyframes in one V1 candidate.
pub const FOOT_CYCLE_CLIP_V1_MAX_GENERATED_KEYS: usize = 1_048_576;

/// Maximum aggregate bounded inspection work before candidate allocation.
///
/// Work counts every authored key, every map-knot probe for a linear track,
/// and every planned candidate key.
pub const FOOT_CYCLE_CLIP_V1_MAX_WORK: usize = 8_388_608;

/// Maximum UTF-8 bytes retained for a V1 candidate clip name.
pub const FOOT_CYCLE_CLIP_V1_MAX_NAME_BYTES: usize = 65_536;

/// Payload bytes of one track row: a `Track` takes nine words.
pub const TRACK_ROW_BYTES: usize = 9 * (usize::BITS as usize / 8);

/// Payload bytes of one key time.
pub const KEY_TIME_BYTES: usize = 4;

/// Payload bytes of one stored vector.
pub const VEC3_BYTES: usize = 12;

/// Payload bytes of one stored quaternion.
pub const QUAT_BYTES: usize = 16;

/// Maximum exact V1 candidate storage payload bytes.
///
/// This is the derived ceiling for retained clip names, track rows, output key
/// times, and output values. It is not an independent admission limit: the
/// name, track, generated-key, and input-value caps already bound every term.
pub const FOOT_CYCLE_CLIP_V1_MAX_CANDIDATE_BYTES: usize = FOOT_CYCLE_CLIP_V1_MAX_NAME_BYTES
    + FOOT_CYCLE_CLIP_V1_MAX_TRACKS * TRACK_ROW_BYTES + FOOT_CYCLE_CLIP_V1_MAX_GENERATED_KEYS
    * KEY_TIME_BYTES + FOOT_CYCLE_CLIP_V1_MAX_INPUT_VALUES * QUAT_BYTES;

/// One bounded resource owned by the V1 clip candidate operation.
#[derive(Debug, Clone, Copy, PartialEq, Eq, Structural)]
#[non_exhaustive]
pub enum FootCycleClipResourceV1 {
    /// Tracks inspected.
    Tracks,
    /// Authored keyframes inspected.
    InputKeys,
    /// Authored stored values inspected.
    InputValues,
    /// Candidate keyframes planned.
    GeneratedKeys,
    /// Aggregate bounded row work planned.
    Work,
    /// UTF-8 bytes retained for the candidate clip name.
    NameBytes,
}

/// Why a cubic-spline track cannot be represented by a time warp.
#[derive(Debug, Clone, Copy, PartialEq, Eq, Structural)]
#[non_exhaustive]
pub enum FootCycleCubicSplineRefusalV1 {
    /// Multi-key stored values differ exactly.
    DifferingValues,
    /// At least one stored input or output tangent is not exactly zero.
    NonZeroTangent,
}

/// A clip could not be represented as a deterministic V1 time-warp candidate.
#[derive(Debug, Clone, Copy, PartialEq, Eq, Structural)]
#[non_exhaustive]
#[allow(inconsistent_fields)]
pub enum FootCycleClipWarpError {
    /// The member plan did not carry a time-warp operation.
    UnsupportedOperation,
    /// The time-warp version is not V1.
    UnsupportedVersion {
        /// Declared version.
        version: u32,
    },
    /// The clip duration does not narrow to a finite positive binary32 duration.
    InvalidClipDuration {
        /// Declared clip duration.
        duration_s: Binary64,
    },
    /// The time-warp output duration differs exactly from the clip duration.
    DurationMismatch {
        /// Clip duration.
        clip_duration_s: Binary64,
        /// Operation output duration.
        operation_duration_s: Binary64,
    },
    /// The control-point count is outside the closed V1 bound.
    InvalidControlPointCount {
        /// Observed count.
        found: usize,
        /// Maximum count.
        maximum: usize,
    },
    /// One normalized control point is non-finite or outside `[0, 1]`.
    InvalidControlPoint {
        /// Zero-based control-point index.
        index: usize,
    },
    /// The map does not contain the exact normalized endpoints.
    InvalidMapEndpoints,
    /// The source or output coordinates are not strictly increasing.
    NonMonotoneMap {
        /// Index of the second point in the invalid pair.
        index: usize,
    },
    /// A track violates the public structural track contract.
    InvalidTrack {
        /// Track index in source order.
        track_index: usize,
        /// Typed shape failure.
        source: DocumentShapeError,
    },
    /// Two tracks target the same property of the same bone.
    DuplicateTrackTarget {
        /// Second track index in source order.
        track_index: usize,
        /// Duplicated bone index.
        bone: usize,
        /// Duplicated property.
        property: Property,
    },
    /// One authored key lies outside the clip interval.
    TrackTimeOutOfRange {
        /// Track index in source order.
        track_index: usize,
        /// Key index in source order.
        key_index: usize,
        /// Authored key time.
        time_s: Binary32,
        /// Narrowed clip duration.
        duration_s: Binary32,
    },
    /// A multi-key cubic spline is not exactly constant.
    UnsupportedCubicSpline {
        /// Track index in source order.
        track_index: usize,
        /// Exact refusal class.
        reason: FootCycleCubicSplineRefusalV1,
    },
    /// A stored quaternion key cannot be normalized by runtime sampling.
    InvalidQuaternionKey {
        /// Track index in source order.
        track_index: usize,
        /// Key index in source order.
        key_index: usize,
    },
    /// Two distinct source instants narrowed to one candidate time.
    TimeCollision {
        /// Track index in source order.
        track_index: usize,
    },
    /// Two distinct generated source instants narrowed to one binary32 time.
    SourceTimeCollision {
        /// Track index in source order.
        track_index: usize,
    },
    /// A fixed aggregate V1 resource limit was exceeded.
    LimitExceeded {
        /// Bounded resource.
        resource: FootCycleClipResourceV1,
        /// Observed count, including the terminal N+1 where applicable.
        observed: usize,
        /// Fixed V1 maximum.
        maximum: usize,
    },
    /// Checked aggregate arithmetic overflowed before allocation.
    CountOverflow {
        /// Resource whose checked arithmetic overflowed.
        resource: FootCycleClipResourceV1,
    },
}

/// Adds to a count of `resource`, or says that the count overflowed.
pub fn checked_add(resource: FootCycleClipResourceV1, left: usize, right: usize) -> (r: Result<
    usize,
    FootCycleClipWarpError,
>)
    ensures
        r == if left + right <= usize::MAX {
            Ok((left + right) as usize)
        } else {
            Err(FootCycleClipWarpError::CountOverflow { resource })
        },
{
    match left.checked_add(right) {
        Some(total) => Ok(total),
        None => Err(FootCycleClipWarpError::CountOverflow { resource }),
    }
}

/// Refuses a count of `resource` that is above `maximum`.
pub fn check_limit(resource: FootCycleClipResourceV1, observed: usize, maximum: usize) -> (r:
    Result<(), FootCycleClipWarpError>)
    ensures
        r == if observed > maximum {
            Err(FootCycleClipWarpError::LimitExceeded { resource, observed, maximum })
        } else {
            Ok(())
        },
{
    if observed > maximum {
        return Err(FootCycleClipWarpError::LimitExceeded { resource, observed, maximum });
    }
    Ok(())
}

} // verus!
