//! Which cubic splines a time warp may keep as they are.

use crate::error::FootCycleClipWarpError;
use crate::error::FootCycleCubicSplineRefusalV1;
use crate::model::Interpolation;
use crate::model::Quat;
use crate::model::Track;
use crate::model::TrackValues;
use crate::model::TrackView;
use crate::model::ValuesView;
use crate::model::Vec3;
use vstd::prelude::*;

verus! {

/// What keeps a spline from being constant at the keys from `key` on: a value
/// that differs from the first one, or a tangent that is not zero.
pub open spec fn first_variation(
    values: ValuesView,
    keys: nat,
    key: int,
) -> Option<FootCycleCubicSplineRefusalV1>
    decreases keys - key,
{
    if key >= keys {
        None
    } else if values.sample(3 * key + 1) != values.sample(1) {
        Some(FootCycleCubicSplineRefusalV1::DifferingValues)
    } else if !values.sample(3 * key).zero() || !values.sample(3 * key + 2).zero() {
        Some(FootCycleCubicSplineRefusalV1::NonZeroTangent)
    } else {
        first_variation(values, keys, key + 1)
    }
}

/// Why a cubic track cannot be kept as it is, if it cannot. A single key is
/// constant whatever its tangents are.
pub open spec fn cubic_refusal(track: TrackView) -> Option<FootCycleCubicSplineRefusalV1> {
    if track.times.len() <= 1 {
        None
    } else {
        first_variation(track.values, track.times.len(), 0)
    }
}

/// Whether every key of a spline has the bits of the first value and tangents
/// that are zero.
pub open spec fn constant(values: ValuesView, keys: nat) -> bool {
    forall|key: int|
        0 <= key < keys ==> {
            &&& #[trigger] values.sample(3 * key + 1) == values.sample(1)
            &&& values.sample(3 * key).zero()
            &&& values.sample(3 * key + 2).zero()
        }
}

proof fn lemma_no_variation(values: ValuesView, keys: nat, key: int)
    requires
        0 <= key,
    ensures
        first_variation(values, keys, key) is None <==> forall|k: int|
            key <= k < keys ==> {
                &&& #[trigger] values.sample(3 * k + 1) == values.sample(1)
                &&& values.sample(3 * k).zero()
                &&& values.sample(3 * k + 2).zero()
            },
    decreases keys - key,
{
    if key < keys {
        lemma_no_variation(values, keys, key + 1);
        assert(values.sample(3 * key + 1) == values.sample(3 * key + 1));
        if first_variation(values, keys, key) is None {
            assert forall|k: int| key <= k < keys implies {
                &&& #[trigger] values.sample(3 * k + 1) == values.sample(1)
                &&& values.sample(3 * k).zero()
                &&& values.sample(3 * k + 2).zero()
            } by {
                if k > key {
                    assert(first_variation(values, keys, key + 1) is None);
                }
            }
        }
    }
}

/// A cubic track is kept exactly when it has at most one key or is constant.
pub proof fn law_kept_splines_are_constant(track: TrackView)
    ensures
        cubic_refusal(track) is None <==> track.times.len() <= 1 || constant(
            track.values,
            track.times.len(),
        ),
{
    lemma_no_variation(track.values, track.times.len(), 0);
}

/// Whether two vectors have the same bits.
pub fn same_vec3(left: Vec3, right: Vec3) -> (r: bool)
    ensures
        r == (left == right),
{
    left.x.bits == right.x.bits && left.y.bits == right.y.bits && left.z.bits == right.z.bits
}

/// Whether two quaternions have the same bits.
pub fn same_quat(left: Quat, right: Quat) -> (r: bool)
    ensures
        r == (left == right),
{
    left.x.bits == right.x.bits && left.y.bits == right.y.bits && left.z.bits == right.z.bits
        && left.w.bits == right.w.bits
}

fn vec3_variation(values: &Vec<Vec3>, keys: usize) -> (r: Option<FootCycleCubicSplineRefusalV1>)
    requires
        keys > 0,
        values@.len() == 3 * keys,
    ensures
        r == first_variation(ValuesView::Vec3s(values@), keys as nat, 0),
{
    assert(values@.len() == values.len());
    let reference: Vec3 = values[1];
    for key in 0..keys
        invariant
            values@.len() == 3 * keys,
            values@.len() == values.len(),
            reference == values@[1],
            first_variation(ValuesView::Vec3s(values@), keys as nat, 0) == first_variation(
                ValuesView::Vec3s(values@),
                keys as nat,
                key as int,
            ),
    {
        if !same_vec3(values[3 * key + 1], reference) {
            return Some(FootCycleCubicSplineRefusalV1::DifferingValues);
        }
        if !values[3 * key].is_zero() || !values[3 * key + 2].is_zero() {
            return Some(FootCycleCubicSplineRefusalV1::NonZeroTangent);
        }
    }
    None
}

fn quat_variation(values: &Vec<Quat>, keys: usize) -> (r: Option<FootCycleCubicSplineRefusalV1>)
    requires
        keys > 0,
        values@.len() == 3 * keys,
    ensures
        r == first_variation(ValuesView::Quats(values@), keys as nat, 0),
{
    assert(values@.len() == values.len());
    let reference: Quat = values[1];
    for key in 0..keys
        invariant
            values@.len() == 3 * keys,
            values@.len() == values.len(),
            reference == values@[1],
            first_variation(ValuesView::Quats(values@), keys as nat, 0) == first_variation(
                ValuesView::Quats(values@),
                keys as nat,
                key as int,
            ),
    {
        if !same_quat(values[3 * key + 1], reference) {
            return Some(FootCycleCubicSplineRefusalV1::DifferingValues);
        }
        if !values[3 * key].is_zero() || !values[3 * key + 2].is_zero() {
            return Some(FootCycleCubicSplineRefusalV1::NonZeroTangent);
        }
    }
    None
}

/// Refuses a cubic track that is not exactly constant.
pub fn validate_cubic(track: &Track, track_index: usize) -> (r: Result<(), FootCycleClipWarpError>)
    requires
        track@.interpolation == Interpolation::CubicSpline,
        track@.values.len() == track@.wanted_values(),
    ensures
        r == match cubic_refusal(track@) {
            Some(reason) => Err(
                FootCycleClipWarpError::UnsupportedCubicSpline { track_index, reason },
            ),
            None => Ok(()),
        },
{
    if track.times.len() <= 1 {
        return Ok(());
    }
    let variation: Option<FootCycleCubicSplineRefusalV1> = match &track.values {
        TrackValues::Vec3s(values) => vec3_variation(values, track.times.len()),
        TrackValues::Quats(values) => quat_variation(values, track.times.len()),
    };
    match variation {
        Some(reason) => Err(
            FootCycleClipWarpError::UnsupportedCubicSpline { track_index, reason },
        ),
        None => Ok(()),
    }
}

} // verus!
