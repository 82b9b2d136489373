//! The planned transform of one member clip.

use crate::binary64::Binary64;
use vstd::prelude::*;

verus! {

/// Most control points that one time warp may declare.
pub const CONTACT_TRANSFORM_RESULT_V1_MAX_CONTROL_POINTS: usize = 4_096;

/// The bit pattern of one.
pub const ONE_64: u64 = 0x3ff0_0000_0000_0000;

/// One row of a normalized source-to-output time map.
#[derive(Clone, Copy, Debug, PartialEq, Eq, Structural)]
pub struct ContactTimeWarpControlPointV1 {
    /// Normalized source time.
    pub input: Binary64,
    /// Normalized output time.
    pub output: Binary64,
}

impl ContactTimeWarpControlPointV1 {
    /// Whether both coordinates are finite and in `[0, 1]`.
    pub open spec fn normalized(self) -> bool {
        &&& self.input.finite() && 0 <= self.input.place() <= ONE_64
        &&& self.output.finite() && 0 <= self.output.place() <= ONE_64
    }

    /// A row that maps `input` to `output`.
    pub fn new(input: Binary64, output: Binary64) -> (r: ContactTimeWarpControlPointV1)
        ensures
            r.input == input,
            r.output == output,
    {
        ContactTimeWarpControlPointV1 { input, output }
    }

    /// Normalized source time.
    pub fn input_time(&self) -> (r: Binary64)
        ensures
            r == self.input,
    {
        self.input
    }

    /// Normalized output time.
    pub fn output_time(&self) -> (r: Binary64)
        ensures
            r == self.output,
    {
        self.output
    }
}

/// A closed normalized interval.
#[derive(Clone, Copy, Debug, PartialEq, Eq, Structural)]
pub struct ContactTransformIntervalV1 {
    /// Normalized start.
    pub start: Binary64,
    /// Normalized end.
    pub end: Binary64,
}

impl ContactTransformIntervalV1 {
    /// The interval from `start` to `end`.
    pub fn new(start: Binary64, end: Binary64) -> (r: ContactTransformIntervalV1)
        ensures
            r.start == start,
            r.end == end,
    {
        ContactTransformIntervalV1 { start, end }
    }
}

/// What a plan does to one member clip.
#[derive(Clone, Debug, PartialEq, Eq)]
pub enum ContactTransformOperationV1 {
    /// Keep one interval of the source.
    Trim {
        /// The interval that stays.
        interval: ContactTransformIntervalV1,
    },
    /// Re-time the source along a piecewise linear map.
    TimeWarp {
        /// Version of the map.
        version: u32,
        /// Duration of the output in seconds.
        output_duration_s: Binary64,
        /// The rows of the map, in source order.
        control_points: Vec<ContactTimeWarpControlPointV1>,
    },
}

impl ContactTransformOperationV1 {
    /// The rows of a time warp; no rows for what is no time warp.
    pub open spec fn rows(self) -> Seq<ContactTimeWarpControlPointV1> {
        match self {
            ContactTransformOperationV1::TimeWarp { control_points, .. } => control_points@,
            ContactTransformOperationV1::Trim { .. } => Seq::empty(),
        }
    }

    /// A trim to one interval.
    pub fn trim(interval: ContactTransformIntervalV1) -> (r: ContactTransformOperationV1)
        ensures
            r == (ContactTransformOperationV1::Trim { interval }),
    {
        ContactTransformOperationV1::Trim { interval }
    }

    /// A version 1 time warp.
    pub fn time_warp(
        output_duration_s: Binary64,
        control_points: Vec<ContactTimeWarpControlPointV1>,
    ) -> (r: ContactTransformOperationV1)
        ensures
            r == (ContactTransformOperationV1::TimeWarp {
                version: 1,
                output_duration_s,
                control_points,
            }),
    {
        ContactTransformOperationV1::TimeWarp { version: 1, output_duration_s, control_points }
    }

    /// The rows of a time warp.
    pub fn control_points(&self) -> (r: Option<&[ContactTimeWarpControlPointV1]>)
        ensures
            match self {
                ContactTransformOperationV1::TimeWarp { control_points, .. } => r is Some
                    && r->0@ == control_points@,
                ContactTransformOperationV1::Trim { .. } => r is None,
            },
    {
        match self {
            ContactTransformOperationV1::TimeWarp { control_points, .. } => Some(
                control_points.as_slice(),
            ),
            ContactTransformOperationV1::Trim { .. } => None,
        }
    }
}

/// The plan of one member of a foot-cycle set.
#[derive(Clone, Debug, PartialEq, Eq)]
pub struct FootCycleMemberPlanV1 {
    /// What to do to the member's clip.
    pub operation: ContactTransformOperationV1,
}

impl FootCycleMemberPlanV1 {
    /// What to do to the member's clip.
    pub fn operation(&self) -> (r: &ContactTransformOperationV1)
        ensures
            *r == self.operation,
    {
        &self.operation
    }
}

} // verus!
