//! Verified foot-cycle clip candidates.
//!
//! One already-planned source-to-output time map is applied to a copy of a
//! clip. Times and values are held as the bit patterns of their floating-point
//! numbers, and every operation on them is correctly rounded.

pub mod acceptance_laws;
pub mod arithmetic_laws;
pub mod binary32;
pub mod binary64;
pub mod candidate;
pub mod candidate_laws;
pub mod cubic;
pub mod entry_laws;
pub mod error;
pub mod keys;
pub mod line_laws;
pub mod magnitude;
pub mod map_laws;
pub mod model;
pub mod number_laws;
pub mod operation;
pub mod plan;
pub mod preflight;
pub mod refusal_laws;
pub mod renaming_laws;
pub mod rounding;
pub mod row_laws;
pub mod rows;
pub mod targets;
pub mod warp_laws;

pub use crate::candidate::preflight_time_warp_clip_v1;
pub use crate::candidate::time_warp_clip_v1;
pub use crate::error::FootCycleClipResourceV1;
pub use crate::error::FootCycleClipWarpError;
pub use crate::error::FootCycleCubicSplineRefusalV1;
pub use crate::error::FOOT_CYCLE_CLIP_V1_MAX_CANDIDATE_BYTES;
pub use crate::error::FOOT_CYCLE_CLIP_V1_MAX_GENERATED_KEYS;
pub use crate::error::FOOT_CYCLE_CLIP_V1_MAX_INPUT_KEYS;
pub use crate::error::FOOT_CYCLE_CLIP_V1_MAX_INPUT_VALUES;
pub use crate::error::FOOT_CYCLE_CLIP_V1_MAX_NAME_BYTES;
pub use crate::error::FOOT_CYCLE_CLIP_V1_MAX_TRACKS;
pub use crate::error::FOOT_CYCLE_CLIP_V1_MAX_WORK;
pub use crate::preflight::FootCycleClipPreflightV1;
pub use crate::rows::time_warp_rows_v1;
pub use crate::rows::FootCycleClipWarpKnotV1;
pub use crate::rows::FootCycleClipWarpRowV1;
