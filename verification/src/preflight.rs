//! Validation and exact counting of a candidate before it is built.

use crate::binary32::Binary32;
use crate::cubic;
use crate::error;
use crate::error::FootCycleClipResourceV1;
use crate::error::FootCycleClipWarpError;
use crate::error::FOOT_CYCLE_CLIP_V1_MAX_CANDIDATE_BYTES;
use crate::error::FOOT_CYCLE_CLIP_V1_MAX_GENERATED_KEYS;
use crate::error::FOOT_CYCLE_CLIP_V1_MAX_INPUT_KEYS;
use crate::error::FOOT_CYCLE_CLIP_V1_MAX_INPUT_VALUES;
use crate::error::FOOT_CYCLE_CLIP_V1_MAX_NAME_BYTES;
use crate::error::FOOT_CYCLE_CLIP_V1_MAX_TRACKS;
use crate::error::FOOT_CYCLE_CLIP_V1_MAX_WORK;
use crate::error::KEY_TIME_BYTES;
use crate::error::QUAT_BYTES;
use crate::error::TRACK_ROW_BYTES;
use crate::error::VEC3_BYTES;
use crate::keys;
use crate::model;
use crate::model::Clip;
use crate::model::ClipView;
use crate::model::DocumentShapeError;
use crate::model::Interpolation;
use crate::model::Property;
use crate::model::Quat;
use crate::model::Track;
use crate::model::TrackValues;
use crate::model::TrackView;
use crate::model::ValuesView;
use crate::model::Vec3;
use crate::operation;
use crate::plan::ContactTimeWarpControlPointV1;
use crate::targets::Targets;
use vstd::prelude::*;

verus! {

/// What one candidate stores, and what planning it costs.
pub struct Counts {
    /// Tracks inspected and retained.
    pub tracks: nat,
    /// Authored keys inspected.
    pub input_keys: nat,
    /// Authored stored values inspected, including cubic tangents.
    pub input_values: nat,
    /// Keys of the candidate.
    pub candidate_keys: nat,
    /// Stored values of the candidate.
    pub candidate_values: nat,
    /// UTF-8 bytes of the clip name.
    pub name_bytes: nat,
    /// Payload bytes of the candidate.
    pub candidate_bytes: nat,
    /// Inspection and planning work.
    pub work: nat,
}

/// Exact storage counts and the bounded work charge for one validated V1 clip
/// candidate.
///
/// Hosts may sum these counts with checked arithmetic before retaining a batch
/// of candidates. The counts describe the candidate that the same inputs
/// build; obtaining them does not allocate or mutate that candidate.
#[derive(Debug, Clone, Copy, PartialEq, Eq, Structural)]
#[non_exhaustive]
pub struct FootCycleClipPreflightV1 {
    tracks: usize,
    input_keys: usize,
    input_values: usize,
    candidate_keys: usize,
    candidate_values: usize,
    name_bytes: usize,
    candidate_bytes: usize,
    work: usize,
}

impl View for FootCycleClipPreflightV1 {
    type V = Counts;

    closed spec fn view(&self) -> Counts {
        Counts {
            tracks: self.tracks as nat,
            input_keys: self.input_keys as nat,
            input_values: self.input_values as nat,
            candidate_keys: self.candidate_keys as nat,
            candidate_values: self.candidate_values as nat,
            name_bytes: self.name_bytes as nat,
            candidate_bytes: self.candidate_bytes as nat,
            work: self.work as nat,
        }
    }
}

impl FootCycleClipPreflightV1 {
    /// Number of tracks inspected and retained by the candidate.
    pub fn tracks(self) -> (r: usize)
        ensures
            r == self@.tracks,
    {
        self.tracks
    }

    /// Number of authored keyframes inspected.
    pub fn input_keys(self) -> (r: usize)
        ensures
            r == self@.input_keys,
    {
        self.input_keys
    }

    /// Number of authored stored values inspected, including cubic tangents.
    pub fn input_values(self) -> (r: usize)
        ensures
            r == self@.input_values,
    {
        self.input_values
    }

    /// Number of keyframes retained by the candidate.
    pub fn candidate_keys(self) -> (r: usize)
        ensures
            r == self@.candidate_keys,
    {
        self.candidate_keys
    }

    /// Number of stored values retained by the candidate.
    ///
    /// Constant cubic tracks retain their authored values verbatim. LINEAR and
    /// STEP tracks retain exactly one value per candidate key.
    pub fn candidate_values(self) -> (r: usize)
        ensures
            r == self@.candidate_values,
    {
        self.candidate_values
    }

    /// UTF-8 bytes retained for the candidate clip name.
    pub fn name_bytes(self) -> (r: usize)
        ensures
            r == self@.name_bytes,
    {
        self.name_bytes
    }

    /// Exact V1 candidate storage payload bytes.
    ///
    /// This is the sum of retained name bytes, track rows, output key times,
    /// and output values, each by the size of its type; it is not an
    /// allocator-reserved-capacity estimate. A sum that no word could hold
    /// would stand as the largest word.
    pub fn candidate_bytes(self) -> (r: usize)
        ensures
            r == self@.candidate_bytes,
    {
        self.candidate_bytes
    }

    /// Conservative V1 inspection and candidate-planning work charge.
    pub fn work(self) -> (r: usize)
        ensures
            r == self@.work,
    {
        self.work
    }
}

/// How many keys the candidate stores for a track.
pub open spec fn generated_keys(
    track: TrackView,
    points: Seq<ContactTimeWarpControlPointV1>,
    duration: Binary32,
    identity: bool,
) -> nat {
    if !identity && track.interpolation != Interpolation::CubicSpline {
        keys::track_keys(track, points, duration).len()
    } else {
        track.times.len()
    }
}

/// How many values the candidate stores for a track that gets `keys` keys.
pub open spec fn generated_values(track: TrackView, keys: nat) -> nat {
    if track.interpolation == Interpolation::CubicSpline {
        track.values.len()
    } else {
        keys
    }
}

/// Payload bytes of one stored value.
pub open spec fn value_bytes(values: ValuesView) -> nat {
    match values {
        ValuesView::Vec3s(_) => vstd::layout::size_of::<Vec3>(),
        ValuesView::Quats(_) => vstd::layout::size_of::<Quat>(),
    }
}

/// The counts after one more track.
pub open spec fn charged(
    before: Counts,
    track: TrackView,
    points: Seq<ContactTimeWarpControlPointV1>,
    duration: Binary32,
    identity: bool,
) -> Counts {
    let generated = generated_keys(track, points, duration, identity);
    let values = generated_values(track, generated);
    let probes = if !identity && track.interpolation == Interpolation::Linear {
        points.len()
    } else {
        0
    };
    Counts {
        tracks: before.tracks,
        input_keys: before.input_keys + track.times.len(),
        input_values: before.input_values + track.values.len(),
        candidate_keys: before.candidate_keys + generated,
        candidate_values: before.candidate_values + values,
        name_bytes: before.name_bytes,
        candidate_bytes: before.candidate_bytes + (generated * vstd::layout::size_of::<Binary32>()
            + values * value_bytes(track.values)),
        work: before.work + track.times.len() + probes + generated,
    }
}

/// The counts over the first `n` tracks.
pub open spec fn counts(
    clip: ClipView,
    points: Seq<ContactTimeWarpControlPointV1>,
    duration: Binary32,
    identity: bool,
    n: int,
) -> Counts
    decreases n,
{
    if n <= 0 {
        Counts {
            tracks: clip.tracks.len(),
            input_keys: 0,
            input_values: 0,
            candidate_keys: 0,
            candidate_values: 0,
            name_bytes: clip.name_bytes() as nat,
            candidate_bytes: clip.name_bytes() as nat + clip.tracks.len()
                * vstd::layout::size_of::<Track>(),
            work: 0,
        }
    } else {
        charged(
            counts(clip, points, duration, identity, n - 1),
            clip.tracks[n - 1],
            points,
            duration,
            identity,
        )
    }
}

/// The first key from `i` on that lies outside the clip interval.
pub open spec fn first_outside(times: Seq<Binary32>, duration: Binary32, i: int) -> Option<int>
    decreases times.len() - i,
{
    if i >= times.len() {
        None
    } else if times[i].lt_number(Binary32 { bits: 0 }) || duration.lt_number(times[i]) {
        Some(i)
    } else {
        first_outside(times, duration, i + 1)
    }
}

/// The first key from `i` on whose quaternion cannot be normalized.
pub open spec fn first_unnormalizable(track: TrackView, values: Seq<Quat>, i: int) -> Option<int>
    decreases track.times.len() - i,
{
    if i >= track.times.len() {
        None
    } else if !values[track.value_at(i)].normalizable() {
        Some(i)
    } else {
        first_unnormalizable(track, values, i + 1)
    }
}

/// Whether every quaternion key of a track can be normalized.
pub open spec fn normalizable_keys(track: TrackView) -> bool {
    match track.values {
        ValuesView::Quats(values) => first_unnormalizable(track, values, 0) is None,
        ValuesView::Vec3s(_) => true,
    }
}

/// Why one track is refused on its own account, if it is.
pub open spec fn content_refusal(
    track: TrackView,
    track_index: usize,
    points: Seq<ContactTimeWarpControlPointV1>,
    duration: Binary32,
    identity: bool,
) -> Option<FootCycleClipWarpError> {
    if let Some(violation) = track.shape_violation() {
        Some(
            FootCycleClipWarpError::InvalidTrack {
                track_index,
                source: DocumentShapeError::TrackShape {
                    clip_index: 0,
                    node: track.bone,
                    violation,
                },
            },
        )
    } else if let Some(key) = first_outside(track.times, duration, 0) {
        Some(
            FootCycleClipWarpError::TrackTimeOutOfRange {
                track_index,
                key_index: key as usize,
                time_s: track.times[key],
                duration_s: duration,
            },
        )
    } else if let Some(key) = match track.values {
        ValuesView::Quats(values) => first_unnormalizable(track, values, 0),
        ValuesView::Vec3s(_) => None,
    } {
        Some(FootCycleClipWarpError::InvalidQuaternionKey { track_index, key_index: key as usize })
    } else if track.interpolation == Interpolation::CubicSpline {
        match cubic::cubic_refusal(track) {
            Some(reason) => Some(
                FootCycleClipWarpError::UnsupportedCubicSpline { track_index, reason },
            ),
            None => None,
        }
    } else if !identity {
        keys::keys_refusal(track, track_index, points, duration)
    } else {
        None
    }
}

/// The refusal of a count that is above its limit.
pub open spec fn over_limit(
    resource: FootCycleClipResourceV1,
    observed: nat,
    maximum: usize,
) -> Option<FootCycleClipWarpError> {
    if observed > usize::MAX {
        Some(FootCycleClipWarpError::CountOverflow { resource })
    } else if observed > maximum {
        Some(
            FootCycleClipWarpError::LimitExceeded {
                resource,
                observed: observed as usize,
                maximum,
            },
        )
    } else {
        None
    }
}

/// Whether one of the first `n` tracks targets a property of a bone.
pub open spec fn claimed(clip: ClipView, n: int, bone: usize, property: Property) -> bool {
    exists|j: int|
        0 <= j < n && (#[trigger] clip.tracks[j]).bone == bone && clip.tracks[j].property
            == property
}

/// Whether an earlier track targets what track `i` targets.
pub open spec fn target_taken(clip: ClipView, i: int) -> bool {
    claimed(clip, i, clip.tracks[i].bone, clip.tracks[i].property)
}

proof fn lemma_claimed_next(clip: ClipView, n: int, bone: usize, property: Property)
    requires
        0 <= n,
    ensures
        claimed(clip, n + 1, bone, property) == (claimed(clip, n, bone, property) || (
        clip.tracks[n].bone == bone && clip.tracks[n].property == property)),
{
    if claimed(clip, n, bone, property) {
        let j = choose|j: int|
            0 <= j < n && (#[trigger] clip.tracks[j]).bone == bone && clip.tracks[j].property
                == property;
        assert(clip.tracks[j].bone == bone);
    }
    assert(clip.tracks[n].bone == bone || clip.tracks[n].bone != bone);
}

/// Why one more track is refused after these counts, if it is.
pub open spec fn charge_refusal(
    before: Counts,
    track: TrackView,
    track_index: usize,
    points: Seq<ContactTimeWarpControlPointV1>,
    duration: Binary32,
    identity: bool,
) -> Option<FootCycleClipWarpError> {
    let total = charged(before, track, points, duration, identity);
    if let Some(error) = over_limit(
        FootCycleClipResourceV1::InputKeys,
        total.input_keys,
        FOOT_CYCLE_CLIP_V1_MAX_INPUT_KEYS,
    ) {
        Some(error)
    } else if let Some(error) = over_limit(
        FootCycleClipResourceV1::InputValues,
        total.input_values,
        FOOT_CYCLE_CLIP_V1_MAX_INPUT_VALUES,
    ) {
        Some(error)
    } else if let Some(error) = content_refusal(track, track_index, points, duration, identity) {
        Some(error)
    } else if let Some(error) = over_limit(
        FootCycleClipResourceV1::GeneratedKeys,
        total.candidate_keys,
        FOOT_CYCLE_CLIP_V1_MAX_GENERATED_KEYS,
    ) {
        Some(error)
    } else {
        over_limit(FootCycleClipResourceV1::Work, total.work, FOOT_CYCLE_CLIP_V1_MAX_WORK)
    }
}

/// Why track `i` is refused after the tracks before it were accepted, if it
/// is.
pub open spec fn track_refusal(
    clip: ClipView,
    points: Seq<ContactTimeWarpControlPointV1>,
    duration: Binary32,
    identity: bool,
    i: int,
) -> Option<FootCycleClipWarpError> {
    if target_taken(clip, i) {
        Some(
            FootCycleClipWarpError::DuplicateTrackTarget {
                track_index: i as usize,
                bone: clip.tracks[i].bone,
                property: clip.tracks[i].property,
            },
        )
    } else {
        charge_refusal(
            counts(clip, points, duration, identity, i),
            clip.tracks[i],
            i as usize,
            points,
            duration,
            identity,
        )
    }
}

/// Why the first refused track from `i` on is refused.
pub open spec fn first_track_refusal(
    clip: ClipView,
    points: Seq<ContactTimeWarpControlPointV1>,
    duration: Binary32,
    identity: bool,
    i: int,
) -> Option<FootCycleClipWarpError>
    decreases clip.tracks.len() - i,
{
    if i >= clip.tracks.len() {
        None
    } else if let Some(error) = track_refusal(clip, points, duration, identity, i) {
        Some(error)
    } else {
        first_track_refusal(clip, points, duration, identity, i + 1)
    }
}

/// Why a clip is refused under a valid map, if it is.
pub open spec fn tracks_refusal(
    clip: ClipView,
    points: Seq<ContactTimeWarpControlPointV1>,
    duration: Binary32,
    identity: bool,
) -> Option<FootCycleClipWarpError> {
    if let Some(error) = over_limit(
        FootCycleClipResourceV1::Tracks,
        clip.tracks.len(),
        FOOT_CYCLE_CLIP_V1_MAX_TRACKS,
    ) {
        Some(error)
    } else if let Some(error) = over_limit(
        FootCycleClipResourceV1::NameBytes,
        clip.name_bytes() as nat,
        FOOT_CYCLE_CLIP_V1_MAX_NAME_BYTES,
    ) {
        Some(error)
    } else {
        first_track_refusal(clip, points, duration, identity, 0)
    }
}

/// A number of bytes as a word holds it: the number itself, or the largest word
/// if it does not fit.
pub open spec fn in_word(bytes: nat) -> nat {
    if bytes <= usize::MAX {
        bytes
    } else {
        usize::MAX as nat
    }
}

/// Counts with their payload bytes as a word holds them.
pub open spec fn held(total: Counts) -> Counts {
    Counts { candidate_bytes: in_word(total.candidate_bytes), ..total }
}

/// Whether every count is within its limit.
pub open spec fn within_limits(total: Counts) -> bool {
    &&& total.tracks <= FOOT_CYCLE_CLIP_V1_MAX_TRACKS
    &&& total.name_bytes <= FOOT_CYCLE_CLIP_V1_MAX_NAME_BYTES
    &&& total.input_keys <= FOOT_CYCLE_CLIP_V1_MAX_INPUT_KEYS
    &&& total.input_values <= FOOT_CYCLE_CLIP_V1_MAX_INPUT_VALUES
    &&& total.candidate_keys <= FOOT_CYCLE_CLIP_V1_MAX_GENERATED_KEYS
    &&& total.candidate_values <= 3 * total.candidate_keys
    &&& total.work <= FOOT_CYCLE_CLIP_V1_MAX_WORK
}

/// Whether the sizes that the ceiling on payload bytes is made of are those of
/// the stored types.
pub open spec fn payload_sizes() -> bool {
    &&& vstd::layout::size_of::<Track>() == TRACK_ROW_BYTES
    &&& vstd::layout::size_of::<Binary32>() == KEY_TIME_BYTES
    &&& vstd::layout::size_of::<Vec3>() == VEC3_BYTES
    &&& vstd::layout::size_of::<Quat>() == QUAT_BYTES
}

/// Whether the sizes that the ceiling on payload bytes is made of are those of
/// the stored types.
pub fn payload_sizes_hold() -> (r: bool)
    ensures
        r == payload_sizes(),
{
    core::mem::size_of::<Track>() == TRACK_ROW_BYTES && core::mem::size_of::<Binary32>()
        == KEY_TIME_BYTES && core::mem::size_of::<Vec3>() == VEC3_BYTES && core::mem::size_of::<
        Quat,
    >() == QUAT_BYTES
}

proof fn lemma_bytes_of_counts(
    clip: ClipView,
    points: Seq<ContactTimeWarpControlPointV1>,
    duration: Binary32,
    identity: bool,
    n: int,
)
    requires
        payload_sizes(),
    ensures
        ({
            let total = counts(clip, points, duration, identity, n);
            total.candidate_bytes <= total.name_bytes + total.tracks * TRACK_ROW_BYTES
                + total.candidate_keys * KEY_TIME_BYTES + total.candidate_values * QUAT_BYTES
        }),
    decreases n,
{
    if n > 0 {
        lemma_bytes_of_counts(clip, points, duration, identity, n - 1);
        let track = clip.tracks[n - 1];
        let values = generated_values(track, generated_keys(track, points, duration, identity));
        assert(values * value_bytes(track.values) <= values * QUAT_BYTES) by (nonlinear_arith)
            requires
                value_bytes(track.values) <= QUAT_BYTES,
        ;
    }
}

/// Where the ceiling on payload bytes is made of the sizes of the stored types,
/// counts within their limits fit it, and it is below what a word can count.
pub proof fn law_candidate_bytes_bounded(
    clip: ClipView,
    points: Seq<ContactTimeWarpControlPointV1>,
    duration: Binary32,
    identity: bool,
    n: int,
)
    requires
        payload_sizes(),
        within_limits(counts(clip, points, duration, identity, n)),
    ensures
        counts(clip, points, duration, identity, n).candidate_bytes
            <= FOOT_CYCLE_CLIP_V1_MAX_CANDIDATE_BYTES < usize::MAX,
{
    lemma_bytes_of_counts(clip, points, duration, identity, n);
    let tracks = counts(clip, points, duration, identity, n).tracks;
    assert(tracks * TRACK_ROW_BYTES <= FOOT_CYCLE_CLIP_V1_MAX_TRACKS * TRACK_ROW_BYTES)
        by (nonlinear_arith)
        requires
            tracks <= FOOT_CYCLE_CLIP_V1_MAX_TRACKS,
    ;
}

/// No track of an accepted clip is refused.
pub proof fn lemma_accepted_track(
    clip: ClipView,
    points: Seq<ContactTimeWarpControlPointV1>,
    duration: Binary32,
    identity: bool,
    i: int,
    k: int,
)
    requires
        0 <= i <= k < clip.tracks.len(),
        first_track_refusal(clip, points, duration, identity, i) is None,
    ensures
        track_refusal(clip, points, duration, identity, k) is None,
        content_refusal(clip.tracks[k], k as usize, points, duration, identity) is None,
        clip.tracks[k].shape_violation() is None,
        normalizable_keys(clip.tracks[k]),
    decreases k - i,
{
    if i < k {
        lemma_accepted_track(clip, points, duration, identity, i + 1, k);
    }
}

/// Refuses the first key outside the clip interval.
fn check_times(track: &Track, track_index: usize, duration: Binary32) -> (r: Result<
    (),
    FootCycleClipWarpError,
>)
    ensures
        r == match first_outside(track@.times, duration, 0) {
            Some(key) => Err(
                FootCycleClipWarpError::TrackTimeOutOfRange {
                    track_index,
                    key_index: key as usize,
                    time_s: track@.times[key],
                    duration_s: duration,
                },
            ),
            None => Ok(()),
        },
{
    let zero: Binary32 = Binary32 { bits: 0 };
    for key_index in 0..track.times.len()
        invariant
            zero.bits == 0,
            first_outside(track@.times, duration, 0) == first_outside(
                track@.times,
                duration,
                key_index as int,
            ),
    {
        let time: Binary32 = track.times[key_index];
        if time.less_than(zero) || duration.less_than(time) {
            return Err(
                FootCycleClipWarpError::TrackTimeOutOfRange {
                    track_index,
                    key_index,
                    time_s: time,
                    duration_s: duration,
                },
            );
        }
    }
    Ok(())
}

/// Refuses the first quaternion key that cannot be normalized.
fn check_quaternions(track: &Track, track_index: usize, values: &Vec<Quat>) -> (r: Result<
    (),
    FootCycleClipWarpError,
>)
    requires
        values@.len() == track@.wanted_values(),
    ensures
        r == match first_unnormalizable(track@, values@, 0) {
            Some(key) => Err(
                FootCycleClipWarpError::InvalidQuaternionKey {
                    track_index,
                    key_index: key as usize,
                },
            ),
            None => Ok(()),
        },
{
    let zero: Binary32 = Binary32 { bits: 0 };
    assert(values@.len() == values.len());
    for key_index in 0..track.times.len()
        invariant
            zero.bits == 0,
            values@.len() == values.len(),
            values@.len() == track@.wanted_values(),
            first_unnormalizable(track@, values@, 0) == first_unnormalizable(
                track@,
                values@,
                key_index as int,
            ),
    {
        let value: Quat = values[track.value_index(key_index)];
        let squared: Binary32 = value.length_squared();
        if !squared.is_finite() || squared.at_most(zero) {
            return Err(FootCycleClipWarpError::InvalidQuaternionKey { track_index, key_index });
        }
    }
    Ok(())
}

/// Holds one track against the rules that do not look at other tracks, and
/// counts the keys that the candidate stores for it.
fn inspect_track(
    track: &Track,
    track_index: usize,
    points: &[ContactTimeWarpControlPointV1],
    duration: Binary32,
    identity: bool,
) -> (r: Result<usize, FootCycleClipWarpError>)
    requires
        operation::valid_map(points@),
        track@.times.len() + points@.len() <= usize::MAX,
    ensures
        match content_refusal(track@, track_index, points@, duration, identity) {
            Some(error) => r == Err::<usize, FootCycleClipWarpError>(error),
            None => r is Ok && r->Ok_0 == generated_keys(track@, points@, duration, identity)
                && r->Ok_0 <= track@.times.len() + points@.len(),
        },
{
    if let Err(source) = model::validate_track_shape(0, track) {
        return Err(FootCycleClipWarpError::InvalidTrack { track_index, source });
    }
    if let Err(error) = check_times(track, track_index, duration) {
        return Err(error);
    }
    if let TrackValues::Quats(values) = &track.values {
        if let Err(error) = check_quaternions(track, track_index, values) {
            return Err(error);
        }
    }
    if track.interpolation == Interpolation::CubicSpline {
        if let Err(error) = cubic::validate_cubic(track, track_index) {
            return Err(error);
        }
        return Ok(track.times.len());
    }
    if identity {
        return Ok(track.times.len());
    }
    proof {
        assert(track@.times.len() == track.times.len());
        keys::lemma_key_count(track@, points@, duration);
    }
    keys::count_warp_track_keys(track, track_index, points, duration)
}

/// The bytes of `count` items of `size` bytes, as a word holds them.
fn item_bytes(count: usize, size: usize) -> (r: usize)
    ensures
        r == in_word((count * size) as nat),
{
    match count.checked_mul(size) {
        Some(bytes) => bytes,
        None => usize::MAX,
    }
}

/// Payload bytes of one candidate track beyond its row, as a word holds them.
pub fn candidate_track_bytes(
    track: &Track,
    candidate_keys: usize,
    candidate_values: usize,
) -> (r: usize)
    ensures
        r == in_word(
            (candidate_keys * vstd::layout::size_of::<Binary32>() + candidate_values * value_bytes(
                track@.values,
            )) as nat,
        ),
{
    let value_size: usize = match &track.values {
        TrackValues::Vec3s(_) => core::mem::size_of::<Vec3>(),
        TrackValues::Quats(_) => core::mem::size_of::<Quat>(),
    };
    item_bytes(candidate_keys, core::mem::size_of::<Binary32>()).saturating_add(
        item_bytes(candidate_values, value_size),
    )
}

/// Counting on from counts as a word holds them gives what counting on from
/// the counts themselves gives.
proof fn lemma_charging_held_counts(
    before: Counts,
    track: TrackView,
    track_index: usize,
    points: Seq<ContactTimeWarpControlPointV1>,
    duration: Binary32,
    identity: bool,
)
    ensures
        held(charged(held(before), track, points, duration, identity)) == held(
            charged(before, track, points, duration, identity),
        ),
        charge_refusal(held(before), track, track_index, points, duration, identity)
            == charge_refusal(before, track, track_index, points, duration, identity),
{
    let a = charged(held(before), track, points, duration, identity);
    let b = charged(before, track, points, duration, identity);
    assert(a.input_keys == b.input_keys && a.input_values == b.input_values);
    assert(a.candidate_keys == b.candidate_keys && a.work == b.work);
}

/// Adds one track to the counts, or refuses it.
#[verifier::rlimit(40)]
fn charge_track(
    before: FootCycleClipPreflightV1,
    track: &Track,
    track_index: usize,
    points: &[ContactTimeWarpControlPointV1],
    duration: Binary32,
    identity: bool,
) -> (r: Result<(FootCycleClipPreflightV1, usize), FootCycleClipWarpError>)
    requires
        operation::valid_map(points@),
        within_limits(before@),
    ensures
        match (charge_refusal(before@, track@, track_index, points@, duration, identity), r) {
            (Some(expected), Err(error)) => error == expected,
            (None, Ok((after, generated))) => {
                &&& after@ == held(charged(before@, track@, points@, duration, identity))
                &&& within_limits(after@)
                &&& generated == generated_keys(track@, points@, duration, identity)
            },
            _ => false,
        },
{
    let mut total: FootCycleClipPreflightV1 = before;
    match error::checked_add(
        FootCycleClipResourceV1::InputKeys,
        total.input_keys,
        track.times.len(),
    ) {
        Ok(sum) => {
            total.input_keys = sum;
        },
        Err(error) => {
            return Err(error);
        },
    }
    if let Err(error) = error::check_limit(
        FootCycleClipResourceV1::InputKeys,
        total.input_keys,
        FOOT_CYCLE_CLIP_V1_MAX_INPUT_KEYS,
    ) {
        return Err(error);
    }
    match error::checked_add(
        FootCycleClipResourceV1::InputValues,
        total.input_values,
        track.values.len(),
    ) {
        Ok(sum) => {
            total.input_values = sum;
        },
        Err(error) => {
            return Err(error);
        },
    }
    if let Err(error) = error::check_limit(
        FootCycleClipResourceV1::InputValues,
        total.input_values,
        FOOT_CYCLE_CLIP_V1_MAX_INPUT_VALUES,
    ) {
        return Err(error);
    }
    let generated: usize = match inspect_track(track, track_index, points, duration, identity) {
        Ok(generated) => generated,
        Err(error) => {
            return Err(error);
        },
    };
    // The sums below stay far inside the word: the counts so far are within
    // their limits, and one track adds at most its own keys and the rows of
    // the map.
    total.candidate_keys = total.candidate_keys + generated;
    if let Err(error) = error::check_limit(
        FootCycleClipResourceV1::GeneratedKeys,
        total.candidate_keys,
        FOOT_CYCLE_CLIP_V1_MAX_GENERATED_KEYS,
    ) {
        return Err(error);
    }
    // Constant cubic tracks are retained verbatim; LINEAR and STEP store one
    // value per key. Either way the limits above bound the values.
    let candidate_values: usize = if track.interpolation == Interpolation::CubicSpline {
        track.values.len()
    } else {
        generated
    };
    total.candidate_values = total.candidate_values + candidate_values;
    total.candidate_bytes =
    total.candidate_bytes.saturating_add(candidate_track_bytes(track, generated, candidate_values));
    total.work = total.work + track.times.len();
    if !identity && track.interpolation == Interpolation::Linear {
        total.work = total.work + points.len();
    }
    total.work = total.work + generated;
    if let Err(error) = error::check_limit(
        FootCycleClipResourceV1::Work,
        total.work,
        FOOT_CYCLE_CLIP_V1_MAX_WORK,
    ) {
        return Err(error);
    }
    Ok((total, generated))
}

/// The counts of an accepted clip, and how many keys each of its tracks gets.
pub struct PreflightedClipWarp {
    /// The counts of the candidate.
    pub counts: FootCycleClipPreflightV1,
    /// The keys of each candidate track, in source order.
    pub track_candidate_keys: Vec<usize>,
}

/// Validates and counts every track of a clip under a valid map.
#[verifier::spinoff_prover]
#[verifier::rlimit(60)]
pub fn preflight(
    input: &Clip,
    points: &[ContactTimeWarpControlPointV1],
    duration: Binary32,
    identity: bool,
) -> (r: Result<PreflightedClipWarp, FootCycleClipWarpError>)
    requires
        operation::valid_map(points@),
    ensures
        match (tracks_refusal(input@, points@, duration, identity), r) {
            (Some(expected), Err(error)) => error == expected,
            (None, Ok(accepted)) => {
                &&& accepted.counts@ == held(
                    counts(input@, points@, duration, identity, input@.tracks.len() as int),
                )
                &&& within_limits(accepted.counts@)
                &&& accepted.track_candidate_keys@.len() == input@.tracks.len()
                &&& forall|i: int|
                    0 <= i < input@.tracks.len() ==> #[trigger] accepted.track_candidate_keys@[i]
                        == generated_keys(input@.tracks[i], points@, duration, identity)
            },
            _ => false,
        },
{
    let mut total: FootCycleClipPreflightV1 = FootCycleClipPreflightV1 {
        tracks: input.tracks.len(),
        input_keys: 0,
        input_values: 0,
        candidate_keys: 0,
        candidate_values: 0,
        name_bytes: input.name.as_str().len(),
        candidate_bytes: 0,
        work: 0,
    };
    if let Err(error) = error::check_limit(
        FootCycleClipResourceV1::Tracks,
        total.tracks,
        FOOT_CYCLE_CLIP_V1_MAX_TRACKS,
    ) {
        return Err(error);
    }
    if let Err(error) = error::check_limit(
        FootCycleClipResourceV1::NameBytes,
        total.name_bytes,
        FOOT_CYCLE_CLIP_V1_MAX_NAME_BYTES,
    ) {
        return Err(error);
    }
    total.candidate_bytes =
    total.name_bytes.saturating_add(item_bytes(total.tracks, core::mem::size_of::<Track>()));
    let mut targets: Targets = Targets::new();
    let mut track_candidate_keys: Vec<usize> = Vec::with_capacity(input.tracks.len());
    for track_index in 0..input.tracks.len()
        invariant
            operation::valid_map(points@),
            input@.tracks.len() == input.tracks@.len(),
            total@ == held(counts(input@, points@, duration, identity, track_index as int)),
            within_limits(total@),
            tracks_refusal(input@, points@, duration, identity) == first_track_refusal(
                input@,
                points@,
                duration,
                identity,
                track_index as int,
            ),
            track_candidate_keys@.len() == track_index,
            forall|i: int|
                0 <= i < track_index ==> #[trigger] track_candidate_keys@[i] == generated_keys(
                    input@.tracks[i],
                    points@,
                    duration,
                    identity,
                ),
            forall|bone: usize, property: Property| #[trigger]
                targets.has(bone, property) == claimed(
                    input@,
                    track_index as int,
                    bone,
                    property,
                ),
    {
        let track: &Track = &input.tracks[track_index];
        assert(input@.tracks[track_index as int] == track@);
        if !targets.claim(track.bone, track.property) {
            return Err(
                FootCycleClipWarpError::DuplicateTrackTarget {
                    track_index,
                    bone: track.bone,
                    property: track.property,
                },
            );
        }
        assert forall|bone: usize, property: Property| #[trigger]
            targets.has(bone, property) == claimed(
                input@,
                track_index + 1,
                bone,
                property,
            ) by {
            lemma_claimed_next(input@, track_index as int, bone, property);
        }
        let ghost before = counts(input@, points@, duration, identity, track_index as int);
        proof {
            lemma_charging_held_counts(
                before,
                track@,
                track_index,
                points@,
                duration,
                identity,
            );
            assert(counts(input@, points@, duration, identity, track_index + 1) == charged(
                before,
                track@,
                points@,
                duration,
                identity,
            ));
            assert(track_refusal(input@, points@, duration, identity, track_index as int)
                == charge_refusal(before, track@, track_index, points@, duration, identity));
        }
        match charge_track(total, track, track_index, points, duration, identity) {
            Ok((after, generated)) => {
                total = after;
                track_candidate_keys.push(generated);
            },
            Err(error) => {
                return Err(error);
            },
        }
    }
    Ok(PreflightedClipWarp { counts: total, track_candidate_keys })
}

} // verus!
