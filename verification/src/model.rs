//! Format-neutral clips: tracks of keyed values over one interval.

use crate::binary32::Binary32;
use crate::binary64::Binary64;
use vstd::prelude::*;

verus! {

/// The animated property of a bone.
#[derive(Clone, Copy, Debug, PartialEq, Eq, PartialOrd, Ord, Structural)]
pub enum Property {
    /// Position relative to the parent.
    Translation,
    /// Orientation relative to the parent.
    Rotation,
    /// Scale relative to the parent.
    Scale,
}

/// How a track is evaluated between two keys.
#[derive(Clone, Copy, Debug, PartialEq, Eq, Structural)]
pub enum Interpolation {
    /// Straight lines, or the shortest arc for rotations.
    Linear,
    /// Each key holds until the next one.
    Step,
    /// Cubic splines with an in-tangent and an out-tangent per key.
    CubicSpline,
}

/// Three binary32 components.
#[derive(Clone, Copy, Debug, PartialEq, Eq, Structural)]
pub struct Vec3 {
    /// First component.
    pub x: Binary32,
    /// Second component.
    pub y: Binary32,
    /// Third component.
    pub z: Binary32,
}

/// A quaternion of four binary32 components.
#[derive(Clone, Copy, Debug, PartialEq, Eq, Structural)]
pub struct Quat {
    /// First imaginary component.
    pub x: Binary32,
    /// Second imaginary component.
    pub y: Binary32,
    /// Third imaginary component.
    pub z: Binary32,
    /// Real component.
    pub w: Binary32,
}

/// The stored values of a track.
#[derive(Clone, Debug, PartialEq, Eq)]
pub enum TrackValues {
    /// Values of a translation or scale track.
    Vec3s(Vec<Vec3>),
    /// Values of a rotation track.
    Quats(Vec<Quat>),
}

/// One keyed property of one bone.
#[derive(Clone, Debug, PartialEq, Eq)]
pub struct Track {
    /// Index of the animated bone.
    pub bone: usize,
    /// The animated property.
    pub property: Property,
    /// How values between keys are found.
    pub interpolation: Interpolation,
    /// Key times in seconds.
    pub times: Vec<Binary32>,
    /// One value per key, or in-tangent, value and out-tangent per key of a
    /// cubic spline.
    pub values: TrackValues,
}

/// A named clip.
#[derive(Clone, Debug, PartialEq, Eq)]
pub struct Clip {
    /// Clip name.
    pub name: String,
    /// Duration in seconds.
    pub duration_s: Binary64,
    /// Tracks in source order.
    pub tracks: Vec<Track>,
}

/// One value of a track at one instant.
#[derive(Clone, Copy, Debug, PartialEq, Eq, Structural)]
pub enum TrackSample {
    /// A translation or scale.
    Vec3(Vec3),
    /// A rotation.
    Quat(Quat),
}

/// How a track breaks the structural track contract.
#[derive(Clone, Copy, Debug, PartialEq, Eq, Structural)]
pub enum TrackShapeViolation {
    /// The track has no key.
    EmptyTimes,
    /// A key time is not finite.
    NonFiniteTime,
    /// The key times do not strictly increase.
    TimesNotStrictlyIncreasing,
    /// The kind of the values is not that of the property.
    ValueTypeMismatchesProperty,
    /// The number of values does not fit the number of keys.
    ValueCountMismatch,
    /// A stored component is not finite.
    NonFiniteValue,
}

/// A structural failure in a document of clips.
#[derive(Clone, Copy, Debug, PartialEq, Eq, Structural)]
pub enum DocumentShapeError {
    /// A track breaks the structural track contract.
    TrackShape {
        /// Index of the clip.
        clip_index: usize,
        /// Index of the animated bone.
        node: usize,
        /// What is wrong.
        violation: TrackShapeViolation,
    },
}

/// The mathematical content of stored values.
#[verifier::ext_equal]
pub enum ValuesView {
    /// Values of a translation or scale track.
    Vec3s(Seq<Vec3>),
    /// Values of a rotation track.
    Quats(Seq<Quat>),
}

/// The mathematical content of a track.
#[verifier::ext_equal]
pub struct TrackView {
    /// Index of the animated bone.
    pub bone: usize,
    /// The animated property.
    pub property: Property,
    /// How values between keys are found.
    pub interpolation: Interpolation,
    /// Key times.
    pub times: Seq<Binary32>,
    /// Stored values.
    pub values: ValuesView,
}

/// The mathematical content of a clip.
#[verifier::ext_equal]
pub struct ClipView {
    /// Clip name.
    pub name: Seq<char>,
    /// Duration in seconds.
    pub duration_s: Binary64,
    /// Tracks in source order.
    pub tracks: Seq<TrackView>,
}

impl View for TrackValues {
    type V = ValuesView;

    open spec fn view(&self) -> ValuesView {
        match self {
            TrackValues::Vec3s(values) => ValuesView::Vec3s(values@),
            TrackValues::Quats(values) => ValuesView::Quats(values@),
        }
    }
}

impl View for Track {
    type V = TrackView;

    open spec fn view(&self) -> TrackView {
        TrackView {
            bone: self.bone,
            property: self.property,
            interpolation: self.interpolation,
            times: self.times@,
            values: self.values@,
        }
    }
}

impl View for Clip {
    type V = ClipView;

    open spec fn view(&self) -> ClipView {
        ClipView {
            name: self.name@,
            duration_s: self.duration_s,
            tracks: Seq::new(self.tracks@.len(), |i: int| self.tracks@[i]@),
        }
    }
}

impl ClipView {
    /// UTF-8 bytes of the clip name.
    pub open spec fn name_bytes(self) -> usize {
        vstd::utf8::encode_utf8(self.name).len() as usize
    }
}

impl Vec3 {
    /// Whether every component is finite.
    pub open spec fn finite(self) -> bool {
        self.x.finite() && self.y.finite() && self.z.finite()
    }

    /// Whether every component is a zero of either sign.
    pub open spec fn zero(self) -> bool {
        self.x.magnitude() == 0 && self.y.magnitude() == 0 && self.z.magnitude() == 0
    }

    /// Whether every component is finite.
    pub fn is_finite(self) -> (r: bool)
        ensures
            r == self.finite(),
    {
        self.x.is_finite() && self.y.is_finite() && self.z.is_finite()
    }

    /// Whether every component equals zero.
    pub fn is_zero(self) -> (r: bool)
        ensures
            r == self.zero(),
    {
        let zero: Binary32 = Binary32 { bits: 0 };
        self.x.equals(zero) && self.y.equals(zero) && self.z.equals(zero)
    }
}

impl Quat {
    /// Whether every component is finite.
    pub open spec fn finite(self) -> bool {
        self.x.finite() && self.y.finite() && self.z.finite() && self.w.finite()
    }

    /// Whether every component is a zero of either sign.
    pub open spec fn zero(self) -> bool {
        self.x.magnitude() == 0 && self.y.magnitude() == 0 && self.z.magnitude() == 0
            && self.w.magnitude() == 0
    }

    /// The squared length, with the products summed as `(xx + zz) + (yy + ww)`
    /// and every operation correctly rounded.
    pub open spec fn squared_length(self) -> Binary32 {
        let xz = self.x.product(self.x).sum(self.z.product(self.z));
        let yw = self.y.product(self.y).sum(self.w.product(self.w));
        xz.sum(yw)
    }

    /// Whether the squared length is finite and positive.
    pub open spec fn normalizable(self) -> bool {
        self.squared_length().finite() && self.squared_length().place() > 0
    }

    /// Whether every component is finite.
    pub fn is_finite(self) -> (r: bool)
        ensures
            r == self.finite(),
    {
        self.x.is_finite() && self.y.is_finite() && self.z.is_finite() && self.w.is_finite()
    }

    /// Whether every component equals zero.
    pub fn is_zero(self) -> (r: bool)
        ensures
            r == self.zero(),
    {
        let zero: Binary32 = Binary32 { bits: 0 };
        self.x.equals(zero) && self.y.equals(zero) && self.z.equals(zero) && self.w.equals(zero)
    }

    /// The squared length.
    pub fn length_squared(self) -> (r: Binary32)
        ensures
            r == self.squared_length(),
    {
        let xz: Binary32 = self.x.times(self.x).plus(self.z.times(self.z));
        let yw: Binary32 = self.y.times(self.y).plus(self.w.times(self.w));
        xz.plus(yw)
    }
}

/// Whether every component of every vector is finite.
pub open spec fn finite_vec3s(values: Seq<Vec3>) -> bool {
    forall|i: int| 0 <= i < values.len() ==> (#[trigger] values[i]).finite()
}

/// Whether every component of every quaternion is finite.
pub open spec fn finite_quats(values: Seq<Quat>) -> bool {
    forall|i: int| 0 <= i < values.len() ==> (#[trigger] values[i]).finite()
}

impl ValuesView {
    /// Number of stored values.
    pub open spec fn len(self) -> nat {
        match self {
            ValuesView::Vec3s(values) => values.len(),
            ValuesView::Quats(values) => values.len(),
        }
    }

    /// Whether the values are of the kind that `property` has.
    pub open spec fn fits(self, property: Property) -> bool {
        self is Quats <==> property == Property::Rotation
    }

    /// Whether every stored component is finite.
    pub open spec fn finite(self) -> bool {
        match self {
            ValuesView::Vec3s(values) => finite_vec3s(values),
            ValuesView::Quats(values) => finite_quats(values),
        }
    }

    /// The stored value at index `i`.
    pub open spec fn sample(self, i: int) -> TrackSample {
        match self {
            ValuesView::Vec3s(values) => TrackSample::Vec3(values[i]),
            ValuesView::Quats(values) => TrackSample::Quat(values[i]),
        }
    }
}

impl TrackSample {
    /// Whether the sample is of the kind of `values`.
    pub open spec fn fits(self, values: ValuesView) -> bool {
        self is Quat <==> values is Quats
    }

    /// Whether every component is finite.
    pub open spec fn finite(self) -> bool {
        match self {
            TrackSample::Vec3(value) => value.finite(),
            TrackSample::Quat(value) => value.finite(),
        }
    }

    /// Whether every component is a zero of either sign.
    pub open spec fn zero(self) -> bool {
        match self {
            TrackSample::Vec3(value) => value.zero(),
            TrackSample::Quat(value) => value.zero(),
        }
    }
}

impl TrackView {
    /// The first key time, or zero without keys.
    pub open spec fn start(self) -> Binary32 {
        if self.times.len() == 0 {
            Binary32 { bits: 0 }
        } else {
            self.times[0]
        }
    }

    /// The last key time, or zero without keys.
    pub open spec fn end(self) -> Binary32 {
        if self.times.len() == 0 {
            Binary32 { bits: 0 }
        } else {
            self.times.last()
        }
    }

    /// Where the value of a key is stored.
    pub open spec fn value_at(self, key: int) -> int {
        if self.interpolation == Interpolation::CubicSpline {
            3 * key + 1
        } else {
            key
        }
    }

    /// How many values the keys ask for.
    pub open spec fn wanted_values(self) -> nat {
        if self.interpolation == Interpolation::CubicSpline {
            3 * self.times.len()
        } else {
            self.times.len()
        }
    }

    /// Whether every key time is finite.
    pub open spec fn times_finite(self) -> bool {
        forall|i: int| 0 <= i < self.times.len() ==> (#[trigger] self.times[i]).finite()
    }

    /// Whether the key times strictly increase.
    pub open spec fn times_increase(self) -> bool {
        forall|i: int, j: int|
            0 <= i < j < self.times.len() ==> (#[trigger] self.times[i]).lt_number(
                #[trigger] self.times[j],
            )
    }

    /// The first rule of the structural track contract that the track breaks.
    pub open spec fn shape_violation(self) -> Option<TrackShapeViolation> {
        if self.times.len() == 0 {
            Some(TrackShapeViolation::EmptyTimes)
        } else if !self.times_finite() {
            Some(TrackShapeViolation::NonFiniteTime)
        } else if !self.times_increase() {
            Some(TrackShapeViolation::TimesNotStrictlyIncreasing)
        } else if !self.values.fits(self.property) {
            Some(TrackShapeViolation::ValueTypeMismatchesProperty)
        } else if self.values.len() != self.wanted_values() {
            Some(TrackShapeViolation::ValueCountMismatch)
        } else if !self.values.finite() {
            Some(TrackShapeViolation::NonFiniteValue)
        } else {
            None
        }
    }
}

fn vec3s_finite(values: &Vec<Vec3>) -> (r: bool)
    ensures
        r == finite_vec3s(values@),
{
    for i in 0..values.len()
        invariant
            forall|j: int| 0 <= j < i ==> (#[trigger] values@[j]).finite(),
    {
        if !values[i].is_finite() {
            return false;
        }
    }
    true
}

fn quats_finite(values: &Vec<Quat>) -> (r: bool)
    ensures
        r == finite_quats(values@),
{
    for i in 0..values.len()
        invariant
            forall|j: int| 0 <= j < i ==> (#[trigger] values@[j]).finite(),
    {
        if !values[i].is_finite() {
            return false;
        }
    }
    true
}

impl TrackValues {
    /// Number of stored values.
    pub fn len(&self) -> (r: usize)
        ensures
            r == self@.len(),
    {
        match self {
            TrackValues::Vec3s(values) => values.len(),
            TrackValues::Quats(values) => values.len(),
        }
    }

    fn all_finite(&self) -> (r: bool)
        ensures
            r == self@.finite(),
    {
        match self {
            TrackValues::Vec3s(values) => vec3s_finite(values),
            TrackValues::Quats(values) => quats_finite(values),
        }
    }

    /// A copy with the same contents.
    pub fn copied(&self) -> (r: TrackValues)
        ensures
            r@ == self@,
    {
        match self {
            TrackValues::Vec3s(values) => {
                let mut copy: Vec<Vec3> = Vec::with_capacity(values.len());
                for i in 0..values.len()
                    invariant
                        copy@ == values@.take(i as int),
                {
                    copy.push(values[i]);
                    assert(values@.take(i + 1) == values@.take(i as int).push(values@[i as int]));
                }
                assert(values@.take(values@.len() as int) == values@);
                TrackValues::Vec3s(copy)
            },
            TrackValues::Quats(values) => {
                let mut copy: Vec<Quat> = Vec::with_capacity(values.len());
                for i in 0..values.len()
                    invariant
                        copy@ == values@.take(i as int),
                {
                    copy.push(values[i]);
                    assert(values@.take(i + 1) == values@.take(i as int).push(values@[i as int]));
                }
                assert(values@.take(values@.len() as int) == values@);
                TrackValues::Quats(copy)
            },
        }
    }
}

impl Track {
    /// The first key time, or zero without keys.
    pub fn start_time(&self) -> (r: Binary32)
        ensures
            r == self@.start(),
    {
        if self.times.len() == 0 {
            Binary32 { bits: 0 }
        } else {
            self.times[0]
        }
    }

    /// The last key time, or zero without keys.
    pub fn end_time(&self) -> (r: Binary32)
        ensures
            r == self@.end(),
    {
        if self.times.len() == 0 {
            Binary32 { bits: 0 }
        } else {
            self.times[self.times.len() - 1]
        }
    }

    /// Where the value of a key is stored.
    pub fn value_index(&self, key: usize) -> (r: usize)
        requires
            self@.value_at(key as int) <= usize::MAX,
        ensures
            r == self@.value_at(key as int),
    {
        if self.interpolation == Interpolation::CubicSpline {
            3 * key + 1
        } else {
            key
        }
    }

    /// A copy with the same contents.
    pub fn copied(&self) -> (r: Track)
        ensures
            r@ == self@,
    {
        let mut times: Vec<Binary32> = Vec::with_capacity(self.times.len());
        for i in 0..self.times.len()
            invariant
                times@ == self.times@.take(i as int),
        {
            times.push(self.times[i]);
            assert(self.times@.take(i + 1) == self.times@.take(i as int).push(
                self.times@[i as int],
            ));
        }
        assert(self.times@.take(self.times@.len() as int) == self.times@);
        Track {
            bone: self.bone,
            property: self.property,
            interpolation: self.interpolation,
            times,
            values: self.values.copied(),
        }
    }

    fn all_times_finite(&self) -> (r: bool)
        ensures
            r == self@.times_finite(),
    {
        for i in 0..self.times.len()
            invariant
                forall|j: int| 0 <= j < i ==> (#[trigger] self@.times[j]).finite(),
        {
            if !self.times[i].is_finite() {
                assert(!self@.times[i as int].finite());
                return false;
            }
        }
        true
    }

    fn all_times_increase(&self) -> (r: bool)
        requires
            self@.times_finite(),
        ensures
            r == self@.times_increase(),
    {
        if self.times.len() == 0 {
            return true;
        }
        for i in 1..self.times.len()
            invariant
                self.times@.len() >= 1,
                self@.times_finite(),
                forall|j: int, k: int|
                    0 <= j < k < i ==> (#[trigger] self@.times[j]).lt_number(
                        #[trigger] self@.times[k],
                    ),
        {
            if !self.times[i - 1].less_than(self.times[i]) {
                assert(!self@.times[i - 1].lt_number(self@.times[i as int]));
                return false;
            }
            assert forall|j: int, k: int| 0 <= j < k < i + 1 implies (
            #[trigger] self@.times[j]).lt_number(#[trigger] self@.times[k]) by {
                if k == i && j < i - 1 {
                    assert(self@.times[j].lt_number(self@.times[i - 1]));
                }
            }
        }
        true
    }
}

impl Clip {
    /// A copy with the same contents.
    pub fn copied(&self) -> (r: Clip)
        ensures
            r@ == self@,
    {
        let mut tracks: Vec<Track> = Vec::with_capacity(self.tracks.len());
        for i in 0..self.tracks.len()
            invariant
                tracks@.len() == i,
                forall|j: int| 0 <= j < i ==> (#[trigger] tracks@[j])@ == self.tracks@[j]@,
        {
            tracks.push(self.tracks[i].copied());
        }
        let copy: Clip = Clip {
            name: self.name.clone(),
            duration_s: self.duration_s,
            tracks,
        };
        assert(copy@.tracks == self@.tracks);
        copy
    }
}

/// Holds one track of clip `clip_index` against the structural track contract.
pub fn validate_track_shape(clip_index: usize, track: &Track) -> (r: Result<
    (),
    DocumentShapeError,
>)
    ensures
        r == match track@.shape_violation() {
            Some(violation) => Err(
                DocumentShapeError::TrackShape { clip_index, node: track.bone, violation },
            ),
            None => Ok(()),
        },
{
    let violation: TrackShapeViolation = if track.times.len() == 0 {
        TrackShapeViolation::EmptyTimes
    } else if !track.all_times_finite() {
        TrackShapeViolation::NonFiniteTime
    } else if !track.all_times_increase() {
        TrackShapeViolation::TimesNotStrictlyIncreasing
    } else {
        let rotation: bool = track.property == Property::Rotation;
        let quats: bool = match &track.values {
            TrackValues::Vec3s(_) => false,
            TrackValues::Quats(_) => true,
        };
        let stored: usize = track.values.len();
        let counted: bool = if track.interpolation == Interpolation::CubicSpline {
            stored % 3 == 0 && stored / 3 == track.times.len()
        } else {
            stored == track.times.len()
        };
        if quats != rotation {
            TrackShapeViolation::ValueTypeMismatchesProperty
        } else if !counted {
            TrackShapeViolation::ValueCountMismatch
        } else if !track.values.all_finite() {
            TrackShapeViolation::NonFiniteValue
        } else {
            return Ok(());
        }
    };
    Err(DocumentShapeError::TrackShape { clip_index, node: track.bone, violation })
}

} // verus!
