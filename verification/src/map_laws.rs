//! What holds of every valid time map: it keeps both ends, stays within the
//! clip, and resolves its rows in source order.

use crate::binary32::Binary32;
use crate::binary64;
use crate::binary64::Binary64;
use crate::keys;
use crate::keys::CandidateKey;
use crate::keys::CandidateValue;
use crate::model::Interpolation;
use crate::model::TrackView;
use crate::number_laws;
use crate::operation;
use crate::plan::ContactTimeWarpControlPointV1;
use crate::plan::ONE_64;
use crate::rounding;
use crate::row_laws;
use crate::rows;
use crate::rows::FootCycleClipWarpKnotV1;
use crate::rows::FootCycleClipWarpRowV1;
use vstd::arithmetic::power2::*;
use vstd::prelude::*;

verus! {

/// A duration that a clip can have: finite and above zero.
pub open spec fn proper_duration(duration: Binary32) -> bool {
    duration.finite() && duration.place() > 0
}

/// The first row after `x` has only rows at or before `x` before it.
pub proof fn lemma_first_after_bounds(
    points: Seq<ContactTimeWarpControlPointV1>,
    x: Binary64,
    i: int,
)
    requires
        0 <= i <= points.len(),
    ensures
        i <= keys::first_after(points, x, i) <= points.len(),
        keys::first_after(points, x, i) < points.len() ==> !points[keys::first_after(
            points,
            x,
            i,
        )].input.le_number(x),
        forall|j: int|
            i <= j < keys::first_after(points, x, i) ==> (#[trigger] points[j]).input.le_number(x),
    decreases points.len() - i,
{
    if i < points.len() && points[i].input.le_number(x) {
        lemma_first_after_bounds(points, x, i + 1);
    }
}

/// The segment of a number in `[0, 1]` holds it between its two rows.
pub proof fn lemma_segment(points: Seq<ContactTimeWarpControlPointV1>, x: Binary64)
    requires
        operation::valid_map(points),
        number_laws::proper_64(x),
        x.place() <= ONE_64,
    ensures
        1 <= keys::segment(points, x) < points.len(),
        points[keys::segment(points, x) - 1].input.place() <= x.place(),
        x.place() <= points[keys::segment(points, x)].input.place(),
        x.place() == 0 ==> keys::segment(points, x) == 1,
        x.place() == ONE_64 ==> keys::segment(points, x) == points.len() - 1,
{
    lemma_first_after_bounds(points, x, 0);
    let upper = keys::first_after(points, x, 0);
    let last = points.len() - 1;
    assert(points[0].normalized());
    assert(points[0].input.le_number(x));
    assert(points[1].normalized());
    assert(points[last].normalized());
    assert(points[0].input.place() < points[1].input.place());
    if upper < points.len() {
        assert(points[upper].normalized());
        assert(upper <= last ==> points[upper].input.place() <= points[last].input.place());
    } else {
        assert(points[last].input.le_number(x));
        assert(points[last - 1].input.place() < points[last].input.place());
    }
    if x.place() == 0 {
        if upper > 1 {
            assert(points[1].input.le_number(x));
        }
    }
}

/// A number between two rows is mapped into `[0, 1]`; at the first row it is
/// mapped to that row's output, and at the last row of a map to one.
pub proof fn lemma_interpolated(
    left: ContactTimeWarpControlPointV1,
    right: ContactTimeWarpControlPointV1,
    x: Binary64,
)
    requires
        left.normalized(),
        right.normalized(),
        left.input.place() < right.input.place(),
        left.output.place() < right.output.place(),
        number_laws::proper_64(x),
        left.input.place() <= x.place() <= right.input.place(),
    ensures
        number_laws::proper_64(keys::interpolated(left, right, x)),
        keys::interpolated(left, right, x).place() <= ONE_64,
        x.place() == left.input.place() ==> keys::interpolated(left, right, x).place()
            == left.output.place(),
        x.place() == right.input.place() && right.output.place() == ONE_64
            ==> keys::interpolated(left, right, x).place() == ONE_64,
{
    let one = pow2(1074);
    number_laws::lemma_value_of_one();
    let rise = x.difference(left.input);
    let run = right.input.difference(left.input);
    number_laws::lemma_difference(x, left.input);
    number_laws::lemma_difference(right.input, left.input);
    rounding::lemma_value_ordered_weakly(53, x.magnitude(), right.input.magnitude());
    rounding::lemma_value_ordered_weakly(53, right.input.magnitude(), ONE_64 as nat);
    rounding::lemma_value_ordered(53, left.input.magnitude(), right.input.magnitude());
    let rise_exact = (x.value() - left.input.value()) as nat;
    let run_exact = (right.input.value() - left.input.value()) as nat;
    number_laws::lemma_rounded_64_ordered(rise_exact, 1, run_exact, 1);
    lemma_small_number(run_exact);
    number_laws::lemma_rounded_64_exact(one * 1, 1, ONE_64 as nat);
    number_laws::lemma_rounded_64_ordered(run_exact, 1, one, 1);
    number_laws::lemma_rounded_64_zero(1);
    assert(number_laws::proper_64(rise));
    assert(number_laws::proper_64(run) && run.place() > 0);
    let fraction = rise.quotient(run);
    number_laws::lemma_ratio(rise, run);

    let height = right.output.difference(left.output);
    number_laws::lemma_difference(right.output, left.output);
    rounding::lemma_value_ordered_weakly(53, right.output.magnitude(), ONE_64 as nat);
    rounding::lemma_value_ordered(53, left.output.magnitude(), right.output.magnitude());
    let low = left.output.value();
    let height_exact = (right.output.value() - low) as nat;
    let most_exact = (one - low) as nat;
    number_laws::lemma_rounded_64_ordered(height_exact, 1, most_exact, 1);
    number_laws::lemma_rounded_64_ordered(most_exact, 1, one, 1);
    assert(number_laws::proper_64(height));
    let part = fraction.product(height);
    number_laws::lemma_scaled(fraction, height);

    let most = binary64::rounded_64(most_exact, 1);
    number_laws::lemma_completes_to_one(low);
    number_laws::lemma_sum(left.output, part);
    rounding::lemma_value_ordered_weakly(53, part.magnitude(), most);
    number_laws::lemma_rounded_64_ordered(
        low + part.value(),
        1,
        low + rounding::value(53, most),
        1,
    );
    if x.place() == left.input.place() {
        assert(rise_exact == 0);
        assert(part.place() == 0);
        assert(low + part.value() == low * 1);
        number_laws::lemma_rounded_64_exact(low, 1, left.output.magnitude());
    }
    if x.place() == right.input.place() && right.output.place() == ONE_64 {
        assert(rise_exact == run_exact);
        assert(fraction.place() == ONE_64);
        assert(height_exact == most_exact);
        assert(part.magnitude() == most);
    }
}

/// A positive count of smallest units is not rounded to zero.
pub proof fn lemma_small_number(n: nat)
    requires
        n >= 1,
    ensures
        binary64::rounded_64(n, 1) >= 1,
{
    assert(rounding::value(53, 1) == 1) by {
        lemma2_to64_rest();
        rounding::lemma_value_at(53, 0, 1);
    }
    number_laws::lemma_rounded_64_exact(1, 1, 1);
    number_laws::lemma_rounded_64_ordered(1, 1, n, 1);
}

/// A valid map sends every instant of a clip to an instant of the clip. It
/// keeps the start of the clip and its end exactly.
pub proof fn law_map_keeps_clip_and_its_ends(
    source_time: Binary32,
    duration: Binary32,
    points: Seq<ContactTimeWarpControlPointV1>,
)
    requires
        operation::valid_map(points),
        proper_duration(duration),
        number_laws::proper_32(source_time),
        source_time.place() <= duration.place(),
    ensures
        number_laws::proper_32(keys::mapped(source_time, duration, points)),
        keys::mapped(source_time, duration, points).place() <= duration.place(),
        source_time.place() == 0 ==> keys::mapped(source_time, duration, points).place() == 0,
        source_time.place() == duration.place() ==> keys::mapped(
            source_time,
            duration,
            points,
        ).place() == duration.place(),
{
    let wide = duration.widened();
    let source = source_time.widened();
    number_laws::lemma_widened(duration);
    number_laws::lemma_widened(source_time);
    number_laws::law_widening_keeps_order(source_time, duration);
    if source_time.place() == duration.place() {
        number_laws::law_widening_keeps_order(duration, source_time);
    }
    let x = source.quotient(wide);
    number_laws::lemma_ratio(source, wide);
    lemma_segment(points, x);
    let right = keys::segment(points, x);
    assert(points[right - 1].normalized() && points[right].normalized());
    assert(points[right - 1].input.place() < points[right].input.place());
    lemma_interpolated(points[right - 1], points[right], x);
    let y = keys::interpolated(points[right - 1], points[right], x);
    if x.place() == 0 {
        assert(points[0].input.place() == 0 && points[0].output.place() == 0);
        assert(y.place() == 0);
    }
    if x.place() == ONE_64 {
        assert(points[right] == points.last());
        assert(y.place() == ONE_64);
    }
    lemma_scaled_to_clip(y, duration);
}

/// A number in `[0, 1]` scaled by a duration lies within the clip.
proof fn lemma_scaled_to_clip(y: Binary64, duration: Binary32)
    requires
        number_laws::proper_64(y),
        y.place() <= ONE_64,
        proper_duration(duration),
    ensures
        number_laws::proper_32(y.product(duration.widened()).narrowed()),
        y.product(duration.widened()).narrowed().place() <= duration.place(),
        y.place() == 0 ==> y.product(duration.widened()).narrowed().place() == 0,
        y.place() == ONE_64 ==> y.product(duration.widened()).narrowed().place()
            == duration.place(),
{
    let wide = duration.widened();
    number_laws::lemma_widened(duration);
    number_laws::lemma_scaled(y, wide);
    let scaled = y.product(wide);
    number_laws::law_narrowing_keeps_order(scaled, wide);
    number_laws::law_narrowing_undoes_widening(duration);
    number_laws::lemma_narrowed(scaled);
    if y.place() == ONE_64 {
        number_laws::law_narrowing_keeps_order(wide, scaled);
    }
    if y.place() == 0 {
        let zero = Binary32 { bits: 0 };
        number_laws::lemma_widened(zero);
        number_laws::law_narrowing_undoes_widening(zero);
        number_laws::law_narrowing_keeps_order(scaled, zero.widened());
    }
}

/// A valid map is exact at its rows: a source time whose phase is the input of
/// a row is mapped to the output of that row, scaled to the clip and narrowed.
/// Of the first row only the sign of zero may differ.
pub proof fn law_map_is_exact_at_its_rows(
    source_time: Binary32,
    duration: Binary32,
    points: Seq<ContactTimeWarpControlPointV1>,
    i: int,
)
    requires
        operation::valid_map(points),
        proper_duration(duration),
        0 <= i < points.len(),
        source_time.widened().quotient(duration.widened()).eq_number(points[i].input),
    ensures
        keys::mapped(source_time, duration, points).eq_number(
            points[i].output.product(duration.widened()).narrowed(),
        ),
        i > 0 ==> keys::mapped(source_time, duration, points) == points[i].output.product(
            duration.widened(),
        ).narrowed(),
{
    let x = source_time.widened().quotient(duration.widened());
    let last = points.len() - 1;
    assert(points[i].normalized());
    lemma_segment(points, x);
    lemma_first_after_bounds(points, x, 0);
    let upper = keys::first_after(points, x, 0);
    let right = keys::segment(points, x);
    if upper <= i {
        assert(points[upper].normalized());
        assert(points[upper].input.place() <= points[i].input.place());
    }
    if upper > i + 1 {
        assert(points[i + 1].input.le_number(x));
        assert(points[i].input.place() < points[i + 1].input.place());
    }
    assert(points[right - 1].normalized() && points[right].normalized());
    assert(points[right - 1].input.place() < points[right].input.place());
    lemma_interpolated(points[right - 1], points[right], x);
    let y = keys::interpolated(points[right - 1], points[right], x);
    if i == last {
        assert(points[right] == points.last());
    }
    assert(y.place() == points[i].output.place());
    if i > 0 {
        assert(points[0].output.place() < points[i].output.place());
        assert(y == points[i].output);
    }
    lemma_scaled_to_clip(y, duration);
    lemma_scaled_to_clip(points[i].output, duration);
}

/// The end rows of a valid map resolve to the start and the end of the clip.
pub proof fn lemma_end_rows_resolve_to_the_ends(
    points: Seq<ContactTimeWarpControlPointV1>,
    duration: Binary32,
)
    requires
        operation::valid_map(points),
        proper_duration(duration),
    ensures
        rows::resolved(points, duration, 0).source_time.place() == 0,
        rows::resolved(points, duration, points.len() - 1).source_time.place() == duration.place(),
{
    assert(points[0].normalized() && points.last().normalized());
    lemma_scaled_to_clip(points[0].input, duration);
    lemma_scaled_to_clip(points.last().input, duration);
}

/// The phase of an instant of a clip is a number in `[0, 1]`.
pub proof fn lemma_phase_within_one(time: Binary32, duration: Binary32)
    requires
        proper_duration(duration),
        number_laws::proper_32(time),
        time.place() <= duration.place(),
    ensures
        number_laws::proper_64(time.widened().quotient(duration.widened())),
        time.widened().quotient(duration.widened()).place() <= ONE_64,
{
    number_laws::lemma_widened(duration);
    number_laws::lemma_widened(time);
    number_laws::law_widening_keeps_order(time, duration);
    number_laws::lemma_ratio(time.widened(), duration.widened());
}

/// Every row of a valid map resolves to instants of the clip, and later rows
/// resolve to instants that are not earlier.
pub proof fn law_rows_resolve_in_order(
    points: Seq<ContactTimeWarpControlPointV1>,
    duration: Binary32,
    i: int,
    j: int,
)
    requires
        operation::valid_map(points),
        proper_duration(duration),
        0 <= i <= j < points.len(),
    ensures
        number_laws::proper_32(rows::resolved(points, duration, i).source_time),
        number_laws::proper_32(rows::resolved(points, duration, i).output_time),
        rows::resolved(points, duration, j).source_time.le_number(duration),
        rows::resolved(points, duration, j).output_time.le_number(duration),
        rows::resolved(points, duration, i).source_time.le_number(
            rows::resolved(points, duration, j).source_time,
        ),
        rows::resolved(points, duration, i).output_time.le_number(
            rows::resolved(points, duration, j).output_time,
        ),
{
    let wide = duration.widened();
    number_laws::lemma_widened(duration);
    assert(points[i].normalized() && points[j].normalized());
    lemma_scaled_to_clip(points[i].input, duration);
    lemma_scaled_to_clip(points[j].input, duration);
    lemma_scaled_to_clip(points[i].output, duration);
    lemma_scaled_to_clip(points[j].output, duration);
    if i < j {
        assert(points[i].input.place() < points[j].input.place());
        number_laws::lemma_scaling_keeps_order(points[i].input, points[j].input, wide);
        number_laws::lemma_scaling_keeps_order(points[i].output, points[j].output, wide);
        number_laws::lemma_scaled(points[i].input, wide);
        number_laws::lemma_scaled(points[j].input, wide);
        number_laws::lemma_scaled(points[i].output, wide);
        number_laws::lemma_scaled(points[j].output, wide);
        number_laws::law_narrowing_keeps_order(
            points[i].input.product(wide),
            points[j].input.product(wide),
        );
        number_laws::law_narrowing_keeps_order(
            points[i].output.product(wide),
            points[j].output.product(wide),
        );
    }
}

/// The knots of a track come in nondecreasing source order, and lie within the
/// clip in both domains.
pub proof fn law_knots_in_source_order(
    points: Seq<ContactTimeWarpControlPointV1>,
    duration: Binary32,
    track: TrackView,
)
    requires
        operation::valid_map(points),
        proper_duration(duration),
    ensures
        forall|k: int|
            0 <= k < rows::track_knots(points, duration, track).len() ==> {
                let knot = #[trigger] rows::track_knots(points, duration, track)[k];
                &&& number_laws::proper_32(knot.source_time)
                &&& number_laws::proper_32(knot.output_time)
                &&& knot.source_time.place() <= duration.place()
                &&& knot.output_time.place() <= duration.place()
            },
        forall|k: int, l: int|
            0 <= k <= l < rows::track_knots(points, duration, track).len() ==> (
            #[trigger] rows::track_knots(points, duration, track)[k]).source_time.place() <= (
            #[trigger] rows::track_knots(points, duration, track)[l]).source_time.place(),
{
    if track.interpolation == Interpolation::Linear {
        row_laws::lemma_knots_resolved(points, duration, track.start(), track.end(), points.len() - 1);
        let knots = rows::track_knots(points, duration, track);
        assert forall|k: int| 0 <= k < knots.len() implies {
            let knot = #[trigger] knots[k];
            &&& number_laws::proper_32(knot.source_time)
            &&& number_laws::proper_32(knot.output_time)
            &&& knot.source_time.place() <= duration.place()
            &&& knot.output_time.place() <= duration.place()
        } by {
            let i = knots[k].control_point_index as int;
            law_rows_resolve_in_order(points, duration, i, i);
        }
        assert forall|k: int, l: int| 0 <= k <= l < knots.len() implies (
        #[trigger] knots[k]).source_time.place() <= (#[trigger] knots[l]).source_time.place() by {
            law_rows_resolve_in_order(
                points,
                duration,
                knots[k].control_point_index as int,
                knots[l].control_point_index as int,
            );
        }
    }
}

/// A valid map, a proper duration and key times in order: what a merge of keys
/// and knots is made for.
pub open spec fn ready_track(
    points: Seq<ContactTimeWarpControlPointV1>,
    duration: Binary32,
    track: TrackView,
) -> bool {
    &&& operation::valid_map(points)
    &&& proper_duration(duration)
    &&& track.times.len() <= usize::MAX
    &&& forall|i: int| 0 <= i < track.times.len() ==> !(#[trigger] track.times[i]).nan()
    &&& track.times_increase()
}

/// Whether no two knots of a track are one instant.
pub open spec fn knots_apart(
    points: Seq<ContactTimeWarpControlPointV1>,
    duration: Binary32,
    track: TrackView,
) -> bool {
    row_laws::apart(
        rows::track_knots(points, duration, track),
        rows::track_knots(points, duration, track).len() as int,
    )
}

/// Keys and knots of a ready track are in order.
pub proof fn lemma_ready_track(
    points: Seq<ContactTimeWarpControlPointV1>,
    duration: Binary32,
    track: TrackView,
)
    requires
        ready_track(points, duration, track),
    ensures
        row_laws::orderly(track.times, rows::track_knots(points, duration, track)),
{
    law_knots_in_source_order(points, duration, track);
}

/// Where no two knots of a track are one instant, its rows come in strictly
/// increasing source order.
pub proof fn law_rows_in_source_order(
    points: Seq<ContactTimeWarpControlPointV1>,
    duration: Binary32,
    track: TrackView,
    i: int,
    j: int,
)
    requires
        ready_track(points, duration, track),
        knots_apart(points, duration, track),
        0 <= i < j < rows::track_rows(points, duration, track).len(),
    ensures
        row_laws::row_instant(
            track.times,
            rows::track_rows(points, duration, track)[i],
        ).lt_number(
            row_laws::row_instant(track.times, rows::track_rows(points, duration, track)[j]),
        ),
{
    lemma_ready_track(points, duration, track);
    row_laws::lemma_rows_ordered(track.times, rows::track_knots(points, duration, track), i, j);
}

/// Where no two knots of a track are one instant, a knot is emitted as one key
/// together with an authored key it is one instant with, and that is the key
/// it equals if there is one. A knot with a key of its own equals no authored
/// key, and is beside one only if that one is already a single key with the
/// knot on its other side. Either way the key is at the knot's output time; it
/// has the authored value if an authored key is part of it, and is sampled at
/// the knot's source time if none is.
pub proof fn law_coincident_knots_are_one_key(
    points: Seq<ContactTimeWarpControlPointV1>,
    duration: Binary32,
    track: TrackView,
    i: int,
)
    requires
        ready_track(points, duration, track),
        knots_apart(points, duration, track),
        0 <= i < rows::track_rows(points, duration, track).len(),
    ensures
        row_laws::placed_row(track.times, rows::track_rows(points, duration, track), i),
        match rows::track_rows(points, duration, track)[i] {
            FootCycleClipWarpRowV1::Authored(index) => keys::track_keys(
                track,
                points,
                duration,
            )[i] == (CandidateKey {
                output_time: keys::mapped(track.times[index as int], duration, points),
                value: CandidateValue::Authored(index),
            }),
            FootCycleClipWarpRowV1::Knot(knot) => keys::track_keys(track, points, duration)[i] == (
            CandidateKey {
                output_time: knot.output_time,
                value: CandidateValue::Sampled(knot.source_time),
            }),
            FootCycleClipWarpRowV1::Coalesced(index, knot) => keys::track_keys(
                track,
                points,
                duration,
            )[i] == (CandidateKey {
                output_time: knot.output_time,
                value: CandidateValue::Authored(index),
            }),
        },
{
    lemma_ready_track(points, duration, track);
    row_laws::lemma_placed_row(track.times, rows::track_knots(points, duration, track), i);
}

/// A knot with a row of its own lies strictly between the first and the last
/// authored key, where neither its row nor one before it collides.
pub proof fn lemma_own_knot_between_keys(
    points: Seq<ContactTimeWarpControlPointV1>,
    duration: Binary32,
    track: TrackView,
    i: int,
    knot: FootCycleClipWarpKnotV1,
)
    requires
        ready_track(points, duration, track),
        track.times.len() > 0,
        0 <= i < rows::track_rows(points, duration, track).len(),
        rows::track_rows(points, duration, track)[i] == FootCycleClipWarpRowV1::Knot(knot),
        forall|j: int|
            0 <= j <= i ==> !#[trigger] keys::source_collision(
                track.times,
                rows::track_rows(points, duration, track),
                j,
            ),
    ensures
        track.interpolation == Interpolation::Linear,
        track.start().lt_number(knot.source_time),
        knot.source_time.lt_number(track.end()),
{
    let knots = rows::track_knots(points, duration, track);
    lemma_ready_track(points, duration, track);
    row_laws::lemma_faithful_row(track.times, knots, i);
    row_laws::lemma_row_contents(track.times, knots, i);
    assert(track.interpolation == Interpolation::Linear);
    row_laws::law_knots_are_admitted_interior_rows(points, duration, track, knot);
    assert(!knot.source_time.one_instant(track.times[0]));
    assert(!knot.source_time.one_instant(track.times[track.times.len() - 1]));
}

/// Rounding to a normal number is off by at most one part in `2^53`.
pub proof fn lemma_relative_error(num: nat, den: nat, c: nat)
    requires
        den > 0,
        rounding::is_nearest(53, num, den, c),
        c >= rounding::binade(53),
    ensures
        2 * rounding::binade(53) * (num - rounding::value(53, c) * den) <= rounding::value(53, c)
            * den,
        2 * rounding::binade(53) * (rounding::value(53, c) * den - num) <= rounding::value(53, c)
            * den,
{
    let h = rounding::binade(53);
    lemma2_to64_rest();
    rounding::lemma_decompose(53, c);
    rounding::lemma_decompose(53, (c - 1) as nat);
    let e = rounding::exponent(53, c);
    let f = rounding::exponent(53, (c - 1) as nat);
    let m = rounding::significand(53, c);
    let l = rounding::significand(53, (c - 1) as nat);
    let v = rounding::value(53, c);
    assert(c / h >= 1);
    assert((c - 1) / (h as int) <= c as int / (h as int));
    if f < e {
        lemma_pow2_strictly_increases(f, e);
    }
    let g = pow2(e);
    assert((m + 1) * g == m * g + g) by (nonlinear_arith);
    assert((l + 1) * pow2(f) == l * pow2(f) + pow2(f)) by (nonlinear_arith);
    let x = v * den;
    assert((v + rounding::value(53, c + 1)) * den == 2 * x + g * den) by (nonlinear_arith)
        requires
            rounding::value(53, c + 1) == v + g,
            x == v * den,
    ;
    let k = pow2(f);
    assert((rounding::value(53, (c - 1) as nat) + v) * den == 2 * x - k * den) by (nonlinear_arith)
        requires
            rounding::value(53, (c - 1) as nat) == v - k,
            x == v * den,
    ;
    assert(k * den <= g * den) by (nonlinear_arith)
        requires
            k <= g,
    ;
    assert(h * (g * den) <= x) by (nonlinear_arith)
        requires
            x == v * den,
            v == m * g,
            m >= h,
    ;
    let over = num - x;
    assert(2 * h * over <= x) by (nonlinear_arith)
        requires
            2 * over <= g * den,
            h * (g * den) <= x,
            h > 0,
    ;
    assert(2 * h * (x - num) <= x) by (nonlinear_arith)
        requires
            2 * (x - num) <= g * den,
            h * (g * den) <= x,
            h > 0,
    ;
}

/// A binary32 number that is within one part in `2^26` of `t` rounds to `t`.
proof fn lemma_rounds_back(t: nat, num: nat, den: nat)
    requires
        0 < t,
        den > 0,
        0x400_0000 * (num - rounding::value(24, t) * den) < rounding::value(24, t) * den,
        0x400_0000 * (rounding::value(24, t) * den - num) < rounding::value(24, t) * den,
    ensures
        rounding::nearest(24, num, den) == t,
{
    let h = rounding::binade(24);
    lemma2_to64();
    rounding::lemma_decompose(24, t);
    rounding::lemma_decompose(24, (t - 1) as nat);
    let e = rounding::exponent(24, t);
    let f = rounding::exponent(24, (t - 1) as nat);
    let m = rounding::significand(24, t);
    let l = rounding::significand(24, (t - 1) as nat);
    let v = rounding::value(24, t);
    let g = pow2(e);
    let k = pow2(f);
    lemma_pow2_pos(f);
    assert((m + 1) * g == m * g + g) by (nonlinear_arith);
    assert((l + 1) * k == l * k + k) by (nonlinear_arith);
    let x = v * den;
    assert((v + rounding::value(24, t + 1)) * den == 2 * x + g * den) by (nonlinear_arith)
        requires
            rounding::value(24, t + 1) == v + g,
            x == v * den,
    ;
    assert((rounding::value(24, (t - 1) as nat) + v) * den == 2 * x - k * den) by (nonlinear_arith)
        requires
            rounding::value(24, (t - 1) as nat) == v - k,
            x == v * den,
    ;
    // Both gaps are at least the value over 2^25.
    assert(x <= 0x100_0000 * (g * den)) by (nonlinear_arith)
        requires
            x == v * den,
            v == m * g,
            m <= 0x100_0000,
    ;
    assert(x <= 0x100_0000 * (k * den)) by (nonlinear_arith)
        requires
            x == v * den,
            v == (l + 1) * k,
            l + 1 <= 0x100_0000,
    ;
    assert(rounding::is_nearest(24, num, den, t));
    rounding::lemma_nearest_unique(24, num, den, t);
}

/// A binary32 value is below `2^277` of its units.
proof fn lemma_value_32_bound(b: nat)
    requires
        b < crate::binary32::INFINITY_32,
    ensures
        rounding::value(24, b) <= pow2(277),
{
    lemma2_to64();
    let h = rounding::binade(24);
    rounding::lemma_decompose(24, b);
    let e = rounding::exponent(24, b);
    let m = rounding::significand(24, b);
    assert(e <= 253) by {
        assert(b / h <= 254) by (nonlinear_arith)
            requires
                b < 255 * h,
                h > 0,
        ;
    }
    if e < 253 {
        lemma_pow2_strictly_increases(e, 253);
    }
    lemma_pow2_adds(24, 253);
    assert(m * pow2(e) <= pow2(24) * pow2(253)) by (nonlinear_arith)
        requires
            m <= pow2(24),
            pow2(e) <= pow2(253),
    ;
}

/// The phase of a stored time, multiplied out again, is that stored time: a
/// control point made from a key's own phase resolves to the key.
pub proof fn law_phase_of_a_key_resolves_to_the_key(time: Binary32, duration: Binary32)
    requires
        number_laws::proper_32(time),
        proper_duration(duration),
        time.place() <= duration.place(),
    ensures
        time.widened().quotient(duration.widened()).product(
            duration.widened(),
        ).narrowed().eq_number(time),
{
    let s = time.widened();
    let w = duration.widened();
    let q = s.quotient(w);
    let p = q.product(w);
    number_laws::lemma_widened(time);
    number_laws::lemma_widened(duration);
    number_laws::law_widening_keeps_order(time, duration);
    number_laws::lemma_ratio(s, w);
    number_laws::lemma_quotient(s, w);
    lemma_scaled_to_clip(q, duration);
    number_laws::lemma_scaled(q, w);
    number_laws::lemma_product(q, w);
    number_laws::lemma_narrowed(p);
    if time.place() > 0 {
        lemma_round_trip(
            time.magnitude(),
            duration.magnitude(),
            s.value(),
            w.value(),
            q.magnitude(),
            p.magnitude(),
        );
        crate::binary32::lemma_infinity_32();
    }
}

proof fn lemma_round_trip(t: nat, d: nat, s: nat, w: nat, q: nat, p: nat)
    requires
        0 < t <= d < crate::binary32::INFINITY_32,
        s == rounding::value(24, t) * pow2(925),
        w == rounding::value(24, d) * pow2(925),
        q == binary64::rounded_64(s * pow2(1074), w),
        q < binary64::INFINITY_64,
        p == binary64::rounded_64(rounding::value(53, q) * w, pow2(1074)),
        p < binary64::INFINITY_64,
    ensures
        rounding::nearest(24, rounding::value(53, p), pow2(925)) == t,
{
    let h = rounding::binade(53);
    let u = pow2(925);
    let one = pow2(1074);
    lemma2_to64_rest();
    lemma_pow2_pos(925);
    lemma_pow2_pos(1074);
    binary64::lemma_infinity_64();
    rounding::lemma_value_at_least(24, t);
    rounding::lemma_value_at_least(24, d);
    lemma_value_32_bound(d);
    let tv = rounding::value(24, t);
    let dv = rounding::value(24, d);
    assert(s >= u && w >= u && w <= pow2(277) * u) by (nonlinear_arith)
        requires
            s == tv * u,
            w == dv * u,
            1 <= tv,
            1 <= dv <= pow2(277),
            u > 0,
    ;
    // The quotient is a normal number.
    rounding::lemma_value_at(53, 0, h);
    assert(pow2(0) == 1) by {
        lemma2_to64();
    }
    assert(rounding::value(53, h) == h);
    lemma_pow2_adds(52, 277);
    lemma_pow2_strictly_increases(329, 1074);
    assert(h * w <= s * one) by (nonlinear_arith)
        requires
            w <= pow2(277) * u,
            s >= u,
            h * pow2(277) == pow2(329),
            pow2(329) <= one,
            u > 0,
    ;
    number_laws::lemma_rounded_64_exact(h, 1, h);
    number_laws::lemma_rounded_64_ordered(h, 1, s * one, w);
    rounding::lemma_nearest_exists(53, s * one, w);
    lemma_relative_error(s * one, w, q);
    let x = rounding::value(53, q) * w;
    let exact = s * one;
    assert(2 * h * (exact - x) <= x && 2 * h * (x - exact) <= x);
    // The product is a normal number.
    assert(exact <= 2 * x) by (nonlinear_arith)
        requires
            2 * h * (exact - x) <= x,
            h >= 1,
            x >= 0,
    ;
    lemma_pow2_strictly_increases(53, 925);
    assert(2 * h <= u) by {
        lemma_pow2_unfold(53);
    }
    assert(h * one <= x * 1) by (nonlinear_arith)
        requires
            exact <= 2 * x,
            exact == s * one,
            s >= u,
            2 * h <= u,
            one > 0,
    ;
    number_laws::lemma_rounded_64_ordered(h, 1, x, one);
    rounding::lemma_nearest_exists(53, x, one);
    lemma_relative_error(x, one, p);
    let pv = rounding::value(53, p);
    let y = pv * one;
    assert(2 * h * (x - y) <= y && 2 * h * (y - x) <= y);
    // Together they are off by less than one part in 2^26.
    assert(x <= 2 * exact) by (nonlinear_arith)
        requires
            2 * h * (x - exact) <= x,
            h >= 1,
            exact >= 0,
    ;
    assert(y <= 2 * x) by (nonlinear_arith)
        requires
            2 * h * (y - x) <= y,
            h >= 1,
            x >= 0,
    ;
    assert(h == 0x10_0000_0000_0000);
    assert(0x400_0000 * (y - exact) < exact && 0x400_0000 * (exact - y) < exact) by {
        assert(exact > 0) by (nonlinear_arith)
            requires
                exact == s * one,
                s >= u,
                u > 0,
                one > 0,
        ;
    }
    assert(0x400_0000 * (pv - s) < s && 0x400_0000 * (s - pv) < s) by (nonlinear_arith)
        requires
            0x400_0000 * (y - exact) < exact,
            0x400_0000 * (exact - y) < exact,
            y == pv * one,
            exact == s * one,
            one > 0,
    ;
    lemma_rounds_back(t, pv, u);
}

} // verus!
