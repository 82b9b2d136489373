//! What holds of every row sequence: nothing is lost, and rows come in source
//! order.

use crate::binary32::Binary32;
use crate::keys;
use crate::model::Interpolation;
use crate::model::TrackView;
use crate::plan::ContactTimeWarpControlPointV1;
use crate::rows;
use crate::rows::FootCycleClipWarpKnotV1;
use crate::rows::FootCycleClipWarpRowV1;
use vstd::prelude::*;

verus! {

/// The authored keys that rows name, in row order.
pub open spec fn authored_in(rows: Seq<FootCycleClipWarpRowV1>) -> Seq<usize>
    decreases rows.len(),
{
    if rows.len() == 0 {
        Seq::empty()
    } else {
        let rest = authored_in(rows.drop_first());
        match rows[0] {
            FootCycleClipWarpRowV1::Authored(index) => seq![index] + rest,
            FootCycleClipWarpRowV1::Knot(_) => rest,
            FootCycleClipWarpRowV1::Coalesced(index, _) => seq![index] + rest,
        }
    }
}

/// The knots that rows name, in row order.
pub open spec fn knots_in(rows: Seq<FootCycleClipWarpRowV1>) -> Seq<FootCycleClipWarpKnotV1>
    decreases rows.len(),
{
    if rows.len() == 0 {
        Seq::empty()
    } else {
        let rest = knots_in(rows.drop_first());
        match rows[0] {
            FootCycleClipWarpRowV1::Authored(_) => rest,
            FootCycleClipWarpRowV1::Knot(knot) => seq![knot] + rest,
            FootCycleClipWarpRowV1::Coalesced(_, knot) => seq![knot] + rest,
        }
    }
}

proof fn lemma_merge_keeps_all(
    times: Seq<Binary32>,
    a: int,
    knots: Seq<FootCycleClipWarpKnotV1>,
    k: int,
)
    requires
        0 <= a <= times.len() <= usize::MAX,
        0 <= k <= knots.len(),
    ensures
        authored_in(rows::merged(times, a, knots, k)) == Seq::new(
            (times.len() - a) as nat,
            |i: int| (a + i) as usize,
        ),
        knots_in(rows::merged(times, a, knots, k)) == knots.skip(k),
    decreases (times.len() - a) + (knots.len() - k),
{
    let all = rows::merged(times, a, knots, k);
    if k == knots.len() && a == times.len() {
    } else if k == knots.len() || (a < times.len() && !rows::binds(times, a, knots[k])
        && times[a].lt_number(knots[k].source_time)) {
        lemma_merge_keeps_all(times, a + 1, knots, k);
        assert(all.drop_first() == rows::merged(times, a + 1, knots, k));
    } else if a < times.len() && rows::binds(times, a, knots[k]) {
        lemma_merge_keeps_all(times, a + 1, knots, k + 1);
        assert(all.drop_first() == rows::merged(times, a + 1, knots, k + 1));
        assert(seq![knots[k]] + knots.skip(k + 1) == knots.skip(k));
    } else {
        lemma_merge_keeps_all(times, a, knots, k + 1);
        assert(all.drop_first() == rows::merged(times, a, knots, k + 1));
        assert(seq![knots[k]] + knots.skip(k + 1) == knots.skip(k));
    }
}

/// The rows of a track name every authored key exactly once and every knot
/// exactly once, each in its own order: coalescing never removes a key.
pub proof fn law_rows_keep_every_key_and_knot(
    points: Seq<ContactTimeWarpControlPointV1>,
    duration: Binary32,
    track: TrackView,
)
    requires
        track.times.len() <= usize::MAX,
    ensures
        authored_in(rows::track_rows(points, duration, track)) == Seq::new(
            track.times.len(),
            |i: int| i as usize,
        ),
        knots_in(rows::track_rows(points, duration, track)) == rows::track_knots(
            points,
            duration,
            track,
        ),
{
    let knots = rows::track_knots(points, duration, track);
    lemma_merge_keeps_all(track.times, 0, knots, 0);
    assert(knots.skip(0) == knots);
}

proof fn lemma_merge_without_knots(
    times: Seq<Binary32>,
    a: int,
    knots: Seq<FootCycleClipWarpKnotV1>,
)
    requires
        0 <= a <= times.len() <= usize::MAX,
        knots.len() == 0,
    ensures
        rows::merged(times, a, knots, 0) == Seq::new(
            (times.len() - a) as nat,
            |i: int| FootCycleClipWarpRowV1::Authored((a + i) as usize),
        ),
    decreases times.len() - a,
{
    if a < times.len() {
        lemma_merge_without_knots(times, a + 1, knots);
    }
}

/// A track that is not linear emits its authored keys and nothing else.
pub proof fn law_only_linear_tracks_have_knots(
    points: Seq<ContactTimeWarpControlPointV1>,
    duration: Binary32,
    track: TrackView,
)
    requires
        track.times.len() <= usize::MAX,
        track.interpolation != Interpolation::Linear,
    ensures
        rows::track_rows(points, duration, track) == Seq::new(
            track.times.len(),
            |i: int| FootCycleClipWarpRowV1::Authored(i as usize),
        ),
{
    lemma_merge_without_knots(track.times, 0, rows::track_knots(points, duration, track));
}

/// The knots before a row are the admitted interior rows, in map order.
pub proof fn lemma_knots_resolved(
    points: Seq<ContactTimeWarpControlPointV1>,
    duration: Binary32,
    start: Binary32,
    end: Binary32,
    n: int,
)
    requires
        n <= points.len() <= usize::MAX,
    ensures
        forall|j: int|
            0 <= j < rows::knots_before(points, duration, start, end, n).len() ==> {
                let knot = #[trigger] rows::knots_before(points, duration, start, end, n)[j];
                &&& 1 <= knot.control_point_index < n
                &&& knot == rows::resolved(points, duration, knot.control_point_index as int)
                &&& knot.admitted(duration, start, end)
            },
        forall|j: int, l: int|
            0 <= j < l < rows::knots_before(points, duration, start, end, n).len() ==> (
            #[trigger] rows::knots_before(points, duration, start, end, n)[j]).control_point_index
                < (#[trigger] rows::knots_before(
                points,
                duration,
                start,
                end,
                n,
            )[l]).control_point_index,
        forall|i: int|
            1 <= i < n && (#[trigger] rows::resolved(points, duration, i)).admitted(
                duration,
                start,
                end,
            ) ==> rows::knots_before(points, duration, start, end, n).contains(
                rows::resolved(points, duration, i),
            ),
    decreases n,
{
    if n > 1 {
        lemma_knots_resolved(points, duration, start, end, n - 1);
        let before = rows::knots_before(points, duration, start, end, n - 1);
        let now = rows::knots_before(points, duration, start, end, n);
        assert forall|i: int|
            1 <= i < n && (#[trigger] rows::resolved(points, duration, i)).admitted(
                duration,
                start,
                end,
            ) implies now.contains(rows::resolved(points, duration, i)) by {
            if i < n - 1 {
                let j = choose|j: int|
                    0 <= j < before.len() && before[j] == rows::resolved(points, duration, i);
                assert(now[j] == before[j]);
            } else {
                assert(now[before.len() as int] == rows::resolved(points, duration, i));
            }
        }
    }
}

/// The knots of a linear track are exactly the interior rows of the map that
/// its span admits. None of them is one instant with a source endpoint.
pub proof fn law_knots_are_admitted_interior_rows(
    points: Seq<ContactTimeWarpControlPointV1>,
    duration: Binary32,
    track: TrackView,
    knot: FootCycleClipWarpKnotV1,
)
    requires
        points.len() <= usize::MAX,
        track.interpolation == Interpolation::Linear,
    ensures
        rows::track_knots(points, duration, track).contains(knot) <==> {
            &&& 1 <= knot.control_point_index < points.len() - 1
            &&& knot == rows::resolved(points, duration, knot.control_point_index as int)
            &&& knot.admitted(duration, track.start(), track.end())
        },
        rows::track_knots(points, duration, track).contains(knot)
            ==> !knot.source_time.one_instant(Binary32 { bits: 0 })
            && !knot.source_time.one_instant(duration),
{
    lemma_knots_resolved(points, duration, track.start(), track.end(), points.len() - 1);
    let knots = rows::track_knots(points, duration, track);
    if knots.contains(knot) {
        let j = choose|j: int| 0 <= j < knots.len() && knots[j] == knot;
        assert(knots[j] == knot);
    }
}

/// Two instants are one exactly when they are equal or neighbours, in either
/// order, and then no number lies strictly between them.
pub proof fn law_one_instant_is_adjacency(a: Binary32, b: Binary32)
    ensures
        a.one_instant(b) == b.one_instant(a),
        a.one_instant(b) <==> a.eq_number(b) || a.successor().eq_number(b)
            || b.successor().eq_number(a),
        a.one_instant(b) ==> forall|c: Binary32| !(a.lt_number(c) && c.lt_number(b)),
{
}

/// Key times that strictly increase, and knots in nondecreasing source order.
pub open spec fn orderly(times: Seq<Binary32>, knots: Seq<FootCycleClipWarpKnotV1>) -> bool {
    &&& times.len() <= usize::MAX
    &&& forall|i: int| 0 <= i < times.len() ==> !(#[trigger] times[i]).nan()
    &&& forall|i: int, j: int|
        0 <= i < j < times.len() ==> (#[trigger] times[i]).place() < (#[trigger] times[j]).place()
    &&& forall|i: int| 0 <= i < knots.len() ==> !(#[trigger] knots[i]).source_time.nan()
    &&& forall|i: int, j: int|
        0 <= i <= j < knots.len() ==> (#[trigger] knots[i]).source_time.place() <= (
        #[trigger] knots[j]).source_time.place()
}

/// The instant of a row: the authored key's time if it names one, else the
/// knot's.
pub open spec fn row_instant(times: Seq<Binary32>, row: FootCycleClipWarpRowV1) -> Binary32 {
    match row {
        FootCycleClipWarpRowV1::Authored(index) => times[index as int],
        FootCycleClipWarpRowV1::Knot(knot) => knot.source_time,
        FootCycleClipWarpRowV1::Coalesced(index, _) => times[index as int],
    }
}

/// How many authored keys and knots the first `i` rows name.
spec fn consumed(rows: Seq<FootCycleClipWarpRowV1>, i: int) -> (int, int)
    decreases i,
{
    if i <= 0 {
        (0, 0)
    } else {
        let (a, k) = consumed(rows, i - 1);
        match rows[i - 1] {
            FootCycleClipWarpRowV1::Authored(_) => (a + 1, k),
            FootCycleClipWarpRowV1::Knot(_) => (a, k + 1),
            FootCycleClipWarpRowV1::Coalesced(_, _) => (a + 1, k + 1),
        }
    }
}

/// The rest of a merge is the merge of the rest.
proof fn lemma_rest_of_merge(
    times: Seq<Binary32>,
    knots: Seq<FootCycleClipWarpKnotV1>,
    i: int,
)
    requires
        times.len() <= usize::MAX,
        0 <= i <= rows::merged(times, 0, knots, 0).len(),
    ensures
        ({
            let all = rows::merged(times, 0, knots, 0);
            let (a, k) = consumed(all, i);
            &&& 0 <= a <= times.len()
            &&& 0 <= k <= knots.len()
            &&& all.skip(i) == rows::merged(times, a, knots, k)
        }),
    decreases i,
{
    let all = rows::merged(times, 0, knots, 0);
    if i == 0 {
        assert(all.skip(0) == all);
    } else {
        lemma_rest_of_merge(times, knots, i - 1);
        let (a, k) = consumed(all, i - 1);
        let rest = rows::merged(times, a, knots, k);
        assert(rest.len() > 0);
        assert(all[i - 1] == all.skip(i - 1)[0]);
        assert(all.skip(i) == all.skip(i - 1).drop_first());
        if k == knots.len() || (a < times.len() && !rows::binds(times, a, knots[k])
            && times[a].lt_number(knots[k].source_time)) {
            assert(rest.drop_first() == rows::merged(times, a + 1, knots, k));
        } else if a < times.len() && rows::binds(times, a, knots[k]) {
            assert(rest.drop_first() == rows::merged(times, a + 1, knots, k + 1));
        } else {
            assert(rest.drop_first() == rows::merged(times, a, knots, k + 1));
        }
    }
}

/// What the row after the first `i` rows is, and what holds there.
proof fn lemma_row_at(times: Seq<Binary32>, knots: Seq<FootCycleClipWarpKnotV1>, i: int)
    requires
        times.len() <= usize::MAX,
        0 <= i < rows::merged(times, 0, knots, 0).len(),
    ensures
        ({
            let all = rows::merged(times, 0, knots, 0);
            let (a, k) = consumed(all, i);
            &&& 0 <= a <= times.len()
            &&& 0 <= k <= knots.len()
            &&& match all[i] {
                FootCycleClipWarpRowV1::Authored(index) => {
                    &&& index == a < times.len()
                    &&& k == knots.len() || (!rows::binds(times, a, knots[k])
                        && times[a].lt_number(knots[k].source_time))
                },
                FootCycleClipWarpRowV1::Coalesced(index, knot) => {
                    &&& index == a < times.len()
                    &&& k < knots.len() && knot == knots[k]
                    &&& rows::binds(times, a, knot)
                },
                FootCycleClipWarpRowV1::Knot(knot) => {
                    &&& k < knots.len() && knot == knots[k]
                    &&& a < times.len() ==> !rows::binds(times, a, knot) && !times[a].lt_number(
                        knot.source_time,
                    )
                },
            }
        }),
{
    let all = rows::merged(times, 0, knots, 0);
    lemma_rest_of_merge(times, knots, i);
    assert(all[i] == all.skip(i)[0]);
}

/// What a row names comes from the keys and the knots that were merged.
pub proof fn lemma_row_contents(
    times: Seq<Binary32>,
    knots: Seq<FootCycleClipWarpKnotV1>,
    i: int,
)
    requires
        times.len() <= usize::MAX,
        0 <= i < rows::merged(times, 0, knots, 0).len(),
    ensures
        match rows::merged(times, 0, knots, 0)[i] {
            FootCycleClipWarpRowV1::Authored(index) => index < times.len(),
            FootCycleClipWarpRowV1::Knot(knot) => knots.contains(knot),
            FootCycleClipWarpRowV1::Coalesced(index, knot) => index < times.len()
                && knots.contains(knot),
        },
{
    lemma_row_at(times, knots, i);
    let k = consumed(rows::merged(times, 0, knots, 0), i).1;
    if k < knots.len() {
        assert(knots.contains(knots[k]));
    }
}

/// Whether no row names an instant that the knot named before it names too.
pub open spec fn distinct_knots(times: Seq<Binary32>, rows: Seq<FootCycleClipWarpRowV1>) -> bool {
    forall|i: int| 0 <= i < rows.len() ==> !#[trigger] keys::source_collision(times, rows, i)
}

/// Whether no two of the first `m` knots are one instant.
pub open spec fn apart(knots: Seq<FootCycleClipWarpKnotV1>, m: int) -> bool {
    forall|k: int, l: int|
        0 <= k < l < m ==> !(#[trigger] knots[l]).source_time.one_instant(
            (#[trigger] knots[k]).source_time,
        )
}

/// Rows count on from the rows before them.
proof fn lemma_consumed_next(rows: Seq<FootCycleClipWarpRowV1>, i: int)
    requires
        0 <= i,
    ensures
        consumed(rows, i + 1) == match rows[i] {
            FootCycleClipWarpRowV1::Authored(_) => (consumed(rows, i).0 + 1, consumed(rows, i).1),
            FootCycleClipWarpRowV1::Knot(_) => (consumed(rows, i).0, consumed(rows, i).1 + 1),
            FootCycleClipWarpRowV1::Coalesced(_, _) => (
                consumed(rows, i).0 + 1,
                consumed(rows, i).1 + 1,
            ),
        },
{
}

proof fn lemma_adjacent_rows_ordered(
    times: Seq<Binary32>,
    knots: Seq<FootCycleClipWarpKnotV1>,
    i: int,
    m: int,
)
    requires
        orderly(times, knots),
        0 <= i < rows::merged(times, 0, knots, 0).len() - 1,
        consumed(rows::merged(times, 0, knots, 0), i + 2).1 <= m,
        apart(knots, m),
    ensures
        row_instant(times, rows::merged(times, 0, knots, 0)[i]).lt_number(
            row_instant(times, rows::merged(times, 0, knots, 0)[i + 1]),
        ),
{
    let all = rows::merged(times, 0, knots, 0);
    lemma_row_at(times, knots, i);
    lemma_row_at(times, knots, i + 1);
    lemma_consumed_next(all, i);
    lemma_consumed_next(all, i + 1);
    let k = consumed(all, i).1;
    if k + 1 < m && !(all[i] is Authored) && !(all[i + 1] is Authored) {
        assert(!knots[k + 1].source_time.one_instant(knots[k].source_time));
    }
}

/// The rows of a merge strictly increase where no two knots are one instant.
pub proof fn lemma_rows_ordered(
    times: Seq<Binary32>,
    knots: Seq<FootCycleClipWarpKnotV1>,
    i: int,
    j: int,
)
    requires
        orderly(times, knots),
        apart(knots, knots.len() as int),
        0 <= i < j < rows::merged(times, 0, knots, 0).len(),
    ensures
        row_instant(times, rows::merged(times, 0, knots, 0)[i]).lt_number(
            row_instant(times, rows::merged(times, 0, knots, 0)[j]),
        ),
    decreases j - i,
{
    lemma_rest_of_merge(times, knots, j + 1);
    lemma_adjacent_rows_ordered(times, knots, j - 1, knots.len() as int);
    if i < j - 1 {
        lemma_rows_ordered(times, knots, i, j - 1);
    }
}

/// The knot named last before row `i` is the last one consumed.
proof fn lemma_last_named(times: Seq<Binary32>, knots: Seq<FootCycleClipWarpKnotV1>, i: int)
    requires
        times.len() <= usize::MAX,
        0 <= i <= rows::merged(times, 0, knots, 0).len(),
    ensures
        ({
            let all = rows::merged(times, 0, knots, 0);
            let k = consumed(all, i).1;
            let last = keys::last_named(times, all, i);
            &&& 0 <= k <= knots.len()
            &&& if k == 0 {
                last is None
            } else {
                last matches Some((knot, _)) && knot == knots[k - 1]
            }
        }),
    decreases i,
{
    if i > 0 {
        lemma_last_named(times, knots, i - 1);
        lemma_row_at(times, knots, i - 1);
    }
}

/// Where the first `n` rows do not collide, no two knots they name are one
/// instant.
proof fn lemma_named_knots_apart(
    times: Seq<Binary32>,
    knots: Seq<FootCycleClipWarpKnotV1>,
    n: int,
)
    requires
        orderly(times, knots),
        0 <= n <= rows::merged(times, 0, knots, 0).len(),
        forall|i: int|
            0 <= i < n ==> !#[trigger] keys::source_collision(
                times,
                rows::merged(times, 0, knots, 0),
                i,
            ),
    ensures
        0 <= consumed(rows::merged(times, 0, knots, 0), n).1 <= knots.len(),
        apart(knots, consumed(rows::merged(times, 0, knots, 0), n).1),
    decreases n,
{
    let all = rows::merged(times, 0, knots, 0);
    if n > 0 {
        lemma_named_knots_apart(times, knots, n - 1);
        lemma_row_at(times, knots, n - 1);
        lemma_last_named(times, knots, n - 1);
        lemma_consumed_next(all, n - 1);
        assert(!keys::source_collision(times, all, n - 1));
        let l = consumed(all, n - 1).1;
        if !(all[n - 1] is Authored) {
            assert forall|k: int| 0 <= k < l implies !knots[l].source_time.one_instant(
                (#[trigger] knots[k]).source_time,
            ) by {
                assert(knots[k].source_time.place() <= knots[l - 1].source_time.place());
                assert(knots[l - 1].source_time.place() <= knots[l].source_time.place());
            }
        }
    }
}

/// Knots of a merge without collisions are not one instant with each other.
pub proof fn lemma_knots_apart(times: Seq<Binary32>, knots: Seq<FootCycleClipWarpKnotV1>)
    requires
        orderly(times, knots),
        distinct_knots(times, rows::merged(times, 0, knots, 0)),
    ensures
        apart(knots, knots.len() as int),
{
    let all = rows::merged(times, 0, knots, 0);
    lemma_rest_of_merge(times, knots, all.len() as int);
    assert(all.skip(all.len() as int).len() == 0);
    lemma_named_knots_apart(times, knots, all.len() as int);
}

/// Every key passed before a knot of its own lies two places or more before
/// it, unless it is the key that the knot before coalesced into.
proof fn lemma_passed_keys(
    times: Seq<Binary32>,
    knots: Seq<FootCycleClipWarpKnotV1>,
    i: int,
    m: int,
)
    requires
        orderly(times, knots),
        0 <= i < rows::merged(times, 0, knots, 0).len(),
        rows::merged(times, 0, knots, 0)[i] is Knot,
        consumed(rows::merged(times, 0, knots, 0), i + 1).1 <= m,
        apart(knots, m),
    ensures
        ({
            let all = rows::merged(times, 0, knots, 0);
            let a = consumed(all, i).0;
            let source = row_instant(times, all[i]).place();
            a > 0 ==> {
                ||| times[a - 1].place() + 2 <= source
                ||| times[a - 1].place() + 1 == source && i > 0 && match all[i - 1] {
                    FootCycleClipWarpRowV1::Coalesced(index, _) => index == a - 1,
                    _ => false,
                }
            }
        }),
    decreases i,
{
    let all = rows::merged(times, 0, knots, 0);
    lemma_row_at(times, knots, i);
    lemma_consumed_next(all, i);
    if i > 0 {
        lemma_row_at(times, knots, i - 1);
        lemma_consumed_next(all, i - 1);
        let k = consumed(all, i - 1).1;
        if !(all[i - 1] is Authored) {
            assert(!knots[k + 1].source_time.one_instant(knots[k].source_time));
        }
        if all[i - 1] is Knot {
            lemma_passed_keys(times, knots, i - 1, m);
        }
    }
}

/// Whether a coalesced knot is one instant with its key, and no other key is
/// the one it equals.
pub open spec fn bound_to(
    times: Seq<Binary32>,
    index: usize,
    knot: FootCycleClipWarpKnotV1,
) -> bool {
    &&& index < times.len()
    &&& knot.source_time.one_instant(times[index as int])
    &&& forall|e: int|
        0 <= e < times.len() && (#[trigger] times[e]).eq_number(knot.source_time) ==> e == index
}

/// What row `i` says about coincidence where no two knots are one instant. A
/// knot coalesces with a key it is one instant with, and with the key it
/// equals if there is one. A knot with a row of its own equals no key, and is
/// beside a key only if the knot of the row before coalesced into that key.
pub open spec fn placed_row(
    times: Seq<Binary32>,
    rows: Seq<FootCycleClipWarpRowV1>,
    i: int,
) -> bool {
    match rows[i] {
        FootCycleClipWarpRowV1::Authored(_) => true,
        FootCycleClipWarpRowV1::Coalesced(index, knot) => bound_to(times, index, knot),
        FootCycleClipWarpRowV1::Knot(knot) => forall|e: int|
            0 <= e < times.len() ==> {
                &&& !knot.source_time.eq_number(#[trigger] times[e])
                &&& knot.source_time.one_instant(times[e]) ==> i > 0 && match rows[i - 1] {
                    FootCycleClipWarpRowV1::Coalesced(index, before) => index == e
                        && before.source_time.one_instant(times[e]),
                    _ => false,
                }
            },
    }
}

/// What a row says about coincidence where no two knots name one instant, not
/// through an authored key either: a knot has a row of its own exactly when it
/// is one instant with no authored key.
pub open spec fn faithful_row(times: Seq<Binary32>, row: FootCycleClipWarpRowV1) -> bool {
    match row {
        FootCycleClipWarpRowV1::Authored(_) => true,
        FootCycleClipWarpRowV1::Coalesced(index, knot) => bound_to(times, index, knot),
        FootCycleClipWarpRowV1::Knot(knot) => forall|e: int|
            0 <= e < times.len() ==> !knot.source_time.one_instant(#[trigger] times[e]),
    }
}

proof fn lemma_row_placed(
    times: Seq<Binary32>,
    knots: Seq<FootCycleClipWarpKnotV1>,
    i: int,
    m: int,
)
    requires
        orderly(times, knots),
        0 <= i < rows::merged(times, 0, knots, 0).len(),
        consumed(rows::merged(times, 0, knots, 0), i + 1).1 <= m,
        apart(knots, m),
    ensures
        placed_row(times, rows::merged(times, 0, knots, 0), i),
{
    let all = rows::merged(times, 0, knots, 0);
    lemma_row_at(times, knots, i);
    lemma_consumed_next(all, i);
    let a = consumed(all, i).0;
    if i > 0 {
        lemma_row_at(times, knots, i - 1);
        lemma_consumed_next(all, i - 1);
    }
    match all[i] {
        FootCycleClipWarpRowV1::Authored(_) => {},
        FootCycleClipWarpRowV1::Knot(knot) => {
            lemma_passed_keys(times, knots, i, m);
            assert forall|e: int| 0 <= e < times.len() implies {
                &&& !knot.source_time.eq_number(#[trigger] times[e])
                &&& knot.source_time.one_instant(times[e]) ==> i > 0 && match all[i - 1] {
                    FootCycleClipWarpRowV1::Coalesced(index, before) => index == e
                        && before.source_time.one_instant(times[e]),
                    _ => false,
                }
            } by {
                if e < a {
                    assert(times[e].place() <= times[a - 1].place());
                } else {
                    assert(times[a].place() <= times[e].place());
                }
            }
        },
        FootCycleClipWarpRowV1::Coalesced(index, knot) => {
            if i > 0 {
                let k = consumed(all, i - 1).1;
                if !(all[i - 1] is Authored) {
                    assert(!knots[k + 1].source_time.one_instant(knots[k].source_time));
                }
                if all[i - 1] is Knot {
                    lemma_passed_keys(times, knots, i - 1, m);
                }
            }
            assert forall|e: int|
                0 <= e < times.len() && (#[trigger] times[e]).eq_number(
                    knot.source_time,
                ) implies e == index by {
                if e < a {
                    assert(times[e].place() <= times[a - 1].place());
                    assert(times[a - 1].place() < times[a].place());
                } else if e > a + 1 {
                    assert(times[a].place() < times[a + 1].place());
                    assert(times[a + 1].place() < times[e].place());
                }
            }
        },
    }
}

/// Every row of a merge is well placed where no two knots are one instant.
pub proof fn lemma_placed_row(times: Seq<Binary32>, knots: Seq<FootCycleClipWarpKnotV1>, i: int)
    requires
        orderly(times, knots),
        apart(knots, knots.len() as int),
        0 <= i < rows::merged(times, 0, knots, 0).len(),
    ensures
        placed_row(times, rows::merged(times, 0, knots, 0), i),
{
    lemma_rest_of_merge(times, knots, i + 1);
    lemma_row_placed(times, knots, i, knots.len() as int);
}

/// A row is faithful where neither it nor a row before it collides.
pub proof fn lemma_faithful_row(times: Seq<Binary32>, knots: Seq<FootCycleClipWarpKnotV1>, i: int)
    requires
        orderly(times, knots),
        0 <= i < rows::merged(times, 0, knots, 0).len(),
        forall|j: int|
            0 <= j <= i ==> !#[trigger] keys::source_collision(
                times,
                rows::merged(times, 0, knots, 0),
                j,
            ),
    ensures
        faithful_row(times, rows::merged(times, 0, knots, 0)[i]),
{
    let all = rows::merged(times, 0, knots, 0);
    lemma_named_knots_apart(times, knots, i + 1);
    lemma_row_placed(times, knots, i, consumed(all, i + 1).1);
    assert(!keys::source_collision(times, all, i));
}

/// Whether a row names authored key `i`.
pub open spec fn names_key(row: FootCycleClipWarpRowV1, i: int) -> bool {
    match row {
        FootCycleClipWarpRowV1::Authored(index) => index == i,
        FootCycleClipWarpRowV1::Knot(_) => false,
        FootCycleClipWarpRowV1::Coalesced(index, _) => index == i,
    }
}

/// The knot that a row carries.
pub open spec fn carried(row: FootCycleClipWarpRowV1) -> Option<FootCycleClipWarpKnotV1> {
    match row {
        FootCycleClipWarpRowV1::Authored(_) => None,
        FootCycleClipWarpRowV1::Knot(knot) => Some(knot),
        FootCycleClipWarpRowV1::Coalesced(_, knot) => Some(knot),
    }
}

proof fn lemma_consumed_grows(rows: Seq<FootCycleClipWarpRowV1>, i: int, j: int)
    requires
        0 <= i <= j,
    ensures
        consumed(rows, i).0 <= consumed(rows, j).0,
        consumed(rows, i).1 <= consumed(rows, j).1,
    decreases j - i,
{
    if i < j {
        lemma_consumed_grows(rows, i, j - 1);
        lemma_consumed_next(rows, j - 1);
    }
}

proof fn lemma_row_by_key(
    times: Seq<Binary32>,
    knots: Seq<FootCycleClipWarpKnotV1>,
    i: int,
    n: int,
) -> (r: int)
    requires
        times.len() <= usize::MAX,
        0 <= n <= rows::merged(times, 0, knots, 0).len(),
        0 <= i < consumed(rows::merged(times, 0, knots, 0), n).0,
    ensures
        0 <= r < n,
        names_key(rows::merged(times, 0, knots, 0)[r], i),
    decreases n,
{
    let all = rows::merged(times, 0, knots, 0);
    if n > 0 {
        lemma_consumed_next(all, n - 1);
        if i < consumed(all, n - 1).0 {
            lemma_row_by_key(times, knots, i, n - 1)
        } else {
            lemma_row_at(times, knots, n - 1);
            n - 1
        }
    } else {
        0
    }
}

proof fn lemma_row_by_knot(
    times: Seq<Binary32>,
    knots: Seq<FootCycleClipWarpKnotV1>,
    k: int,
    n: int,
) -> (r: int)
    requires
        times.len() <= usize::MAX,
        0 <= n <= rows::merged(times, 0, knots, 0).len(),
        0 <= k < consumed(rows::merged(times, 0, knots, 0), n).1,
    ensures
        0 <= r < n,
        carried(rows::merged(times, 0, knots, 0)[r]) == Some(knots[k]),
        consumed(rows::merged(times, 0, knots, 0), r).1 == k,
    decreases n,
{
    let all = rows::merged(times, 0, knots, 0);
    if n > 0 {
        lemma_consumed_next(all, n - 1);
        if k < consumed(all, n - 1).1 {
            lemma_row_by_knot(times, knots, k, n - 1)
        } else {
            lemma_row_at(times, knots, n - 1);
            n - 1
        }
    } else {
        0
    }
}

/// All keys and knots are consumed in the end.
proof fn lemma_all_consumed(times: Seq<Binary32>, knots: Seq<FootCycleClipWarpKnotV1>)
    requires
        times.len() <= usize::MAX,
    ensures
        consumed(rows::merged(times, 0, knots, 0), rows::merged(times, 0, knots, 0).len() as int)
            == (times.len() as int, knots.len() as int),
{
    let all = rows::merged(times, 0, knots, 0);
    lemma_rest_of_merge(times, knots, all.len() as int);
    assert(all.skip(all.len() as int).len() == 0);
}

/// The row that names authored key `i`.
pub proof fn lemma_row_of_key(
    times: Seq<Binary32>,
    knots: Seq<FootCycleClipWarpKnotV1>,
    i: int,
) -> (r: int)
    requires
        times.len() <= usize::MAX,
        0 <= i < times.len(),
    ensures
        0 <= r < rows::merged(times, 0, knots, 0).len(),
        names_key(rows::merged(times, 0, knots, 0)[r], i),
{
    lemma_all_consumed(times, knots);
    lemma_row_by_key(times, knots, i, rows::merged(times, 0, knots, 0).len() as int)
}

/// The row that carries knot `k`.
pub proof fn lemma_row_of_knot(
    times: Seq<Binary32>,
    knots: Seq<FootCycleClipWarpKnotV1>,
    k: int,
) -> (r: int)
    requires
        times.len() <= usize::MAX,
        0 <= k < knots.len(),
    ensures
        0 <= r < rows::merged(times, 0, knots, 0).len(),
        carried(rows::merged(times, 0, knots, 0)[r]) == Some(knots[k]),
{
    lemma_all_consumed(times, knots);
    lemma_row_by_knot(times, knots, k, rows::merged(times, 0, knots, 0).len() as int)
}

/// Later rows name later keys.
pub proof fn lemma_keys_in_row_order(
    times: Seq<Binary32>,
    knots: Seq<FootCycleClipWarpKnotV1>,
    r: int,
    q: int,
    i: int,
    l: int,
)
    requires
        times.len() <= usize::MAX,
        0 <= r < q < rows::merged(times, 0, knots, 0).len(),
        names_key(rows::merged(times, 0, knots, 0)[r], i),
        names_key(rows::merged(times, 0, knots, 0)[q], l),
    ensures
        i < l,
{
    let all = rows::merged(times, 0, knots, 0);
    lemma_row_at(times, knots, r);
    lemma_row_at(times, knots, q);
    lemma_consumed_next(all, r);
    lemma_consumed_grows(all, r + 1, q);
}

/// Later rows carry later knots.
pub proof fn lemma_knots_in_row_order(
    times: Seq<Binary32>,
    knots: Seq<FootCycleClipWarpKnotV1>,
    r: int,
    q: int,
) -> (p: (int, int))
    requires
        times.len() <= usize::MAX,
        0 <= r < q < rows::merged(times, 0, knots, 0).len(),
        carried(rows::merged(times, 0, knots, 0)[r]) is Some,
        carried(rows::merged(times, 0, knots, 0)[q]) is Some,
    ensures
        0 <= p.0 < p.1 < knots.len(),
        carried(rows::merged(times, 0, knots, 0)[r]) == Some(knots[p.0]),
        carried(rows::merged(times, 0, knots, 0)[q]) == Some(knots[p.1]),
{
    let all = rows::merged(times, 0, knots, 0);
    lemma_row_at(times, knots, r);
    lemma_row_at(times, knots, q);
    lemma_consumed_next(all, r);
    lemma_consumed_grows(all, r + 1, q);
    (consumed(all, r).1, consumed(all, q).1)
}

/// A knot that does not equal its key is beside no earlier key, where neither
/// its row nor a row before it collides: of two keys beside it the earlier one
/// binds.
pub proof fn lemma_earlier_key_binds(
    times: Seq<Binary32>,
    knots: Seq<FootCycleClipWarpKnotV1>,
    i: int,
    index: usize,
    knot: FootCycleClipWarpKnotV1,
    e: int,
)
    requires
        orderly(times, knots),
        0 <= i < rows::merged(times, 0, knots, 0).len(),
        forall|j: int|
            0 <= j <= i ==> !#[trigger] keys::source_collision(
                times,
                rows::merged(times, 0, knots, 0),
                j,
            ),
        rows::merged(times, 0, knots, 0)[i] == FootCycleClipWarpRowV1::Coalesced(index, knot),
        !times[index as int].eq_number(knot.source_time),
        0 <= e < index,
    ensures
        !knot.source_time.one_instant(times[e]),
{
    let all = rows::merged(times, 0, knots, 0);
    lemma_row_at(times, knots, i);
    lemma_named_knots_apart(times, knots, i + 1);
    lemma_consumed_next(all, i);
    let a = consumed(all, i).0;
    assert(a == index);
    assert(times[e].place() <= times[a - 1].place());
    assert(times[a - 1].place() < times[a].place());
    if i > 0 {
        lemma_row_at(times, knots, i - 1);
        lemma_consumed_next(all, i - 1);
        assert(!keys::source_collision(times, all, i));
        let k = consumed(all, i - 1).1;
        if all[i - 1] is Knot {
            lemma_passed_keys(times, knots, i - 1, consumed(all, i + 1).1);
            assert(!knots[k + 1].source_time.one_instant(knots[k].source_time));
        }
    }
}

/// How two rows lie to each other. A key with a row of its own lies before
/// every knot of a later row, two places or more unless the next key is the one
/// that the knot equals. A knot with a row of its own lies two places or more
/// before every key of a later row.
pub open spec fn interleaved(
    times: Seq<Binary32>,
    before: FootCycleClipWarpRowV1,
    after: FootCycleClipWarpRowV1,
) -> bool {
    match (before, after) {
        (FootCycleClipWarpRowV1::Authored(i), FootCycleClipWarpRowV1::Authored(l)) => i < l,
        (FootCycleClipWarpRowV1::Authored(i), FootCycleClipWarpRowV1::Knot(knot)) => passes(
            times,
            i as int,
            knot,
        ),
        (FootCycleClipWarpRowV1::Authored(i), FootCycleClipWarpRowV1::Coalesced(l, knot)) => i < l
            && passes(times, i as int, knot),
        (FootCycleClipWarpRowV1::Knot(knot), FootCycleClipWarpRowV1::Authored(l)) =>
            knot.source_time.place() + 2 <= times[l as int].place(),
        (FootCycleClipWarpRowV1::Knot(a), FootCycleClipWarpRowV1::Knot(b)) => a.source_time.place()
            <= b.source_time.place(),
        (FootCycleClipWarpRowV1::Knot(a), FootCycleClipWarpRowV1::Coalesced(l, b)) =>
            a.source_time.place() + 2 <= times[l as int].place() && a.source_time.place()
            <= b.source_time.place(),
        (FootCycleClipWarpRowV1::Coalesced(i, _), FootCycleClipWarpRowV1::Authored(l)) => i < l,
        (FootCycleClipWarpRowV1::Coalesced(_, a), FootCycleClipWarpRowV1::Knot(b)) =>
            a.source_time.place() <= b.source_time.place(),
        (FootCycleClipWarpRowV1::Coalesced(i, a), FootCycleClipWarpRowV1::Coalesced(l, b)) => i < l
            && a.source_time.place() <= b.source_time.place(),
    }
}

/// Whether key `i` lies before a knot: two places or more, or one place where
/// the next key is the one that the knot equals.
pub open spec fn passes(times: Seq<Binary32>, i: int, knot: FootCycleClipWarpKnotV1) -> bool {
    let source = knot.source_time.place();
    ||| times[i].place() + 2 <= source
    ||| times[i].place() + 1 == source && i + 1 < times.len() && times[i + 1].place() == source
}

/// Any two rows of a merge are interleaved, and a knot shares a key only if
/// they are equal or adjacent and the next key is not the one that it equals.
pub proof fn lemma_rows_interleaved(
    times: Seq<Binary32>,
    knots: Seq<FootCycleClipWarpKnotV1>,
    r: int,
    q: int,
)
    requires
        orderly(times, knots),
        0 <= r < q < rows::merged(times, 0, knots, 0).len(),
    ensures
        interleaved(
            times,
            rows::merged(times, 0, knots, 0)[r],
            rows::merged(times, 0, knots, 0)[q],
        ),
{
    let all = rows::merged(times, 0, knots, 0);
    lemma_row_at(times, knots, r);
    lemma_row_at(times, knots, q);
    lemma_consumed_next(all, r);
    lemma_consumed_grows(all, r + 1, q);
    let (a, k) = consumed(all, r);
    let (b, l) = consumed(all, q);
    if a < times.len() && b < times.len() {
        assert(times[a].place() <= times[b].place());
    }
    if k < knots.len() && l < knots.len() {
        assert(knots[k].source_time.place() <= knots[l].source_time.place());
    }
}

/// What a shared row says of its key and its knot.
pub proof fn lemma_shared_row(times: Seq<Binary32>, knots: Seq<FootCycleClipWarpKnotV1>, r: int)
    requires
        orderly(times, knots),
        0 <= r < rows::merged(times, 0, knots, 0).len(),
    ensures
        rows::merged(times, 0, knots, 0)[r] matches FootCycleClipWarpRowV1::Coalesced(i, knot)
            ==> {
            &&& i < times.len()
            &&& -1 <= times[i as int].place() - knot.source_time.place() <= 1
            &&& i + 1 < times.len() ==> times[i + 1].place() != knot.source_time.place()
        },
{
    lemma_row_at(times, knots, r);
}

} // verus!
