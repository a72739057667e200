//! What holds of the computed curve for every control polygon.

use vstd::prelude::*;
use vstd::arithmetic::power::{lemma_pow_positive, pow};
use crate::accuracy::{
    axis_split_left, axis_split_right, casteljau_axis, half_step_units, is_fraction,
    lemma_axis_subdivision_left_every, lemma_axis_subdivision_right_every,
    lemma_rounding_bound_everywhere,
    lemma_rounding_units, lemma_unit_interval_fits, rounding_units, unsaturated, within_spread,
    lemma_axis_halves_against_exact, lemma_axis_split_left_accuracy,
    lemma_axis_split_right_accuracy, lemma_axis_subdivision_left, lemma_axis_subdivision_right,
    lemma_rounding_bound,
};
use crate::coord::{blend, vector_difference, vector_scaled, vector_sum, xs, ys, Coord2D};
use crate::curve::{casteljau, point_at, split_left, split_right};
use crate::exact::{
    exact_casteljau, exact_point_at, exact_split_left, exact_split_right, lemma_exact_colinear,
    steps_within,
};
use crate::fixed::{magnitude, HALF, ONE};

verus! {

/// Each coordinate of `a` differs from that of `b` by at most `tolerance`.
pub open spec fn within(a: Coord2D, b: Coord2D, tolerance: int) -> bool {
    &&& magnitude(a.x - b.x) <= tolerance
    &&& magnitude(a.y - b.y) <= tolerance
}

/// The scheme on points is the scheme on each coordinate.
pub proof fn lemma_casteljau_by_axis(data: Seq<Coord2D>, level: nat, offset: int, t: i64)
    requires
        0 <= offset,
        offset + level < data.len(),
    ensures
        casteljau(data, level, offset, t).x == casteljau_axis(xs(data), level, offset, t as int),
        casteljau(data, level, offset, t).y == casteljau_axis(ys(data), level, offset, t as int),
    decreases level,
{
    if level > 0 {
        lemma_casteljau_by_axis(data, (level - 1) as nat, offset, t);
        lemma_casteljau_by_axis(data, (level - 1) as nat, offset + 1, t);
    }
}

/// Endpoint fidelity: at the parameter zero every point of the scheme is
/// the first control point of its window, and at the parameter one the
/// last. So the curve starts at the first control point and ends at the
/// last one, exactly.
pub proof fn lemma_endpoint_fidelity(data: Seq<Coord2D>, level: nat, offset: int)
    ensures
        casteljau(data, level, offset, 0) == data[offset],
        casteljau(data, level, offset, ONE) == data[offset + level],
    decreases level,
{
    if level > 0 {
        let l = (level - 1) as nat;
        lemma_endpoint_fidelity(data, l, offset);
        lemma_endpoint_fidelity(data, l, offset + 1);
        let a = data[offset];
        let b = data[offset + 1];
        let y = data[offset + l];
        let z = data[offset + 1 + l];
        assert(((b.x - a.x) * 0) / (ONE as int) == 0 && ((b.y - a.y) * 0) / (ONE as int) == 0);
        assert(((z.x - y.x) * ONE) / (ONE as int) == z.x - y.x);
        assert(((z.y - y.y) * ONE) / (ONE as int) == z.y - y.y);
    }
}

/// Midpoint agreement: the last control point of the first half and the
/// first control point of the second half are the point of the curve at
/// one half.
pub proof fn lemma_midpoint_agreement(data: Seq<Coord2D>)
    requires
        data.len() >= 1,
    ensures
        split_left(data).last() == point_at(data, HALF),
        split_right(data).first() == point_at(data, HALF),
        split_left(data).first() == data.first(),
        split_right(data).last() == data.last(),
{
}

/// Accuracy of a point: at a parameter of the unit interval, each coordinate
/// of the computed point never lies above that of the exact curve, and lies
/// below it by at most one unit of the last place for each level of the
/// scheme. The exact coordinates are numerators over `ONE` to the power
/// `len - 1`.
pub proof fn lemma_point_accuracy(data: Seq<Coord2D>, t: i64)
    requires
        data.len() >= 1,
        0 <= t <= ONE,
    ensures
        ({
            let m = data.len() - 1;
            let w = pow(ONE as int, m as nat);
            let p = point_at(data, t);
            &&& 0 <= exact_point_at(xs(data), t as int, ONE as int) - w * p.x <= m * w
            &&& 0 <= exact_point_at(ys(data), t as int, ONE as int) - w * p.y <= m * w
        }),
{
    let m = (data.len() - 1) as nat;
    assert(is_fraction(t as int, t as int, ONE as int));
    lemma_casteljau_by_axis(data, m, 0, t);
    lemma_rounding_bound(xs(data), m, 0, t as int, t as int, ONE as int);
    lemma_rounding_bound(ys(data), m, 0, t as int, t as int, ONE as int);
}

/// Accuracy of the halves: each coordinate of the control point at place
/// `k` of a computed half never lies above that of the exact half, and lies
/// below it by at most one unit of the last place for each level of the
/// scheme that the point stands on: `k` levels in the first half,
/// `len - 1 - k` in the second. The exact coordinates are numerators over
/// two to the power `len - 1`.
pub proof fn lemma_split_accuracy(data: Seq<Coord2D>, k: int)
    requires
        0 <= k < data.len(),
    ensures
        ({
            let m = data.len() - 1;
            let w = pow(2, m as nat);
            let l = split_left(data)[k];
            let r = split_right(data)[k];
            &&& 0 <= exact_split_left(xs(data))[k] - w * l.x <= k * w
            &&& 0 <= exact_split_left(ys(data))[k] - w * l.y <= k * w
            &&& 0 <= exact_split_right(xs(data))[k] - w * r.x <= (m - k) * w
            &&& 0 <= exact_split_right(ys(data))[k] - w * r.y <= (m - k) * w
        }),
{
    let m = (data.len() - 1) as nat;
    lemma_casteljau_by_axis(data, k as nat, 0, HALF);
    lemma_casteljau_by_axis(data, (m - k) as nat, k, HALF);
    lemma_axis_split_left_accuracy(xs(data), k);
    lemma_axis_split_left_accuracy(ys(data), k);
    lemma_axis_split_right_accuracy(xs(data), k);
    lemma_axis_split_right_accuracy(ys(data), k);
}

/// Subdivision against the exact curve: at every parameter `u` of the unit
/// interval, each coordinate of the curve over the first half never lies
/// above that of the exact curve at `u / 2`, and lies below it by at most
/// two units of the last place for each level of the scheme; and so does
/// the curve over the second half, against the exact curve at
/// `1/2 + u / 2`. The exact coordinates are numerators over `2 * ONE` to
/// the power `len - 1`.
pub proof fn lemma_subdivision_against_exact(data: Seq<Coord2D>, u: i64)
    requires
        data.len() >= 1,
        0 <= u <= ONE,
    ensures
        ({
            let m = data.len() - 1;
            let w = pow(2 * ONE, m as nat);
            let l = point_at(split_left(data), u);
            let r = point_at(split_right(data), u);
            &&& 0 <= exact_point_at(xs(data), u as int, 2 * ONE) - w * l.x <= (2 * m) * w
            &&& 0 <= exact_point_at(ys(data), u as int, 2 * ONE) - w * l.y <= (2 * m) * w
            &&& 0 <= exact_point_at(xs(data), ONE + u, 2 * ONE) - w * r.x <= (2 * m) * w
            &&& 0 <= exact_point_at(ys(data), ONE + u, 2 * ONE) - w * r.y <= (2 * m) * w
        }),
{
    let m = (data.len() - 1) as nat;
    lemma_halves_by_axis(data);
    lemma_casteljau_by_axis(split_left(data), m, 0, u);
    lemma_casteljau_by_axis(split_right(data), m, 0, u);
    lemma_axis_halves_against_exact(xs(data), u as int);
    lemma_axis_halves_against_exact(ys(data), u as int);
}

/// The halves of the polygon are the halves of each coordinate.
pub proof fn lemma_halves_by_axis(data: Seq<Coord2D>)
    ensures
        xs(split_left(data)) == axis_split_left(xs(data)),
        ys(split_left(data)) == axis_split_left(ys(data)),
        xs(split_right(data)) == axis_split_right(xs(data)),
        ys(split_right(data)) == axis_split_right(ys(data)),
{
    let m = data.len() - 1;
    assert forall|k: int| 0 <= k < data.len() implies xs(split_left(data))[k] == axis_split_left(
        xs(data),
    )[k] && ys(split_left(data))[k] == axis_split_left(ys(data))[k] by {
        lemma_casteljau_by_axis(data, k as nat, 0, HALF);
    }
    assert forall|j: int| 0 <= j < data.len() implies xs(split_right(data))[j] == axis_split_right(
        xs(data),
    )[j] && ys(split_right(data))[j] == axis_split_right(ys(data))[j] by {
        lemma_casteljau_by_axis(data, (m - j) as nat, j, HALF);
    }
    assert(xs(split_left(data)) =~= axis_split_left(xs(data)));
    assert(ys(split_left(data)) =~= axis_split_left(ys(data)));
    assert(xs(split_right(data)) =~= axis_split_right(xs(data)));
    assert(ys(split_right(data)) =~= axis_split_right(ys(data)));
}

/// Subdivision, first half: for an even parameter `u` of the unit interval,
/// the curve over the first half at `u` is the whole curve at `u / 2`, up
/// to two units of the last place for each level of the scheme.
pub proof fn lemma_subdivision_left(data: Seq<Coord2D>, u: i64)
    requires
        data.len() >= 1,
        0 <= u <= ONE,
        u % 2 == 0,
    ensures
        within(
            point_at(split_left(data), u),
            point_at(data, (u / 2) as i64),
            2 * (data.len() - 1),
        ),
{
    let m = (data.len() - 1) as nat;
    lemma_halves_by_axis(data);
    lemma_casteljau_by_axis(split_left(data), m, 0, u);
    lemma_casteljau_by_axis(data, m, 0, (u / 2) as i64);
    lemma_axis_subdivision_left(xs(data), u as int);
    lemma_axis_subdivision_left(ys(data), u as int);
}

/// Subdivision, second half: for an even parameter `u` of the unit
/// interval, the curve over the second half at `u` is the whole curve at
/// `1/2 + u / 2`, up to two units of the last place for each level of the
/// scheme.
pub proof fn lemma_subdivision_right(data: Seq<Coord2D>, u: i64)
    requires
        data.len() >= 1,
        0 <= u <= ONE,
        u % 2 == 0,
    ensures
        within(
            point_at(split_right(data), u),
            point_at(data, (HALF + u / 2) as i64),
            2 * (data.len() - 1),
        ),
{
    let m = (data.len() - 1) as nat;
    lemma_halves_by_axis(data);
    lemma_casteljau_by_axis(split_right(data), m, 0, u);
    lemma_casteljau_by_axis(data, m, 0, (HALF + u / 2) as i64);
    lemma_axis_subdivision_right(xs(data), u as int);
    lemma_axis_subdivision_right(ys(data), u as int);
}

/// Neighbouring control points lie at most `d` apart in each coordinate.
pub open spec fn steps_fit(data: Seq<Coord2D>, d: int) -> bool {
    forall|j: int|
        0 <= j < data.len() - 1 ==> within(#[trigger] data[j + 1], data[j], d)
}

/// The steps between neighbouring points are the steps of each coordinate.
proof fn lemma_steps_by_axis(data: Seq<Coord2D>, d: int)
    requires
        steps_fit(data, d),
    ensures
        steps_within(xs(data), 0, data.len() - 1, d),
        steps_within(ys(data), 0, data.len() - 1, d),
{
    assert forall|j: int| 0 <= j < data.len() - 1 implies magnitude(
        #[trigger] xs(data)[j + 1] - xs(data)[j],
    ) <= d by {
        assert(within(data[j + 1], data[j], d));
    }
    assert forall|j: int| 0 <= j < data.len() - 1 implies magnitude(
        #[trigger] ys(data)[j + 1] - ys(data)[j],
    ) <= d by {
        assert(within(data[j + 1], data[j], d));
    }
}

/// Subdivision at every parameter, first half: for every `u` of the unit
/// interval, even or odd, the curve over the first half at `u` is the
/// whole curve at `u / 2`, rounded down to a parameter, up to two units of
/// the last place for each level of the scheme; for an odd `u`, whose half
/// is no parameter, also up to what the curve itself moves over half a unit
/// of the parameter, `half_step_units`, where neighbouring control points
/// lie at most `d` apart.
pub proof fn lemma_subdivision_left_every(data: Seq<Coord2D>, u: i64, d: int)
    requires
        data.len() >= 1,
        0 <= u <= ONE,
        0 <= d,
        steps_fit(data, d),
    ensures
        within(
            point_at(split_left(data), u),
            point_at(data, (u / 2) as i64),
            2 * (data.len() - 1) + (u % 2) * half_step_units(data.len() - 1, d),
        ),
{
    let m = (data.len() - 1) as nat;
    lemma_halves_by_axis(data);
    lemma_steps_by_axis(data, d);
    lemma_casteljau_by_axis(split_left(data), m, 0, u);
    lemma_casteljau_by_axis(data, m, 0, (u / 2) as i64);
    lemma_axis_subdivision_left_every(xs(data), u as int, d);
    lemma_axis_subdivision_left_every(ys(data), u as int, d);
}

/// Subdivision at every parameter, second half: for every `u` of the unit
/// interval, even or odd, the curve over the second half at `u` is the
/// whole curve at `1/2 + u / 2`, rounded down to a parameter, up to two
/// units of the last place for each level of the scheme; for an odd `u`
/// also up to `half_step_units`, where neighbouring control points lie at
/// most `d` apart.
pub proof fn lemma_subdivision_right_every(data: Seq<Coord2D>, u: i64, d: int)
    requires
        data.len() >= 1,
        0 <= u <= ONE,
        0 <= d,
        steps_fit(data, d),
    ensures
        within(
            point_at(split_right(data), u),
            point_at(data, (HALF + u / 2) as i64),
            2 * (data.len() - 1) + (u % 2) * half_step_units(data.len() - 1, d),
        ),
{
    let m = (data.len() - 1) as nat;
    lemma_halves_by_axis(data);
    lemma_steps_by_axis(data, d);
    lemma_casteljau_by_axis(split_right(data), m, 0, u);
    lemma_casteljau_by_axis(data, m, 0, (HALF + u / 2) as i64);
    lemma_axis_subdivision_right_every(xs(data), u as int, d);
    lemma_axis_subdivision_right_every(ys(data), u as int, d);
}

/// Twice the signed area of the triangle `a`, `b`, `c`: zero where the three
/// points lie on one line.
pub open spec fn cross(a: Coord2D, b: Coord2D, c: Coord2D) -> int {
    (b.x - a.x) * (c.y - a.y) - (b.y - a.y) * (c.x - a.x)
}

/// Every point of the sequence lies on the line through `a` and `b`.
pub open spec fn colinear_with(data: Seq<Coord2D>, a: Coord2D, b: Coord2D) -> bool {
    forall|j: int| 0 <= j < data.len() ==> cross(a, b, #[trigger] data[j]) == 0
}

/// Straight lines: if every control point lies on the line through `a` and
/// `b`, then the point of the curve at a parameter of the unit interval
/// lies on it as far as rounding allows: it is off by at most one unit of
/// the last place in each coordinate for each level of the scheme, so the
/// triangle that it spans with `a` and `b` has at most that height in each
/// coordinate.
pub proof fn lemma_colinear(data: Seq<Coord2D>, a: Coord2D, b: Coord2D, t: i64)
    requires
        data.len() >= 1,
        0 <= t <= ONE,
        colinear_with(data, a, b),
    ensures
        magnitude(cross(a, b, point_at(data, t))) <= (data.len() - 1) * (magnitude(b.x - a.x)
            + magnitude(b.y - a.y)),
{
    let dx = b.x - a.x;
    let dy = b.y - a.y;
    let c = dx * a.y - dy * a.x;
    assert forall|j: int| 0 <= j < data.len() implies (-dy) * (#[trigger] data[j]).x + dx
        * data[j].y == c by {
        lemma_cross_as_line(a, b, data[j]);
        assert(cross(a, b, data[j]) == 0);
    }
    lemma_on_a_line(data, -dy, dx, c, t);
    lemma_cross_as_line(a, b, point_at(data, t));
}

/// The area of the triangle, written as the equation of the line through
/// its first two corners.
proof fn lemma_cross_as_line(a: Coord2D, b: Coord2D, p: Coord2D)
    ensures
        cross(a, b, p) == (-(b.y - a.y)) * p.x + (b.x - a.x) * p.y - ((b.x - a.x) * a.y - (b.y
            - a.y) * a.x),
{
    let dx = b.x - a.x;
    let dy = b.y - a.y;
    assert(dx * (p.y - a.y) == dx * p.y - dx * a.y) by (nonlinear_arith);
    assert(dy * (p.x - a.x) == dy * p.x - dy * a.x) by (nonlinear_arith);
    assert((-dy) * p.x == -(dy * p.x)) by (nonlinear_arith);
}

/// Straight lines, by their equation: if every control point lies on the
/// line `a * x + b * y == c`, then the point of the curve at a parameter of
/// the unit interval misses the line by no more than rounding allows: one
/// unit of the last place in each coordinate for each level of the scheme.
pub proof fn lemma_on_a_line(data: Seq<Coord2D>, a: int, b: int, c: int, t: i64)
    requires
        data.len() >= 1,
        0 <= t <= ONE,
        forall|j: int| 0 <= j < data.len() ==> a * (#[trigger] data[j]).x + b * data[j].y == c,
    ensures
        magnitude(a * point_at(data, t).x + b * point_at(data, t).y - c) <= (data.len() - 1) * (
        magnitude(a) + magnitude(b)),
{
    let m = (data.len() - 1) as nat;
    let one = ONE as int;
    let vx = xs(data);
    let vy = ys(data);
    assert(is_fraction(t as int, t as int, one));
    lemma_casteljau_by_axis(data, m, 0, t);
    lemma_rounding_bound(vx, m, 0, t as int, t as int, one);
    lemma_rounding_bound(vy, m, 0, t as int, t as int, one);
    assert forall|j: int| 0 <= j <= m implies a * (#[trigger] vx[j]) + b * vy[j] == c by {
        assert(a * data[j].x + b * data[j].y == c);
    }
    lemma_exact_colinear(vx, vy, a, b, c, m, 0, t as int, one);
    lemma_pow_positive(one, m);
    lemma_residual(
        a,
        b,
        c,
        exact_casteljau(vx, m, 0, t as int, one),
        exact_casteljau(vy, m, 0, t as int, one),
        point_at(data, t).x as int,
        point_at(data, t).y as int,
        pow(one, m),
        m as int,
    );
}

/// No blend of the scheme over the whole polygon at `t` is saturated, in
/// either coordinate.
pub open spec fn blends_fit(data: Seq<Coord2D>, t: i64) -> bool {
    &&& unsaturated(xs(data), (data.len() - 1) as nat, 0, t as int)
    &&& unsaturated(ys(data), (data.len() - 1) as nat, 0, t as int)
}

/// Inside the unit interval no blend is saturated, and the weights of a
/// blend have the spread 1, for which rounding costs one unit for each
/// level.
pub proof fn lemma_unit_interval(data: Seq<Coord2D>, t: i64)
    requires
        data.len() >= 1,
        0 <= t <= ONE,
    ensures
        blends_fit(data, t),
        within_spread(t as int, 1),
        rounding_units((data.len() - 1) as nat, 1) == data.len() - 1,
{
    let m = (data.len() - 1) as nat;
    lemma_unit_interval_fits(xs(data), m, 0, t as int);
    lemma_unit_interval_fits(ys(data), m, 0, t as int);
    lemma_rounding_units(m, 1);
}

/// Accuracy of a point at every parameter, inside the unit interval or
/// outside it: where no blend is saturated, each coordinate of the computed
/// point lies within `rounding_units` units of the last place of that of
/// the exact curve. The units grow with the spread of the weights `1 - t`
/// and `t`. The exact coordinates are numerators over `ONE` to the power
/// `len - 1`.
pub proof fn lemma_point_accuracy_everywhere(data: Seq<Coord2D>, t: i64, spread: int)
    requires
        data.len() >= 1,
        within_spread(t as int, spread),
        blends_fit(data, t),
    ensures
        ({
            let m = (data.len() - 1) as nat;
            let w = pow(ONE as int, m);
            let u = rounding_units(m, spread);
            let p = point_at(data, t);
            &&& -(u * w) <= exact_point_at(xs(data), t as int, ONE as int) - w * p.x <= u * w
            &&& -(u * w) <= exact_point_at(ys(data), t as int, ONE as int) - w * p.y <= u * w
        }),
{
    let m = (data.len() - 1) as nat;
    lemma_casteljau_by_axis(data, m, 0, t);
    lemma_rounding_bound_everywhere(xs(data), m, 0, t as int, spread);
    lemma_rounding_bound_everywhere(ys(data), m, 0, t as int, spread);
}

/// Straight lines at every parameter, by their equation: if every control
/// point lies on the line `a * x + b * y == c` and no blend is saturated,
/// then the point of the curve at `t`, inside the unit interval or outside
/// it, misses the line by no more than rounding allows: `rounding_units`
/// units of the last place in each coordinate, which grow with the spread
/// of the weights `1 - t` and `t`.
pub proof fn lemma_on_a_line_everywhere(
    data: Seq<Coord2D>,
    a: int,
    b: int,
    c: int,
    t: i64,
    spread: int,
)
    requires
        data.len() >= 1,
        within_spread(t as int, spread),
        blends_fit(data, t),
        forall|j: int| 0 <= j < data.len() ==> a * (#[trigger] data[j]).x + b * data[j].y == c,
    ensures
        magnitude(a * point_at(data, t).x + b * point_at(data, t).y - c) <= rounding_units(
            (data.len() - 1) as nat,
            spread,
        ) * (magnitude(a) + magnitude(b)),
{
    let m = (data.len() - 1) as nat;
    let one = ONE as int;
    let vx = xs(data);
    let vy = ys(data);
    lemma_point_accuracy_everywhere(data, t, spread);
    lemma_rounding_units(m, spread);
    assert forall|j: int| 0 <= j <= m implies a * (#[trigger] vx[j]) + b * vy[j] == c by {
        assert(a * data[j].x + b * data[j].y == c);
    }
    lemma_exact_colinear(vx, vy, a, b, c, m, 0, t as int, one);
    lemma_pow_positive(one, m);
    lemma_residual(
        a,
        b,
        c,
        exact_casteljau(vx, m, 0, t as int, one),
        exact_casteljau(vy, m, 0, t as int, one),
        point_at(data, t).x as int,
        point_at(data, t).y as int,
        pow(one, m),
        rounding_units(m, spread),
    );
}

/// Straight lines at every parameter: if every control point lies on the
/// line through `a` and `b` and no blend is saturated, then the point of
/// the curve at `t`, inside the unit interval or outside it, lies on that
/// line as far as rounding allows: the triangle that it spans with `a` and
/// `b` has at most the height of `rounding_units` units of the last place
/// in each coordinate.
pub proof fn lemma_colinear_everywhere(
    data: Seq<Coord2D>,
    a: Coord2D,
    b: Coord2D,
    t: i64,
    spread: int,
)
    requires
        data.len() >= 1,
        within_spread(t as int, spread),
        blends_fit(data, t),
        colinear_with(data, a, b),
    ensures
        magnitude(cross(a, b, point_at(data, t))) <= rounding_units(
            (data.len() - 1) as nat,
            spread,
        ) * (magnitude(b.x - a.x) + magnitude(b.y - a.y)),
{
    let dx = b.x - a.x;
    let dy = b.y - a.y;
    let c = dx * a.y - dy * a.x;
    assert forall|j: int| 0 <= j < data.len() implies (-dy) * (#[trigger] data[j]).x + dx
        * data[j].y == c by {
        lemma_cross_as_line(a, b, data[j]);
        assert(cross(a, b, data[j]) == 0);
    }
    lemma_on_a_line_everywhere(data, -dy, dx, c, t, spread);
    lemma_cross_as_line(a, b, point_at(data, t));
}

/// Level and upright lines: if every control point of a window has the same
/// second coordinate, so has the scheme's point over it, at every
/// parameter; and likewise for the first coordinate.
pub proof fn lemma_axis_parallel(data: Seq<Coord2D>, level: nat, offset: int, t: i64, c: i64)
    ensures
        (forall|j: int| offset <= j <= offset + level ==> (#[trigger] data[j]).y == c)
            ==> casteljau(data, level, offset, t).y == c,
        (forall|j: int| offset <= j <= offset + level ==> (#[trigger] data[j]).x == c)
            ==> casteljau(data, level, offset, t).x == c,
    decreases level,
{
    if level == 0 {
        assert(offset <= offset <= offset + level);
    } else {
        let l = (level - 1) as nat;
        lemma_axis_parallel(data, l, offset, t, c);
        lemma_axis_parallel(data, l, offset + 1, t, c);
        assert((0 * t) / (ONE as int) == 0);
    }
}

/// A blend is vector arithmetic: where the difference of the two points and
/// its multiple fit the coordinates, the blend is `left` plus the scaled
/// difference.
pub proof fn lemma_blend_is_vector_arithmetic(left: Coord2D, right: Coord2D, factor: i64)
    requires
        i64::MIN <= right.x - left.x <= i64::MAX,
        i64::MIN <= right.y - left.y <= i64::MAX,
        i64::MIN <= ((right.x - left.x) * factor) / (ONE as int) <= i64::MAX,
        i64::MIN <= ((right.y - left.y) * factor) / (ONE as int) <= i64::MAX,
    ensures
        blend(left, right, factor) == vector_sum(
            left,
            vector_scaled(vector_difference(right, left), factor),
        ),
{
}

/// Two coordinates that lie within `m` units each of a point on a line miss
/// the line by at most `m` times the size of its normal.
proof fn lemma_residual(a: int, b: int, c: int, ex: int, ey: int, x: int, y: int, w: int, m: int)
    requires
        0 < w,
        0 <= m,
        a * ex + b * ey == c * w,
        -(m * w) <= ex - w * x <= m * w,
        -(m * w) <= ey - w * y <= m * w,
    ensures
        magnitude(a * x + b * y - c) <= m * (magnitude(a) + magnitude(b)),
{
    let dx = ex - w * x;
    let dy = ey - w * y;
    let r = a * x + b * y - c;
    let bound = m * (magnitude(a) + magnitude(b));
    assert(w * r == -(a * dx + b * dy)) by (nonlinear_arith)
        requires
            a * ex + b * ey == c * w,
            dx == ex - w * x,
            dy == ey - w * y,
            r == a * x + b * y - c,
    {
        assert(a * dx == a * ex - a * (w * x));
        assert(b * dy == b * ey - b * (w * y));
        assert(a * (w * x) == w * (a * x));
        assert(b * (w * y) == w * (b * y));
        assert(w * r == w * (a * x) + w * (b * y) - w * c);
    }
    assert(-(magnitude(a) * (m * w)) <= a * dx <= magnitude(a) * (m * w)) by (nonlinear_arith)
        requires
            -(m * w) <= dx <= m * w,
    {
        if a >= 0 {
            assert(a * (-(m * w)) <= a * dx <= a * (m * w));
            assert(a * (-(m * w)) == -(a * (m * w)));
        } else {
            assert((-a) * (-(m * w)) <= (-a) * dx <= (-a) * (m * w));
            assert((-a) * dx == -(a * dx));
            assert((-a) * (-(m * w)) == -((-a) * (m * w)));
        }
    }
    assert(-(magnitude(b) * (m * w)) <= b * dy <= magnitude(b) * (m * w)) by (nonlinear_arith)
        requires
            -(m * w) <= dy <= m * w,
    {
        if b >= 0 {
            assert(b * (-(m * w)) <= b * dy <= b * (m * w));
            assert(b * (-(m * w)) == -(b * (m * w)));
        } else {
            assert((-b) * (-(m * w)) <= (-b) * dy <= (-b) * (m * w));
            assert((-b) * dy == -(b * dy));
            assert((-b) * (-(m * w)) == -((-b) * (m * w)));
        }
    }
    assert(magnitude(a) * (m * w) + magnitude(b) * (m * w) == w * bound) by (nonlinear_arith)
        requires
            bound == m * (magnitude(a) + magnitude(b)),
    ;
    assert(-(w * bound) <= w * r <= w * bound);
    assert(-bound <= r <= bound) by (nonlinear_arith)
        requires
            0 < w,
            -(w * bound) <= w * r <= w * bound,
    {
        if r > bound {
            assert(w * r >= w * (bound + 1));
            assert(w * (bound + 1) == w * bound + w);
        }
        if r < -bound {
            assert(w * r <= w * (-bound - 1));
            assert(w * (-bound - 1) == -(w * bound) - w);
        }
    }
}

} // verus!
