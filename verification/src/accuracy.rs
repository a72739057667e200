//! How far rounding moves the computed curve from the exact one.
//!
//! Every blend rounds towards negative infinity, so a computed value never
//! lies above the exact one, and for a parameter in the unit interval it
//! lies below it by at most one unit of the last place for each level of
//! the scheme. The bounds are stated on one coordinate at a time, over the
//! sequence of that coordinate's values.

use vstd::prelude::*;
use vstd::arithmetic::power::{lemma_pow_adds, lemma_pow_distributes, lemma_pow_positive, pow};
use crate::exact::{
    exact_casteljau, exact_point_at, exact_split_left, exact_split_right,
    lemma_exact_parameter_step, lemma_exact_subdivision_left, lemma_exact_subdivision_right,
    lemma_pow_step, steps_within,
};
use crate::fixed::{lerp, lerp_wide, magnitude, HALF, ONE};

verus! {

/// The computed scheme on one coordinate: `casteljau`, coordinate by
/// coordinate, over the sequence of that coordinate's values.
pub open spec fn casteljau_axis(v: Seq<int>, level: nat, offset: int, t: int) -> int
    decreases level,
{
    if level == 0 {
        v[offset]
    } else {
        lerp(
            casteljau_axis(v, (level - 1) as nat, offset, t),
            casteljau_axis(v, (level - 1) as nat, offset + 1, t),
            t,
        )
    }
}

/// Every value of the sequence is one that an `i64` holds.
pub open spec fn in_range(v: Seq<int>) -> bool {
    forall|j: int| 0 <= j < v.len() ==> i64::MIN <= #[trigger] v[j] <= i64::MAX
}

/// A fixed-point parameter `t` that stands for the fraction `p / q` of the
/// unit interval.
pub open spec fn is_fraction(t: int, p: int, q: int) -> bool {
    &&& 0 < q
    &&& 0 <= p <= q
    &&& p * ONE == t * q
}

/// A parameter that stands for a fraction of the unit interval lies in it.
pub proof fn lemma_fraction_in_unit(t: int, p: int, q: int)
    requires
        is_fraction(t, p, q),
    ensures
        0 <= t <= ONE,
{
    let one = ONE as int;
    assert(0 <= t <= one) by (nonlinear_arith)
        requires
            0 < q,
            0 <= p <= q,
            p * one == t * q,
            one == 4294967296,
    {
        assert(0 <= p * one);
        assert(p * one <= q * one);
    }
}

/// One blend at a parameter of the unit interval is not saturated, lies
/// between its two arguments, and falls short of the exact blend by less
/// than one unit.
pub proof fn lemma_lerp_bounds(a: int, b: int, t: int, p: int, q: int)
    requires
        i64::MIN <= a <= i64::MAX,
        i64::MIN <= b <= i64::MAX,
        is_fraction(t, p, q),
    ensures
        lerp(a, b, t) == lerp_wide(a, b, t),
        a <= b ==> a <= lerp(a, b, t) <= b,
        b <= a ==> b <= lerp(a, b, t) <= a,
        q * lerp(a, b, t) <= (q - p) * a + p * b < q * lerp(a, b, t) + q,
{
    lemma_fraction_in_unit(t, p, q);
    let one = ONE as int;
    let d = b - a;
    let x = d * t;
    let fl = x / one;
    assert(one * fl <= x < one * fl + one);
    assert(d >= 0 ==> 0 <= x <= d * one) by (nonlinear_arith)
        requires
            x == d * t,
            0 <= t <= one,
    ;
    assert(d <= 0 ==> d * one <= x <= 0) by (nonlinear_arith)
        requires
            x == d * t,
            0 <= t <= one,
    ;
    let c = a + fl;
    assert(c == lerp(a, b, t));
    // the exact blend, scaled by both denominators
    let e = (q - p) * a + p * b;
    let k = p * one;
    assert(one * ((q - p) * a) == (one * q) * a - k * a) by (nonlinear_arith)
        requires
            k == p * one,
    ;
    assert(one * (p * b) == k * b) by (nonlinear_arith)
        requires
            k == p * one,
    ;
    assert(one * e == one * ((q - p) * a) + one * (p * b)) by (nonlinear_arith)
        requires
            e == (q - p) * a + p * b,
    ;
    assert(k * b - k * a == k * d) by (nonlinear_arith)
        requires
            d == b - a,
    ;
    assert(k * d == q * x) by (nonlinear_arith)
        requires
            k == t * q,
            x == d * t,
    ;
    assert(q * (one * a + x) == (one * q) * a + q * x) by (nonlinear_arith);
    assert(one * e == q * (one * a + x));
    assert(q * c <= e < q * c + q) by (nonlinear_arith)
        requires
            one * e == q * (one * a + x),
            one * fl <= x < one * fl + one,
            c == a + fl,
            0 < q,
            one == 4294967296,
    {
        assert(q * (one * a + one * fl) <= q * (one * a + x));
        assert(q * (one * a + x) < q * (one * a + one * fl + one));
        assert(q * (one * a + one * fl) == one * (q * c));
        assert(q * (one * a + one * fl + one) == one * (q * c + q));
    }
}

/// The computed scheme on one coordinate holds only values of `i64`.
pub proof fn lemma_axis_in_range(v: Seq<int>, level: nat, offset: int, t: int)
    requires
        in_range(v),
        0 <= offset,
        offset + level < v.len(),
    ensures
        i64::MIN <= casteljau_axis(v, level, offset, t) <= i64::MAX,
{
}

/// The gap between an exact blend and a computed one, in terms of the gaps
/// of their arguments and of the rounding of the blend itself.
proof fn lemma_gap_step(p: int, q: int, w: int, ea: int, eb: int, ca: int, cb: int, c: int)
    ensures
        ((q - p) * ea + p * eb) - (q * w) * c == (q - p) * (ea - w * ca) + p * (eb - w * cb) + w
            * ((q - p) * ca + p * cb - q * c),
{
    let da = ea - w * ca;
    let db = eb - w * cb;
    let g = (q - p) * ca + p * cb - q * c;
    assert((q - p) * da == (q - p) * ea - (q - p) * (w * ca)) by (nonlinear_arith)
        requires
            da == ea - w * ca,
    ;
    assert(p * db == p * eb - p * (w * cb)) by (nonlinear_arith)
        requires
            db == eb - w * cb,
    ;
    assert(w * g == w * ((q - p) * ca) + w * (p * cb) - w * (q * c)) by (nonlinear_arith)
        requires
            g == (q - p) * ca + p * cb - q * c,
    ;
    assert((q - p) * (w * ca) == w * ((q - p) * ca)) by (nonlinear_arith);
    assert(p * (w * cb) == w * (p * cb)) by (nonlinear_arith);
    assert(w * (q * c) == (q * w) * c) by (nonlinear_arith);
}

/// For a parameter that stands for `p / q`, the computed scheme never lies
/// above the exact one, and lies below it by at most one unit for each
/// level: the bounds are stated over the denominator `pow(q, level)`.
pub proof fn lemma_rounding_bound(v: Seq<int>, level: nat, offset: int, t: int, p: int, q: int)
    requires
        in_range(v),
        0 <= offset,
        offset + level < v.len(),
        is_fraction(t, p, q),
    ensures
        0 <= exact_casteljau(v, level, offset, p, q) - pow(q, level) * casteljau_axis(
            v,
            level,
            offset,
            t,
        ) <= level * pow(q, level),
    decreases level,
{
    if level == 0 {
        vstd::arithmetic::power::lemma_pow0(q);
    } else {
        let l = (level - 1) as nat;
        lemma_rounding_bound(v, l, offset, t, p, q);
        lemma_rounding_bound(v, l, offset + 1, t, p, q);
        lemma_axis_in_range(v, l, offset, t);
        lemma_axis_in_range(v, l, offset + 1, t);
        let ca = casteljau_axis(v, l, offset, t);
        let cb = casteljau_axis(v, l, offset + 1, t);
        let c = casteljau_axis(v, level, offset, t);
        let ea = exact_casteljau(v, l, offset, p, q);
        let eb = exact_casteljau(v, l, offset + 1, p, q);
        let e = exact_casteljau(v, level, offset, p, q);
        let w = pow(q, l);
        lemma_pow_positive(q, l);
        lemma_pow_step(q, l);
        lemma_lerp_bounds(ca, cb, t, p, q);
        let da = ea - w * ca;
        let db = eb - w * cb;
        let g = (q - p) * ca + p * cb - q * c;
        lemma_gap_step(p, q, w, ea, eb, ca, cb, c);
        assert(0 <= (q - p) * da + p * db + w * g <= level * (q * w)) by (nonlinear_arith)
            requires
                0 <= da <= l * w,
                0 <= db <= l * w,
                0 <= g <= q,
                0 <= p <= q,
                0 < w,
                level == l + 1,
        {
            assert(0 <= (q - p) * da <= (q - p) * (l * w));
            assert(0 <= p * db <= p * (l * w));
            assert(0 <= w * g <= w * q);
            assert((q - p) * (l * w) + p * (l * w) == q * (l * w));
            assert(q * (l * w) + w * q == (l + 1) * (q * w));
        }
    }
}

/// No blend of the scheme over the window leaves the range of `i64`, so
/// none is saturated.
pub open spec fn unsaturated(v: Seq<int>, level: nat, offset: int, t: int) -> bool
    decreases level,
{
    level == 0 || {
        &&& unsaturated(v, (level - 1) as nat, offset, t)
        &&& unsaturated(v, (level - 1) as nat, offset + 1, t)
        &&& i64::MIN <= lerp_wide(
            casteljau_axis(v, (level - 1) as nat, offset, t),
            casteljau_axis(v, (level - 1) as nat, offset + 1, t),
            t,
        ) <= i64::MAX
    }
}

/// The two weights of a blend at `t`, `1 - t` and `t`, have sizes that add
/// up to at most `spread`: 1 inside the unit interval, and more the
/// further `t` lies outside it.
pub open spec fn within_spread(t: int, spread: int) -> bool {
    &&& 1 <= spread
    &&& magnitude(ONE - t) + magnitude(t) <= spread * ONE
}

/// How many units of the last place rounding can move a point of the
/// scheme at `level`: each level multiplies what the level below lost by
/// the spread of the weights and loses up to one unit more. For the spread
/// 1 this is `level`.
pub open spec fn rounding_units(level: nat, spread: int) -> int
    decreases level,
{
    if level == 0 {
        0
    } else {
        spread * rounding_units((level - 1) as nat, spread) + 1
    }
}

/// A product is at most as large as the sizes of its factors allow.
proof fn lemma_product_size(x: int, d: int, bound: int)
    by (nonlinear_arith)
    requires
        -bound <= d <= bound,
    ensures
        -(magnitude(x) * bound) <= x * d <= magnitude(x) * bound,
{
    if x >= 0 {
        assert(x * (-bound) <= x * d <= x * bound);
        assert(x * (-bound) == -(x * bound));
    } else {
        assert((-x) * (-bound) <= (-x) * d <= (-x) * bound);
        assert((-x) * d == -(x * d));
        assert((-x) * (-bound) == -((-x) * bound));
    }
}

/// The units that rounding can cost are never negative, and inside the
/// unit interval they are one for each level.
pub proof fn lemma_rounding_units(level: nat, spread: int)
    requires
        1 <= spread,
    ensures
        0 <= rounding_units(level, spread),
        level <= rounding_units(level, spread),
        spread == 1 ==> rounding_units(level, spread) == level,
    decreases level,
{
    if level > 0 {
        let l = (level - 1) as nat;
        lemma_rounding_units(l, spread);
        let u = rounding_units(l, spread);
        assert(spread * u >= u) by (nonlinear_arith)
            requires
                1 <= spread,
                0 <= u,
        ;
    }
}

/// For every parameter, inside the unit interval or outside it: where no
/// blend saturates, the computed scheme lies within `rounding_units` units
/// of the exact one. The bounds are stated over the denominator
/// `pow(ONE, level)`.
pub proof fn lemma_rounding_bound_everywhere(
    v: Seq<int>,
    level: nat,
    offset: int,
    t: int,
    spread: int,
)
    requires
        in_range(v),
        0 <= offset,
        offset + level < v.len(),
        within_spread(t, spread),
        unsaturated(v, level, offset, t),
    ensures
        -(rounding_units(level, spread) * pow(ONE as int, level)) <= exact_casteljau(
            v,
            level,
            offset,
            t,
            ONE as int,
        ) - pow(ONE as int, level) * casteljau_axis(v, level, offset, t) <= rounding_units(
            level,
            spread,
        ) * pow(ONE as int, level),
    decreases level,
{
    let one = ONE as int;
    if level == 0 {
        vstd::arithmetic::power::lemma_pow0(one);
    } else {
        let l = (level - 1) as nat;
        lemma_rounding_bound_everywhere(v, l, offset, t, spread);
        lemma_rounding_bound_everywhere(v, l, offset + 1, t, spread);
        lemma_rounding_units(l, spread);
        let ca = casteljau_axis(v, l, offset, t);
        let cb = casteljau_axis(v, l, offset + 1, t);
        let c = casteljau_axis(v, level, offset, t);
        let ea = exact_casteljau(v, l, offset, t, one);
        let eb = exact_casteljau(v, l, offset + 1, t, one);
        let e = exact_casteljau(v, level, offset, t, one);
        let w = pow(one, l);
        let u = rounding_units(l, spread);
        lemma_pow_positive(one, l);
        lemma_pow_step(one, l);
        // the blend itself loses less than one unit
        let x = (cb - ca) * t;
        let fl = x / one;
        assert(c == ca + fl);
        assert(one * fl <= x < one * fl + one);
        let g = (one - t) * ca + t * cb - one * c;
        assert((one - t) * ca + t * cb == one * ca + x) by (nonlinear_arith)
            requires
                x == (cb - ca) * t,
        ;
        assert(0 <= g < one);
        // the gaps below are spread by the weights
        let da = ea - w * ca;
        let db = eb - w * cb;
        lemma_gap_step(t, one, w, ea, eb, ca, cb, c);
        let bound = u * w;
        lemma_product_size(one - t, da, bound);
        lemma_product_size(t, db, bound);
        let size = magnitude(one - t) + magnitude(t);
        assert(magnitude(one - t) * bound + magnitude(t) * bound == size * bound)
            by (nonlinear_arith)
            requires
                size == magnitude(one - t) + magnitude(t),
        ;
        assert(size * bound <= (spread * one) * bound) by (nonlinear_arith)
            requires
                size <= spread * one,
                0 <= bound,
        ;
        assert(0 <= bound) by (nonlinear_arith)
            requires
                bound == u * w,
                0 <= u,
                0 < w,
        ;
        assert((spread * one) * bound == (spread * u) * (one * w)) by (nonlinear_arith)
            requires
                bound == u * w,
        ;
        assert(0 <= w * g <= one * w) by (nonlinear_arith)
            requires
                0 <= g < one,
                0 < w,
        ;
        assert((spread * u) * (one * w) + one * w == (spread * u + 1) * (one * w))
            by (nonlinear_arith);
        assert(0 <= (spread * u) * (one * w)) by (nonlinear_arith)
            requires
                1 <= spread,
                0 <= u,
                0 < w,
                one == 4294967296,
        ;
    }
}

/// Inside the unit interval no blend saturates, and the weights have the
/// spread 1.
pub proof fn lemma_unit_interval_fits(v: Seq<int>, level: nat, offset: int, t: int)
    requires
        in_range(v),
        0 <= offset,
        offset + level < v.len(),
        0 <= t <= ONE,
    ensures
        unsaturated(v, level, offset, t),
        within_spread(t, 1),
    decreases level,
{
    if level > 0 {
        let l = (level - 1) as nat;
        lemma_unit_interval_fits(v, l, offset, t);
        lemma_unit_interval_fits(v, l, offset + 1, t);
        lemma_axis_in_range(v, l, offset, t);
        lemma_axis_in_range(v, l, offset + 1, t);
        assert(is_fraction(t, t, ONE as int));
        lemma_lerp_bounds(
            casteljau_axis(v, l, offset, t),
            casteljau_axis(v, l, offset + 1, t),
            t,
            t,
            ONE as int,
        );
    }
}

/// If every value of `a` exceeds `c` times the value of `b` at the same
/// place by at most `delta`, and by nothing negative, then so do the exact
/// schemes over them, up to the denominator.
pub proof fn lemma_exact_monotone(
    a: Seq<int>,
    b: Seq<int>,
    c: int,
    delta: int,
    level: nat,
    offset: int,
    p: int,
    q: int,
)
    requires
        0 <= p <= q,
        forall|j: int| offset <= j <= offset + level ==> 0 <= (#[trigger] a[j]) - c * b[j] <= delta,
    ensures
        0 <= exact_casteljau(a, level, offset, p, q) - c * exact_casteljau(b, level, offset, p, q)
            <= delta * pow(q, level),
    decreases level,
{
    if level == 0 {
        vstd::arithmetic::power::lemma_pow0(q);
        assert(0 <= a[offset] - c * b[offset] <= delta);
    } else {
        let l = (level - 1) as nat;
        lemma_exact_monotone(a, b, c, delta, l, offset, p, q);
        lemma_exact_monotone(a, b, c, delta, l, offset + 1, p, q);
        let a0 = exact_casteljau(a, l, offset, p, q);
        let a1 = exact_casteljau(a, l, offset + 1, p, q);
        let b0 = exact_casteljau(b, l, offset, p, q);
        let b1 = exact_casteljau(b, l, offset + 1, p, q);
        let w = pow(q, l);
        lemma_pow_step(q, l);
        let d0 = a0 - c * b0;
        let d1 = a1 - c * b1;
        assert((q - p) * d0 == (q - p) * a0 - (q - p) * (c * b0)) by (nonlinear_arith)
            requires
                d0 == a0 - c * b0,
        ;
        assert(p * d1 == p * a1 - p * (c * b1)) by (nonlinear_arith)
            requires
                d1 == a1 - c * b1,
        ;
        assert(c * ((q - p) * b0 + p * b1) == c * ((q - p) * b0) + c * (p * b1))
            by (nonlinear_arith);
        assert((q - p) * (c * b0) == c * ((q - p) * b0)) by (nonlinear_arith);
        assert(p * (c * b1) == c * (p * b1)) by (nonlinear_arith);
        assert(((q - p) * a0 + p * a1) - c * ((q - p) * b0 + p * b1) == (q - p) * d0 + p * d1);
        assert(0 <= (q - p) * d0 + p * d1 <= delta * (q * w)) by (nonlinear_arith)
            requires
                0 <= d0 <= delta * w,
                0 <= d1 <= delta * w,
                0 <= p <= q,
        {
            assert(0 <= (q - p) * d0 <= (q - p) * (delta * w));
            assert(0 <= p * d1 <= p * (delta * w));
            assert((q - p) * (delta * w) + p * (delta * w) == q * (delta * w));
            assert(q * (delta * w) == delta * (q * w));
        }
    }
}

/// The control values of the computed first half, on one coordinate.
pub open spec fn axis_split_left(v: Seq<int>) -> Seq<int> {
    Seq::new(v.len(), |k: int| casteljau_axis(v, k as nat, 0, HALF as int))
}

/// The control values of the computed second half, on one coordinate.
pub open spec fn axis_split_right(v: Seq<int>) -> Seq<int> {
    Seq::new(v.len(), |j: int| casteljau_axis(v, (v.len() - 1 - j) as nat, j, HALF as int))
}

/// A gap of at most `k` units at the scale `wj` is a gap of at most `k`
/// units at the larger scale `we * wj`.
proof fn lemma_scaled_gap(we: int, wj: int, s: int, l: int, k: int)
    by (nonlinear_arith)
    requires
        0 < we,
        0 < wj,
        0 <= s - wj * l <= k * wj,
    ensures
        0 <= we * s - (we * wj) * l <= k * (we * wj),
{
    assert(we * s - (we * wj) * l == we * (s - wj * l));
    assert(0 <= we * (s - wj * l) <= we * (k * wj));
    assert(we * (k * wj) == k * (we * wj));
}

/// The control value at place `k` of the computed first half never lies
/// above the exact one, and lies below it by at most `k` units. The bounds
/// are stated over the denominator two to the power `len - 1`.
pub proof fn lemma_axis_split_left_accuracy(v: Seq<int>, k: int)
    requires
        in_range(v),
        0 <= k < v.len(),
    ensures
        0 <= exact_split_left(v)[k] - pow(2, (v.len() - 1) as nat) * axis_split_left(v)[k] <= k
            * pow(2, (v.len() - 1) as nat),
        k * pow(2, (v.len() - 1) as nat) <= (v.len() - 1) * pow(2, (v.len() - 1) as nat),
{
    let m = (v.len() - 1) as nat;
    assert(is_fraction(HALF as int, 1, 2));
    lemma_rounding_bound(v, k as nat, 0, HALF as int, 1, 2);
    lemma_pow_positive(2, k as nat);
    lemma_pow_positive(2, (m - k) as nat);
    lemma_pow_positive(2, m);
    lemma_pow_adds(2, (m - k) as nat, k as nat);
    lemma_scaled_gap(
        pow(2, (m - k) as nat),
        pow(2, k as nat),
        exact_casteljau(v, k as nat, 0, 1, 2),
        axis_split_left(v)[k],
        k,
    );
    assert(k * pow(2, m) <= m * pow(2, m)) by (nonlinear_arith)
        requires
            k <= m,
            0 < pow(2, m),
    ;
}

/// The control value at place `j` of the computed second half never lies
/// above the exact one, and lies below it by at most `len - 1 - j` units.
/// The bounds are stated over the denominator two to the power `len - 1`.
pub proof fn lemma_axis_split_right_accuracy(v: Seq<int>, j: int)
    requires
        in_range(v),
        0 <= j < v.len(),
    ensures
        0 <= exact_split_right(v)[j] - pow(2, (v.len() - 1) as nat) * axis_split_right(v)[j] <= (
        v.len() - 1 - j) * pow(2, (v.len() - 1) as nat),
        (v.len() - 1 - j) * pow(2, (v.len() - 1) as nat) <= (v.len() - 1) * pow(
            2,
            (v.len() - 1) as nat,
        ),
{
    let m = (v.len() - 1) as nat;
    assert(is_fraction(HALF as int, 1, 2));
    lemma_rounding_bound(v, (m - j) as nat, j, HALF as int, 1, 2);
    lemma_pow_positive(2, j as nat);
    lemma_pow_positive(2, (m - j) as nat);
    lemma_pow_positive(2, m);
    lemma_pow_adds(2, j as nat, (m - j) as nat);
    lemma_scaled_gap(
        pow(2, j as nat),
        pow(2, (m - j) as nat),
        exact_casteljau(v, (m - j) as nat, j, 1, 2),
        axis_split_right(v)[j],
        m - j,
    );
    assert((m - j) * pow(2, m) <= m * pow(2, m)) by (nonlinear_arith)
        requires
            0 <= j,
            0 < pow(2, m),
    ;
}

/// Two gaps in a row add up: one of at most `m` units at the scale `c2 * w`
/// and one of at most `m` units at the scale `w`, taken `c2` times.
proof fn lemma_gap_sum(x: int, el: int, cl: int, c2: int, w: int, m: int)
    by (nonlinear_arith)
    requires
        0 < c2,
        0 < w,
        0 <= m,
        0 <= x - c2 * el <= (m * c2) * w,
        0 <= el - w * cl <= m * w,
    ensures
        0 <= x - (c2 * w) * cl <= (2 * m) * (c2 * w),
{
    let s = c2 * w;
    assert(0 <= c2 * (el - w * cl) <= c2 * (m * w));
    assert(c2 * (el - w * cl) == c2 * el - s * cl);
    assert(c2 * (m * w) == m * s);
    assert((m * c2) * w == m * s);
    assert((2 * m) * s == m * s + m * s);
}

/// Two values that fall short of one exact value, the first by at most
/// `2 * m` units of the scale `s` and the second by at most `m`, differ by
/// at most that much.
proof fn lemma_gap_difference(x: int, cl: int, cv: int, s: int, m: int)
    by (nonlinear_arith)
    requires
        0 < s,
        0 <= m,
        0 <= x - s * cl <= (2 * m) * s,
        0 <= x - s * cv <= m * s,
    ensures
        -2 * m <= cl - cv <= m,
{
    assert(s * (cl - cv) == (x - s * cv) - (x - s * cl));
    assert(-((2 * m) * s) <= s * (cl - cv) <= m * s);
    assert(cl - cv <= m) by {
        if cl - cv >= m + 1 {
            assert(s * (cl - cv) >= s * (m + 1));
            assert(s * (m + 1) == m * s + s);
        }
    }
    assert(cl - cv >= -2 * m) by {
        if cl - cv <= -2 * m - 1 {
            assert(s * (cl - cv) <= s * (-2 * m - 1));
            assert(s * (-2 * m - 1) == -((2 * m) * s) - s);
        }
    }
}

/// The curve computed over a computed half, against the exact curve that
/// the exact half traces: it never lies above it, and lies below it by at
/// most two units for each level.
proof fn lemma_half_against_exact(v: Seq<int>, half: Seq<int>, scaled: Seq<int>, u: int)
    requires
        in_range(half),
        v.len() >= 1,
        half.len() == v.len(),
        scaled.len() == v.len(),
        0 <= u <= ONE,
        forall|j: int|
            0 <= j < v.len() ==> 0 <= (#[trigger] scaled[j]) - pow(2, (v.len() - 1) as nat)
                * half[j] <= ((v.len() - 1) * pow(2, (v.len() - 1) as nat)),
    ensures
        0 <= exact_point_at(scaled, u, ONE as int) - pow(2 * ONE, (v.len() - 1) as nat)
            * casteljau_axis(half, (v.len() - 1) as nat, 0, u) <= (2 * (v.len() - 1)) * pow(
            2 * ONE,
            (v.len() - 1) as nat,
        ),
{
    let m = (v.len() - 1) as nat;
    let one = ONE as int;
    let c2 = pow(2, m);
    let w = pow(one, m);
    lemma_pow_positive(2, m);
    lemma_pow_positive(one, m);
    lemma_pow_distributes(2, one, m);
    lemma_exact_monotone(scaled, half, c2, m * c2, m, 0, u, one);
    assert(is_fraction(u, u, one));
    lemma_rounding_bound(half, m, 0, u, u, one);
    lemma_gap_sum(
        exact_point_at(scaled, u, one),
        exact_casteljau(half, m, 0, u, one),
        casteljau_axis(half, m, 0, u),
        c2,
        w,
        m as int,
    );
}

/// The computed halves hold only values of `i64`.
proof fn lemma_halves_in_range(v: Seq<int>)
    requires
        in_range(v),
    ensures
        in_range(axis_split_left(v)),
        in_range(axis_split_right(v)),
{
    let m = v.len() - 1;
    assert forall|j: int| 0 <= j < v.len() implies i64::MIN <= #[trigger] axis_split_left(v)[j]
        <= i64::MAX by {
        lemma_axis_in_range(v, j as nat, 0, HALF as int);
    }
    assert forall|j: int| 0 <= j < v.len() implies i64::MIN <= #[trigger] axis_split_right(v)[j]
        <= i64::MAX by {
        lemma_axis_in_range(v, (m - j) as nat, j, HALF as int);
    }
}

/// Subdivision on one coordinate, against the exact curve: at a parameter
/// `u` of the unit interval, the curve computed over the computed first
/// half never lies above the exact curve at `u / 2`, and lies below it by at
/// most two units for each level; and so does the curve computed over the
/// computed second half, against the exact curve at `1/2 + u / 2`. The
/// exact values are numerators over `2 * ONE` to the power `len - 1`.
pub proof fn lemma_axis_halves_against_exact(v: Seq<int>, u: int)
    requires
        in_range(v),
        v.len() >= 1,
        0 <= u <= ONE,
    ensures
        0 <= exact_point_at(v, u, 2 * ONE) - pow(2 * ONE, (v.len() - 1) as nat) * casteljau_axis(
            axis_split_left(v),
            (v.len() - 1) as nat,
            0,
            u,
        ) <= (2 * (v.len() - 1)) * pow(2 * ONE, (v.len() - 1) as nat),
        0 <= exact_point_at(v, ONE + u, 2 * ONE) - pow(2 * ONE, (v.len() - 1) as nat)
            * casteljau_axis(axis_split_right(v), (v.len() - 1) as nat, 0, u) <= (2 * (v.len()
            - 1)) * pow(2 * ONE, (v.len() - 1) as nat),
{
    let m = (v.len() - 1) as nat;
    lemma_halves_in_range(v);
    assert forall|j: int| 0 <= j < v.len() implies 0 <= (#[trigger] exact_split_left(v)[j]) - pow(
        2,
        m,
    ) * axis_split_left(v)[j] <= m * pow(2, m) by {
        lemma_axis_split_left_accuracy(v, j);
    }
    assert forall|j: int| 0 <= j < v.len() implies 0 <= (#[trigger] exact_split_right(v)[j]) - pow(
        2,
        m,
    ) * axis_split_right(v)[j] <= m * pow(2, m) by {
        lemma_axis_split_right_accuracy(v, j);
    }
    lemma_exact_subdivision_left(v, u, ONE as int);
    lemma_exact_subdivision_right(v, u, ONE as int);
    lemma_half_against_exact(v, axis_split_left(v), exact_split_left(v), u);
    lemma_half_against_exact(v, axis_split_right(v), exact_split_right(v), u);
}

/// Subdivision on one coordinate, first half: the curve computed over the
/// computed first half at an even `u` of the unit interval, against the
/// curve computed over the whole polygon at `u / 2`.
pub proof fn lemma_axis_subdivision_left(v: Seq<int>, u: int)
    requires
        in_range(v),
        v.len() >= 1,
        0 <= u <= ONE,
        u % 2 == 0,
    ensures
        -2 * (v.len() - 1) <= casteljau_axis(axis_split_left(v), (v.len() - 1) as nat, 0, u)
            - casteljau_axis(v, (v.len() - 1) as nat, 0, u / 2) <= v.len() - 1,
{
    let m = (v.len() - 1) as nat;
    lemma_axis_halves_against_exact(v, u);
    assert(is_fraction(u / 2, u, 2 * ONE));
    lemma_rounding_bound(v, m, 0, u / 2, u, 2 * ONE);
    lemma_pow_positive(2 * ONE, m);
    lemma_gap_difference(
        exact_point_at(v, u, 2 * ONE),
        casteljau_axis(axis_split_left(v), m, 0, u),
        casteljau_axis(v, m, 0, u / 2),
        pow(2 * ONE, m),
        m as int,
    );
}

/// Subdivision on one coordinate, second half: the curve computed over the
/// computed second half at an even `u` of the unit interval, against the
/// curve computed over the whole polygon at `1/2 + u / 2`.
pub proof fn lemma_axis_subdivision_right(v: Seq<int>, u: int)
    requires
        in_range(v),
        v.len() >= 1,
        0 <= u <= ONE,
        u % 2 == 0,
    ensures
        -2 * (v.len() - 1) <= casteljau_axis(axis_split_right(v), (v.len() - 1) as nat, 0, u)
            - casteljau_axis(v, (v.len() - 1) as nat, 0, HALF + u / 2) <= v.len() - 1,
{
    let m = (v.len() - 1) as nat;
    lemma_axis_halves_against_exact(v, u);
    assert(is_fraction(HALF + u / 2, ONE + u, 2 * ONE));
    lemma_rounding_bound(v, m, 0, HALF + u / 2, ONE + u, 2 * ONE);
    lemma_pow_positive(2 * ONE, m);
    lemma_gap_difference(
        exact_point_at(v, ONE + u, 2 * ONE),
        casteljau_axis(axis_split_right(v), m, 0, u),
        casteljau_axis(v, m, 0, HALF + u / 2),
        pow(2 * ONE, m),
        m as int,
    );
}

/// How far the exact curve moves over half a unit of the parameter, in
/// whole units of the last place: the levels of the scheme times the
/// largest step between neighbouring control values, over `2 * ONE`.
pub open spec fn half_step_units(levels: int, d: int) -> int {
    (levels * d) / (2 * ONE)
}

/// Two values that fall short of two exact values one parameter step apart,
/// the first by at most `2 * m` units of the scale `s` and the second by at
/// most `m`, differ by at most that much and the step.
proof fn lemma_gap_difference_stepped(
    xu: int,
    xv: int,
    cl: int,
    cv: int,
    s: int,
    m: int,
    k: int,
)
    requires
        0 < s,
        0 <= m,
        0 <= k,
        0 <= xu - s * cl <= (2 * m) * s,
        0 <= xv - s * cv <= m * s,
        -(k * s) <= (2 * ONE) * (xu - xv) <= k * s,
    ensures
        -(2 * m + k / (2 * ONE)) <= cl - cv <= m + k / (2 * ONE),
{
    let q: int = 8589934592;
    assert(q == 2 * ONE);
    let z = cl - cv;
    let step = xu - xv;
    let gl = xu - s * cl;
    let gv = xv - s * cv;
    assert(s * z == s * cl - s * cv) by (nonlinear_arith)
        requires
            z == cl - cv,
    ;
    let sz = s * z;
    let ks = k * s;
    let ms = m * s;
    let ms2 = (2 * m) * s;
    assert(sz == step + gv - gl);
    assert(-ks <= q * step <= ks);
    assert(-ks - q * ms2 <= q * sz <= ks + q * ms) by (nonlinear_arith)
        requires
            q == 8589934592,
            sz == step + gv - gl,
            -ks <= q * step <= ks,
            0 <= gl <= ms2,
            0 <= gv <= ms,
    {
        assert(q * sz == q * step + q * gv - q * gl);
        assert(0 <= q * gv <= q * ms);
        assert(0 <= q * gl <= q * ms2);
    }
    assert(q * (s * z) == s * (q * z)) by (nonlinear_arith);
    assert(k * s + q * (m * s) == s * (k + q * m)) by (nonlinear_arith);
    assert(-(k * s) - q * ((2 * m) * s) == s * (-(k + q * (2 * m)))) by (nonlinear_arith);
    assert(q * z <= k + q * m) by (nonlinear_arith)
        requires
            0 < s,
            s * (q * z) <= s * (k + q * m),
    ;
    assert(q * z >= -(k + q * (2 * m))) by (nonlinear_arith)
        requires
            0 < s,
            s * (q * z) >= s * (-(k + q * (2 * m))),
    ;
}

/// Subdivision on one coordinate, first half, at every parameter `u` of
/// the unit interval: the curve computed over the computed first half at
/// `u`, against the curve computed over the whole polygon at `u / 2`,
/// rounded down. For an odd `u` the two parameters are half a unit apart,
/// and the curve itself moves by up to `half_step_units` in between.
pub proof fn lemma_axis_subdivision_left_every(v: Seq<int>, u: int, d: int)
    requires
        in_range(v),
        v.len() >= 1,
        0 <= u <= ONE,
        0 <= d,
        steps_within(v, 0, v.len() - 1, d),
    ensures
        magnitude(
            casteljau_axis(axis_split_left(v), (v.len() - 1) as nat, 0, u) - casteljau_axis(
                v,
                (v.len() - 1) as nat,
                0,
                u / 2,
            ),
        ) <= 2 * (v.len() - 1) + (u % 2) * half_step_units(v.len() - 1, d),
{
    let m = (v.len() - 1) as nat;
    let h = half_step_units(m as int, d);
    assert((u % 2) * h == if u % 2 == 0 { 0 } else { h }) by (nonlinear_arith)
        requires
            0 <= u,
    ;
    if u % 2 == 0 {
        lemma_axis_subdivision_left(v, u);
    } else {
        lemma_axis_halves_against_exact(v, u);
        assert(is_fraction(u / 2, u - 1, 2 * ONE));
        lemma_rounding_bound(v, m, 0, u / 2, u - 1, 2 * ONE);
        lemma_exact_parameter_step(v, m, 0, u - 1, 2 * ONE, d);
        lemma_pow_positive(2 * ONE, m);
        assert(0 <= m * d) by (nonlinear_arith)
            requires
                0 <= d,
        ;
        lemma_gap_difference_stepped(
            exact_point_at(v, u, 2 * ONE),
            exact_point_at(v, u - 1, 2 * ONE),
            casteljau_axis(axis_split_left(v), m, 0, u),
            casteljau_axis(v, m, 0, u / 2),
            pow(2 * ONE, m),
            m as int,
            m * d,
        );
    }
}

/// Subdivision on one coordinate, second half, at every parameter `u` of
/// the unit interval: the curve computed over the computed second half at
/// `u`, against the curve computed over the whole polygon at
/// `1/2 + u / 2`, rounded down.
pub proof fn lemma_axis_subdivision_right_every(v: Seq<int>, u: int, d: int)
    requires
        in_range(v),
        v.len() >= 1,
        0 <= u <= ONE,
        0 <= d,
        steps_within(v, 0, v.len() - 1, d),
    ensures
        magnitude(
            casteljau_axis(axis_split_right(v), (v.len() - 1) as nat, 0, u) - casteljau_axis(
                v,
                (v.len() - 1) as nat,
                0,
                HALF + u / 2,
            ),
        ) <= 2 * (v.len() - 1) + (u % 2) * half_step_units(v.len() - 1, d),
{
    let m = (v.len() - 1) as nat;
    let h = half_step_units(m as int, d);
    assert((u % 2) * h == if u % 2 == 0 { 0 } else { h }) by (nonlinear_arith)
        requires
            0 <= u,
    ;
    if u % 2 == 0 {
        lemma_axis_subdivision_right(v, u);
    } else {
        lemma_axis_halves_against_exact(v, u);
        assert(is_fraction(HALF + u / 2, ONE + u - 1, 2 * ONE));
        lemma_rounding_bound(v, m, 0, HALF + u / 2, ONE + u - 1, 2 * ONE);
        lemma_exact_parameter_step(v, m, 0, ONE + u - 1, 2 * ONE, d);
        lemma_pow_positive(2 * ONE, m);
        assert(0 <= m * d) by (nonlinear_arith)
            requires
                0 <= d,
        ;
        lemma_gap_difference_stepped(
            exact_point_at(v, ONE + u, 2 * ONE),
            exact_point_at(v, ONE + u - 1, 2 * ONE),
            casteljau_axis(axis_split_right(v), m, 0, u),
            casteljau_axis(v, m, 0, HALF + u / 2),
            pow(2 * ONE, m),
            m as int,
            m * d,
        );
    }
}

} // verus!
