//! The curve without rounding. A parameter is a fraction `p / q`, and a
//! point of de Casteljau's scheme is held as a numerator over the
//! denominator `q` to the power of its level, so that every value is an
//! integer and every law is an equation.

use vstd::prelude::*;
use vstd::arithmetic::power::{lemma_pow0, lemma_pow_positive, pow};
use crate::fixed::magnitude;

verus! {

/// The numerator of the scheme's point at `level` and `offset` for the
/// parameter `p / q`, over the denominator `pow(q, level)`.
pub open spec fn exact_casteljau(v: Seq<int>, level: nat, offset: int, p: int, q: int) -> int
    decreases level,
{
    if level == 0 {
        v[offset]
    } else {
        (q - p) * exact_casteljau(v, (level - 1) as nat, offset, p, q) + p * exact_casteljau(
            v,
            (level - 1) as nat,
            offset + 1,
            p,
            q,
        )
    }
}

/// The numerator of the curve's point at `p / q`, over `pow(q, len - 1)`.
pub open spec fn exact_point_at(v: Seq<int>, p: int, q: int) -> int {
    exact_casteljau(v, (v.len() - 1) as nat, 0, p, q)
}

/// The control values of the first half of the curve, each multiplied by
/// two to the power `len - 1`.
pub open spec fn exact_split_left(v: Seq<int>) -> Seq<int> {
    Seq::new(
        v.len(),
        |k: int| pow(2, (v.len() - 1 - k) as nat) * exact_casteljau(v, k as nat, 0, 1, 2),
    )
}

/// The control values of the second half of the curve, each multiplied by
/// two to the power `len - 1`.
pub open spec fn exact_split_right(v: Seq<int>) -> Seq<int> {
    Seq::new(
        v.len(),
        |j: int| pow(2, j as nat) * exact_casteljau(v, (v.len() - 1 - j) as nat, j, 1, 2),
    )
}

/// At the parameter zero every point of the scheme is the first control
/// value of its window, and at the parameter one the last.
pub proof fn lemma_exact_endpoints(v: Seq<int>, level: nat, offset: int, q: int)
    ensures
        exact_casteljau(v, level, offset, 0, q) == pow(q, level) * v[offset],
        exact_casteljau(v, level, offset, q, q) == pow(q, level) * v[offset + level],
    decreases level,
{
    if level == 0 {
        lemma_pow0(q);
    } else {
        let l = (level - 1) as nat;
        lemma_exact_endpoints(v, l, offset, q);
        lemma_exact_endpoints(v, l, offset + 1, q);
        lemma_pow_step(q, l);
        let w = pow(q, l);
        assert((q - 0) * (w * v[offset]) + 0 * exact_casteljau(v, l, offset + 1, 0, q) == (q * w)
            * v[offset]) by (nonlinear_arith);
        assert((q - q) * exact_casteljau(v, l, offset, q, q) + q * (w * v[offset + 1 + l]) == (q
            * w) * v[offset + 1 + l]) by (nonlinear_arith);
    }
}

/// The halves meet in the point of the curve at one half: the last control
/// value of the first half and the first of the second are that point, and
/// the outer control values are those of the whole curve. All are
/// numerators over two to the power `len - 1`.
pub proof fn lemma_exact_midpoint(v: Seq<int>)
    requires
        v.len() >= 1,
    ensures
        exact_split_left(v).last() == exact_point_at(v, 1, 2),
        exact_split_right(v).first() == exact_point_at(v, 1, 2),
        exact_split_left(v).first() == pow(2, (v.len() - 1) as nat) * v.first(),
        exact_split_right(v).last() == pow(2, (v.len() - 1) as nat) * v.last(),
{
    lemma_pow0(2);
}

/// Control points on one line give points of the scheme on that line: if
/// `a * x + b * y == c` holds of every control point of a window, it holds
/// of the scheme's point over that window, with `c` brought to the
/// denominator of the numerators.
pub proof fn lemma_exact_colinear(
    vx: Seq<int>,
    vy: Seq<int>,
    a: int,
    b: int,
    c: int,
    level: nat,
    offset: int,
    p: int,
    q: int,
)
    requires
        forall|j: int|
            offset <= j <= offset + level ==> a * (#[trigger] vx[j]) + b * vy[j] == c,
    ensures
        a * exact_casteljau(vx, level, offset, p, q) + b * exact_casteljau(vy, level, offset, p, q)
            == c * pow(q, level),
    decreases level,
{
    if level == 0 {
        lemma_pow0(q);
        assert(a * vx[offset] + b * vy[offset] == c);
    } else {
        let l = (level - 1) as nat;
        lemma_exact_colinear(vx, vy, a, b, c, l, offset, p, q);
        lemma_exact_colinear(vx, vy, a, b, c, l, offset + 1, p, q);
        lemma_pow_step(q, l);
        let w = pow(q, l);
        let x0 = exact_casteljau(vx, l, offset, p, q);
        let x1 = exact_casteljau(vx, l, offset + 1, p, q);
        let y0 = exact_casteljau(vy, l, offset, p, q);
        let y1 = exact_casteljau(vy, l, offset + 1, p, q);
        lemma_weighted_pair(a, x0, x1, q - p, p);
        lemma_weighted_pair(b, y0, y1, q - p, p);
        assert((q - p) * (a * x0) + (q - p) * (b * y0) == (q - p) * (c * w)) by (nonlinear_arith)
            requires
                a * x0 + b * y0 == c * w,
        ;
        assert(p * (a * x1) + p * (b * y1) == p * (c * w)) by (nonlinear_arith)
            requires
                a * x1 + b * y1 == c * w,
        ;
        assert((q - p) * (c * w) + p * (c * w) == c * (q * w)) by (nonlinear_arith);
    }
}

/// Neighbouring control values differ by at most `d` over the places from
/// `from` up to, but without, `to`.
pub open spec fn steps_within(v: Seq<int>, from: int, to: int, d: int) -> bool {
    forall|j: int| from <= j < to ==> magnitude(#[trigger] v[j + 1] - v[j]) <= d
}

/// Neighbouring points of the scheme lie no further apart than neighbouring
/// control values do: at a parameter of the unit interval, two points of
/// one level differ by at most `d`, over the denominator `pow(q, level)`.
pub proof fn lemma_exact_neighbours(v: Seq<int>, level: nat, offset: int, p: int, q: int, d: int)
    requires
        0 <= p <= q,
        0 <= d,
        steps_within(v, offset, offset + level + 1, d),
    ensures
        magnitude(
            exact_casteljau(v, level, offset + 1, p, q) - exact_casteljau(v, level, offset, p, q),
        ) <= d * pow(q, level),
    decreases level,
{
    if level == 0 {
        lemma_pow0(q);
        assert(magnitude(v[offset + 1] - v[offset]) <= d);
    } else {
        let l = (level - 1) as nat;
        lemma_exact_neighbours(v, l, offset, p, q, d);
        lemma_exact_neighbours(v, l, offset + 1, p, q, d);
        lemma_pow_step(q, l);
        let w = pow(q, l);
        let e0 = exact_casteljau(v, l, offset, p, q);
        let e1 = exact_casteljau(v, l, offset + 1, p, q);
        let e2 = exact_casteljau(v, l, offset + 2, p, q);
        let g0 = e1 - e0;
        let g1 = e2 - e1;
        let bound = d * w;
        assert(((q - p) * e1 + p * e2) - ((q - p) * e0 + p * e1) == (q - p) * g0 + p * g1)
            by (nonlinear_arith)
            requires
                g0 == e1 - e0,
                g1 == e2 - e1,
        ;
        lemma_convex_size(q - p, p, g0, g1, bound);
        assert(q * (d * w) == d * (q * w)) by (nonlinear_arith);
    }
}

/// A sum of two values with weights that are not negative is as large as
/// the weights and the sizes of the values allow.
proof fn lemma_convex_size(c0: int, c1: int, g0: int, g1: int, bound: int)
    by (nonlinear_arith)
    requires
        0 <= c0,
        0 <= c1,
        -bound <= g0 <= bound,
        -bound <= g1 <= bound,
    ensures
        -((c0 + c1) * bound) <= c0 * g0 + c1 * g1 <= (c0 + c1) * bound,
{
    assert(c0 * (-bound) <= c0 * g0 <= c0 * bound);
    assert(c1 * (-bound) <= c1 * g1 <= c1 * bound);
    assert((c0 + c1) * bound == c0 * bound + c1 * bound);
    assert(c0 * (-bound) == -(c0 * bound));
    assert(c1 * (-bound) == -(c1 * bound));
}

/// The exact curve moves little from one parameter to the next: from `p / q`
/// to `(p + 1) / q` a point of the scheme moves by at most `level * d / q`,
/// where neighbouring control values differ by at most `d`. The bound is
/// stated after multiplying by `q`, over the denominator `pow(q, level)`.
pub proof fn lemma_exact_parameter_step(
    v: Seq<int>,
    level: nat,
    offset: int,
    p: int,
    q: int,
    d: int,
)
    requires
        0 <= p < q,
        0 <= d,
        steps_within(v, offset, offset + level, d),
    ensures
        magnitude(
            q * (exact_casteljau(v, level, offset, p + 1, q) - exact_casteljau(
                v,
                level,
                offset,
                p,
                q,
            )),
        ) <= (level * d) * pow(q, level),
    decreases level,
{
    if level == 0 {
        lemma_pow0(q);
        assert(q * (v[offset] - v[offset]) == 0) by (nonlinear_arith);
        assert((0 * d) * 1 == 0) by (nonlinear_arith);
    } else {
        let l = (level - 1) as nat;
        lemma_exact_parameter_step(v, l, offset, p, q, d);
        lemma_exact_parameter_step(v, l, offset + 1, p, q, d);
        lemma_exact_neighbours(v, l, offset, p, q, d);
        lemma_pow_step(q, l);
        lemma_pow_positive(q, l);
        let w = pow(q, l);
        let a0 = exact_casteljau(v, l, offset, p, q);
        let a1 = exact_casteljau(v, l, offset, p + 1, q);
        let b0 = exact_casteljau(v, l, offset + 1, p, q);
        let b1 = exact_casteljau(v, l, offset + 1, p + 1, q);
        let f0 = exact_casteljau(v, level, offset, p, q);
        let f1 = exact_casteljau(v, level, offset, p + 1, q);
        assert(f0 == (q - p) * a0 + p * b0);
        assert(f1 == (q - (p + 1)) * a1 + (p + 1) * b1);
        let c0 = q - p - 1;
        let c1 = p + 1;
        let ga = q * (a1 - a0);
        let gb = q * (b1 - b0);
        let gn = b0 - a0;
        // the step of this level, from the steps of the level below
        assert(c0 * a1 == (q - p) * a1 - a1) by (nonlinear_arith)
            requires
                c0 == q - p - 1,
        ;
        assert(c1 * b1 == p * b1 + b1) by (nonlinear_arith)
            requires
                c1 == p + 1,
        ;
        assert(c0 * (a1 - a0) == c0 * a1 - ((q - p) * a0 - a0)) by (nonlinear_arith)
            requires
                c0 == q - p - 1,
        ;
        assert(c1 * (b1 - b0) == c1 * b1 - (p * b0 + b0)) by (nonlinear_arith)
            requires
                c1 == p + 1,
        ;
        assert(f1 - f0 == c0 * (a1 - a0) + c1 * (b1 - b0) + gn);
        assert(q * (f1 - f0) == c0 * ga + c1 * gb + q * gn) by (nonlinear_arith)
            requires
                f1 - f0 == c0 * (a1 - a0) + c1 * (b1 - b0) + gn,
                ga == q * (a1 - a0),
                gb == q * (b1 - b0),
        {
            assert(q * (c0 * (a1 - a0)) == c0 * (q * (a1 - a0)));
            assert(q * (c1 * (b1 - b0)) == c1 * (q * (b1 - b0)));
            assert(q * (c0 * (a1 - a0) + c1 * (b1 - b0) + gn) == q * (c0 * (a1 - a0)) + q * (c1
                * (b1 - b0)) + q * gn);
        }
        let below = (l * d) * w;
        lemma_convex_size(c0, c1, ga, gb, below);
        assert(c0 + c1 == q);
        let near = d * w;
        assert(-(q * near) <= q * gn <= q * near) by (nonlinear_arith)
            requires
                0 < q,
                -near <= gn <= near,
        {
            assert(q * (-near) <= q * gn <= q * near);
            assert(q * (-near) == -(q * near));
        }
        assert(q * below + q * near == (level * d) * (q * w)) by (nonlinear_arith)
            requires
                below == (l * d) * w,
                near == d * w,
                level == l + 1,
        {
            assert(q * ((l * d) * w) == (l * d) * (q * w));
            assert(q * (d * w) == d * (q * w));
            assert((l * d) * (q * w) + d * (q * w) == (l * d + d) * (q * w));
            assert(l * d + d == (l + 1) * d);
        }
    }
}

/// `halves` levels of the scheme at one half, then `level` levels at `p / q`.
spec fn two_stage(v: Seq<int>, halves: nat, level: nat, offset: int, p: int, q: int) -> int
    decreases level,
{
    if level == 0 {
        exact_casteljau(v, halves, offset, 1, 2)
    } else {
        (q - p) * two_stage(v, halves, (level - 1) as nat, offset, p, q) + p * two_stage(
            v,
            halves,
            (level - 1) as nat,
            offset + 1,
            p,
            q,
        )
    }
}

/// The power with one more factor.
pub proof fn lemma_pow_step(b: int, e: nat)
    ensures
        pow(b, e + 1) == b * pow(b, e),
{
    reveal(pow);
}

/// A common factor moves into a weighted sum of two values.
proof fn lemma_weighted_pair(w: int, x0: int, x1: int, c0: int, c1: int)
    ensures
        w * (c0 * x0 + c1 * x1) == c0 * (w * x0) + c1 * (w * x1),
{
    assert(w * (c0 * x0 + c1 * x1) == w * (c0 * x0) + w * (c1 * x1)) by (nonlinear_arith);
    assert(w * (c0 * x0) == c0 * (w * x0)) by (nonlinear_arith);
    assert(w * (c1 * x1) == c1 * (w * x1)) by (nonlinear_arith);
}

/// One more level at one half, taken first, adds two neighbours.
proof fn lemma_half_level_commutes(v: Seq<int>, halves: nat, level: nat, offset: int, p: int, q: int)
    ensures
        two_stage(v, halves + 1, level, offset, p, q) == two_stage(v, halves, level, offset, p, q)
            + two_stage(v, halves, level, offset + 1, p, q),
    decreases level,
{
    if level == 0 {
        let a = exact_casteljau(v, halves, offset, 1, 2);
        let b = exact_casteljau(v, halves, offset + 1, 1, 2);
        assert(exact_casteljau(v, halves + 1, offset, 1, 2) == (2 - 1) * a + 1 * b);
    } else {
        let l = (level - 1) as nat;
        lemma_half_level_commutes(v, halves, l, offset, p, q);
        lemma_half_level_commutes(v, halves, l, offset + 1, p, q);
        let x0 = two_stage(v, halves, l, offset, p, q);
        let x1 = two_stage(v, halves, l, offset + 1, p, q);
        let x2 = two_stage(v, halves, l, offset + 2, p, q);
        assert((q - p) * (x0 + x1) + p * (x1 + x2) == ((q - p) * x0 + p * x1) + ((q - p) * x1 + p
            * x2)) by (nonlinear_arith);
    }
}

/// With no level at one half, the two stages are the scheme itself.
proof fn lemma_no_half_level(v: Seq<int>, level: nat, offset: int, p: int, q: int)
    ensures
        two_stage(v, 0, level, offset, p, q) == exact_casteljau(v, level, offset, p, q),
    decreases level,
{
    if level > 0 {
        lemma_no_half_level(v, (level - 1) as nat, offset, p, q);
        lemma_no_half_level(v, (level - 1) as nat, offset + 1, p, q);
    }
}

/// The scheme over the first half at `p / q` is, up to a power of two, the
/// scheme over the whole curve with `offset` levels at one half and
/// `level` levels at `p / 2q`.
proof fn lemma_left_scheme(v: Seq<int>, level: nat, offset: int, p: int, q: int)
    requires
        0 <= offset,
        offset + level < v.len(),
    ensures
        exact_casteljau(exact_split_left(v), level, offset, p, q) == pow(
            2,
            (v.len() - 1 - offset - level) as nat,
        ) * two_stage(v, offset as nat, level, 0, p, 2 * q),
    decreases level,
{
    let m = v.len() - 1;
    if level > 0 {
        let l = (level - 1) as nat;
        lemma_left_scheme(v, l, offset, p, q);
        lemma_left_scheme(v, l, offset + 1, p, q);
        lemma_half_level_commutes(v, offset as nat, l, 0, p, 2 * q);
        let e = (m - offset - level) as nat;
        let w = pow(2, e);
        lemma_pow_step(2, e);
        let x0 = two_stage(v, offset as nat, l, 0, p, 2 * q);
        let x1 = two_stage(v, offset as nat, l, 1, p, 2 * q);
        lemma_weighted_pair(w, x0, x1, 2 * (q - p) + p, p);
        assert((q - p) * ((2 * w) * x0) == (2 * (q - p)) * (w * x0)) by (nonlinear_arith);
        assert(p * (w * (x0 + x1)) == p * (w * x0) + p * (w * x1)) by (nonlinear_arith);
        assert((2 * (q - p) + p) * (w * x0) == (2 * (q - p)) * (w * x0) + p * (w * x0))
            by (nonlinear_arith);
    }
}

/// The scheme over the second half at `p / q` is, up to a power of two, the
/// scheme over the whole curve with the remaining levels at one half and
/// `level` levels at `(q + p) / 2q`.
proof fn lemma_right_scheme(v: Seq<int>, level: nat, offset: int, p: int, q: int)
    requires
        0 <= offset,
        offset + level < v.len(),
    ensures
        exact_casteljau(exact_split_right(v), level, offset, p, q) == pow(2, offset as nat)
            * two_stage(v, (v.len() - 1 - offset - level) as nat, level, offset, q + p, 2 * q),
    decreases level,
{
    let m = v.len() - 1;
    if level > 0 {
        let l = (level - 1) as nat;
        lemma_right_scheme(v, l, offset, p, q);
        lemma_right_scheme(v, l, offset + 1, p, q);
        let a = (m - offset - level) as nat;
        lemma_half_level_commutes(v, a, l, offset, q + p, 2 * q);
        let w = pow(2, offset as nat);
        lemma_pow_step(2, offset as nat);
        let x0 = two_stage(v, a, l, offset, q + p, 2 * q);
        let x1 = two_stage(v, a, l, offset + 1, q + p, 2 * q);
        lemma_weighted_pair(w, x0, x1, q - p, q + p);
        assert((q - p) * (w * (x0 + x1)) == (q - p) * (w * x0) + (q - p) * (w * x1))
            by (nonlinear_arith);
        assert(p * ((2 * w) * x1) == (2 * p) * (w * x1)) by (nonlinear_arith);
        assert((q + p) * (w * x1) == (q - p) * (w * x1) + (2 * p) * (w * x1)) by (nonlinear_arith);
    }
}

/// Subdivision is exact on the first half: the curve over the control
/// values of the first half, at `p / q`, is the whole curve at `p / 2q`.
/// Both sides are numerators over `pow(2 * q, len - 1)`.
pub proof fn lemma_exact_subdivision_left(v: Seq<int>, p: int, q: int)
    requires
        v.len() >= 1,
    ensures
        exact_point_at(exact_split_left(v), p, q) == exact_point_at(v, p, 2 * q),
{
    let m = (v.len() - 1) as nat;
    lemma_left_scheme(v, m, 0, p, q);
    lemma_no_half_level(v, m, 0, p, 2 * q);
    lemma_pow0(2);
}

/// Subdivision is exact on the second half: the curve over the control
/// values of the second half, at `p / q`, is the whole curve at
/// `(q + p) / 2q`. Both sides are numerators over `pow(2 * q, len - 1)`.
pub proof fn lemma_exact_subdivision_right(v: Seq<int>, p: int, q: int)
    requires
        v.len() >= 1,
    ensures
        exact_point_at(exact_split_right(v), p, q) == exact_point_at(v, q + p, 2 * q),
{
    let m = (v.len() - 1) as nat;
    lemma_right_scheme(v, m, 0, p, q);
    lemma_no_half_level(v, m, 0, q + p, 2 * q);
    lemma_pow0(2);
}

} // verus!
