//! What the curve operations compute, as functions of the sequence of
//! control points.

use vstd::prelude::*;
use crate::coord::{blend, Coord2D};
use crate::fixed::{HALF, ONE};

verus! {

/// The point of de Casteljau's scheme at `level` and `offset` for the
/// parameter `t`: level 0 holds the control points themselves, and each
/// further level blends two neighbours of the level below at `t`.
pub open spec fn casteljau(data: Seq<Coord2D>, level: nat, offset: int, t: i64) -> Coord2D
    decreases level,
{
    if level == 0 {
        data[offset]
    } else {
        blend(
            casteljau(data, (level - 1) as nat, offset, t),
            casteljau(data, (level - 1) as nat, offset + 1, t),
            t,
        )
    }
}

/// The point of the curve at the parameter `t`: the apex of the scheme.
pub open spec fn point_at(data: Seq<Coord2D>, t: i64) -> Coord2D {
    casteljau(data, (data.len() - 1) as nat, 0, t)
}

/// The control points of the first half of the curve: the first point of
/// every level of the scheme at one half, from the bottom up.
pub open spec fn split_left(data: Seq<Coord2D>) -> Seq<Coord2D> {
    Seq::new(data.len(), |k: int| casteljau(data, k as nat, 0, HALF))
}

/// The control points of the second half of the curve: the last point of
/// every level of the scheme at one half, from the apex down.
pub open spec fn split_right(data: Seq<Coord2D>) -> Seq<Coord2D> {
    Seq::new(data.len(), |j: int| casteljau(data, (data.len() - 1 - j) as nat, j, HALF))
}

/// The polyline of one flattening pass: the control points of the first
/// half of the curve, followed by the last control point.
pub open spec fn flattened(data: Seq<Coord2D>) -> Seq<Coord2D> {
    split_left(data).push(data.last())
}

/// The distance in parameter between two samples: one over `iterations`,
/// rounded up to the next fixed-point number. Without iterations it is the
/// whole unit, so that only the start of the curve is sampled.
pub open spec fn sample_step(iterations: u16) -> int {
    if iterations == 0 {
        ONE as int
    } else {
        (ONE + iterations - 1) / (iterations as int)
    }
}

/// How many multiples of the step, counted from zero, lie below one.
pub open spec fn sample_count(iterations: u16) -> nat {
    if iterations == 0 {
        1
    } else {
        iterations as nat
    }
}

/// The points of the curve at the multiples of the step that lie below one,
/// in increasing order of the parameter.
pub open spec fn uniform_samples(data: Seq<Coord2D>, iterations: u16) -> Seq<Coord2D> {
    Seq::new(
        sample_count(iterations),
        |k: int| point_at(data, (k * sample_step(iterations)) as i64),
    )
}

/// The step is positive and at most one; the multiples of it that lie below
/// one are exactly those with a factor below `sample_count`.
pub proof fn lemma_sample_step(iterations: u16)
    ensures
        1 <= sample_step(iterations) <= ONE,
        (sample_count(iterations) - 1) * sample_step(iterations) < ONE,
        ONE <= sample_count(iterations) * sample_step(iterations),
{
    if iterations != 0 {
        let n = iterations as int;
        let one = ONE as int;
        let step = sample_step(iterations);
        assert(step == (one + n - 1) / n);
        assert(n * step <= one + n - 1 < n * step + n && 1 <= step <= one) by (nonlinear_arith)
            requires
                step == (one + n - 1) / n,
                1 <= n <= 65535,
                one == 4294967296,
        ;
        assert((n - 1) * step < one) by (nonlinear_arith)
            requires
                n * step <= one + n - 1,
                1 <= n <= 65535,
                one == 4294967296,
                1 <= step,
        {
            assert((n - 1) * (n * step) <= (n - 1) * (one + n - 1));
            assert((n - 1) * (n - 1) < one);
            assert(n * ((n - 1) * step) == (n - 1) * (n * step));
            assert(n * ((n - 1) * step) < n * one);
        }
    }
}

/// The parameters of the samples start at zero, increase, and stay below one.
pub proof fn lemma_sample_parameters(iterations: u16, k: int)
    requires
        0 <= k < sample_count(iterations),
    ensures
        0 <= k * sample_step(iterations) < ONE,
        k == 0 ==> k * sample_step(iterations) == 0,
        k > 0 ==> (k - 1) * sample_step(iterations) < k * sample_step(iterations),
{
    lemma_sample_step(iterations);
    let step = sample_step(iterations);
    let last = sample_count(iterations) - 1;
    assert(0 <= k * step <= last * step) by (nonlinear_arith)
        requires
            0 <= k <= last,
            0 < step,
    ;
    assert((k - 1) * step + step == k * step) by (nonlinear_arith);
}

/// A multiple of a positive step that lies below a bound has a smaller
/// factor than any multiple that reaches the bound.
pub proof fn lemma_multiples_below(k: int, count: int, step: int, bound: int)
    by (nonlinear_arith)
    requires
        0 < step,
        k * step < bound <= count * step,
    ensures
        k < count,
{
}

/// A multiple of a positive step that reaches a bound has a larger factor
/// than any multiple that lies below the bound.
pub proof fn lemma_multiples_reach(k: int, count: int, step: int, bound: int)
    by (nonlinear_arith)
    requires
        0 < step,
        k <= count,
        (count - 1) * step < bound <= k * step,
    ensures
        k == count,
{
}

} // verus!
