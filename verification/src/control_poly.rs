//! The control polygon of a Bezier curve and the operations on it.

use vstd::prelude::*;
use crate::coord::{blend, blend_third, Coord2D};
use crate::curve::{
    casteljau, flattened, lemma_multiples_below, lemma_multiples_reach, lemma_sample_step, point_at,
    sample_count, sample_step, split_left, split_right, uniform_samples,
};
use crate::fixed::{lerp_third, HALF, ONE};
use crate::laws::lemma_endpoint_fidelity;

verus! {

/// Why an operation on a control polygon gave no result.
#[derive(Clone, Copy, Debug, PartialEq, Eq, Structural)]
pub enum CurveError {
    /// The polygon has fewer than two control points, so it defines no curve.
    InsufficientPoints,
}

/// The control points of a Bezier curve, in the order of the curve's
/// parameter, with two attributes for drawing that no operation reads.
#[derive(Debug, PartialEq)]
pub struct ControlPoly {
    pub data: Vec<Coord2D>,
    pub closed: bool,
    pub line_thickness: u8,
}

impl View for ControlPoly {
    type V = Seq<Coord2D>;

    /// The control points, in the order of the curve's parameter.
    open spec fn view(&self) -> Seq<Coord2D> {
        self.data@
    }
}

/// Replaces `row` by the next level of the scheme: the blends at `t` of its
/// neighbours, one fewer than it had.
fn reduce_row(row: &mut Vec<Coord2D>, t: i64)
    requires
        old(row).len() >= 1,
    ensures
        final(row).len() == old(row).len() - 1,
        forall|j: int|
            0 <= j < final(row).len() ==> #[trigger] final(row)[j] == blend(
                old(row)[j],
                old(row)[j + 1],
                t,
            ),
{
    let ghost before = row@;
    let mut j: usize = 0;
    while j + 1 < row.len()
        invariant
            row.len() == before.len(),
            before.len() >= 1,
            j + 1 <= row.len(),
            forall|m: int| 0 <= m < j ==> #[trigger] row[m] == blend(before[m], before[m + 1], t),
            forall|m: int| j <= m < row.len() ==> #[trigger] row[m] == before[m],
        decreases row.len() - j,
    {
        let p = row[j].blended(row[j + 1], t);
        row.set(j, p);
        j += 1;
    }
    row.pop();
}

/// A copy of the points of `data` from `start` up to, but without, `end`.
fn copy_points(data: &Vec<Coord2D>, start: usize, end: usize) -> (copy: Vec<Coord2D>)
    requires
        start <= end <= data.len(),
    ensures
        copy@ == data@.subrange(start as int, end as int),
{
    let mut copy: Vec<Coord2D> = Vec::new();
    let mut j: usize = start;
    while j < end
        invariant
            start <= j <= end <= data.len(),
            copy@ == data@.subrange(start as int, j as int),
        decreases end - j,
    {
        copy.push(data[j]);
        j += 1;
    }
    copy
}

/// The point of the scheme over the window of `r + 1` points of `data` that
/// starts at `i`, for the parameter `t`: the window is copied to a working
/// row, which is reduced `r` times.
fn scheme_point(data: &Vec<Coord2D>, r: usize, i: usize, t: i64) -> (p: Coord2D)
    requires
        r + i < data.len(),
    ensures
        p == casteljau(data@, r as nat, i as int, t),
{
    let mut row: Vec<Coord2D> = copy_points(data, i, i + r + 1);
    let mut level: usize = 0;
    while level < r
        invariant
            r + i < data.len(),
            level <= r,
            row.len() == r + 1 - level,
            forall|j: int|
                0 <= j < row.len() ==> #[trigger] row[j] == casteljau(
                    data@,
                    level as nat,
                    i + j,
                    t,
                ),
        decreases r - level,
    {
        reduce_row(&mut row, t);
        level += 1;
    }
    row[0]
}

impl ControlPoly {
    /// The polygon has the two control points that a curve needs at least.
    pub open spec fn defines_curve(&self) -> bool {
        self@.len() >= 2
    }

    /// The blend of two points at a `factor` strictly inside the unit
    /// interval. `Coord2D::blended` takes every factor.
    pub fn casteljau_divisor(left: Coord2D, right: Coord2D, factor: i64) -> (p: Coord2D)
        requires
            0 < factor < ONE,
        ensures
            p == blend(left, right, factor),
    {
        left.blended(right, factor)
    }

    /// The midpoint of two points.
    pub fn casteljau_divisor_half(left: Coord2D, right: Coord2D) -> (p: Coord2D)
        ensures
            p == blend(left, right, HALF),
    {
        Self::casteljau_divisor(left, right, HALF)
    }

    /// The point one third of the way from `left` to `right`.
    pub fn a_frame_divisor(left: Coord2D, right: Coord2D) -> (p: Coord2D)
        ensures
            p == blend_third(left, right),
            p.x == lerp_third(left.x as int, right.x as int),
            p.y == lerp_third(left.y as int, right.y as int),
    {
        left.third_towards(right)
    }

    /// A polygon over `points` with the given attributes. It takes any
    /// number of points; `with_attributes` refuses those that define no
    /// curve.
    pub fn new(points: Vec<Coord2D>, closed: bool, line_thickness: u8) -> (poly: ControlPoly)
        ensures
            poly.data == points,
            poly.closed == closed,
            poly.line_thickness == line_thickness,
    {
        ControlPoly { data: points, closed, line_thickness }
    }

    /// A polygon over `points` with the given attributes, if `points`
    /// defines a curve.
    pub fn with_attributes(
        points: Vec<Coord2D>,
        closed: bool,
        line_thickness: u8,
    ) -> (res: Result<ControlPoly, CurveError>)
        ensures
            points.len() < 2 <==> res == Err::<ControlPoly, CurveError>(
                CurveError::InsufficientPoints,
            ),
            points.len() >= 2 <==> res == Ok::<ControlPoly, CurveError>(
                ControlPoly { data: points, closed, line_thickness },
            ),
            res matches Ok(poly) ==> poly.defines_curve(),
    {
        if points.len() < 2 {
            return Err(CurveError::InsufficientPoints);
        }
        Ok(ControlPoly { data: points, closed, line_thickness })
    }

    /// The point of de Casteljau's scheme over the window of `r + 1` control
    /// points that starts at `i`, for the parameter `t`.
    pub fn get_casteljau_point(&self, r: usize, i: usize, t: i64) -> (res: Result<Coord2D, CurveError>)
        requires
            self.defines_curve() ==> r + i < self@.len(),
        ensures
            !self.defines_curve() <==> res == Err::<Coord2D, CurveError>(
                CurveError::InsufficientPoints,
            ),
            self.defines_curve() <==> res == Ok::<Coord2D, CurveError>(
                casteljau(self@, r as nat, i as int, t),
            ),
    {
        if self.data.len() < 2 {
            return Err(CurveError::InsufficientPoints);
        }
        Ok(scheme_point(&self.data, r, i, t))
    }

    /// The point of the curve at the parameter `t`. Parameters outside the
    /// unit interval extrapolate the curve.
    pub fn point_at(&self, t: i64) -> (res: Result<Coord2D, CurveError>)
        ensures
            !self.defines_curve() <==> res == Err::<Coord2D, CurveError>(
                CurveError::InsufficientPoints,
            ),
            self.defines_curve() <==> res == Ok::<Coord2D, CurveError>(point_at(self@, t)),
            self.defines_curve() && t == 0 ==> res == Ok::<Coord2D, CurveError>(self@.first()),
            self.defines_curve() && t == ONE ==> res == Ok::<Coord2D, CurveError>(self@.last()),
    {
        if self.data.len() < 2 {
            return Err(CurveError::InsufficientPoints);
        }
        proof {
            lemma_endpoint_fidelity(self@, (self@.len() - 1) as nat, 0);
        }
        Ok(scheme_point(&self.data, self.data.len() - 1, 0, t))
    }

    /// Samples the curve at the multiples of the step for `iterations` that
    /// lie below one, in increasing order: `iterations` points, or the
    /// start of the curve alone when `iterations` is zero. The point at
    /// parameter one is never among them.
    pub fn eval_spline_uniform(&self, iterations: u16) -> (res: Result<Vec<Coord2D>, CurveError>)
        ensures
            !self.defines_curve() <==> res == Err::<Vec<Coord2D>, CurveError>(
                CurveError::InsufficientPoints,
            ),
            self.defines_curve() <==> res is Ok,
            res matches Ok(points) ==> points@ == uniform_samples(self@, iterations),
    {
        if self.data.len() < 2 {
            return Err(CurveError::InsufficientPoints);
        }
        let step: i64 = if iterations == 0 {
            ONE
        } else {
            (ONE + (iterations as i64) - 1) / (iterations as i64)
        };
        proof {
            lemma_sample_step(iterations);
        }
        let mut points: Vec<Coord2D> = Vec::new();
        let mut t: i64 = 0;
        assert(points.len() * step == 0) by (nonlinear_arith)
            requires
                points.len() == 0,
        ;
        while t < ONE
            invariant
                self.data.len() >= 2,
                step == sample_step(iterations),
                1 <= step <= ONE,
                0 <= t < 2 * ONE,
                t == points.len() * step,
                points.len() <= sample_count(iterations),
                (sample_count(iterations) - 1) * step < ONE <= sample_count(iterations) * step,
                forall|k: int|
                    0 <= k < points.len() ==> #[trigger] points[k] == point_at(
                        self.data@,
                        (k * step) as i64,
                    ),
            decreases 2 * ONE - t,
        {
            let p = scheme_point(&self.data, self.data.len() - 1, 0, t);
            proof {
                lemma_multiples_below(
                    points.len() as int,
                    sample_count(iterations) as int,
                    step as int,
                    ONE as int,
                );
                assert((points.len() + 1) * step == points.len() * step + step)
                    by (nonlinear_arith);
            }
            points.push(p);
            t = t + step;
        }
        proof {
            lemma_multiples_reach(
                points.len() as int,
                sample_count(iterations) as int,
                step as int,
                ONE as int,
            );
            assert(points@ =~= uniform_samples(self.data@, iterations));
        }
        Ok(points)
    }

    /// One flattening pass: a polygon whose points are the first point of
    /// every level of the scheme at one half, from the control points up to
    /// the point of the curve, and then the last control point. It keeps
    /// the attributes of `self`.
    pub fn eval_with_casteljau(&self) -> (res: Result<ControlPoly, CurveError>)
        ensures
            !self.defines_curve() <==> res == Err::<ControlPoly, CurveError>(
                CurveError::InsufficientPoints,
            ),
            self.defines_curve() <==> res is Ok,
            res matches Ok(poly) ==> {
                &&& poly@ == flattened(self@)
                &&& poly.closed == self.closed
                &&& poly.line_thickness == self.line_thickness
                &&& poly.defines_curve()
            },
    {
        let n = self.data.len();
        if n < 2 {
            return Err(CurveError::InsufficientPoints);
        }
        let mut row: Vec<Coord2D> = copy_points(&self.data, 0, n);
        let mut output: Vec<Coord2D> = Vec::new();
        output.push(row[0]);
        output.push(row[n - 1]);
        let mut k: usize = 1;
        while k < n
            invariant
                n == self.data.len(),
                1 <= k <= n,
                row.len() == n - (k - 1),
                forall|j: int|
                    0 <= j < row.len() ==> #[trigger] row[j] == casteljau(
                        self.data@,
                        (k - 1) as nat,
                        j,
                        HALF,
                    ),
                output.len() == k + 1,
                forall|m: int|
                    0 <= m < k ==> #[trigger] output[m] == casteljau(self.data@, m as nat, 0, HALF),
                output[k as int] == self.data[n - 1],
            decreases n - k,
        {
            reduce_row(&mut row, HALF);
            output.insert(k, row[0]);
            k += 1;
        }
        proof {
            assert(output@ =~= flattened(self.data@));
        }
        Ok(ControlPoly { data: output, closed: self.closed, line_thickness: self.line_thickness })
    }

    /// Splits the curve at one half. The result holds the control polygon of
    /// the first half, the point of the curve at one half, and the control
    /// polygon of the second half; both polygons keep the attributes of
    /// `self` and have as many points as it.
    pub fn get_casteljau_point_mid_sub(&self) -> (res: Result<
        (ControlPoly, Coord2D, ControlPoly),
        CurveError,
    >)
        ensures
            !self.defines_curve() <==> res == Err::<
                (ControlPoly, Coord2D, ControlPoly),
                CurveError,
            >(CurveError::InsufficientPoints),
            self.defines_curve() <==> res is Ok,
            res matches Ok((left, mid, right)) ==> {
                &&& left@ == split_left(self@)
                &&& right@ == split_right(self@)
                &&& mid == point_at(self@, HALF)
                &&& mid == left@.last()
                &&& mid == right@.first()
                &&& left.defines_curve()
                &&& right.defines_curve()
                &&& left.closed == self.closed
                &&& right.closed == self.closed
                &&& left.line_thickness == self.line_thickness
                &&& right.line_thickness == self.line_thickness
            },
    {
        let n = self.data.len();
        if n < 2 {
            return Err(CurveError::InsufficientPoints);
        }
        let mut row: Vec<Coord2D> = copy_points(&self.data, 0, n);
        let mut left: Vec<Coord2D> = Vec::new();
        let mut right: Vec<Coord2D> = Vec::new();
        left.push(row[0]);
        right.push(row[n - 1]);
        let mut k: usize = 1;
        while k < n
            invariant
                n == self.data.len(),
                1 <= k <= n,
                row.len() == n - (k - 1),
                forall|j: int|
                    0 <= j < row.len() ==> #[trigger] row[j] == casteljau(
                        self.data@,
                        (k - 1) as nat,
                        j,
                        HALF,
                    ),
                left.len() == k,
                forall|m: int|
                    0 <= m < k ==> #[trigger] left[m] == casteljau(self.data@, m as nat, 0, HALF),
                right.len() == k,
                forall|m: int|
                    0 <= m < k ==> #[trigger] right[m] == casteljau(
                        self.data@,
                        (k - 1 - m) as nat,
                        n - k + m,
                        HALF,
                    ),
            decreases n - k,
        {
            reduce_row(&mut row, HALF);
            let ghost before = right@;
            left.push(row[0]);
            right.insert(0, row[n - k - 1]);
            proof {
                assert forall|m: int| 0 <= m < k + 1 implies #[trigger] right[m] == casteljau(
                    self.data@,
                    (k - m) as nat,
                    n - (k + 1) + m,
                    HALF,
                ) by {
                    if m > 0 {
                        assert(right[m] == before[m - 1]);
                    }
                }
            }
            k += 1;
        }
        let mid = row[0];
        proof {
            assert(left@ =~= split_left(self.data@));
            assert(right@ =~= split_right(self.data@));
        }
        let first_half = ControlPoly {
            data: left,
            closed: self.closed,
            line_thickness: self.line_thickness,
        };
        let second_half = ControlPoly {
            data: right,
            closed: self.closed,
            line_thickness: self.line_thickness,
        };
        Ok((first_half, mid, second_half))
    }
}

} // verus!
