//! Points of the plane with fixed-point coordinates.

use vstd::prelude::*;
use crate::fixed::{lerp, lerp_fixed, lerp_third, saturate, saturate_fixed, third_fixed, ONE};

verus! {

/// A point, or a vector, of the plane. Each coordinate is a fixed-point
/// number: the field holds the coordinate multiplied by `ONE`.
#[derive(Clone, Copy, Debug, PartialEq, Eq, Structural)]
pub struct Coord2D {
    pub x: i64,
    pub y: i64,
}

/// The point on the line through `left` and `right` at the parameter
/// `factor`: `left + (right - left) * factor`, each coordinate rounded
/// towards negative infinity once and then saturated.
pub open spec fn blend(left: Coord2D, right: Coord2D, factor: i64) -> Coord2D {
    Coord2D {
        x: lerp(left.x as int, right.x as int, factor as int) as i64,
        y: lerp(left.y as int, right.y as int, factor as int) as i64,
    }
}

/// The point one third of the way from `left` to `right`:
/// `left + (right - left) / 3`, each coordinate rounded towards negative
/// infinity.
pub open spec fn blend_third(left: Coord2D, right: Coord2D) -> Coord2D {
    Coord2D {
        x: lerp_third(left.x as int, right.x as int) as i64,
        y: lerp_third(left.y as int, right.y as int) as i64,
    }
}

/// The sum of two vectors, saturated coordinate by coordinate.
pub open spec fn vector_sum(a: Coord2D, b: Coord2D) -> Coord2D {
    Coord2D { x: saturate(a.x + b.x) as i64, y: saturate(a.y + b.y) as i64 }
}

/// The difference of two vectors, saturated coordinate by coordinate.
pub open spec fn vector_difference(a: Coord2D, b: Coord2D) -> Coord2D {
    Coord2D { x: saturate(a.x - b.x) as i64, y: saturate(a.y - b.y) as i64 }
}

/// The vector multiplied by the fixed-point scalar `factor`: each product is
/// scaled back by `ONE`, rounded towards negative infinity and saturated.
pub open spec fn vector_scaled(a: Coord2D, factor: i64) -> Coord2D {
    Coord2D {
        x: saturate((a.x * factor) / (ONE as int)) as i64,
        y: saturate((a.y * factor) / (ONE as int)) as i64,
    }
}

/// The first coordinates of a sequence of points.
pub open spec fn xs(points: Seq<Coord2D>) -> Seq<int> {
    Seq::new(points.len(), |i: int| points[i].x as int)
}

/// The second coordinates of a sequence of points.
pub open spec fn ys(points: Seq<Coord2D>) -> Seq<int> {
    Seq::new(points.len(), |i: int| points[i].y as int)
}

impl Coord2D {
    /// The point with the given fixed-point coordinates.
    pub fn new(x: i64, y: i64) -> (p: Coord2D)
        ensures
            p == (Coord2D { x, y }),
    {
        Coord2D { x, y }
    }

    /// The blend of `self` and `towards` at `factor`, for every factor:
    /// those outside the unit interval extrapolate along the line through
    /// the two points.
    pub fn blended(self, towards: Coord2D, factor: i64) -> (p: Coord2D)
        ensures
            p == blend(self, towards, factor),
    {
        Coord2D {
            x: lerp_fixed(self.x, towards.x, factor),
            y: lerp_fixed(self.y, towards.y, factor),
        }
    }

    /// The point one third of the way from `self` to `towards`.
    pub fn third_towards(self, towards: Coord2D) -> (p: Coord2D)
        ensures
            p == blend_third(self, towards),
            p.x == lerp_third(self.x as int, towards.x as int),
            p.y == lerp_third(self.y as int, towards.y as int),
    {
        Coord2D { x: third_fixed(self.x, towards.x), y: third_fixed(self.y, towards.y) }
    }

    /// The sum of two vectors.
    pub fn plus(self, other: Coord2D) -> (p: Coord2D)
        ensures
            p == vector_sum(self, other),
    {
        Coord2D {
            x: saturate_fixed(self.x as i128 + other.x as i128),
            y: saturate_fixed(self.y as i128 + other.y as i128),
        }
    }

    /// The difference of two vectors.
    pub fn minus(self, other: Coord2D) -> (p: Coord2D)
        ensures
            p == vector_difference(self, other),
    {
        Coord2D {
            x: saturate_fixed(self.x as i128 - other.x as i128),
            y: saturate_fixed(self.y as i128 - other.y as i128),
        }
    }

    /// The vector multiplied by the fixed-point scalar `factor`.
    pub fn scaled(self, factor: i64) -> (p: Coord2D)
        ensures
            p == vector_scaled(self, factor),
    {
        Coord2D { x: lerp_fixed(0, self.x, factor), y: lerp_fixed(0, self.y, factor) }
    }
}

} // verus!
