//! Bezier curves over fixed-point coordinates, evaluated and subdivided
//! with de Casteljau's algorithm.
//!
//! Coordinates and curve parameters are signed fixed-point numbers with 32
//! fractional bits, held in `i64`. Every interpolation rounds towards
//! negative infinity and saturates at the ends of the `i64` range, so each
//! operation is total and its result is a function of its arguments alone.

pub mod accuracy;
pub mod control_poly;
pub mod coord;
pub mod curve;
pub mod exact;
pub mod fixed;
pub mod laws;

pub use control_poly::{ControlPoly, CurveError};
pub use coord::Coord2D;
pub use fixed::{lerp_fixed, saturate_fixed, third_fixed, HALF, ONE};
