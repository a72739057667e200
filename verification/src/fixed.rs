//! Fixed-point scalars: the unit and the blend of two scalars.

use vstd::prelude::*;

verus! {

/// The fixed-point representation of 1: two to the power 32.
pub const ONE: i64 = 4294967296;

/// The fixed-point representation of one half.
pub const HALF: i64 = 2147483648;

/// The absolute value of an integer.
pub open spec fn magnitude(v: int) -> int {
    if v < 0 {
        -v
    } else {
        v
    }
}

/// The nearest value to `v` that an `i64` can hold.
pub open spec fn saturate(v: int) -> int {
    if v < i64::MIN {
        i64::MIN as int
    } else if v > i64::MAX {
        i64::MAX as int
    } else {
        v
    }
}

/// The blend of two scalars before saturation: `a + (b - a) * t`, with the
/// product scaled back by `ONE` and rounded towards negative infinity.
pub open spec fn lerp_wide(a: int, b: int, t: int) -> int {
    a + ((b - a) * t) / (ONE as int)
}

/// The blend of the scalars `a` and `b` at the parameter `t`.
pub open spec fn lerp(a: int, b: int, t: int) -> int {
    saturate(lerp_wide(a, b, t))
}

/// The scalar one third of the way from `a` to `b`: a third of the
/// difference, rounded towards negative infinity, added to `a`. It lies
/// between `a` and `b`, so it needs no saturation.
pub open spec fn lerp_third(a: int, b: int) -> int {
    a + (b - a) / 3
}

/// Brings a 128-bit value into the range of `i64`.
pub fn saturate_fixed(v: i128) -> (res: i64)
    ensures
        res == saturate(v as int),
{
    if v < i64::MIN as i128 {
        i64::MIN
    } else if v > i64::MAX as i128 {
        i64::MAX
    } else {
        v as i64
    }
}

/// Computes `lerp` on machine integers, in 128-bit arithmetic.
pub fn lerp_fixed(a: i64, b: i64, t: i64) -> (res: i64)
    ensures
        res == lerp(a as int, b as int, t as int),
{
    let diff: i128 = b as i128 - a as i128;
    let factor: i128 = t as i128;
    assert(-0x1_0000_0000_0000_0000 < diff < 0x1_0000_0000_0000_0000);
    assert(-0x8000_0000_0000_0000 <= factor < 0x8000_0000_0000_0000);
    assert(-0x8000_0000_0000_0000_0000_0000_0000_0000 < diff * factor
        < 0x8000_0000_0000_0000_0000_0000_0000_0000) by (nonlinear_arith)
        requires
            -0x1_0000_0000_0000_0000 < diff < 0x1_0000_0000_0000_0000,
            -0x8000_0000_0000_0000 <= factor < 0x8000_0000_0000_0000,
    ;
    let product: i128 = diff * factor;
    let one: i128 = ONE as i128;
    assert(-0x8000_0000_0000_0000_0000_0000 <= product / one
        <= 0x8000_0000_0000_0000_0000_0000) by (nonlinear_arith)
        requires
            one == 4294967296,
            -0x8000_0000_0000_0000_0000_0000_0000_0000 < product
                < 0x8000_0000_0000_0000_0000_0000_0000_0000,
    ;
    let scaled: i128 = product.checked_div_euclid(one).unwrap();
    saturate_fixed(a as i128 + scaled)
}

/// Computes `lerp_third` on machine integers, in 128-bit arithmetic.
pub fn third_fixed(a: i64, b: i64) -> (res: i64)
    ensures
        res == lerp_third(a as int, b as int),
        a <= b ==> a <= res <= b,
        b <= a ==> b <= res <= a,
{
    let diff: i128 = b as i128 - a as i128;
    let third: i128 = diff.checked_div_euclid(3).unwrap();
    (a as i128 + third) as i64
}

} // verus!
