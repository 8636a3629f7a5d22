use vstd::prelude::*;

verus! {

pub open spec fn clamp_i32(v: int) -> i32 {
    if v < i32::MIN { i32::MIN } else if v > i32::MAX { i32::MAX } else { v as i32 }
}

/// `a - b`, held within the `i32` range.
pub fn saturating_sub_i32(a: i32, b: i32) -> (r: i32)
    ensures
        r == clamp_i32(a - b),
{
    let v = a as i64 - b as i64;
    if v < i32::MIN as i64 { i32::MIN } else if v > i32::MAX as i64 { i32::MAX } else { v as i32 }
}

/// `a + b`, held within the `i32` range.
pub fn saturating_add_i32(a: i32, b: i32) -> (r: i32)
    ensures
        r == clamp_i32(a + b),
{
    let v = a as i64 + b as i64;
    if v < i32::MIN as i64 { i32::MIN } else if v > i32::MAX as i64 { i32::MAX } else { v as i32 }
}

/// `a * b`, held within the `i32` range.
pub fn saturating_mul_i32(a: i32, b: i32) -> (r: i32)
    ensures
        r == clamp_i32(a * b),
{
    assert(-0x4000_0000_0000_0000 <= (a as int) * (b as int) <= 0x4000_0000_0000_0000) by (nonlinear_arith)
        requires
            i32::MIN <= a <= i32::MAX,
            i32::MIN <= b <= i32::MAX,
    ;
    let v = a as i64 * b as i64;
    if v < i32::MIN as i64 { i32::MIN } else if v > i32::MAX as i64 { i32::MAX } else { v as i32 }
}

} // verus!
