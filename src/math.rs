use vstd::prelude::*;

verus! {

/// Absolute value of an integer.
pub open spec fn abs(a: int) -> int {
    if a < 0 { -a } else { a }
}

/// The operand of larger magnitude; `b` when both are equally large.
pub open spec fn absmax_spec(a: int, b: int) -> int {
    if abs(a) > abs(b) { a } else { b }
}

/// Returns whichever of `a` and `b` has the larger absolute value, and `b` on a
/// tie.
pub fn absmax(a: i32, b: i32) -> (r: i32)
    ensures
        r == absmax_spec(a as int, b as int),
{
    let a_abs: i64 = if a < 0 { -(a as i64) } else { a as i64 };
    let b_abs: i64 = if b < 0 { -(b as i64) } else { b as i64 };
    if a_abs > b_abs { a } else { b }
}

} // verus!
