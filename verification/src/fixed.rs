use vstd::arithmetic::div_mod::{
    lemma_fundamental_div_mod, lemma_fundamental_div_mod_converse, lemma_mod_bound,
};
use vstd::prelude::*;

verus! {

/// Fixed-point scale: a real quantity `r` is held as the integer `r * SCALE`.
pub const SCALE: i64 = 10_000;

/// The nearest `i32` to `v`.
pub open spec fn clamp(v: int) -> i32 {
    if v < i32::MIN {
        i32::MIN
    } else if v > i32::MAX {
        i32::MAX
    } else {
        v as i32
    }
}

/// The quotient of `a` by `b` rounded up; zero where `b` is not positive.
pub open spec fn ceil_div(a: int, b: int) -> int {
    if b <= 0 {
        0
    } else {
        (a + b - 1) / b
    }
}

/// Quotient rounded towards minus infinity.
pub(crate) fn floor_div(a: i128, b: i128) -> (q: i128)
    requires
        b > 0,
        -0x4000_0000_0000_0000_0000_0000_0000_0000 < a,
        b < 0x4000_0000_0000_0000_0000_0000_0000_0000,
    ensures
        q == a / b,
{
    if a >= 0 {
        a / b
    } else {
        let m: i128 = -a;
        let u: i128 = (m + (b - 1)) / b;
        proof {
            let bi = b as int;
            let t = m as int + (bi - 1);
            lemma_fundamental_div_mod(t, bi);
            lemma_mod_bound(t, bi);
            let k = t % bi;
            let r = bi - 1 - k;
            assert(a as int == (-(u as int)) * bi + r) by (nonlinear_arith)
                requires
                    t == bi * (u as int) + k,
                    t == -(a as int) + (bi - 1),
                    r == bi - 1 - k,
            ;
            lemma_fundamental_div_mod_converse(a as int, bi, -(u as int), r);
        }
        -u
    }
}

/// The nearest `i32` to `v`.
pub fn saturate(v: i128) -> (r: i32)
    ensures
        r == clamp(v as int),
{
    if v < i32::MIN as i128 {
        i32::MIN
    } else if v > i32::MAX as i128 {
        i32::MAX
    } else {
        v as i32
    }
}

} // verus!
