//! Arithmetic on layout units. Sizes and coordinates are stored as `i32`;
//! sums and products are formed in `i128`, where they cannot overflow, and
//! brought back into range by saturation.

use vstd::arithmetic::div_mod::lemma_fundamental_div_mod;
use vstd::arithmetic::div_mod::lemma_fundamental_div_mod_converse;
use vstd::arithmetic::mul::lemma_mul_is_commutative;
use vstd::prelude::*;

verus! {

/// `v` brought into the range of `i32`: values beyond a limit become the limit.
pub open spec fn sat(v: int) -> i32 {
    if v < i32::MIN {
        i32::MIN
    } else if v > i32::MAX {
        i32::MAX
    } else {
        v as i32
    }
}

/// The larger of two integers.
pub open spec fn larger(a: int, b: int) -> int {
    if a >= b {
        a
    } else {
        b
    }
}

/// The smaller of two integers.
pub open spec fn smaller(a: int, b: int) -> int {
    if a <= b {
        a
    } else {
        b
    }
}

pub fn saturate(v: i128) -> (r: i32)
    ensures
        r == sat(v as int),
{
    if v < -0x8000_0000 {
        i32::MIN
    } else if v > 0x7fff_ffff {
        i32::MAX
    } else {
        v as i32
    }
}

/// `a / b` rounded towards minus infinity.
pub fn floor_div(a: i128, b: i128) -> (q: i128)
    requires
        b > 0,
        a > i128::MIN,
    ensures
        q == a as int / b as int,
{
    if a >= 0 {
        a / b
    } else {
        let n: i128 = -a;
        let tq: i128 = n / b;
        let tr: i128 = n % b;
        proof {
            lemma_fundamental_div_mod(n as int, b as int);
            lemma_mul_is_commutative(b as int, tq as int);
            assert(tq * b <= n) by (nonlinear_arith)
                requires
                    n == b * tq + tr,
                    tr >= 0,
            ;
        }
        if tr == 0 {
            proof {
                assert(a == (-tq) * b + 0) by (nonlinear_arith)
                    requires
                        n == b * tq + tr,
                        tr == 0,
                        a == -n,
                ;
                lemma_fundamental_div_mod_converse(a as int, b as int, -(tq as int), 0);
            }
            -tq
        } else {
            proof {
                assert(a == (-tq - 1) * b + (b - tr)) by (nonlinear_arith)
                    requires
                        n == b * tq + tr,
                        a == -n,
                ;
                lemma_fundamental_div_mod_converse(
                    a as int,
                    b as int,
                    -(tq as int) - 1,
                    b as int - tr as int,
                );
            }
            -tq - 1
        }
    }
}

/// The product of a count and a length.
pub fn times(count: usize, length: i32) -> (product: i128)
    ensures
        product == count as int * length as int,
        -0x1_0000_0000_0000_0000_0000_0000 <= product <= 0x1_0000_0000_0000_0000_0000_0000,
{
    let c: i128 = count as i128;
    let l: i128 = length as i128;
    assert(-0x1_0000_0000_0000_0000_0000_0000 <= c * l <= 0x1_0000_0000_0000_0000_0000_0000)
        by (nonlinear_arith)
        requires
            0 <= c <= 0xffff_ffff_ffff_ffff,
            -0x8000_0000 <= l <= 0x7fff_ffff,
    ;
    c * l
}

} // verus!
