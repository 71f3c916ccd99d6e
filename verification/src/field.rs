//! Arithmetic of the Goldilocks prime field, in which the wires of a circuit
//! take their values.

use vstd::prelude::*;
use vstd::arithmetic::div_mod::*;
use vstd::arithmetic::mul::*;

verus! {

/// The order of the field: `2^64 - 2^32 + 1`.
pub const FIELD_ORDER: u64 = 0xFFFF_FFFF_0000_0001;

/// The canonical representative of `x` in the field.
pub open spec fn reduce(x: int) -> int {
    x % (FIELD_ORDER as int)
}

/// `c * x + y` in the field.
pub open spec fn mul_add(c: int, x: int, y: int) -> int {
    reduce(c * x + y)
}

/// `x - y` in the field.
pub open spec fn diff(x: int, y: int) -> int {
    reduce(x - y)
}

/// `b * x + (1 - b) * y` in the field: `x` where `b` is one, `y` where it is zero.
pub open spec fn choose_by(b: int, x: int, y: int) -> int {
    reduce(b * x + (1 - b) * y)
}

/// `x + y - x * y` in the field: the disjunction of two bits.
pub open spec fn either(x: int, y: int) -> int {
    reduce(x + y - x * y)
}

/// One where the two values are the same, zero where they differ.
pub open spec fn same(x: int, y: int) -> int {
    if x == y { 1 } else { 0 }
}

/// Reduces a 128-bit value into the field.
pub fn reduce128(x: u128) -> (r: u64)
    ensures
        r as int == reduce(x as int),
        r < FIELD_ORDER,
{
    let r: u128 = x % (FIELD_ORDER as u128);
    r as u64
}

/// Computes `c * x + y` in the field.
pub fn exec_mul_add(c: u64, x: u64, y: u64) -> (r: u64)
    ensures
        r as int == mul_add(c as int, x as int, y as int),
        r < FIELD_ORDER,
{
    assert(c as int * x as int <= 0xFFFF_FFFF_FFFF_FFFF * 0xFFFF_FFFF_FFFF_FFFF) by (nonlinear_arith)
        requires
            0 <= c as int <= 0xFFFF_FFFF_FFFF_FFFF,
            0 <= x as int <= 0xFFFF_FFFF_FFFF_FFFF,
    ;
    assert(0 <= c as int * x as int) by (nonlinear_arith)
        requires
            0 <= c as int,
            0 <= x as int,
    ;
    let wide: u128 = (c as u128) * (x as u128) + (y as u128);
    reduce128(wide)
}

/// Computes `x - y` in the field.
pub fn exec_diff(x: u64, y: u64) -> (r: u64)
    ensures
        r as int == diff(x as int, y as int),
        r < FIELD_ORDER,
{
    let y_red: u64 = y % FIELD_ORDER;
    let wide: u128 = (x as u128) + ((FIELD_ORDER - y_red) as u128);
    proof {
        let p = FIELD_ORDER as int;
        // x + (p - y % p) == (x - y) + p * (y / p + 1)
        lemma_fundamental_div_mod(y as int, p);
        assert(x as int + (p - (y as int % p)) == (x as int - y as int) + p * (y as int / p + 1))
            by (nonlinear_arith)
            requires
                y as int == p * (y as int / p) + (y as int % p),
        ;
        lemma_mod_multiples_vanish(y as int / p + 1, x as int - y as int, p);
    }
    reduce128(wide)
}

/// Computes `b * x + (1 - b) * y` in the field.
pub fn exec_choose_by(b: u64, x: u64, y: u64) -> (r: u64)
    ensures
        r as int == choose_by(b as int, x as int, y as int),
        r < FIELD_ORDER,
{
    // b * x + y, then minus b * y
    let first: u64 = exec_mul_add(b, x, y);
    let second: u64 = exec_mul_add(b, y, 0);
    let r: u64 = exec_diff(first, second);
    proof {
        let p = FIELD_ORDER as int;
        let (bi, xi, yi) = (b as int, x as int, y as int);
        lemma_sub_mod_noop(bi * xi + yi, bi * yi, p);
        assert(bi * xi + yi - bi * yi == bi * xi + (1 - bi) * yi) by (nonlinear_arith);
    }
    r
}

/// Computes `x + y - x * y` in the field.
pub fn exec_either(x: u64, y: u64) -> (r: u64)
    ensures
        r as int == either(x as int, y as int),
        r < FIELD_ORDER,
{
    let first: u64 = exec_mul_add(1, x, y);
    let second: u64 = exec_mul_add(x, y, 0);
    let r: u64 = exec_diff(first, second);
    proof {
        let p = FIELD_ORDER as int;
        let (xi, yi) = (x as int, y as int);
        lemma_sub_mod_noop(1 * xi + yi, xi * yi, p);
    }
    r
}

} // verus!
