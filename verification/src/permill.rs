//! Parts-per-million arithmetic, done by `sp_arithmetic::Permill`.
//!
//! A `Permill` is held here as its number of parts, at most one million.
use sp_arithmetic::traits::Saturating;
use sp_arithmetic::{PerThing, Permill};
use vstd::prelude::*;

use crate::types::Balance;

verus! {

/// The number of parts in a whole.
pub const ACCURACY: u32 = 1_000_000;

/// `x * parts / 1_000_000`, rounded down.
pub open spec fn mul_floor_spec(parts: int, x: int) -> int {
    (x * parts) / 1_000_000
}

/// `x * parts / 1_000_000`, rounded to the nearest whole number, a half rounded down.
pub open spec fn mul_nearest_spec(parts: int, x: int) -> int {
    (x * parts) / 1_000_000 + if (x * parts) % 1_000_000 > 500_000 { 1int } else { 0int }
}

/// The parts of the product of two ratios, rounded down: `Permill`'s multiplication, and
/// its `square`, which takes `from_rational(p * p, q * q)` rounded down.
pub open spec fn permill_mul_parts(a: int, b: int) -> int {
    (a * b) / 1_000_000
}

/// Exponentiation by squaring as `Permill::pow` runs it: while exponent is left and the result
/// is not zero, an odd exponent multiplies the result by the base, and the base is squared.
pub open spec fn permill_pow_loop(result: int, base: int, exp: nat) -> int
    decreases exp,
{
    if exp > 0 && result != 0 {
        if exp % 2 != 0 {
            permill_pow_loop(
                permill_mul_parts(result, base),
                permill_mul_parts(base, base),
                ((exp - 1) / 2) as nat,
            )
        } else {
            permill_pow_loop(result, permill_mul_parts(base, base), exp / 2)
        }
    } else {
        result
    }
}

/// The parts of `Permill::from_parts(parts).saturating_pow(exp)`: one for a zero exponent or a
/// ratio of one, else the ratio raised by squaring from the ratio itself and one less than
/// the exponent.
pub open spec fn permill_pow(parts: u32, exp: usize) -> u32 {
    if exp == 0 || parts == 1_000_000 {
        1_000_000
    } else {
        permill_pow_loop(parts as int, parts as int, (exp - 1) as nat) as u32
    }
}

/// `Permill::mul_floor`: the product of a balance and a ratio, rounded down.
/// Its source computes `(x / 1_000_000) * parts + (x % 1_000_000) * parts / 1_000_000`,
/// which is the floor of `x * parts / 1_000_000`.
#[verifier::external_body]
pub(crate) fn permill_mul_floor(parts: u32, x: Balance) -> (r: Balance)
    requires
        parts <= ACCURACY,
    ensures
        r == mul_floor_spec(parts as int, x as int),
{
    Permill::from_parts(parts).mul_floor(x)
}

/// `Permill * x`: the product of a ratio and a balance, rounded to the nearest whole number
/// with a remainder of exactly one half rounded down (`Rounding::NearestPrefDown` in its source).
#[verifier::external_body]
pub(crate) fn permill_mul_nearest(parts: u32, x: Balance) -> (r: Balance)
    requires
        parts <= ACCURACY,
    ensures
        r == mul_nearest_spec(parts as int, x as int),
{
    Permill::from_parts(parts) * x
}

/// `PerThing::left_from_one`: one minus the ratio.
#[verifier::external_body]
pub(crate) fn permill_left_from_one(parts: u32) -> (r: u32)
    requires
        parts <= ACCURACY,
    ensures
        r == ACCURACY - parts,
{
    Permill::from_parts(parts).left_from_one().deconstruct()
}

/// `Saturating::saturating_pow` of `Permill`, which is its `pow`: the ratio raised to a power
/// by squaring, each product rounded down, as `permill_pow` states it.
#[verifier::external_body]
pub(crate) fn permill_saturating_pow(parts: u32, exp: usize) -> (r: u32)
    requires
        parts <= ACCURACY,
    ensures
        r == permill_pow(parts, exp),
{
    Permill::from_parts(parts).saturating_pow(exp).deconstruct()
}

/// Products of ratios of at most one stay ratios of at most one.
proof fn lemma_pow_loop_bounded(result: int, base: int, exp: nat)
    requires
        0 <= result <= 1_000_000,
        0 <= base <= 1_000_000,
    ensures
        0 <= permill_pow_loop(result, base, exp) <= 1_000_000,
    decreases exp,
{
    assert(0 <= permill_mul_parts(result, base) <= 1_000_000) by (nonlinear_arith)
        requires
            0 <= result <= 1_000_000,
            0 <= base <= 1_000_000,
    ;
    assert(0 <= permill_mul_parts(base, base) <= 1_000_000) by (nonlinear_arith)
        requires
            0 <= base <= 1_000_000,
    ;
    if exp > 0 && result != 0 {
        if exp % 2 != 0 {
            lemma_pow_loop_bounded(
                permill_mul_parts(result, base),
                permill_mul_parts(base, base),
                ((exp - 1) / 2) as nat,
            );
        } else {
            lemma_pow_loop_bounded(result, permill_mul_parts(base, base), exp / 2);
        }
    }
}

/// A power of a ratio of at most one is a ratio of at most one.
pub proof fn lemma_permill_pow_bounded(parts: u32, exp: usize)
    requires
        parts <= ACCURACY,
    ensures
        permill_pow(parts, exp) <= ACCURACY,
{
    if !(exp == 0 || parts == 1_000_000) {
        lemma_pow_loop_bounded(parts as int, parts as int, (exp - 1) as nat);
    }
}

/// A ratio of at most one never makes a balance larger.
pub proof fn lemma_mul_nearest_le(parts: int, x: int)
    requires
        0 <= parts <= 1_000_000,
        0 <= x,
    ensures
        0 <= mul_nearest_spec(parts, x) <= x,
        0 <= mul_floor_spec(parts, x) <= x,
{
    let p = x * parts;
    assert(0 <= p <= x * 1_000_000) by (nonlinear_arith)
        requires
            0 <= parts <= 1_000_000,
            0 <= x,
            p == x * parts,
    ;
    let q = p / 1_000_000;
    let r = p % 1_000_000;
    assert(p == q * 1_000_000 + r && 0 <= r < 1_000_000);
    if parts == 1_000_000 {
        assert(p == x * 1_000_000);
        assert(q == x && r == 0);
    } else {
        assert(p <= x * 999_999) by (nonlinear_arith)
            requires
                0 <= parts <= 999_999,
                0 <= x,
                p == x * parts,
        ;
        if x > 0 {
            assert(q < x);
        } else {
            assert(p == 0);
        }
    }
}

} // verus!
