//! Single precision: the numbers of the 32-bit format are among those of the
//! 64-bit format, and an operation on them is the operation here, rounded once
//! more. With more than twice the digits to start from, the second rounding gives
//! what one alone would give.

use super::decimal::nearest_even;
use super::rounding;
use super::{Double, BINADE, INFINITY_CODE, QUIET_BITS, SIGN_BIT};
use vstd::arithmetic::div_mod::*;
use vstd::arithmetic::power2::*;
use vstd::prelude::*;

verus! {

/// How many codes of the 64-bit format come to one of the 32-bit format.
pub const SINGLE_STEP: u64 = 0x2000_0000;

/// The code of the smallest number of the 32-bit format with all its digits.
pub const SINGLE_NORMAL: u64 = 0x3810_0000_0000_0000;

/// The code of the first number that the 32-bit format has no room for.
pub const SINGLE_LIMIT: u64 = 0x47f0_0000_0000_0000;

/// The exponent, in units, of the step between the smallest numbers of the 32-bit
/// format.
pub const SINGLE_EXPONENT: u64 = 925;

impl Double {
    /// The nearest number of the 32-bit format, the even one where two are. Small
    /// numbers are counted in steps of one size, others by their codes, which lie
    /// evenly between two powers of two.
    pub open spec fn single(self) -> Double {
        let code = self.code();
        if self.nan() {
            Double::quiet()
        } else if code >= SINGLE_NORMAL {
            let rounded = nearest_even(code, SINGLE_STEP as int) * SINGLE_STEP;
            Double::assembled(
                self.negative(),
                if rounded >= SINGLE_LIMIT {
                    INFINITY_CODE as int
                } else {
                    rounded
                },
            )
        } else {
            let step = pow2(SINGLE_EXPONENT as nat) as int;
            Double::assembled(
                self.negative(),
                Double::nearest_code(nearest_even(Double::magnitude(code), step) * step, 1),
            )
        }
    }

    pub open spec fn single_sum(self, other: Double) -> Double {
        self.sum(other).single()
    }

    pub open spec fn single_difference(self, other: Double) -> Double {
        self.difference(other).single()
    }

    pub open spec fn single_product(self, other: Double) -> Double {
        self.product(other).single()
    }

    pub open spec fn single_quotient(self, other: Double) -> Double {
        self.quotient(other).single()
    }

    pub fn single_plus(self, other: Double) -> (result: Double)
        ensures
            result == self.single_sum(other),
    {
        self.plus(other).to_single()
    }

    pub fn single_minus(self, other: Double) -> (result: Double)
        ensures
            result == self.single_difference(other),
    {
        self.minus(other).to_single()
    }

    pub fn single_times(self, other: Double) -> (result: Double)
        ensures
            result == self.single_product(other),
    {
        self.times(other).to_single()
    }

    pub fn single_over(self, other: Double) -> (result: Double)
        ensures
            result == self.single_quotient(other),
    {
        self.over(other).to_single()
    }

    /// The code of so many of the smallest steps of the 32-bit format.
    fn small_code(steps: u64) -> (code: u64)
        ensures
            code == Double::nearest_code(steps * pow2(SINGLE_EXPONENT as nat), 1),
            code < SIGN_BIT,
    {
        let ghost n = steps * pow2(SINGLE_EXPONENT as nat);
        proof {
            rounding::lemma_magnitude_of(0, 0);
            rounding::lemma_powers();
        }
        if steps == 0 {
            proof {
                assert(n == 0) by (nonlinear_arith)
                    requires
                        n == 0 * pow2(SINGLE_EXPONENT as nat),
                ;
                rounding::lemma_nearest_exact(n, 1, 0);
            }
            return 0;
        }
        proof {
            lemma2_to64();
            lemma_pow2_strictly_increases(64, 120);
            rounding::lemma_brackets_exact(n, steps as int, SINGLE_EXPONENT as int);
        }
        rounding::round_bracketed(steps as u128, 925, false, Ghost(n), Ghost(1int))
    }

    /// How many of the smallest steps of the 32-bit format come nearest.
    fn small_steps(code: u64) -> (steps: u64)
        requires
            code < SINGLE_NORMAL,
        ensures
            steps == nearest_even(
                Double::magnitude(code as int),
                pow2(SINGLE_EXPONENT as nat) as int,
            ),
    {
        let exponent: u64 = code / BINADE;
        let digits: u64 = if exponent == 0 { code } else { BINADE + code % BINADE };
        let raised: u64 = if exponent == 0 { 0 } else { exponent - 1 };
        let ghost magnitude = Double::magnitude(code as int);
        proof {
            lemma2_to64();
            lemma_pow2_pos(raised as nat);
            assert(magnitude == digits * pow2(raised as nat)) by {
                if exponent == 0 {
                    assert(pow2(0) == 1);
                    assert(code < BINADE);
                    vstd::arithmetic::mul::lemma_mul_basics(digits as int);
                } else {
                    assert(code >= BINADE);
                    assert(code as int / BINADE as int - 1 == raised);
                    assert(BINADE + code as int % BINADE as int == digits);
                }
            }
            lemma_pow2_adds((SINGLE_EXPONENT - raised) as nat, raised as nat);
            lemma_pow2_pos((SINGLE_EXPONENT - raised) as nat);
            lemma_common_factor(
                digits as int,
                pow2((SINGLE_EXPONENT - raised) as nat) as int,
                pow2(raised as nat) as int,
            );
        }
        let places: u64 = SINGLE_EXPONENT - raised;
        if places > 60 {
            proof {
                lemma_pow2_strictly_increases(60, places as nat);
                lemma_pow2_adds(32, 28);
                lemma_fundamental_div_mod_converse(
                    digits as int,
                    pow2(places as nat) as int,
                    0,
                    digits as int,
                );
            }
            return 0;
        }
        let step: u64 = rounding::power_of_two(places as u32) as u64;
        proof {
            if places < 60 {
                lemma_pow2_strictly_increases(places as nat, 60);
            }
            lemma_pow2_adds(32, 28);
            assert(step == pow2(places as nat));
        }
        let whole: u64 = digits / step;
        let rest: u64 = digits % step;
        if 2 * rest > step || 2 * rest == step && whole % 2 == 1 {
            whole + 1
        } else {
            whole
        }
    }

    pub fn to_single(self) -> (result: Double)
        ensures
            result == self.single(),
    {
        if self.is_nan() {
            return Double { bits: QUIET_BITS };
        }
        let code: u64 = self.bits % SIGN_BIT;
        let rounded: u64 = if code >= SINGLE_NORMAL {
            let whole: u64 = code / SINGLE_STEP;
            let rest: u64 = code % SINGLE_STEP;
            let near: u64 = if 2 * rest > SINGLE_STEP || 2 * rest == SINGLE_STEP && whole % 2 == 1 {
                (whole + 1) * SINGLE_STEP
            } else {
                whole * SINGLE_STEP
            };
            if near >= SINGLE_LIMIT {
                INFINITY_CODE
            } else {
                near
            }
        } else {
            Double::small_code(Double::small_steps(code))
        };
        Double { bits: if self.is_sign_negative() { rounded + SIGN_BIT } else { rounded } }
    }
}

/// A factor of both leaves the nearest whole number as it is.
proof fn lemma_common_factor(n: int, d: int, factor: int)
    requires
        n >= 0,
        d > 0,
        factor > 0,
    ensures
        nearest_even(n * factor, d * factor) == nearest_even(n, d),
{
    let q = n / d;
    let r = n % d;
    lemma_fundamental_div_mod(n, d);
    assert(n * factor == q * (d * factor) + r * factor && 0 <= r * factor < d * factor)
        by (nonlinear_arith)
        requires
            n == d * q + r,
            0 <= r < d,
            factor > 0,
    ;
    lemma_fundamental_div_mod_converse(n * factor, d * factor, q, r * factor);
    assert((2 * (r * factor) > d * factor) == (2 * r > d)) by (nonlinear_arith)
        requires
            factor > 0,
    ;
    assert((2 * (r * factor) == d * factor) == (2 * r == d)) by (nonlinear_arith)
        requires
            factor > 0,
    ;
}

} // verus!
