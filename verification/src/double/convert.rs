//! Integers as numbers, signs and powers.

use super::arithmetic::UNIT_EXPONENT;
use super::rounding;
use super::{Double, QUIET_BITS, SIGN_BIT};
use vstd::arithmetic::power2::*;
use vstd::prelude::*;

verus! {

pub const ONE_BITS: u64 = 0x3ff0_0000_0000_0000;

pub const MINUS_ONE_BITS: u64 = 0xbff0_0000_0000_0000;

pub const TEN_BITS: u64 = 0x4024_0000_0000_0000;

impl Double {
    /// The number nearest to an integer.
    pub open spec fn of_integer(n: int) -> Double {
        let size = if n < 0 {
            -n
        } else {
            n
        };
        Double::assembled(n < 0, Double::nearest_code(size * pow2(UNIT_EXPONENT as nat), 1))
    }

    /// One with the sign of the number.
    pub open spec fn unit_sign(self) -> Double {
        if self.nan() {
            Double::quiet()
        } else if self.negative() {
            Double { bits: MINUS_ONE_BITS }
        } else {
            Double { bits: ONE_BITS }
        }
    }

    /// `result * base^exponent`, by squaring the base for each binary digit of
    /// the exponent.
    pub open spec fn raised(result: Double, base: Double, exponent: nat) -> Double
        decreases exponent,
    {
        if exponent == 0 {
            result
        } else {
            Double::raised(
                if exponent % 2 == 1 {
                    result.product(base)
                } else {
                    result
                },
                base.product(base),
                exponent / 2,
            )
        }
    }

    fn from_size(negative: bool, size: u128) -> (result: Double)
        requires
            size < 0x1_0000_0000_0000_0000_0000_0000,
        ensures
            result == Double::assembled(
                negative,
                Double::nearest_code(size * pow2(UNIT_EXPONENT as nat), 1),
            ),
    {
        let ghost n = size * pow2(UNIT_EXPONENT as nat);
        proof {
            rounding::lemma_magnitude_of(0, 0);
            rounding::lemma_powers();
        }
        if size == 0 {
            proof {
                assert(n == 0) by (nonlinear_arith)
                    requires
                        n == 0 * pow2(UNIT_EXPONENT as nat),
                ;
                rounding::lemma_nearest_exact(n, 1, 0);
            }
            return Double { bits: if negative { SIGN_BIT } else { 0 } };
        }
        proof {
            lemma2_to64();
            lemma_pow2_adds(64, 32);
            lemma_pow2_strictly_increases(96, 120);
            rounding::lemma_brackets_exact(n, size as int, UNIT_EXPONENT as int);
        }
        let code: u64 = rounding::round_bracketed(size, 1074, false, Ghost(n), Ghost(1int));
        Double { bits: if negative { code + SIGN_BIT } else { code } }
    }

    pub fn from_signed(n: i64) -> (result: Double)
        ensures
            result == Double::of_integer(n as int),
    {
        let size: u64 = if n < 0 { (-(n as i128)) as u64 } else { n as u64 };
        Double::from_size(n < 0, size as u128)
    }

    pub fn from_unsigned(n: u64) -> (result: Double)
        ensures
            result == Double::of_integer(n as int),
    {
        Double::from_size(false, n as u128)
    }

    pub fn from_wide(n: u128) -> (result: Double)
        requires
            n < 0x1_0000_0000_0000_0000_0000_0000,
        ensures
            result == Double::of_integer(n as int),
    {
        Double::from_size(false, n)
    }

    pub fn signum(self) -> (result: Double)
        ensures
            result == self.unit_sign(),
    {
        if self.is_nan() {
            Double { bits: QUIET_BITS }
        } else if self.is_sign_negative() {
            Double { bits: MINUS_ONE_BITS }
        } else {
            Double { bits: ONE_BITS }
        }
    }

    /// A power with a whole exponent.
    pub fn power(self, exponent: u32) -> (result: Double)
        ensures
            result == Double::raised(Double { bits: ONE_BITS }, self, exponent as nat),
    {
        let mut result: Double = Double { bits: ONE_BITS };
        let mut base: Double = self;
        let mut left: u32 = exponent;
        while left > 0
            invariant
                Double::raised(result, base, left as nat) == Double::raised(
                    Double { bits: ONE_BITS },
                    self,
                    exponent as nat,
                ),
            decreases left,
        {
            if left % 2 == 1 {
                result = result.times(base);
            }
            base = base.times(base);
            left = left / 2;
        }
        result
    }
}

} // verus!
