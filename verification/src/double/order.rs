//! Order, signs and whole numbers.

use super::arithmetic::UNIT_EXPONENT;
use super::rounding;
use super::{Double, BINADE, INFINITY_CODE, SIGN_BIT};
use vstd::arithmetic::power2::*;
use vstd::prelude::*;

verus! {

/// `x` held to the range of a 64-bit integer.
pub open spec fn clamped(x: int) -> int {
    if x < i64::MIN {
        i64::MIN as int
    } else if x > i64::MAX {
        i64::MAX as int
    } else {
        x
    }
}

impl Double {
    /// `self < other`; false where either is no number.
    pub open spec fn below(self, other: Double) -> bool {
        !self.nan() && !other.nan() && self.rank() < other.rank()
    }

    /// `self <= other`; false where either is no number.
    pub open spec fn at_most(self, other: Double) -> bool {
        !self.nan() && !other.nan() && self.rank() <= other.rank()
    }

    /// `self == other`; the zeros are equal, and what is no number equals nothing.
    pub open spec fn same(self, other: Double) -> bool {
        !self.nan() && !other.nan() && self.rank() == other.rank()
    }

    /// `self > 0`.
    pub open spec fn positive(self) -> bool {
        !self.nan() && self.rank() > 0
    }

    /// The larger of the two; what is no number gives way to the other.
    pub open spec fn larger(self, other: Double) -> Double {
        if self.nan() || self.below(other) {
            other
        } else {
            self
        }
    }

    /// The smaller of the two; what is no number gives way to the other.
    pub open spec fn smaller(self, other: Double) -> Double {
        if self.nan() || other.below(self) {
            other
        } else {
            self
        }
    }

    /// The whole number next to it on the side of zero, held to 64 bits. What is
    /// no number gives zero.
    pub open spec fn whole(self) -> int {
        if self.nan() {
            0
        } else if self.infinite() {
            if self.negative() {
                i64::MIN as int
            } else {
                i64::MAX as int
            }
        } else {
            let size = Double::magnitude(self.code()) / (pow2(UNIT_EXPONENT as nat) as int);
            clamped(if self.negative() { -size } else { size })
        }
    }

    /// The nearest whole number, away from zero where two are, held to 64 bits.
    pub open spec fn nearest_whole(self) -> int {
        if self.nan() {
            0
        } else if self.infinite() {
            self.whole()
        } else {
            let unit = pow2(UNIT_EXPONENT as nat) as int;
            let size = (2 * Double::magnitude(self.code()) + unit) / (2 * unit);
            clamped(if self.negative() { -size } else { size })
        }
    }

    /// The bits, with the codes of negative numbers counted downwards from zero.
    fn signed_code(self) -> (rank: i128)
        ensures
            rank == self.rank(),
    {
        let code: u64 = self.bits % SIGN_BIT;
        if self.bits >= SIGN_BIT {
            -(code as i128)
        } else {
            code as i128
        }
    }

    pub fn is_below(self, other: Double) -> (answer: bool)
        ensures
            answer == self.below(other),
    {
        !self.is_nan() && !other.is_nan() && self.signed_code() < other.signed_code()
    }

    pub fn is_at_most(self, other: Double) -> (answer: bool)
        ensures
            answer == self.at_most(other),
    {
        !self.is_nan() && !other.is_nan() && self.signed_code() <= other.signed_code()
    }

    pub fn is_same(self, other: Double) -> (answer: bool)
        ensures
            answer == self.same(other),
    {
        !self.is_nan() && !other.is_nan() && self.signed_code() == other.signed_code()
    }

    pub fn is_positive(self) -> (answer: bool)
        ensures
            answer == self.positive(),
    {
        !self.is_nan() && self.signed_code() > 0
    }

    pub fn max(self, other: Double) -> (result: Double)
        ensures
            result == self.larger(other),
    {
        if self.is_nan() || self.is_below(other) {
            other
        } else {
            self
        }
    }

    pub fn min(self, other: Double) -> (result: Double)
        ensures
            result == self.smaller(other),
    {
        if self.is_nan() || other.is_below(self) {
            other
        } else {
            self
        }
    }

    /// The integer part of a magnitude, or nothing where it is `2^63` or more;
    /// with `half`, of the magnitude and one half.
    fn whole_size(code: u64, half: bool) -> (size: Option<u64>)
        requires
            code < INFINITY_CODE,
        ensures
            ({
                let unit = pow2(UNIT_EXPONENT as nat) as int;
                let exact = if half {
                    (2 * Double::magnitude(code as int) + unit) / (2 * unit)
                } else {
                    Double::magnitude(code as int) / unit
                };
                match size {
                    Some(size) => size == exact && size <= 0x7fff_ffff_ffff_ffff,
                    None => exact >= 0x8000_0000_0000_0000,
                }
            }),
    {
        let e: u64 = code / BINADE;
        let f: u64 = code % BINADE;
        let u: u64 = if e == 0 { 0 } else { e - 1 };
        let m: u64 = if e == 0 { f } else { f + BINADE };
        let ghost unit = pow2(UNIT_EXPONENT as nat) as int;
        let ghost p = pow2(u as nat) as int;
        let ghost size = m * p;
        proof {
            rounding::lemma_magnitude_of(u as int, m as int);
            lemma_pow2_pos(UNIT_EXPONENT as nat);
            lemma_pow2_pos(u as nat);
            rounding::lemma_powers();
            lemma2_to64();
        }
        if u >= UNIT_EXPONENT {
            let ghost k = (u - UNIT_EXPONENT) as nat;
            let ghost times = pow2(k) as int;
            proof {
                lemma_pow2_adds(k, UNIT_EXPONENT as nat);
                lemma_pow2_pos(k);
                assert(size == (m * times) * unit) by (nonlinear_arith)
                    requires
                        size == m * p,
                        p == times * unit,
                ;
                assert(size / unit == m * times) by {
                    vstd::arithmetic::div_mod::lemma_div_multiples_vanish(m * times, unit);
                    vstd::arithmetic::mul::lemma_mul_is_commutative(m * times, unit);
                }
                assert(2 * size + unit == (m * times) * (2 * unit) + unit) by (nonlinear_arith)
                    requires
                        size == (m * times) * unit,
                ;
                vstd::arithmetic::div_mod::lemma_fundamental_div_mod_converse(
                    2 * size + unit,
                    2 * unit,
                    m * times,
                    unit,
                );
            }
            if u >= 1085 {
                proof {
                    if k > 11 {
                        lemma_pow2_strictly_increases(11, k);
                    }
                    assert(m * times >= 0x8000_0000_0000_0000) by (nonlinear_arith)
                        requires
                            m >= 0x10_0000_0000_0000,
                            times >= 0x800,
                    ;
                }
                return None;
            }
            let power: u128 = rounding::power_of_two((u - UNIT_EXPONENT) as u32);
            proof {
                if k < 10 {
                    lemma_pow2_strictly_increases(k, 10);
                }
                assert(0 <= m * times <= 0x1f_ffff_ffff_ffff * 0x400) by (nonlinear_arith)
                    requires
                        0 <= m <= 0x1f_ffff_ffff_ffff,
                        0 < times <= 0x400,
                ;
            }
            return Some(((m as u128) * power) as u64);
        }
        let shift: u64 = UNIT_EXPONENT - u;
        let ghost cut = pow2(shift as nat) as int;
        proof {
            lemma_pow2_adds(shift as nat, u as nat);
            lemma_pow2_pos(shift as nat);
        }
        if shift > 60 {
            proof {
                lemma_pow2_adds(53, 7);
                if shift > 60 {
                    lemma_pow2_strictly_increases(60, shift as nat);
                }
                assert(2 * size < unit) by (nonlinear_arith)
                    requires
                        size == m * p,
                        unit == cut * p,
                        2 * m < cut,
                        p > 0,
                ;
                assert(0 <= size) by (nonlinear_arith)
                    requires
                        size == m * p,
                        m >= 0,
                        p > 0,
                ;
                vstd::arithmetic::div_mod::lemma_fundamental_div_mod_converse(size, unit, 0, size);
                vstd::arithmetic::div_mod::lemma_fundamental_div_mod_converse(
                    2 * size + unit,
                    2 * unit,
                    0,
                    2 * size + unit,
                );
            }
            return Some(0);
        }
        let power: u128 = rounding::power_of_two(shift as u32);
        let ghost base = p;
        proof {
            lemma_pow2_adds(32, 28);
            if shift < 60 {
                lemma_pow2_strictly_increases(shift as nat, 60);
            }
            lemma_scaled_division(m as int, cut, base);
            assert((2 * m + cut) * base == 2 * size + unit) by (nonlinear_arith)
                requires
                    size == m * base,
                    unit == cut * base,
            ;
            assert((2 * cut) * base == 2 * unit) by (nonlinear_arith)
                requires
                    unit == cut * base,
            ;
            lemma_scaled_division(2 * m + cut, 2 * cut, base);
        }
        if half {
            let whole: u128 = (2 * (m as u128) + power) / (2 * power);
            proof {
                lemma_quotient_at_most((2 * (m as u128) + power) as int, (2 * power) as int);
            }
            Some(whole as u64)
        } else {
            let whole: u128 = (m as u128) / power;
            proof {
                lemma_quotient_at_most(m as int, power as int);
            }
            Some(whole as u64)
        }
    }

    /// The conversion to an integer that cuts the fraction off.
    pub fn to_whole(self) -> (result: i64)
        ensures
            result == self.whole(),
    {
        self.to_integer(false)
    }

    /// The conversion to the nearest integer.
    pub fn round_to_whole(self) -> (result: i64)
        ensures
            result == self.nearest_whole(),
    {
        self.to_integer(true)
    }

    fn to_integer(self, half: bool) -> (result: i64)
        ensures
            result == if half {
                self.nearest_whole()
            } else {
                self.whole()
            },
    {
        if self.is_nan() {
            return 0;
        }
        let code: u64 = self.bits % SIGN_BIT;
        let negative: bool = self.bits >= SIGN_BIT;
        if code == INFINITY_CODE {
            return if negative { i64::MIN } else { i64::MAX };
        }
        match Double::whole_size(code, half) {
            Some(size) => if negative {
                -(size as i64)
            } else {
                size as i64
            },
            None => if negative {
                i64::MIN
            } else {
                i64::MAX
            },
        }
    }
}

/// A common factor does not change a quotient.
proof fn lemma_scaled_division(x: int, y: int, f: int)
    requires
        x >= 0,
        y > 0,
        f > 0,
    ensures
        (x * f) / (y * f) == x / y,
{
    vstd::arithmetic::mul::lemma_mul_strictly_positive(y, f);
    vstd::arithmetic::div_mod::lemma_fundamental_div_mod(x, y);
    let q = x / y;
    let r = x % y;
    assert(x * f == q * (y * f) + r * f) by (nonlinear_arith)
        requires
            x == y * q + r,
    ;
    assert(0 <= r * f < y * f) by (nonlinear_arith)
        requires
            0 <= r < y,
            f > 0,
    ;
    vstd::arithmetic::div_mod::lemma_fundamental_div_mod_converse(x * f, y * f, q, r * f);
}

proof fn lemma_quotient_at_most(x: int, y: int)
    requires
        x >= 0,
        y > 0,
    ensures
        0 <= x / y <= x,
{
    vstd::arithmetic::div_mod::lemma_div_pos_is_pos(x, y);
    vstd::arithmetic::div_mod::lemma_div_nonincreasing(x, y);
}

impl PartialEq for Double {
    fn eq(&self, other: &Double) -> (answer: bool) {
        self.is_same(*other)
    }
}

impl vstd::std_specs::cmp::PartialEqSpecImpl for Double {
    open spec fn obeys_eq_spec() -> bool {
        true
    }

    open spec fn eq_spec(&self, other: &Double) -> bool {
        self.same(*other)
    }
}

} // verus!
