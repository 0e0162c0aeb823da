//! Sums, products and quotients, each the nearest number to the exact result.

use super::rounding;
use super::{Double, BINADE, INFINITY_CODE, QUIET_BITS, SIGN_BIT};
use vstd::arithmetic::power2::*;
use vstd::prelude::*;

verus! {

/// The exponent of the unit in which values are counted.
pub const UNIT_EXPONENT: u64 = 1074;

impl Double {
    /// What an operation gives where there is no number.
    pub open spec fn quiet() -> Double {
        Double { bits: QUIET_BITS }
    }

    /// The same number with the other sign.
    pub open spec fn negation(self) -> Double {
        Double::assembled(!self.negative(), self.code())
    }

    /// The same number without its sign.
    pub open spec fn absolute(self) -> Double {
        Double::assembled(false, self.code())
    }

    /// The nearest number to the exact sum. An exact zero is negative only as
    /// the sum of two negative zeros.
    pub open spec fn sum(self, other: Double) -> Double {
        if self.nan() || other.nan() {
            Double::quiet()
        } else if self.infinite() {
            if other.infinite() && self.negative() != other.negative() {
                Double::quiet()
            } else {
                self
            }
        } else if other.infinite() {
            other
        } else {
            let exact = self.value() + other.value();
            if exact == 0 {
                Double::assembled(self.negative() && other.negative(), 0)
            } else if exact > 0 {
                Double::assembled(false, Double::nearest_code(exact, 1))
            } else {
                Double::assembled(true, Double::nearest_code(-exact, 1))
            }
        }
    }

    /// The nearest number to the exact difference.
    pub open spec fn difference(self, other: Double) -> Double {
        self.sum(other.negation())
    }

    /// The nearest number to the exact product.
    pub open spec fn product(self, other: Double) -> Double {
        let negative = self.negative() != other.negative();
        if self.nan() || other.nan() {
            Double::quiet()
        } else if self.infinite() || other.infinite() {
            if self.zero() || other.zero() {
                Double::quiet()
            } else {
                Double::assembled(negative, INFINITY_CODE as int)
            }
        } else {
            Double::assembled(
                negative,
                Double::nearest_code(
                    Double::magnitude(self.code()) * Double::magnitude(other.code()),
                    pow2(UNIT_EXPONENT as nat) as int,
                ),
            )
        }
    }

    /// The nearest number to the exact quotient; a quotient by zero is infinite.
    pub open spec fn quotient(self, other: Double) -> Double {
        let negative = self.negative() != other.negative();
        if self.nan() || other.nan() {
            Double::quiet()
        } else if self.infinite() && other.infinite() || self.zero() && other.zero() {
            Double::quiet()
        } else if self.infinite() || other.zero() {
            Double::assembled(negative, INFINITY_CODE as int)
        } else if other.infinite() {
            Double::assembled(negative, 0)
        } else {
            Double::assembled(
                negative,
                Double::nearest_code(
                    Double::magnitude(self.code()) * pow2(UNIT_EXPONENT as nat),
                    Double::magnitude(other.code()),
                ),
            )
        }
    }

    /// The bits without the sign.
    fn unsigned_code(self) -> (code: u64)
        ensures
            code == self.code(),
            code < SIGN_BIT,
    {
        self.bits % SIGN_BIT
    }

    fn sign(self) -> (negative: bool)
        ensures
            negative == self.negative(),
    {
        self.bits >= SIGN_BIT
    }

    fn assemble(negative: bool, code: u64) -> (number: Double)
        requires
            code < SIGN_BIT,
        ensures
            number == Double::assembled(negative, code as int),
            number.code() == code,
            number.negative() == negative,
    {
        Double { bits: if negative { code + SIGN_BIT } else { code } }
    }

    pub fn is_nan(self) -> (answer: bool)
        ensures
            answer == self.nan(),
    {
        self.unsigned_code() > INFINITY_CODE
    }

    pub fn is_finite(self) -> (answer: bool)
        ensures
            answer == self.finite(),
    {
        self.unsigned_code() < INFINITY_CODE
    }

    pub fn is_sign_negative(self) -> (answer: bool)
        ensures
            answer == self.negative(),
    {
        self.sign()
    }

    pub fn negate(self) -> (result: Double)
        ensures
            result == self.negation(),
    {
        Double::assemble(!self.sign(), self.unsigned_code())
    }

    pub fn abs(self) -> (result: Double)
        ensures
            result == self.absolute(),
    {
        Double::assemble(false, self.unsigned_code())
    }

    /// Significand and binade of a finite code.
    fn unpack(code: u64) -> (parts: (u64, i64))
        requires
            code < INFINITY_CODE,
        ensures
            parts.0 < 2 * BINADE,
            0 <= parts.1 <= 2045,
            parts.1 > 0 ==> parts.0 >= BINADE,
            Double::magnitude(code as int) == parts.0 * pow2(parts.1 as nat),
            parts.0 == 0 <==> code == 0,
    {
        let e: u64 = code / BINADE;
        let f: u64 = code % BINADE;
        if e == 0 {
            proof {
                rounding::lemma_magnitude_of(0, f as int);
            }
            (f, 0)
        } else {
            proof {
                rounding::lemma_magnitude_of(e - 1, f + BINADE);
            }
            (f + BINADE, (e - 1) as i64)
        }
    }

    /// The sum of two finite numbers other than zero, the first of the higher
    /// binade.
    fn plus_ordered(a: Double, b: Double) -> (result: Double)
        requires
            a.finite(),
            b.finite(),
            a.code() >= b.code() > 0,
        ensures
            result == a.sum(b),
    {
        let (ma, ua) = Double::unpack(a.unsigned_code());
        let (mb, ub) = Double::unpack(b.unsigned_code());
        let ghost exact = a.value() + b.value();
        let ghost size = if exact < 0 { -exact } else { exact };
        let ghost pa = pow2(ua as nat) as int;
        let ghost pb = pow2(ub as nat) as int;
        let same: bool = a.sign() == b.sign();
        proof {
            rounding::lemma_magnitude_grows(b.code(), a.code());
            lemma_pow2_pos(ua as nat);
            lemma_pow2_pos(ub as nat);
            rounding::lemma_powers();
            lemma2_to64();
            assert(size == if same { ma * pa + mb * pb } else { ma * pa - mb * pb });
            assert(exact != 0 ==> (exact < 0) == a.negative());
            if ua < ub {
                lemma_pow2_unfold(ub as nat);
                if ua + 1 < ub {
                    lemma_pow2_strictly_increases(ua as nat, (ub - 1) as nat);
                }
                assert(ma * pa < mb * pb) by (nonlinear_arith)
                    requires
                        ma < 2 * BINADE,
                        mb >= BINADE,
                        pb >= 2 * pa,
                        pa > 0,
                ;
            }
        }
        let apart: i64 = ua - ub;
        if apart <= 64 {
            let power: u128 = rounding::power_of_two(apart as u32);
            proof {
                lemma_pow2_adds(apart as nat, ub as nat);
                if apart < 64 {
                    lemma_pow2_strictly_increases(apart as nat, 64);
                }
                assert((ma as int) * power <= 0x1f_ffff_ffff_ffff * 0x1_0000_0000_0000_0000)
                    by (nonlinear_arith)
                    requires
                        ma <= 0x1f_ffff_ffff_ffff,
                        0 < power <= 0x1_0000_0000_0000_0000,
                ;
                assert(0 <= (ma as int) * power) by (nonlinear_arith);
                assert((ma * power) * pb == ma * pa) by (nonlinear_arith)
                    requires
                        pa == power * pb,
                ;
            }
            let high: u128 = (ma as u128) * power;
            let low: u128 = mb as u128;
            proof {
                lemma_pow2_adds(64, 56);
                lemma_pow2_adds(32, 24);
                if !same {
                    assert(high * pb >= low * pb);
                    assert(high >= low) by (nonlinear_arith)
                        requires
                            high * pb >= low * pb,
                            pb > 0,
                    ;
                    assert((high - low) * pb == high * pb - low * pb) by (nonlinear_arith);
                } else {
                    assert((high + low) * pb == high * pb + low * pb) by (nonlinear_arith);
                }
            }
            let m: u128 = if same { high + low } else { high - low };
            if m == 0 {
                proof {
                    assert(0 * pb == 0);
                }
                return Double::assemble(false, 0);
            }
            proof {
                assert(size > 0) by (nonlinear_arith)
                    requires
                        size == m * pb,
                        m > 0,
                        pb > 0,
                ;
                rounding::lemma_brackets_exact(size, m as int, ub as int);
            }
            let code: u64 = rounding::round_bracketed(m, ub, false, Ghost(size), Ghost(1int));
            Double::assemble(a.sign(), code)
        } else {
            let ghost ps = pow2((ua - 10) as nat) as int;
            proof {
                lemma_pow2_adds(10, (ua - 10) as nat);
                lemma_pow2_adds(53, ub as nat);
                if 53 + ub < ua - 10 {
                    lemma_pow2_strictly_increases((53 + ub) as nat, (ua - 10) as nat);
                }
                lemma_pow2_pos((ua - 10) as nat);
                assert(0 < mb * pb < ps) by (nonlinear_arith)
                    requires
                        0 < mb < 2 * BINADE,
                        pb > 0,
                        ps >= (2 * BINADE) * pb,
                ;
                assert((1024 * ma) * ps == ma * pa) by (nonlinear_arith)
                    requires
                        pa == 1024 * ps,
                ;
                assert((1024 * ma + 1) * ps == (1024 * ma) * ps + ps) by (nonlinear_arith);
                assert((1024 * ma - 1) * ps == (1024 * ma) * ps - ps) by (nonlinear_arith);
                lemma_pow2_adds(32, 32);
                lemma_pow2_strictly_increases(64, 120);
                assert((1024 * ma) * ps > ps) by (nonlinear_arith)
                    requires
                        ma > 0,
                        ps > 0,
                ;
            }
            let m: u128 = if same { (ma as u128) * 1024 } else { (ma as u128) * 1024 - 1 };
            proof {
                rounding::lemma_brackets_inside(size, m as int, ua - 10);
            }
            let code: u64 = rounding::round_bracketed(m, ua - 10, true, Ghost(size), Ghost(1int));
            Double::assemble(a.sign(), code)
        }
    }

    pub fn plus(self, other: Double) -> (result: Double)
        ensures
            result == self.sum(other),
    {
        let a: u64 = self.unsigned_code();
        let b: u64 = other.unsigned_code();
        if a > INFINITY_CODE || b > INFINITY_CODE {
            return Double { bits: QUIET_BITS };
        }
        if a == INFINITY_CODE {
            if b == INFINITY_CODE && self.sign() != other.sign() {
                return Double { bits: QUIET_BITS };
            }
            return self;
        }
        if b == INFINITY_CODE {
            return other;
        }
        proof {
            rounding::lemma_magnitude_grows(0, a as int);
            rounding::lemma_magnitude_grows(0, b as int);
            rounding::lemma_magnitude_of(0, 0);
            rounding::lemma_nearest_exact(Double::magnitude(a as int), 1, a as int);
            rounding::lemma_nearest_exact(Double::magnitude(b as int), 1, b as int);
        }
        if a == 0 && b == 0 {
            return Double::assemble(self.sign() && other.sign(), 0);
        }
        if b == 0 {
            return self;
        }
        if a == 0 {
            return other;
        }
        if a >= b {
            Double::plus_ordered(self, other)
        } else {
            Double::plus_ordered(other, self)
        }
    }

    pub fn minus(self, other: Double) -> (result: Double)
        ensures
            result == self.difference(other),
    {
        self.plus(other.negate())
    }

    pub fn times(self, other: Double) -> (result: Double)
        ensures
            result == self.product(other),
    {
        let a: u64 = self.unsigned_code();
        let b: u64 = other.unsigned_code();
        let negative: bool = self.sign() != other.sign();
        if a > INFINITY_CODE || b > INFINITY_CODE {
            return Double { bits: QUIET_BITS };
        }
        if a == INFINITY_CODE || b == INFINITY_CODE {
            if a == 0 || b == 0 {
                return Double { bits: QUIET_BITS };
            }
            return Double::assemble(negative, INFINITY_CODE);
        }
        let ghost n = Double::magnitude(a as int) * Double::magnitude(b as int);
        let ghost d = pow2(UNIT_EXPONENT as nat) as int;
        let (ma, ua) = Double::unpack(a);
        let (mb, ub) = Double::unpack(b);
        proof {
            lemma_pow2_pos(UNIT_EXPONENT as nat);
            rounding::lemma_magnitude_of(0, 0);
            lemma2_to64();
            lemma_pow2_adds(64, 56);
            lemma_pow2_adds(32, 24);
        }
        if a == 0 || b == 0 {
            proof {
                assert(n == 0) by (nonlinear_arith)
                    requires
                        n == Double::magnitude(a as int) * Double::magnitude(b as int),
                        Double::magnitude(a as int) == 0 || Double::magnitude(b as int) == 0,
                ;
                assert(0 * d == 0);
                rounding::lemma_nearest_exact(n, d, 0);
            }
            return Double::assemble(negative, 0);
        }
        proof {
            assert(0 < (ma as int) * (mb as int) < 0x1f_ffff_ffff_ffff * 0x20_0000_0000_0000)
                by (nonlinear_arith)
                requires
                    0 < ma <= 0x1f_ffff_ffff_ffff,
                    0 < mb < 0x20_0000_0000_0000,
            ;
        }
        let m: u128 = (ma as u128) * (mb as u128);
        let q: i64 = ua + ub - 1074;
        proof {
            let pa = pow2(ua as nat) as int;
            let pb = pow2(ub as nat) as int;
            lemma_pow2_adds(ua as nat, ub as nat);
            assert(n == m * (pa * pb)) by (nonlinear_arith)
                requires
                    n == (ma * pa) * (mb * pb),
                    m == ma * mb,
            ;
            rounding::lemma_brackets_quotient(n, d, m as int, (ua + ub) as int, 1074);
        }
        let code: u64 = rounding::round_bracketed(m, q, false, Ghost(n), Ghost(d));
        Double::assemble(negative, code)
    }

    /// A significand shifted up to its full width, and by how many places.
    fn widen(m: u64) -> (wide: (u64, u32))
        requires
            0 < m < 2 * BINADE,
        ensures
            BINADE <= wide.0 < 2 * BINADE,
            wide.1 <= 52,
            wide.0 == m * pow2(wide.1 as nat),
    {
        let mut w: u64 = m;
        let mut k: u32 = 0;
        proof {
            rounding::lemma_powers();
        }
        while w < BINADE
            invariant
                0 < m,
                0 < w < 2 * BINADE,
                k <= 52,
                w == m * pow2(k as nat),
            decreases 2 * BINADE - w,
        {
            proof {
                lemma_pow2_unfold((k + 1) as nat);
                let p = pow2(k as nat) as int;
                assert(m * (2 * p) == 2 * (m * p)) by (nonlinear_arith);
                if k == 52 {
                    rounding::lemma_powers();
                    assert(m * p >= p) by (nonlinear_arith)
                        requires
                            m >= 1,
                            p >= 0,
                    ;
                }
            }
            w = w * 2;
            k = k + 1;
        }
        (w, k)
    }

    pub fn over(self, other: Double) -> (result: Double)
        ensures
            result == self.quotient(other),
    {
        let a: u64 = self.unsigned_code();
        let b: u64 = other.unsigned_code();
        let negative: bool = self.sign() != other.sign();
        if a > INFINITY_CODE || b > INFINITY_CODE {
            return Double { bits: QUIET_BITS };
        }
        if a == INFINITY_CODE && b == INFINITY_CODE || a == 0 && b == 0 {
            return Double { bits: QUIET_BITS };
        }
        if a == INFINITY_CODE || b == 0 {
            return Double::assemble(negative, INFINITY_CODE);
        }
        if b == INFINITY_CODE {
            return Double::assemble(negative, 0);
        }
        let ghost n = Double::magnitude(a as int) * pow2(UNIT_EXPONENT as nat);
        let ghost d = Double::magnitude(b as int);
        let (ma, ua) = Double::unpack(a);
        let (mb, ub) = Double::unpack(b);
        proof {
            rounding::lemma_magnitude_of(0, 0);
            rounding::lemma_magnitude_grows(0, b as int);
            lemma2_to64();
            lemma_pow2_adds(64, 56);
            lemma_pow2_adds(32, 24);
        }
        if a == 0 {
            proof {
                assert(0 * d == 0);
                assert(0 * pow2(UNIT_EXPONENT as nat) == 0);
                rounding::lemma_nearest_exact(n, d, 0);
            }
            return Double::assemble(negative, 0);
        }
        let (wa, ka) = Double::widen(ma);
        let (wb, kb) = Double::widen(mb);
        let top: u128 = (wa as u128) * 0x1_0000_0000_0000_0000;
        let bottom: u128 = wb as u128;
        let m: u128 = top / bottom;
        let rest: u128 = top % bottom;
        let q: i64 = (ua + 1074 + kb as i64) - (ub + ka as i64 + 64);
        proof {
            vstd::arithmetic::div_mod::lemma_fundamental_div_mod(top as int, bottom as int);
            assert(m >= 8 * BINADE) by (nonlinear_arith)
                requires
                    top == bottom * m + rest,
                    rest < bottom,
                    bottom < 0x20_0000_0000_0000,
                    top >= 0x10_0000_0000_0000 * 0x1_0000_0000_0000_0000,
                    m >= 0,
                    BINADE == 0x10_0000_0000_0000,
            ;
            assert(m <= top) by (nonlinear_arith)
                requires
                    top == bottom * m + rest,
                    bottom >= 1,
                    rest >= 0,
                    m >= 0,
            ;
            lemma_quotient_brackets(
                ma as int,
                ua as int,
                mb as int,
                ub as int,
                ka as int,
                kb as int,
                m as int,
                rest as int,
            );
        }
        let code: u64 = rounding::round_bracketed(m, q, rest != 0, Ghost(n), Ghost(d));
        Double::assemble(negative, code)
    }
}

/// The quotient of two widened significands brackets the quotient of the
/// numbers that they were taken from.
proof fn lemma_quotient_brackets(
    ma: int,
    ua: int,
    mb: int,
    ub: int,
    ka: int,
    kb: int,
    m: int,
    rest: int,
)
    requires
        ua >= 0,
        ub >= 0,
        ka >= 0,
        kb >= 0,
        ma > 0,
        mb > 0,
        (ma * pow2(ka as nat)) * pow2(64) == (mb * pow2(kb as nat)) * m + rest,
        0 <= rest < mb * pow2(kb as nat),
    ensures
        rounding::brackets(
            (ma * pow2(ua as nat)) * pow2(UNIT_EXPONENT as nat),
            mb * pow2(ub as nat),
            m,
            (ua + 1074 + kb) - (ub + ka + 64),
            rest != 0,
        ),
{
    let e1 = ua + 1074 + kb;
    let e2 = ub + ka + 64;
    let q = e1 - e2;
    let up = rounding::scale_up(q);
    let down = rounding::scale_down(q);
    let n = (ma * pow2(ua as nat)) * pow2(UNIT_EXPONENT as nat);
    let d = mb * pow2(ub as nat);
    let f = pow2((ka + 64 + kb) as nat) as int;
    let g = up * pow2(e2 as nat);
    rounding::lemma_powers();
    lemma_pow2_pos(e1 as nat);
    lemma_pow2_pos(e2 as nat);
    lemma_pow2_pos((ka + 64 + kb) as nat);
    lemma_pow2_pos(if q >= 0 { q as nat } else { 0 });
    if q >= 0 {
        lemma_pow2_adds(q as nat, e2 as nat);
        assert(g == down * pow2(e1 as nat)) by (nonlinear_arith)
            requires
                g == pow2(e1 as nat),
                down == 1,
        ;
    } else {
        lemma_pow2_adds((-q) as nat, e1 as nat);
        assert(g == down * pow2(e1 as nat)) by (nonlinear_arith)
            requires
                g == up * pow2(e2 as nat),
                pow2(e2 as nat) == down * pow2(e1 as nat),
                up == 1,
        ;
    }
    assert(g > 0) by (nonlinear_arith)
        requires
            g == up * pow2(e2 as nat),
            up > 0,
            pow2(e2 as nat) > 0,
    ;
    // 2^(ub) * f == 2^kb * 2^e2 and 2^(ua + 1074) * f == 2^ka * 2^64 * 2^e1.
    lemma_pow2_adds(ub as nat, (ka + 64 + kb) as nat);
    lemma_pow2_adds(kb as nat, e2 as nat);
    lemma_pow2_adds(ua as nat, UNIT_EXPONENT as nat);
    lemma_pow2_adds((ua + 1074) as nat, (ka + 64 + kb) as nat);
    lemma_pow2_adds(ka as nat, 64);
    lemma_pow2_adds((ka + 64) as nat, e1 as nat);
    let wb = mb * pow2(kb as nat);
    let wa = (ma * pow2(ka as nat)) * pow2(64);
    let pb = pow2(ub as nat) as int;
    let pkb = pow2(kb as nat) as int;
    let pe2 = pow2(e2 as nat) as int;
    assert forall|k: int| #[trigger] (k * up * d) * f == (k * wb) * g by {
        assert((k * up * d) * f == (k * wb) * g) by (nonlinear_arith)
            requires
                d == mb * pb,
                pb * f == pkb * pe2,
                wb == mb * pkb,
                g == up * pe2,
        ;
    }
    let pua = pow2((ua + 1074) as nat) as int;
    let pka = pow2((ka + 64) as nat) as int;
    let pe1 = pow2(e1 as nat) as int;
    assert(n == ma * pua) by (nonlinear_arith)
        requires
            n == (ma * pow2(ua as nat)) * pow2(UNIT_EXPONENT as nat),
            pua == pow2(ua as nat) * pow2(UNIT_EXPONENT as nat),
    ;
    assert(wa == ma * pka) by (nonlinear_arith)
        requires
            wa == (ma * pow2(ka as nat)) * pow2(64),
            pka == pow2(ka as nat) * pow2(64),
    ;
    assert((n * down) * f == wa * g) by (nonlinear_arith)
        requires
            n == ma * pua,
            pua * f == pka * pe1,
            wa == ma * pka,
            g == down * pe1,
    ;
    assert(m * wb == wb * m) by (nonlinear_arith);
    assert((m + 1) * wb == wb * m + wb) by (nonlinear_arith);
    assert((m * up * d) * f == (m * wb) * g);
    assert(((m + 1) * up * d) * f == ((m + 1) * wb) * g);
    rounding::lemma_strike(m * wb, wa, g);
    rounding::lemma_strike(wa, (m + 1) * wb, g);
    rounding::lemma_strike(m * up * d, n * down, f);
    rounding::lemma_strike(n * down, (m + 1) * up * d, f);
}

} // verus!
