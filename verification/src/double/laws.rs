//! How near a result lies to the exact one.

use super::arithmetic::UNIT_EXPONENT;
use super::rounding;
use super::{Double, BINADE, INFINITY_CODE};
use vstd::arithmetic::power2::*;
use vstd::prelude::*;

verus! {

/// One, counted in units.
pub open spec fn unit() -> int {
    pow2(UNIT_EXPONENT as nat) as int
}

pub open spec fn size_of(x: int) -> int {
    if x < 0 {
        -x
    } else {
        x
    }
}

impl Double {
    /// The distance to the next number away from zero, in units.
    pub open spec fn gap(self) -> int {
        Double::magnitude(self.code() + 1) - Double::magnitude(self.code())
    }
}

/// Numbers lie no closer as they grow.
proof fn lemma_gaps_grow(code: int)
    requires
        code > 0,
    ensures
        0 < Double::magnitude(code) - Double::magnitude(code - 1) <= Double::magnitude(code + 1)
            - Double::magnitude(code),
{
    let (u, r) = rounding::lemma_split(code);
    let p = pow2(u as nat) as int;
    rounding::lemma_powers();
    lemma_pow2_pos(u as nat);
    rounding::lemma_magnitude_of(u, r + 1);
    rounding::lemma_magnitude_step(code - 1);
    assert((r + 1) * p == r * p + p) by (nonlinear_arith);
    assert(u * BINADE + (r + 1) == code + 1);
    if u > 0 && r == BINADE {
        let half = pow2((u - 1) as nat) as int;
        lemma_pow2_unfold(u as nat);
        lemma_pow2_pos((u - 1) as nat);
        let below = 2 * BINADE - 1;
        rounding::lemma_magnitude_of(u - 1, below);
        assert((u - 1) * BINADE + below == code - 1) by (nonlinear_arith)
            requires
                code == u * BINADE + BINADE,
                below == 2 * BINADE - 1,
        ;
        assert(below * half == BINADE * (2 * half) - half) by (nonlinear_arith)
            requires
                below == 2 * BINADE - 1,
        ;
    } else {
        rounding::lemma_magnitude_of(u, r - 1);
        assert((r - 1) * p == r * p - p) by (nonlinear_arith);
        assert(u * BINADE + (r - 1) == code - 1);
    }
}

/// A gap is one unit, or at most one part in `2^52` of the number.
pub proof fn gap_is_small(x: Double)
    ensures
        x.gap() > 0,
        x.gap() == 1 || x.gap() * BINADE <= Double::magnitude(x.code()),
{
    let code = x.code();
    let (u, r) = rounding::lemma_split(code);
    let p = pow2(u as nat) as int;
    rounding::lemma_powers();
    lemma_pow2_pos(u as nat);
    rounding::lemma_magnitude_of(u, r + 1);
    assert((r + 1) * p == r * p + p) by (nonlinear_arith);
    assert(u * BINADE + (r + 1) == code + 1);
    if u > 0 {
        assert(p * BINADE <= r * p) by (nonlinear_arith)
            requires
                r >= BINADE,
                p > 0,
        ;
    }
}

/// The nearest code lies within half a gap.
pub proof fn lemma_near(n: int, d: int)
    requires
        n >= 0,
        d > 0,
        Double::nearest_code(n, d) < INFINITY_CODE,
    ensures
        ({
            let code = Double::nearest_code(n, d);
            let gap = Double::magnitude(code + 1) - Double::magnitude(code);
            &&& 0 <= code
            &&& -(gap * d) <= 2 * (Double::magnitude(code) * d - n) <= gap * d
        }),
{
    rounding::nearest_code_exists(n, d);
    let code = Double::nearest_code(n, d);
    let here = Double::magnitude(code);
    let next = Double::magnitude(code + 1);
    assert((here + next) * d == 2 * (here * d) + (next - here) * d) by (nonlinear_arith);
    rounding::lemma_magnitude_step(code);
    if code > 0 {
        let before = Double::magnitude(code - 1);
        lemma_gaps_grow(code);
        assert(2 * (here * d) - (before + here) * d <= (next - here) * d) by (nonlinear_arith)
            requires
                here - before <= next - here,
                d > 0,
        ;
    } else {
        assert(here == 0) by {
            rounding::lemma_magnitude_of(0, 0);
            rounding::lemma_powers();
        }
        assert((next - here) * d >= 0 && here * d == 0) by (nonlinear_arith)
            requires
                next >= here,
                here == 0,
                d > 0,
        ;
    }
}

proof fn lemma_assembled(negative: bool, code: int)
    requires
        0 <= code <= INFINITY_CODE,
    ensures
        Double::assembled(negative, code).code() == code,
        Double::assembled(negative, code).negative() == negative,
        Double::assembled(negative, code).value() == if negative {
            -Double::magnitude(code)
        } else {
            Double::magnitude(code)
        },
{
}

/// A finite sum is one of finite numbers, and lies within half a gap of the exact
/// one.
pub proof fn sum_is_near(a: Double, b: Double)
    requires
        a.sum(b).finite(),
    ensures
        a.finite(),
        b.finite(),
        2 * size_of(a.sum(b).value() - (a.value() + b.value())) <= a.sum(b).gap(),
{
    assert(a.finite() && b.finite());
    let exact = a.value() + b.value();
    gap_is_small(a.sum(b));
    if exact == 0 {
        lemma_assembled(a.negative() && b.negative(), 0);
        rounding::lemma_magnitude_of(0, 0);
        rounding::lemma_powers();
    } else {
        let n = size_of(exact);
        rounding::nearest_code_exists(n, 1);
        lemma_assembled(exact < 0, Double::nearest_code(n, 1));
        lemma_near(n, 1);
    }
}

/// A finite product is one of finite numbers, and lies within half a gap of the
/// exact one.
pub proof fn product_is_near(a: Double, b: Double)
    requires
        a.product(b).finite(),
    ensures
        a.finite(),
        b.finite(),
        2 * size_of(a.product(b).value() * unit() - a.value() * b.value()) <= a.product(b).gap()
            * unit(),
{
    assert(a.finite() && b.finite());
    let x = Double::magnitude(a.code());
    let y = Double::magnitude(b.code());
    rounding::lemma_magnitude_step(a.code());
    rounding::lemma_magnitude_step(b.code());
    lemma_pow2_pos(UNIT_EXPONENT as nat);
    assert(x * y >= 0) by (nonlinear_arith)
        requires
            x >= 0,
            y >= 0,
    ;
    rounding::nearest_code_exists(x * y, unit());
    let code = Double::nearest_code(x * y, unit());
    lemma_assembled(a.negative() != b.negative(), code);
    lemma_near(x * y, unit());
    let m = Double::magnitude(code);
    assert((-x) * y == -(x * y) && x * (-y) == -(x * y) && (-x) * (-y) == x * y && (-m) * unit()
        == -(m * unit())) by (nonlinear_arith);
}

/// A finite quotient by a finite number other than zero is one of a finite number;
/// times the divisor it lies within half a gap of the dividend.
pub proof fn quotient_is_near(a: Double, b: Double)
    requires
        a.quotient(b).finite(),
        b.finite(),
        !b.zero(),
    ensures
        a.finite(),
        2 * size_of(a.quotient(b).value() * b.value() - a.value() * unit()) <= a.quotient(b).gap()
            * size_of(b.value()),
{
    assert(a.finite());
    let x = Double::magnitude(a.code());
    let y = Double::magnitude(b.code());
    rounding::lemma_magnitude_step(a.code());
    rounding::lemma_magnitude_of(0, 0);
    rounding::lemma_powers();
    rounding::lemma_magnitude_grows(0, b.code());
    lemma_pow2_pos(UNIT_EXPONENT as nat);
    assert(x * unit() >= 0) by (nonlinear_arith)
        requires
            x >= 0,
            unit() > 0,
    ;
    rounding::nearest_code_exists(x * unit(), y);
    let code = Double::nearest_code(x * unit(), y);
    lemma_assembled(a.negative() != b.negative(), code);
    lemma_near(x * unit(), y);
    let m = Double::magnitude(code);
    assert((-m) * y == -(m * y) && m * (-y) == -(m * y) && (-m) * (-y) == m * y && (-x) * unit()
        == -(x * unit())) by (nonlinear_arith);
}

/// A sum that comes out below a number is below it exactly, in size.
pub proof fn sum_keeps_below(a: Double, b: Double, limit: Double)
    requires
        a.finite(),
        b.finite(),
        limit.finite(),
        !limit.negative(),
        a.sum(b).absolute().below(limit),
    ensures
        size_of(a.value() + b.value()) < limit.value(),
{
    let n = size_of(a.value() + b.value());
    let top = limit.code();
    rounding::lemma_magnitude_of(0, 0);
    rounding::lemma_powers();
    if n == 0 {
        rounding::lemma_magnitude_grows(0, top);
    } else {
        rounding::nearest_code_exists(n, 1);
        let code = Double::nearest_code(n, 1);
        lemma_assembled(a.value() + b.value() < 0, code);
        assert(code < top);
        rounding::lemma_magnitude_grows(code, top - 1);
        rounding::lemma_magnitude_grows(code + 1, top);
        rounding::lemma_magnitude_step(top - 1);
    }
}

/// Every whole number below `2^53` is a number of the format.
pub proof fn whole_numbers_have_codes(k: int) -> (code: int)
    requires
        0 <= k < 2 * BINADE,
    ensures
        0 <= code < INFINITY_CODE,
        Double::magnitude(code) == k * unit(),
{
    rounding::lemma_powers();
    if k == 0 {
        rounding::lemma_magnitude_of(0, 0);
        assert(0 * unit() == 0);
        0
    } else {
        let e = lemma_top_digit(k, 52);
        let rest = pow2((52 - e) as nat) as int;
        let r = k * rest;
        lemma_pow2_adds(e, (52 - e) as nat);
        lemma_pow2_unfold((e + 1) as nat);
        lemma_pow2_pos((52 - e) as nat);
        assert(BINADE <= r < 2 * BINADE) by (nonlinear_arith)
            requires
                pow2(e) <= k < 2 * pow2(e),
                pow2(e) * rest == BINADE,
                rest > 0,
                r == k * rest,
        ;
        rounding::lemma_magnitude_of((1022 + e) as int, r);
        lemma_pow2_adds((52 - e) as nat, 1022 + e);
        assert(r * pow2(1022 + e) == k * (rest * pow2(1022 + e))) by (nonlinear_arith)
            requires
                r == k * rest,
        ;
        (1022 + e) * BINADE + r
    }
}

/// The place of a number's first binary digit.
proof fn lemma_top_digit(k: int, most: nat) -> (e: nat)
    requires
        1 <= k < 2 * pow2(most),
    ensures
        e <= most,
        pow2(e) <= k < 2 * pow2(e),
    decreases most,
{
    if k >= pow2(most) {
        most
    } else {
        lemma2_to64();
        lemma_pow2_unfold(most);
        lemma_top_digit(k, (most - 1) as nat)
    }
}

/// The product of whole numbers is exact as long as it is below `2^53`.
pub proof fn whole_products_are_exact(x: Double, y: Double, a: int, b: int)
    requires
        x.finite(),
        y.finite(),
        x.value() == a * unit(),
        y.value() == b * unit(),
        a >= 0,
        b >= 0,
        a * b < 2 * BINADE,
    ensures
        x.product(y).finite(),
        x.product(y).value() == a * b * unit(),
{
    let u = unit();
    lemma_pow2_pos(UNIT_EXPONENT as nat);
    rounding::lemma_magnitude_step(x.code());
    rounding::lemma_magnitude_step(y.code());
    rounding::lemma_powers();
    rounding::lemma_magnitude_of(0, 0);
    let m = Double::magnitude(x.code());
    let n = Double::magnitude(y.code());
    assert(a * u >= 0 && b * u >= 0) by (nonlinear_arith)
        requires
            a >= 0,
            b >= 0,
            u > 0,
    ;
    assert(m == a * u && n == b * u);
    assert(a * b >= 0) by (nonlinear_arith)
        requires
            a >= 0,
            b >= 0,
    ;
    let code = whole_numbers_have_codes(a * b);
    assert((a * u) * (b * u) == (a * b * u) * u) by (nonlinear_arith);
    rounding::lemma_nearest_exact(m * n, u, code);
    lemma_assembled(x.negative() != y.negative(), code);
    if x.negative() != y.negative() {
        // One of the two is a zero with a sign.
        assert(a * b == 0) by {
            if x.negative() {
                assert(a * u == 0);
                assert(a == 0) by (nonlinear_arith)
                    requires
                        a * u == 0,
                        u > 0,
                ;
            } else {
                assert(b * u == 0);
                assert(b == 0) by (nonlinear_arith)
                    requires
                        b * u == 0,
                        u > 0,
                ;
            }
            assert(a * b == 0) by (nonlinear_arith)
                requires
                    a == 0 || b == 0,
            ;
        }
        assert(a * b * u == 0) by (nonlinear_arith)
            requires
                a * b == 0,
        ;
    }
}

} // verus!
