//! Rounding keeps the order of numbers, and single precision stays near.

use super::decimal::nearest_even;
use super::laws::{
    gap_is_small, product_is_near, quotient_is_near, size_of, sum_is_near, unit,
};
use super::rounding;
use super::single::{SINGLE_EXPONENT, SINGLE_LIMIT, SINGLE_NORMAL, SINGLE_STEP};
use super::{Double, BINADE, INFINITY_CODE};
use vstd::arithmetic::div_mod::*;
use vstd::arithmetic::power2::*;
use vstd::prelude::*;

verus! {

/// The nearest code of a larger quotient is no smaller.
pub proof fn lemma_nearest_grows(n: int, d: int, m: int, e: int)
    requires
        n >= 0,
        m >= 0,
        d > 0,
        e > 0,
        n * e <= m * d,
    ensures
        0 <= Double::nearest_code(n, d) <= Double::nearest_code(m, e) <= INFINITY_CODE,
{
    rounding::nearest_code_exists(n, d);
    rounding::nearest_code_exists(m, e);
    let a = Double::nearest_code(n, d);
    let b = Double::nearest_code(m, e);
    if a > b {
        let under = Double::magnitude(b) + Double::magnitude(b + 1);
        let over = Double::magnitude(a - 1) + Double::magnitude(a);
        rounding::lemma_magnitude_grows(b, a - 1);
        rounding::lemma_magnitude_grows(b + 1, a);
        assert(over * d <= 2 * n && 2 * m <= under * e);
        assert(over * d * e <= 2 * n * e) by (nonlinear_arith)
            requires
                over * d <= 2 * n,
                e > 0,
        ;
        assert(2 * m * d <= under * e * d) by (nonlinear_arith)
            requires
                2 * m <= under * e,
                d > 0,
        ;
        assert(2 * n * e == 2 * (n * e) && 2 * m * d == 2 * (m * d)) by (nonlinear_arith);
        assert(under * e * d == under * d * e) by (nonlinear_arith);
        assert(over <= under) by (nonlinear_arith)
            requires
                over * d * e <= under * d * e,
                d > 0,
                e > 0,
        ;
        assert(a == b + 1);
        assert(over * d == 2 * n) by (nonlinear_arith)
            requires
                over * d <= 2 * n,
                over * d * e >= 2 * n * e,
                e > 0,
        ;
        assert(2 * m == under * e) by (nonlinear_arith)
            requires
                2 * m <= under * e,
                2 * m * d >= under * e * d,
                d > 0,
        ;
        assert(a % 2 == 0 && b % 2 == 0);
    }
}

proof fn lemma_assembled(negative: bool, code: int)
    requires
        0 <= code <= INFINITY_CODE,
    ensures
        Double::assembled(negative, code).code() == code,
        Double::assembled(negative, code).negative() == negative,
        !Double::assembled(negative, code).nan(),
        Double::assembled(negative, code).rank() == if negative {
            -code
        } else {
            code
        },
{
}

/// A larger sum is rounded to no smaller number.
pub proof fn sums_keep_order(a: Double, b: Double, c: Double, d: Double)
    requires
        a.finite(),
        b.finite(),
        c.finite(),
        d.finite(),
        a.value() + b.value() <= c.value() + d.value(),
    ensures
        !a.sum(b).nan(),
        !c.sum(d).nan(),
        a.sum(b).rank() <= c.sum(d).rank(),
{
    let m = a.value() + b.value();
    let n = c.value() + d.value();
    lemma_assembled(a.negative() && b.negative(), 0);
    lemma_assembled(c.negative() && d.negative(), 0);
    if m > 0 {
        lemma_nearest_grows(m, 1, n, 1);
        lemma_assembled(false, Double::nearest_code(m, 1));
        lemma_assembled(false, Double::nearest_code(n, 1));
    } else if n < 0 {
        lemma_nearest_grows(-n, 1, -m, 1);
        lemma_assembled(true, Double::nearest_code(-m, 1));
        lemma_assembled(true, Double::nearest_code(-n, 1));
    } else {
        if m < 0 {
            lemma_nearest_grows(-m, 1, -m, 1);
            lemma_assembled(true, Double::nearest_code(-m, 1));
        }
        if n > 0 {
            lemma_nearest_grows(n, 1, n, 1);
            lemma_assembled(false, Double::nearest_code(n, 1));
        }
    }
}

/// A larger difference is rounded to no smaller number.
pub proof fn differences_keep_order(a: Double, b: Double, c: Double, d: Double)
    requires
        a.finite(),
        b.finite(),
        c.finite(),
        d.finite(),
        a.value() - b.value() <= c.value() - d.value(),
    ensures
        !a.difference(b).nan(),
        !c.difference(d).nan(),
        a.difference(b).rank() <= c.difference(d).rank(),
{
    assert(b.negation().code() == b.code() && b.negation().negative() == !b.negative());
    assert(d.negation().code() == d.code() && d.negation().negative() == !d.negative());
    sums_keep_order(a, b.negation(), c, d.negation());
}

proof fn lemma_unit()
    ensures
        unit() > 0,
{
    lemma_pow2_pos(super::arithmetic::UNIT_EXPONENT as nat);
}

proof fn lemma_value_sign(x: Double)
    ensures
        x.code() >= 0,
        Double::magnitude(x.code()) >= 0,
        x.code() > 0 ==> Double::magnitude(x.code()) > 0,
        x.code() == 0 ==> Double::magnitude(x.code()) == 0,
        size_of(x.value()) == Double::magnitude(x.code()),
{
    rounding::lemma_magnitude_of(0, 0);
    rounding::lemma_powers();
    rounding::lemma_magnitude_grows(0, x.code());
}

/// The numbers over a positive one have no smaller a quotient for being larger.
pub proof fn quotients_keep_order(a: Double, b: Double, c: Double)
    requires
        a.finite(),
        b.finite(),
        c.finite(),
        c.value() > 0,
        a.value() <= b.value(),
    ensures
        !a.quotient(c).nan(),
        !b.quotient(c).nan(),
        a.quotient(c).rank() <= b.quotient(c).rank(),
{
    lemma_unit();
    lemma_value_sign(a);
    lemma_value_sign(b);
    lemma_value_sign(c);
    let u = unit();
    let d = Double::magnitude(c.code());
    let m = Double::magnitude(a.code());
    let n = Double::magnitude(b.code());
    assert(!c.negative() && d > 0);
    lemma_product_grows(m, n, u);
    lemma_product_grows(n, m, u);
    lemma_product_grows(m * u, n * u, d);
    lemma_product_grows(n * u, m * u, d);
    lemma_nearest_grows(m * u, d, m * u, d);
    lemma_nearest_grows(n * u, d, n * u, d);
    lemma_assembled(a.negative(), Double::nearest_code(m * u, d));
    lemma_assembled(b.negative(), Double::nearest_code(n * u, d));
    if a.negative() && b.negative() {
        lemma_nearest_grows(n * u, d, m * u, d);
    } else if !a.negative() && !b.negative() {
        lemma_nearest_grows(m * u, d, n * u, d);
    } else if !a.negative() {
        assert(m == 0 && n == 0);
        assert(0 * u == 0);
        rounding::lemma_magnitude_of(0, 0);
        rounding::lemma_powers();
        assert(Double::magnitude(0) * d == 0) by (nonlinear_arith)
            requires
                Double::magnitude(0) == 0,
        ;
        rounding::lemma_nearest_exact(0, d, 0);
    }
}

/// The numbers times one that is not negative have no smaller a product for being
/// larger.
pub proof fn products_keep_order(a: Double, b: Double, c: Double)
    requires
        a.finite(),
        b.finite(),
        c.finite(),
        c.value() > 0,
        a.value() <= b.value(),
    ensures
        !a.product(c).nan(),
        !b.product(c).nan(),
        a.product(c).rank() <= b.product(c).rank(),
{
    lemma_unit();
    lemma_value_sign(a);
    lemma_value_sign(b);
    lemma_value_sign(c);
    let u = unit();
    let d = Double::magnitude(c.code());
    let m = Double::magnitude(a.code());
    let n = Double::magnitude(b.code());
    assert(!c.negative() && d > 0);
    lemma_product_grows(m, n, d);
    lemma_product_grows(n, m, d);
    lemma_product_grows(m * d, n * d, u);
    lemma_product_grows(n * d, m * d, u);
    lemma_nearest_grows(m * d, u, m * d, u);
    lemma_nearest_grows(n * d, u, n * d, u);
    lemma_assembled(a.negative(), Double::nearest_code(m * d, u));
    lemma_assembled(b.negative(), Double::nearest_code(n * d, u));
    if a.negative() && b.negative() {
        lemma_nearest_grows(n * d, u, m * d, u);
    } else if !a.negative() && !b.negative() {
        lemma_nearest_grows(m * d, u, n * d, u);
    } else if !a.negative() {
        assert(m == 0 && n == 0);
        assert(0 * d == 0);
        rounding::lemma_magnitude_of(0, 0);
        rounding::lemma_powers();
        assert(Double::magnitude(0) * u == 0) by (nonlinear_arith)
            requires
                Double::magnitude(0) == 0,
        ;
        rounding::lemma_nearest_exact(0, u, 0);
    }
}

proof fn lemma_product_grows(m: int, n: int, d: int)
    requires
        m >= 0,
        n >= 0,
        d > 0,
    ensures
        m * d >= 0,
        n * d >= 0,
        m <= n ==> m * d <= n * d,
{
    assert(m * d >= 0 && n * d >= 0) by (nonlinear_arith)
        requires
            m >= 0,
            n >= 0,
            d > 0,
    ;
    if m <= n {
        assert(m * d <= n * d) by (nonlinear_arith)
            requires
                m <= n,
                d > 0,
        ;
    }
}

/// The nearest multiple of a step lies within half a step, and a larger number's is no
/// smaller.
proof fn lemma_nearest_even(n: int, m: int, d: int)
    requires
        0 <= n <= m,
        d > 0,
    ensures
        0 <= nearest_even(n, d) <= nearest_even(m, d),
        2 * size_of(nearest_even(n, d) * d - n) <= d,
        nearest_even(n, d) * d <= nearest_even(m, d) * d,
        nearest_even(n, d) * d >= 0,
{
    lemma_fundamental_div_mod(n, d);
    lemma_fundamental_div_mod(m, d);
    let q = n / d;
    let r = n % d;
    let s = m / d;
    let t = m % d;
    lemma_div_pos_is_pos(n, d);
    lemma_div_is_ordered(n, m, d);
    let a = nearest_even(n, d);
    let b = nearest_even(m, d);
    assert(q == s ==> r <= t) by {
        if q == s {
            assert(d * q == d * s);
        }
    }
    assert(a <= b);
    assert(q * d == d * q && (q + 1) * d == d * q + d) by (nonlinear_arith);
    assert(a * d <= b * d && a * d >= 0) by (nonlinear_arith)
        requires
            0 <= a <= b,
            d > 0,
    ;
}

/// The code of a number's single precision.
spec fn single_code(code: int) -> int {
    if code >= SINGLE_NORMAL {
        let rounded = nearest_even(code, SINGLE_STEP as int) * SINGLE_STEP;
        if rounded >= SINGLE_LIMIT {
            INFINITY_CODE as int
        } else {
            rounded
        }
    } else {
        let step = pow2(SINGLE_EXPONENT as nat) as int;
        Double::nearest_code(nearest_even(Double::magnitude(code), step) * step, 1)
    }
}

/// In single precision, the code of a larger number is no smaller.
proof fn lemma_single_codes(a: int, b: int)
    requires
        0 <= a <= b <= INFINITY_CODE,
    ensures
        0 <= single_code(a) <= single_code(b) <= INFINITY_CODE,
{
    let step = pow2(SINGLE_EXPONENT as nat) as int;
    lemma_pow2_pos(SINGLE_EXPONENT as nat);
    rounding::lemma_magnitude_grows(0, a);
    rounding::lemma_magnitude_grows(a, b);
    let m = Double::magnitude(a);
    let n = Double::magnitude(b);
    if a >= SINGLE_NORMAL {
        lemma_nearest_even(a, b, SINGLE_STEP as int);
    } else {
        lemma_nearest_even(m, n, step);
        let x = nearest_even(m, step) * step;
        let y = nearest_even(n, step) * step;
        assert(x * 1 == x && y * 1 == y);
        lemma_nearest_grows(x, 1, y, 1);
        if b >= SINGLE_NORMAL {
            let first = SINGLE_NORMAL as int;
            let least = Double::magnitude(first);
            rounding::lemma_magnitude_grows(a, first);
            lemma_nearest_even(m, least, step);
            assert(nearest_even(least, step) * step == least) by {
                rounding::lemma_powers();
                assert(first == 896 * BINADE + BINADE);
                rounding::lemma_magnitude_of(896, BINADE as int);
                lemma_pow2_adds(52, 896);
                lemma_pow2_adds(23, 925);
                lemma2_to64();
                let k = pow2(23) as int;
                assert(least == k * step);
                lemma_fundamental_div_mod_converse(least, step, k, 0);
            }
            lemma_nearest_grows(x, 1, least, 1);
            assert(least == least * 1);
            rounding::lemma_nearest_exact(least, 1, first);
            lemma_nearest_even(first, b, SINGLE_STEP as int);
            assert(nearest_even(first, SINGLE_STEP as int) * SINGLE_STEP == first);
        }
    }
}

/// A larger number has no smaller a single precision.
pub proof fn singles_keep_order(a: Double, b: Double)
    requires
        !a.nan(),
        !b.nan(),
        a.rank() <= b.rank(),
    ensures
        !a.single().nan(),
        !b.single().nan(),
        a.single().rank() <= b.single().rank(),
        a.rank() == 0 ==> a.single().rank() == 0,
{
    lemma_single_codes(a.code(), a.code());
    lemma_single_codes(b.code(), b.code());
    lemma_assembled(a.negative(), single_code(a.code()));
    lemma_assembled(b.negative(), single_code(b.code()));
    assert(a.single() == Double::assembled(a.negative(), single_code(a.code())));
    assert(b.single() == Double::assembled(b.negative(), single_code(b.code())));
    if a.code() <= b.code() {
        lemma_single_codes(a.code(), b.code());
    } else {
        lemma_single_codes(b.code(), a.code());
    }
    if a.negative() != b.negative() || a.rank() == 0 {
        lemma_single_zero();
    }
}

proof fn lemma_single_zero()
    ensures
        single_code(0) == 0,
{
    let step = pow2(SINGLE_EXPONENT as nat) as int;
    lemma_pow2_pos(SINGLE_EXPONENT as nat);
    rounding::lemma_magnitude_of(0, 0);
    rounding::lemma_powers();
    lemma_fundamental_div_mod_converse(0, step, 0, 0);
    assert(nearest_even(0, step) == 0);
    assert(0 * step == 0);
    rounding::lemma_nearest_exact(0, 1, 0);
}

/// Single precision is at most one part in `2^24` away, or, for the smallest numbers,
/// half a step of `2^-149`.
pub proof fn single_is_near(x: Double)
    requires
        x.finite(),
        x.single().finite(),
    ensures
        x.single().negative() == x.negative(),
        x.code() >= SINGLE_NORMAL ==> 0x100_0000 * size_of(x.single().value() - x.value())
            <= size_of(x.value()),
        x.code() < SINGLE_NORMAL ==> 2 * size_of(x.single().value() - x.value()) <= pow2(
            SINGLE_EXPONENT as nat,
        ),
{
    let code = x.code();
    let near = single_code(code);
    lemma_single_codes(code, code);
    lemma_assembled(x.negative(), near);
    assert(x.single() == Double::assembled(x.negative(), near));
    lemma_value_sign(x);
    if code >= SINGLE_NORMAL {
        let (u, r) = rounding::lemma_split(code);
        let step = SINGLE_STEP as int;
        lemma_nearest_even(code, code, step);
        let s = near - u * BINADE;
        let p = pow2(u as nat) as int;
        lemma_pow2_pos(u as nat);
        let k = nearest_even(code, step);
        assert(near == k * step);
        assert(BINADE as int == 0x80_0000 * step);
        let j = k - u * 0x80_0000;
        assert(s == j * step) by (nonlinear_arith)
            requires
                s == k * step - u * (0x80_0000 * step),
                j == k - u * 0x80_0000,
        ;
        assert(2 * size_of(s - r) <= step);
        assert(BINADE <= s <= 2 * BINADE) by (nonlinear_arith)
            requires
                s == j * step,
                BINADE == 0x80_0000 * step,
                BINADE <= r < 2 * BINADE,
                2 * size_of(s - r) <= step,
                step == 0x2000_0000,
        ;
        rounding::lemma_magnitude_of(u, s);
        assert(s * p - r * p == (s - r) * p) by (nonlinear_arith);
        assert(0x100_0000 * size_of((s - r) * p) <= r * p) by (nonlinear_arith)
            requires
                0x100_0000 * size_of(s - r) <= r,
                p > 0,
        ;
    } else {
        let step = pow2(SINGLE_EXPONENT as nat) as int;
        lemma_pow2_pos(SINGLE_EXPONENT as nat);
        let m = Double::magnitude(code);
        lemma_nearest_even(m, m, step);
        let k = nearest_even(m, step);
        rounding::lemma_magnitude_grows(code, SINGLE_NORMAL as int);
        lemma_small_steps(m, k, step);
        assert(Double::magnitude(near) == k * step);
    }
}

/// A small multiple of the least step is a number itself.
proof fn lemma_small_steps(m: int, k: int, step: int)
    requires
        step == pow2(SINGLE_EXPONENT as nat),
        0 <= m < Double::magnitude(SINGLE_NORMAL as int),
        k == nearest_even(m, step),
    ensures
        Double::magnitude(Double::nearest_code(k * step, 1)) == k * step,
{
    rounding::lemma_powers();
    lemma2_to64();
    lemma_pow2_pos(SINGLE_EXPONENT as nat);
    let first = SINGLE_NORMAL as int;
    let least = Double::magnitude(first);
    assert(first == 896 * BINADE + BINADE);
    rounding::lemma_magnitude_of(896, BINADE as int);
    lemma_pow2_adds(52, 896);
    lemma_pow2_adds(23, 925);
    assert(least == 0x80_0000 * step);
    lemma_nearest_even(m, least, step);
    lemma_fundamental_div_mod_converse(least, step, 0x80_0000, 0);
    assert(0 <= k <= 0x80_0000);
    assert(k > 0 ==> k * 0x40_0000 >= 0x40_0000);
    assert(pow2(22) == 0x40_0000);
    let code = lemma_small_code(k, SINGLE_EXPONENT as nat, 22);
    assert(k * step == Double::magnitude(code) * 1);
    rounding::lemma_nearest_exact(k * step, 1, code);
}

/// A number of at most 24 binary digits, times a power of two, has a code.
proof fn lemma_small_code(k: int, e: nat, left: nat) -> (code: int)
    requires
        0 <= k <= 0x80_0000,
        30 + left <= e <= 925,
        k > 0 ==> k * pow2(left) >= 0x40_0000,
    ensures
        0 <= code <= INFINITY_CODE,
        Double::magnitude(code) == k * pow2(e),
    decreases left,
{
    rounding::lemma_powers();
    lemma2_to64();
    if k == 0 {
        rounding::lemma_magnitude_of(0, 0);
        assert(0 * pow2(e) == 0);
        0
    } else if k >= 0x40_0000 {
        let u = (e - 30) as nat;
        let r = k * 0x4000_0000;
        lemma_pow2_adds(30, u);
        assert(pow2(30) == 0x4000_0000);
        assert(r * pow2(u) == k * (0x4000_0000 * pow2(u))) by (nonlinear_arith)
            requires
                r == k * 0x4000_0000,
        ;
        rounding::lemma_magnitude_of(u as int, r);
        u * BINADE + r
    } else {
        assert(left > 0) by {
            assert(k * 1 == k);
        }
        lemma_pow2_unfold(e);
        lemma_pow2_unfold(left);
        assert(k * pow2(e) == (2 * k) * pow2((e - 1) as nat)) by (nonlinear_arith)
            requires
                pow2(e) == 2 * pow2((e - 1) as nat),
        ;
        assert(k * pow2(left) == (2 * k) * pow2((left - 1) as nat)) by (nonlinear_arith)
            requires
                pow2(left) == 2 * pow2((left - 1) as nat),
        ;
        lemma_small_code(2 * k, (e - 1) as nat, (left - 1) as nat)
    }
}

/// What single precision leaves out at the least, times `2^24`.
pub open spec fn speck() -> int {
    pow2(948) as int
}

/// A number is finite where its single precision is.
pub proof fn lemma_single_finite(x: Double)
    requires
        x.single().finite(),
    ensures
        x.finite(),
        0x100_0000 * size_of(x.single().value() - x.value()) <= size_of(x.value()) + speck(),
{
    if !x.finite() {
        lemma_assembled(x.negative(), INFINITY_CODE as int);
        if !x.nan() {
            assert(x.code() == INFINITY_CODE);
            lemma_nearest_even(SINGLE_LIMIT as int, INFINITY_CODE as int, SINGLE_STEP as int);
            assert(nearest_even(SINGLE_LIMIT as int, SINGLE_STEP as int) * SINGLE_STEP
                == SINGLE_LIMIT);
        }
    } else {
        single_is_near(x);
        lemma2_to64();
        lemma_pow2_adds(23, 925);
        lemma_pow2_pos(948);
    }
}

/// Two roundings, the second to single precision.
proof fn lemma_rough(s: int, x: int, exact: int, gap: int, least: int)
    requires
        0x100_0000 * size_of(s - x) <= size_of(x) + least,
        2 * size_of(x - exact) <= gap,
        0x100_0000 * gap <= least || gap * BINADE <= size_of(x),
        least >= 0,
    ensures
        0x80_0000 * size_of(s - exact) <= size_of(exact) + 2 * least,
{
    assert(size_of(s - exact) <= size_of(s - x) + size_of(x - exact));
    assert(size_of(x) <= size_of(exact) + size_of(x - exact));
}

/// A sum in single precision is at most one part in `2^23` away, and a speck.
pub proof fn single_sums_are_near(a: Double, b: Double)
    requires
        a.single_sum(b).finite(),
    ensures
        a.finite(),
        b.finite(),
        0x80_0000 * size_of(a.single_sum(b).value() - (a.value() + b.value())) <= size_of(
            a.value() + b.value(),
        ) + 2 * speck(),
{
    let x = a.sum(b);
    lemma_single_finite(x);
    sum_is_near(a, b);
    gap_is_small(x);
    lemma_value_sign(x);
    lemma_speck();
    lemma_rough(x.single().value(), x.value(), a.value() + b.value(), x.gap(), speck());
}

proof fn lemma_speck()
    ensures
        0x100_0000 <= speck(),
{
    lemma2_to64();
    lemma_pow2_strictly_increases(24, 948);
}

proof fn lemma_sizes(x: int, d: int)
    requires
        d > 0,
    ensures
        size_of(x * d) == size_of(x) * d,
{
    assert((-x) * d == -(x * d)) by (nonlinear_arith);
    assert(x > 0 ==> x * d > 0) by (nonlinear_arith)
        requires
            d > 0,
    ;
    assert(x < 0 ==> x * d < 0) by (nonlinear_arith)
        requires
            d > 0,
    ;
}

/// What two roundings miss, in parts of which there are `d` to one.
proof fn lemma_rough_parts(x: Double, exact: int, d: int)
    requires
        x.single().finite(),
        d > 0,
        2 * size_of(x.value() * d - exact) <= x.gap() * d,
    ensures
        0x80_0000 * size_of(x.single().value() * d - exact) <= size_of(exact) + 2 * (speck() * d),
{
    lemma_single_finite(x);
    gap_is_small(x);
    lemma_value_sign(x);
    lemma_speck();
    let s = x.single().value();
    lemma_sizes(s - x.value(), d);
    lemma_sizes(x.value(), d);
    assert((s - x.value()) * d == s * d - x.value() * d) by (nonlinear_arith);
    let way = size_of(s - x.value());
    let size = size_of(x.value());
    assert(0x100_0000 * (way * d) <= size * d + speck() * d) by (nonlinear_arith)
        requires
            0x100_0000 * way <= size + speck(),
            d > 0,
    ;
    let gap = x.gap();
    if gap == 1 {
        assert(0x100_0000 * (gap * d) <= speck() * d) by (nonlinear_arith)
            requires
                gap == 1,
                0x100_0000 <= speck(),
                d > 0,
        ;
    } else {
        assert((gap * d) * BINADE <= size * d) by (nonlinear_arith)
            requires
                gap * BINADE <= size,
                d > 0,
        ;
    }
    assert(speck() * d >= 0) by (nonlinear_arith)
        requires
            speck() >= 0,
            d > 0,
    ;
    lemma_rough(s * d, x.value() * d, exact, gap * d, speck() * d);
}

/// A product in single precision is at most one part in `2^23` away, and a speck.
pub proof fn single_products_are_near(a: Double, b: Double)
    requires
        a.single_product(b).finite(),
    ensures
        a.finite(),
        b.finite(),
        0x80_0000 * size_of(a.single_product(b).value() * unit() - a.value() * b.value())
            <= size_of(a.value() * b.value()) + 2 * (speck() * unit()),
{
    lemma_single_finite(a.product(b));
    lemma_unit();
    product_is_near(a, b);
    lemma_rough_parts(a.product(b), a.value() * b.value(), unit());
}

/// A quotient by a positive number, in single precision, is at most one part in `2^23`
/// away, and a speck.
pub proof fn single_quotients_are_near(a: Double, b: Double)
    requires
        a.single_quotient(b).finite(),
        b.finite(),
        b.value() > 0,
    ensures
        a.finite(),
        0x80_0000 * size_of(a.single_quotient(b).value() * b.value() - a.value() * unit())
            <= size_of(a.value() * unit()) + 2 * (speck() * b.value()),
{
    lemma_single_finite(a.quotient(b));
    lemma_value_sign(b);
    quotient_is_near(a, b);
    lemma_rough_parts(a.quotient(b), a.value() * unit(), b.value());
}

/// Numbers of one size have single precisions of one size, each with its own sign.
pub proof fn lemma_single_signs(x: Double, y: Double)
    requires
        !x.nan(),
        !y.nan(),
        x.code() == y.code(),
    ensures
        x.single().code() == y.single().code(),
        x.single().negative() == x.negative(),
        y.single().negative() == y.negative(),
{
    lemma_single_codes(x.code(), x.code());
    lemma_assembled(x.negative(), single_code(x.code()));
    lemma_assembled(y.negative(), single_code(y.code()));
    assert(x.single() == Double::assembled(x.negative(), single_code(x.code())));
    assert(y.single() == Double::assembled(y.negative(), single_code(y.code())));
}

} // verus!
