//! Rounding of an exact quotient to the nearest code.

use super::{Double, BINADE, INFINITY_CODE};
use vstd::arithmetic::power2::*;
use vstd::prelude::*;

verus! {

pub proof fn lemma_powers()
    ensures
        pow2(0) == 1,
        pow2(1) == 2,
        pow2(52) == BINADE,
        pow2(53) == 2 * BINADE,
{
    lemma2_to64();
    lemma_pow2_adds(32, 20);
    lemma_pow2_adds(52, 1);
}

/// A significand `r` in the binade `u` has the code `u * BINADE + r`.
pub proof fn lemma_magnitude_of(u: int, r: int)
    requires
        0 <= u,
        0 <= r <= 2 * BINADE,
        u > 0 ==> r >= BINADE,
    ensures
        Double::magnitude(u * BINADE + r) == r * pow2(u as nat),
{
    lemma_powers();
    let code = u * BINADE + r;
    let p = pow2(u as nat) as int;
    if code < BINADE {
        assert(u == 0);
        assert(r * p == r) by (nonlinear_arith)
            requires
                p == 1,
        ;
    } else if r < 2 * BINADE {
        assert(code / (BINADE as int) == u + 1);
        assert(code % (BINADE as int) == r - BINADE);
        assert(BINADE + code % (BINADE as int) == r);
    } else {
        assert(code / (BINADE as int) == u + 2);
        assert(code % (BINADE as int) == 0);
        lemma_pow2_unfold((u + 1) as nat);
        assert(BINADE * (2 * p) == r * p) by (nonlinear_arith)
            requires
                r == 2 * BINADE,
        ;
    }
}

/// The significand and the binade of a code.
pub proof fn lemma_split(code: int) -> (split: (int, int))
    requires
        0 <= code,
    ensures
        0 <= split.0,
        0 <= split.1 < 2 * BINADE,
        split.0 > 0 ==> split.1 >= BINADE,
        code == split.0 * BINADE + split.1,
        Double::magnitude(code) == split.1 * pow2(split.0 as nat),
{
    let e = code / (BINADE as int);
    let f = code % (BINADE as int);
    let u = if e == 0 { 0 } else { e - 1 };
    let r = if e == 0 { f } else { f + BINADE };
    lemma_magnitude_of(u, r);
    (u, r)
}

/// Magnitudes grow with their codes.
pub proof fn lemma_magnitude_step(code: int)
    requires
        0 <= code,
    ensures
        0 <= Double::magnitude(code) < Double::magnitude(code + 1),
{
    let (u, r) = lemma_split(code);
    lemma_magnitude_of(u, r + 1);
    lemma_pow2_pos(u as nat);
    assert(0 <= r * pow2(u as nat) < (r + 1) * pow2(u as nat)) by (nonlinear_arith)
        requires
            r >= 0,
            pow2(u as nat) > 0,
    ;
}

pub proof fn lemma_magnitude_grows(low: int, high: int)
    requires
        0 <= low <= high,
    ensures
        0 <= Double::magnitude(low) <= Double::magnitude(high),
        low < high ==> Double::magnitude(low) < Double::magnitude(high),
    decreases high - low,
{
    lemma_magnitude_step(low);
    if low < high {
        lemma_magnitude_grows(low + 1, high);
    }
}

/// No quotient has two nearest codes.
pub proof fn lemma_nearest_unique(n: int, d: int, a: int, b: int)
    requires
        d > 0,
        Double::nearest(n, d, a),
        Double::nearest(n, d, b),
    ensures
        a == b,
{
    if a != b {
        let low = if a < b { a } else { b };
        let high = if a < b { b } else { a };
        lemma_magnitude_grows(low, high - 1);
        lemma_magnitude_grows(low + 1, high);
        let under = Double::magnitude(low) + Double::magnitude(low + 1);
        let over = Double::magnitude(high - 1) + Double::magnitude(high);
        assert(under * d <= over * d) by (nonlinear_arith)
            requires
                under <= over,
                d > 0,
        ;
        if low + 1 < high {
            assert(under * d < over * d) by (nonlinear_arith)
                requires
                    under < over,
                    d > 0,
            ;
        }
    }
}

/// `nearest_code` is the code that is nearest.
pub proof fn lemma_nearest_code(n: int, d: int, code: int)
    requires
        d > 0,
        Double::nearest(n, d, code),
    ensures
        Double::nearest_code(n, d) == code,
{
    lemma_nearest_unique(n, d, Double::nearest_code(n, d), code);
}

/// A quotient that a magnitude equals is nearest to that magnitude's code.
pub proof fn lemma_nearest_exact(n: int, d: int, code: int)
    requires
        d > 0,
        0 <= code <= INFINITY_CODE,
        n == Double::magnitude(code) * d,
    ensures
        Double::nearest(n, d, code),
        Double::nearest_code(n, d) == code,
{
    let here = Double::magnitude(code);
    assert(2 * n == (here + here) * d) by (nonlinear_arith)
        requires
            n == here * d,
    ;
    if code > 0 {
        lemma_magnitude_step(code - 1);
        let below = Double::magnitude(code - 1);
        assert((below + here) * d < (here + here) * d) by (nonlinear_arith)
            requires
                below < here,
                d > 0,
        ;
    }
    lemma_magnitude_step(code);
    let above = Double::magnitude(code + 1);
    assert((here + here) * d < (here + above) * d) by (nonlinear_arith)
        requires
            here < above,
            d > 0,
    ;
    lemma_nearest_code(n, d, code);
}

/// The largest code up to `top` whose magnitude is at most `n / d`.
proof fn lemma_floor(n: int, d: int, top: int) -> (code: int)
    requires
        n >= 0,
        d > 0,
        0 <= top,
    ensures
        0 <= code <= top,
        Double::magnitude(code) * d <= n,
        code < top ==> n < Double::magnitude(code + 1) * d,
    decreases top,
{
    if Double::magnitude(top) * d <= n {
        top
    } else {
        if top == 0 {
            lemma_magnitude_of(0, 0);
            lemma_powers();
            assert(Double::magnitude(0) == 0);
            assert(0 * d == 0);
        }
        lemma_floor(n, d, top - 1)
    }
}

/// Every quotient has a nearest code.
pub proof fn nearest_code_exists(n: int, d: int)
    requires
        n >= 0,
        d > 0,
    ensures
        Double::nearest(n, d, Double::nearest_code(n, d)),
{
    let top = INFINITY_CODE as int;
    let code = lemma_floor(n, d, top);
    let here = Double::magnitude(code);
    let next = Double::magnitude(code + 1);
    lemma_magnitude_step(code);
    lemma_magnitude_step(code + 1);
    if code > 0 {
        lemma_magnitude_step(code - 1);
        let before = Double::magnitude(code - 1);
        assert((before + here) * d < 2 * n) by (nonlinear_arith)
            requires
                before < here,
                here * d <= n,
                d > 0,
        ;
    }
    if code == top {
        assert(Double::nearest(n, d, code));
    } else if 2 * n < (here + next) * d || 2 * n == (here + next) * d && code % 2 == 0 {
        assert(Double::nearest(n, d, code));
    } else {
        let after = Double::magnitude(code + 2);
        assert(2 * n < (next + after) * d) by (nonlinear_arith)
            requires
                next < after,
                n < next * d,
                d > 0,
        ;
        assert(Double::nearest(n, d, code + 1));
    }
}

/// Where a quotient `n / d` lies between `r` and `r + 1` steps of `2^u`: the
/// nearest code is that of the nearer end.
pub proof fn lemma_nearest_between(n: int, d: int, u: int, r: int, up: bool)
    requires
        d > 0,
        0 <= u < 2046,
        0 <= r < 2 * BINADE,
        u > 0 ==> r >= BINADE,
        r * pow2(u as nat) * d <= n < (r + 1) * pow2(u as nat) * d,
        up ==> (2 * r + 1) * pow2(u as nat) * d <= 2 * n,
        !up ==> 2 * n <= (2 * r + 1) * pow2(u as nat) * d,
        (2 * r + 1) * pow2(u as nat) * d == 2 * n ==> (up <==> r % 2 == 1),
    ensures
        Double::nearest(n, d, u * BINADE + r + if up { 1int } else { 0 }),
{
    let p = pow2(u as nat) as int;
    lemma_pow2_pos(u as nat);
    lemma_magnitude_of(u, r);
    lemma_magnitude_of(u, r + 1);
    let code = u * BINADE + r;
    assert(Double::magnitude(code) + Double::magnitude(code + 1) == (2 * r + 1) * p) by (nonlinear_arith)
        requires
            Double::magnitude(code) == r * p,
            Double::magnitude(code + 1) == (r + 1) * p,
    ;
    assert((u * BINADE) % 2 == 0) by (nonlinear_arith)
        requires
            BINADE == 2 * 0x8_0000_0000_0000,
    ;
    assert(u * BINADE + 2 * BINADE <= INFINITY_CODE) by (nonlinear_arith)
        requires
            u <= 2045,
            INFINITY_CODE == 2047 * BINADE,
    ;
    if up {
        lemma_magnitude_step(code + 1);
        let here = Double::magnitude(code + 1);
        let above = Double::magnitude(code + 2);
        assert((here + above) * d > 2 * (here * d)) by (nonlinear_arith)
            requires
                above > here,
                d > 0,
        ;
    } else if code > 0 {
        lemma_magnitude_step(code - 1);
        let here = Double::magnitude(code);
        let below = Double::magnitude(code - 1);
        assert((here + below) * d < 2 * (here * d)) by (nonlinear_arith)
            requires
                below < here,
                d > 0,
        ;
    }
}

/// A quotient of the largest binade and beyond is nearest to infinity.
pub proof fn lemma_nearest_overflow(n: int, d: int, u: int, r: int)
    requires
        d > 0,
        u >= 2046,
        r >= BINADE,
        r * pow2(u as nat) * d <= n,
    ensures
        Double::nearest(n, d, INFINITY_CODE as int),
{
    lemma_magnitude_of(2046, BINADE as int);
    assert(2046 * BINADE + BINADE == INFINITY_CODE);
    if u > 2046 {
        lemma_pow2_strictly_increases(2046, u as nat);
    }
    let top = Double::magnitude(INFINITY_CODE as int);
    assert(top * d <= n) by (nonlinear_arith)
        requires
            top == BINADE * pow2(2046),
            pow2(2046) <= pow2(u as nat),
            r >= BINADE,
            r * pow2(u as nat) * d <= n,
            d > 0,
    ;
    lemma_magnitude_step(INFINITY_CODE - 1);
    let below = Double::magnitude(INFINITY_CODE - 1);
    assert((below + top) * d < 2 * (top * d)) by (nonlinear_arith)
        requires
            below < top,
            d > 0,
    ;
}

/// The factor that a positive binary exponent stands for.
pub open spec fn scale_up(q: int) -> int {
    pow2(if q >= 0 { q as nat } else { 0 }) as int
}

/// The divisor that a negative binary exponent stands for.
pub open spec fn scale_down(q: int) -> int {
    pow2(if q < 0 { (-q) as nat } else { 0 }) as int
}

/// `n / d` lies from `m * 2^q` up to, not including, `(m + 1) * 2^q`; it is the
/// lower end itself unless `more`.
pub open spec fn brackets(n: int, d: int, m: int, q: int, more: bool) -> bool {
    &&& m * scale_up(q) * d <= n * scale_down(q)
    &&& n * scale_down(q) < (m + 1) * scale_up(q) * d
    &&& more <==> m * scale_up(q) * d != n * scale_down(q)
}

/// The shift of one to the left gives a power of two.
proof fn lemma_shift_one(k: u32)
    requires
        k < 128,
    ensures
        1u128 << k == pow2(k as nat),
    decreases k,
{
    lemma2_to64();
    if k == 0 {
        assert(1u128 << 0u32 == 1u128) by (bit_vector);
    } else {
        let j = (k - 1) as u32;
        lemma_shift_one(j);
        lemma_pow2_unfold(k as nat);
        assert(1u128 << k == 2 * (1u128 << j)) by (bit_vector)
            requires
                0 < k < 128,
                j == k - 1,
        ;
    }
}

/// Two to the power `k`.
pub fn power_of_two(k: u32) -> (power: u128)
    requires
        k < 128,
    ensures
        power == pow2(k as nat),
        power > 0,
{
    proof {
        lemma_shift_one(k);
        lemma_pow2_pos(k as nat);
    }
    1u128 << k
}

/// Twice the significand at half the step brackets what it did.
proof fn lemma_brackets_double(n: int, d: int, m: int, q: int)
    requires
        q > 0,
        brackets(n, d, m, q, false),
        d > 0,
    ensures
        brackets(n, d, 2 * m, q - 1, false),
{
    lemma_pow2_unfold(q as nat);
    lemma_pow2_pos((q - 1) as nat);
    let half = pow2((q - 1) as nat) as int;
    assert(m * (2 * half) * d == (2 * m) * half * d) by (nonlinear_arith);
    assert((2 * m) * half * d < (2 * m + 1) * half * d) by (nonlinear_arith)
        requires
            half > 0,
            d > 0,
    ;
}

/// A whole number of steps is bracketed by itself.
pub proof fn lemma_brackets_exact(n: int, m: int, q: int)
    requires
        q >= 0,
        n == m * pow2(q as nat),
    ensures
        brackets(n, 1, m, q, false),
{
    lemma_powers();
    lemma_pow2_pos(q as nat);
    let p = pow2(q as nat) as int;
    assert((m + 1) * p == m * p + p) by (nonlinear_arith);
}

/// What lies strictly between two steps is bracketed by the lower one.
pub proof fn lemma_brackets_inside(n: int, m: int, q: int)
    requires
        q >= 0,
        m * pow2(q as nat) < n < (m + 1) * pow2(q as nat),
    ensures
        brackets(n, 1, m, q, true),
{
    lemma_powers();
    let down = scale_down(q);
    assert(n * down == n) by (nonlinear_arith)
        requires
            down == 1,
    ;
}

/// `m * 2^e / 2^f` is `m * 2^(e - f)`.
pub proof fn lemma_brackets_quotient(n: int, d: int, m: int, e: int, f: int)
    requires
        e >= 0,
        f >= 0,
        n == m * pow2(e as nat),
        d == pow2(f as nat),
    ensures
        brackets(n, d, m, e - f, false),
{
    let q = e - f;
    let up = scale_up(q);
    let down = scale_down(q);
    lemma_powers();
    lemma_pow2_pos(f as nat);
    lemma_pow2_pos(e as nat);
    if q >= 0 {
        lemma_pow2_adds(q as nat, f as nat);
        assert(up * d == pow2(e as nat) * down) by (nonlinear_arith)
            requires
                up * d == pow2(e as nat),
                down == 1,
        ;
    } else {
        lemma_pow2_adds((-q) as nat, e as nat);
        assert(up * d == pow2(e as nat) * down) by (nonlinear_arith)
            requires
                d == down * pow2(e as nat),
                up == 1,
        ;
    }
    lemma_pow2_pos(if q >= 0 { q as nat } else { 0 });
    let p = pow2(e as nat) as int;
    assert(m * up * d == n * down) by (nonlinear_arith)
        requires
            up * d == p * down,
            n == m * p,
    ;
    assert((m + 1) * up * d > m * up * d) by (nonlinear_arith)
        requires
            up > 0,
            d > 0,
    ;
}

/// A positive factor may be struck from both sides.
pub proof fn lemma_strike(x: int, y: int, f: int)
    by (nonlinear_arith)
    requires
        f > 0,
    ensures
        x * f <= y * f <==> x <= y,
        x * f < y * f <==> x < y,
        x * f == y * f <==> x == y,
{
}

/// What cutting `m` at `s` bits says of the quotient: it lies between two
/// neighbouring steps, and how it lies to the middle between them.
proof fn lemma_cut(n: int, d: int, m: int, q: int, more: bool, s: int, r: int, rest: int)
    requires
        d > 0,
        s >= 0,
        q + s >= 0,
        brackets(n, d, m, q, more),
        m == r * pow2(s as nat) + rest,
        0 <= rest < pow2(s as nat),
        more ==> s > 0,
    ensures
        r * pow2((q + s) as nat) * d <= n < (r + 1) * pow2((q + s) as nat) * d,
        2 * rest > pow2(s as nat) || 2 * rest == pow2(s as nat) && more ==> (2 * r + 1) * pow2(
            (q + s) as nat,
        ) * d < 2 * n,
        2 * rest == pow2(s as nat) && !more ==> (2 * r + 1) * pow2((q + s) as nat) * d == 2 * n,
        2 * rest < pow2(s as nat) ==> 2 * n < (2 * r + 1) * pow2((q + s) as nat) * d,
{
    let step = pow2((q + s) as nat) as int;
    let p = pow2(s as nat) as int;
    let up = scale_up(q);
    let down = scale_down(q);
    lemma_powers();
    if q >= 0 {
        lemma_pow2_adds(q as nat, s as nat);
        lemma_pow2_pos(q as nat);
        assert(step * down == p * up) by (nonlinear_arith)
            requires
                down == 1,
                step == up * p,
        ;
    } else {
        lemma_pow2_adds((q + s) as nat, (-q) as nat);
        lemma_pow2_pos((-q) as nat);
        assert(step * down == p * up) by (nonlinear_arith)
            requires
                up == 1,
                step * down == p,
        ;
    }
    lemma_pow2_pos(s as nat);
    let unit = up * d;
    let whole = n * down;
    assert(unit > 0) by (nonlinear_arith)
        requires
            up > 0,
            d > 0,
            unit == up * d,
    ;
    assert(m * unit <= whole < (m + 1) * unit) by (nonlinear_arith)
        requires
            m * up * d <= whole < (m + 1) * up * d,
            unit == up * d,
    ;
    assert(more <==> m * unit != whole) by (nonlinear_arith)
        requires
            more <==> m * up * d != whole,
            unit == up * d,
    ;
    // The steps, measured in the scaled quotient.
    assert forall|k: int| #[trigger] (k * step * d) * down == (k * p) * unit by {
        assert((k * step * d) * down == (k * p) * unit) by (nonlinear_arith)
            requires
                step * down == p * up,
                unit == up * d,
        ;
    }
    assert((r * p) * unit <= m * unit) by (nonlinear_arith)
        requires
            r * p <= m,
            unit > 0,
    ;
    assert((m + 1) * unit <= ((r + 1) * p) * unit) by (nonlinear_arith)
        requires
            m + 1 <= r * p + p,
            unit > 0,
    ;
    assert((r * step * d) * down == (r * p) * unit);
    assert(((r + 1) * step * d) * down == ((r + 1) * p) * unit);
    lemma_strike(r * step * d, n, down);
    lemma_strike(n, (r + 1) * step * d, down);
    let odd = 2 * r + 1;
    assert((odd * step * d) * down == (odd * p) * unit);
    assert(odd * p == 2 * (r * p) + p) by (nonlinear_arith)
        requires
            odd == 2 * r + 1,
    ;
    assert((2 * n) * down == 2 * whole) by (nonlinear_arith)
        requires
            whole == n * down,
    ;
    lemma_strike(odd * step * d, 2 * n, down);
    lemma_strike(2 * n, odd * step * d, down);
    assert((2 * m) * unit == 2 * (m * unit)) by (nonlinear_arith);
    assert((2 * m + 2) * unit == 2 * ((m + 1) * unit)) by (nonlinear_arith);
    if 2 * rest > p {
        assert((odd * p) * unit < (2 * m) * unit) by (nonlinear_arith)
            requires
                odd * p < 2 * m,
                unit > 0,
        ;
    } else if 2 * rest == p {
        assert(odd * p == 2 * m);
    } else if s == 0 {
        assert(p == 1);
        assert((2 * m) * unit < (odd * p) * unit) by (nonlinear_arith)
            requires
                2 * m < odd * p,
                unit > 0,
        ;
    } else {
        lemma_pow2_unfold(s as nat);
        assert((2 * m + 2) * unit <= (odd * p) * unit) by (nonlinear_arith)
            requires
                2 * m + 2 <= odd * p,
                unit > 0,
        ;
    }
}

/// A quotient far below the smallest magnitude is nearest to zero.
proof fn lemma_nearest_zero(n: int, d: int, m: int, q: int, more: bool)
    requires
        d > 0,
        0 < m < pow2(120),
        q <= -122,
        brackets(n, d, m, q, more),
    ensures
        Double::nearest(n, d, 0),
{
    lemma_powers();
    lemma_magnitude_of(0, 0);
    lemma_magnitude_of(0, 1);
    let down = scale_down(q);
    let bound = pow2(120) as int;
    lemma_pow2_adds(120, 2);
    lemma2_to64();
    if q < -122 {
        lemma_pow2_strictly_increases(122, (-q) as nat);
    }
    lemma_pow2_pos(120);
    assert(2 * n < d) by (nonlinear_arith)
        requires
            n * down < (m + 1) * 1 * d,
            m + 1 <= bound,
            down >= 4 * bound,
            bound > 0,
            d > 0,
    ;
}

/// The nearest code to a quotient that is bracketed by `m` steps of `2^q`.
/// Where the quotient is not the lower end, `m` has bits to spare.
pub fn round_bracketed(
    m: u128,
    q: i64,
    more: bool,
    Ghost(n): Ghost<int>,
    Ghost(d): Ghost<int>,
) -> (code: u64)
    requires
        d > 0,
        0 < m < pow2(120),
        -4000 <= q <= 4000,
        more ==> m >= 8 * BINADE,
        brackets(n, d, m as int, q as int, more),
    ensures
        Double::nearest(n, d, code as int),
        code == Double::nearest_code(n, d),
{
    let mut m: u128 = m;
    let mut q: i64 = q;
    proof {
        lemma2_to64();
        lemma_powers();
        lemma_pow2_strictly_increases(65, 120);
        lemma_pow2_unfold(65);
    }
    while !more && q > 0 && m < 0x1_0000_0000_0000_0000
        invariant
            d > 0,
            0 < m < pow2(120),
            pow2(120) > 0x2_0000_0000_0000_0000,
            -4000 <= q <= 4000,
            brackets(n, d, m as int, q as int, more),
            more ==> m >= 8 * BINADE,
        decreases q,
    {
        proof {
            lemma_brackets_double(n, d, m as int, q as int);
        }
        m = m * 2;
        q = q - 1;
    }
    let first: i64 = if q < 0 { -q } else { 0 };
    if first >= 122 {
        proof {
            lemma_nearest_zero(n, d, m as int, q as int, more);
            lemma_nearest_code(n, d, 0);
        }
        return 0;
    }
    let mut s: u32 = first as u32;
    let mut r: u128 = m / power_of_two(s);
    while r >= 0x20_0000_0000_0000
        invariant
            first <= s < 122,
            0 <= first,
            0 < m < pow2(120),
            r == m as int / (pow2(s as nat) as int),
            s > first ==> r >= BINADE,
        decreases r,
    {
        proof {
            lemma_powers();
            lemma_pow2_pos(s as nat);
            lemma_pow2_unfold((s + 1) as nat);
            vstd::arithmetic::div_mod::lemma_div_denominator(m as int, pow2(s as nat) as int, 2);
            vstd::arithmetic::mul::lemma_mul_is_commutative(pow2(s as nat) as int, 2);
            vstd::arithmetic::div_mod::lemma_fundamental_div_mod(m as int, pow2(s as nat) as int);
            lemma_pow2_adds(53, s as nat);
            let p = pow2(s as nat) as int;
            assert(pow2(53) * p <= m) by (nonlinear_arith)
                requires
                    m >= p * (r as int),
                    r >= pow2(53),
                    p > 0,
            ;
            if s + 53 >= 120 {
                if s + 53 > 120 {
                    lemma_pow2_strictly_increases(120, (s + 53) as nat);
                }
            }
        }
        r = r / 2;
        s = s + 1;
    }
    let power: u128 = power_of_two(s);
    let rest: u128 = m % power;
    let u: i64 = q + s as i64;
    proof {
        lemma_powers();
        vstd::arithmetic::div_mod::lemma_fundamental_div_mod(m as int, power as int);
        vstd::arithmetic::mul::lemma_mul_is_commutative(power as int, r as int);
        if s == 0 {
            assert(r == m);
        }
        lemma_cut(n, d, m as int, q as int, more, s as int, r as int, rest as int);
    }
    if u >= 2046 {
        proof {
            lemma_nearest_overflow(n, d, u as int, r as int);
            lemma_nearest_code(n, d, INFINITY_CODE as int);
        }
        return INFINITY_CODE;
    }
    let other: u128 = power - rest;
    let up: bool = rest > other || (rest == other && (more || r % 2 == 1));
    proof {
        lemma_nearest_between(n, d, u as int, r as int, up);
        assert(u * BINADE <= 2045 * BINADE);
        lemma_nearest_code(n, d, u * BINADE + r + if up { 1int } else { 0 });
    }
    (u as u64) * BINADE + (r as u64) + if up { 1 } else { 0 }
}

} // verus!
