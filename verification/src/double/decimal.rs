//! Decimal notation with a fixed number of places.

use super::arithmetic::UNIT_EXPONENT;
use super::rounding;
use super::{Double, BINADE, SIGN_BIT};
use crate::text;
use vstd::arithmetic::power2::*;
use vstd::prelude::*;

verus! {

/// Ten to the power `n`.
pub open spec fn ten_to(n: nat) -> nat
    decreases n,
{
    if n == 0 {
        1
    } else {
        10 * ten_to((n - 1) as nat)
    }
}

/// The whole number nearest to `n / d`, the even one where two are.
pub open spec fn nearest_even(n: int, d: int) -> int {
    let q = n / d;
    let r = n % d;
    if 2 * r > d || 2 * r == d && q % 2 == 1 {
        q + 1
    } else {
        q
    }
}

impl Double {
    /// The size of a finite number in steps of the last of `places` decimals.
    pub open spec fn steps(self, places: nat) -> nat {
        nearest_even(
            Double::magnitude(self.code()) * ten_to(places),
            pow2(UNIT_EXPONENT as nat) as int,
        ) as nat
    }

    /// The digits of a finite number with `places` decimals.
    pub open spec fn unsigned_fixed(self, places: nat) -> Seq<char> {
        text::digits(self.steps(places) / ten_to(places)) + seq!['.'] + text::padded(
            self.steps(places),
            places,
        )
    }

    /// A number with `places` decimals. The sign is that of the number, also
    /// where only zeros are left.
    pub open spec fn fixed(self, places: nat) -> Seq<char> {
        if self.nan() {
            "NaN"@
        } else {
            let size = if self.infinite() {
                "inf"@
            } else {
                self.unsigned_fixed(places)
            };
            if self.negative() {
                seq!['-'] + size
            } else {
                size
            }
        }
    }

    /// The same with a sign also before numbers that are not negative.
    pub open spec fn signed_fixed(self, places: nat) -> Seq<char> {
        if self.nan() || self.negative() {
            self.fixed(places)
        } else {
            seq!['+'] + self.fixed(places)
        }
    }
}

/// The number that decimal digits stand for, the lowest first.
spec fn number_of(ds: Seq<u8>) -> nat
    decreases ds.len(),
{
    if ds.len() == 0 {
        0
    } else {
        (ds[0] + 10 * number_of(ds.drop_first())) as nat
    }
}

spec fn are_digits(ds: Seq<u8>) -> bool {
    forall|i: int| 0 <= i < ds.len() ==> #[trigger] ds[i] < 10
}

/// The notation of digits that are given lowest first.
spec fn reversed_text(ds: Seq<u8>) -> Seq<char>
    decreases ds.len(),
{
    if ds.len() == 0 {
        seq![]
    } else {
        reversed_text(ds.drop_first()).push(text::digit(ds[0] as int))
    }
}

proof fn lemma_once(one: int, x: int)
    requires
        one == 1,
    ensures
        one * x == x,
{
    assert(one * x == x) by (nonlinear_arith)
        requires
            one == 1,
    ;
}

proof fn lemma_number_push(ds: Seq<u8>, d: u8)
    ensures
        number_of(ds.push(d)) == number_of(ds) + ten_to(ds.len()) * d,
    decreases ds.len(),
{
    if ds.len() == 0 {
        assert(ds.push(d).drop_first() == Seq::<u8>::empty());
        assert(number_of(Seq::<u8>::empty()) == 0);
        assert(number_of(ds.push(d)) == d);
        lemma_once(ten_to(0) as int, d as int);
    } else {
        assert(ds.push(d).drop_first() == ds.drop_first().push(d));
        lemma_number_push(ds.drop_first(), d);
        assert(ds.push(d)[0] == ds[0]);
        let t = ten_to((ds.len() - 1) as nat);
        assert((10 * t) * d == 10 * (t * d)) by (nonlinear_arith);
    }
}

/// Digits whose highest is not zero are the notation of their number.
proof fn lemma_notation(ds: Seq<u8>)
    requires
        ds.len() > 0,
        are_digits(ds),
        ds.last() != 0,
    ensures
        text::digits(number_of(ds)) == reversed_text(ds),
        number_of(ds) > 0,
    decreases ds.len(),
{
    let rest = ds.drop_first();
    if ds.len() == 1 {
        assert(rest == Seq::<u8>::empty());
        assert(reversed_text(rest) == Seq::<char>::empty());
    } else {
        assert(rest.last() == ds.last());
        assert forall|i: int| 0 <= i < rest.len() implies #[trigger] rest[i] < 10 by {
            assert(rest[i] == ds[i + 1]);
        }
        lemma_notation(rest);
        assert(number_of(ds) / 10 == number_of(rest));
        assert(number_of(ds) % 10 == ds[0]);
    }
}

/// The digits of a number other than zero, the lowest first.
fn digits_of(n: u64) -> (ds: Vec<u8>)
    requires
        n > 0,
    ensures
        ds.len() > 0,
        are_digits(ds@),
        ds@.last() != 0,
        number_of(ds@) == n,
{
    let mut ds: Vec<u8> = Vec::new();
    let mut left: u64 = n;
    proof {
        lemma_once(ten_to(0) as int, left as int);
    }
    while left >= 10
        invariant
            left > 0,
            are_digits(ds@),
            number_of(ds@) + ten_to(ds@.len()) * left == n,
        decreases left,
    {
        let ghost t = ten_to(ds@.len());
        let d: u8 = (left % 10) as u8;
        proof {
            lemma_number_push(ds@, d);
            assert(t * d + (10 * t) * (left / 10) == t * left) by (nonlinear_arith)
                requires
                    left == 10 * (left / 10) + d,
            ;
        }
        ds.push(d);
        left = left / 10;
    }
    proof {
        lemma_number_push(ds@, left as u8);
    }
    ds.push(left as u8);
    ds
}

/// The digits of twice a number.
fn doubled(ds: &Vec<u8>) -> (result: Vec<u8>)
    requires
        ds.len() > 0,
        are_digits(ds@),
        ds@.last() != 0,
    ensures
        result.len() > 0,
        are_digits(result@),
        result@.last() != 0,
        number_of(result@) == 2 * number_of(ds@),
{
    let mut result: Vec<u8> = Vec::new();
    let mut carry: u8 = 0;
    let mut i: usize = 0;
    assert(ds@.skip(0) == ds@);
    proof {
        lemma_once(ten_to(0) as int, 2 * number_of(ds@) as int);
    }
    while i < ds.len()
        invariant
            i <= ds.len(),
            result.len() == i,
            carry <= 1,
            are_digits(ds@),
            ds@.last() != 0,
            are_digits(result@),
            i == ds.len() ==> carry == 1 || result@.last() != 0,
            number_of(result@) + ten_to(i as nat) * (carry + 2 * number_of(ds@.skip(i as int)))
                == 2 * number_of(ds@),
        decreases ds.len() - i,
    {
        let t: u8 = 2 * ds[i] + carry;
        let low: u8 = t % 10;
        let high: u8 = t / 10;
        proof {
            let rest = number_of(ds@.skip(i + 1)) as int;
            let p = ten_to(i as nat) as int;
            assert(ds@.skip(i as int).drop_first() == ds@.skip(i + 1));
            lemma_number_push(result@, low);
            assert(p * (carry + 2 * (ds@[i as int] + 10 * rest)) == p * low + (10 * p) * (high + 2
                * rest)) by (nonlinear_arith)
                requires
                    carry + 2 * ds@[i as int] == low + 10 * high,
            ;
        }
        result.push(low);
        carry = high;
        i = i + 1;
    }
    proof {
        assert(ds@.skip(i as int) == Seq::<u8>::empty());
        lemma_number_push(result@, 1);
        let p = ten_to(i as nat) as int;
        assert(p * (carry + 0) == if carry == 1 { p * 1 } else { 0 }) by (nonlinear_arith)
            requires
                carry <= 1,
        ;
    }
    if carry == 1 {
        result.push(1);
    }
    result
}

/// Appends digits that are given lowest first.
fn push_reversed(out: &mut Vec<char>, ds: &Vec<u8>)
    requires
        are_digits(ds@),
    ensures
        final(out)@ == old(out)@ + reversed_text(ds@),
{
    let mut i: usize = ds.len();
    assert(ds@.skip(i as int) == Seq::<u8>::empty());
    while i > 0
        invariant
            i <= ds.len(),
            are_digits(ds@),
            out@ == old(out)@ + reversed_text(ds@.skip(i as int)),
        decreases i,
    {
        i = i - 1;
        assert(ds@.skip(i as int).drop_first() == ds@.skip(i + 1));
        out.push((48 + ds[i]) as char);
    }
    assert(ds@.skip(0) == ds@);
}

proof fn lemma_tens()
    ensures
        ten_to(0) == 1,
        ten_to(1) == 10,
        ten_to(2) == 100,
        ten_to(3) == 1000,
        ten_to(4) == 10_000,
        ten_to(5) == 100_000,
        ten_to(6) == 1_000_000,
{
    reveal_with_fuel(ten_to, 7);
}

/// The last digits of a multiple of a power of ten are zeros.
proof fn lemma_padded_zeros(n: nat, width: nat)
    ensures
        text::padded(n * ten_to(width), width) == text::padded(0, width),
    decreases width,
{
    if width > 0 {
        let t = ten_to((width - 1) as nat);
        assert(n * (10 * t) == 10 * (n * t)) by (nonlinear_arith);
        assert((n * ten_to(width)) / 10 == n * t);
        assert((n * ten_to(width)) % 10 == 0);
        lemma_padded_zeros(n, (width - 1) as nat);
        lemma_padded_zeros(0, (width - 1) as nat);
        assert(0 * t == 0);
    }
}

impl Double {
    /// Appends the digits of a finite number with `places` decimals.
    pub fn push_unsigned_fixed(self, out: &mut Vec<char>, places: usize)
        requires
            self.finite(),
            1 <= places <= 6,
        ensures
            final(out)@ == old(out)@ + self.unsigned_fixed(places as nat),
    {
        let code: u64 = self.bits % SIGN_BIT;
        let e: u64 = code / BINADE;
        let f: u64 = code % BINADE;
        let u: u64 = if e == 0 { 0 } else { e - 1 };
        let m: u64 = if e == 0 { f } else { f + BINADE };
        let ten: u128 = power_of_ten(places);
        let ghost unit = pow2(UNIT_EXPONENT as nat) as int;
        let ghost p = pow2(u as nat) as int;
        let ghost scaled = (m * p) * ten;
        proof {
            rounding::lemma_magnitude_of(u as int, m as int);
            lemma_pow2_pos(UNIT_EXPONENT as nat);
            lemma_pow2_pos(u as nat);
            rounding::lemma_powers();
            lemma2_to64();
        }
        if u >= UNIT_EXPONENT {
            let mut ds: Vec<u8> = digits_of(m);
            let count: u64 = u - UNIT_EXPONENT;
            let mut k: u64 = 0;
            proof {
                lemma_once(pow2(0) as int, m as int);
            }
            while k < count
                invariant
                    k <= count,
                    ds.len() > 0,
                    are_digits(ds@),
                    ds@.last() != 0,
                    number_of(ds@) == pow2(k as nat) * m,
                decreases count - k,
            {
                proof {
                    lemma_pow2_unfold((k + 1) as nat);
                    let h = pow2(k as nat) as int;
                    assert(2 * (h * m) == (2 * h) * m) by (nonlinear_arith);
                }
                ds = doubled(&ds);
                k = k + 1;
            }
            proof {
                lemma_pow2_adds(count as nat, UNIT_EXPONENT as nat);
                let whole = number_of(ds@) as int;
                let times = pow2(count as nat) as int;
                assert(scaled == (whole * ten) * unit) by (nonlinear_arith)
                    requires
                        scaled == (m * p) * ten,
                        p == times * unit,
                        whole == times * m,
                ;
                vstd::arithmetic::div_mod::lemma_fundamental_div_mod_converse(
                    scaled,
                    unit,
                    whole * ten,
                    0,
                );
                assert(whole * ten >= 0) by (nonlinear_arith)
                    requires
                        whole >= 0,
                        ten >= 0,
                ;
                assert(self.steps(places as nat) == whole * ten);
                vstd::arithmetic::div_mod::lemma_fundamental_div_mod_converse(
                    whole * ten,
                    ten as int,
                    whole,
                    0,
                );
                lemma_notation(ds@);
                lemma_padded_zeros(number_of(ds@), places as nat);
            }
            push_reversed(out, &ds);
            out.push('.');
            text::push_padded(out, 0, places);
            return ;
        }
        let shift: u64 = UNIT_EXPONENT - u;
        let ghost cut = pow2(shift as nat) as int;
        proof {
            assert(0 <= (m as int) * ten <= 0x1f_ffff_ffff_ffff * 1_000_000) by (nonlinear_arith)
                requires
                    m <= 0x1f_ffff_ffff_ffff,
                    0 < ten <= 1_000_000,
            ;
        }
        let top: u128 = (m as u128) * ten;
        proof {
            lemma_pow2_adds(shift as nat, u as nat);
            lemma_pow2_pos(shift as nat);
            assert(scaled == top * p) by (nonlinear_arith)
                requires
                    scaled == (m * p) * ten,
                    top == m * ten,
            ;
        }
        let steps: u128 = if shift > 126 {
            proof {
                lemma_pow2_adds(64, 62);
                lemma_pow2_adds(31, 31);
                if shift > 126 {
                    lemma_pow2_strictly_increases(126, shift as nat);
                }
                assert(2 * scaled < unit) by (nonlinear_arith)
                    requires
                        scaled == top * p,
                        unit == cut * p,
                        2 * top < cut,
                        p > 0,
                ;
                assert(0 <= scaled) by (nonlinear_arith)
                    requires
                        scaled == top * p,
                        top >= 0,
                        p > 0,
                ;
                vstd::arithmetic::div_mod::lemma_fundamental_div_mod_converse(
                    scaled,
                    unit,
                    0,
                    scaled,
                );
            }
            0
        } else {
            let power: u128 = rounding::power_of_two(shift as u32);
            let q: u128 = top / power;
            let r: u128 = top % power;
            let other: u128 = power - r;
            proof {
                vstd::arithmetic::div_mod::lemma_fundamental_div_mod(top as int, power as int);
                assert(scaled == q * unit + r * p) by (nonlinear_arith)
                    requires
                        scaled == top * p,
                        unit == power * p,
                        top == power * q + r,
                ;
                assert(0 <= r * p < unit) by (nonlinear_arith)
                    requires
                        unit == power * p,
                        0 <= r < power,
                        p > 0,
                ;
                vstd::arithmetic::div_mod::lemma_fundamental_div_mod_converse(
                    scaled,
                    unit,
                    q as int,
                    r * p,
                );
                rounding::lemma_strike(2 * r as int, power as int, p);
                rounding::lemma_strike(power as int, 2 * r as int, p);
                assert((2 * r) * p == 2 * (r * p)) by (nonlinear_arith);
                assert(q <= top) by {
                    vstd::arithmetic::div_mod::lemma_div_nonincreasing(top as int, power as int);
                }
            }
            if r > other || (r == other && q % 2 == 1) {
                q + 1
            } else {
                q
            }
        };
        text::push_digits(out, steps / ten);
        out.push('.');
        text::push_padded(out, steps, places);
    }

    /// Appends a number with `places` decimals.
    pub fn push_fixed(self, out: &mut Vec<char>, places: usize)
        requires
            1 <= places <= 6,
        ensures
            final(out)@ == old(out)@ + self.fixed(places as nat),
    {
        if self.is_nan() {
            text::push_text(out, "NaN");
            return ;
        }
        if self.is_sign_negative() {
            out.push('-');
        }
        if self.is_finite() {
            self.push_unsigned_fixed(out, places);
        } else {
            text::push_text(out, "inf");
        }
    }

    /// Appends a number with `places` decimals and its sign, whichever it is.
    pub fn push_signed_fixed(self, out: &mut Vec<char>, places: usize)
        requires
            1 <= places <= 6,
        ensures
            final(out)@ == old(out)@ + self.signed_fixed(places as nat),
    {
        if !self.is_nan() && !self.is_sign_negative() {
            out.push('+');
        }
        self.push_fixed(out, places);
    }
}

fn power_of_ten(n: usize) -> (power: u128)
    requires
        n <= 6,
    ensures
        power == ten_to(n as nat),
        0 < power <= 1_000_000,
{
    proof {
        lemma_tens();
    }
    match n {
        0 => 1,
        1 => 10,
        2 => 100,
        3 => 1000,
        4 => 10_000,
        5 => 100_000,
        _ => 1_000_000,
    }
}

} // verus!
