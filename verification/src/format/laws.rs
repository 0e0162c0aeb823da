//! How near the desk's texts come to what they show.

use super::{
    chars_before, clock_text, compact_text, price_text, reaches, scaled_text, shortened, size_text,
    time_of_day, BILLION, MILLION, THOUSAND,
};
use crate::double::arithmetic::UNIT_EXPONENT;
use crate::double::convert::ONE_BITS;
use crate::double::decimal::{nearest_even, ten_to};
use crate::double::laws::{quotient_is_near, size_of, unit};
use crate::double::{rounding, Double, BINADE};
use crate::market::HUNDRED;
use crate::text;
use crate::text::laws::{
    digits_say_the_number, lemma_padded_behind, lemma_ten_positive, lemma_without_trailing,
    two_wide_says_the_number,
};
use crate::text::{all_digits, decimal_value, is_digit};
use vstd::arithmetic::div_mod::*;
use vstd::arithmetic::power2::*;
use vstd::prelude::*;

verus! {

/// A decimal notation: a minus or none, digits, and, where there are more, a point
/// and those.
pub open spec fn notation(negative: bool, whole: Seq<char>, fraction: Seq<char>) -> Seq<char> {
    (if negative {
        seq!['-']
    } else {
        Seq::<char>::empty()
    }) + whole + (if fraction.len() > 0 {
        seq!['.'] + fraction
    } else {
        Seq::<char>::empty()
    })
}

/// Digits, the last of them behind the point, say a number that differs from a
/// magnitude by at most half of a part of one, of which there are `parts` to one.
pub open spec fn near(whole: Seq<char>, fraction: Seq<char>, magnitude: int, parts: int) -> bool {
    &&& whole.len() > 0
    &&& all_digits(whole)
    &&& all_digits(fraction)
    &&& 2 * parts * size_of(
        decimal_value(whole + fraction) * unit() - magnitude * ten_to(fraction.len()),
    ) <= ten_to(fraction.len()) * unit()
}

/// A text says a number to within half of a part of one, with no more decimals
/// than `most`.
pub open spec fn says(
    s: Seq<char>,
    negative: bool,
    magnitude: int,
    parts: int,
    most: nat,
) -> bool {
    exists|whole: Seq<char>, fraction: Seq<char>|
        s == #[trigger] notation(negative, whole, fraction) && near(
            whole,
            fraction,
            magnitude,
            parts,
        ) && fraction.len() <= most
}

/// A text says a number as `says` says, with so many decimals exactly.
pub open spec fn says_fixed(
    s: Seq<char>,
    negative: bool,
    magnitude: int,
    parts: int,
    places: nat,
) -> bool {
    exists|whole: Seq<char>, fraction: Seq<char>|
        s == #[trigger] notation(negative, whole, fraction) && near(
            whole,
            fraction,
            magnitude,
            parts,
        ) && fraction.len() == places
}

/// The digits of a number's fixed notation.
proof fn lemma_fixed(value: Double, places: nat) -> (parts: (Seq<char>, Seq<char>))
    requires
        value.finite(),
        places > 0,
    ensures
        parts.1.len() == places,
        near(parts.0, parts.1, Double::magnitude(value.code()), ten_to(places) as int),
        value.fixed(places) == notation(value.negative(), parts.0, parts.1),
{
    let t = ten_to(places) as int;
    let n = value.steps(places);
    let m = Double::magnitude(value.code());
    let whole = text::digits(n / ten_to(places));
    let fraction = text::padded(n, places);
    lemma_ten_positive(places);
    lemma_pow2_pos(UNIT_EXPONENT as nat);
    rounding::lemma_magnitude_step(value.code());
    assert(m * t >= 0) by (nonlinear_arith)
        requires
            m >= 0,
            t > 0,
    ;
    digits_say_the_number(n / ten_to(places));
    lemma_padded_behind(whole, n, places);
    lemma_fundamental_div_mod(n as int, t);
    assert((n as int / t) * t == t * (n as int / t)) by (nonlinear_arith);
    assert(decimal_value(whole + fraction) == n);
    let q = (m * t) / unit();
    let r = (m * t) % unit();
    lemma_fundamental_div_mod(m * t, unit());
    lemma_div_pos_is_pos(m * t, unit());
    assert(n == nearest_even(m * t, unit()));
    assert(2 * size_of(n * unit() - m * t) <= unit()) by {
        assert((q + 1) * unit() == q * unit() + unit()) by (nonlinear_arith);
        assert(q * unit() == unit() * q) by (nonlinear_arith);
    }
    assert(2 * t * size_of(n * unit() - m * t) <= t * unit()) by (nonlinear_arith)
        requires
            2 * size_of(n * unit() - m * t) <= unit(),
            t > 0,
    ;
    assert(value.fixed(places) == notation(value.negative(), whole, fraction));
    (whole, fraction)
}

/// The digits that are left when the zeros at the end of a fraction go.
proof fn lemma_shorter(
    whole: Seq<char>,
    fraction: Seq<char>,
    magnitude: int,
    parts: int,
    shorter: int,
)
    requires
        near(whole, fraction, magnitude, parts),
        parts > 0,
        0 <= shorter <= fraction.len(),
        forall|i: int| shorter <= i < fraction.len() ==> #[trigger] fraction[i] == '0',
    ensures
        near(whole, fraction.take(shorter), magnitude, parts),
    decreases fraction.len() - shorter,
{
    if shorter == fraction.len() {
        assert(fraction.take(shorter) == fraction);
    } else {
        let less = fraction.drop_last();
        let k = less.len();
        let t = ten_to(k) as int;
        assert((whole + fraction).drop_last() == whole + less);
        assert((whole + fraction).last() == '0');
        let v = decimal_value(whole + less);
        assert(decimal_value(whole + fraction) == v * 10);
        assert(ten_to(fraction.len()) == 10 * t);
        assert forall|i: int| 0 <= i < less.len() implies is_digit(#[trigger] less[i]) by {
            assert(less[i] == fraction[i]);
        }
        let x = v * unit() - magnitude * t;
        assert(v * 10 * unit() - magnitude * (10 * t) == 10 * x) by (nonlinear_arith)
            requires
                x == v * unit() - magnitude * t,
        ;
        assert(2 * parts * size_of(x) <= t * unit()) by (nonlinear_arith)
            requires
                2 * parts * (10 * size_of(x)) <= (10 * t) * unit(),
        ;
        assert forall|i: int| shorter <= i < less.len() implies #[trigger] less[i] == '0' by {
            assert(less[i] == fraction[i]);
        }
        lemma_shorter(whole, less, magnitude, parts, shorter);
        assert(less.take(shorter) == fraction.take(shorter));
    }
}

/// A shortened notation says the same number with fewer digits; no zero and no
/// point stands at its end behind a point.
#[verifier::rlimit(40)]
proof fn lemma_shortened(value: Double, places: nat) -> (parts: (Seq<char>, Seq<char>))
    requires
        value.finite(),
        places > 0,
    ensures
        parts.1.len() <= places,
        parts.1.len() > 0 ==> parts.1.last() != '0',
        near(parts.0, parts.1, Double::magnitude(value.code()), ten_to(places) as int),
        shortened(value.fixed(places)) == notation(value.negative(), parts.0, parts.1),
{
    let (whole, fraction) = lemma_fixed(value, places);
    let full = value.fixed(places);
    let sign = if value.negative() {
        seq!['-']
    } else {
        Seq::<char>::empty()
    };
    let head = sign + whole + seq!['.'];
    assert(full == head + fraction);
    let to = lemma_without_trailing(full, '0');
    assert(full[head.len() - 1] == '.');
    assert(to >= head.len());
    let left = to - head.len();
    let kept = fraction.take(left);
    assert forall|i: int| left <= i < fraction.len() implies #[trigger] fraction[i] == '0' by {
        assert(full[i + head.len()] == fraction[i]);
    }
    lemma_ten_positive(places);
    lemma_shorter(whole, fraction, Double::magnitude(value.code()), ten_to(places) as int, left);
    let once = full.take(to);
    assert(once == head + kept);
    let end = lemma_without_trailing(once, '.');
    assert(is_digit(whole[whole.len() - 1]));
    if left > 0 {
        assert(once.last() == fraction[left - 1]);
        assert(full[to - 1] == fraction[left - 1]);
        assert(is_digit(fraction[left - 1]));
        assert(end == once.len());
        assert(once.take(end) == once);
        assert(once == notation(value.negative(), whole, kept));
        assert(kept.last() == fraction[left - 1]);
    } else {
        assert(once == head);
        assert(once[once.len() - 2] == whole.last());
        assert(end == once.len() - 1);
        assert(once.take(end) == notation(value.negative(), whole, kept));
    }
    (whole, kept)
}

proof fn lemma_tens()
    ensures
        ten_to(2) == 100,
        ten_to(4) == 10_000,
        ten_to(6) == 1_000_000,
{
    reveal_with_fuel(ten_to, 7);
}

/// The magnitude of a whole number: the code's binade and digits are given.
proof fn lemma_magnitude_whole(bits: u64, number: int, digits: int, exponent: nat)
    requires
        bits < crate::double::SIGN_BIT,
        bits as int / BINADE as int == exponent + 1,
        BINADE + bits as int % BINADE as int == digits,
        exponent <= 1074,
        digits == number * pow2((1074 - exponent) as nat),
    ensures
        (Double { bits }).code() == bits,
        Double::magnitude(bits as int) == number * unit(),
{
    lemma_pow2_adds((1074 - exponent) as nat, exponent);
    assert(number * pow2((1074 - exponent) as nat) * pow2(exponent) == number * (pow2(
        (1074 - exponent) as nat,
    ) * pow2(exponent))) by (nonlinear_arith);
}

/// The limits between the ways of writing are one, a hundred, a thousand, a
/// million and a billion.
pub proof fn limits_are_round()
    ensures
        Double::magnitude(ONE_BITS as int) == 1 * unit(),
        Double::magnitude(HUNDRED as int) == 100 * unit(),
        Double::magnitude(THOUSAND as int) == 1_000 * unit(),
        Double::magnitude(MILLION as int) == 1_000_000 * unit(),
        Double::magnitude(BILLION as int) == 1_000_000_000 * unit(),
{
    lemma2_to64();
    lemma_pow2_adds(32, 1);
    lemma_pow2_adds(32, 20);
    lemma_pow2_adds(32, 14);
    lemma_pow2_adds(32, 11);
    lemma_magnitude_whole(ONE_BITS, 1, 0x10_0000_0000_0000, 1022);
    lemma_magnitude_whole(HUNDRED, 100, 0x19_0000_0000_0000, 1028);
    lemma_magnitude_whole(THOUSAND, 1_000, 0x1f_4000_0000_0000, 1031);
    lemma_magnitude_whole(MILLION, 1_000_000, 0x1e_8480_0000_0000, 1041);
    lemma_magnitude_whole(BILLION, 1_000_000_000, 0x1d_cd65_0000_0000, 1051);
}

/// A number reaches a limit where its magnitude does.
proof fn lemma_reaches(value: Double, limit: u64)
    requires
        value.finite(),
        limit < crate::double::INFINITY_CODE,
    ensures
        reaches(value, limit) == (Double::magnitude(value.code()) >= Double::magnitude(
            limit as int,
        )),
{
    let code = value.code();
    assert((Double { bits: limit }).code() == limit);
    if code >= limit {
        rounding::lemma_magnitude_grows(limit as int, code);
    } else {
        rounding::lemma_magnitude_grows(code, limit as int);
    }
}

/// A price is written to the hundredth from a thousand on, to the ten-thousandth
/// from one on, and to the millionth below: the number that the text says differs
/// from the price by at most half of that, and the text has no more decimals.
pub proof fn price_is_near(value: Double)
    requires
        value.finite(),
    ensures
        ({
            let m = Double::magnitude(value.code());
            if m >= 1_000 * unit() {
                says_fixed(price_text(value), value.negative(), m, 100, 2)
            } else if m >= unit() {
                says(price_text(value), value.negative(), m, 10_000, 4)
            } else {
                says(price_text(value), value.negative(), m, 1_000_000, 6)
            }
        }),
{
    lemma_tens();
    limits_are_round();
    lemma_reaches(value, THOUSAND);
    lemma_reaches(value, ONE_BITS);
    if reaches(value, THOUSAND) {
        let (whole, fraction) = lemma_fixed(value, 2);
    } else if reaches(value, ONE_BITS) {
        let (whole, fraction) = lemma_shortened(value, 4);
    } else {
        let (whole, fraction) = lemma_shortened(value, 6);
    }
}

/// A size is written to the hundredth from a hundred on, and to the ten-thousandth
/// below.
pub proof fn size_is_near(value: Double)
    requires
        value.finite(),
    ensures
        ({
            let m = Double::magnitude(value.code());
            if m >= 100 * unit() {
                says_fixed(size_text(value), value.negative(), m, 100, 2)
            } else {
                says(size_text(value), value.negative(), m, 10_000, 4)
            }
        }),
{
    lemma_tens();
    limits_are_round();
    lemma_reaches(value, HUNDRED);
    if reaches(value, HUNDRED) {
        let (whole, fraction) = lemma_fixed(value, 2);
    } else {
        let (whole, fraction) = lemma_shortened(value, 4);
    }
}

/// Prices under a thousand and sizes under a hundred are written as short as they
/// can be: behind a point they do not end with a zero.
pub proof fn short_texts_end_without_zeros(value: Double)
    requires
        value.finite(),
    ensures
        Double::magnitude(value.code()) < 1_000 * unit() ==> exists|
            whole: Seq<char>,
            fraction: Seq<char>,
        |
            price_text(value) == #[trigger] notation(value.negative(), whole, fraction)
                && all_digits(whole) && all_digits(fraction) && (fraction.len() > 0
                ==> fraction.last() != '0'),
        Double::magnitude(value.code()) < 100 * unit() ==> exists|
            whole: Seq<char>,
            fraction: Seq<char>,
        |
            size_text(value) == #[trigger] notation(value.negative(), whole, fraction)
                && all_digits(whole) && all_digits(fraction) && (fraction.len() > 0
                ==> fraction.last() != '0'),
{
    limits_are_round();
    lemma_reaches(value, THOUSAND);
    lemma_reaches(value, ONE_BITS);
    lemma_reaches(value, HUNDRED);
    let (a, b) = lemma_shortened(value, 4);
    let (c, d) = lemma_shortened(value, 6);
}

/// What is no finite number is written as a dash, whatever it is written as.
pub proof fn no_number_is_a_dash(value: Double)
    requires
        !value.finite(),
    ensures
        price_text(value) == "\u{2014}"@,
        size_text(value) == "\u{2014}"@,
        compact_text(value) == "\u{2014}"@,
{
}

/// A fixed notation with a sign in front of it where it has none: percents.
pub proof fn percent_is_near(value: Double)
    requires
        value.finite(),
    ensures
        ({
            let m = Double::magnitude(value.code());
            let change = crate::desk::panels::percent_text(value);
            let funding = crate::desk::panels::funding_text(value);
            &&& change.last() == '%'
            &&& funding.last() == '%'
            &&& says_fixed(funding.drop_last(), value.negative(), m, 10_000, 4)
            &&& if value.negative() {
                says_fixed(change.drop_last(), true, m, 100, 2)
            } else {
                change[0] == '+' && says_fixed(change.drop_last().drop_first(), false, m, 100, 2)
            }
        }),
{
    lemma_tens();
    let (a, b) = lemma_fixed(value, 2);
    let (c, d) = lemma_fixed(value, 4);
    let change = crate::desk::panels::percent_text(value);
    let funding = crate::desk::panels::funding_text(value);
    assert(funding.drop_last() == value.fixed(4));
    if value.negative() {
        assert(change.drop_last() == value.fixed(2));
    } else {
        assert(change.drop_last().drop_first() == value.fixed(2));
    }
}

/// The number behind a letter for thousands, millions or billions.
proof fn lemma_scaled(value: Double, limit: u64, number: int)
    requires
        value.finite(),
        reaches(value, limit),
        ONE_BITS <= limit <= BILLION,
        Double::magnitude(limit as int) == number * unit(),
        number > 0,
    ensures
        ({
            let m = Double::magnitude(value.code());
            let quotient = value.absolute().quotient(Double { bits: limit });
            exists|whole: Seq<char>, fraction: Seq<char>|
                {
                    &&& scaled_text(value, limit, 'x').drop_last() == #[trigger] notation(
                        value.negative(),
                        whole,
                        fraction,
                    )
                    &&& all_digits(whole)
                    &&& all_digits(fraction)
                    &&& fraction.len() == 2
                    &&& 2 * size_of(
                        decimal_value(whole + fraction) * number * unit() - 100 * m,
                    ) <= number * unit() + 100 * number * quotient.gap()
                }
        }),
{
    let m = Double::magnitude(value.code());
    let divisor = Double { bits: limit };
    let size = value.absolute();
    let quotient = size.quotient(divisor);
    let u = unit();
    lemma_pow2_pos(UNIT_EXPONENT as nat);
    lemma_tens();
    assert(divisor.code() == limit);
    assert(size.code() == value.code());
    rounding::lemma_powers();
    rounding::lemma_magnitude_of(0, 0);
    rounding::lemma_magnitude_grows(ONE_BITS as int, limit as int);
    limits_are_round();
    // The quotient is no larger than the number, and so finite.
    lemma_quotient_finite(size, divisor);
    quotient_is_near(size, divisor);
    let (whole, fraction) = lemma_fixed(quotient, 2);
    let n = decimal_value(whole + fraction);
    let q = quotient.value();
    assert(!quotient.negative());
    assert(2 * size_of(n * u - 100 * q) <= u) by {
        assert(q * 100 == 100 * q);
        let x = n * u - q * 100;
        assert(2 * 100 * size_of(x) <= 100 * u ==> 2 * size_of(x) <= u) by (nonlinear_arith);
    }
    assert(2 * size_of(q * number - m) <= number * quotient.gap()) by {
        let x = q * (number * u) - m * u;
        assert(x == (q * number - m) * u) by (nonlinear_arith)
            requires
                x == q * (number * u) - m * u,
        ;
        assert(2 * size_of(q * number - m) <= quotient.gap() * number) by (nonlinear_arith)
            requires
                2 * size_of((q * number - m) * u) <= quotient.gap() * (number * u),
                u > 0,
        ;
        assert(quotient.gap() * number == number * quotient.gap()) by (nonlinear_arith);
    }
    let a = n * u - 100 * q;
    let b = q * number - m;
    assert(n * number * u - 100 * m == a * number + 100 * b) by (nonlinear_arith)
        requires
            a == n * u - 100 * q,
            b == q * number - m,
    ;
    assert(2 * size_of(a * number) <= number * u) by (nonlinear_arith)
        requires
            2 * size_of(a) <= u,
            number > 0,
    ;
    assert(100 * number * quotient.gap() == 100 * (number * quotient.gap())) by (nonlinear_arith);
    let s = scaled_text(value, limit, 'x');
    assert(value.below(Double { bits: 0 }) == value.negative()) by {
        rounding::lemma_magnitude_grows(0, value.code());
        assert(value.code() > 0);
    }
    assert(s.drop_last() == notation(value.negative(), whole, fraction));
}

proof fn lemma_quotient_finite(size: Double, divisor: Double)
    requires
        size.finite(),
        !size.negative(),
        divisor.finite(),
        !divisor.negative(),
        Double::magnitude(divisor.code()) >= unit(),
    ensures
        size.quotient(divisor).finite(),
        !size.quotient(divisor).negative(),
        !divisor.zero(),
{
    let x = Double::magnitude(size.code());
    let y = Double::magnitude(divisor.code());
    let u = unit();
    lemma_pow2_pos(UNIT_EXPONENT as nat);
    rounding::lemma_powers();
    rounding::lemma_magnitude_of(0, 0);
    rounding::lemma_magnitude_step(size.code());
    assert(x * u >= 0) by (nonlinear_arith)
        requires
            x >= 0,
            u > 0,
    ;
    rounding::nearest_code_exists(x * u, y);
    let code = Double::nearest_code(x * u, y);
    let top = crate::double::INFINITY_CODE as int;
    if code == top {
        let before = Double::magnitude(top - 1);
        let last = Double::magnitude(top);
        rounding::lemma_magnitude_grows(size.code(), top - 1);
        rounding::lemma_magnitude_step(top - 1);
        assert((before + last) * y > 2 * (x * u)) by (nonlinear_arith)
            requires
                before >= x,
                last > before,
                x >= 0,
                y >= u,
                u > 0,
        ;
    }
}

/// A compact number has the letter of its size. With it the text says the number
/// to half of a hundredth of that size, but for the rounding of the quotient; under
/// a thousand it is the price without its sign.
pub proof fn compact_is_near(value: Double)
    requires
        value.finite(),
    ensures
        ({
            let m = Double::magnitude(value.code());
            let s = compact_text(value);
            &&& m < 1_000 * unit() ==> s == price_text(value.absolute())
            &&& 1_000 * unit() <= m < 1_000_000 * unit() ==> s.last() == 'K' && compact_near(
                s,
                value,
                1_000,
                THOUSAND,
            )
            &&& 1_000_000 * unit() <= m < 1_000_000_000 * unit() ==> s.last() == 'M'
                && compact_near(s, value, 1_000_000, MILLION)
            &&& m >= 1_000_000_000 * unit() ==> s.last() == 'B' && compact_near(
                s,
                value,
                1_000_000_000,
                BILLION,
            )
        }),
{
    limits_are_round();
    lemma_reaches(value, THOUSAND);
    lemma_reaches(value, MILLION);
    lemma_reaches(value, BILLION);
    let s = compact_text(value);
    if reaches(value, BILLION) {
        lemma_scaled(value, BILLION, 1_000_000_000);
        assert(s.drop_last() =~= scaled_text(value, BILLION, 'x').drop_last());
    } else if reaches(value, MILLION) {
        lemma_scaled(value, MILLION, 1_000_000);
        assert(s.drop_last() =~= scaled_text(value, MILLION, 'x').drop_last());
    } else if reaches(value, THOUSAND) {
        lemma_scaled(value, THOUSAND, 1_000);
        assert(s.drop_last() =~= scaled_text(value, THOUSAND, 'x').drop_last());
    }
}

/// Before its letter a text says a number with two decimals that, times `number`,
/// is within half a hundredth of `number` of a value, but for a quotient's
/// rounding.
pub open spec fn compact_near(s: Seq<char>, value: Double, number: int, limit: u64) -> bool {
    exists|whole: Seq<char>, fraction: Seq<char>|
        {
            &&& s.drop_last() == #[trigger] notation(value.negative(), whole, fraction)
            &&& all_digits(whole)
            &&& all_digits(fraction)
            &&& fraction.len() == 2
            &&& 2 * size_of(
                decimal_value(whole + fraction) * number * unit() - 100 * Double::magnitude(
                    value.code(),
                ),
            ) <= number * unit() + 100 * number * value.absolute().quotient(
                Double { bits: limit },
            ).gap()
        }
}

/// The seconds that a count of seconds, or of milliseconds, stands for.
spec fn seconds_of(value: int) -> int {
    if value > 10_000_000_000 {
        value / 1_000
    } else {
        value
    }
}

/// A time of day is written as hours, minutes and seconds that come to the seconds
/// since midnight: `HH:MM:SS`. Counts above ten billion are milliseconds.
#[verifier::rlimit(40)]
pub proof fn clock_shows_time_of_day(value: int)
    requires
        value >= 0,
    ensures
        ({
            let s = time_of_day(value);
            let hours = decimal_value(s.subrange(0, 2));
            let minutes = decimal_value(s.subrange(3, 5));
            let seconds = decimal_value(s.subrange(6, 8));
            &&& s.len() == 8
            &&& s[2] == ':' && s[5] == ':'
            &&& all_digits(s.subrange(0, 2)) && all_digits(s.subrange(3, 5)) && all_digits(
                s.subrange(6, 8),
            )
            &&& 0 <= hours < 24 && 0 <= minutes < 60 && 0 <= seconds < 60
            &&& hours * 3_600 + minutes * 60 + seconds == if value > 10_000_000_000 {
                (value / 1_000) % 86_400
            } else {
                value % 86_400
            }
        }),
{
    let total = seconds_of(value);
    let h = (total % 86_400) / 3_600;
    let m = (total % 3_600) / 60;
    let s = total % 60;
    let shown = time_of_day(value);
    lemma_day(total);
    assert(shown == text::two_wide(h) + seq![':'] + text::two_wide(m) + seq![':'] + text::two_wide(
        s,
    ));
    lemma_clock_parts(h, m, s);
}

/// Hours, minutes and seconds come to the seconds since midnight.
proof fn lemma_day(total: int)
    requires
        total >= 0,
    ensures
        0 <= (total % 86_400) / 3_600 < 24,
        0 <= (total % 3_600) / 60 < 60,
        0 <= total % 60 < 60,
        (total % 86_400) / 3_600 * 3_600 + (total % 3_600) / 60 * 60 + total % 60 == total % 86_400,
        ((total % 86_400) / 3_600 + 24) % 24 == (total % 86_400) / 3_600,
{
}

/// The parts of a time of day stand where they belong.
proof fn lemma_clock_parts(h: int, m: int, s: int)
    requires
        0 <= h < 100,
        0 <= m < 100,
        0 <= s < 100,
    ensures
        ({
            let shown = text::two_wide(h) + seq![':'] + text::two_wide(m) + seq![':']
                + text::two_wide(s);
            &&& shown.len() == 8
            &&& shown[2] == ':' && shown[5] == ':'
            &&& all_digits(shown.subrange(0, 2)) && decimal_value(shown.subrange(0, 2)) == h
            &&& all_digits(shown.subrange(3, 5)) && decimal_value(shown.subrange(3, 5)) == m
            &&& all_digits(shown.subrange(6, 8)) && decimal_value(shown.subrange(6, 8)) == s
        }),
{
    let shown = text::two_wide(h) + seq![':'] + text::two_wide(m) + seq![':'] + text::two_wide(s);
    two_wide_says_the_number(h);
    two_wide_says_the_number(m);
    two_wide_says_the_number(s);
    assert(shown.subrange(0, 2) == text::two_wide(h));
    assert(shown.subrange(3, 5) == text::two_wide(m));
    assert(shown.subrange(6, 8) == text::two_wide(s));
}

proof fn lemma_ascii_before(s: Seq<char>, count: int)
    requires
        0 <= count <= s.len(),
        forall|i: int| 0 <= i < s.len() ==> (#[trigger] s[i]) as int <= 127,
    ensures
        chars_before(s, count) == Some(count),
    decreases count,
{
    if count > 0 {
        let rest = s.drop_first();
        assert(s[0] as int <= 127);
        assert forall|i: int| 0 <= i < rest.len() implies (#[trigger] rest[i]) as int <= 127 by {
            assert(rest[i] == s[i + 1]);
        }
        lemma_ascii_before(rest, count - 1);
    }
}

proof fn lemma_short_before(s: Seq<char>, count: int)
    requires
        s.len() < count,
        forall|i: int| 0 <= i < s.len() ==> (#[trigger] s[i]) as int <= 127,
    ensures
        chars_before(s, count) is None,
    decreases s.len(),
{
    if s.len() > 0 {
        let rest = s.drop_first();
        assert(s[0] as int <= 127);
        assert forall|i: int| 0 <= i < rest.len() implies (#[trigger] rest[i]) as int <= 127 by {
            assert(rest[i] == s[i + 1]);
        }
        lemma_short_before(rest, count - 1);
    }
}

/// Of a plain time stamp with a date, such as `2024-01-01T10:11:12Z`, the eight
/// characters from the twelfth on are shown. A shorter one that counts is shown as
/// its time of day, and any other as it is.
pub proof fn clock_reads_stamps(s: Seq<char>)
    requires
        forall|i: int| 0 <= i < s.len() ==> (#[trigger] s[i]) as int <= 127,
    ensures
        s.len() >= 19 ==> clock_text(s) == s.subrange(11, 19),
        s.len() < 19 ==> match text::parsed_integer(text::trimmed(s)) {
            Some(value) => clock_text(s) == time_of_day(value),
            None => clock_text(s) == s,
        },
{
    if s.len() >= 19 {
        lemma_ascii_before(s, 11);
        lemma_ascii_before(s, 19);
    } else {
        lemma_short_before(s, 19);
    }
}

/// A number written with some decimals is within half of the last of them.
pub proof fn fixed_says_the_number(value: Double, places: nat)
    requires
        value.finite(),
        places > 0,
    ensures
        says_fixed(
            value.fixed(places),
            value.negative(),
            Double::magnitude(value.code()),
            ten_to(places) as int,
            places,
        ),
        places == 2 ==> ten_to(places) == 100,
{
    let (whole, fraction) = lemma_fixed(value, places);
    assert(value.fixed(places) == notation(value.negative(), whole, fraction));
    reveal_with_fuel(ten_to, 3);
}

} // verus!
