//! What decimal texts say is what is read.

use super::arithmetic::UNIT_EXPONENT;
use super::decimal::ten_to;
use super::laws::{lemma_near, size_of, unit, whole_numbers_have_codes};
use super::ordering::lemma_nearest_grows;
use super::parse::{
    first_place, is_exponent_mark, parsed_double, scaled_above, scaled_below, Notation,
};
use super::rounding;
use super::{Double, BINADE, INFINITY_CODE};
use crate::format::laws::notation;
use crate::text;
use crate::text::laws::{lemma_ten_positive, lemma_value_not_negative};
use crate::text::{all_digits, decimal_value, is_digit};
use vstd::arithmetic::power2::*;
use vstd::prelude::*;

verus! {

/// A place that is the first of its like.
proof fn lemma_first_place(s: Seq<char>, wanted: spec_fn(char) -> bool, at: int)
    requires
        0 <= at <= s.len(),
        at < s.len() ==> wanted(s[at]),
        forall|i: int| 0 <= i < at ==> !wanted(#[trigger] s[i]),
    ensures
        first_place(s, wanted) == at,
    decreases s.len(),
{
    if at > 0 {
        assert(!wanted(s[0]));
        let rest = s.drop_first();
        assert forall|i: int| 0 <= i < at - 1 implies !wanted(#[trigger] rest[i]) by {
            assert(rest[i] == s[i + 1]);
        }
        lemma_first_place(rest, wanted, at - 1);
    }
}

/// Digits, and a point with digits behind it where there are some, have no mark of an
/// exponent, and the point in its place.
proof fn lemma_mantissa(whole: Seq<char>, fraction: Seq<char>)
    requires
        all_digits(whole),
        all_digits(fraction),
    ensures
        ({
            let body = notation(false, whole, fraction);
            &&& forall|i: int| 0 <= i < body.len() ==> !is_exponent_mark(#[trigger] body[i])
            &&& forall|i: int| 0 <= i < whole.len() ==> #[trigger] body[i] != '.'
            &&& body.len() == whole.len() + if fraction.len() > 0 {
                1 + fraction.len()
            } else {
                0
            }
            &&& fraction.len() > 0 ==> body[whole.len() as int] == '.'
            &&& body.take(whole.len() as int) == whole
            &&& fraction.len() > 0 ==> body.skip(whole.len() as int + 1) == fraction
            &&& body.len() > 0 && whole.len() > 0 ==> body[0] != '-' && body[0] != '+'
        }),
{
    let body = notation(false, whole, fraction);
    assert(body.take(whole.len() as int) == whole);
    if fraction.len() > 0 {
        assert(body.skip(whole.len() as int + 1) == fraction);
    }
    assert forall|i: int| 0 <= i < body.len() implies !is_exponent_mark(#[trigger] body[i]) by {
        if i < whole.len() {
            assert(body[i] == whole[i] && is_digit(whole[i]));
        } else if i > whole.len() {
            assert(body[i] == fraction[i - whole.len() - 1] && is_digit(
                fraction[i - whole.len() - 1],
            ));
        }
    }
    assert forall|i: int| 0 <= i < whole.len() implies #[trigger] body[i] != '.' by {
        assert(body[i] == whole[i] && is_digit(whole[i]));
    }
    if whole.len() > 0 {
        assert(body[0] == whole[0] && is_digit(whole[0]));
    }
}

/// The parts of a notation without an exponent.
proof fn lemma_parts(whole: Seq<char>, fraction: Seq<char>)
    requires
        all_digits(whole),
        all_digits(fraction),
    ensures
        Notation::of(notation(false, whole, fraction)).whole == whole,
        Notation::of(notation(false, whole, fraction)).fraction == fraction,
        Notation::of(notation(false, whole, fraction)).exponent is None,
{
    let body = notation(false, whole, fraction);
    lemma_mantissa(whole, fraction);
    lemma_first_place(body, |c: char| is_exponent_mark(c), body.len() as int);
    assert(body.take(body.len() as int) == body);
    lemma_first_place(body, |c: char| c == '.', whole.len() as int);
    if fraction.len() == 0 {
        assert(Notation::of(body).fraction == fraction);
    }
}

/// A text of digits, with a minus or none and a point among them or none, is read as
/// the number that it says: the nearest, within half a gap. Every such number below
/// `2^53` can be read.
#[verifier::rlimit(40)]
pub proof fn decimal_texts_are_read(negative: bool, whole: Seq<char>, fraction: Seq<char>)
    requires
        all_digits(whole),
        all_digits(fraction),
        whole.len() > 0,
    ensures
        parsed_double(notation(negative, whole, fraction)) matches Some(x) ==> {
            &&& x.finite()
            &&& x.negative() == negative
            &&& 2 * size_of(
                Double::magnitude(x.code()) * ten_to(fraction.len()) - decimal_value(
                    whole + fraction,
                ) * unit(),
            ) <= x.gap() * ten_to(fraction.len())
        },
        decimal_value(whole + fraction) < (2 * BINADE - 1) * ten_to(fraction.len())
            ==> parsed_double(notation(negative, whole, fraction)) is Some,
{
    let s = notation(negative, whole, fraction);
    let body = notation(false, whole, fraction);
    lemma_mantissa(whole, fraction);
    if negative {
        assert(s.drop_first() == body);
    } else {
        assert(s == body);
    }
    assert(text::unsigned_part(s) == body);
    lemma_parts(whole, fraction);
    let parts = Notation::of(body);
    let digits = whole + fraction;
    assert(all_digits(digits));
    lemma_value_not_negative(digits);
    let f = fraction.len();
    lemma_ten_positive(f);
    let d = ten_to(f) as int;
    let v = decimal_value(digits);
    lemma_pow2_pos(UNIT_EXPONENT as nat);
    assert(parts.scale() == -(f as int));
    assert(scaled_below(parts.scale()) == d);
    assert(ten_to(0) == 1);
    let n = v * unit();
    assert(scaled_above(v, parts.scale()) == n) by (nonlinear_arith)
        requires
            scaled_above(v, parts.scale()) == v * 1 * unit(),
            n == v * unit(),
    ;
    assert(n >= 0) by (nonlinear_arith)
        requires
            v >= 0,
            unit() > 0,
            n == v * unit(),
    ;
    rounding::nearest_code_exists(n, d);
    let code = Double::nearest_code(n, d);
    assert(parts.code() == code);
    let x = Double::assembled(negative, code);
    assert(x.code() == code && x.negative() == negative);
    if code < INFINITY_CODE {
        lemma_near(n, d);
        assert(parsed_double(s) == Some(x));
    }
    if v < (2 * BINADE - 1) * d {
        lemma_small_enough(v, d);
    }
}

/// What is below `2^53` is no infinity.
proof fn lemma_small_enough(v: int, d: int)
    requires
        0 <= v < (2 * BINADE - 1) * d,
        d > 0,
    ensures
        Double::nearest_code(v * unit(), d) < INFINITY_CODE,
{
    let n = v * unit();
    let top = 2 * BINADE - 1;
    lemma_pow2_pos(UNIT_EXPONENT as nat);
    let code = whole_numbers_have_codes(top as int);
    let m = top * unit();
    assert(m == Double::magnitude(code) * 1);
    rounding::lemma_nearest_exact(m, 1, code);
    assert(n * 1 <= m * d && n >= 0) by (nonlinear_arith)
        requires
            0 <= v < top * d,
            n == v * unit(),
            m == top * unit(),
            unit() > 0,
    ;
    lemma_nearest_grows(n, d, m, 1);
}

/// An exponent moves the point: behind an `e` or `E`, digits, with a minus or a plus or
/// none, multiply with a power of ten.
#[verifier::rlimit(40)]
pub proof fn exponents_move_the_point(
    whole: Seq<char>,
    fraction: Seq<char>,
    mark: char,
    sign: Seq<char>,
    power: Seq<char>,
)
    requires
        all_digits(whole),
        all_digits(fraction),
        all_digits(power),
        whole.len() > 0,
        power.len() > 0,
        mark == 'e' || mark == 'E',
        sign == Seq::<char>::empty() || sign == seq!['-'] || sign == seq!['+'],
    ensures
        ({
            let s = notation(false, whole, fraction) + seq![mark] + sign + power;
            let k = decimal_value(power);
            let v = decimal_value(whole + fraction);
            let f = fraction.len() as int;
            parsed_double(s) matches Some(x) ==> {
                &&& x.finite() && !x.negative()
                &&& sign == seq!['-'] ==> 2 * size_of(
                    Double::magnitude(x.code()) * ten_to((f + k) as nat) - v * unit(),
                ) <= x.gap() * ten_to((f + k) as nat)
                &&& sign != seq!['-'] && k >= f ==> 2 * size_of(
                    Double::magnitude(x.code()) - v * ten_to((k - f) as nat) * unit(),
                ) <= x.gap()
            }
        }),
{
    let body = notation(false, whole, fraction);
    let s = body + seq![mark] + sign + power;
    let tail = sign + power;
    lemma_mantissa(whole, fraction);
    assert(s[0] == body[0]);
    assert(text::unsigned_part(s) == s);
    let wanted = |c: char| is_exponent_mark(c);
    assert forall|i: int| 0 <= i < body.len() implies !wanted(#[trigger] s[i]) by {
        assert(s[i] == body[i]);
    }
    lemma_first_place(s, wanted, body.len() as int);
    assert(s.take(body.len() as int) == body);
    assert(s.skip(body.len() as int + 1) == tail);
    lemma_first_place(body, |c: char| c == '.', whole.len() as int);
    let parts = Notation::of(s);
    assert(parts.whole == whole && parts.exponent == Some(tail));
    assert(parts.fraction == fraction);
    assert(is_digit(power[0]));
    assert(text::unsigned_part(tail) == power) by {
        if sign.len() == 0 {
            assert(tail == power);
        } else {
            assert(tail.drop_first() == power);
        }
    }
    let digits = whole + fraction;
    assert(all_digits(digits));
    lemma_value_not_negative(digits);
    lemma_value_not_negative(power);
    let v = decimal_value(digits);
    let k = decimal_value(power);
    let f = fraction.len() as int;
    lemma_pow2_pos(UNIT_EXPONENT as nat);
    assert((tail[0] == '-') == (sign == seq!['-']));
    let scale = parts.scale();
    let n = scaled_above(v, scale);
    let d = scaled_below(scale);
    lemma_ten_positive(
        if scale > 0 {
            scale as nat
        } else {
            0
        },
    );
    lemma_ten_positive(
        if scale < 0 {
            (-scale) as nat
        } else {
            0
        },
    );
    assert(n >= 0) by (nonlinear_arith)
        requires
            v >= 0,
            unit() > 0,
            n == v * ten_to(
                if scale > 0 {
                    scale as nat
                } else {
                    0
                },
            ) * unit(),
    ;
    rounding::nearest_code_exists(n, d);
    assert(ten_to(0) == 1);
    if Double::nearest_code(n, d) < INFINITY_CODE {
        lemma_near(n, d);
        let code = Double::nearest_code(n, d);
        let x = Double::assembled(false, code);
        assert(x.code() == code && !x.negative());
        assert(parsed_double(s) == Some(x) || parsed_double(s) is None);
        let m = Double::magnitude(code);
        if sign == seq!['-'] {
            assert(scale == -(f + k));
            assert(d == ten_to((f + k) as nat));
            assert(n == v * 1 * unit());
            assert(v * 1 * unit() == v * unit()) by (nonlinear_arith);
        } else if k >= f {
            assert(scale == k - f);
            assert(d == 1);
            assert(n == v * ten_to((k - f) as nat) * unit());
            assert(m * 1 == m && x.gap() * 1 == x.gap());
        }
    }
}

} // verus!
