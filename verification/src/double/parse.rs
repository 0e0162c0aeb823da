//! Reading decimal notation.

use super::arithmetic::UNIT_EXPONENT;
use super::decimal::ten_to;
use super::natural::{Natural, Relation};
use super::rounding;
use super::{Double, BINADE, INFINITY_CODE, SIGN_BIT};
use crate::text;
use vstd::arithmetic::power2::*;
use vstd::prelude::*;

verus! {

/// The place of the first of some characters that satisfies `wanted`, or the
/// length where none does.
pub open spec fn first_place(s: Seq<char>, wanted: spec_fn(char) -> bool) -> int
    decreases s.len(),
{
    if s.len() == 0 || wanted(s[0]) {
        0
    } else {
        1 + first_place(s.drop_first(), wanted)
    }
}

pub open spec fn is_exponent_mark(c: char) -> bool {
    c == 'e' || c == 'E'
}

/// A decimal notation taken apart.
pub struct Notation {
    pub whole: Seq<char>,
    pub fraction: Seq<char>,
    pub exponent: Option<Seq<char>>,
}

impl Notation {
    /// The parts of a notation without its sign: digits, at most one point among
    /// them, and an exponent behind `e` or `E`.
    pub open spec fn of(body: Seq<char>) -> Notation {
        let mark = first_place(body, |c: char| is_exponent_mark(c));
        let mantissa = body.take(mark);
        let point = first_place(mantissa, |c: char| c == '.');
        Notation {
            whole: mantissa.take(point),
            fraction: if point < mantissa.len() {
                mantissa.skip(point + 1)
            } else {
                seq![]
            },
            exponent: if mark < body.len() {
                Some(body.skip(mark + 1))
            } else {
                None
            },
        }
    }

    /// The digits are digits, and there is at least one; so it is with an
    /// exponent, which may have a sign.
    pub open spec fn valid(self) -> bool {
        &&& text::all_digits(self.whole)
        &&& text::all_digits(self.fraction)
        &&& self.whole.len() + self.fraction.len() > 0
        &&& match self.exponent {
            Some(e) => text::unsigned_part(e).len() > 0 && text::all_digits(text::unsigned_part(e)),
            None => true,
        }
    }

    /// All digits, read as one integer.
    pub open spec fn significand(self) -> int {
        text::decimal_value(self.whole + self.fraction)
    }

    /// The power of ten that the significand is multiplied with.
    pub open spec fn scale(self) -> int {
        let written = match self.exponent {
            Some(e) => if e.len() > 0 && e[0] == '-' {
                -text::decimal_value(text::unsigned_part(e))
            } else {
                text::decimal_value(text::unsigned_part(e))
            },
            None => 0,
        };
        written - self.fraction.len()
    }

    /// The code nearest to the number.
    pub open spec fn code(self) -> int {
        Double::nearest_code(
            scaled_above(self.significand(), self.scale()),
            scaled_below(self.scale()),
        )
    }
}

/// The numerator of `significand * 10^scale`, counted in units.
pub open spec fn scaled_above(significand: int, scale: int) -> int {
    significand * ten_to(
        if scale > 0 {
            scale as nat
        } else {
            0
        },
    ) * pow2(UNIT_EXPONENT as nat)
}

/// The denominator of `significand * 10^scale`.
pub open spec fn scaled_below(scale: int) -> int {
    ten_to(
        if scale < 0 {
            (-scale) as nat
        } else {
            0
        },
    ) as int
}

/// The finite number that a text denotes: the one nearest to what it says. None
/// where it is no decimal notation, or says a number too large for the format.
pub open spec fn parsed_double(s: Seq<char>) -> Option<Double> {
    let notation = Notation::of(text::unsigned_part(s));
    if notation.valid() && notation.code() < INFINITY_CODE {
        Some(Double::assembled(s.len() > 0 && s[0] == '-', notation.code()))
    } else {
        None
    }
}

/// What a text denotes is finite.
pub proof fn parsed_is_finite(s: Seq<char>)
    ensures
        parsed_double(s) matches Some(x) ==> x.finite(),
{
    let notation = Notation::of(text::unsigned_part(s));
    if notation.valid() {
        let digits = notation.whole + notation.fraction;
        let scale = notation.scale();
        assert(text::all_digits(digits));
        lemma_value_not_negative(digits);
        lemma_ten_bounds(
            if scale > 0 {
                scale as nat
            } else {
                0
            },
        );
        lemma_ten_bounds(
            if scale < 0 {
                (-scale) as nat
            } else {
                0
            },
        );
        let above = scaled_above(notation.significand(), scale);
        assert(above >= 0) by {
            let ten = ten_to(
                if scale > 0 {
                    scale as nat
                } else {
                    0
                },
            ) as int;
            let unit = pow2(UNIT_EXPONENT as nat) as int;
            assert(notation.significand() * ten * unit >= 0) by (nonlinear_arith)
                requires
                    notation.significand() >= 0,
                    ten >= 0,
                    unit >= 0,
            ;
        }
        rounding::nearest_code_exists(above, scaled_below(scale));
    }
}

proof fn lemma_value_not_negative(s: Seq<char>)
    requires
        text::all_digits(s),
    ensures
        text::decimal_value(s) >= 0,
    decreases s.len(),
{
    if s.len() > 0 {
        let front = s.drop_last();
        assert forall|i: int| 0 <= i < front.len() implies text::is_digit(#[trigger] front[i]) by {
            assert(front[i] == s[i]);
        }
        lemma_value_not_negative(front);
        assert(text::is_digit(s[s.len() - 1]));
    }
}

proof fn lemma_ten_bounds(n: nat)
    ensures
        ten_to(n) >= pow2(3 * n),
        ten_to(n) > 0,
    decreases n,
{
    lemma2_to64();
    if n > 0 {
        lemma_ten_bounds((n - 1) as nat);
        lemma_pow2_adds((3 * (n - 1)) as nat, 3);
        assert(3 * (n - 1) + 3 == 3 * n);
    }
}

proof fn lemma_ten_adds(a: nat, b: nat)
    ensures
        ten_to(a + b) == ten_to(a) * ten_to(b),
    decreases a,
{
    if a == 0 {
        assert(ten_to(0) * ten_to(b) == ten_to(b)) by (nonlinear_arith)
            requires
                ten_to(0) == 1,
        ;
    } else {
        lemma_ten_adds((a - 1) as nat, b);
        let t = ten_to((a - 1) as nat);
        assert(10 * (t * ten_to(b)) == (10 * t) * ten_to(b)) by (nonlinear_arith);
    }
}

/// Digits stand for a number under ten to the power of how many they are.
proof fn lemma_decimal_bound(s: Seq<char>)
    requires
        text::all_digits(s),
    ensures
        0 <= text::decimal_value(s) < ten_to(s.len()),
    decreases s.len(),
{
    if s.len() > 0 {
        let rest = s.drop_last();
        assert forall|i: int| 0 <= i < rest.len() implies text::is_digit(#[trigger] rest[i]) by {
            assert(rest[i] == s[i]);
        }
        lemma_decimal_bound(rest);
        assert(text::is_digit(s[s.len() - 1]));
    }
}

/// A number of `10^400` and more is nearest to infinity.
proof fn lemma_too_large(significand: int, scale: int)
    requires
        significand >= 1,
        scale >= 400,
    ensures
        Double::nearest(
            scaled_above(significand, scale),
            scaled_below(scale),
            INFINITY_CODE as int,
        ),
        Double::nearest_code(scaled_above(significand, scale), scaled_below(scale))
            == INFINITY_CODE,
{
    let n = scaled_above(significand, scale);
    let ten = ten_to(scale as nat) as int;
    let unit = pow2(UNIT_EXPONENT as nat) as int;
    lemma_ten_bounds(scale as nat);
    lemma_pow2_strictly_increases(1024, (3 * scale) as nat);
    rounding::lemma_powers();
    lemma_pow2_adds(1024, UNIT_EXPONENT as nat);
    lemma_pow2_adds(52, 2046);
    lemma_pow2_pos(UNIT_EXPONENT as nat);
    let least = pow2(1024) as int;
    assert(n >= least * unit) by (nonlinear_arith)
        requires
            n == significand * ten * unit,
            significand >= 1,
            ten >= least,
            least >= 0,
            unit > 0,
    ;
    let one = scaled_below(scale);
    let top = BINADE * pow2(2046) * one;
    assert(top == BINADE * pow2(2046)) by (nonlinear_arith)
        requires
            top == BINADE * pow2(2046) * one,
            one == 1,
    ;
    rounding::lemma_nearest_overflow(n, one, 2046, BINADE as int);
    rounding::lemma_nearest_code(n, one, INFINITY_CODE as int);
}

/// A number below `10^-400` is nearest to zero.
proof fn lemma_too_small(significand: int, scale: int, length: nat)
    requires
        0 <= significand < ten_to(length),
        scale + length <= -400,
    ensures
        Double::nearest(scaled_above(significand, scale), scaled_below(scale), 0),
        Double::nearest_code(scaled_above(significand, scale), scaled_below(scale)) == 0,
{
    let n = scaled_above(significand, scale);
    let d = scaled_below(scale);
    let spare = (-scale - length) as nat;
    let unit = pow2(UNIT_EXPONENT as nat) as int;
    lemma_ten_adds(spare, length);
    lemma_ten_bounds(spare);
    lemma_ten_bounds(length);
    assert(spare + length == -scale);
    lemma_pow2_strictly_increases(1075, 3 * spare);
    lemma_pow2_unfold(1075);
    lemma_pow2_pos(UNIT_EXPONENT as nat);
    rounding::lemma_magnitude_of(0, 0);
    rounding::lemma_magnitude_of(0, 1);
    rounding::lemma_powers();
    let tens = ten_to(length) as int;
    let gap = ten_to(spare) as int;
    let one = ten_to(0) as int;
    assert(n == significand * unit) by (nonlinear_arith)
        requires
            n == significand * one * unit,
            one == 1,
    ;
    assert(2 * n < d) by (nonlinear_arith)
        requires
            n == significand * unit,
            0 <= significand < tens,
            d == gap * tens,
            gap >= 2 * unit,
            unit > 0,
    ;
    let half = Double::magnitude(0) + Double::magnitude(1);
    assert(half * d == d) by (nonlinear_arith)
        requires
            half == 1,
    ;
    assert(2 * n >= 0) by (nonlinear_arith)
        requires
            n == significand * unit,
            significand >= 0,
            unit > 0,
    ;
    rounding::lemma_nearest_code(n, d, 0);
}

/// A number is nearer to `code` or above than to what lies below: the middle
/// between `code` and its neighbour below is less, or is even and equal.
spec fn passes(n: int, d: int, code: int) -> bool {
    let middle = (Double::magnitude(code - 1) + Double::magnitude(code)) * d;
    middle < 2 * n || middle == 2 * n && code % 2 == 0
}

/// The nearest code, found by halving the range of codes.
fn nearest_by_search(
    twice: &Natural,
    below: &Natural,
    Ghost(n): Ghost<int>,
    Ghost(d): Ghost<int>,
) -> (code: u64)
    requires
        twice@ == 2 * n,
        below@ == d,
        d > 0,
    ensures
        Double::nearest(n, d, code as int),
        code == Double::nearest_code(n, d),
{
    let mut low: u64 = 0;
    let mut high: u64 = INFINITY_CODE + 1;
    while high - low > 1
        invariant
            twice@ == 2 * n,
            below@ == d,
            low < high <= INFINITY_CODE + 1,
            low > 0 ==> passes(n, d, low as int),
            high <= INFINITY_CODE ==> !passes(n, d, high as int),
        decreases high - low,
    {
        let code: u64 = low + (high - low) / 2;
        // The neighbour below, as significand and binade.
        let e: u64 = (code - 1) / BINADE;
        let f: u64 = (code - 1) % BINADE;
        let u: u64 = if e == 0 { 0 } else { e - 1 };
        let r: u64 = if e == 0 { f } else { f + BINADE };
        proof {
            rounding::lemma_magnitude_of(u as int, r as int);
            rounding::lemma_magnitude_of(u as int, r + 1);
            assert(u * BINADE + r == code - 1);
            let p = pow2(u as nat) as int;
            assert((r * p + (r + 1) * p) * d == (d * (2 * r + 1)) * p) by (nonlinear_arith);
        }
        let middle: Natural = below.times_plus(2 * r + 1, 0).shifted(u as u32);
        let up: bool = match middle.relation(twice) {
            Relation::Less => true,
            Relation::Same => code % 2 == 0,
            Relation::More => false,
        };
        assert(up == passes(n, d, code as int));
        if up {
            low = code;
        } else {
            high = code;
        }
    }
    proof {
        rounding::lemma_nearest_code(n, d, low as int);
    }
    low
}

/// `natural * 10^k`.
fn times_ten(natural: Natural, k: u128) -> (result: Natural)
    ensures
        result@ == natural@ * ten_to(k as nat),
{
    let mut result: Natural = natural;
    let mut i: u128 = 0;
    let ghost start = natural@;
    proof {
        assert(start * ten_to(0) == start) by (nonlinear_arith)
            requires
                ten_to(0) == 1,
        ;
    }
    while i < k
        invariant
            i <= k,
            result@ == start * ten_to(i as nat),
        decreases k - i,
    {
        proof {
            let t = ten_to(i as nat);
            assert((start * t) * 10 == start * (10 * t)) by (nonlinear_arith);
        }
        result = result.times_plus(10, 0);
        i = i + 1;
    }
    result
}

/// The nearest code to `significand * 10^scale`, the significand being of
/// `length` digits.
fn code_of(significand: Natural, length: usize, scale: i128) -> (code: u64)
    requires
        significand@ < ten_to(length as nat),
        -0x1_0000_0000_0000_0000_0000_0000 <= scale <= 0x1_0000_0000_0000_0000_0000_0000,
    ensures
        code == Double::nearest_code(
            scaled_above(significand@ as int, scale as int),
            scaled_below(scale as int),
        ),
        code <= INFINITY_CODE,
{
    let ghost n = scaled_above(significand@ as int, scale as int);
    let ghost d = scaled_below(scale as int);
    let ghost unit = pow2(UNIT_EXPONENT as nat) as int;
    proof {
        lemma_ten_bounds(
            if scale < 0 {
                (-scale) as nat
            } else {
                0
            },
        );
        lemma_ten_bounds(
            if scale > 0 {
                scale as nat
            } else {
                0
            },
        );
        lemma_pow2_pos(UNIT_EXPONENT as nat);
        rounding::lemma_magnitude_of(0, 0);
        rounding::lemma_powers();
    }
    let empty: Natural = Natural::zero();
    if let Relation::Same = significand.relation(&empty) {
        proof {
            let ten = ten_to(
                if scale > 0 {
                    scale as nat
                } else {
                    0
                },
            ) as int;
            assert(n == 0) by (nonlinear_arith)
                requires
                    n == 0 * ten * unit,
            ;
            assert(0 * d == 0);
            rounding::lemma_nearest_exact(n, d, 0);
        }
        return 0;
    }
    if scale >= 400 {
        proof {
            lemma_too_large(significand@ as int, scale as int);
        }
        return INFINITY_CODE;
    }
    if scale + length as i128 <= -400 {
        proof {
            lemma_too_small(significand@ as int, scale as int, length as nat);
        }
        return 0;
    }
    let up: u128 = if scale > 0 { scale as u128 } else { 0 };
    let down: u128 = if scale < 0 { (-scale) as u128 } else { 0 };
    let above: Natural = times_ten(significand, up);
    let twice: Natural = above.shifted(1075);
    let below: Natural = times_ten(Natural::one(), down);
    proof {
        lemma_pow2_unfold(1075);
        let a = above@ as int;
        assert(a * (2 * unit) == 2 * (a * unit)) by (nonlinear_arith);
        assert(1 * ten_to(down as nat) == ten_to(down as nat));
    }
    nearest_by_search(&twice, &below, Ghost(n), Ghost(d))
}

/// The place of the first exponent mark or point in `chars[from..to]`, or `to`.
fn find(chars: &[char], from: usize, to: usize, point: bool) -> (place: usize)
    requires
        from <= to <= chars.len(),
    ensures
        from <= place <= to,
        place - from == first_place(
            chars@.subrange(from as int, to as int),
            if point {
                |c: char| c == '.'
            } else {
                |c: char| is_exponent_mark(c)
            },
        ),
{
    let ghost wanted = if point {
        |c: char| c == '.'
    } else {
        |c: char| is_exponent_mark(c)
    };
    let ghost all = chars@.subrange(from as int, to as int);
    let mut i: usize = from;
    assert(all.skip(0) == all);
    while i < to
        invariant
            from <= i <= to <= chars.len(),
            all == chars@.subrange(from as int, to as int),
            wanted == if point {
                |c: char| c == '.'
            } else {
                |c: char| is_exponent_mark(c)
            },
            first_place(all, wanted) == (i - from) + first_place(all.skip(i - from), wanted),
        decreases to - i,
    {
        let c: char = chars[i];
        assert(all.skip(i - from)[0] == c);
        if (point && c == '.') || (!point && (c == 'e' || c == 'E')) {
            assert(wanted(c));
            return i;
        }
        assert(!wanted(c));
        assert(all.skip(i - from).drop_first() == all.skip(i - from + 1));
        i = i + 1;
    }
    assert(all.skip(i - from).len() == 0);
    i
}

/// Reads digits behind those of `start`.
fn digits_onto(start: Natural, chars: &[char], from: usize, to: usize) -> (result: Option<Natural>)
    requires
        from <= to <= chars.len(),
    ensures
        match result {
            Some(natural) => {
                &&& text::all_digits(chars@.subrange(from as int, to as int))
                &&& forall|before: Seq<char>|
                    start@ == #[trigger] text::decimal_value(before) ==> natural@
                        == text::decimal_value(before + chars@.subrange(from as int, to as int))
            },
            None => !text::all_digits(chars@.subrange(from as int, to as int)),
        },
{
    let ghost first = start@;
    let ghost all = chars@.subrange(from as int, to as int);
    let mut natural: Natural = start;
    let mut i: usize = from;
    proof {
        assert forall|before: Seq<char>| first == #[trigger] text::decimal_value(before) implies
            natural@ == text::decimal_value(before + all.take(0)) by {
            assert(before + all.take(0) == before);
        }
    }
    while i < to
        invariant
            from <= i <= to <= chars.len(),
            all == chars@.subrange(from as int, to as int),
            forall|j: int| 0 <= j < i - from ==> text::is_digit(#[trigger] all[j]),
            forall|before: Seq<char>|
                first == #[trigger] text::decimal_value(before) ==> natural@
                    == text::decimal_value(before + all.take(i - from)),
        decreases to - i,
    {
        let c: char = chars[i];
        let code: u32 = text::code_point(c);
        assert(all[i - from] == c);
        if !(48 <= code && code <= 57) {
            assert(!text::is_digit(all[i - from]));
            return None;
        }
        let ghost earlier = natural@;
        natural = natural.times_plus(10, code - 48);
        proof {
            assert forall|before: Seq<char>| first == #[trigger] text::decimal_value(
                before,
            ) implies natural@ == text::decimal_value(before + all.take(i - from + 1)) by {
                let longer = before + all.take(i - from + 1);
                assert(longer.drop_last() == before + all.take(i - from));
                assert(longer.last() == c);
            }
        }
        i = i + 1;
    }
    assert(all.take(i - from) == all);
    Some(natural)
}

/// Reads an exponent, held to a range that no notation leaves.
fn exponent_of(chars: &[char], from: usize) -> (result: Option<i128>)
    requires
        from <= chars.len(),
    ensures
        ({
            let e = chars@.skip(from as int);
            let size = text::decimal_value(text::unsigned_part(e));
            let valid = text::unsigned_part(e).len() > 0 && text::all_digits(
                text::unsigned_part(e),
            );
            match result {
                Some(value) => {
                    &&& valid
                    &&& size >= 0
                    &&& size <= EXPONENT_LIMIT ==> value == if e.len() > 0 && e[0] == '-' {
                        -size
                    } else {
                        size
                    }
                    &&& size > EXPONENT_LIMIT ==> value == if e.len() > 0 && e[0] == '-' {
                        -(EXPONENT_LIMIT as int)
                    } else {
                        EXPONENT_LIMIT as int
                    }
                },
                None => !valid,
            }
        }),
{
    let ghost e = chars@.skip(from as int);
    let negative: bool = from < chars.len() && chars[from] == '-';
    let start: usize = if from < chars.len() && (chars[from] == '-' || chars[from] == '+') {
        from + 1
    } else {
        from
    };
    let ghost body = text::unsigned_part(e);
    assert(body == chars@.subrange(start as int, chars@.len() as int));
    if start == chars.len() {
        return None;
    }
    let read: Option<Natural> = digits_onto(Natural::zero(), chars, start, chars.len());
    match read {
        None => None,
        Some(natural) => {
            proof {
                let nothing = Seq::<char>::empty();
                assert(text::decimal_value(nothing) == 0);
                assert(nothing + body == body);
            }
            let size: i128 = held_to_limit(&natural);
            Some(if negative { -size } else { size })
        },
    }
}

/// No exponent of this size leaves a number in reach of the format, whatever
/// digits it goes with.
pub const EXPONENT_LIMIT: i128 = 0x8000_0000_0000_0000_0000_0000;

/// A natural number, or the limit where it is larger.
fn held_to_limit(natural: &Natural) -> (size: i128)
    ensures
        size == if natural@ <= EXPONENT_LIMIT {
            natural@ as int
        } else {
            EXPONENT_LIMIT as int
        },
{
    let mut size: u128 = 0;
    let mut i: usize = natural.limbs.len();
    let limit: u128 = 0x8000_0000_0000_0000_0000_0000;
    assert(natural.limbs@.skip(i as int).len() == 0);
    while i > 0
        invariant
            i <= natural.limbs.len(),
            limit == 0x8000_0000_0000_0000_0000_0000,
            size <= limit,
            size == super::natural::limbs_value(natural.limbs@.skip(i as int)) || (size == limit
                && super::natural::limbs_value(natural.limbs@.skip(i as int)) > limit),
        decreases i,
    {
        i = i - 1;
        assert(natural.limbs@.skip(i as int).drop_first() == natural.limbs@.skip(i + 1));
        let next: u128 = size * 0x1_0000_0000 + natural.limbs[i] as u128;
        size = if next > limit { limit } else { next };
    }
    assert(natural.limbs@.skip(0) == natural.limbs@);
    size as i128
}

/// The digits of a notation, and its parts' places.
struct Digits {
    value: Natural,
    length: usize,
    places: usize,
    mark: usize,
}

/// Reads the digits of the notation that starts at `start`.
fn read_digits(chars: &[char], start: usize) -> (result: Option<Digits>)
    requires
        start <= chars.len(),
    ensures
        ({
            let notation = Notation::of(chars@.skip(start as int));
            let valid = text::all_digits(notation.whole) && text::all_digits(notation.fraction)
                && notation.whole.len() + notation.fraction.len() > 0;
            match result {
                Some(digits) => {
                    &&& valid
                    &&& digits.value@ == notation.significand()
                    &&& digits.value@ < ten_to(digits.length as nat)
                    &&& digits.length == notation.whole.len() + notation.fraction.len()
                    &&& digits.places == notation.fraction.len()
                    &&& start <= digits.mark <= chars.len()
                    &&& notation.exponent == if digits.mark < chars.len() {
                        Some(chars@.skip(digits.mark + 1))
                    } else {
                        None
                    }
                },
                None => !valid,
            }
        }),
{
    let end: usize = chars.len();
    let ghost body = chars@.skip(start as int);
    let ghost notation = Notation::of(body);
    assert(body == chars@.subrange(start as int, end as int));
    let mark: usize = find(chars, start, end, false);
    let point: usize = find(chars, start, mark, true);
    let after: usize = if point < mark { point + 1 } else { mark };
    proof {
        let mantissa = body.take(mark - start);
        assert(mantissa == chars@.subrange(start as int, mark as int));
        assert(notation.whole == chars@.subrange(start as int, point as int));
        assert(notation.fraction == chars@.subrange(after as int, mark as int));
        if mark < end {
            assert(body.skip(mark - start + 1) == chars@.skip(mark + 1));
        }
    }
    let whole: Natural = match digits_onto(Natural::zero(), chars, start, point) {
        Some(natural) => natural,
        None => {
            return None;
        },
    };
    let value: Natural = match digits_onto(whole, chars, after, mark) {
        Some(natural) => natural,
        None => {
            return None;
        },
    };
    proof {
        let nothing = Seq::<char>::empty();
        assert(text::decimal_value(nothing) == 0);
        assert(nothing + notation.whole == notation.whole);
        assert(value@ == notation.significand());
        let all = notation.whole + notation.fraction;
        assert forall|i: int| 0 <= i < all.len() implies text::is_digit(#[trigger] all[i]) by {
            if i < notation.whole.len() {
                assert(all[i] == notation.whole[i]);
            } else {
                assert(all[i] == notation.fraction[i - notation.whole.len()]);
            }
        }
        lemma_decimal_bound(all);
    }
    let places: usize = mark - after;
    let length: usize = (point - start) + places;
    if length == 0 {
        return None;
    }
    Some(Digits { value, length, places, mark })
}

/// The nearest code to the number whose notation starts at `start`.
fn read_code(chars: &[char], start: usize) -> (result: Option<u64>)
    requires
        start <= chars.len(),
    ensures
        ({
            let notation = Notation::of(chars@.skip(start as int));
            match result {
                Some(code) => notation.valid() && code == notation.code() && code <= INFINITY_CODE,
                None => !notation.valid(),
            }
        }),
{
    let ghost notation = Notation::of(chars@.skip(start as int));
    let digits: Digits = match read_digits(chars, start) {
        Some(digits) => digits,
        None => {
            return None;
        },
    };
    let written: i128 = if digits.mark < chars.len() {
        match exponent_of(chars, digits.mark + 1) {
            Some(value) => value,
            None => {
                return None;
            },
        }
    } else {
        0
    };
    let scale: i128 = written - digits.places as i128;
    proof {
        if scale != notation.scale() {
            lemma_beyond_limit(
                digits.value@ as int,
                digits.length as nat,
                scale as int,
                notation.scale(),
            );
        }
    }
    Some(code_of(digits.value, digits.length, scale))
}

impl Double {
    /// The finite number that a text denotes.
    pub fn parse(chars: &[char]) -> (result: Option<Double>)
        ensures
            result == parsed_double(chars@),
    {
        let negative: bool = chars.len() > 0 && chars[0] == '-';
        let start: usize = if chars.len() > 0 && (chars[0] == '-' || chars[0] == '+') {
            1
        } else {
            0
        };
        assert(text::unsigned_part(chars@) == chars@.skip(start as int));
        match read_code(chars, start) {
            Some(code) => if code == INFINITY_CODE {
                None
            } else {
                Some(Double { bits: if negative { code + SIGN_BIT } else { code } })
            },
            None => None,
        }
    }
}

/// Two scales that are both far out on the same side give the same code.
proof fn lemma_beyond_limit(significand: int, length: nat, a: int, b: int)
    requires
        0 <= significand < ten_to(length),
        a >= 400 && b >= 400 || a + length <= -400 && b + length <= -400,
    ensures
        Double::nearest_code(scaled_above(significand, a), scaled_below(a))
            == Double::nearest_code(scaled_above(significand, b), scaled_below(b)),
{
    if a + length <= -400 {
        lemma_too_small(significand, a, length);
        lemma_too_small(significand, b, length);
    } else if significand > 0 {
        lemma_too_large(significand, a);
        lemma_too_large(significand, b);
    } else {
        lemma_zero_scaled(a);
        lemma_zero_scaled(b);
    }
}

proof fn lemma_zero_scaled(scale: int)
    requires
        scale >= 0,
    ensures
        scaled_above(0, scale) == 0,
        Double::nearest_code(scaled_above(0, scale), scaled_below(scale)) == 0,
{
    let ten = ten_to(
        if scale > 0 {
            scale as nat
        } else {
            0
        },
    ) as int;
    let unit = pow2(UNIT_EXPONENT as nat) as int;
    assert(0 * ten * unit == 0) by (nonlinear_arith);
    rounding::lemma_magnitude_of(0, 0);
    rounding::lemma_powers();
    rounding::lemma_nearest_exact(0, 1, 0);
}

} // verus!
