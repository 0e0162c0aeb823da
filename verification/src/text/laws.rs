//! What notations say.

use super::{
    all_digits, decimal_value, digit, digits, integer, is_digit, padded, parsed_integer,
    parsed_unsigned, precedes, trimmed, trimmed_end, trimmed_start, two_wide, unsigned_part,
    without_trailing,
};
use crate::double::decimal::ten_to;
use vstd::prelude::*;

verus! {

/// The digits of a number stand for it, and no number but zero begins with a zero.
pub proof fn digits_say_the_number(n: nat)
    ensures
        all_digits(digits(n)),
        digits(n).len() > 0,
        decimal_value(digits(n)) == n,
        n > 0 ==> digits(n)[0] != '0',
    decreases n,
{
    if n >= 10 {
        digits_say_the_number(n / 10);
        let front = digits(n / 10);
        assert(digits(n).drop_last() == front);
        assert forall|i: int| 0 <= i < digits(n).len() implies is_digit(
            #[trigger] digits(n)[i],
        ) by {
            if i < front.len() {
                assert(digits(n)[i] == front[i]);
            }
        }
        assert(digits(n)[0] == front[0]);
    } else {
        assert(digits(n).drop_last() == Seq::<char>::empty());
        assert(decimal_value(Seq::<char>::empty()) == 0);
    }
}

pub proof fn lemma_ten_positive(n: nat)
    ensures
        ten_to(n) > 0,
    decreases n,
{
    if n > 0 {
        lemma_ten_positive((n - 1) as nat);
    }
}

/// Digits of a fixed width behind others.
pub proof fn lemma_padded_behind(front: Seq<char>, n: nat, width: nat)
    requires
        all_digits(front),
    ensures
        padded(n, width).len() == width,
        all_digits(padded(n, width)),
        all_digits(front + padded(n, width)),
        decimal_value(front + padded(n, width)) == decimal_value(front) * ten_to(width) + n as int
            % ten_to(width) as int,
    decreases width,
{
    let all = front + padded(n, width);
    lemma_ten_positive(width);
    if width == 0 {
        assert(all == front);
        assert(decimal_value(front) * 1 == decimal_value(front));
        assert(n as int % 1 == 0);
    } else {
        let less = (width - 1) as nat;
        let t = ten_to(less) as int;
        lemma_padded_behind(front, n / 10, less);
        lemma_ten_positive(less);
        let before = front + padded(n / 10, less);
        assert(all.drop_last() == before);
        assert(all.last() == digit((n % 10) as int));
        assert forall|i: int| 0 <= i < padded(n, width).len() implies is_digit(
            #[trigger] padded(n, width)[i],
        ) by {
            if i < less {
                assert(padded(n, width)[i] == padded(n / 10, less)[i]);
            }
        }
        assert forall|i: int| 0 <= i < all.len() implies is_digit(#[trigger] all[i]) by {
            if i < before.len() {
                assert(all[i] == before[i]);
            }
        }
        let v = decimal_value(front);
        let q = (n / 10) as int / t;
        let r = (n / 10) as int % t;
        vstd::arithmetic::div_mod::lemma_fundamental_div_mod((n / 10) as int, t);
        assert(n as int == q * (10 * t) + (10 * r + n as int % 10)) by (nonlinear_arith)
            requires
                (n / 10) as int == t * q + r,
                n as int == 10 * ((n / 10) as int) + n as int % 10,
        ;
        vstd::arithmetic::div_mod::lemma_fundamental_div_mod_converse(
            n as int,
            10 * t,
            q,
            10 * r + n as int % 10,
        );
        assert((v * t + r) * 10 + n as int % 10 == v * (10 * t) + (10 * r + n as int % 10))
            by (nonlinear_arith);
    }
}

/// An integer's notation leads back to it.
pub proof fn integers_lead_back(n: int)
    requires
        i64::MIN <= n <= i64::MAX,
    ensures
        parsed_integer(integer(n)) == Some(n),
        n >= 0 ==> parsed_unsigned(integer(n)) == Some(n),
        (integer(n)[0] == '-') == (n < 0),
{
    let size = if n < 0 {
        (-n) as nat
    } else {
        n as nat
    };
    digits_say_the_number(size);
    assert(is_digit(digits(size)[0]));
    if n < 0 {
        assert(integer(n).drop_first() == digits(size));
    }
}

/// A time's part of two characters says its number.
pub proof fn two_wide_says_the_number(n: int)
    requires
        0 <= n < 100,
    ensures
        two_wide(n).len() == 2,
        all_digits(two_wide(n)),
        decimal_value(two_wide(n)) == n,
{
    let s = two_wide(n);
    if n < 10 {
        assert(s.drop_last() == seq!['0']);
        assert(seq!['0'].drop_last() == Seq::<char>::empty());
        assert(decimal_value(Seq::<char>::empty()) == 0);
        assert(decimal_value(seq!['0']) == 0);
    } else {
        digits_say_the_number(n as nat);
        assert(digits((n / 10) as nat).len() == 1);
    }
}

/// Trimming takes white space off both ends and nothing else: what is left stands
/// in the text, with white space alone around it.
pub proof fn trimming_takes_white_space(s: Seq<char>)
    ensures
        ({
            let t = trimmed(s);
            &&& t.len() > 0 ==> !white(t[0]) && !white(t.last())
            &&& exists|from: int|
                0 <= from && from + t.len() <= s.len() && #[trigger] s.subrange(
                    from,
                    from + t.len(),
                ) == t && (forall|i: int| 0 <= i < from ==> white(#[trigger] s[i])) && (forall|
                    i: int,
                |
                    from + t.len() <= i < s.len() ==> white(#[trigger] s[i]))
        }),
{
    let from = lemma_trimmed_start(s);
    let rest = trimmed_start(s);
    let to = lemma_trimmed_end(rest);
    let t = trimmed(s);
    assert(s.subrange(from, from + t.len()) == t);
    assert forall|i: int| from + t.len() <= i < s.len() implies white(#[trigger] s[i]) by {
        assert(rest[i - from] == s[i]);
    }
}

/// White space: tabs, line ends, blanks, and the blanks of other scripts.
pub open spec fn white(c: char) -> bool {
    let u = c as int;
    u == 9 || u == 10 || u == 11 || u == 12 || u == 13 || u == 32 || u == 133 || u == 160 || u
        == 5760 || 8192 <= u <= 8202 || u == 8232 || u == 8233 || u == 8239 || u == 8287 || u
        == 12288
}

proof fn lemma_trimmed_start(s: Seq<char>) -> (from: int)
    ensures
        0 <= from <= s.len(),
        trimmed_start(s) == s.skip(from),
        forall|i: int| 0 <= i < from ==> white(#[trigger] s[i]),
        from < s.len() ==> !white(s[from]),
    decreases s.len(),
{
    if s.len() > 0 && white(s[0]) {
        let rest = s.drop_first();
        let from = lemma_trimmed_start(rest);
        assert(rest.skip(from) == s.skip(from + 1));
        assert forall|i: int| 0 <= i < from + 1 implies white(#[trigger] s[i]) by {
            if i > 0 {
                assert(rest[i - 1] == s[i]);
            }
        }
        from + 1
    } else {
        assert(s.skip(0) == s);
        0
    }
}

proof fn lemma_trimmed_end(s: Seq<char>) -> (to: int)
    ensures
        0 <= to <= s.len(),
        trimmed_end(s) == s.take(to),
        forall|i: int| to <= i < s.len() ==> white(#[trigger] s[i]),
        to > 0 ==> !white(s[to - 1]),
    decreases s.len(),
{
    if s.len() > 0 && white(s.last()) {
        let rest = s.drop_last();
        let to = lemma_trimmed_end(rest);
        assert(rest.take(to) == s.take(to));
        assert forall|i: int| to <= i < s.len() implies white(#[trigger] s[i]) by {
            if i < rest.len() {
                assert(rest[i] == s[i]);
            }
        }
        to
    } else {
        assert(s.take(s.len() as int) == s);
        s.len() as int
    }
}

/// The first place at which two texts differ decides which comes first; a text
/// comes before every longer one that begins with it.
pub proof fn first_difference_decides(a: Seq<char>, b: Seq<char>, at: int)
    requires
        0 <= at <= a.len(),
        at <= b.len(),
        a.take(at) == b.take(at),
        at < a.len() && at < b.len() ==> a[at] != b[at],
    ensures
        precedes(a, b) == (at < b.len() && (at == a.len() || (a[at] as int) < (b[at] as int))),
    decreases at,
{
    if at > 0 {
        assert(a[0] == a.take(at)[0] && b[0] == b.take(at)[0]);
        let x = a.drop_first();
        let y = b.drop_first();
        let front = x.take(at - 1);
        assert forall|i: int| 0 <= i < at - 1 implies #[trigger] front[i] == y.take(at - 1)[i] by {
            assert(a.take(at)[i + 1] == b.take(at)[i + 1]);
            assert(a.take(at)[i + 1] == a[i + 1]);
            assert(b.take(at)[i + 1] == b[i + 1]);
            assert(x[i] == a[i + 1] && y[i] == b[i + 1]);
        }
        assert(front =~= y.take(at - 1));
        first_difference_decides(x, y, at - 1);
    }
}

/// Text that is read as a number without a sign, or with one, is digits behind at
/// most one sign, and every such text whose number fits is read.
pub proof fn reading_takes_digits(s: Seq<char>)
    ensures
        parsed_integer(s) matches Some(n) ==> all_digits(unsigned_part(s)) && unsigned_part(s).len()
            > 0 && i64::MIN <= n <= i64::MAX && (n < 0 ==> s[0] == '-'),
        s.len() > 0 && all_digits(s) && decimal_value(s) <= i64::MAX ==> parsed_integer(s) == Some(
            decimal_value(s),
        ) && parsed_unsigned(s) == Some(decimal_value(s)),
        s.len() > 0 && s[0] == '-' ==> parsed_unsigned(s) is None,
        parsed_unsigned(s) matches Some(n) ==> 0 <= n <= u64::MAX,
{
    if s.len() > 0 && all_digits(s) {
        assert(is_digit(s[0]));
    }
    if s.len() > 0 && s[0] == '-' {
        assert(!is_digit(s[0]));
    }
    let body = unsigned_part(s);
    if all_digits(body) {
        lemma_value_not_negative(body);
    }
    let plain = if s.len() > 0 && s[0] == '+' {
        s.drop_first()
    } else {
        s
    };
    if all_digits(plain) {
        lemma_value_not_negative(plain);
    }
}

pub proof fn lemma_value_not_negative(s: Seq<char>)
    requires
        all_digits(s),
    ensures
        decimal_value(s) >= 0,
    decreases s.len(),
{
    if s.len() > 0 {
        let front = s.drop_last();
        assert forall|i: int| 0 <= i < front.len() implies is_digit(#[trigger] front[i]) by {
            assert(front[i] == s[i]);
        }
        lemma_value_not_negative(front);
        assert(is_digit(s[s.len() - 1]));
    }
}

/// What is taken off the end is the given character alone, and all of it.
pub proof fn lemma_without_trailing(s: Seq<char>, c: char) -> (to: int)
    ensures
        0 <= to <= s.len(),
        without_trailing(s, c) == s.take(to),
        to > 0 ==> s[to - 1] != c,
        forall|i: int| to <= i < s.len() ==> #[trigger] s[i] == c,
    decreases s.len(),
{
    if s.len() > 0 && s.last() == c {
        let rest = s.drop_last();
        let to = lemma_without_trailing(rest, c);
        assert(rest.take(to) == s.take(to));
        assert forall|i: int| to <= i < s.len() implies #[trigger] s[i] == c by {
            if i < rest.len() {
                assert(rest[i] == s[i]);
            }
        }
        to
    } else {
        assert(s.take(s.len() as int) == s);
        s.len() as int
    }
}

} // verus!
