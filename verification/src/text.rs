//! Text as sequences of characters: decimal digits, integers, order and trimming.

use vstd::prelude::*;

pub mod laws;

verus! {

/// `String::push` puts one character behind the others.
pub assume_specification[ std::string::String::push ](string: &mut String, c: char)
    ensures
        final(string)@ == old(string)@.push(c),
;

/// The code point of a character.
pub fn code_point(c: char) -> (code: u32)
    ensures
        code == c as int,
{
    c as u32
}

/// The characters of a text.
pub fn chars_of(text: &str) -> (chars: Vec<char>)
    ensures
        chars@ == text@,
{
    let mut chars: Vec<char> = Vec::new();
    for c in it: text.chars()
        invariant
            it.seq() == text@,
            chars@ == text@.take(it.index()),
    {
        chars.push(c);
    }
    assert(text@.take(text@.len() as int) == text@);
    chars
}

/// The text of some characters.
pub fn text_of(chars: &[char]) -> (text: String)
    ensures
        text@ == chars@,
{
    let mut text: String = String::new();
    let mut i: usize = 0;
    while i < chars.len()
        invariant
            i <= chars.len(),
            text@ == chars@.take(i as int),
        decreases chars.len() - i,
    {
        text.push(chars[i]);
        i = i + 1;
    }
    assert(chars@.take(chars@.len() as int) == chars@);
    text
}

/// Whether two texts are the same.
pub fn text_equal(left: &str, right: &str) -> (answer: bool)
    ensures
        answer == (left@ == right@),
{
    left.to_owned() == right.to_owned()
}

/// The character of a decimal digit.
pub open spec fn digit(d: int) -> char {
    (48 + d) as char
}

/// The decimal digits of a number, without leading zeros.
pub open spec fn digits(n: nat) -> Seq<char>
    decreases n,
{
    if n < 10 {
        seq![digit(n as int)]
    } else {
        digits(n / 10).push(digit((n % 10) as int))
    }
}

/// The last `width` decimal digits of a number.
pub open spec fn padded(n: nat, width: nat) -> Seq<char>
    decreases width,
{
    if width == 0 {
        seq![]
    } else {
        padded(n / 10, (width - 1) as nat).push(digit((n % 10) as int))
    }
}

/// The decimal notation of an integer.
pub open spec fn integer(n: int) -> Seq<char> {
    if n < 0 {
        seq!['-'] + digits((-n) as nat)
    } else {
        digits(n as nat)
    }
}

/// An integer with a leading zero where it has a single character.
pub open spec fn two_wide(n: int) -> Seq<char> {
    if 0 <= n < 10 {
        seq!['0', digit(n)]
    } else {
        integer(n)
    }
}

/// Appends the characters of a text to others.
pub fn push_text(out: &mut Vec<char>, text: &str)
    ensures
        final(out)@ == old(out)@ + text@,
{
    let mut chars: Vec<char> = chars_of(text);
    out.append(&mut chars);
}

/// Appends the decimal digits of a number.
pub fn push_digits(out: &mut Vec<char>, n: u128)
    ensures
        final(out)@ == old(out)@ + digits(n as nat),
    decreases n,
{
    if n >= 10 {
        push_digits(out, n / 10);
    }
    out.push((48 + (n % 10) as u8) as char);
}

/// Appends the last `width` decimal digits of a number.
pub fn push_padded(out: &mut Vec<char>, n: u128, width: usize)
    ensures
        final(out)@ == old(out)@ + padded(n as nat, width as nat),
    decreases width,
{
    if width > 0 {
        push_padded(out, n / 10, width - 1);
        out.push((48 + (n % 10) as u8) as char);
    }
}

/// Appends the decimal notation of an integer.
pub fn push_integer(out: &mut Vec<char>, n: i64)
    ensures
        final(out)@ == old(out)@ + integer(n as int),
{
    if n < 0 {
        out.push('-');
        push_digits(out, (-(n as i128)) as u128);
    } else {
        push_digits(out, n as u128);
    }
}

/// The decimal notation of an integer.
pub fn integer_text(n: i64) -> (text: String)
    ensures
        text@ == integer(n as int),
{
    let mut out: Vec<char> = Vec::new();
    push_integer(&mut out, n);
    text_of(out.as_slice())
}

/// Appends an integer of at least two characters.
pub fn push_two_wide(out: &mut Vec<char>, n: i64)
    ensures
        final(out)@ == old(out)@ + two_wide(n as int),
{
    if 0 <= n && n < 10 {
        out.push('0');
        out.push((48 + n as u8) as char);
    } else {
        push_integer(out, n);
    }
}

/// The characters that Unicode counts as white space.
pub open spec fn is_space(c: char) -> bool {
    let u = c as int;
    ||| 0x9 <= u <= 0xd
    ||| u == 0x20
    ||| u == 0x85
    ||| u == 0xa0
    ||| u == 0x1680
    ||| 0x2000 <= u <= 0x200a
    ||| u == 0x2028
    ||| u == 0x2029
    ||| u == 0x202f
    ||| u == 0x205f
    ||| u == 0x3000
}

/// A text without the white space at its end.
pub open spec fn trimmed_end(s: Seq<char>) -> Seq<char>
    decreases s.len(),
{
    if s.len() > 0 && is_space(s.last()) {
        trimmed_end(s.drop_last())
    } else {
        s
    }
}

/// A text without the white space at its start.
pub open spec fn trimmed_start(s: Seq<char>) -> Seq<char>
    decreases s.len(),
{
    if s.len() > 0 && is_space(s.first()) {
        trimmed_start(s.drop_first())
    } else {
        s
    }
}

/// A text without the white space around it.
pub open spec fn trimmed(s: Seq<char>) -> Seq<char> {
    trimmed_end(trimmed_start(s))
}

/// A text without the characters `c` at its end.
pub open spec fn without_trailing(s: Seq<char>, c: char) -> Seq<char>
    decreases s.len(),
{
    if s.len() > 0 && s.last() == c {
        without_trailing(s.drop_last(), c)
    } else {
        s
    }
}

fn space(c: char) -> (answer: bool)
    ensures
        answer == is_space(c),
{
    let u: u32 = code_point(c);
    (0x9 <= u && u <= 0xd) || u == 0x20 || u == 0x85 || u == 0xa0 || u == 0x1680 || (0x2000 <= u
        && u <= 0x200a) || u == 0x2028 || u == 0x2029 || u == 0x202f || u == 0x205f || u == 0x3000
}

/// The characters of a text without the white space around it.
pub fn trim(text: &str) -> (chars: Vec<char>)
    ensures
        chars@ == trimmed(text@),
{
    let all: Vec<char> = chars_of(text);
    let mut start: usize = 0;
    assert(text@.skip(0) == text@);
    while start < all.len() && space(all[start])
        invariant
            all@ == text@,
            start <= all.len(),
            trimmed_start(text@) == trimmed_start(text@.skip(start as int)),
        decreases all.len() - start,
    {
        assert(text@.skip(start as int).drop_first() == text@.skip(start + 1));
        start = start + 1;
    }
    let ghost rest = text@.skip(start as int);
    assert(trimmed_start(text@) == rest);
    let mut end: usize = all.len();
    assert(text@.subrange(start as int, end as int) == rest);
    while start < end && space(all[end - 1])
        invariant
            all@ == text@,
            start <= end <= all.len(),
            trimmed_end(rest) == trimmed_end(text@.subrange(start as int, end as int)),
        decreases end,
    {
        let ghost cut = text@.subrange(start as int, end as int);
        assert(cut.last() == text@[end - 1]);
        assert(cut.drop_last() == text@.subrange(start as int, end - 1));
        end = end - 1;
    }
    let mut chars: Vec<char> = Vec::new();
    let mut i: usize = start;
    while i < end
        invariant
            all@ == text@,
            start <= i <= end <= all.len(),
            chars@ == text@.subrange(start as int, i as int),
        decreases end - i,
    {
        chars.push(all[i]);
        i = i + 1;
    }
    chars
}

/// Takes the characters `c` off the end.
pub fn drop_trailing(chars: &mut Vec<char>, c: char)
    ensures
        final(chars)@ == without_trailing(old(chars)@, c),
{
    while chars.len() > 0 && chars[chars.len() - 1] == c
        invariant
            without_trailing(chars@, c) == without_trailing(old(chars)@, c),
        decreases chars.len(),
    {
        chars.pop();
    }
}

pub open spec fn is_digit(c: char) -> bool {
    48 <= c as int <= 57
}

/// The number that decimal digits stand for.
pub open spec fn decimal_value(s: Seq<char>) -> int
    decreases s.len(),
{
    if s.len() == 0 {
        0
    } else {
        decimal_value(s.drop_last()) * 10 + (s.last() as int - 48)
    }
}

/// What follows the sign of a text that has one.
pub open spec fn unsigned_part(s: Seq<char>) -> Seq<char> {
    if s.len() > 0 && (s[0] == '-' || s[0] == '+') {
        s.drop_first()
    } else {
        s
    }
}

pub open spec fn all_digits(s: Seq<char>) -> bool {
    forall|i: int| 0 <= i < s.len() ==> is_digit(#[trigger] s[i])
}

/// The 64-bit integer that a text denotes: digits after at most one sign.
pub open spec fn parsed_integer(s: Seq<char>) -> Option<int> {
    let body = unsigned_part(s);
    let value = if s.len() > 0 && s[0] == '-' {
        -decimal_value(body)
    } else {
        decimal_value(body)
    };
    if body.len() > 0 && all_digits(body) && i64::MIN <= value <= i64::MAX {
        Some(value)
    } else {
        None
    }
}

/// The 64-bit number without a sign that a text denotes: digits, behind at most
/// one plus.
pub open spec fn parsed_unsigned(s: Seq<char>) -> Option<int> {
    let body = if s.len() > 0 && s[0] == '+' {
        s.drop_first()
    } else {
        s
    };
    let value = decimal_value(body);
    if body.len() > 0 && all_digits(body) && value <= u64::MAX {
        Some(value)
    } else {
        None
    }
}

/// The number that the digits from `start` on stand for, cut down to two to the
/// power of 64; nothing where there are none or something else.
fn read_magnitude(chars: &[char], start: usize) -> (result: Option<u128>)
    requires
        start <= chars@.len(),
    ensures
        ({
            let body = chars@.skip(start as int);
            match result {
                Some(value) => body.len() > 0 && all_digits(body) && if decimal_value(body)
                    < 0x1_0000_0000_0000_0000 {
                    value == decimal_value(body)
                } else {
                    value == 0x1_0000_0000_0000_0000
                },
                None => body.len() == 0 || !all_digits(body),
            }
        }),
{
    let ghost body = chars@.skip(start as int);
    if start == chars.len() {
        return None;
    }
    let mut value: u128 = 0;
    let mut i: usize = start;
    assert(body.take(0).len() == 0);
    while i < chars.len()
        invariant
            start <= i <= chars.len(),
            body == chars@.skip(start as int),
            forall|j: int| 0 <= j < i - start ==> is_digit(#[trigger] body[j]),
            value <= 0x1_0000_0000_0000_0000,
            if decimal_value(body.take(i - start)) < 0x1_0000_0000_0000_0000 {
                value == decimal_value(body.take(i - start))
            } else {
                value == 0x1_0000_0000_0000_0000
            },
        decreases chars.len() - i,
    {
        let c: char = chars[i];
        assert(body[i - start] == c);
        assert(body.take(i - start + 1).drop_last() == body.take(i - start));
        assert(body.take(i - start + 1).last() == c);
        let code: u32 = code_point(c);
        if !(48 <= code && code <= 57) {
            assert(!is_digit(body[i - start]));
            return None;
        }
        let next: u128 = value * 10 + (code as u128 - 48);
        value = if next < 0x1_0000_0000_0000_0000 {
            next
        } else {
            0x1_0000_0000_0000_0000
        };
        i = i + 1;
    }
    assert(body.take(body.len() as int) == body);
    Some(value)
}

/// Reads a 64-bit integer.
pub fn parse_integer(chars: &[char]) -> (result: Option<i64>)
    ensures
        match result {
            Some(n) => parsed_integer(chars@) == Some(n as int),
            None => parsed_integer(chars@) is None,
        },
{
    let negative: bool = chars.len() > 0 && chars[0] == '-';
    let start: usize = if chars.len() > 0 && (chars[0] == '-' || chars[0] == '+') { 1 } else { 0 };
    assert(unsigned_part(chars@) == chars@.skip(start as int));
    match read_magnitude(chars, start) {
        Some(value) => if negative {
            if value <= 0x8000_0000_0000_0000 {
                Some((-(value as i128)) as i64)
            } else {
                None
            }
        } else if value <= 0x7fff_ffff_ffff_ffff {
            Some(value as i64)
        } else {
            None
        },
        None => None,
    }
}

/// Reads a 64-bit number without a sign.
pub fn parse_unsigned(chars: &[char]) -> (result: Option<u64>)
    ensures
        match result {
            Some(n) => parsed_unsigned(chars@) == Some(n as int),
            None => parsed_unsigned(chars@) is None,
        },
{
    let start: usize = if chars.len() > 0 && chars[0] == '+' { 1 } else { 0 };
    assert(chars@.skip(0) == chars@);
    assert(start == 1 ==> chars@.skip(1) == chars@.drop_first());
    match read_magnitude(chars, start) {
        Some(value) => if value < 0x1_0000_0000_0000_0000 {
            Some(value as u64)
        } else {
            None
        },
        None => None,
    }
}

/// The order of texts by their characters' code points.
pub open spec fn precedes(a: Seq<char>, b: Seq<char>) -> bool
    decreases a.len(),
{
    if b.len() == 0 {
        false
    } else if a.len() == 0 {
        true
    } else if a[0] != b[0] {
        (a[0] as int) < (b[0] as int)
    } else {
        precedes(a.drop_first(), b.drop_first())
    }
}

/// No text precedes itself, nor two texts each other.
pub proof fn lemma_precedes_asymmetric(a: Seq<char>, b: Seq<char>)
    requires
        precedes(a, b),
    ensures
        !precedes(b, a),
        a != b,
    decreases a.len(),
{
    if a.len() > 0 && b.len() > 0 && a[0] == b[0] {
        lemma_precedes_asymmetric(a.drop_first(), b.drop_first());
    }
}

pub proof fn lemma_precedes_transitive(a: Seq<char>, b: Seq<char>, c: Seq<char>)
    requires
        precedes(a, b),
        precedes(b, c),
    ensures
        precedes(a, c),
    decreases a.len(),
{
    if a.len() > 0 && b.len() > 0 && c.len() > 0 && a[0] == b[0] && b[0] == c[0] {
        lemma_precedes_transitive(a.drop_first(), b.drop_first(), c.drop_first());
    }
}

/// Of two different texts one precedes the other.
pub proof fn lemma_precedes_total(a: Seq<char>, b: Seq<char>)
    ensures
        precedes(a, b) || precedes(b, a) || a == b,
    decreases a.len(),
{
    if a.len() > 0 && b.len() > 0 && a[0] == b[0] {
        lemma_precedes_total(a.drop_first(), b.drop_first());
        if a.drop_first() == b.drop_first() {
            assert(a == seq![a[0]] + a.drop_first());
            assert(b == seq![b[0]] + b.drop_first());
        }
    } else if a.len() == 0 && b.len() == 0 {
        assert(a == b);
    }
}

/// Whether the first text comes before the second.
pub fn text_precedes(left: &str, right: &str) -> (answer: bool)
    ensures
        answer == precedes(left@, right@),
{
    let a: Vec<char> = chars_of(left);
    let b: Vec<char> = chars_of(right);
    let mut i: usize = 0;
    assert(a@.skip(0) == a@);
    assert(b@.skip(0) == b@);
    while i < a.len() && i < b.len()
        invariant
            i <= a.len(),
            i <= b.len(),
            a@ == left@,
            b@ == right@,
            precedes(a@, b@) == precedes(a@.skip(i as int), b@.skip(i as int)),
        decreases a.len() - i,
    {
        if a[i] != b[i] {
            return code_point(a[i]) < code_point(b[i]);
        }
        assert(a@.skip(i as int).drop_first() == a@.skip(i + 1));
        assert(b@.skip(i as int).drop_first() == b@.skip(i + 1));
        i = i + 1;
    }
    i < b.len()
}

} // verus!
