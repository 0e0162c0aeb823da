//! How the desk writes numbers and times.

use crate::double::convert::ONE_BITS;
use crate::double::Double;
use crate::market::HUNDRED;
use crate::text;
use vstd::prelude::*;

pub mod laws;

verus! {

/// What stands where there is no number.
pub const DASH: &'static str = "\u{2014}";

pub const THOUSAND: u64 = 0x408f_4000_0000_0000;

pub const MILLION: u64 = 0x412e_8480_0000_0000;

pub const BILLION: u64 = 0x41cd_cd65_0000_0000;

/// A decimal notation without the zeros at its end, nor a point there.
pub open spec fn shortened(s: Seq<char>) -> Seq<char> {
    text::without_trailing(text::without_trailing(s, '0'), '.')
}

/// `abs >= limit`, of a finite number.
pub open spec fn reaches(value: Double, limit: u64) -> bool {
    (Double { bits: limit }).at_most(value.absolute())
}

/// Prices of a thousand and more have two decimals; smaller ones have up to
/// four, and those below one up to six.
pub open spec fn price_text(value: Double) -> Seq<char> {
    if !value.finite() {
        DASH@
    } else if reaches(value, THOUSAND) {
        value.fixed(2)
    } else if reaches(value, ONE_BITS) {
        shortened(value.fixed(4))
    } else {
        shortened(value.fixed(6))
    }
}

/// The size of a number in units of `unit`, with the sign before it.
pub open spec fn scaled_text(value: Double, unit: u64, suffix: char) -> Seq<char> {
    let size = value.absolute().quotient(Double { bits: unit }).fixed(2).push(suffix);
    if value.below(Double { bits: 0 }) {
        seq!['-'] + size
    } else {
        size
    }
}

/// Large numbers in thousands, millions or billions. Numbers under a thousand
/// are written as prices, without their sign.
pub open spec fn compact_text(value: Double) -> Seq<char> {
    if !value.finite() {
        DASH@
    } else if reaches(value, BILLION) {
        scaled_text(value, BILLION, 'B')
    } else if reaches(value, MILLION) {
        scaled_text(value, MILLION, 'M')
    } else if reaches(value, THOUSAND) {
        scaled_text(value, THOUSAND, 'K')
    } else {
        price_text(value.absolute())
    }
}

/// Sizes of a hundred and more have two decimals, smaller ones up to four.
pub open spec fn size_text(value: Double) -> Seq<char> {
    if !value.finite() {
        DASH@
    } else if reaches(value, HUNDRED) {
        value.fixed(2)
    } else {
        shortened(value.fixed(4))
    }
}

fn at_least(value: Double, limit: u64) -> (answer: bool)
    ensures
        answer == reaches(value, limit),
{
    (Double { bits: limit }).is_at_most(value.abs())
}

fn fixed_text(value: Double, places: usize) -> (result: String)
    requires
        1 <= places <= 6,
    ensures
        result@ == value.fixed(places as nat),
{
    let mut out: Vec<char> = Vec::new();
    value.push_fixed(&mut out, places);
    text::text_of(out.as_slice())
}

fn short_text(value: Double, places: usize) -> (result: String)
    requires
        1 <= places <= 6,
    ensures
        result@ == shortened(value.fixed(places as nat)),
{
    let mut out: Vec<char> = Vec::new();
    value.push_fixed(&mut out, places);
    text::drop_trailing(&mut out, '0');
    text::drop_trailing(&mut out, '.');
    text::text_of(out.as_slice())
}

pub fn price(value: Double) -> (result: String)
    ensures
        result@ == price_text(value),
{
    if !value.is_finite() {
        DASH.to_owned()
    } else if at_least(value, THOUSAND) {
        fixed_text(value, 2)
    } else if at_least(value, ONE_BITS) {
        short_text(value, 4)
    } else {
        short_text(value, 6)
    }
}

fn scaled(value: Double, unit: u64, suffix: char) -> (result: String)
    ensures
        result@ == scaled_text(value, unit, suffix),
{
    let mut out: Vec<char> = Vec::new();
    if value.is_below(Double { bits: 0 }) {
        out.push('-');
    }
    value.abs().over(Double { bits: unit }).push_fixed(&mut out, 2);
    out.push(suffix);
    text::text_of(out.as_slice())
}

pub fn compact(value: Double) -> (result: String)
    ensures
        result@ == compact_text(value),
{
    if !value.is_finite() {
        DASH.to_owned()
    } else if at_least(value, BILLION) {
        scaled(value, BILLION, 'B')
    } else if at_least(value, MILLION) {
        scaled(value, MILLION, 'M')
    } else if at_least(value, THOUSAND) {
        scaled(value, THOUSAND, 'K')
    } else {
        price(value.abs())
    }
}

pub fn signed_percent(value: Double) -> (result: String)
    ensures
        result@ == if value.finite() {
            value.signed_fixed(2).push('%')
        } else {
            DASH@
        },
{
    if !value.is_finite() {
        return DASH.to_owned();
    }
    let mut out: Vec<char> = Vec::new();
    value.push_signed_fixed(&mut out, 2);
    out.push('%');
    text::text_of(out.as_slice())
}

pub fn unsigned_percent(value: Double) -> (result: String)
    ensures
        result@ == if value.finite() {
            value.fixed(4).push('%')
        } else {
            DASH@
        },
{
    if !value.is_finite() {
        return DASH.to_owned();
    }
    let mut out: Vec<char> = Vec::new();
    value.push_fixed(&mut out, 4);
    out.push('%');
    text::text_of(out.as_slice())
}

pub fn size(value: Double) -> (result: String)
    ensures
        result@ == size_text(value),
{
    if !value.is_finite() {
        DASH.to_owned()
    } else if at_least(value, HUNDRED) {
        fixed_text(value, 2)
    } else {
        short_text(value, 4)
    }
}

/// The number of bytes that a character takes in a text.
pub open spec fn byte_width(c: char) -> int {
    let u = c as int;
    if u < 0x80 {
        1
    } else if u < 0x800 {
        2
    } else if u < 0x1_0000 {
        3
    } else {
        4
    }
}

/// How many characters fill the first `bytes` bytes; none where the last of
/// them would be cut, or the text is shorter.
pub open spec fn chars_before(s: Seq<char>, bytes: int) -> Option<int>
    decreases s.len(),
{
    if bytes == 0 {
        Some(0)
    } else if bytes < 0 || s.len() == 0 {
        None
    } else {
        match chars_before(s.drop_first(), bytes - byte_width(s[0])) {
            Some(count) => Some(count + 1),
            None => None,
        }
    }
}

/// The part of a time stamp that holds the time of day, by its place: bytes 11
/// up to 19.
pub open spec fn time_part(s: Seq<char>) -> Option<Seq<char>> {
    match (chars_before(s, 11), chars_before(s, 19)) {
        (Some(from), Some(to)) => Some(s.subrange(from, to)),
        _ => None,
    }
}

/// Division that cuts towards zero.
pub open spec fn cut_quotient(a: int, b: int) -> int {
    if a < 0 {
        -((-a) / b)
    } else {
        a / b
    }
}

/// What division towards zero leaves, with the sign of `a`.
pub open spec fn cut_remainder(a: int, b: int) -> int {
    if a < 0 {
        -((-a) % b)
    } else {
        a % b
    }
}

/// The time of day of a count of seconds, or of milliseconds where it is too
/// large for seconds.
pub open spec fn time_of_day(value: int) -> Seq<char> {
    let seconds = if value > 10_000_000_000 {
        value / 1000
    } else {
        value
    };
    let hours = (cut_quotient(cut_remainder(seconds, 86_400), 3_600) + 24) % 24;
    let minutes = cut_quotient(cut_remainder(seconds, 3_600), 60);
    text::two_wide(hours) + seq![':'] + text::two_wide(minutes) + seq![':'] + text::two_wide(
        cut_remainder(seconds, 60),
    )
}

/// The time of day that a time stamp shows: its own digits where it is long
/// enough, else the time that it counts, else the stamp as it is.
pub open spec fn clock_text(s: Seq<char>) -> Seq<char> {
    match time_part(s) {
        Some(label) => label,
        None => match text::parsed_integer(text::trimmed(s)) {
            Some(value) => time_of_day(value),
            None => s,
        },
    }
}

fn width_of(c: char) -> (width: usize)
    ensures
        width == byte_width(c),
{
    let u: u32 = c as u32;
    if u < 0x80 {
        1
    } else if u < 0x800 {
        2
    } else if u < 0x1_0000 {
        3
    } else {
        4
    }
}

fn count_before(chars: &[char], bytes: usize) -> (count: Option<usize>)
    requires
        bytes <= 1000,
    ensures
        match count {
            Some(n) => chars_before(chars@, bytes as int) == Some(n as int) && n <= chars.len(),
            None => chars_before(chars@, bytes as int) is None,
        },
{
    let mut i: usize = 0;
    let mut used: usize = 0;
    assert(chars@.skip(0) == chars@);
    while used < bytes && i < chars.len()
        invariant
            i <= chars.len(),
            bytes <= 1000,
            used < bytes + 4,
            match chars_before(chars@.skip(i as int), bytes - used) {
                Some(count) => chars_before(chars@, bytes as int) == Some(count + i),
                None => chars_before(chars@, bytes as int) is None,
            },
        decreases chars.len() - i,
    {
        assert(chars@.skip(i as int).drop_first() == chars@.skip(i + 1));
        used = used + width_of(chars[i]);
        i = i + 1;
    }
    if used == bytes {
        Some(i)
    } else {
        None
    }
}

/// The bytes before a later place take at least as many characters.
proof fn lemma_chars_before_ordered(s: Seq<char>, low: int, high: int)
    requires
        low <= high,
        chars_before(s, low) is Some,
        chars_before(s, high) is Some,
    ensures
        0 <= chars_before(s, low)->0 <= chars_before(s, high)->0 <= s.len(),
    decreases s.len(),
{
    if low != 0 {
        lemma_chars_before_ordered(s.drop_first(), low - byte_width(s[0]), high - byte_width(s[0]));
    } else if high != 0 {
        lemma_chars_before_ordered(s.drop_first(), high - byte_width(s[0]), high - byte_width(s[0]));
    }
}

/// Hours, minutes and seconds of a count of seconds.
fn clock_parts(seconds: i64) -> (parts: (i64, i64, i64))
    ensures
        parts.0 == (cut_quotient(cut_remainder(seconds as int, 86_400), 3_600) + 24) % 24,
        parts.1 == cut_quotient(cut_remainder(seconds as int, 3_600), 60),
        parts.2 == cut_remainder(seconds as int, 60),
{
    if seconds < 0 {
        let size: i128 = -(seconds as i128);
        let h: i64 = ((size % 86_400) / 3_600) as i64;
        let m: i64 = ((size % 3_600) / 60) as i64;
        let s: i64 = (size % 60) as i64;
        assert(cut_quotient(cut_remainder(seconds as int, 86_400), 3_600) == -h);
        ((24 - h) % 24, -m, -s)
    } else {
        let h: i64 = (seconds % 86_400) / 3_600;
        assert(0 <= h < 24);
        (h, (seconds % 3_600) / 60, seconds % 60)
    }
}

fn clock_chars(value: i64) -> (out: Vec<char>)
    ensures
        out@ == time_of_day(value as int),
{
    let seconds: i64 = if value > 10_000_000_000 { value / 1000 } else { value };
    let (h, m, s) = clock_parts(seconds);
    let mut out: Vec<char> = Vec::new();
    text::push_two_wide(&mut out, h);
    out.push(':');
    text::push_two_wide(&mut out, m);
    out.push(':');
    text::push_two_wide(&mut out, s);
    out
}

pub fn clock_label(timestamp: &str) -> (label: String)
    ensures
        label@ == clock_text(timestamp@),
{
    let chars: Vec<char> = text::chars_of(timestamp);
    let from: Option<usize> = count_before(chars.as_slice(), 11);
    let to: Option<usize> = count_before(chars.as_slice(), 19);
    if let (Some(from), Some(to)) = (from, to) {
        proof {
            lemma_chars_before_ordered(timestamp@, 11, 19);
        }
        return text::text_of(&chars.as_slice()[from..to]);
    }
    let trimmed: Vec<char> = text::trim(timestamp);
    match text::parse_integer(trimmed.as_slice()) {
        Some(value) => {
            let out: Vec<char> = clock_chars(value);
            text::text_of(out.as_slice())
        },
        None => timestamp.to_owned(),
    }
}

} // verus!
