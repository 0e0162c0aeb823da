//! Binary floating point in the 64-bit interchange format, held as its bits.
//!
//! A finite number is `± magnitude * 2^-1074`, with an integer magnitude. The
//! lower 63 bits of the format, read as an integer (the *code*), grow with the
//! magnitude, which makes order and rounding statements about integers.

use vstd::arithmetic::power2::*;
use vstd::prelude::*;

pub mod arithmetic;
pub mod convert;
pub mod decimal;
pub mod laws;
pub mod natural;
pub mod order;
pub mod ordering;
pub mod parse;
pub mod reading;
pub mod rounding;
pub mod single;

verus! {

/// The number of fraction codes that share one exponent.
pub const BINADE: u64 = 0x10_0000_0000_0000;

/// The code of the infinities; above it lie the codes of what is no number.
pub const INFINITY_CODE: u64 = 0x7ff0_0000_0000_0000;

/// The weight of the sign bit.
pub const SIGN_BIT: u64 = 0x8000_0000_0000_0000;

/// The bits of the one value that operations give where there is no number.
pub const QUIET_BITS: u64 = 0x7ff8_0000_0000_0000;

/// A number in the 64-bit binary format.
#[derive(Clone, Copy, Debug)]
pub struct Double {
    pub bits: u64,
}

impl Double {
    /// The magnitude that belongs to a code, in units of `2^-1074`. The code of the
    /// infinities gets the value that the next exponent would have.
    pub open spec fn magnitude(code: int) -> int {
        if code < BINADE {
            code
        } else {
            (BINADE + code % (BINADE as int)) * pow2((code / (BINADE as int) - 1) as nat)
        }
    }

    /// `code` is the one whose magnitude lies nearest to `n / d`; of two that lie
    /// equally near, it is the even one.
    pub open spec fn nearest(n: int, d: int, code: int) -> bool {
        &&& 0 <= code <= INFINITY_CODE
        &&& code > 0 ==> (Self::magnitude(code - 1) + Self::magnitude(code)) * d <= 2 * n
        &&& code > 0 && (Self::magnitude(code - 1) + Self::magnitude(code)) * d == 2 * n ==> code % 2 == 0
        &&& code < INFINITY_CODE ==> 2 * n <= (Self::magnitude(code) + Self::magnitude(code + 1)) * d
        &&& code < INFINITY_CODE && 2 * n == (Self::magnitude(code) + Self::magnitude(code + 1)) * d ==> code % 2
            == 0
    }

    /// The code nearest to `n / d`, which is the only one.
    pub open spec fn nearest_code(n: int, d: int) -> int {
        choose|code: int| Self::nearest(n, d, code)
    }

    /// The bits without the sign.
    pub open spec fn code(self) -> int {
        self.bits as int % (SIGN_BIT as int)
    }

    /// The sign bit.
    pub open spec fn negative(self) -> bool {
        self.bits >= SIGN_BIT
    }

    pub open spec fn nan(self) -> bool {
        self.code() > INFINITY_CODE
    }

    pub open spec fn infinite(self) -> bool {
        self.code() == INFINITY_CODE
    }

    pub open spec fn finite(self) -> bool {
        self.code() < INFINITY_CODE
    }

    pub open spec fn zero(self) -> bool {
        self.code() == 0
    }

    /// The exact value of a finite number, in units of `2^-1074`.
    pub open spec fn value(self) -> int {
        if self.negative() {
            -Self::magnitude(self.code())
        } else {
            Self::magnitude(self.code())
        }
    }

    /// The place of a number in the order of all numbers, the infinities among
    /// them; both zeros have the same.
    pub open spec fn rank(self) -> int {
        if self.negative() {
            -self.code()
        } else {
            self.code()
        }
    }

    /// The number with a given sign and code.
    pub open spec fn assembled(negative: bool, code: int) -> Double {
        Double { bits: (code + if negative { SIGN_BIT as int } else { 0 }) as u64 }
    }
}

} // verus!
