//! The bytes that the input formats are made of.
use vstd::prelude::*;

verus! {

pub const SPACE: u8 = 0x20;
pub const NEWLINE: u8 = 0x0a;
pub const DIGIT_ZERO: u8 = 0x30;
pub const DIGIT_NINE: u8 = 0x39;

pub open spec fn is_digit(c: u8) -> bool {
    DIGIT_ZERO <= c && c <= DIGIT_NINE
}

} // verus!
