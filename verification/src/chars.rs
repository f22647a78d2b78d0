//! Character classification used by the lexer.
//!
//! Digits are classified by their value in base 16, so that one
//! function serves the binary, octal, decimal and hexadecimal scans.
//! The Unicode classes needed for identifiers come from the standard
//! library behind two trusted specifications.

use vstd::prelude::*;

verus! {

/// Value of `c` as a hexadecimal digit, or 16 when `c` is none.
pub open spec fn spec_digit_val(c: char) -> int {
    if 48 <= c as u32 <= 57 {
        c as u32 - 48
    } else if 97 <= c as u32 <= 102 {
        c as u32 - 87
    } else if 65 <= c as u32 <= 70 {
        c as u32 - 55
    } else {
        16
    }
}

/// Whether `c` is a digit of the given radix (2, 8, 10 or 16).
pub open spec fn spec_is_digit(c: char, radix: int) -> bool {
    spec_digit_val(c) < radix
}

/// Value of `c` as a hexadecimal digit, or 16 when `c` is none.
pub fn digit_val(c: char) -> (r: u32)
    ensures
        r == spec_digit_val(c),
{
    let u = c as u32;
    if 48 <= u && u <= 57 {
        u - 48
    } else if 97 <= u && u <= 102 {
        u - 87
    } else if 65 <= u && u <= 70 {
        u - 55
    } else {
        16
    }
}

/// Whether `c` is a digit of the given radix.
pub fn is_digit(c: char, radix: u32) -> (r: bool)
    ensures
        r == spec_is_digit(c, radix as int),
{
    digit_val(c) < radix
}

/// What `char::is_alphabetic` returns: a pure predicate of the character.
pub uninterp spec fn spec_alphabetic(c: char) -> bool;

/// What `char::is_alphanumeric` returns: a pure predicate of the character.
pub uninterp spec fn spec_alphanumeric(c: char) -> bool;

/// Relies on `char::is_alphabetic`: a pure function of the character
/// alone; on ASCII it holds exactly for the letters.
pub assume_specification[ char::is_alphabetic ](c: char) -> (r: bool)
    ensures
        r == spec_alphabetic(c),
        (c as u32) < 128 ==> r == (97 <= c as u32 <= 122 || 65 <= c as u32 <= 90),
;

/// Relies on `char::is_alphanumeric`: a pure function of the character
/// alone; on ASCII it holds exactly for the letters and the digits.
pub assume_specification[ char::is_alphanumeric ](c: char) -> (r: bool)
    ensures
        r == spec_alphanumeric(c),
        (c as u32) < 128 ==> r == (97 <= c as u32 <= 122 || 65 <= c as u32 <= 90 || 48 <= c
            as u32 <= 57),
;

} // verus!
