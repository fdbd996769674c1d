//! Classification of ASCII bytes used by the wordlist and selector logic:
//! alphanumerics, whitespace, decimal digits, and lowercase folding.

use vstd::prelude::*;

verus! {

/// A byte in `0-9`, `A-Z` or `a-z`.
pub open spec fn is_alnum(b: u8) -> bool {
    (48 <= b && b <= 57) || (65 <= b && b <= 90) || (97 <= b && b <= 122)
}

/// An ASCII whitespace byte: space, tab, line feed, vertical tab, form feed,
/// or carriage return.
pub open spec fn is_space(b: u8) -> bool {
    b == 32 || (9 <= b && b <= 13)
}

/// A decimal digit byte.
pub open spec fn is_digit(b: u8) -> bool {
    48 <= b && b <= 57
}

/// Lowercase folding of a single byte: `A-Z` maps to `a-z`, all other bytes
/// are unchanged.
pub open spec fn to_lower(b: u8) -> u8 {
    if 65 <= b && b <= 90 {
        (b + 32) as u8
    } else {
        b
    }
}

/// Lowercase folding of a whole byte sequence.
pub open spec fn fold_lower(s: Seq<u8>) -> Seq<u8> {
    s.map_values(|b: u8| to_lower(b))
}

/// Runtime check for [`is_alnum`].
pub fn check_alnum(b: u8) -> (r: bool)
    ensures
        r == is_alnum(b),
{
    (48 <= b && b <= 57) || (65 <= b && b <= 90) || (97 <= b && b <= 122)
}

/// Runtime check for [`is_space`].
pub fn check_space(b: u8) -> (r: bool)
    ensures
        r == is_space(b),
{
    b == 32 || (9 <= b && b <= 13)
}

/// Runtime check for [`is_digit`].
pub fn check_digit(b: u8) -> (r: bool)
    ensures
        r == is_digit(b),
{
    48 <= b && b <= 57
}

/// Runtime lowercase folding of a single byte.
pub fn lower_byte(b: u8) -> (r: u8)
    ensures
        r == to_lower(b),
{
    if 65 <= b && b <= 90 {
        b + 32
    } else {
        b
    }
}

} // verus!
