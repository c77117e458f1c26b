//! Reading the numbers of the command line: rain duration and segment
//! heights, each an unsigned 32-bit decimal number.
use std::num::ParseIntError;
use vstd::prelude::*;

verus! {

#[verifier::external_type_specification]
#[verifier::external_body]
pub struct ExParseIntError(ParseIntError);

/// `c` is an ASCII decimal digit.
pub open spec fn is_digit(c: char) -> bool {
    '0' <= c <= '9'
}

/// The value of the decimal digits `s`.
pub open spec fn decimal_value(s: Seq<char>) -> int
    decreases s.len(),
{
    if s.len() == 0 {
        0
    } else {
        decimal_value(s.drop_last()) * 10 + (s.last() as int - '0' as int)
    }
}

/// `s` without its leading `+`, if it has one.
pub open spec fn unsigned_digits(s: Seq<char>) -> Seq<char> {
    if s.len() > 0 && s[0] == '+' {
        s.drop_first()
    } else {
        s
    }
}

/// `s` is an optional `+` followed by at least one decimal digit, and its
/// value fits in a `u32`.
pub open spec fn is_u32_text(s: Seq<char>) -> bool {
    let d = unsigned_digits(s);
    &&& d.len() > 0
    &&& forall|i: int| 0 <= i < d.len() ==> is_digit(#[trigger] d[i])
    &&& decimal_value(d) <= u32::MAX
}

/// `<u32 as FromStr>::from_str` (`s.parse::<u32>()`).  The contract claims
/// what the standard library documents and implements for unsigned types: an
/// optional `+` followed by decimal digits only, whose value fits; a `-`,
/// whitespace or any other character is an error.
#[verifier::external_body]
fn parse_u32(s: &str) -> (r: Result<u32, ParseIntError>)
    ensures
        r is Ok <==> is_u32_text(s@),
        r matches Ok(v) ==> v == decimal_value(unsigned_digits(s@)),
{
    s.parse::<u32>()
}

/// Reads a number that must fit in a `u32` and widens it to `i64`.
pub fn parse_i64_as_u32(s: &str) -> (r: Result<i64, ParseIntError>)
    ensures
        r is Ok <==> is_u32_text(s@),
        r matches Ok(v) ==> v == decimal_value(unsigned_digits(s@)),
{
    match parse_u32(s) {
        Ok(num) => Ok(num as i64),
        Err(e) => Err(e),
    }
}

} // verus!
