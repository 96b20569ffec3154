//! The line-by-line redactor: ten-digit runs become `[REDACTED]`, except
//! inside the tail block of a canonical UUID.

use vstd::prelude::*;

use crate::model::in_uuid;
use crate::model::text_redacted;
use crate::redaction::redact_text;
use crate::uuid_recogniser;

verus! {

/// Length of the digit runs the redactor replaces, which is also the width
/// of its mask token.
pub const NUM_DIGITS: usize = 10;

/// Every line of `input`, with exactly one trailing newline restored, has
/// each maximal run of exactly ten decimal digits replaced by the literal
/// `[REDACTED]`, unless the run lies in the tail hex block of a canonical
/// UUID embedded in the line; everything else is unchanged.
pub fn redactor(input: &String) -> (r: String)
    ensures
        r@ == text_redacted(input@, NUM_DIGITS as int, "[REDACTED]"@, true),
{
    let mask = "[REDACTED]";
    proof {
        reveal_strlit("[REDACTED]");
    }
    redact_text(input.as_str(), NUM_DIGITS, mask, true)
}

/// Whether the ten-digit run starting at `ten_digit_start_position` lies
/// in the trailing hex block of a syntactically valid canonical UUID.  Any
/// out-of-range index or malformed candidate answers `false`; the guard
/// never fails.
pub fn is_in_uuid(ten_digit_start_position: usize, line: &String) -> (r: bool)
    ensures
        r == in_uuid(line@, ten_digit_start_position as int),
{
    uuid_recogniser::is_in_uuid(ten_digit_start_position, line)
}

} // verus!
