//! Deciding whether a digit run belongs to the trailing hex block of a
//! canonical UUID embedded in the line.

use vstd::prelude::*;

use crate::model::in_uuid;
use crate::model::is_canonical_uuid;
use crate::model::uuid_at;
use crate::model::uuid_start_candidate;

verus! {

/// Character length of a canonical hyphenated UUID.
pub const UUID_LENGTH: usize = 36;

/// Characters of a canonical UUID before its final hex block: the earliest
/// position at which that block can begin.
pub const UUID_PREFIX_LENGTH: usize = 24;

/// Relies on uuid::Uuid::parse_str: on a 36-character string it accepts
/// exactly the canonical hyphenated form, hyphens at offsets 8, 13, 18 and
/// 23 and case-insensitive ASCII hex digits everywhere else.
#[verifier::external_body]
fn parses_as_uuid(s: &str) -> (r: bool)
    ensures
        s@.len() == 36 ==> r == is_canonical_uuid(s@),
{
    uuid::Uuid::parse_str(s).is_ok()
}

/// Whether a canonical UUID occupies the 36 characters of `line` starting
/// at `maybe_uuid_start_index`.  A line too short to hold one there is not
/// a match.
fn is_uuid(line: &String, maybe_uuid_start_index: usize) -> (r: bool)
    ensures
        r == uuid_at(line@, maybe_uuid_start_index as int),
{
    let len = line.as_str().unicode_len();
    if maybe_uuid_start_index > len || len - maybe_uuid_start_index < UUID_LENGTH {
        return false;
    }
    let candidate = line.as_str().substring_char(
        maybe_uuid_start_index,
        maybe_uuid_start_index + UUID_LENGTH,
    );
    parses_as_uuid(candidate)
}

/// Where the UUID hypothesized around the digit run at
/// `ten_digits_start_position` would begin.  The up-to-three characters
/// just before the run are examined in order; the first hyphen among them
/// marks the start of the UUID's final block, 24 characters after the
/// UUID's own start.  No hyphen there, a hyphen too close to the start of
/// the line, or a line too short to look in, means no candidate.
pub fn find_uuid_start_candidate(ten_digits_start_position: usize, line: &String) -> (r: Option<
    usize,
>)
    requires
        ten_digits_start_position >= 24,
    ensures
        r is Some <==> uuid_start_candidate(line@, ten_digits_start_position as int) is Some,
        r is Some ==> r->0 as int == uuid_start_candidate(
            line@,
            ten_digits_start_position as int,
        )->0,
{
    let s = line.as_str();
    let len = s.unicode_len();
    let mut hyphen_offset: usize = 3;
    while hyphen_offset >= 1
        invariant
            len == line@.len(),
            s@ == line@,
            ten_digits_start_position >= 24,
            0 <= hyphen_offset <= 3,
            forall|q: int|
                ten_digits_start_position - 3 <= q < ten_digits_start_position - hyphen_offset
                    ==> q < len && #[trigger] line@[q] != '-',
        decreases hyphen_offset,
    {
        let q = ten_digits_start_position - hyphen_offset;
        if q >= len {
            return None;
        }
        if s.get_char(q) == '-' {
            let last_block_index = q + 1;
            if last_block_index < UUID_PREFIX_LENGTH {
                return None;
            }
            return Some(last_block_index - UUID_PREFIX_LENGTH);
        }
        hyphen_offset = hyphen_offset - 1;
    }
    None
}

/// Whether the digit run starting at `ten_digit_start_position` lies in
/// the trailing hex block of a syntactically valid canonical UUID.  Any
/// out-of-range index or malformed candidate answers `false`; the guard
/// never fails.
pub fn is_in_uuid(ten_digit_start_position: usize, line: &String) -> (r: bool)
    ensures
        r == in_uuid(line@, ten_digit_start_position as int),
{
    if ten_digit_start_position < UUID_PREFIX_LENGTH {
        return false;
    }
    match find_uuid_start_candidate(ten_digit_start_position, line) {
        Some(uuid_start_index) => is_uuid(line, uuid_start_index),
        None => false,
    }
}

} // verus!
