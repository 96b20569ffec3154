//! Masking digit runs with a star token of the same width.

use vstd::prelude::*;

use crate::model::text_redacted;
use crate::redaction::redact_text;

verus! {

/// The width of the star mask asked for: a non-positive run length never
/// matches a run, so it masks nothing and needs no mask characters.
pub open spec fn mask_width(num_digits: i32) -> int {
    if num_digits <= 0 {
        0
    } else {
        num_digits as int
    }
}

/// A mask of `n` stars.
pub open spec fn star_mask(n: int) -> Seq<char> {
    Seq::new(n as nat, |i: int| '*')
}

/// The sum of two numbers.
pub fn add(a: i32, b: i32) -> (r: i32)
    requires
        i32::MIN <= a + b <= i32::MAX,
    ensures
        r == a + b,
{
    a + b
}

/// Every line of `input`, with exactly one trailing newline restored, has
/// each maximal run of exactly `num_digits` decimal digits replaced by as
/// many `'*'` characters; everything else is unchanged.
pub fn masker(input: &String, num_digits: i32) -> (r: String)
    ensures
        r@ == text_redacted(
            input@,
            mask_width(num_digits),
            star_mask(mask_width(num_digits)),
            false,
        ),
{
    let n: usize = if num_digits <= 0 {
        0
    } else {
        num_digits as usize
    };
    let mut stars = String::new();
    let mut i: usize = 0;
    while i < n
        invariant
            0 <= i <= n,
            stars@ =~= star_mask(i as int),
        decreases n - i,
    {
        stars.append("*");
        proof {
            reveal_strlit("*");
            assert(stars@ =~= star_mask(i + 1));
        }
        i = i + 1;
    }
    proof {
        assert(stars@.len() == n);
        assert(n as int == mask_width(num_digits));
        assert(stars@ =~= star_mask(mask_width(num_digits)));
    }
    redact_text(input.as_str(), n, stars.as_str(), false)
}

} // verus!
