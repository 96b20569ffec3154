//! Scanning a line for maximal runs of exactly `num_digits` decimal digits.

use vstd::prelude::*;

use crate::model::is_digit_char;
use crate::model::run_start;

verus! {

/// Whether `c` is an ASCII decimal digit.
pub fn is_digit(c: char) -> (b: bool)
    ensures
        b == is_digit_char(c),
{
    let u: u32 = c as u32;
    48 <= u && u <= 57
}

/// Every start offset of a maximal run of exactly `num_digits` decimal
/// digits in `line`, in left-to-right order.
///
/// A single scan counts consecutive digits; a non-digit (or the end of the
/// line) closes the pending run, which is reported exactly when its length
/// equals `num_digits`.
pub fn find_digit_sequences(num_digits: usize, line: &String) -> (r: Vec<usize>)
    ensures
        forall|k: int|
            0 <= k < r@.len() ==> run_start(line@, #[trigger] r@[k] as int, num_digits as int),
        forall|p: int| #[trigger] run_start(line@, p, num_digits as int) ==> r@.contains(p as usize),
        forall|k1: int, k2: int| 0 <= k1 < k2 < r@.len() ==> r@[k1] < r@[k2],
{
    let s = line.as_str();
    let len = s.unicode_len();
    let mut sequences: Vec<usize> = Vec::new();
    let mut digits: usize = 0;
    let mut i: usize = 0;
    while i < len
        invariant
            len == line@.len(),
            s@ == line@,
            0 <= i <= len,
            digits <= i,
            forall|j: int| i - digits <= j < i ==> is_digit_char(#[trigger] line@[j]),
            i > digits ==> !is_digit_char(line@[i - digits - 1]),
            forall|k: int|
                0 <= k < sequences@.len() ==> run_start(
                    line@,
                    #[trigger] sequences@[k] as int,
                    num_digits as int,
                ) && sequences@[k] + num_digits < i,
            forall|p: int|
                #[trigger] run_start(line@, p, num_digits as int) && p + num_digits < i
                    ==> sequences@.contains(p as usize),
            forall|k1: int, k2: int|
                0 <= k1 < k2 < sequences@.len() ==> sequences@[k1] < sequences@[k2],
        decreases len - i,
    {
        let ghost prev_seq = sequences@;
        let ghost old_i = i as int;
        let ghost old_digits = digits as int;
        let c = s.get_char(i);
        if is_digit(c) {
            digits = digits + 1;
        } else {
            if digits == num_digits {
                assert(run_start(line@, i - digits, num_digits as int));
                sequences.push(i - digits);
            }
            digits = 0;
        }
        i = i + 1;
        proof {
            assert forall|p: int|
                run_start(line@, p, num_digits as int) && p + num_digits
                    < i implies sequences@.contains(p as usize) by {
                if p + num_digits < old_i {
                    let k = choose|k: int|
                        0 <= k < prev_seq.len() && prev_seq[k] == p as usize;
                    assert(sequences@[k] == p as usize);
                } else {
                    assert(p + num_digits == old_i);
                    assert(!is_digit_char(line@[p + num_digits]));
                    assert(line@[old_i] == c);
                    if p < old_i - old_digits {
                        assert(is_digit_char(line@[old_i - old_digits - 1]));
                    }
                    if p > old_i - old_digits {
                        assert(is_digit_char(line@[p - 1]));
                        assert(!is_digit_char(line@[p - 1]));
                    }
                    assert(p == old_i - old_digits && num_digits == old_digits);
                    assert(sequences@[sequences@.len() - 1] == p as usize);
                }
            }
        }
    }
    let ghost prev_seq = sequences@;
    if digits == num_digits {
        assert(run_start(line@, len - num_digits, num_digits as int));
        sequences.push(len - digits);
    }
    proof {
        assert forall|p: int|
            run_start(line@, p, num_digits as int) implies sequences@.contains(p as usize) by {
            if p + num_digits < len as int {
                let k = choose|k: int| 0 <= k < prev_seq.len() && prev_seq[k] == p as usize;
                assert(sequences@[k] == p as usize);
            } else {
                assert(p + num_digits == len);
                if p < len - digits {
                    assert(is_digit_char(line@[len - digits - 1]));
                }
                if p > len - digits {
                    assert(is_digit_char(line@[p - 1]));
                    assert(!is_digit_char(line@[p - 1]));
                }
                assert(p == len - digits && num_digits == digits);
                assert(sequences@[sequences@.len() - 1] == p as usize);
            }
        }
    }
    sequences
}

} // verus!
