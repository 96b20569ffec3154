//! The redaction engine: replacing every unprotected maximal digit run of
//! the configured length with the mask token, one line or a whole text at
//! a time.

use vstd::prelude::*;

use crate::digit_sequence_finder::find_digit_sequences;
use crate::model::covered;
use crate::model::cover_start;
use crate::model::lemma_cover_unique;
use crate::model::lemma_first_newline_is;
use crate::model::lemma_runs_disjoint;
use crate::model::line_redacted;
use crate::model::redacted_run;
use crate::model::run_start;
use crate::model::text_redacted;
use crate::uuid_recogniser::is_in_uuid;

verus! {

/// In a range that every replaced run either ends before or starts after,
/// no position is covered.
proof fn lemma_range_uncovered(
    s: Seq<char>,
    n: int,
    aware: bool,
    ps: Seq<usize>,
    done: int,
    last: int,
    bound: int,
)
    requires
        s.len() <= usize::MAX,
        forall|k: int| 0 <= k < ps.len() ==> run_start(s, #[trigger] ps[k] as int, n),
        forall|p: int| #[trigger] run_start(s, p, n) ==> ps.contains(p as usize),
        0 <= done <= ps.len(),
        forall|k: int|
            0 <= k < done ==> !redacted_run(s, n, aware, #[trigger] ps[k] as int) || ps[k] + n
                <= last,
        forall|k: int| done <= k < ps.len() ==> #[trigger] ps[k] as int >= bound,
    ensures
        forall|i: int| last <= i < bound ==> !covered(s, n, aware, i),
{
    assert forall|i: int| last <= i < bound implies !covered(s, n, aware, i) by {
        if covered(s, n, aware, i) {
            let q = choose|q: int| #[trigger] redacted_run(s, n, aware, q) && q <= i < q + n;
            assert(run_start(s, q, n));
            assert(ps.contains(q as usize));
            let k = choose|k: int| 0 <= k < ps.len() && ps[k] == q as usize;
            assert(ps[k] as int == q);
        }
    }
}

/// One line after redaction: every maximal run of exactly `num_digits`
/// decimal digits is replaced by the mask token, character for character,
/// except, when `uuid_aware` is set, runs lying in the tail block of a
/// canonical UUID; all other characters are returned unchanged.  The mask
/// token must have the width of the runs it replaces, so that no position
/// in the line shifts.
pub fn redact_line(line: &String, num_digits: usize, mask: &str, uuid_aware: bool) -> (r: String)
    requires
        mask@.len() == num_digits,
    ensures
        r@ == line_redacted(line@, num_digits as int, mask@, uuid_aware),
{
    let ghost s = line@;
    let ghost n = num_digits as int;
    let ghost goal = line_redacted(s, n, mask@, uuid_aware);
    let positions = find_digit_sequences(num_digits, line);
    let len = line.as_str().unicode_len();
    let mut out = String::new();
    let mut last: usize = 0;
    let mut idx: usize = 0;
    while idx < positions.len()
        invariant
            mask@.len() == num_digits,
            s == line@,
            n == num_digits as int,
            goal == line_redacted(s, n, mask@, uuid_aware),
            len == s.len(),
            forall|k: int| 0 <= k < positions@.len() ==> run_start(s, #[trigger] positions@[k] as int, n),
            forall|p: int| #[trigger] run_start(s, p, n) ==> positions@.contains(p as usize),
            forall|k1: int, k2: int|
                0 <= k1 < k2 < positions@.len() ==> positions@[k1] < positions@[k2],
            0 <= idx <= positions@.len(),
            0 <= last <= len,
            forall|k: int| idx <= k < positions@.len() ==> #[trigger] positions@[k] >= last,
            forall|k: int|
                0 <= k < idx ==> !redacted_run(s, n, uuid_aware, #[trigger] positions@[k] as int)
                    || positions@[k] + n <= last,
            out@ == goal.subrange(0, last as int),
        decreases positions@.len() - idx,
    {
        let p = positions[idx];
        let keep = uuid_aware && is_in_uuid(p, line);
        if !keep {
            proof {
                assert(redacted_run(s, n, uuid_aware, p as int));
                lemma_range_uncovered(
                    s,
                    n,
                    uuid_aware,
                    positions@,
                    idx as int,
                    last as int,
                    p as int,
                );
                assert forall|i: int| p <= i < p + n implies covered(s, n, uuid_aware, i)
                    && cover_start(s, n, uuid_aware, i) == p by {
                    lemma_cover_unique(s, n, uuid_aware, p as int, i);
                }
            }
            let ghost out_before = out@;
            out.append(line.as_str().substring_char(last, p));
            out.append(mask);
            proof {
                let stop = p + n;
                assert(out@.len() == stop);
                assert forall|i: int| 0 <= i < stop implies out@[i] == goal[i] by {
                    if i < last {
                        assert(out@[i] == out_before[i]);
                        assert(out_before[i] == goal.subrange(0, last as int)[i]);
                    } else if i < p {
                        assert(out@[i] == s.subrange(last as int, p as int)[i - last]);
                        assert(!covered(s, n, uuid_aware, i));
                    } else {
                        assert(out@[i] == mask@[i - p]);
                    }
                }
                assert(out@ =~= goal.subrange(0, stop));
            }
            last = p + num_digits;
        }
        idx = idx + 1;
        proof {
            assert forall|k: int|
                idx <= k < positions@.len() implies #[trigger] positions@[k] >= last by {
                if positions@[idx - 1] + num_digits == last {
                    lemma_runs_disjoint(s, n, positions@[idx - 1] as int, positions@[k] as int);
                }
            }
        }
    }
    let ghost out_before = out@;
    proof {
        lemma_range_uncovered(
            s,
            n,
            uuid_aware,
            positions@,
            positions@.len() as int,
            last as int,
            len as int,
        );
    }
    out.append(line.as_str().substring_char(last, len));
    proof {
        assert forall|i: int| 0 <= i < len implies out@[i] == goal[i] by {
            if i < last {
                assert(out@[i] == out_before[i]);
                assert(out_before[i] == goal.subrange(0, last as int)[i]);
            } else {
                assert(out@[i] == s.subrange(last as int, len as int)[i - last]);
                assert(!covered(s, n, uuid_aware, i));
            }
        }
        assert(out@ =~= goal);
    }
    out
}

/// A whole text after redaction: the text is cut at each `'\n'`, every
/// line is normalized to exactly one trailing `'\n'` and redacted on its
/// own, and the redacted lines are emitted in order.
pub fn redact_text(input: &str, num_digits: usize, mask: &str, uuid_aware: bool) -> (r: String)
    requires
        mask@.len() == num_digits,
    ensures
        r@ == text_redacted(input@, num_digits as int, mask@, uuid_aware),
    decreases input@.len(),
{
    let len = input.unicode_len();
    if len == 0 {
        return String::new();
    }
    let mut k: usize = 0;
    while k < len && input.get_char(k) != '\n'
        invariant
            len == input@.len(),
            0 <= k <= len,
            forall|j: int| 0 <= j < k ==> #[trigger] input@[j] != '\n',
        decreases len - k,
    {
        k = k + 1;
    }
    proof {
        lemma_first_newline_is(input@, k as int);
    }
    if k == len {
        let mut line = input.to_owned();
        line.append("\n");
        proof {
            reveal_strlit("\n");
            assert(line@ =~= input@.push('\n'));
        }
        redact_line(&line, num_digits, mask, uuid_aware)
    } else {
        let line = input.substring_char(0, k + 1).to_owned();
        let head = redact_line(&line, num_digits, mask, uuid_aware);
        let rest = input.substring_char(k + 1, len);
        let tail = redact_text(rest, num_digits, mask, uuid_aware);
        let result = head.concat(tail.as_str());
        proof {
            assert(result@ == text_redacted(input@, num_digits as int, mask@, uuid_aware));
        }
        result
    }
}

} // verus!
