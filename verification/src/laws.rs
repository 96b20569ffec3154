//! The properties the redaction promises, stated and proved over the
//! model: what is replaced and what is untouched, when a second pass is a
//! no-op, and why a canonical UUID's tail block survives.

use vstd::prelude::*;

use crate::masker::mask_width;
use crate::masker::star_mask;
use crate::model::covered;
use crate::model::cover_start;
use crate::model::in_uuid;
use crate::model::is_canonical_uuid;
use crate::model::is_digit_char;
use crate::model::is_hex_char;
use crate::model::lemma_cover_unique;
use crate::model::first_newline;
use crate::model::lemma_first_newline;
use crate::model::lemma_first_newline_is;
use crate::model::lemma_runs_through_position_equal;
use crate::model::line_redacted;
use crate::model::redacted_run;
use crate::model::run_start;
use crate::model::text_redacted;
use crate::model::uuid_at;
use crate::model::uuid_start_candidate;

verus! {

/// A covered position holds a digit of the line before redaction.
proof fn lemma_covered_is_digit(s: Seq<char>, n: int, aware: bool, i: int)
    requires
        covered(s, n, aware, i),
    ensures
        is_digit_char(s[i]),
        0 <= i < s.len(),
{
    let q = choose|q: int| #[trigger] redacted_run(s, n, aware, q) && q <= i < q + n;
    assert(is_digit_char(s[i]));
}

/// A character outside every replaced run — in particular every non-digit,
/// and every digit of a run whose length is not the configured one — is
/// returned unchanged.
pub proof fn lemma_untouched_outside_replaced_runs(
    s: Seq<char>,
    n: int,
    mask: Seq<char>,
    aware: bool,
    i: int,
)
    requires
        0 <= i < s.len(),
        !covered(s, n, aware, i),
    ensures
        line_redacted(s, n, mask, aware)[i] == s[i],
{
}

/// A non-digit character is never altered.
pub proof fn lemma_non_digit_untouched(s: Seq<char>, n: int, mask: Seq<char>, aware: bool, i: int)
    requires
        0 <= i < s.len(),
        !is_digit_char(s[i]),
    ensures
        line_redacted(s, n, mask, aware)[i] == s[i],
{
    if covered(s, n, aware, i) {
        lemma_covered_is_digit(s, n, aware, i);
    }
}

/// Each replaced run shows the mask token, character for character.
pub proof fn lemma_replaced_run_shows_mask(
    s: Seq<char>,
    n: int,
    mask: Seq<char>,
    aware: bool,
    p: int,
    j: int,
)
    requires
        redacted_run(s, n, aware, p),
        0 <= j < n,
    ensures
        line_redacted(s, n, mask, aware)[p + j] == mask[j],
{
    lemma_cover_unique(s, n, aware, p, p + j);
}

/// A maximal digit run of any other length is untouched.
pub proof fn lemma_other_length_runs_untouched(
    s: Seq<char>,
    n: int,
    mask: Seq<char>,
    aware: bool,
    m: int,
    p: int,
    i: int,
)
    requires
        run_start(s, p, m),
        m != n,
        p <= i < p + m,
    ensures
        line_redacted(s, n, mask, aware)[i] == s[i],
{
    if covered(s, n, aware, i) {
        let q = choose|q: int| #[trigger] redacted_run(s, n, aware, q) && q <= i < q + n;
        lemma_runs_through_position_equal(s, m, n, p, q, i);
    }
}

/// When every maximal run of the configured length is replaced by a mask
/// holding no digit, the result holds no such run at all any more.
pub proof fn lemma_all_runs_replaced_leaves_none(s: Seq<char>, n: int, mask: Seq<char>, aware: bool)
    requires
        mask.len() == n,
        1 <= n,
        forall|j: int| 0 <= j < n ==> !is_digit_char(#[trigger] mask[j]),
        forall|p: int| #[trigger] run_start(s, p, n) ==> redacted_run(s, n, aware, p),
    ensures
        forall|p: int| !run_start(line_redacted(s, n, mask, aware), p, n),
{
    let out = line_redacted(s, n, mask, aware);
    assert forall|p: int| !run_start(out, p, n) by {
        if run_start(out, p, n) {
            assert forall|i: int| p <= i < p + n implies !covered(s, n, aware, i) by {
                assert(is_digit_char(out[i]));
                if covered(s, n, aware, i) {
                    let q = choose|q: int| #[trigger] redacted_run(s, n, aware, q) && q <= i < q
                        + n;
                    lemma_cover_unique(s, n, aware, q, i);
                    assert(out[i] == mask[i - q]);
                }
            }
            assert forall|i: int| p <= i < p + n implies is_digit_char(#[trigger] s[i]) by {
                assert(!covered(s, n, aware, i));
                assert(is_digit_char(out[i]));
            }
            if p > 0 && covered(s, n, aware, p - 1) {
                let q = choose|q: int| #[trigger] redacted_run(s, n, aware, q) && q <= p - 1 < q
                    + n;
                if q + n > p {
                    assert(redacted_run(s, n, aware, q) && q <= p < q + n);
                    assert(covered(s, n, aware, p));
                } else {
                    assert(q + n == p);
                    assert(is_digit_char(s[p]));
                    assert(!is_digit_char(s[q + n]));
                }
            }
            if p + n < s.len() && covered(s, n, aware, p + n) {
                let q = choose|q: int| #[trigger] redacted_run(s, n, aware, q) && q <= p + n < q
                    + n;
                if q < p + n {
                    assert(redacted_run(s, n, aware, q) && q <= q < q + n);
                    assert(covered(s, n, aware, q));
                    assert(!covered(s, n, aware, q));
                } else {
                    assert(is_digit_char(s[p + n - 1]));
                    assert(!is_digit_char(s[q - 1]));
                }
            }
            assert(run_start(s, p, n));
            assert(redacted_run(s, n, aware, p));
            assert(redacted_run(s, n, aware, p) && p <= p < p + n);
            assert(covered(s, n, aware, p));
            assert(!covered(s, n, aware, p));
        }
    }
}

/// Once every run of the configured length has been replaced by a digit-free
/// mask of the same width, running any redaction with the same length and
/// mask over the result changes nothing.
pub proof fn lemma_line_redaction_idempotent(
    s: Seq<char>,
    n: int,
    mask: Seq<char>,
    aware: bool,
    aware2: bool,
)
    requires
        mask.len() == n,
        forall|j: int| 0 <= j < n ==> !is_digit_char(#[trigger] mask[j]),
        forall|p: int| #[trigger] run_start(s, p, n) ==> redacted_run(s, n, aware, p),
    ensures
        line_redacted(line_redacted(s, n, mask, aware), n, mask, aware2) == line_redacted(
            s,
            n,
            mask,
            aware,
        ),
{
    let out = line_redacted(s, n, mask, aware);
    if n < 1 {
        assert forall|i: int| 0 <= i < out.len() implies !covered(out, n, aware2, i) by {
            if covered(out, n, aware2, i) {
                let q = choose|q: int| #[trigger] redacted_run(out, n, aware2, q) && q <= i < q
                    + n;
            }
        }
    } else {
        lemma_all_runs_replaced_leaves_none(s, n, mask, aware);
        assert forall|i: int| 0 <= i < out.len() implies !covered(out, n, aware2, i) by {
            if covered(out, n, aware2, i) {
                let q = choose|q: int| #[trigger] redacted_run(out, n, aware2, q) && q <= i < q
                    + n;
                assert(run_start(out, q, n));
            }
        }
    }
    assert(line_redacted(out, n, mask, aware2) =~= out);
}

/// A covered position shows a character of the mask.
proof fn lemma_covered_mask_char(s: Seq<char>, n: int, mask: Seq<char>, aware: bool, i: int)
    requires
        covered(s, n, aware, i),
    ensures
        0 <= i - cover_start(s, n, aware, i) < n,
        0 <= i < s.len(),
        line_redacted(s, n, mask, aware)[i] == mask[i - cover_start(s, n, aware, i)],
{
    let q = choose|q: int| #[trigger] redacted_run(s, n, aware, q) && q <= i < q + n;
    lemma_cover_unique(s, n, aware, q, i);
}

/// Running the same digit-free mask a second time over a whole masked text
/// is a no-op: the first pass replaced every run of the configured length,
/// and masked tokens contain no digit runs.
pub proof fn lemma_text_redaction_idempotent(s: Seq<char>, n: int, mask: Seq<char>)
    requires
        mask.len() == n,
        forall|j: int| 0 <= j < n ==> !is_digit_char(#[trigger] mask[j]),
        forall|j: int| 0 <= j < n ==> #[trigger] mask[j] != '\n',
    ensures
        text_redacted(text_redacted(s, n, mask, false), n, mask, false) == text_redacted(
            s,
            n,
            mask,
            false,
        ),
    decreases s.len(),
{
    let out = text_redacted(s, n, mask, false);
    if s.len() == 0 {
        assert(out =~= Seq::<char>::empty());
    } else {
        let k = first_newline(s);
        lemma_first_newline(s);
        if k == s.len() {
            let line = s.push('\n');
            assert(out == line_redacted(line, n, mask, false));
            assert forall|j: int| 0 <= j < k implies #[trigger] out[j] != '\n' by {
                if covered(line, n, false, j) {
                    lemma_covered_mask_char(line, n, mask, false, j);
                } else {
                    assert(out[j] == line[j]);
                    assert(line[j] == s[j]);
                }
            }
            assert(line[k] == '\n');
            if covered(line, n, false, k) {
                lemma_covered_is_digit(line, n, false, k);
            }
            assert(out[k] == '\n');
            lemma_first_newline_is(out, k);
            assert(out.subrange(0, k + 1) =~= out);
            assert(out.subrange(k + 1, out.len() as int) =~= Seq::<char>::empty());
            lemma_line_redaction_idempotent(line, n, mask, false, false);
            assert(line_redacted(out, n, mask, false) == out);
            assert(text_redacted(out, n, mask, false) == line_redacted(
                out.subrange(0, k + 1),
                n,
                mask,
                false,
            ) + text_redacted(out.subrange(k + 1, out.len() as int), n, mask, false));
            assert(text_redacted(Seq::<char>::empty(), n, mask, false) == Seq::<char>::empty());
            assert(text_redacted(out, n, mask, false) =~= out);
        } else {
            let line = s.subrange(0, k + 1);
            let rest = s.subrange(k + 1, s.len() as int);
            let head = line_redacted(line, n, mask, false);
            let tail = text_redacted(rest, n, mask, false);
            assert(out == head + tail);
            assert(head.len() == k + 1);
            assert forall|j: int| 0 <= j < k implies #[trigger] head[j] != '\n' by {
                if covered(line, n, false, j) {
                    lemma_covered_mask_char(line, n, mask, false, j);
                } else {
                    assert(head[j] == line[j]);
                    assert(line[j] == s[j]);
                }
            }
            assert(line[k] == s[k] && s[k] == '\n');
            if covered(line, n, false, k) {
                lemma_covered_is_digit(line, n, false, k);
            }
            assert(head[k] == '\n');
            assert forall|j: int| 0 <= j < k implies #[trigger] out[j] != '\n' by {
                assert(out[j] == head[j]);
            }
            assert(out[k] == head[k]);
            lemma_first_newline_is(out, k);
            assert(out.subrange(0, k + 1) =~= head);
            assert(out.subrange(k + 1, out.len() as int) =~= tail);
            lemma_line_redaction_idempotent(line, n, mask, false, false);
            lemma_text_redaction_idempotent(rest, n, mask);
            assert(text_redacted(out, n, mask, false) == line_redacted(head, n, mask, false)
                + text_redacted(tail, n, mask, false));
            assert(text_redacted(out, n, mask, false) =~= out);
        }
    }
}

/// A hexadecimal digit is neither a hyphen nor a newline.
proof fn lemma_hex_not_special(c: char)
    requires
        is_hex_char(c),
    ensures
        c != '-',
        c != '\n',
{
}

/// The UUID-boundary law: a maximal run of exactly ten digits that starts
/// zero, one or two characters into the final hex block of a canonical
/// UUID embedded in the line is recognised by the guard.
pub proof fn lemma_run_in_uuid_tail_guarded(s: Seq<char>, u: int, p: int)
    requires
        uuid_at(s, u),
        run_start(s, p, 10),
        u + 24 <= p <= u + 26,
    ensures
        in_uuid(s, p),
{
    let w = s.subrange(u, u + 36);
    assert(s[u + 21] == w[21] && s[u + 22] == w[22] && s[u + 23] == w[23]);
    assert(w[23] == '-');
    lemma_hex_not_special(w[21]);
    lemma_hex_not_special(w[22]);
    if p == u + 24 {
        assert(s[p - 3] != '-' && s[p - 2] != '-' && s[p - 1] == '-');
        assert(uuid_start_candidate(s, p) == Some(u));
    } else if p == u + 25 {
        assert(s[p - 3] != '-' && s[p - 2] == '-');
        assert(uuid_start_candidate(s, p) == Some(u));
    } else {
        assert(s[p - 3] == '-');
        assert(uuid_start_candidate(s, p) == Some(u));
    }
}

/// A line consisting of exactly one canonical UUID is returned unchanged
/// by a UUID-aware ten-digit redaction, whatever ten-character mask is
/// configured: every ten-digit run such a line can hold lies in the tail
/// hex block and is recognised by the guard.
pub proof fn lemma_uuid_line_not_redacted(u: Seq<char>, mask: Seq<char>)
    requires
        is_canonical_uuid(u),
        mask.len() == 10,
    ensures
        text_redacted(u, 10, mask, true) == u.push('\n'),
{
    let s = u.push('\n');
    assert forall|j: int| 0 <= j < 36 implies #[trigger] u[j] != '\n' by {
        if j != 8 && j != 13 && j != 18 && j != 23 {
            lemma_hex_not_special(u[j]);
        }
    }
    lemma_first_newline_is(u, 36);
    assert(s.subrange(0, 36) =~= u);
    assert(uuid_at(s, 0));
    assert forall|p: int| #[trigger] run_start(s, p, 10) implies in_uuid(s, p) by {
        if p <= 8 {
            assert(is_digit_char(s[8]) && s[8] == u[8]);
        } else if p <= 13 {
            assert(is_digit_char(s[13]) && s[13] == u[13]);
        } else if p <= 18 {
            assert(is_digit_char(s[18]) && s[18] == u[18]);
        } else if p <= 23 {
            assert(is_digit_char(s[23]) && s[23] == u[23]);
        } else if p >= 27 {
            assert(p == 27);
            assert(is_digit_char(s[36]));
        } else {
            lemma_run_in_uuid_tail_guarded(s, 0, p);
        }
    }
    assert forall|i: int| 0 <= i < s.len() implies !covered(s, 10, true, i) by {
        if covered(s, 10, true, i) {
            let q = choose|q: int| #[trigger] redacted_run(s, 10, true, q) && q <= i < q + 10;
            assert(run_start(s, q, 10));
            assert(in_uuid(s, q));
        }
    }
    assert(line_redacted(s, 10, mask, true) =~= s);
    assert(text_redacted(u, 10, mask, true) == line_redacted(s, 10, mask, true));
}

/// The masker is idempotent: masking already-masked text again, with the
/// same run length, changes nothing, since a star mask holds no digits.
pub proof fn lemma_masker_idempotent(s: Seq<char>, num_digits: i32)
    ensures
        text_redacted(
            text_redacted(s, mask_width(num_digits), star_mask(mask_width(num_digits)), false),
            mask_width(num_digits),
            star_mask(mask_width(num_digits)),
            false,
        ) == text_redacted(s, mask_width(num_digits), star_mask(mask_width(num_digits)), false),
{
    let w = mask_width(num_digits);
    let m = star_mask(w);
    assert forall|j: int| 0 <= j < w implies !is_digit_char(#[trigger] m[j]) && m[j] != '\n' by {
        assert(m[j] == '*');
    }
    lemma_text_redaction_idempotent(s, w, m);
}

/// On a line none of whose ten-digit runs the UUID guard protects, the
/// ten-digit redactor is idempotent: its mask token holds no digit run.
/// (When a protected run survives next to a replaced one, a second pass
/// can see a different line around the survivor, so no more is claimed.)
pub proof fn lemma_redactor_line_idempotent(s: Seq<char>)
    requires
        forall|p: int| #[trigger] run_start(s, p, 10) ==> !in_uuid(s, p),
    ensures
        line_redacted(line_redacted(s, 10, "[REDACTED]"@, true), 10, "[REDACTED]"@, true)
            == line_redacted(s, 10, "[REDACTED]"@, true),
{
    reveal_strlit("[REDACTED]");
    let m = "[REDACTED]"@;
    assert(m.len() == 10);
    assert forall|j: int| 0 <= j < 10 implies !is_digit_char(#[trigger] m[j]) by {
        if j == 0 {
            assert(m[j] == '[');
        } else if j == 1 {
            assert(m[j] == 'R');
        } else if j == 2 {
            assert(m[j] == 'E');
        } else if j == 3 {
            assert(m[j] == 'D');
        } else if j == 4 {
            assert(m[j] == 'A');
        } else if j == 5 {
            assert(m[j] == 'C');
        } else if j == 6 {
            assert(m[j] == 'T');
        } else if j == 7 {
            assert(m[j] == 'E');
        } else if j == 8 {
            assert(m[j] == 'D');
        } else {
            assert(m[j] == ']');
        }
    }
    lemma_line_redaction_idempotent(s, 10, m, true, true);
}

} // verus!
