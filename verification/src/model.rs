//! The mathematical model: what counts as a digit run, what the canonical
//! UUID grammar is, how the guard inspects a candidate run, and what the
//! redacted form of a line and of a whole text is.

use vstd::prelude::*;

verus! {

/// The ASCII decimal digits `'0'` through `'9'`.
pub open spec fn is_digit_char(c: char) -> bool {
    48 <= c as u32 && c as u32 <= 57
}

/// Case-insensitive ASCII hexadecimal digits.
pub open spec fn is_hex_char(c: char) -> bool {
    is_digit_char(c) || (97 <= c as u32 && c as u32 <= 102) || (65 <= c as u32 && c as u32 <= 70)
}

/// `p` starts a maximal run of exactly `n` decimal digits in `s`: the `n`
/// characters at `[p, p + n)` are digits and the neighbouring characters,
/// where they exist, are not.
pub open spec fn run_start(s: Seq<char>, p: int, n: int) -> bool {
    &&& 0 <= p
    &&& p + n <= s.len()
    &&& forall|j: int| p <= j < p + n ==> is_digit_char(#[trigger] s[j])
    &&& (p == 0 || !is_digit_char(s[p - 1]))
    &&& (p + n == s.len() || !is_digit_char(s[p + n]))
}

/// The canonical hyphenated UUID grammar: 36 characters, hyphens exactly at
/// offsets 8, 13, 18 and 23, hexadecimal digits everywhere else.  The 24
/// characters before the final hex block are its prefix:
/// 8 + 1 + 4 + 1 + 4 + 1 + 4 + 1.
pub open spec fn is_canonical_uuid(u: Seq<char>) -> bool {
    &&& u.len() == 36
    &&& forall|i: int|
        0 <= i < 36 ==> (if i == 8 || i == 13 || i == 18 || i == 23 {
            #[trigger] u[i] == '-'
        } else {
            is_hex_char(u[i])
        })
}

/// A canonical UUID occupies `[start, start + 36)` of `s`.
pub open spec fn uuid_at(s: Seq<char>, start: int) -> bool {
    &&& 0 <= start
    &&& start + 36 <= s.len()
    &&& is_canonical_uuid(s.subrange(start, start + 36))
}

/// Where the last block of a hypothesized UUID would begin, given a digit
/// run starting at `pos`.  The guard reads the up-to-three characters just
/// before the run, nearest-to-window-start first: the run may begin zero,
/// one or two characters into the 12-character final block, so the hyphen
/// introducing that block can sit at `pos - 3`, `pos - 2` or `pos - 1`.
/// Reading past the end of the line, or a hyphen too close to the start of
/// the line for a full UUID prefix, yields no candidate.
pub open spec fn uuid_start_candidate(s: Seq<char>, pos: int) -> Option<int> {
    if pos - 3 < s.len() && s[pos - 3] == '-' {
        if pos - 2 >= 24 {
            Some(pos - 2 - 24)
        } else {
            None
        }
    } else if pos - 2 < s.len() && s[pos - 2] == '-' {
        if pos - 1 >= 24 {
            Some(pos - 1 - 24)
        } else {
            None
        }
    } else if pos - 1 < s.len() && s[pos - 1] == '-' {
        Some(pos - 24)
    } else {
        None
    }
}

/// The guard: the digit run starting at `pos` overlaps the trailing hex
/// block of a syntactically valid canonical UUID.  Any out-of-range index
/// or malformed candidate resolves to `false`.
pub open spec fn in_uuid(s: Seq<char>, pos: int) -> bool {
    &&& pos >= 24
    &&& match uuid_start_candidate(s, pos) {
        Some(start) => uuid_at(s, start),
        None => false,
    }
}

/// A run that the redaction replaces: a maximal run of exactly `n` digits
/// which, when the redaction is UUID-aware, the guard does not protect.
pub open spec fn redacted_run(s: Seq<char>, n: int, aware: bool, p: int) -> bool {
    run_start(s, p, n) && (aware ==> !in_uuid(s, p))
}

/// Character position `i` falls inside some replaced run.
pub open spec fn covered(s: Seq<char>, n: int, aware: bool, i: int) -> bool {
    exists|p: int| #[trigger] redacted_run(s, n, aware, p) && p <= i < p + n
}

/// The start of the replaced run containing position `i`.
pub open spec fn cover_start(s: Seq<char>, n: int, aware: bool, i: int) -> int {
    choose|p: int| #[trigger] redacted_run(s, n, aware, p) && p <= i < p + n
}

/// One line after redaction: characters inside a replaced run show the mask
/// token, character for character; every other character is unchanged.
/// The mask token has the same width as the runs it replaces, so positions
/// do not shift.
pub open spec fn line_redacted(s: Seq<char>, n: int, mask: Seq<char>, aware: bool) -> Seq<char>
    recommends
        mask.len() == n,
{
    Seq::new(
        s.len(),
        |i: int|
            if covered(s, n, aware, i) {
                mask[i - cover_start(s, n, aware, i)]
            } else {
                s[i]
            },
    )
}

/// Index of the first `'\n'` in `s`, or `s.len()` when there is none.
pub open spec fn first_newline(s: Seq<char>) -> int
    decreases s.len(),
{
    if s.len() == 0 {
        0
    } else if s[0] == '\n' {
        0
    } else {
        1 + first_newline(s.drop_first())
    }
}

/// A whole text after redaction.  The text is cut at each `'\n'`; every
/// line is given exactly one trailing `'\n'` (restoring one at the end of
/// an unterminated final line) and redacted on its own, and the results are
/// concatenated in order.
pub open spec fn text_redacted(s: Seq<char>, n: int, mask: Seq<char>, aware: bool) -> Seq<char>
    recommends
        mask.len() == n,
    decreases s.len(),
{
    if s.len() == 0 {
        Seq::empty()
    } else {
        let k = first_newline(s);
        if k == s.len() {
            line_redacted(s.push('\n'), n, mask, aware)
        } else {
            proof {
                lemma_first_newline(s);
            }
            line_redacted(s.subrange(0, k + 1), n, mask, aware) + text_redacted(
                s.subrange(k + 1, s.len() as int),
                n,
                mask,
                aware,
            )
        }
    }
}

/// `first_newline` indeed names the first newline: everything before it is
/// another character, and it is a newline unless the text has none.
pub proof fn lemma_first_newline(s: Seq<char>)
    ensures
        0 <= first_newline(s) <= s.len(),
        first_newline(s) < s.len() ==> s[first_newline(s)] == '\n',
        forall|j: int| 0 <= j < first_newline(s) ==> #[trigger] s[j] != '\n',
    decreases s.len(),
{
    if s.len() != 0 && s[0] != '\n' {
        lemma_first_newline(s.drop_first());
        assert forall|j: int| 0 <= j < first_newline(s) implies #[trigger] s[j] != '\n' by {
            if j > 0 {
                assert(s.drop_first()[j - 1] != '\n');
            }
        }
    }
}

/// A position before which there is no `'\n'`, and which holds one unless
/// it is the end of the text, is exactly `first_newline`.
pub proof fn lemma_first_newline_is(s: Seq<char>, k: int)
    requires
        0 <= k <= s.len(),
        forall|j: int| 0 <= j < k ==> #[trigger] s[j] != '\n',
        k < s.len() ==> s[k] == '\n',
    ensures
        first_newline(s) == k,
    decreases s.len(),
{
    if s.len() > 0 && s[0] != '\n' {
        assert(k >= 1);
        assert(forall|j: int| 0 <= j < k - 1 ==> #[trigger] s.drop_first()[j] != '\n');
        lemma_first_newline_is(s.drop_first(), k - 1);
    }
}

/// Two distinct maximal runs of the same length cannot overlap: the one
/// further left ends before the other begins.
pub proof fn lemma_runs_disjoint(s: Seq<char>, n: int, p1: int, p2: int)
    requires
        run_start(s, p1, n),
        run_start(s, p2, n),
        p1 < p2,
    ensures
        p1 + n <= p2,
{
    if p2 < p1 + n {
        assert(is_digit_char(s[p2 - 1]));
    }
}

/// Two maximal runs through the same position coincide, whatever their
/// lengths.
pub proof fn lemma_runs_through_position_equal(s: Seq<char>, m: int, n: int, p: int, q: int, i: int)
    requires
        run_start(s, p, m),
        run_start(s, q, n),
        p <= i < p + m,
        q <= i < q + n,
    ensures
        p == q,
        m == n,
{
    if p < q {
        assert(is_digit_char(s[q - 1]));
    }
    if q < p {
        assert(is_digit_char(s[p - 1]));
    }
    if m < n {
        assert(is_digit_char(s[p + m]));
    }
    if n < m {
        assert(is_digit_char(s[q + n]));
    }
}

/// A position inside a replaced run is covered by that run and no other.
pub proof fn lemma_cover_unique(s: Seq<char>, n: int, aware: bool, p: int, i: int)
    requires
        redacted_run(s, n, aware, p),
        p <= i < p + n,
    ensures
        covered(s, n, aware, i),
        cover_start(s, n, aware, i) == p,
{
    assert(redacted_run(s, n, aware, p) && p <= i < p + n);
    let q = cover_start(s, n, aware, i);
    lemma_runs_through_position_equal(s, n, n, p, q, i);
}

} // verus!
