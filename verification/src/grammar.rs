//! The mathematical model of the escape-sequence grammar: which byte spans
//! of a buffer form escape sequences, and where a left-to-right scan finds
//! them. The executable matcher is specified against these functions.

use vstd::prelude::*;

verus! {

/// An introducer byte: ESC (0x1b) or the single-byte CSI (0x9b).
pub open spec fn is_intro_byte(b: u8) -> bool {
    b == 0x1b || b == 0x9b
}

/// A private-marker byte: one of `(` `)` `#` `;` `?`.
pub open spec fn is_marker_byte(b: u8) -> bool {
    b == 0x28 || b == 0x29 || b == 0x23 || b == 0x3b || b == 0x3f
}

/// An ASCII digit `0`-`9`.
pub open spec fn is_digit_byte(b: u8) -> bool {
    0x30 <= b && b <= 0x39
}

/// A terminating byte: `0`-`9`, `A`-`O`, `R`, `Z`, `c`-`n`, `q`, `r`, `y`,
/// `=`, `<`, `>`. The set is non-contiguous and idiosyncratic on purpose: it
/// is inherited from the pattern existing terminal output was produced
/// against, and altering it would change which sequences are recognized.
pub open spec fn is_term_byte(b: u8) -> bool {
    ||| is_digit_byte(b)
    ||| 0x41 <= b && b <= 0x4f
    ||| b == 0x52
    ||| b == 0x5a
    ||| 0x63 <= b && b <= 0x6e
    ||| b == 0x71
    ||| b == 0x72
    ||| b == 0x79
    ||| b == 0x3d
    ||| b == 0x3c
    ||| b == 0x3e
}

/// The position of the first byte at or after `j` that is not a
/// private-marker byte (or the end of the buffer).
pub open spec fn skip_markers(s: Seq<u8>, j: int) -> int
    decreases s.len() - j,
{
    if j < s.len() && is_marker_byte(s[j]) {
        skip_markers(s, j + 1)
    } else {
        j
    }
}

proof fn lemma_skip_markers_bounds(s: Seq<u8>, j: int)
    requires
        j <= s.len(),
    ensures
        j <= skip_markers(s, j) <= s.len(),
    decreases s.len() - j,
{
    if j < s.len() && is_marker_byte(s[j]) {
        lemma_skip_markers_bounds(s, j + 1);
    }
}

/// How many consecutive ASCII digits stand at `j`, counting at most `cap`
/// of them.
pub open spec fn digit_run_upto(s: Seq<u8>, j: int, cap: int) -> int
    decreases cap,
{
    if cap > 0 && j < s.len() && is_digit_byte(s[j]) {
        1 + digit_run_upto(s, j + 1, cap - 1)
    } else {
        0
    }
}

pub proof fn lemma_digit_run_upto_bounds(s: Seq<u8>, j: int, cap: int)
    requires
        j <= s.len(),
        0 <= cap,
    ensures
        0 <= digit_run_upto(s, j, cap) <= cap,
        j + digit_run_upto(s, j, cap) <= s.len(),
    decreases cap,
{
    if cap > 0 && j < s.len() && is_digit_byte(s[j]) {
        lemma_digit_run_upto_bounds(s, j + 1, cap - 1);
    }
}

/// Where a match ends once its leading digit group (if any) has been
/// consumed: the end position of `(?:;[0-9]{0,4})*` followed by one
/// terminating byte, matched at `u` the way a leftmost-first regex engine
/// matches it. Each `;` opens a further group of up to four digits, taken
/// greedily; when nothing valid follows a non-empty group, the engine
/// backtracks one digit, and that digit (every digit is a terminating byte)
/// closes the sequence -- hence `Some(u + 1 + f)` when the recursive match
/// fails after a group of `f >= 1` digits.
pub open spec fn star_end(s: Seq<u8>, u: int) -> Option<int>
    decreases s.len() - u,
{
    if u < s.len() && s[u] == 0x3b {
        let f = digit_run_upto(s, u + 1, 4);
        if f >= 1 {
            proof {
                lemma_digit_run_upto_bounds(s, u + 1, 4);
            }
            match star_end(s, u + 1 + f) {
                Some(e) => Some(e),
                None => Some(u + 1 + f),
            }
        } else {
            star_end(s, u + 1)
        }
    } else if u < s.len() && is_term_byte(s[u]) {
        Some(u + 1)
    } else {
        None
    }
}

proof fn lemma_star_end_bounds(s: Seq<u8>, u: int)
    requires
        u <= s.len(),
    ensures
        star_end(s, u) matches Some(e) ==> u < e <= s.len(),
    decreases s.len() - u,
{
    if u < s.len() && s[u] == 0x3b {
        lemma_digit_run_upto_bounds(s, u + 1, 4);
        let f = digit_run_upto(s, u + 1, 4);
        if f >= 1 {
            lemma_star_end_bounds(s, u + 1 + f);
        } else {
            lemma_star_end_bounds(s, u + 1);
        }
    }
}

/// Where the escape sequence starting at `i` ends, if the grammar matches
/// there: the two introducer bytes, the maximal run of private markers, the
/// greedily matched leading digit group, and the rest of the parameter block
/// with its terminating byte per `star_end`. A failed `star_end` after `m >=
/// 1` leading digits backtracks one digit, whose own occurrence as a
/// terminating byte closes the sequence at `q + m`.
pub open spec fn match_end_at(s: Seq<u8>, i: int) -> Option<int> {
    if i + 1 < s.len() && is_intro_byte(s[i]) && s[i + 1] == 0x5b {
        let q = skip_markers(s, i + 2);
        let m = digit_run_upto(s, q, 4);
        if m >= 1 {
            match star_end(s, q + m) {
                Some(e) => Some(e),
                None => Some(q + m),
            }
        } else {
            star_end(s, q)
        }
    } else {
        None
    }
}

pub proof fn lemma_match_end_bounds(s: Seq<u8>, i: int)
    ensures
        match_end_at(s, i) matches Some(e) ==> i + 2 < e <= s.len(),
{
    if i + 1 < s.len() && is_intro_byte(s[i]) && s[i + 1] == 0x5b {
        lemma_skip_markers_bounds(s, i + 2);
        let q = skip_markers(s, i + 2);
        lemma_digit_run_upto_bounds(s, q, 4);
        let m = digit_run_upto(s, q, 4);
        if m >= 1 {
            lemma_star_end_bounds(s, q + m);
        } else {
            lemma_star_end_bounds(s, q);
        }
    }
}

/// Every match of the grammar from position `i` on, scanning left to right:
/// at each position the grammar is tried; on success the span is emitted and
/// the scan resumes immediately after it, on failure the scan advances one
/// byte.
pub open spec fn scan_from(s: Seq<u8>, i: int) -> Seq<(int, int)>
    decreases s.len() - i,
{
    if i >= s.len() {
        Seq::empty()
    } else {
        match match_end_at(s, i) {
            Some(e) => {
                proof {
                    lemma_match_end_bounds(s, i);
                }
                seq![(i, e)] + scan_from(s, e)
            },
            None => scan_from(s, i + 1),
        }
    }
}

/// Every match of the grammar in `s`, in scan order.
pub open spec fn scan(s: Seq<u8>) -> Seq<(int, int)> {
    scan_from(s, 0)
}

proof fn lemma_scan_from_ordered(s: Seq<u8>, i: int)
    requires
        0 <= i <= s.len(),
    ensures
        forall|j: int|
            0 <= j < scan_from(s, i).len() ==> i <= (#[trigger] scan_from(s, i)[j]).0
                && scan_from(s, i)[j].0 < scan_from(s, i)[j].1 <= s.len(),
        forall|j: int|
            0 <= j < scan_from(s, i).len() - 1 ==> (#[trigger] scan_from(s, i)[j]).1 <= scan_from(
                s,
                i,
            )[j + 1].0,
    decreases s.len() - i,
{
    if i < s.len() {
        lemma_match_end_bounds(s, i);
        if let Some(e) = match_end_at(s, i) {
            lemma_scan_from_ordered(s, e);
            assert(scan_from(s, i) == seq![(i, e)] + scan_from(s, e));
            assert forall|j: int| 0 <= j < scan_from(s, i).len() implies i <= (
            #[trigger] scan_from(s, i)[j]).0 && scan_from(s, i)[j].0 < scan_from(s, i)[j].1
                <= s.len() by {
                if j > 0 {
                    assert(scan_from(s, i)[j] == scan_from(s, e)[j - 1]);
                }
            }
            assert forall|j: int| 0 <= j < scan_from(s, i).len() - 1 implies (
            #[trigger] scan_from(s, i)[j]).1 <= scan_from(s, i)[j + 1].0 by {
                if j == 0 {
                    assert(scan_from(s, i)[1] == scan_from(s, e)[0]);
                } else {
                    assert(scan_from(s, i)[j] == scan_from(s, e)[j - 1]);
                    assert(scan_from(s, i)[j + 1] == scan_from(s, e)[j]);
                }
            }
        } else {
            lemma_scan_from_ordered(s, i + 1);
            assert(scan_from(s, i) == scan_from(s, i + 1));
        }
    }
}

/// Matches are yielded in strictly increasing start order and never overlap:
/// every match is a non-empty span inside the buffer, and each match ends no
/// later than the one immediately following it starts.
pub proof fn lemma_scan_ordered(s: Seq<u8>)
    ensures
        forall|j: int|
            0 <= j < scan(s).len() ==> 0 <= (#[trigger] scan(s)[j]).0 && scan(s)[j].0 < scan(
                s,
            )[j].1 <= s.len(),
        forall|j: int|
            0 <= j < scan(s).len() - 1 ==> (#[trigger] scan(s)[j]).1 <= scan(s)[j + 1].0,
{
    lemma_scan_from_ordered(s, 0);
}

proof fn lemma_scan_from_no_intro(s: Seq<u8>, i: int)
    requires
        0 <= i <= s.len(),
        forall|k: int| 0 <= k < s.len() ==> !is_intro_byte(#[trigger] s[k]),
    ensures
        scan_from(s, i) == Seq::<(int, int)>::empty(),
    decreases s.len() - i,
{
    if i < s.len() {
        assert(!is_intro_byte(s[i]));
        lemma_scan_from_no_intro(s, i + 1);
    }
}

/// A buffer that holds no introducer byte holds no escape sequence: its scan
/// is the empty sequence.
pub proof fn lemma_scan_no_intro_empty(s: Seq<u8>)
    requires
        forall|k: int| 0 <= k < s.len() ==> !is_intro_byte(#[trigger] s[k]),
    ensures
        scan(s) == Seq::<(int, int)>::empty(),
{
    lemma_scan_from_no_intro(s, 0);
}

/// Whether position `k` of `s` lies inside some matched span of the scan of
/// `s`.
pub open spec fn in_matched_span(s: Seq<u8>, k: int) -> bool {
    exists|j: int| 0 <= j < scan(s).len() && (#[trigger] scan(s)[j]).0 <= k < scan(s)[j].1
}

/// The bytes of `s` from position `k` on that lie in no matched span.
pub open spec fn strip_from(s: Seq<u8>, k: int) -> Seq<u8>
    decreases s.len() - k,
{
    if k >= s.len() {
        Seq::empty()
    } else if in_matched_span(s, k) {
        strip_from(s, k + 1)
    } else {
        seq![s[k]] + strip_from(s, k + 1)
    }
}

/// `s` with every matched span of its scan removed.
pub open spec fn strip_matches(s: Seq<u8>) -> Seq<u8> {
    strip_from(s, 0)
}

proof fn lemma_strip_from_no_intro(s: Seq<u8>, k: int)
    requires
        0 <= k,
        forall|t: int| 0 <= t < s.len() && is_intro_byte(#[trigger] s[t]) ==> in_matched_span(s, t),
    ensures
        forall|j: int|
            0 <= j < strip_from(s, k).len() ==> !is_intro_byte(#[trigger] strip_from(s, k)[j]),
    decreases s.len() - k,
{
    if k < s.len() {
        lemma_strip_from_no_intro(s, k + 1);
        if !in_matched_span(s, k) {
            assert(strip_from(s, k) == seq![s[k]] + strip_from(s, k + 1));
            assert forall|j: int| 0 <= j < strip_from(s, k).len() implies !is_intro_byte(
                #[trigger] strip_from(s, k)[j],
            ) by {
                if j > 0 {
                    assert(strip_from(s, k)[j] == strip_from(s, k + 1)[j - 1]);
                }
            }
        }
    }
}

/// Stripping is idempotent when every introducer byte of the buffer lies
/// inside some matched span: removing all matched spans then leaves a buffer
/// whose scan finds nothing. (Without that premise the bytes on either side
/// of a removed span can combine into a fresh sequence: an unmatched ESC
/// followed by the remainder `[0m` of a removed span, say.)
pub proof fn lemma_strip_rescan_empty(s: Seq<u8>)
    requires
        forall|k: int| 0 <= k < s.len() && is_intro_byte(#[trigger] s[k]) ==> in_matched_span(s, k),
    ensures
        scan(strip_matches(s)) == Seq::<(int, int)>::empty(),
{
    lemma_strip_from_no_intro(s, 0);
    lemma_scan_no_intro_empty(strip_matches(s));
}

} // verus!
