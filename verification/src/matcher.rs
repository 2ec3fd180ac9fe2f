//! The executable matcher: a lazy, forward-only scan of a borrowed byte
//! buffer, yielding each recognized escape sequence as a [`Match`], proved to
//! find exactly the spans that [`crate::grammar::scan`] describes.

use vstd::prelude::*;
use vstd::slice::slice_subrange;

use crate::grammar::{
    digit_run_upto, is_digit_byte, is_intro_byte, is_marker_byte, is_term_byte,
    lemma_match_end_bounds, match_end_at, scan, scan_from, skip_markers, star_end,
};

verus! {

fn is_intro(b: u8) -> (r: bool)
    ensures
        r == is_intro_byte(b),
{
    b == 0x1b || b == 0x9b
}

fn is_marker(b: u8) -> (r: bool)
    ensures
        r == is_marker_byte(b),
{
    b == 0x28 || b == 0x29 || b == 0x23 || b == 0x3b || b == 0x3f
}

fn is_digit(b: u8) -> (r: bool)
    ensures
        r == is_digit_byte(b),
{
    0x30 <= b && b <= 0x39
}

fn is_term(b: u8) -> (r: bool)
    ensures
        r == is_term_byte(b),
{
    (0x30 <= b && b <= 0x39) || (0x41 <= b && b <= 0x4f) || b == 0x52 || b == 0x5a || (0x63 <= b
        && b <= 0x6e) || b == 0x71 || b == 0x72 || b == 0x79 || b == 0x3d || b == 0x3c || b == 0x3e
}

fn skip_markers_exec(text: &[u8], j: usize) -> (r: usize)
    requires
        j <= text@.len(),
    ensures
        r as int == skip_markers(text@, j as int),
        j <= r && r as int <= text@.len(),
{
    let mut k = j;
    while k < text.len() && is_marker(text[k])
        invariant
            j <= k && k as int <= text@.len(),
            skip_markers(text@, j as int) == skip_markers(text@, k as int),
        decreases text@.len() - k,
    {
        assert(skip_markers(text@, k as int) == skip_markers(text@, k as int + 1));
        k = k + 1;
    }
    assert(skip_markers(text@, k as int) == k as int);
    k
}

fn digit_run_upto4(text: &[u8], j: usize) -> (r: usize)
    requires
        j <= text@.len(),
    ensures
        r as int == digit_run_upto(text@, j as int, 4),
        r <= 4,
        j + r <= text@.len(),
{
    let mut c: usize = 0;
    let mut k = j;
    while c < 4 && k < text.len() && is_digit(text[k])
        invariant
            c <= 4,
            k == j + c,
            k as int <= text@.len(),
            digit_run_upto(text@, j as int, 4) == c + digit_run_upto(text@, k as int, 4 - c),
        decreases 4 - c,
    {
        assert(digit_run_upto(text@, k as int, 4 - c) == 1 + digit_run_upto(
            text@,
            k as int + 1,
            4 - (c + 1),
        ));
        c = c + 1;
        k = k + 1;
    }
    assert(digit_run_upto(text@, k as int, 4 - c) == 0);
    c
}

spec fn opt_end(r: Option<usize>) -> Option<int> {
    match r {
        Some(e) => Some(e as int),
        None => None,
    }
}

spec fn or_else(a: Option<int>, b: Option<int>) -> Option<int> {
    if a is Some {
        a
    } else {
        b
    }
}

fn star_end_exec(text: &[u8], u: usize) -> (r: Option<usize>)
    requires
        u <= text@.len(),
    ensures
        opt_end(r) == star_end(text@, u as int),
{
    let mut v = u;
    let mut fb: Option<usize> = None;
    loop
        invariant
            u <= v && v as int <= text@.len(),
            or_else(star_end(text@, v as int), opt_end(fb)) == star_end(text@, u as int),
        decreases text@.len() - v,
    {
        if v < text.len() && text[v] == 0x3b {
            let f = digit_run_upto4(text, v + 1);
            if f >= 1 {
                assert(star_end(text@, v as int) == or_else(
                    star_end(text@, v + 1 + f),
                    Some((v + 1 + f) as int),
                ));
                fb = Some(v + 1 + f);
                v = v + 1 + f;
            } else {
                assert(star_end(text@, v as int) == star_end(text@, v as int + 1));
                v = v + 1;
            }
        } else if v < text.len() && is_term(text[v]) {
            assert(star_end(text@, v as int) == Some(v as int + 1));
            return Some(v + 1);
        } else {
            assert(star_end(text@, v as int) is None);
            return fb;
        }
    }
}

fn match_end_at_exec(text: &[u8], i: usize) -> (r: Option<usize>)
    requires
        i < text@.len(),
    ensures
        opt_end(r) == match_end_at(text@, i as int),
{
    let n = text.len();
    if i + 1 < n && is_intro(text[i]) && text[i + 1] == 0x5b {
        let q = skip_markers_exec(text, i + 2);
        let m = digit_run_upto4(text, q);
        if m >= 1 {
            match star_end_exec(text, q + m) {
                Some(e) => Some(e),
                None => Some(q + m),
            }
        } else {
            star_end_exec(text, q)
        }
    } else {
        None
    }
}

/// One recognized escape sequence: its span `[start, end)` in the scanned
/// buffer, and the bytes of that span.
pub struct Match<'a> {
    pub start: usize,
    pub end: usize,
    pub bytes: &'a [u8],
}

impl<'a> Match<'a> {
    /// The byte offset at which the sequence begins.
    pub fn start(&self) -> (r: usize)
        ensures
            r == self.start,
    {
        self.start
    }

    /// The byte offset just past the sequence's terminating byte.
    pub fn end(&self) -> (r: usize)
        ensures
            r == self.end,
    {
        self.end
    }

    /// The raw bytes of the matched span.
    pub fn as_bytes(&self) -> (r: &'a [u8])
        ensures
            r@ == self.bytes@,
    {
        self.bytes
    }
}

/// The span of a match as a pair of mathematical offsets.
pub open spec fn span_of(m: Match<'_>) -> (int, int) {
    (m.start as int, m.end as int)
}

/// The spans of a sequence of matches.
pub open spec fn spans(ms: Seq<Match<'_>>) -> Seq<(int, int)> {
    ms.map_values(|m: Match<'_>| span_of(m))
}

/// A lazy, forward-only scan over one borrowed buffer. Each call of `next`
/// computes at most one further match; dropping the value abandons the rest
/// of the scan at no cost.
pub struct Matches<'a> {
    text: &'a [u8],
    pos: usize,
}

impl<'a> Matches<'a> {
    /// The buffer being scanned.
    pub closed spec fn buf(self) -> Seq<u8> {
        self.text@
    }

    /// The scan cursor: matching resumes at this position.
    pub closed spec fn cursor(self) -> int {
        self.pos as int
    }

    /// The cursor never passes the end of the buffer.
    pub closed spec fn wf(self) -> bool {
        self.pos as int <= self.text@.len()
    }

    /// Yields the next match at or after the cursor, advancing the cursor to
    /// just past it; `None` once no match remains, the cursor then standing
    /// at the end of the buffer. The matches so yielded are exactly
    /// `scan(buf)`, in order.
    pub fn next(&mut self) -> (r: Option<Match<'a>>)
        requires
            old(self).wf(),
        ensures
            final(self).wf(),
            final(self).buf() == old(self).buf(),
            old(self).cursor() <= final(self).cursor(),
            match r {
                Some(m) => {
                    &&& old(self).cursor() <= m.start
                    &&& (m.start as int) < m.end
                    &&& m.end as int <= old(self).buf().len()
                    &&& scan_from(old(self).buf(), old(self).cursor()) == seq![span_of(m)]
                        + scan_from(old(self).buf(), m.end as int)
                    &&& final(self).cursor() == m.end as int
                    &&& m.bytes@ == old(self).buf().subrange(m.start as int, m.end as int)
                },
                None => {
                    &&& scan_from(old(self).buf(), old(self).cursor()) == Seq::<(int, int)>::empty()
                    &&& final(self).cursor() == old(self).buf().len()
                },
            },
    {
        loop
            invariant
                self.wf(),
                self.buf() == old(self).buf(),
                old(self).cursor() <= self.cursor(),
                scan_from(self.buf(), old(self).cursor()) == scan_from(self.buf(), self.cursor()),
            decreases self.buf().len() - self.cursor(),
        {
            if self.pos >= self.text.len() {
                assert(scan_from(self.buf(), self.cursor()) == Seq::<(int, int)>::empty());
                return None;
            }
            match match_end_at_exec(self.text, self.pos) {
                Some(e) => {
                    proof {
                        lemma_match_end_bounds(self.buf(), self.cursor());
                        assert(scan_from(self.buf(), self.cursor()) == seq![
                            (self.cursor(), e as int),
                        ] + scan_from(self.buf(), e as int));
                    }
                    let m = Match {
                        start: self.pos,
                        end: e,
                        bytes: slice_subrange(self.text, self.pos, e),
                    };
                    self.pos = e;
                    return Some(m);
                },
                None => {
                    assert(scan_from(self.buf(), self.cursor()) == scan_from(
                        self.buf(),
                        self.cursor() + 1,
                    ));
                    self.pos = self.pos + 1;
                },
            }
        }
    }
}

/// Parses ANSI escape sequences from the given bytes, returning the lazy
/// match sequence positioned at the start of the buffer.
pub fn parse_bytes<'a>(text: &'a [u8]) -> (r: Matches<'a>)
    ensures
        r.wf(),
        r.buf() == text@,
        r.cursor() == 0,
{
    Matches { text, pos: 0 }
}

/// Scans the whole buffer at once: the vector holds exactly the matches of
/// the grammar, in scan order, each carrying the bytes of its span.
pub fn find_matches<'a>(text: &'a [u8]) -> (r: Vec<Match<'a>>)
    ensures
        spans(r@) == scan(text@),
        forall|j: int|
            0 <= j < r@.len() ==> (#[trigger] r@[j]).bytes@ == text@.subrange(
                r@[j].start as int,
                r@[j].end as int,
            ),
{
    let mut it = parse_bytes(text);
    let mut out: Vec<Match<'a>> = Vec::new();
    loop
        invariant
            it.wf(),
            it.buf() == text@,
            scan(text@) == spans(out@) + scan_from(text@, it.cursor()),
            forall|j: int|
                0 <= j < out@.len() ==> (#[trigger] out@[j]).bytes@ == text@.subrange(
                    out@[j].start as int,
                    out@[j].end as int,
                ),
        decreases text@.len() - it.cursor(),
    {
        match it.next() {
            Some(m) => {
                proof {
                    assert(spans(out@.push(m)) =~= spans(out@) + seq![span_of(m)]);
                    assert(spans(out@) + (seq![span_of(m)] + scan_from(text@, m.end as int)) =~= (
                    spans(out@) + seq![span_of(m)]) + scan_from(text@, m.end as int));
                }
                out.push(m);
            },
            None => {
                assert(spans(out@) + Seq::<(int, int)>::empty() =~= spans(out@));
                return out;
            },
        }
    }
}

} // verus!
