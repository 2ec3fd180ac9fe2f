use parse_ansi::find_matches;
use parse_ansi::parse_bytes;
use parse_ansi::ANSI_RE;

fn test_parse(text: &[u8], expected: &[(usize, usize, &[u8])]) {
    let ms = find_matches(text);
    assert_eq!(ms.len(), expected.len());
    for (m, e) in ms.iter().zip(expected.iter()) {
        assert_eq!((m.start(), m.end(), m.as_bytes()), *e);
    }
}

fn spans_of(text: &[u8]) -> Vec<(usize, usize)> {
    find_matches(text).iter().map(|m| (m.start(), m.end())).collect()
}

fn strip(text: &[u8]) -> Vec<u8> {
    let mut out = Vec::new();
    let mut i = 0;
    for m in find_matches(text).iter() {
        out.extend_from_slice(&text[i..m.start()]);
        i = m.end();
    }
    out.extend_from_slice(&text[i..]);
    out
}

#[test]
fn red_underline() {
    test_parse(
        b"before \x1b[31;4mred underline\x1b[0m after",
        &[(7, 14, b"\x1b[31;4m"), (27, 31, b"\x1b[0m")],
    );
}

#[test]
fn hello_world_spans_and_strip() {
    let text = b"Hello, \x1b[42mworld\x1b[0m!";
    assert_eq!(spans_of(text), vec![(7, 12), (17, 21)]);
    assert_eq!(strip(text), b"Hello, world!");
}

#[test]
fn doc_example_spans() {
    let text = b"Hello, \x1b[31;4mworld\x1b[0m!";
    assert_eq!(spans_of(text), vec![(7, 14), (19, 23)]);
}

#[test]
fn no_introducer_yields_nothing() {
    assert_eq!(spans_of(b""), vec![]);
    assert_eq!(spans_of(b"plain text, [0m included"), vec![]);
    assert_eq!(spans_of(b"digits 123;456 and ?#() markers"), vec![]);
}

#[test]
fn bare_esc_without_bracket_yields_nothing() {
    assert_eq!(spans_of(b"\x1bno bracket here"), vec![]);
    assert_eq!(spans_of(b"\x9bX also nothing"), vec![]);
}

#[test]
fn empty_parameter_groups_match() {
    test_parse(b"\x1b[;1;m", &[(0, 6, b"\x1b[;1;m")]);
}

#[test]
fn match_at_buffer_end() {
    let text = b"tail \x1b[0m";
    let ms = find_matches(text);
    assert_eq!(ms.len(), 1);
    assert_eq!((ms[0].start(), ms[0].end()), (5, 9));
    assert_eq!(ms[0].end(), text.len());
}

#[test]
fn matches_are_ordered_and_disjoint() {
    let spans = spans_of(b"\x1b[1m\x1b[2m\x1b[0m");
    assert_eq!(spans, vec![(0, 4), (4, 8), (8, 12)]);
    for w in spans.windows(2) {
        assert!(w[0].0 < w[1].0);
        assert!(w[0].1 <= w[1].0);
    }
}

#[test]
fn strip_then_rescan_finds_nothing() {
    let stripped = strip(b"before \x1b[31;4mred underline\x1b[0m after");
    assert_eq!(stripped, b"before red underline after");
    assert_eq!(spans_of(&stripped), vec![]);
}

#[test]
fn strip_can_expose_sequence_after_unmatched_esc() {
    // The first ESC matches nothing; removing the matched span at [1, 5)
    // makes the leftover `[0m` follow it, so a rescan finds a fresh match.
    let text = b"\x1b\x1b[0m[0m";
    assert_eq!(spans_of(text), vec![(1, 5)]);
    let stripped = strip(text);
    assert_eq!(stripped, b"\x1b[0m");
    assert_eq!(spans_of(&stripped), vec![(0, 4)]);
}

#[test]
fn trailing_digits_close_the_sequence() {
    test_parse(b"\x1b[31", &[(0, 4, b"\x1b[31")]);
    test_parse(b"\x1b[12345", &[(0, 7, b"\x1b[12345")]);
    test_parse(b"\x1b[12;", &[(0, 4, b"\x1b[12")]);
}

#[test]
fn csi_byte_introducer() {
    test_parse(b"\x9b[32mgreen", &[(0, 5, b"\x9b[32m")]);
}

#[test]
fn private_markers_match() {
    test_parse(b"\x1b[?25h", &[(0, 6, b"\x1b[?25h")]);
}

#[test]
fn truncated_sequences_yield_nothing() {
    assert_eq!(spans_of(b"\x1b["), vec![]);
    assert_eq!(spans_of(b"\x1b[("), vec![]);
    assert_eq!(spans_of(b"\x1b[;"), vec![]);
}

#[test]
fn lazy_scan_yields_matches_one_at_a_time() {
    let text = b"a\x1b[1mb\x1b[0m";
    let mut it = parse_bytes(text);
    let first = it.next().expect("first match");
    assert_eq!((first.start(), first.end()), (1, 5));
    assert_eq!(first.as_bytes(), b"\x1b[1m");
    let second = it.next().expect("second match");
    assert_eq!((second.start(), second.end()), (6, 10));
    assert!(it.next().is_none());
    assert!(it.next().is_none());
}

#[test]
fn pattern_constant_is_published() {
    assert_eq!(
        ANSI_RE,
        r"[\x1b\x9b]\[[()#;?]*(?:[0-9]{1,4}(?:;[0-9]{0,4})*)?[0-9A-ORZcf-nqry=><]",
    );
}
