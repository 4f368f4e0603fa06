use srt_translator::captions::{reassemble, segments, CaptionSegment};
use srt_translator::TranslateError;

fn segment(index: &str, time: &str, body: &str) -> CaptionSegment {
    CaptionSegment { header: (index.to_owned(), time.to_owned()), body: body.to_owned() }
}

fn strings(items: &[&str]) -> Vec<String> {
    items.iter().map(|s| s.to_string()).collect()
}

fn bodies(found: &[CaptionSegment]) -> Vec<String> {
    found.iter().map(|s| s.body.clone()).collect()
}

fn visible(text: &str) -> String {
    text.chars().filter(|c| !c.is_whitespace()).collect()
}

const TWO: &str = "1\n00:00:01,000 --> 00:00:02,000\nHello\n\n2\n00:00:03,000 --> 00:00:04,000\nWorld";

#[test]
fn two_blocks_parse_to_two_segments() {
    assert_eq!(
        segments(TWO),
        vec![
            segment("1", "00:00:01,000 --> 00:00:02,000", "Hello"),
            segment("2", "00:00:03,000 --> 00:00:04,000", "World"),
        ]
    );
}

#[test]
fn reassembling_with_translated_bodies() {
    let found = segments(TWO);
    assert_eq!(
        reassemble(&found, &strings(&["Salut", "Monde"])),
        Ok("1\n00:00:01,000 --> 00:00:02,000\nSalut\n\n2\n00:00:03,000 --> 00:00:04,000\nMonde"
            .to_owned())
    );
}

#[test]
fn empty_text_has_no_segments() {
    assert_eq!(segments(""), vec![]);
    assert_eq!(reassemble(&vec![], &vec![]), Ok(String::new()));
}

#[test]
fn body_keeps_its_line_breaks() {
    let found = segments("7\n00:01 --> 00:02\nfirst\nsecond\nthird\n\n8\nt\nx");
    assert_eq!(found[0], segment("7", "00:01 --> 00:02", "first\nsecond\nthird"));
    assert_eq!(found[1], segment("8", "t", "x"));
}

#[test]
fn blocks_of_whitespace_are_left_out() {
    assert_eq!(segments("\n\n\n\n"), vec![]);
    assert_eq!(segments(" \n\n\t\n\n\u{a0}\r"), vec![]);
    assert_eq!(segments("\n\n1\nt\nb\n\n  \n\n\n\n2\nu\nc\n\n"), vec![
        segment("1", "t", "b"),
        segment("2", "u", "c"),
    ]);
}

#[test]
fn short_blocks_are_taken_as_they_are() {
    assert_eq!(segments("only"), vec![segment("only", "", "")]);
    assert_eq!(segments("1\n00:01 --> 00:02"), vec![segment("1", "00:01 --> 00:02", "")]);
    assert_eq!(segments("a\n\nb\nc"), vec![segment("a", "", ""), segment("b", "c", "")]);
}

#[test]
fn three_line_feeds_leave_one_to_the_next_block() {
    assert_eq!(segments("1\nt\nb\n\n\n2\nu\nc"), vec![
        segment("1", "t", "b"),
        segment("", "2", "u\nc"),
    ]);
}

#[test]
fn carriage_returns_before_line_feeds_are_dropped() {
    assert_eq!(segments("1\r\nt\r\nb\r\nc\r\n"), vec![segment("1", "t", "b\nc")]);
    assert_eq!(segments("1\nt\nb\r"), vec![segment("1", "t", "b\r")]);
}

#[test]
fn segments_are_the_lines_of_the_blocks() {
    for text in [TWO, "a\r\nb\n\nc", "x\n\n\ny\nz\nw\n\n", " \n\nq", "1\nt\nb\n\n2"] {
        let expected: Vec<CaptionSegment> = text
            .split("\n\n")
            .filter(|block| !block.trim().is_empty())
            .map(|block| {
                let found: Vec<&str> = block.lines().collect();
                segment(
                    found.first().copied().unwrap_or(""),
                    found.get(1).copied().unwrap_or(""),
                    &found.iter().skip(2).copied().collect::<Vec<_>>().join("\n"),
                )
            })
            .collect();
        assert_eq!(segments(text), expected, "{:?}", text);
    }
}

#[test]
fn round_trip_of_canonical_text_is_exact() {
    let found = segments(TWO);
    assert_eq!(reassemble(&found, &bodies(&found)), Ok(TWO.to_owned()));
    let long = "1\n00:00:01,000 --> 00:00:02,000\nA\nB\n\n2\n00:00:03,000 --> 00:00:04,000\nC\n\n3\nt\nD\nE\nF";
    let found = segments(long);
    assert_eq!(reassemble(&found, &bodies(&found)), Ok(long.to_owned()));
}

#[test]
fn round_trip_keeps_the_content() {
    for text in [
        "",
        TWO,
        "1\r\n00:01 --> 00:02\r\nHello\r\nthere\r\n\r\n2\r\n00:03 --> 00:04\r\nWorld\r\n",
        "\n\n\n1\nt\nb\n\n\n\n \n\n2\nu\nc\n\n\n",
        "only",
        "a\n\nb\nc\n\nd\r\r\ne",
        "x \u{3000} y\n\n\u{2028}\n\nz",
    ] {
        let found = segments(text);
        let again = reassemble(&found, &bodies(&found)).unwrap();
        assert_eq!(visible(&again), visible(text), "{:?}", text);
    }
}

#[test]
fn reassembling_joins_header_lines_and_body() {
    let found = vec![segment("1", "t", "old"), segment("", "", ""), segment("3", "u", "x")];
    assert_eq!(
        reassemble(&found, &strings(&["new", "", "a\nb"])),
        Ok("1\nt\nnew\n\n\n\n\n\n3\nu\na\nb".to_owned())
    );
    assert_eq!(
        reassemble(&found[..1].iter().map(|s| segment(&s.header.0, &s.header.1, &s.body)).collect(), &strings(&["é"])),
        Ok("1\nt\né".to_owned())
    );
}

#[test]
fn length_mismatch_is_an_error() {
    let found = segments(TWO);
    assert_eq!(
        reassemble(&found, &strings(&["Salut"])),
        Err(TranslateError::ReassemblyLengthMismatch { segments: 2, bodies: 1 })
    );
    assert_eq!(
        reassemble(&found, &strings(&["a", "b", "c"])),
        Err(TranslateError::ReassemblyLengthMismatch { segments: 2, bodies: 3 })
    );
    assert_eq!(
        reassemble(&vec![], &strings(&["a"])),
        Err(TranslateError::ReassemblyLengthMismatch { segments: 0, bodies: 1 })
    );
}
