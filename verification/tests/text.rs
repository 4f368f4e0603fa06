use srt_translator::chars::{slice, to_chars, to_string};
use srt_translator::number::{format_number, parse_number};
use srt_translator::search::{find, matches_at, rfind};
use srt_translator::space::{blank, split_tokens, whitespace};
use srt_translator::split::{join_from, split_at_each, split_lines};

fn chars(text: &str) -> Vec<char> {
    text.chars().collect()
}

fn strings(parts: Vec<Vec<char>>) -> Vec<String> {
    parts.into_iter().map(|part| part.into_iter().collect()).collect()
}

#[test]
fn characters_and_strings_convert_both_ways() {
    for text in ["", "a", "héllo wörld", "line\nfeed\r\n", "日本語\u{10ffff}"] {
        assert_eq!(to_chars(text), chars(text));
        assert_eq!(to_string(&chars(text)), text);
    }
}

#[test]
fn whitespace_is_what_std_calls_whitespace() {
    for code in 0..=0x10ffffu32 {
        if let Some(c) = char::from_u32(code) {
            assert_eq!(whitespace(c), c.is_whitespace(), "U+{:04X}", code);
        }
    }
}

#[test]
fn blank_text_holds_whitespace_only() {
    assert!(blank(&chars("")));
    assert!(blank(&chars(" \t\r\n\u{a0}\u{3000}")));
    assert!(!blank(&chars(" \t.\n")));
}

#[test]
fn matching_at_an_index() {
    let text = chars("abcabc");
    assert!(matches_at(&text, &chars("abc"), 0));
    assert!(matches_at(&text, &chars("abc"), 3));
    assert!(!matches_at(&text, &chars("abc"), 1));
    assert!(!matches_at(&text, &chars("abc"), 4));
    assert!(!matches_at(&text, &chars("abc"), 100));
    assert!(matches_at(&text, &chars(""), 6));
    assert!(!matches_at(&text, &chars(""), 7));
    assert!(!matches_at(&chars("ab"), &chars("abc"), 0));
}

#[test]
fn finding_from_the_left_and_from_the_right() {
    let text = chars("xx|+ Tracks..|+ Tracks!");
    let pat = chars("|+ Tracks");
    assert_eq!(find(&text, &pat, 0), Some(2));
    assert_eq!(find(&text, &pat, 2), Some(2));
    assert_eq!(find(&text, &pat, 3), Some(13));
    assert_eq!(find(&text, &pat, 14), None);
    assert_eq!(find(&text, &pat, 1000), None);
    assert_eq!(rfind(&text, &pat), Some(13));
    assert_eq!(rfind(&text, &chars("|+ Tracks?")), None);
    assert_eq!(rfind(&chars(""), &pat), None);
    assert_eq!(rfind(&chars("aaa"), &chars("aa")), Some(1));
    assert_eq!(find(&chars("aaa"), &chars("aa"), 0), Some(0));
    assert_eq!(find(&pat, &pat, 0), Some(0));
    assert_eq!(rfind(&pat, &pat), Some(0));
}

#[test]
fn slices_are_ranges_of_characters() {
    let text = chars("héllo");
    assert_eq!(slice(&text, 1, 4), chars("éll"));
    assert_eq!(slice(&text, 0, 5), text);
    assert_eq!(slice(&text, 5, 5), chars(""));
}

#[test]
fn splitting_is_what_std_does() {
    for (text, pat) in [
        ("", "\n\n"),
        ("a", "\n\n"),
        ("a\n\nb", "\n\n"),
        ("a\n\n\nb", "\n\n"),
        ("\n\n\n\n", "\n\n"),
        ("\n\na\n\n", "\n\n"),
        ("aaa", "aa"),
        ("aaaa", "aa"),
        ("x| + Tracky| + Track", "| + Track"),
        ("abc", "abc"),
        ("ab", "abc"),
        ("é,ü,", ","),
        ("abc", ""),
        ("", ""),
    ] {
        if pat.is_empty() {
            assert_eq!(strings(split_at_each(&chars(text), &chars(pat))), vec![text.to_owned()]);
            continue;
        }
        let expected: Vec<String> = text.split(pat).map(|s| s.to_owned()).collect();
        assert_eq!(strings(split_at_each(&chars(text), &chars(pat))), expected, "{:?}", text);
    }
}

#[test]
fn lines_are_what_std_gives() {
    for text in [
        "",
        "\n",
        "a",
        "a\n",
        "a\nb",
        "a\r\nb\r\n",
        "a\r",
        "a\r\r\n",
        "\r\n",
        "\r",
        "\n\n",
        "a\n\nb\n",
        "a\rb\nc",
        "é\r\nü",
    ] {
        let expected: Vec<String> = text.lines().map(|s| s.to_owned()).collect();
        assert_eq!(strings(split_lines(&chars(text))), expected, "{:?}", text);
    }
}

#[test]
fn tokens_are_what_std_gives() {
    for text in [
        "",
        " ",
        "a",
        " a ",
        "|  + Track number: 3 (track ID for mkvmerge & mkvextract: 2)",
        "|  + Language (IETF BCP 47): fr",
        "a\tb\nc\r\nd\u{a0}e\u{3000}f\u{2003}\u{2003}g",
        "\u{85}x\u{1680}",
    ] {
        let expected: Vec<String> = text.split_whitespace().map(|s| s.to_owned()).collect();
        assert_eq!(strings(split_tokens(&chars(text))), expected, "{:?}", text);
    }
}

#[test]
fn numbers_are_read_as_std_reads_them() {
    for text in [
        "", "+", "-", "0", "+0", "-0", "7", "+7", "++7", "007", "7 ", " 7", "7a", "a7", "١",
        "4294967295", "4294967296", "18446744073709551615", "18446744073709551616",
        "99999999999999999999999999999", "000000000000000000000000000001", "1_000", "0x10",
    ] {
        assert_eq!(parse_number(&chars(text)), text.parse::<usize>().ok(), "{:?}", text);
    }
}

#[test]
fn numbers_are_written_in_decimal_digits() {
    for n in [0usize, 1, 9, 10, 11, 99, 100, 12345, 4294967295, usize::MAX] {
        assert_eq!(to_string(&format_number(n)), n.to_string());
        assert_eq!(parse_number(&format_number(n)), Some(n));
    }
}

#[test]
fn joining_puts_the_separator_between_the_parts() {
    let parts = vec![chars("a"), chars(""), chars("bc"), chars("d")];
    assert_eq!(join_from(&parts, 0, &chars("\n")), chars("a\n\nbc\nd"));
    assert_eq!(join_from(&parts, 2, &chars(", ")), chars("bc, d"));
    assert_eq!(join_from(&parts, 3, &chars(", ")), chars("d"));
    assert_eq!(join_from(&parts, 4, &chars(", ")), chars(""));
    assert_eq!(join_from(&parts, 1, &chars("")), chars("bcd"));
}
