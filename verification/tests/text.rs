use agents_md::text::{
    first_char, is_blank, is_whitespace, len_utf8, same_str, split_lines, starts_with, trim,
    trim_end, trim_start,
};

#[test]
fn white_space_agrees_with_the_standard_library() {
    for c in '\u{0}'..=char::MAX {
        assert_eq!(is_whitespace(c), c.is_whitespace(), "{c:?}");
    }
}

#[test]
fn widths_agree_with_the_standard_library() {
    for c in '\u{0}'..=char::MAX {
        assert_eq!(len_utf8(c), c.len_utf8(), "{c:?}");
    }
    assert_eq!(len_utf8('a'), 1);
    assert_eq!(len_utf8('é'), 2);
    assert_eq!(len_utf8('€'), 3);
    assert_eq!(len_utf8('😀'), 4);
}

const SAMPLES: [&str; 14] = [
    "",
    " ",
    "\n",
    "\r\n",
    "a",
    "a\n",
    "a\r",
    "a\r\r\n\nb\r\n",
    "\n\n",
    " \u{3000}é x\u{a0}",
    "😀\n 😀 \r\n\t",
    "a\rb\nc",
    "x\u{85}",
    "\u{feff} y ",
];

#[test]
fn lines_agree_with_the_standard_library() {
    for sample in SAMPLES {
        let expected: Vec<&str> = sample.lines().collect();
        assert_eq!(split_lines(sample), expected, "{sample:?}");
    }
    assert_eq!(split_lines("a\r\nb\n\nc\r"), vec!["a", "b", "", "c\r"]);
}

#[test]
fn trimming_agrees_with_the_standard_library() {
    for sample in SAMPLES {
        assert_eq!(trim(sample), sample.trim(), "{sample:?}");
        assert_eq!(trim_start(sample), sample.trim_start(), "{sample:?}");
        assert_eq!(trim_end(sample), sample.trim_end(), "{sample:?}");
        assert_eq!(is_blank(sample), sample.trim().is_empty(), "{sample:?}");
    }
    assert_eq!(trim("\t é \u{2003}"), "é");
}

#[test]
fn blank_means_nothing_left_after_trimming() {
    assert!(is_blank(" \t\u{2028}"));
    assert_eq!(trim(" \t\u{2028}"), "");
    assert!(!is_blank(" .\t"));
    assert_eq!(trim(" .\t"), ".");
}

#[test]
fn prefixes_and_equality() {
    assert!(starts_with("éa", "é"));
    assert!(!starts_with("e", "ea"));
    assert!(starts_with("", ""));
    assert!(same_str("é€", "é€"));
    assert!(!same_str("é", "éa"));
    assert!(!same_str("éa", "é"));
    assert_eq!(first_char("€a"), Some('€'));
    assert_eq!(first_char(""), None);
}
