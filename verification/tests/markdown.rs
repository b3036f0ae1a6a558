use agents_md::markdown::{
    consume_reference_target, extract_reference_targets, extract_reference_targets_from_line,
    is_reference_start_boundary, is_reference_target, markdown_fence_marker,
    markdown_segments_outside_html_comments, skip_inline_code,
};

fn targets(text: &str) -> Vec<String> {
    extract_reference_targets(text)
}

#[test]
fn references_are_found_in_order() {
    assert_eq!(
        targets("See @docs/a.md and @../b.md.\n@c.md, then\n(@not) x@y @~/z"),
        vec!["docs/a.md", "../b.md", "c.md", "~/z"]
    );
    assert_eq!(targets(""), Vec::<String>::new());
    assert_eq!(targets("@a"), vec!["a"]);
}

#[test]
fn closing_punctuation_does_not_belong_to_a_target() {
    assert_eq!(targets("@a.md.,;:!?)]}\"' @b.md) @..."), vec!["a.md", "b.md"]);
}

#[test]
fn escaped_white_space_belongs_to_a_target() {
    assert_eq!(targets("@my\\ file.md rest"), vec!["my file.md"]);
    assert_eq!(targets("@a\\b"), vec!["a\\b"]);
    assert_eq!(targets("@a\\"), vec!["a\\"]);
}

#[test]
fn targets_begin_like_names() {
    for good in ["a", "9", "é", "./x", "/x", "\\x", "~x", "_x", "-x", "Ⅷ"] {
        assert!(is_reference_target(good), "{good}");
    }
    for bad in ["", "@x", "#x", "(x", "*x", "€"] {
        assert!(!is_reference_target(bad), "{bad}");
    }
}

#[test]
fn letters_and_digits_agree_with_the_standard_library() {
    for c in '\u{0}'..=char::MAX {
        let expected = c.is_alphanumeric() || matches!(c, '.' | '/' | '\\' | '~' | '_' | '-');
        assert_eq!(is_reference_target(&c.to_string()), expected, "{c:?}");
    }
}

#[test]
fn references_begin_at_white_space() {
    assert!(is_reference_start_boundary("@a", 0));
    assert!(is_reference_start_boundary("é @a", 3));
    assert!(is_reference_start_boundary("\u{3000}@a", 3));
    assert!(!is_reference_start_boundary("é@a", 2));
    assert_eq!(targets("mail@host and\u{3000}@file"), vec!["file"]);
}

#[test]
fn inline_code_is_skipped() {
    assert_eq!(skip_inline_code("`a`b", 0), 3);
    assert_eq!(skip_inline_code("é`ü`b", 2), 6);
    assert_eq!(skip_inline_code("``a`b``c", 0), 7);
    assert_eq!(skip_inline_code("``a```c", 0), 5);
    assert_eq!(skip_inline_code("`abc", 0), 4);
    assert_eq!(skip_inline_code("abc", 1), 1);
    assert_eq!(skip_inline_code("abc", 3), 3);
    assert_eq!(targets("`@a` @b ``@c ` @d`` @e `@f"), vec!["b", "e"]);
}

#[test]
fn a_target_is_consumed_up_to_white_space() {
    assert_eq!(consume_reference_target("@é/ü, x", 1), Some(("é/ü".to_string(), 7)));
    assert_eq!(consume_reference_target("@ x", 1), None);
    assert_eq!(consume_reference_target("@", 1), None);
    assert_eq!(consume_reference_target("@a\\\u{3000}b c", 1), Some(("a\u{3000}b".to_string(), 7)));
    assert_eq!(consume_reference_target("@...", 1), None);
    assert_eq!(consume_reference_target("@#x", 1), None);
}

#[test]
fn a_rejected_target_does_not_hide_what_follows() {
    let mut found = vec!["first".to_string()];
    extract_reference_targets_from_line("@@a @(b @c", &mut found);
    assert_eq!(found, vec!["first", "c"]);
}

#[test]
fn fences_are_recognised_behind_white_space() {
    assert_eq!(markdown_fence_marker("```rust"), Some('`'));
    assert_eq!(markdown_fence_marker(" \t~~~"), Some('~'));
    assert_eq!(markdown_fence_marker("``"), None);
    assert_eq!(markdown_fence_marker("x ```"), None);
    assert_eq!(markdown_fence_marker(""), None);
}

#[test]
fn code_blocks_hold_no_references() {
    assert_eq!(
        targets("@a\n```\n@b\n~~~\n<!-- @c\n```\n@d\n~~~\n@e\n```\n~~~ \n@f"),
        vec!["a", "d", "f"]
    );
    assert_eq!(targets("```\n@a"), Vec::<String>::new());
}

#[test]
fn comments_hold_no_references() {
    assert_eq!(
        targets("@a <!-- @b --> @c <!-- @d\n@e\n@f --> @g\n<!----> @h"),
        vec!["a", "c", "g", "h"]
    );
}

#[test]
fn comment_segments_are_cut_out() {
    let mut inside = false;
    assert_eq!(
        markdown_segments_outside_html_comments("é<!--x-->ü<!-- y", &mut inside),
        vec!["é", "ü"]
    );
    assert!(inside);
    assert_eq!(
        markdown_segments_outside_html_comments("still inside", &mut inside),
        Vec::<&str>::new()
    );
    assert!(inside);
    assert_eq!(markdown_segments_outside_html_comments("-->", &mut inside), Vec::<&str>::new());
    assert!(!inside);
    assert_eq!(markdown_segments_outside_html_comments("a --> b", &mut inside), vec!["a --> b"]);
    assert!(!inside);
}

#[test]
fn no_at_no_references() {
    assert_eq!(targets("nothing `here` <!-- at --> all"), Vec::<String>::new());
}

#[test]
fn references_of_a_closed_text_come_first() {
    let first = "@a `x`\n```\n@b\n```\n<!-- @c --> @d\n";
    let second = "@e\n@f";
    let mut both = targets(first);
    both.extend(targets(second));
    assert_eq!(targets(&format!("{first}{second}")), both);
    assert_eq!(both, vec!["a", "d", "e", "f"]);
}

#[test]
fn a_comment_is_cut_out_of_a_line() {
    let mut inside = false;
    assert_eq!(
        markdown_segments_outside_html_comments("a<!--<!----><!--b-->", &mut inside),
        vec!["a"]
    );
    assert!(!inside);
}
