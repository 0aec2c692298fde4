use funcy::{parse_placeholders, split_invocation, split_once, PlaceholderExpr};

#[test]
fn placeholder_parsing() {
    assert_eq!(parse_placeholders("<!$ name arg>"), [PlaceholderExpr { start_idx: 0, end_idx: 13, content: "name arg" }]);
    assert_eq!(parse_placeholders("<!$ name1 arg1> <!$ name2 arg2>")
        , [PlaceholderExpr { start_idx: 0, end_idx: 15, content: "name1 arg1" }
        , PlaceholderExpr { start_idx: 16, end_idx: 31, content: "name2 arg2" }]);
    assert_eq!(parse_placeholders("some text <!$ name1 arg1> other text <!$ name2 arg2> even more text")
        , [PlaceholderExpr { start_idx: 10, end_idx: 25, content: "name1 arg1" }
        , PlaceholderExpr { start_idx: 37, end_idx: 52, content: "name2 arg2" }]);
}

#[test]
fn scan_twice_gives_same_tags() {
    let text = "a <!$ x 1> b <!$ y> <!$ z";
    assert_eq!(parse_placeholders(text), parse_placeholders(text));
}

#[test]
fn spans_hold_delimiters_and_content() {
    let text = "x<!$ a b>yy<!$ >z<!$ c>";
    let tags = parse_placeholders(text);
    assert_eq!(tags.len(), 3);
    for t in &tags {
        let whole = &text[t.start_idx..t.end_idx];
        assert!(whole.starts_with("<!$ "));
        assert!(whole.ends_with('>'));
        assert_eq!(t.content, &text[t.start_idx + 4..t.end_idx - 1]);
    }
    for w in tags.windows(2) {
        assert!(w[0].start_idx < w[1].start_idx);
        assert!(w[0].end_idx <= w[1].start_idx);
    }
}

#[test]
fn unterminated_tag_is_dropped() {
    assert!(parse_placeholders("<!$ foo").is_empty());
    assert_eq!(parse_placeholders("text <!$ a> more <!$ foo"), [PlaceholderExpr { start_idx: 5, end_idx: 11, content: "a" }]);
}

#[test]
fn empty_content_tag() {
    assert_eq!(parse_placeholders("<!$ >"), [PlaceholderExpr { start_idx: 0, end_idx: 5, content: "" }]);
}

#[test]
fn no_nesting_inside_tag() {
    assert_eq!(parse_placeholders("<!$ a <!$ b>"), [PlaceholderExpr { start_idx: 0, end_idx: 12, content: "a <!$ b" }]);
}

#[test]
fn failed_opener_is_not_retried() {
    assert!(parse_placeholders("<!$<!$ x>").is_empty());
    assert!(parse_placeholders("<<!$ x>").is_empty());
    assert!(parse_placeholders("<!$x>").is_empty());
}

#[test]
fn adjacent_tags() {
    assert_eq!(parse_placeholders("<!$ a><!$ b>"), [
        PlaceholderExpr { start_idx: 0, end_idx: 6, content: "a" },
        PlaceholderExpr { start_idx: 6, end_idx: 12, content: "b" },
    ]);
}

#[test]
fn split_rule_first_space_only() {
    assert_eq!(split_invocation("name arg with spaces"), ("name", "arg with spaces"));
    assert_eq!(split_invocation("name"), ("name", ""));
    assert_eq!(split_invocation(" lead"), ("", "lead"));
    assert_eq!(split_invocation(""), ("", ""));
}

#[test]
fn split_once_cases() {
    assert_eq!(split_once("a,b,c", ','), Some(("a", "b,c")));
    assert_eq!(split_once("abc", ','), None);
    assert_eq!(split_once("abc,", ','), Some(("abc", "")));
}

#[test]
fn positions_are_byte_offsets() {
    let text = "é<!$ a>ü<!$ ß b>";
    let tags = parse_placeholders(text);
    assert_eq!(tags, [
        PlaceholderExpr { start_idx: 2, end_idx: 8, content: "a" },
        PlaceholderExpr { start_idx: 10, end_idx: 19, content: "ß b" },
    ]);
    for t in &tags {
        assert_eq!(&text[t.start_idx..t.start_idx + 4], "<!$ ");
        assert_eq!(&text[t.end_idx - 1..t.end_idx], ">");
        assert_eq!(t.content, &text[t.start_idx + 4..t.end_idx - 1]);
    }
}
