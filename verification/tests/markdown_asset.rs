use hana_bevy_markdown::markdown_asset::MarkdownElement;
use hana_bevy_markdown::markdown_asset::MarkdownText;
use hana_bevy_markdown::markdown_asset::MarkdownTextStyle;
use hana_bevy_markdown::markdown_asset::parse_empty_line;
use hana_bevy_markdown::markdown_asset::parse_markdown;

fn text(s: &str) -> MarkdownElement {
    MarkdownElement::Text(MarkdownText { style: MarkdownTextStyle::Standard, text: s.to_string() })
}

/// Test if normal text works
#[test]
fn test_text() {
    let result = parse_markdown("hello world");

    assert_eq!(result.len(), 1, "should contain 1 element");

    let result = result.first().unwrap();

    if let MarkdownElement::Text(text) = result {
        assert_eq!(text.style, MarkdownTextStyle::Standard);
        assert_eq!(text.text, "hello world");
    } else {
        panic!("result not a regular text block")
    }
}

/// Testing line breaks
/// A normal text should brake on two spaces before a line brake charachter
#[test]
fn test_line_breaks() {
    let result = parse_markdown("First line  \nSecond line \nThird Line\nFourth Line");

    let comparison = vec![
        MarkdownElement::Text(MarkdownText {
            style: MarkdownTextStyle::Standard,
            text: "First line".to_string(),
        }),
        MarkdownElement::LineBreak,
        MarkdownElement::Text(MarkdownText {
            style: MarkdownTextStyle::Standard,
            text: "Second line".to_string(),
        }),
        MarkdownElement::Text(MarkdownText {
            style: MarkdownTextStyle::Standard,
            text: "Third Line".to_string(),
        }),
        MarkdownElement::Text(MarkdownText {
            style: MarkdownTextStyle::Standard,
            text: "Fourth Line".to_string(),
        }),
    ];

    assert_eq!(result, comparison);
}

/// Testing that an empty line results in empty
///
/// Like so
#[test]
fn test_empty_line() {
    let result = parse_markdown("This should result in an \n\n empty line  \n\n Also this");

    let comparison = vec![
        MarkdownElement::Text(MarkdownText {
            style: MarkdownTextStyle::Standard,
            text: "This should result in an".to_string(),
        }),
        MarkdownElement::LineBreak,
        MarkdownElement::LineBreak,
        MarkdownElement::Text(MarkdownText {
            style: MarkdownTextStyle::Standard,
            text: "empty line".to_string(),
        }),
        MarkdownElement::LineBreak,
        MarkdownElement::LineBreak,
        MarkdownElement::Text(MarkdownText {
            style: MarkdownTextStyle::Standard,
            text: "Also this".to_string(),
        }),
    ];

    assert_eq!(result, comparison);
}

#[test]
fn test_single_blank_line_yields_two_breaks() {
    let result = parse_markdown("a\n\nb");
    assert_eq!(result, vec![text("a"), MarkdownElement::LineBreak, MarkdownElement::LineBreak, text("b")]);
}

#[test]
fn test_many_blank_lines_capped_at_two_breaks() {
    let result = parse_markdown("a\n\n\n\n\n\nb");
    assert_eq!(result, vec![text("a"), MarkdownElement::LineBreak, MarkdownElement::LineBreak, text("b")]);
}

#[test]
fn test_hard_break_counts_toward_blank_line_cap() {
    let result = parse_markdown("a  \n\nb");
    assert_eq!(result, vec![text("a"), MarkdownElement::LineBreak, MarkdownElement::LineBreak, text("b")]);
}

#[test]
fn test_hard_break_emits_break_after_text() {
    let result = parse_markdown("x  \ny");
    assert_eq!(result, vec![text("x"), MarkdownElement::LineBreak, text("y")]);
}

#[test]
fn test_normalizer_idempotent_on_normalized_tail() {
    let first = parse_empty_line(vec![text("a")]);
    assert_eq!(
        first,
        vec![text("a"), MarkdownElement::LineBreak, MarkdownElement::LineBreak],
    );
    let second = parse_empty_line(first.clone());
    assert_eq!(first, second);
}

#[test]
fn test_whitespace_only_line_emits_no_empty_run() {
    let result = parse_markdown("a\n \nb");
    assert_eq!(result, vec![text("a"), text("b")]);
}

#[test]
fn test_whitespace_only_line_keeps_its_hard_break() {
    let result = parse_markdown("a\n   \nb");
    assert_eq!(result, vec![text("a"), MarkdownElement::LineBreak, text("b")]);
}

#[test]
fn test_text_is_trimmed() {
    let result = parse_markdown("  hello world  \u{9}");
    assert_eq!(result, vec![text("hello world")]);
}

#[test]
fn test_carriage_return_line_endings() {
    let result = parse_markdown("a\r\nb");
    assert_eq!(result, vec![text("a"), text("b")]);
}

#[test]
fn test_trailing_newline_yields_no_extra_line() {
    let result = parse_markdown("a\n");
    assert_eq!(result, vec![text("a")]);
}

#[test]
fn test_empty_input_yields_empty_stream() {
    let result = parse_markdown("");
    assert_eq!(result, Vec::<MarkdownElement>::new());
}

#[test]
fn test_blank_only_input_yields_two_breaks() {
    let result = parse_markdown("\n");
    assert_eq!(result, vec![MarkdownElement::LineBreak, MarkdownElement::LineBreak]);
}

#[test]
fn test_leading_blank_lines() {
    let result = parse_markdown("\n\nx");
    assert_eq!(result, vec![MarkdownElement::LineBreak, MarkdownElement::LineBreak, text("x")]);
}
