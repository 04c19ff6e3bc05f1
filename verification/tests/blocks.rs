use hana_bevy_markdown::markdown_asset::MarkdownElement;
use hana_bevy_markdown::markdown_asset::MarkdownText;
use hana_bevy_markdown::markdown_asset::MarkdownTextStyle;
use hana_bevy_markdown::markdown_asset::parse_markdown;
use hana_bevy_markdown::markdown_asset::split_into_lines;

fn text(s: &str) -> MarkdownElement {
    MarkdownElement::Text(MarkdownText { style: MarkdownTextStyle::Standard, text: s.to_string() })
}

fn run(s: &str) -> MarkdownText {
    MarkdownText { style: MarkdownTextStyle::Standard, text: s.to_string() }
}

#[test]
fn test_heading_levels_one_through_six() {
    let result = parse_markdown("# H1\n## H2\n### H3\n#### H4\n##### H5\n###### H6");
    assert_eq!(result.len(), 12, "every heading line yields a heading and its break");
    for level in 1u16..=6u16 {
        let index = 2 * (level as usize - 1);
        assert_eq!(
            result[index],
            MarkdownElement::Heading(run(&format!("H{}", level)), level),
            "wrong heading at level {}",
            level,
        );
        assert_eq!(
            result[index + 1],
            MarkdownElement::LineBreak,
            "every heading should be followed by a line break",
        );
    }
}

#[test]
fn test_heading_text_is_trimmed() {
    let result = parse_markdown("##   spaced out   ");
    assert_eq!(result, vec![MarkdownElement::Heading(run("spaced out"), 2), MarkdownElement::LineBreak]);
}

#[test]
fn test_seven_hashes_is_not_a_heading() {
    let result = parse_markdown("####### H7");
    assert_eq!(result, vec![text("####### H7")]);
}

#[test]
fn test_heading_requires_whitespace_after_hashes() {
    let result = parse_markdown("#x");
    assert_eq!(result, vec![text("#x")]);
}

#[test]
fn test_bare_hashes_are_text() {
    let result = parse_markdown("#");
    assert_eq!(result, vec![text("#")]);
}

#[test]
fn test_horizontal_rules() {
    for input in ["---", "***", "___", "- - -", "  ----  "] {
        let result = parse_markdown(input);
        assert_eq!(result, vec![MarkdownElement::HorizontalRule], "input {:?}", input);
    }
}

#[test]
fn test_two_dashes_are_text() {
    let result = parse_markdown("--");
    assert_eq!(result, vec![text("--")]);
}

#[test]
fn test_mixed_markers_are_not_a_rule() {
    let result = parse_markdown("-*-");
    assert_eq!(result, vec![text("-*-")]);
}

#[test]
fn test_ordered_list_items() {
    let result = parse_markdown("1. first\n12. twelfth");
    assert_eq!(
        result,
        vec![
            MarkdownElement::OrderedListItem(run("first")),
            MarkdownElement::OrderedListItem(run("twelfth")),
        ],
    );
}

#[test]
fn test_ordered_marker_needs_whitespace() {
    let result = parse_markdown("1.x");
    assert_eq!(result, vec![text("1.x")]);
}

#[test]
fn test_unordered_list_items() {
    let result = parse_markdown("- a\n* b\n+ c");
    assert_eq!(
        result,
        vec![
            MarkdownElement::UnorderedListItem(run("a")),
            MarkdownElement::UnorderedListItem(run("b")),
            MarkdownElement::UnorderedListItem(run("c")),
        ],
    );
}

#[test]
fn test_unordered_marker_needs_whitespace() {
    let result = parse_markdown("-x");
    assert_eq!(result, vec![text("-x")]);
}

#[test]
fn test_code_fence_terminated() {
    let result = parse_markdown("```\ncode line\n```\nafter");
    assert_eq!(result, vec![MarkdownElement::CodeBlock("code line".to_string()), text("after")]);
}

#[test]
fn test_code_fence_unterminated_still_yields_block() {
    let result = parse_markdown("```\nfirst\nsecond");
    assert_eq!(result, vec![MarkdownElement::CodeBlock("first\nsecond".to_string())]);
}

#[test]
fn test_code_fence_keeps_lines_verbatim() {
    let result = parse_markdown("```\n  # not a heading  \n\n```");
    assert_eq!(result, vec![MarkdownElement::CodeBlock("  # not a heading  \n".to_string())]);
}

#[test]
fn test_empty_code_block() {
    let result = parse_markdown("```\n```");
    assert_eq!(result, vec![MarkdownElement::CodeBlock(String::new())]);
}

#[test]
fn test_split_into_lines_strips_terminators() {
    let lines = split_into_lines("a\r\nb\nc");
    assert_eq!(lines, vec!["a".to_string(), "b".to_string(), "c".to_string()]);
}

#[test]
fn test_split_into_lines_final_terminator() {
    let lines = split_into_lines("a\n");
    assert_eq!(lines, vec!["a".to_string()]);
}
