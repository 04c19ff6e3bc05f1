use hana_bevy_markdown::markdown_asset::MarkdownElement;
use hana_bevy_markdown::markdown_asset::MarkdownText;
use hana_bevy_markdown::markdown_asset::MarkdownTextStyle;
use hana_bevy_markdown::markdown_asset::element_section_text;
use hana_bevy_markdown::markdown_loader::MarkdownLoader;
use hana_bevy_markdown::markdown_loader::MarkdownLoaderError;
use hana_bevy_markdown::markdown_loader::MarkdownLoaderSettings;

fn text(s: &str) -> MarkdownElement {
    MarkdownElement::Text(MarkdownText { style: MarkdownTextStyle::Standard, text: s.to_string() })
}

#[test]
fn test_load_from_text_parses_and_keeps_style_reference() {
    let loader = MarkdownLoader::default();
    let settings = MarkdownLoaderSettings { style: "Pages/Home/style.ron".to_string() };
    let markdown = loader.load_from_text("hello world  \n\nbye", &settings);
    assert_eq!(
        markdown.content,
        vec![text("hello world"), MarkdownElement::LineBreak, MarkdownElement::LineBreak, text("bye")],
    );
    assert_eq!(markdown.style, "Pages/Home/style.ron");
}

#[test]
fn test_loader_error_messages() {
    let io = MarkdownLoaderError::Io("unexpected end of file".to_string());
    assert_eq!(io.message(), "Could not load asset: unexpected end of file");
    let parse = MarkdownLoaderError::Parse("bad input".to_string());
    assert_eq!(parse.message(), "Could not parse markdown bad input");
}

#[test]
fn test_section_text_for_text_element() {
    let section = element_section_text(&text("abc"));
    assert_eq!(section, Some("abc".to_string()));
}

#[test]
fn test_section_text_for_line_break() {
    let section = element_section_text(&MarkdownElement::LineBreak);
    assert_eq!(section, Some("\n".to_string()));
}

#[test]
fn test_section_text_for_unhandled_kinds() {
    assert_eq!(element_section_text(&MarkdownElement::HorizontalRule), None);
    assert_eq!(
        element_section_text(&MarkdownElement::CodeBlock("x".to_string())),
        None,
    );
}
