use wikipedia_article_transform::{ArticleFormat, InlineNode, TextSegment, WikiPage};

fn extract(html: &str) -> Vec<TextSegment> {
    WikiPage::extract_text_plain(html).unwrap();
    let mut page = WikiPage::new().unwrap();
    page.extract_text(html).unwrap()
}

#[test]
fn test_basic_paragraph() {
    let segs = extract("<html><body><p id=\"p1\">Hello world.</p></body></html>");
    assert_eq!(segs.len(), 1);
    assert_eq!(segs[0].text, "Hello world.");
    assert_eq!(segs[0].mwid, "p1");
    assert_eq!(segs[0].section, "");
    assert_eq!(segs[0].section_level, 0);
}

#[test]
fn test_multiple_paragraphs() {
    let segs = extract("<p>First.</p><p>Second.</p><p>Third.</p>");
    assert_eq!(segs.len(), 3);
    assert_eq!(segs[0].text, "First.");
    assert_eq!(segs[1].text, "Second.");
    assert_eq!(segs[2].text, "Third.");
}

#[test]
fn test_section_tracking() {
    let html = "<h2>History</h2><p>Para one.</p><h3>Early life</h3><p>Para two.</p>";
    let segs = extract(html);
    assert_eq!(segs[0].section, "History");
    assert_eq!(segs[1].section, "History - Early life");
}

#[test]
fn test_section_level() {
    let html = "<h2>History</h2><p>A.</p><h3>Early life</h3><p>B.</p>";
    let segs = extract(html);
    assert_eq!(segs[0].section_level, 2);
    assert_eq!(segs[1].section_level, 3);
}

#[test]
fn test_section_resets_at_same_level() {
    let html = "<h2>History</h2><p>A.</p><h2>Geography</h2><p>B.</p>";
    let segs = extract(html);
    assert_eq!(segs[0].section, "History");
    assert_eq!(segs[1].section, "Geography");
}

#[test]
fn test_excluded_class_infobox() {
    let html = r#"<p>Visible.</p><table class="infobox"><tr><td>Hidden.</td></tr></table><p>Also visible.</p>"#;
    let segs = extract(html);
    assert!(segs.iter().all(|s| !s.text.contains("Hidden")));
    assert_eq!(segs.len(), 2);
}

#[test]
fn test_excluded_class_reflist() {
    let html = r#"<p>Main text.</p><div class="reflist"><p>Ref text.</p></div>"#;
    let segs = extract(html);
    assert_eq!(segs.len(), 1);
    assert_eq!(segs[0].text, "Main text.");
}

#[test]
fn test_script_and_style_skipped() {
    let html = "<p>Real.</p><script>var x=1;</script><style>body{}</style><p>Also real.</p>";
    let segs = extract(html);
    assert_eq!(segs.len(), 2);
    assert!(segs.iter().all(|s| !s.text.contains("var x")));
}

#[test]
fn test_empty_html() {
    let segs = extract("");
    assert!(segs.is_empty());
}

#[test]
fn test_extract_text_plain() {
    let html = "<p>First paragraph.</p><p>Second paragraph.</p>";
    let text = WikiPage::extract_text_plain(html).unwrap();
    assert_eq!(text, "First paragraph.\n\nSecond paragraph.");
}

#[test]
fn test_default_impl() {
    let mut page = WikiPage::default();
    let segs = page.extract_text("<p>Works.</p>").unwrap();
    assert_eq!(segs[0].text, "Works.");
}

#[test]
fn test_inline_bold() {
    let segs = extract("<p><b>Bold</b> text</p>");
    assert_eq!(segs.len(), 1);
    assert_eq!(segs[0].text, "Bold text");
    assert!(matches!(&segs[0].content[0], InlineNode::Bold(s) if s == "Bold"));
    assert!(matches!(&segs[0].content[1], InlineNode::Text(s) if s == "text"));
}

#[test]
fn test_inline_italic() {
    let segs = extract("<p><i>italic</i></p>");
    assert_eq!(segs.len(), 1);
    assert!(matches!(&segs[0].content[0], InlineNode::Italic(s) if s == "italic"));
}

#[test]
fn test_inline_strong_em() {
    let segs = extract("<p><strong>S</strong> and <em>E</em></p>");
    assert!(matches!(&segs[0].content[0], InlineNode::Bold(s) if s == "S"));
    assert!(matches!(&segs[0].content[2], InlineNode::Italic(s) if s == "E"));
}

#[test]
fn test_inline_link() {
    let segs = extract(r#"<p><a href="./X">anchor</a></p>"#);
    assert_eq!(segs.len(), 1);
    // No base URL set: ./X passes through unchanged
    assert!(matches!(&segs[0].content[0],
        InlineNode::Link { text, href } if text == "anchor" && href == "./X"));
}

#[test]
fn test_inline_link_absolute() {
    let html = r#"<p><a href="./Cryogenics">Cryogenics</a></p>"#;
    let mut page = WikiPage::new().unwrap();
    page.set_base_url("en");
    let segs = page.extract_text(html).unwrap();
    assert!(matches!(&segs[0].content[0],
        InlineNode::Link { text, href }
            if text == "Cryogenics"
            && href == "https://en.wikipedia.org/wiki/Cryogenics"));
}

#[test]
fn test_resolve_href_protocol_relative() {
    let html = r#"<p><a href="//en.wikipedia.org/wiki/Oxygen">O</a></p>"#;
    let mut page = WikiPage::new().unwrap();
    let segs = page.extract_text(html).unwrap();
    assert!(matches!(&segs[0].content[0],
        InlineNode::Link { href, .. } if href == "https://en.wikipedia.org/wiki/Oxygen"));
}

#[test]
fn test_format_plain_sections() {
    let html = "<p>Intro.</p><h2>History</h2><p>A.</p><h3>Early life</h3><p>B.</p>";
    let segs = extract(html);
    let out = segs.format_plain();
    assert!(out.contains("\nIntro.\n"), "intro paragraph missing");
    assert!(out.contains("## History\n"), "h2 heading missing");
    assert!(out.contains("\nA.\n"), "first section paragraph missing");
    assert!(out.contains("### Early life\n"), "h3 heading missing");
    assert!(out.contains("\nB.\n"), "subsection paragraph missing");
    assert!(out.find("## History").unwrap() < out.find("\nA.\n").unwrap());
    assert!(out.find("### Early life").unwrap() < out.find("\nB.\n").unwrap());
}

#[test]
fn test_format_json_tree() {
    let html = "<p>Intro.</p><h2>History</h2><p>A.</p><h3>Early life</h3><p>B.</p>";
    let segs = extract(html);
    let tree = segs.article_tree();
    assert_eq!(tree.intro[0], "Intro.");
    assert_eq!(tree.sections[0].heading, "History");
    assert_eq!(tree.sections[0].level, 2);
    assert_eq!(tree.sections[0].paragraphs[0], "A.");
    assert_eq!(tree.sections[0].subsections[0].heading, "Early life");
    assert_eq!(tree.sections[0].subsections[0].level, 3);
    assert_eq!(tree.sections[0].subsections[0].paragraphs[0], "B.");
}

#[test]
fn test_format_markdown_inline() {
    let segs = extract("<h2>Title</h2><p><b>Bold</b> and <i>italic</i> and <a href=\"/x\">link</a></p>");
    let out = segs.format_markdown();
    assert!(out.contains("## Title"));
    assert!(out.contains("**Bold**"));
    assert!(out.contains("_italic_"));
    assert!(out.contains("[link](/x)"));
    // spaces between inline nodes must be preserved
    assert!(out.contains("**Bold** and"), "space after bold missing: {out}");
    assert!(out.contains("_italic_ and"), "space after italic missing: {out}");
    assert!(out.contains("and [link]"), "space before link missing: {out}");
}
