use wikipedia_article_transform::formatters::{format_markdown, format_plain};
use wikipedia_article_transform::outline::article_tree;
use wikipedia_article_transform::page::join_segment_texts;
use wikipedia_article_transform::request::{
    check_article_request, is_not_found, is_valid_language, output_kind_of, title_to_fetch,
    OutputKind, RequestError,
};
use wikipedia_article_transform::syntax::RawNode;
use wikipedia_article_transform::{ArticleFormat, InlineNode, TextSegment, WikiError, WikiPage};

fn segments(html: &str) -> Vec<TextSegment> {
    WikiPage::new().unwrap().extract_text(html).unwrap()
}

fn raw(kind: &str, start_byte: usize, end_byte: usize, child_count: usize) -> RawNode {
    RawNode { kind: kind.to_string(), start_byte, end_byte, child_count }
}

fn segment(text: &str, section: &str, level: u8) -> TextSegment {
    TextSegment {
        text: text.to_string(),
        content: vec![InlineNode::Text(text.to_string())],
        mwid: String::new(),
        section: section.to_string(),
        section_level: level,
    }
}

#[test]
fn extract_from_syntax_reads_a_preorder_listing() {
    let html = "<p>Hi</p>";
    let nodes = vec![
        raw("document", 0, 9, 1),
        raw("element", 0, 9, 3),
        raw("start_tag", 0, 3, 1),
        raw("tag_name", 1, 2, 0),
        raw("text", 3, 5, 0),
        raw("end_tag", 5, 9, 0),
    ];
    let mut page = WikiPage::new().unwrap();
    let segs = page.extract_from_syntax(html, &nodes).unwrap();
    assert_eq!(segs.len(), 1);
    assert_eq!(segs[0].text, "Hi");
}

#[test]
fn extract_from_syntax_refuses_a_truncated_listing() {
    let nodes = vec![raw("document", 0, 9, 2), raw("text", 0, 2, 0)];
    let mut page = WikiPage::new().unwrap();
    assert_eq!(page.extract_from_syntax("<p>Hi</p>", &nodes).unwrap_err(), WikiError::Parse);
}

#[test]
fn extract_from_syntax_refuses_trailing_nodes() {
    let nodes = vec![raw("text", 0, 2, 0), raw("text", 2, 4, 0)];
    let mut page = WikiPage::new().unwrap();
    assert_eq!(page.extract_from_syntax("abcd", &nodes).unwrap_err(), WikiError::Parse);
}

#[test]
fn text_outside_paragraphs_is_dropped() {
    let segs = segments(r#"<div>Stray</div><p id="a">X</p> tail <b>y</b>"#);
    assert_eq!(segs.len(), 1);
    assert_eq!(segs[0].mwid, "a");
    assert_eq!(segs[0].text, "X");
    assert!(segments("Hello <b>x</b>").is_empty());
}

#[test]
fn one_segment_per_paragraph_in_order() {
    let segs = segments(r#"<p id="1">a</p><div><p id="2">b</p></div><h2>H<p id="x">h</p></h2><div class="navbox"><p id="n">n</p></div><p>c</p>"#);
    let ids: Vec<&str> = segs.iter().map(|s| s.mwid.as_str()).collect();
    assert_eq!(ids, vec!["1", "2", ""]);
}

#[test]
fn new_and_default_pages_extract() {
    assert!(WikiPage::new().is_ok());
    let mut page = WikiPage::default();
    assert!(page.extract_text("<p>ok</p>").is_ok());
    assert_eq!(WikiPage::extract_text_plain("").unwrap(), "");
}

#[test]
fn unicode_whitespace_is_trimmed() {
    let segs = segments("<p>\u{a0}Hello\u{3000}</p>");
    assert_eq!(segs[0].text, "Hello");
}

#[test]
fn nested_inline_text_is_collected() {
    let segs = segments("<p><b>x <i>y</i></b></p>");
    assert!(matches!(&segs[0].content[0], InlineNode::Bold(s) if s == "x y"));
    assert_eq!(segs[0].text, "x y");
}

#[test]
fn heading_text_joins_child_elements_with_a_space() {
    let segs = segments("<h2>His<span>tory</span></h2><p>A.</p>");
    assert_eq!(segs[0].section, "His tory");
}

#[test]
fn class_tokens_are_matched_whole() {
    let segs = segments(r#"<p>One.</p><div class="mw-references"><p>Two.</p></div><div class="x noprint"><p>Three.</p></div>"#);
    assert_eq!(segs.len(), 2);
    assert_eq!(segs[1].text, "Two.");
}

#[test]
fn links_resolve_against_the_base_url() {
    let mut page = WikiPage::new().unwrap();
    page.set_base_url("ml");
    let segs = page
        .extract_text(r##"<p><a href="./Kerala">K</a> <a href="https://x.org/y">X</a> <a href="#cite_note-1">1</a></p>"##)
        .unwrap();
    assert!(matches!(&segs[0].content[0], InlineNode::Link { href, .. } if href == "https://ml.wikipedia.org/wiki/Kerala"));
    assert!(matches!(&segs[0].content[1], InlineNode::Link { href, .. } if href == "https://x.org/y"));
    assert!(matches!(&segs[0].content[2], InlineNode::Link { href, .. } if href == "#cite_note-1"));
}

#[test]
fn deeper_headings_close_at_a_shallower_one() {
    let segs = segments("<h2>A</h2><h3>B</h3><h4>C</h4><p>x</p><h3>D</h3><p>y</p>");
    assert_eq!(segs[0].section, "A - B - C");
    assert_eq!(segs[0].section_level, 4);
    assert_eq!(segs[1].section, "A - D");
    assert_eq!(segs[1].section_level, 3);
}

#[test]
fn plain_output_exact() {
    let segs = segments("<p>Intro.</p><h2>History</h2><p>A.</p>");
    assert_eq!(segs.format_plain(), "\nIntro.\n\n## History\n\nA.\n");
}

#[test]
fn plain_heading_is_the_last_path_component() {
    let segs = vec![segment("x", "A - B - C", 4)];
    assert_eq!(format_plain(&segs), "#### C\n\nx\n");
}

#[test]
fn plain_heading_has_at_least_one_hash() {
    let segs = vec![segment("x", "S", 0)];
    assert_eq!(format_plain(&segs), "# S\n\nx\n");
}

#[test]
fn markdown_output_exact() {
    let segs = segments(r#"<h2>T</h2><p><b>B</b> x <a href="./Y">y</a></p>"#);
    assert_eq!(segs.format_markdown(), "## T\n\n**B** x [y](./Y)\n");
}

#[test]
fn blank_segments_are_skipped_by_every_format() {
    let with_blank = vec![segment("a", "", 0), segment("  ", "S", 2), segment("b", "", 0)];
    let without = vec![segment("a", "", 0), segment("b", "", 0)];
    assert_eq!(format_plain(&with_blank), format_plain(&without));
    assert_eq!(format_markdown(&with_blank), format_markdown(&without));
    assert_eq!(format_plain(&with_blank), "\na\n\nb\n");
    let tree = article_tree(&with_blank);
    assert_eq!(tree.intro, vec!["a".to_string(), "b".to_string()]);
    assert!(tree.sections.is_empty());
}

#[test]
fn tree_merges_repeated_headings_and_keeps_every_paragraph() {
    let segs = segments("<h2>H</h2><p>a</p><h2>H</h2><p>b</p><h3>S</h3><p>c</p>");
    let tree = segs.article_tree();
    assert_eq!(tree.sections.len(), 1);
    assert_eq!(tree.sections[0].paragraphs, vec!["a".to_string(), "b".to_string()]);
    assert_eq!(tree.sections[0].subsections[0].paragraphs, vec!["c".to_string()]);
    assert_eq!(tree.sections[0].subsections[0].level, 3);
}

#[test]
fn tree_levels_count_down_from_the_segment_level() {
    let segs = vec![segment("x", "A - B", 1)];
    let tree = article_tree(&segs);
    assert_eq!(tree.sections[0].heading, "A");
    assert_eq!(tree.sections[0].level, 0);
    assert_eq!(tree.sections[0].subsections[0].heading, "B");
    assert_eq!(tree.sections[0].subsections[0].level, 1);
}

#[test]
fn segment_texts_join_with_blank_lines() {
    let segs = vec![segment(" a ", "", 0), segment(" ", "", 0), segment("b", "", 0)];
    assert_eq!(join_segment_texts(&segs), "a\n\nb");
}

#[test]
fn plain_text_strips_markup() {
    let link = InlineNode::Link { text: "t".to_string(), href: "h".to_string() };
    assert_eq!(link.plain_text(), "t");
    assert_eq!(InlineNode::Bold("b".to_string()).plain_text(), "b");
}

#[test]
fn article_request_is_normalised() {
    let (language, title) = check_article_request(" EN ", " Rust language ").unwrap();
    assert_eq!(language, "en");
    assert_eq!(title, "Rust_language");
}

#[test]
fn article_request_refuses_bad_language() {
    assert_eq!(check_article_request("e n", "X").unwrap_err(), RequestError::InvalidLanguage);
    assert_eq!(check_article_request("  ", "X").unwrap_err(), RequestError::InvalidLanguage);
    assert_eq!(check_article_request("e_n", "X").unwrap_err(), RequestError::InvalidLanguage);
}

#[test]
fn article_request_refuses_missing_title() {
    assert_eq!(check_article_request("zh-yue", " \t").unwrap_err(), RequestError::MissingTitle);
}

#[test]
fn output_kinds_by_extension() {
    assert_eq!(output_kind_of("md"), Some(OutputKind::Markdown));
    assert_eq!(output_kind_of("txt"), Some(OutputKind::Plain));
    assert_eq!(output_kind_of("json"), Some(OutputKind::Json));
    assert_eq!(output_kind_of("html"), None);
}

#[test]
fn not_found_is_recognised() {
    assert!(is_not_found("Failed to fetch article: HTTP 404 Not Found"));
    assert!(!is_not_found("Failed to fetch article: HTTP 500 Internal Server Error"));
}

#[test]
fn language_codes_are_checked_character_by_character() {
    assert!(is_valid_language("en"));
    assert!(is_valid_language("zh-min-nan"));
    assert!(is_valid_language("be-x-old2"));
    assert!(!is_valid_language(""));
    assert!(!is_valid_language("En"));
    assert!(!is_valid_language("en/"));
}

#[test]
fn titles_are_trimmed_and_underscored() {
    assert_eq!(title_to_fetch("  Liquid oxygen "), Some("Liquid_oxygen".to_string()));
    assert_eq!(title_to_fetch("കേരളം"), Some("കേരളം".to_string()));
    assert_eq!(title_to_fetch("\u{3000}"), None);
}

#[test]
fn set_language_ignores_a_missing_or_empty_code() {
    let html = r#"<p><a href="./Kerala">K</a></p>"#;
    let href_of = |page: &mut WikiPage| match &page.extract_text(html).unwrap()[0].content[0] {
        InlineNode::Link { href, .. } => href.clone(),
        _ => panic!("expected a link"),
    };
    let mut page = WikiPage::new().unwrap();
    page.set_language(None);
    assert_eq!(href_of(&mut page), "./Kerala");
    page.set_language(Some(""));
    assert_eq!(href_of(&mut page), "./Kerala");
    page.set_language(Some("ml"));
    assert_eq!(href_of(&mut page), "https://ml.wikipedia.org/wiki/Kerala");
    page.set_language(Some(""));
    assert_eq!(href_of(&mut page), "https://ml.wikipedia.org/wiki/Kerala");
}

#[test]
fn markdown_of_plain_content_is_plain_output() {
    let segs = vec![segment("a", "", 0), segment("b", "H", 2), segment("c", "H - S", 3)];
    assert_eq!(format_markdown(&segs), format_plain(&segs));
    assert_eq!(format_plain(&segs), "\na\n\n## H\n\nb\n\n### S\n\nc\n");
}

#[test]
fn plain_output_is_empty_exactly_when_every_segment_is_blank() {
    assert_eq!(format_plain(&[]), "");
    assert_eq!(format_plain(&[segment(" ", "S", 2), segment("\n", "", 0)]), "");
    let out = format_plain(&[segment(" ", "S", 2), segment("x", "", 0)]);
    assert_eq!(out, "\nx\n");
    assert!(out.ends_with('\n'));
}

#[test]
fn plain_output_ignores_mwid_and_inline_content() {
    let mut changed = segment("x", "S", 2);
    changed.mwid = "p1".to_string();
    changed.content = vec![InlineNode::Bold("other".to_string())];
    assert_eq!(format_plain(&[changed]), format_plain(&[segment("x", "S", 2)]));
}

#[test]
fn tree_intro_keeps_unheaded_paragraphs_in_order() {
    let segs = vec![segment(" a ", "", 0), segment("b", "H", 2), segment("c", "", 0)];
    let tree = article_tree(&segs);
    assert_eq!(tree.intro, vec!["a".to_string(), "c".to_string()]);
}

#[test]
fn tree_sibling_headings_are_distinct_in_first_seen_order() {
    let segs = vec![
        segment("1", "B", 2),
        segment("2", "A", 2),
        segment("3", "B - X", 3),
        segment("4", "A", 2),
    ];
    let tree = article_tree(&segs);
    let heads: Vec<&str> = tree.sections.iter().map(|s| s.heading.as_str()).collect();
    assert_eq!(heads, vec!["B", "A"]);
    assert_eq!(tree.sections[1].paragraphs, vec!["2".to_string(), "4".to_string()]);
    assert_eq!(tree.sections[0].subsections[0].heading, "X");
}

#[test]
fn heading_and_inline_texts_carry_no_outer_whitespace() {
    let segs = segments("<h2>  A <span> B </span>  </h2><p><b>  x <i> y </i> </b></p>");
    assert_eq!(segs[0].section, "A B");
    assert!(matches!(&segs[0].content[0], InlineNode::Bold(s) if s == "x y"));
}
