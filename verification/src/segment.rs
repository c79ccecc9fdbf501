//! The extracted content: paragraphs with their inline structure and section context.

use vstd::prelude::*;

verus! {

/// An inline content node within a paragraph.
///
/// Captures the inline structure of paragraph text so formatters can render
/// bold, italic, and link markup.
#[derive(Debug, Clone)]
pub enum InlineNode {
    /// Plain text.
    Text(String),
    /// Bold text (`<b>` or `<strong>`).
    Bold(String),
    /// Italic text (`<i>` or `<em>`).
    Italic(String),
    /// A hyperlink (`<a href="...">`).
    Link { text: String, href: String },
}

/// The mathematical value of an [`InlineNode`].
pub enum InlineView {
    Text(Seq<char>),
    Bold(Seq<char>),
    Italic(Seq<char>),
    Link { text: Seq<char>, href: Seq<char> },
}

impl InlineView {
    /// The text of the node without its markup.
    pub open spec fn plain_text(self) -> Seq<char> {
        match self {
            InlineView::Text(s) => s,
            InlineView::Bold(s) => s,
            InlineView::Italic(s) => s,
            InlineView::Link { text, href } => text,
        }
    }
}

impl View for InlineNode {
    type V = InlineView;

    open spec fn view(&self) -> InlineView {
        match self {
            InlineNode::Text(s) => InlineView::Text(s@),
            InlineNode::Bold(s) => InlineView::Bold(s@),
            InlineNode::Italic(s) => InlineView::Italic(s@),
            InlineNode::Link { text, href } => InlineView::Link { text: text@, href: href@ },
        }
    }
}

impl InlineNode {
    /// Returns the plain text content, stripping any markup.
    pub fn plain_text(&self) -> (r: &str)
        ensures
            r@ == self@.plain_text(),
    {
        match self {
            InlineNode::Text(s) => s.as_str(),
            InlineNode::Bold(s) => s.as_str(),
            InlineNode::Italic(s) => s.as_str(),
            InlineNode::Link { text, href: _ } => text.as_str(),
        }
    }
}

/// A single paragraph-level text segment extracted from a Wikipedia article.
///
/// Each segment corresponds to a `<p>` block in the HTML. It captures the plain
/// text, the inline content structure, the MediaWiki paragraph ID, the section
/// heading path, and the heading depth.
#[derive(Debug, Clone)]
pub struct TextSegment {
    /// The extracted plain text of this segment (inline markup stripped).
    pub text: String,
    /// The inline content nodes, preserving bold/italic/link structure.
    pub content: Vec<InlineNode>,
    /// The `id` attribute of the enclosing `<p>` element, if present.
    pub mwid: String,
    /// The section heading path, e.g. `"History - Early life"`.
    pub section: String,
    /// The heading level of the current section (1–6). 0 if before any heading.
    pub section_level: u8,
}

/// The mathematical value of a [`TextSegment`].
pub struct SegmentView {
    pub text: Seq<char>,
    pub content: Seq<InlineView>,
    pub mwid: Seq<char>,
    pub section: Seq<char>,
    pub section_level: u8,
}

/// The views of a sequence of inline nodes.
pub open spec fn inline_views(s: Seq<InlineNode>) -> Seq<InlineView> {
    s.map_values(|n: InlineNode| n@)
}

impl View for TextSegment {
    type V = SegmentView;

    open spec fn view(&self) -> SegmentView {
        SegmentView {
            text: self.text@,
            content: inline_views(self.content@),
            mwid: self.mwid@,
            section: self.section@,
            section_level: self.section_level,
        }
    }
}

/// The views of a sequence of segments.
pub open spec fn segment_views(s: Seq<TextSegment>) -> Seq<SegmentView> {
    s.map_values(|t: TextSegment| t@)
}

} // verus!
