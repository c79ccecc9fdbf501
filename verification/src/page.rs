//! The extractor: walks the HTML syntax tree and collects one text segment per
//! paragraph, tracking the section headings that each paragraph stands under.

use vstd::pervasive::unreached;
use vstd::prelude::*;

use tree_sitter::Parser;

use crate::html::{
    AttrView, attr_or_empty, element_text, element_text_exec, excluded_class, find_attr_exec,
    get_header_level, has_token, header_level, inline_text, inline_text_exec,
    is_excluded_class, law_element_texts_are_trimmed, law_excluded_class_names,
    law_resolve_href_idempotent, parse_element, parse_element_exec, resolve_href,
    resolve_href_exec, skipped_class_name,
};
use crate::segment::{InlineNode, InlineView, SegmentView, TextSegment, inline_views, segment_views};
use crate::syntax::{
    NodeKind, RawNode, SyntaxNode, SyntaxTree, html_syntax, new_html_parser, node_text,
    node_text_exec, parse_html_nodes, raw_views, syntax_tree, syntax_tree_exec, tree_of,
};
use crate::text::{
    ends_with_char, has_prefix, is_trimmed, is_whitespace, join, join_strings,
    lemma_join_push, lemma_trim_is_trimmed, lemma_trimmed_is_fixed, push_char, str_eq,
    string_views, trim, trim_str,
};

verus! {

broadcast use {crate::syntax::lemma_tree_of_fields, crate::syntax::lemma_tree_of_child};

/// An open section heading: its title and level.
#[derive(Debug, Clone)]
pub struct SectionInfo {
    pub title: String,
    pub level: u8,
}

/// The mathematical value of a [`SectionInfo`].
pub struct HeadingView {
    pub title: Seq<char>,
    pub level: u8,
}

impl View for SectionInfo {
    type V = HeadingView;

    open spec fn view(&self) -> HeadingView {
        HeadingView { title: self.title@, level: self.level }
    }
}

/// The views of a sequence of section headings.
pub open spec fn heading_views(s: Seq<SectionInfo>) -> Seq<HeadingView> {
    s.map_values(|h: SectionInfo| h@)
}

/// What the extractor has collected so far: the segments, and the stack of open
/// section headings.
pub struct PageState {
    pub segments: Seq<SegmentView>,
    pub sections: Seq<HeadingView>,
}

/// The state before anything is collected.
pub open spec fn empty_state() -> PageState {
    PageState { segments: Seq::empty(), sections: Seq::empty() }
}

/// The titles of the open headings.
pub open spec fn titles(secs: Seq<HeadingView>) -> Seq<Seq<char>> {
    secs.map_values(|h: HeadingView| h.title)
}

/// The section path: the titles of the open headings joined by `" - "`.
pub open spec fn section_path(secs: Seq<HeadingView>) -> Seq<char> {
    join(titles(secs), " - "@)
}

/// The level of the innermost open heading, or 0 when none is open.
pub open spec fn section_depth(secs: Seq<HeadingView>) -> u8 {
    if secs.len() == 0 {
        0
    } else {
        secs.last().level
    }
}

/// The open headings whose level is below `level`, in order.
pub open spec fn keep_below(secs: Seq<HeadingView>, level: u8) -> Seq<HeadingView>
    decreases secs.len(),
{
    if secs.len() == 0 {
        Seq::empty()
    } else {
        let rest = keep_below(secs.drop_last(), level);
        if secs.last().level < level {
            rest.push(secs.last())
        } else {
            rest
        }
    }
}

/// The open headings after a heading of `level` titled `title`: headings at that level
/// or deeper close, and the new one opens.
pub open spec fn update_sections(secs: Seq<HeadingView>, level: u8, title: Seq<char>) -> Seq<
    HeadingView,
> {
    keep_below(secs, level).push(HeadingView { title, level })
}

/// A new, empty segment under the open headings.
pub open spec fn new_segment(secs: Seq<HeadingView>, mwid: Seq<char>) -> SegmentView {
    SegmentView {
        text: Seq::empty(),
        content: Seq::empty(),
        mwid,
        section: section_path(secs),
        section_level: section_depth(secs),
    }
}

/// The state with a new segment started.
pub open spec fn push_segment(st: PageState, mwid: Seq<char>) -> PageState {
    PageState { segments: st.segments.push(new_segment(st.sections, mwid)), ..st }
}

/// The text of a segment after an inline node's plain text is added: a space
/// separates it from non-empty text that does not already end with one, and the added
/// text is trimmed.
pub open spec fn append_plain(text: Seq<char>, plain: Seq<char>) -> Seq<char> {
    (if text.len() > 0 && plain.len() > 0 && text.last() != ' ' {
        text.push(' ')
    } else {
        text
    }) + trim(plain)
}

/// The state with an inline node added to the last segment; nothing changes when there
/// is no segment yet.
pub open spec fn push_inline(st: PageState, node: InlineView) -> PageState {
    if st.segments.len() == 0 {
        st
    } else {
        let seg = st.segments.last();
        let seg2 = SegmentView {
            text: append_plain(seg.text, node.plain_text()),
            content: seg.content.push(node),
            ..seg
        };
        PageState { segments: st.segments.update(st.segments.len() - 1, seg2), ..st }
    }
}

/// The state after a text node: inside a paragraph its trimmed text, when non-empty,
/// is added to the paragraph's segment; text outside any paragraph is dropped.
pub open spec fn text_step(html: Seq<char>, st: PageState, t: SyntaxTree, ip: bool) -> PageState {
    if !ip {
        st
    } else {
        match node_text(html, t) {
            Some(s) => if trim(s).len() > 0 {
                push_inline(st, InlineView::Text(trim(s)))
            } else {
                st
            },
            None => st,
        }
    }
}

/// The state after an inline node whose text may be empty: empty nodes are dropped.
pub open spec fn push_nonempty(st: PageState, node: InlineView) -> PageState {
    if node.plain_text().len() > 0 {
        push_inline(st, node)
    } else {
        st
    }
}

/// The state after an element with tag `tag` and attributes `attrs`.
pub open spec fn walk_element(
    html: Seq<char>,
    base: Option<Seq<char>>,
    st: PageState,
    t: SyntaxTree,
    tag: Seq<char>,
    attrs: Seq<AttrView>,
    ip: bool,
) -> PageState
    decreases t, 1int, 0int,
{
    if tag == "link"@ {
        st
    } else if excluded_class(attr_or_empty(attrs, "class"@)) {
        st
    } else if header_level(tag) is Some {
        let h = element_text(html, t);
        if h.len() > 0 {
            PageState { sections: update_sections(st.sections, header_level(tag).unwrap(), h), ..st }
        } else {
            st
        }
    } else if tag == "p"@ {
        walk_children(
            html,
            base,
            push_segment(st, attr_or_empty(attrs, "id"@)),
            t,
            t.children.len() as int,
            true,
        )
    } else if ip && (tag == "b"@ || tag == "strong"@) {
        push_nonempty(st, InlineView::Bold(inline_text(html, t)))
    } else if ip && (tag == "i"@ || tag == "em"@) {
        push_nonempty(st, InlineView::Italic(inline_text(html, t)))
    } else if ip && tag == "a"@ {
        push_nonempty(
            st,
            InlineView::Link {
                text: inline_text(html, t),
                href: resolve_href(base, attr_or_empty(attrs, "href"@)),
            },
        )
    } else {
        walk_children(html, base, st, t, t.children.len() as int, ip)
    }
}

/// The state after a node and its subtree. `ip` tells whether the node stands inside a
/// paragraph.
pub open spec fn walk(
    html: Seq<char>,
    base: Option<Seq<char>>,
    st: PageState,
    t: SyntaxTree,
    ip: bool,
) -> PageState
    decreases t, 2int, 0int,
{
    match t.kind {
        NodeKind::Text => text_step(html, st, t, ip),
        NodeKind::ScriptElement => st,
        NodeKind::StyleElement => st,
        NodeKind::Element => match parse_element(html, t) {
            Some(p) => walk_element(html, base, st, t, p.0, p.1, ip),
            None => st,
        },
        _ => walk_children(html, base, st, t, t.children.len() as int, ip),
    }
}

/// The state after the first `n` children of a node, in order.
pub open spec fn walk_children(
    html: Seq<char>,
    base: Option<Seq<char>>,
    st: PageState,
    t: SyntaxTree,
    n: int,
    ip: bool,
) -> PageState
    decreases t, 0int, n,
{
    if n <= 0 || n > t.children.len() {
        st
    } else {
        walk(html, base, walk_children(html, base, st, t, n - 1, ip), t.children[n - 1], ip)
    }
}

/// The extractor's state once the segments of a document's syntax tree are handed
/// out: no segments, and the headings open at the end of the document.
pub open spec fn state_after(html: Seq<char>, base: Option<Seq<char>>, t: SyntaxTree) -> PageState {
    PageState { segments: Seq::empty(), sections: walk(html, base, empty_state(), t, false).sections }
}

/// The segments extracted from a document's syntax tree, with `base` as the base URL.
pub open spec fn extract(html: Seq<char>, base: Option<Seq<char>>, t: SyntaxTree) -> Seq<
    SegmentView,
> {
    walk(html, base, empty_state(), t, false).segments
}

/// Why extraction failed.
#[derive(Debug, Clone, Copy, PartialEq, Eq, Structural)]
pub enum WikiError {
    /// The node listing given is not the preorder listing of one syntax tree.
    Parse,
}

impl WikiError {
    /// A description of the error.
    pub fn message(&self) -> (r: &'static str)
        ensures
            r@ == "Failed to parse HTML"@,
    {
        match self {
            WikiError::Parse => "Failed to parse HTML",
        }
    }
}

/// A reusable Wikipedia HTML parser.
///
/// Reusing a single `WikiPage` instance across multiple articles is more efficient
/// than creating one per article, since it keeps one tree-sitter parser for all calls.
pub struct WikiPage {
    parser: Parser,
    text_segments: Vec<TextSegment>,
    current_sections: Vec<SectionInfo>,
    /// Base URL used to resolve relative hrefs, e.g. `https://en.wikipedia.org/wiki/`.
    base_url: Option<String>,
}

/// The base URL of the Wikipedia of a language.
pub open spec fn wiki_base_url(language: Seq<char>) -> Seq<char> {
    "https://"@ + language + ".wikipedia.org/wiki/"@
}

impl WikiPage {
    /// What the page has collected so far.
    pub closed spec fn state(&self) -> PageState {
        PageState {
            segments: segment_views(self.text_segments@),
            sections: heading_views(self.current_sections@),
        }
    }

    /// The base URL that link targets are resolved against.
    pub closed spec fn base(&self) -> Option<Seq<char>> {
        match self.base_url {
            Some(b) => Some(b@),
            None => None,
        }
    }

    /// Creates a new `WikiPage`, initialising the tree-sitter HTML parser. It always
    /// succeeds: the bundled grammar is always accepted.
    pub fn new() -> (r: Result<Self, WikiError>)
        ensures
            r matches Ok(p) && p.base() is None && p.state() == empty_state(),
    {
        Ok(Self::fresh())
    }

    /// A page with the HTML grammar, no base URL and nothing collected.
    fn fresh() -> (p: Self)
        ensures
            p.base() is None,
            p.state() == empty_state(),
    {
        let parser = match new_html_parser() {
            Ok(parser) => parser,
            Err(_) => unreached(),
        };
        let p = WikiPage {
            parser,
            text_segments: Vec::new(),
            current_sections: Vec::new(),
            base_url: None,
        };
        assert(segment_views(p.text_segments@) =~= Seq::<SegmentView>::empty());
        assert(heading_views(p.current_sections@) =~= Seq::<HeadingView>::empty());
        p
    }

    /// Set the base URL for resolving relative link hrefs.
    ///
    /// Call this before [`WikiPage::extract_text`] when the HTML comes from a known origin.
    /// The `language` parameter is a Wikipedia language code (e.g. `"en"`, `"ml"`).
    pub fn set_base_url(&mut self, language: &str)
        ensures
            final(self).base() == Some(wiki_base_url(language@)),
            final(self).state() == old(self).state(),
    {
        let mut url = String::from_str("https://");
        url.append(language);
        url.append(".wikipedia.org/wiki/");
        self.base_url = Some(url);
    }

    /// Set the base URL from an optional language code: a non-empty code sets it as
    /// [`WikiPage::set_base_url`] does; `None` or an empty code leaves the page as it is,
    /// so `"./"` hrefs stay unresolved.
    pub fn set_language(&mut self, language: Option<&str>)
        ensures
            final(self).state() == old(self).state(),
            final(self).base() == (match language {
                Some(l) if l@.len() > 0 => Some(wiki_base_url(l@)),
                _ => old(self).base(),
            }),
    {
        if let Some(lang) = language {
            if lang.unicode_len() > 0 {
                self.set_base_url(lang);
            }
        }
    }

    /// Resolve an href against the base URL.
    fn resolve_href(&self, href: &str) -> (r: String)
        ensures
            r@ == resolve_href(self.base(), href@),
    {
        resolve_href_exec(&self.base_url, href)
    }

    /// The section path of the open headings.
    fn get_current_section_string(&self) -> (r: String)
        ensures
            r@ == section_path(self.state().sections),
    {
        let ghost secs = heading_views(self.current_sections@);
        let ghost ts = titles(secs);
        let mut out = String::new();
        for i in 0..self.current_sections.len()
            invariant
                secs == heading_views(self.current_sections@),
                ts == titles(secs),
                out@ == join(ts.take(i as int), " - "@),
        {
            if i > 0 {
                out.append(" - ");
            }
            out.append(self.current_sections[i].title.as_str());
            assert(ts.take(i + 1).drop_last() =~= ts.take(i as int));
        }
        assert(ts.take(self.current_sections@.len() as int) =~= ts);
        out
    }

    /// The level of the innermost open heading, or 0.
    fn get_current_section_level(&self) -> (r: u8)
        ensures
            r == section_depth(self.state().sections),
    {
        if self.current_sections.len() == 0 {
            0
        } else {
            self.current_sections[self.current_sections.len() - 1].level
        }
    }

    /// Closes the headings at `level` or deeper and opens a new one.
    fn update_sections(&mut self, level: u8, title: String)
        ensures
            final(self).state().sections == update_sections(
                old(self).state().sections,
                level,
                title@,
            ),
            final(self).state().segments == old(self).state().segments,
            final(self).base() == old(self).base(),
    {
        let ghost secs = heading_views(self.current_sections@);
        let mut kept: Vec<SectionInfo> = Vec::new();
        assert(heading_views(kept@) =~= keep_below(secs.take(0), level));
        for i in 0..self.current_sections.len()
            invariant
                secs == heading_views(self.current_sections@),
                heading_views(kept@) == keep_below(secs.take(i as int), level),
        {
            let s = &self.current_sections[i];
            assert(secs.take(i + 1).drop_last() =~= secs.take(i as int));
            if s.level < level {
                let ghost before = heading_views(kept@);
                kept.push(SectionInfo { title: s.title.clone(), level: s.level });
                assert(heading_views(kept@) =~= before.push(secs[i as int]));
            }
        }
        assert(secs.take(self.current_sections@.len() as int) =~= secs);
        let ghost before = heading_views(kept@);
        kept.push(SectionInfo { title, level });
        assert(heading_views(kept@) =~= before.push(HeadingView { title: title@, level }));
        self.current_sections = kept;
    }

    /// Starts a new, empty segment under the open headings.
    fn push_segment(&mut self, mwid: String)
        ensures
            final(self).state() == push_segment(old(self).state(), mwid@),
            final(self).base() == old(self).base(),
    {
        let section = self.get_current_section_string();
        let section_level = self.get_current_section_level();
        let seg = TextSegment {
            text: String::new(),
            content: Vec::new(),
            mwid,
            section,
            section_level,
        };
        assert(inline_views(seg.content@) =~= Seq::<InlineView>::empty());
        let ghost before = segment_views(self.text_segments@);
        self.text_segments.push(seg);
        assert(segment_views(self.text_segments@) =~= before.push(seg@));
    }

    /// Push an inline node onto the last text segment, also updating the plain text.
    fn push_inline(&mut self, node: InlineNode)
        ensures
            final(self).state() == push_inline(old(self).state(), node@),
            final(self).base() == old(self).base(),
    {
        if self.text_segments.len() == 0 {
            return;
        }
        let ghost before = segment_views(self.text_segments@);
        let ghost nv = node@;
        let mut seg = self.text_segments.pop().unwrap();
        assert(seg@ == before.last());
        assert(segment_views(self.text_segments@) =~= before.drop_last());
        let plain = node.plain_text();
        let plain_nonempty = !plain.is_empty();
        let trimmed = trim_str(plain);
        if !seg.text.as_str().is_empty() && plain_nonempty && !ends_with_char(
            seg.text.as_str(),
            ' ',
        ) {
            push_char(&mut seg.text, ' ');
        }
        seg.text.append(trimmed.as_str());
        let ghost content_before = inline_views(seg.content@);
        seg.content.push(node);
        assert(inline_views(seg.content@) =~= content_before.push(nv));
        let ghost mid = segment_views(self.text_segments@);
        self.text_segments.push(seg);
        assert(segment_views(self.text_segments@) =~= mid.push(seg@));
        assert(segment_views(self.text_segments@) =~= before.update(before.len() - 1, seg@));
    }

    /// Walks the children of `node`, in order.
    fn walk_children(&mut self, node: &SyntaxNode, html: &str, inside_paragraph: bool)
        ensures
            final(self).state() == walk_children(
                html@,
                old(self).base(),
                old(self).state(),
                tree_of(*node),
                tree_of(*node).children.len() as int,
                inside_paragraph,
            ),
            final(self).base() == old(self).base(),
        decreases node, 0int,
    {
        let ghost t = tree_of(*node);
        let ghost base = self.base();
        let ghost st0 = self.state();
        for i in 0..node.children.len()
            invariant
                t == tree_of(*node),
                base == self.base(),
                self.state() == walk_children(html@, base, st0, t, i as int, inside_paragraph),
        {
            self.walk_and_collect(&node.children[i], html, inside_paragraph);
        }
    }

    /// Collects the text of `node` and its subtree.
    fn walk_and_collect(&mut self, node: &SyntaxNode, html: &str, inside_paragraph: bool)
        ensures
            final(self).state() == walk(
                html@,
                old(self).base(),
                old(self).state(),
                tree_of(*node),
                inside_paragraph,
            ),
            final(self).base() == old(self).base(),
        decreases node, 2int,
    {
        match node.kind {
            NodeKind::Text => {
                if inside_paragraph {
                    if let Some(text) = node_text_exec(html, node) {
                        let trimmed = trim_str(text.as_str());
                        if !trimmed.as_str().is_empty() {
                            self.push_inline(InlineNode::Text(trimmed));
                        }
                    }
                }
            },
            NodeKind::ScriptElement | NodeKind::StyleElement => {},
            NodeKind::Element => {
                if let Some((tag, attributes)) = parse_element_exec(html, node) {
                    self.walk_element(node, html, tag, attributes, inside_paragraph);
                }
            },
            _ => {
                self.walk_children(node, html, inside_paragraph);
            },
        }
    }

    /// Collects the text of an element with tag `tag` and attributes `attributes`.
    fn walk_element(
        &mut self,
        node: &SyntaxNode,
        html: &str,
        tag: String,
        attributes: Vec<(String, String)>,
        inside_paragraph: bool,
    )
        ensures
            final(self).state() == walk_element(
                html@,
                old(self).base(),
                old(self).state(),
                tree_of(*node),
                tag@,
                crate::html::attr_views(attributes@),
                inside_paragraph,
            ),
            final(self).base() == old(self).base(),
        decreases node, 1int,
    {
        let ghost attrs = crate::html::attr_views(attributes@);
        if str_eq(tag.as_str(), "link") {
            return;
        }
        let class_attr = match find_attr_exec(&attributes, "class") {
            Some(v) => v,
            None => String::new(),
        };
        assert(class_attr@ == attr_or_empty(attrs, "class"@));
        if is_excluded_class(class_attr.as_str()) {
            return;
        }
        if let Some(level) = get_header_level(tag.as_str()) {
            let header_text = element_text_exec(html, node);
            if !header_text.as_str().is_empty() {
                self.update_sections(level, header_text);
            }
            return;
        }
        if str_eq(tag.as_str(), "p") {
            let mwid = match find_attr_exec(&attributes, "id") {
                Some(v) => v,
                None => String::new(),
            };
            self.push_segment(mwid);
            self.walk_children(node, html, true);
            return;
        }
        if inside_paragraph {
            if str_eq(tag.as_str(), "b") || str_eq(tag.as_str(), "strong") {
                let text = inline_text_exec(html, node);
                if !text.as_str().is_empty() {
                    self.push_inline(InlineNode::Bold(text));
                }
                return;
            }
            if str_eq(tag.as_str(), "i") || str_eq(tag.as_str(), "em") {
                let text = inline_text_exec(html, node);
                if !text.as_str().is_empty() {
                    self.push_inline(InlineNode::Italic(text));
                }
                return;
            }
            if str_eq(tag.as_str(), "a") {
                let raw_href = match find_attr_exec(&attributes, "href") {
                    Some(v) => v,
                    None => String::new(),
                };
                let href = self.resolve_href(raw_href.as_str());
                let text = inline_text_exec(html, node);
                if !text.as_str().is_empty() {
                    self.push_inline(InlineNode::Link { text, href });
                }
                return;
            }
        }
        self.walk_children(node, html, inside_paragraph);
    }

    /// Collects one [`TextSegment`] per paragraph of the document whose syntax tree
    /// `nodes` lists in preorder.
    ///
    /// The state of earlier calls is reset first, so the result depends on `html`,
    /// `nodes` and the base URL alone.
    pub fn extract_from_syntax(&mut self, html: &str, nodes: &Vec<RawNode>) -> (r: Result<
        Vec<TextSegment>,
        WikiError,
    >)
        ensures
            syntax_tree(raw_views(nodes@)) matches Some(t) ==> r matches Ok(segs)
                && segment_views(segs@) == extract(html@, old(self).base(), t)
                && final(self).state() == state_after(html@, old(self).base(), t),
            syntax_tree(raw_views(nodes@)) is None ==> r == Err::<Vec<TextSegment>, WikiError>(
                WikiError::Parse,
            ) && final(self).state() == empty_state(),
            final(self).base() == old(self).base(),
    {
        self.clear();
        self.collect_from_syntax(html, nodes)
    }

    /// Forgets the segments and headings collected so far.
    fn clear(&mut self)
        ensures
            final(self).state() == empty_state(),
            final(self).base() == old(self).base(),
    {
        self.text_segments.clear();
        self.current_sections.clear();
        assert(segment_views(self.text_segments@) =~= Seq::<SegmentView>::empty());
        assert(heading_views(self.current_sections@) =~= Seq::<HeadingView>::empty());
    }

    /// Walks the tree that `nodes` lists, from the empty state, and hands out the
    /// segments collected.
    fn collect_from_syntax(&mut self, html: &str, nodes: &Vec<RawNode>) -> (r: Result<
        Vec<TextSegment>,
        WikiError,
    >)
        requires
            old(self).state() == empty_state(),
        ensures
            syntax_tree(raw_views(nodes@)) matches Some(t) ==> r matches Ok(segs)
                && segment_views(segs@) == extract(html@, old(self).base(), t)
                && final(self).state() == state_after(html@, old(self).base(), t),
            syntax_tree(raw_views(nodes@)) is None ==> r == Err::<Vec<TextSegment>, WikiError>(
                WikiError::Parse,
            ) && final(self).state() == empty_state(),
            final(self).base() == old(self).base(),
    {
        match syntax_tree_exec(nodes) {
            Some(root) => {
                self.walk_and_collect(&root, html, false);
                let mut out: Vec<TextSegment> = Vec::new();
                std::mem::swap(&mut out, &mut self.text_segments);
                assert(segment_views(self.text_segments@) =~= Seq::<SegmentView>::empty());
                Ok(out)
            },
            None => Err(WikiError::Parse),
        }
    }

    /// Parses `html` and returns one [`TextSegment`] per paragraph.
    ///
    /// The parser state is reset on each call, so the same `WikiPage` can be
    /// reused safely across multiple articles.
    ///
    /// Skipped elements: `<script>`, `<style>`, `<link>`, and elements with
    /// classes `shortdescription`, `hatnote`, `infobox`, `reference`, `navbox`,
    /// `noprint`, `reflist`, `citation`.
    pub fn extract_text(&mut self, html: &str) -> (r: Result<Vec<TextSegment>, WikiError>)
        ensures
            r matches Ok(segs) && (syntax_tree(html_syntax(html@)) matches Some(t)
                && segment_views(segs@) == extract(html@, old(self).base(), t)
                && final(self).state() == state_after(html@, old(self).base(), t)),
            final(self).base() == old(self).base(),
    {
        self.clear();
        match parse_html_nodes(&mut self.parser, html) {
            Some(nodes) => self.collect_from_syntax(html, &nodes),
            None => unreached(),
        }
    }

    /// Convenience method: parse `html` and return all paragraph text joined by `"\n\n"`.
    pub fn extract_text_plain(html: &str) -> (r: Result<String, WikiError>)
        ensures
            r matches Ok(s) && (syntax_tree(html_syntax(html@)) matches Some(t) && s@
                == plain_join(extract(html@, None, t))),
    {
        let mut page = WikiPage::fresh();
        let segments = match page.extract_text(html) {
            Ok(segments) => segments,
            Err(_) => unreached(),
        };
        Ok(join_segment_texts(segments.as_slice()))
    }
}

/// The non-empty trimmed texts of the segments, in order.
pub open spec fn nonempty_texts(segs: Seq<SegmentView>) -> Seq<Seq<char>>
    decreases segs.len(),
{
    if segs.len() == 0 {
        Seq::empty()
    } else {
        let rest = nonempty_texts(segs.drop_last());
        if trim(segs.last().text).len() > 0 {
            rest.push(trim(segs.last().text))
        } else {
            rest
        }
    }
}

/// The segments' non-empty trimmed texts separated by blank lines.
pub open spec fn plain_join(segs: Seq<SegmentView>) -> Seq<char> {
    join(nonempty_texts(segs), "\n\n"@)
}

/// The segments' non-empty trimmed texts joined by `"\n\n"`.
pub fn join_segment_texts(segments: &[TextSegment]) -> (r: String)
    ensures
        r@ == plain_join(segment_views(segments@)),
{
    let ghost segs = segment_views(segments@);
    let mut texts: Vec<String> = Vec::new();
    for i in 0..segments.len()
        invariant
            segs == segment_views(segments@),
            string_views(texts@) == nonempty_texts(segs.take(i as int)),
    {
        assert(segs.take(i + 1).drop_last() =~= segs.take(i as int));
        let t = trim_str(segments[i].text.as_str());
        if !t.as_str().is_empty() {
            let ghost before = string_views(texts@);
            texts.push(t);
            assert(string_views(texts@) =~= before.push(t@));
        }
    }
    assert(segs.take(segments@.len() as int) =~= segs);
    join_strings(&texts, "\n\n")
}

impl Default for WikiPage {
    /// A page as [`WikiPage::new`] makes it.
    fn default() -> (r: Self)
        ensures
            r.base() is None && r.state() == empty_state(),
    {
        WikiPage::fresh()
    }
}

/// The plain text that a sequence of inline nodes gives, each added as
/// [`append_plain`] adds it.
pub open spec fn content_text(c: Seq<InlineView>) -> Seq<char>
    decreases c.len(),
{
    if c.len() == 0 {
        Seq::empty()
    } else {
        append_plain(content_text(c.drop_last()), c.last().plain_text())
    }
}

/// The plain texts of a sequence of inline nodes, in order.
pub open spec fn plain_texts(c: Seq<InlineView>) -> Seq<Seq<char>> {
    c.map_values(|n: InlineView| n.plain_text())
}

/// Whether every text is non-empty and carries no whitespace at either end.
pub open spec fn pieces_trimmed(ps: Seq<Seq<char>>) -> bool {
    forall|i: int| 0 <= i < ps.len() ==> (#[trigger] ps[i]).len() > 0 && is_trimmed(ps[i])
}

/// The join of texts whose last one is non-empty ends with that text's last character.
proof fn lemma_join_last(ps: Seq<Seq<char>>, sep: Seq<char>)
    requires
        ps.len() > 0,
        ps.last().len() > 0,
    ensures
        join(ps, sep).len() > 0,
        join(ps, sep).last() == ps.last().last(),
{
    if ps.len() > 1 {
        let a = join(ps.drop_last(), sep) + sep;
        assert((a + ps.last()).last() == ps.last().last());
    }
}

/// A segment whose text is its inline content's plain text (the nodes' non-empty,
/// trimmed plain texts joined by single spaces), whose section level is a heading level
/// (1 to 6), or 0 exactly when it stands under no heading.
pub open spec fn segment_wf(seg: SegmentView) -> bool {
    &&& seg.text == content_text(seg.content)
    &&& seg.text == join(plain_texts(seg.content), " "@)
    &&& pieces_trimmed(plain_texts(seg.content))
    &&& seg.section_level <= 6
    &&& (seg.section_level == 0 <==> seg.section.len() == 0)
}

/// Open headings with non-empty titles and heading levels (1 to 6) that strictly
/// increase from the outermost to the innermost.
pub open spec fn headings_wf(secs: Seq<HeadingView>) -> bool {
    &&& forall|i: int| 0 <= i < secs.len() ==> 1 <= #[trigger] secs[i].level <= 6
    &&& forall|i: int| 0 <= i < secs.len() ==> #[trigger] secs[i].title.len() > 0
    &&& forall|i: int, j: int| 0 <= i < j < secs.len() ==> secs[i].level < secs[j].level
}

/// The invariant of the extractor's state.
pub open spec fn state_wf(st: PageState) -> bool {
    &&& headings_wf(st.sections)
    &&& forall|i: int| 0 <= i < st.segments.len() ==> segment_wf(#[trigger] st.segments[i])
}

proof fn lemma_join_nonempty(parts: Seq<Seq<char>>, sep: Seq<char>)
    requires
        parts.len() > 0,
        parts.last().len() > 0,
    ensures
        join(parts, sep).len() > 0,
{
}

proof fn lemma_join_empty(sep: Seq<char>)
    ensures
        join(Seq::<Seq<char>>::empty(), sep).len() == 0,
{
}

proof fn lemma_new_segment_wf(secs: Seq<HeadingView>, mwid: Seq<char>)
    requires
        headings_wf(secs),
    ensures
        segment_wf(new_segment(secs, mwid)),
{
    let seg = new_segment(secs, mwid);
    assert(seg.text == content_text(seg.content));
    if secs.len() > 0 {
        let ts = titles(secs);
        assert(ts.last() == secs[secs.len() - 1].title);
        lemma_join_nonempty(ts, " - "@);
        assert(1 <= secs[secs.len() - 1].level);
    } else {
        assert(titles(secs) =~= Seq::<Seq<char>>::empty());
        lemma_join_empty(" - "@);
    }
}

proof fn lemma_push_segment_wf(st: PageState, mwid: Seq<char>)
    requires
        state_wf(st),
    ensures
        state_wf(push_segment(st, mwid)),
{
    lemma_new_segment_wf(st.sections, mwid);
    let st2 = push_segment(st, mwid);
    assert forall|i: int| 0 <= i < st2.segments.len() implies segment_wf(
        #[trigger] st2.segments[i],
    ) by {
        if i < st.segments.len() {
            assert(st2.segments[i] == st.segments[i]);
        }
    }
}

proof fn lemma_push_inline_wf(st: PageState, node: InlineView)
    requires
        state_wf(st),
        node.plain_text().len() > 0,
        is_trimmed(node.plain_text()),
    ensures
        state_wf(push_inline(st, node)),
{
    if st.segments.len() > 0 {
        let k = st.segments.len() - 1;
        let seg = st.segments.last();
        assert(segment_wf(st.segments[k]));
        let c2 = seg.content.push(node);
        assert(c2.drop_last() =~= seg.content);
        let ps = plain_texts(seg.content);
        let p = node.plain_text();
        assert(plain_texts(c2) =~= ps.push(p));
        lemma_trimmed_is_fixed(p);
        lemma_join_push(ps, p, " "@);
        reveal_strlit(" ");
        if ps.len() > 0 {
            assert(ps.last() == ps[ps.len() - 1]);
            lemma_join_last(ps, " "@);
            assert(!is_whitespace(ps.last().last()));
            assert(seg.text.push(' ') + p =~= seg.text + " "@ + p);
        } else {
            assert(seg.text.len() == 0);
            assert(seg.text + p =~= p);
        }
        assert(append_plain(seg.text, p) == join(ps.push(p), " "@));
        assert(pieces_trimmed(ps.push(p))) by {
            assert forall|i: int| 0 <= i < ps.push(p).len() implies (#[trigger] ps.push(p)[i]).len()
                > 0 && is_trimmed(ps.push(p)[i]) by {
                if i < ps.len() {
                    assert(ps.push(p)[i] == ps[i]);
                }
            }
        }
        let st2 = push_inline(st, node);
        assert forall|i: int| 0 <= i < st2.segments.len() implies segment_wf(
            #[trigger] st2.segments[i],
        ) by {
            if i < k {
                assert(st2.segments[i] == st.segments[i]);
            }
        }
    }
}

proof fn lemma_keep_below(secs: Seq<HeadingView>, level: u8)
    requires
        headings_wf(secs),
    ensures
        headings_wf(keep_below(secs, level)),
        forall|i: int|
            0 <= i < keep_below(secs, level).len() ==> #[trigger] keep_below(secs, level)[i].level
                < level,
        forall|i: int|
            0 <= i < keep_below(secs, level).len() ==> exists|j: int|
                0 <= j < secs.len() && secs[j] == #[trigger] keep_below(secs, level)[i],
    decreases secs.len(),
{
    if secs.len() > 0 {
        let d = secs.drop_last();
        assert(headings_wf(d)) by {
            assert forall|i: int| 0 <= i < d.len() implies 1 <= #[trigger] d[i].level <= 6 by {
                assert(d[i] == secs[i]);
            }
            assert forall|i: int| 0 <= i < d.len() implies #[trigger] d[i].title.len() > 0 by {
                assert(d[i] == secs[i]);
            }
        }
        lemma_keep_below(d, level);
        let rest = keep_below(d, level);
        let last = secs.last();
        assert(1 <= secs[secs.len() - 1].level <= 6);
        assert(secs[secs.len() - 1].title.len() > 0);
        if last.level < level {
            let r = rest.push(last);
            assert forall|i: int| 0 <= i < rest.len() implies #[trigger] rest[i].level
                < last.level by {
                let j = choose|j: int| 0 <= j < d.len() && d[j] == rest[i];
                assert(secs[j] == d[j]);
            }
            assert forall|i: int| 0 <= i < r.len() implies exists|j: int|
                0 <= j < secs.len() && secs[j] == #[trigger] r[i] by {
                if i < rest.len() {
                    let j = choose|j: int| 0 <= j < d.len() && d[j] == rest[i];
                    assert(secs[j] == r[i]);
                } else {
                    assert(secs[secs.len() - 1] == r[i]);
                }
            }
            assert(headings_wf(r)) by {
                assert forall|i: int| 0 <= i < r.len() implies 1 <= #[trigger] r[i].level <= 6 by {
                    if i < rest.len() {
                        assert(r[i] == rest[i]);
                    }
                }
                assert forall|i: int| 0 <= i < r.len() implies #[trigger] r[i].title.len() > 0 by {
                    if i < rest.len() {
                        assert(r[i] == rest[i]);
                    }
                }
                assert forall|i: int, j: int| 0 <= i < j < r.len() implies r[i].level
                    < r[j].level by {
                    if j < rest.len() {
                        assert(r[i] == rest[i] && r[j] == rest[j]);
                    } else {
                        assert(r[i] == rest[i]);
                        assert(rest[i].level < last.level);
                    }
                }
            }
            assert forall|i: int| 0 <= i < r.len() implies #[trigger] r[i].level < level by {
                if i < rest.len() {
                    assert(r[i] == rest[i]);
                }
            }
        } else {
            assert forall|i: int| 0 <= i < rest.len() implies exists|j: int|
                0 <= j < secs.len() && secs[j] == #[trigger] rest[i] by {
                let j = choose|j: int| 0 <= j < d.len() && d[j] == rest[i];
                assert(secs[j] == rest[i]);
            }
        }
    }
}

proof fn lemma_update_sections_wf(secs: Seq<HeadingView>, level: u8, title: Seq<char>)
    requires
        headings_wf(secs),
        1 <= level <= 6,
        title.len() > 0,
    ensures
        headings_wf(update_sections(secs, level, title)),
{
    lemma_keep_below(secs, level);
    let k = keep_below(secs, level);
    let r = update_sections(secs, level, title);
    assert forall|i: int| 0 <= i < r.len() implies 1 <= #[trigger] r[i].level <= 6 by {
        if i < k.len() {
            assert(r[i] == k[i]);
        }
    }
    assert forall|i: int| 0 <= i < r.len() implies #[trigger] r[i].title.len() > 0 by {
        if i < k.len() {
            assert(r[i] == k[i]);
        }
    }
    assert forall|i: int, j: int| 0 <= i < j < r.len() implies r[i].level < r[j].level by {
        assert(r[i] == k[i]);
        if j < k.len() {
            assert(r[j] == k[j]);
        }
    }
}

proof fn lemma_header_level_range(tag: Seq<char>)
    ensures
        header_level(tag) matches Some(l) ==> 1 <= l <= 6,
{
}

proof fn lemma_walk_wf(
    html: Seq<char>,
    base: Option<Seq<char>>,
    st: PageState,
    t: SyntaxTree,
    ip: bool,
)
    requires
        state_wf(st),
    ensures
        state_wf(walk(html, base, st, t, ip)),
    decreases t, 2int, 0int,
{
    match t.kind {
        NodeKind::Text => {
            if ip {
                match node_text(html, t) {
                    Some(s) => {
                        if trim(s).len() > 0 {
                            lemma_trim_is_trimmed(s);
                            lemma_push_inline_wf(st, InlineView::Text(trim(s)));
                        }
                    },
                    None => {},
                }
            }
        },
        NodeKind::ScriptElement => {},
        NodeKind::StyleElement => {},
        NodeKind::Element => {
            match parse_element(html, t) {
                Some(p) => {
                    lemma_walk_element_wf(html, base, st, t, p.0, p.1, ip);
                },
                None => {},
            }
        },
        _ => {
            lemma_walk_children_wf(html, base, st, t, t.children.len() as int, ip);
        },
    }
}

proof fn lemma_walk_element_wf(
    html: Seq<char>,
    base: Option<Seq<char>>,
    st: PageState,
    t: SyntaxTree,
    tag: Seq<char>,
    attrs: Seq<AttrView>,
    ip: bool,
)
    requires
        state_wf(st),
    ensures
        state_wf(walk_element(html, base, st, t, tag, attrs, ip)),
    decreases t, 1int, 0int,
{
    if tag == "link"@ {
    } else if excluded_class(attr_or_empty(attrs, "class"@)) {
    } else if header_level(tag) is Some {
        let h = element_text(html, t);
        if h.len() > 0 {
            lemma_header_level_range(tag);
            lemma_update_sections_wf(st.sections, header_level(tag).unwrap(), h);
        }
    } else if tag == "p"@ {
        let st1 = push_segment(st, attr_or_empty(attrs, "id"@));
        lemma_push_segment_wf(st, attr_or_empty(attrs, "id"@));
        lemma_walk_children_wf(html, base, st1, t, t.children.len() as int, true);
    } else if ip && (tag == "b"@ || tag == "strong"@ || tag == "i"@ || tag == "em"@ || tag
        == "a"@) {
        let it = inline_text(html, t);
        law_element_texts_are_trimmed(html, t);
        if it.len() > 0 {
            lemma_push_inline_wf(st, InlineView::Bold(it));
            lemma_push_inline_wf(st, InlineView::Italic(it));
            lemma_push_inline_wf(
                st,
                InlineView::Link { text: it, href: resolve_href(base, attr_or_empty(attrs, "href"@)) },
            );
        }
    } else {
        lemma_walk_children_wf(html, base, st, t, t.children.len() as int, ip);
    }
}

proof fn lemma_walk_children_wf(
    html: Seq<char>,
    base: Option<Seq<char>>,
    st: PageState,
    t: SyntaxTree,
    n: int,
    ip: bool,
)
    requires
        state_wf(st),
    ensures
        state_wf(walk_children(html, base, st, t, n, ip)),
    decreases t, 0int, n,
{
    if 0 < n <= t.children.len() {
        lemma_walk_children_wf(html, base, st, t, n - 1, ip);
        lemma_walk_wf(html, base, walk_children(html, base, st, t, n - 1, ip), t.children[n - 1], ip);
    }
}

/// Every extracted segment's text is the plain text of its inline content (each node's
/// trimmed text, separated by a space where the text so far does not end with one); its
/// section level is a heading level from 1 to 6, or 0 exactly when the segment stands
/// before any heading and its section path is empty.
pub proof fn law_extracted_segments_well_formed(
    html: Seq<char>,
    base: Option<Seq<char>>,
    t: SyntaxTree,
)
    ensures
        forall|i: int|
            0 <= i < extract(html, base, t).len() ==> segment_wf(
                #[trigger] extract(html, base, t)[i],
            ),
{
    assert(headings_wf(empty_state().sections));
    lemma_walk_wf(html, base, empty_state(), t, false);
}

/// A script or style element, a `<link>` element, or an element with an excluded class.
pub open spec fn skipped_node(html: Seq<char>, t: SyntaxTree) -> bool {
    match t.kind {
        NodeKind::ScriptElement => true,
        NodeKind::StyleElement => true,
        NodeKind::Element => match parse_element(html, t) {
            Some(p) => p.0 == "link"@ || excluded_class(attr_or_empty(p.1, "class"@)),
            None => false,
        },
        _ => false,
    }
}

/// Text inside `<script>` and `<style>` elements, `<link>` elements, and elements
/// with an excluded class (`shortdescription`, `hatnote`, `infobox`, `reference`,
/// `navbox`, `noprint`, `reflist`, `citation`) is skipped: walking such a node leaves
/// the state as it was.
pub proof fn law_skipped_elements_add_nothing(
    html: Seq<char>,
    base: Option<Seq<char>>,
    st: PageState,
    t: SyntaxTree,
    ip: bool,
)
    requires
        skipped_node(html, t),
    ensures
        walk(html, base, st, t, ip) == st,
{
}

/// The base URL that [`WikiPage::set_base_url`] sets is an `https://` URL, so link
/// targets resolved against it resolve to themselves again.
pub proof fn law_page_links_resolve_once(language: Seq<char>, href: Seq<char>)
    ensures
        has_prefix(wiki_base_url(language), "https://"@),
        resolve_href(Some(wiki_base_url(language)), resolve_href(Some(wiki_base_url(language)), href))
            == resolve_href(Some(wiki_base_url(language)), href),
{
    reveal_strlit("https://");
    assert(wiki_base_url(language).subrange(0, 8) =~= "https://"@);
    law_resolve_href_idempotent(Some(wiki_base_url(language)), href);
}

/// The `id` values (empty when absent) of the `<p>` elements that the walk reaches
/// below a node, in document order: those not inside a skipped element, a heading, or
/// an inline `b`/`strong`/`i`/`em`/`a` element of a paragraph.
pub open spec fn paragraph_ids(html: Seq<char>, t: SyntaxTree, ip: bool) -> Seq<Seq<char>>
    decreases t, 2int, 0int,
{
    match t.kind {
        NodeKind::Text => Seq::empty(),
        NodeKind::ScriptElement => Seq::empty(),
        NodeKind::StyleElement => Seq::empty(),
        NodeKind::Element => match parse_element(html, t) {
            Some(p) => element_paragraph_ids(html, t, p.0, p.1, ip),
            None => Seq::empty(),
        },
        _ => children_paragraph_ids(html, t, t.children.len() as int, ip),
    }
}

/// [`paragraph_ids`] of an element with tag `tag` and attributes `attrs`.
pub open spec fn element_paragraph_ids(
    html: Seq<char>,
    t: SyntaxTree,
    tag: Seq<char>,
    attrs: Seq<AttrView>,
    ip: bool,
) -> Seq<Seq<char>>
    decreases t, 1int, 0int,
{
    if tag == "link"@ || excluded_class(attr_or_empty(attrs, "class"@)) || header_level(
        tag,
    ) is Some {
        Seq::empty()
    } else if tag == "p"@ {
        seq![attr_or_empty(attrs, "id"@)] + children_paragraph_ids(
            html,
            t,
            t.children.len() as int,
            true,
        )
    } else if ip && (tag == "b"@ || tag == "strong"@ || tag == "i"@ || tag == "em"@ || tag
        == "a"@) {
        Seq::empty()
    } else {
        children_paragraph_ids(html, t, t.children.len() as int, ip)
    }
}

/// [`paragraph_ids`] of the first `n` children of a node, in order.
pub open spec fn children_paragraph_ids(html: Seq<char>, t: SyntaxTree, n: int, ip: bool) -> Seq<
    Seq<char>,
>
    decreases t, 0int, n,
{
    if n <= 0 || n > t.children.len() {
        Seq::empty()
    } else {
        children_paragraph_ids(html, t, n - 1, ip) + paragraph_ids(html, t.children[n - 1], ip)
    }
}

/// The `id` values of the segments, in order.
pub open spec fn mwids(segs: Seq<SegmentView>) -> Seq<Seq<char>> {
    segs.map_values(|s: SegmentView| s.mwid)
}

proof fn lemma_push_inline_mwids(st: PageState, node: InlineView)
    ensures
        mwids(push_inline(st, node).segments) == mwids(st.segments),
{
    assert(mwids(push_inline(st, node).segments) =~= mwids(st.segments));
}

proof fn lemma_push_nonempty_mwids(st: PageState, node: InlineView)
    ensures
        mwids(push_nonempty(st, node).segments) == mwids(st.segments),
{
    lemma_push_inline_mwids(st, node);
}

proof fn lemma_walk_ids(html: Seq<char>, base: Option<Seq<char>>, st: PageState, t: SyntaxTree, ip: bool)
    ensures
        mwids(walk(html, base, st, t, ip).segments) == mwids(st.segments) + paragraph_ids(
            html,
            t,
            ip,
        ),
    decreases t, 2int, 0int,
{
    match t.kind {
        NodeKind::Text => {
            if ip {
                match node_text(html, t) {
                    Some(s) => {
                        lemma_push_inline_mwids(st, InlineView::Text(trim(s)));
                    },
                    None => {},
                }
            }
            assert(mwids(st.segments) + Seq::<Seq<char>>::empty() =~= mwids(st.segments));
        },
        NodeKind::ScriptElement => {
            assert(mwids(st.segments) + Seq::<Seq<char>>::empty() =~= mwids(st.segments));
        },
        NodeKind::StyleElement => {
            assert(mwids(st.segments) + Seq::<Seq<char>>::empty() =~= mwids(st.segments));
        },
        NodeKind::Element => {
            match parse_element(html, t) {
                Some(p) => {
                    lemma_element_ids(html, base, st, t, p.0, p.1, ip);
                },
                None => {
                    assert(mwids(st.segments) + Seq::<Seq<char>>::empty() =~= mwids(st.segments));
                },
            }
        },
        _ => {
            lemma_children_ids(html, base, st, t, t.children.len() as int, ip);
        },
    }
}

proof fn lemma_element_ids(
    html: Seq<char>,
    base: Option<Seq<char>>,
    st: PageState,
    t: SyntaxTree,
    tag: Seq<char>,
    attrs: Seq<AttrView>,
    ip: bool,
)
    ensures
        mwids(walk_element(html, base, st, t, tag, attrs, ip).segments) == mwids(st.segments)
            + element_paragraph_ids(html, t, tag, attrs, ip),
    decreases t, 1int, 0int,
{
    let e = Seq::<Seq<char>>::empty();
    if tag == "link"@ || excluded_class(attr_or_empty(attrs, "class"@)) {
        assert(mwids(st.segments) + e =~= mwids(st.segments));
    } else if header_level(tag) is Some {
        assert(mwids(st.segments) + e =~= mwids(st.segments));
    } else if tag == "p"@ {
        let mwid = attr_or_empty(attrs, "id"@);
        let st1 = push_segment(st, mwid);
        assert(mwids(st1.segments) =~= mwids(st.segments).push(mwid));
        lemma_children_ids(html, base, st1, t, t.children.len() as int, true);
        assert(mwids(st.segments).push(mwid) + children_paragraph_ids(
            html,
            t,
            t.children.len() as int,
            true,
        ) =~= mwids(st.segments) + (seq![mwid] + children_paragraph_ids(
            html,
            t,
            t.children.len() as int,
            true,
        )));
    } else if ip && (tag == "b"@ || tag == "strong"@) {
        lemma_push_nonempty_mwids(st, InlineView::Bold(inline_text(html, t)));
        assert(mwids(st.segments) + e =~= mwids(st.segments));
    } else if ip && (tag == "i"@ || tag == "em"@) {
        lemma_push_nonempty_mwids(st, InlineView::Italic(inline_text(html, t)));
        assert(mwids(st.segments) + e =~= mwids(st.segments));
    } else if ip && tag == "a"@ {
        lemma_push_nonempty_mwids(
            st,
            InlineView::Link {
                text: inline_text(html, t),
                href: resolve_href(base, attr_or_empty(attrs, "href"@)),
            },
        );
        assert(mwids(st.segments) + e =~= mwids(st.segments));
    } else {
        lemma_children_ids(html, base, st, t, t.children.len() as int, ip);
    }
}

proof fn lemma_children_ids(
    html: Seq<char>,
    base: Option<Seq<char>>,
    st: PageState,
    t: SyntaxTree,
    n: int,
    ip: bool,
)
    ensures
        mwids(walk_children(html, base, st, t, n, ip).segments) == mwids(st.segments)
            + children_paragraph_ids(html, t, n, ip),
    decreases t, 0int, n,
{
    if 0 < n <= t.children.len() {
        lemma_children_ids(html, base, st, t, n - 1, ip);
        let mid = walk_children(html, base, st, t, n - 1, ip);
        lemma_walk_ids(html, base, mid, t.children[n - 1], ip);
        assert(mwids(st.segments) + children_paragraph_ids(html, t, n - 1, ip) + paragraph_ids(
            html,
            t.children[n - 1],
            ip,
        ) =~= mwids(st.segments) + children_paragraph_ids(html, t, n, ip));
    } else {
        assert(mwids(st.segments) + Seq::<Seq<char>>::empty() =~= mwids(st.segments));
    }
}

/// The extracted segments correspond one to one, in document order, to the `<p>`
/// elements that the walk reaches (those outside skipped elements, headings, and the
/// inline elements of paragraphs), each segment carrying its paragraph's `id` (empty
/// when it has none). Text outside any paragraph makes no segment.
pub proof fn law_one_segment_per_paragraph(html: Seq<char>, base: Option<Seq<char>>, t: SyntaxTree)
    ensures
        mwids(extract(html, base, t)) == paragraph_ids(html, t, false),
{
    lemma_walk_ids(html, base, empty_state(), t, false);
    assert(mwids(empty_state().segments) =~= Seq::<Seq<char>>::empty());
    assert(Seq::<Seq<char>>::empty() + paragraph_ids(html, t, false) =~= paragraph_ids(
        html,
        t,
        false,
    ));
}

/// Adding an inline node's trimmed, non-empty text to non-empty segment text that does
/// not end with a space puts exactly one space between them, whatever their lengths.
pub proof fn law_inline_text_is_space_separated(text: Seq<char>, plain: Seq<char>)
    requires
        text.len() > 0,
        text.last() != ' ',
        plain.len() > 0,
        is_trimmed(plain),
    ensures
        append_plain(text, plain) == text + " "@ + plain,
{
    reveal_strlit(" ");
    lemma_trimmed_is_fixed(plain);
    assert(text.push(' ') + plain =~= text + " "@ + plain);
}

/// The text of every extracted segment is the plain texts of its inline nodes, each
/// non-empty and trimmed, joined by single spaces.
pub proof fn law_segment_text_joins_inline_texts(
    html: Seq<char>,
    base: Option<Seq<char>>,
    t: SyntaxTree,
)
    ensures
        forall|i: int|
            0 <= i < extract(html, base, t).len() ==> {
                let seg = #[trigger] extract(html, base, t)[i];
                &&& seg.text == join(seg.content.map_values(|n: InlineView| n.plain_text()), " "@)
                &&& forall|j: int|
                    0 <= j < seg.content.len() ==> (#[trigger] seg.content[j].plain_text()).len()
                        > 0 && is_trimmed(seg.content[j].plain_text())
            },
{
    law_extracted_segments_well_formed(html, base, t);
    assert forall|i: int| 0 <= i < extract(html, base, t).len() implies {
        let seg = #[trigger] extract(html, base, t)[i];
        &&& seg.text == join(seg.content.map_values(|n: InlineView| n.plain_text()), " "@)
        &&& forall|j: int|
            0 <= j < seg.content.len() ==> (#[trigger] seg.content[j].plain_text()).len() > 0
                && is_trimmed(seg.content[j].plain_text())
    } by {
        let seg = extract(html, base, t)[i];
        assert(segment_wf(seg));
        assert forall|j: int| 0 <= j < seg.content.len() implies (
        #[trigger] seg.content[j].plain_text()).len() > 0 && is_trimmed(
            seg.content[j].plain_text(),
        ) by {
            assert(plain_texts(seg.content)[j] == seg.content[j].plain_text());
        }
    }
}

/// An element whose class attribute has one of the skipped class names as a token
/// (`reference`, `infobox`, ...) adds nothing: walking it leaves the state as it was.
pub proof fn law_elements_with_a_skipped_class_add_nothing(
    html: Seq<char>,
    base: Option<Seq<char>>,
    st: PageState,
    t: SyntaxTree,
    ip: bool,
    w: Seq<char>,
)
    requires
        t.kind == NodeKind::Element,
        parse_element(html, t) matches Some(p) && has_token(attr_or_empty(p.1, "class"@), w),
        skipped_class_name(w),
    ensures
        walk(html, base, st, t, ip) == st,
{
    let p = parse_element(html, t).unwrap();
    law_excluded_class_names(attr_or_empty(p.1, "class"@), w);
}

} // verus!
