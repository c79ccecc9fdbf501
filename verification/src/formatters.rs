//! Output formatters for extracted text segments: plain text, Markdown, and the
//! section tree that JSON output serialises.

use vstd::prelude::*;

use crate::outline::{ArticleTree, article_tree, article_tree_of};
use crate::segment::{InlineNode, InlineView, SegmentView, TextSegment, inline_views, segment_views};
use crate::text::{
    chars_of, last_part, last_part_exec, lemma_trim_is_trimmed, lemma_trimmed_is_fixed,
    push_char, trim, trim_end, trim_end_str, trim_str,
};

verus! {

/// `n` hash characters.
pub open spec fn hashes(n: nat) -> Seq<char> {
    Seq::new(n, |i: int| '#')
}

/// The number of `#` characters of a heading line: the section level, at least one.
pub open spec fn heading_depth(level: u8) -> nat {
    if level < 1 {
        1
    } else {
        level as nat
    }
}

/// The heading line written for a segment's section: hashes, a space, and the last
/// component of the section path.
pub open spec fn heading_line(seg: SegmentView) -> Seq<char> {
    hashes(heading_depth(seg.section_level)) + seq![' '] + last_part(seg.section, " - "@) + seq![
        '\n',
    ]
}

/// The output so far and the section last written, after a segment's section is
/// checked: when it differs from the last one, a blank line (unless nothing was written
/// yet) and, for a non-empty section, its heading line are written.
pub open spec fn section_step(st: (Seq<char>, Seq<char>), seg: SegmentView) -> (
    Seq<char>,
    Seq<char>,
) {
    if seg.section != st.1 {
        let o = if st.0.len() > 0 {
            st.0.push('\n')
        } else {
            st.0
        };
        (
            if seg.section.len() > 0 {
                o + heading_line(seg)
            } else {
                o
            },
            seg.section,
        )
    } else {
        st
    }
}

/// Plain output: one segment. Segments whose trimmed text is empty are skipped; the
/// others are written as a blank line, the trimmed text and a newline.
pub open spec fn plain_step(st: (Seq<char>, Seq<char>), seg: SegmentView) -> (
    Seq<char>,
    Seq<char>,
) {
    let text = trim(seg.text);
    if text.len() == 0 {
        st
    } else {
        let h = section_step(st, seg);
        (h.0.push('\n') + text + seq!['\n'], h.1)
    }
}

/// Plain output after the first `n` segments.
pub open spec fn plain_upto(segs: Seq<SegmentView>, n: int) -> (Seq<char>, Seq<char>)
    decreases n,
{
    if n <= 0 || n > segs.len() {
        (Seq::empty(), Seq::empty())
    } else {
        plain_step(plain_upto(segs, n - 1), segs[n - 1])
    }
}

/// The plain-text rendering of a sequence of segments.
pub open spec fn plain_output(segs: Seq<SegmentView>) -> Seq<char> {
    plain_upto(segs, segs.len() as int).0
}

/// A space, unless the paragraph is empty or already ends with one.
pub open spec fn md_space(p: Seq<char>) -> Seq<char> {
    if p.len() > 0 && p.last() != ' ' {
        p.push(' ')
    } else {
        p
    }
}

/// Markdown paragraph: one inline node.
pub open spec fn md_step(p: Seq<char>, node: InlineView) -> Seq<char> {
    match node {
        InlineView::Text(s) => p + s,
        InlineView::Bold(s) => md_space(p) + "**"@ + s + "** "@,
        InlineView::Italic(s) => md_space(p).push('_') + s + "_ "@,
        InlineView::Link { text, href } => md_space(p).push('[') + text + "]("@ + href + ") "@,
    }
}

/// Markdown paragraph after the first `n` inline nodes.
pub open spec fn md_para_upto(c: Seq<InlineView>, n: int) -> Seq<char>
    decreases n,
{
    if n <= 0 || n > c.len() {
        Seq::empty()
    } else {
        md_step(md_para_upto(c, n - 1), c[n - 1])
    }
}

/// The Markdown rendering of a paragraph's inline nodes, trailing whitespace removed.
pub open spec fn md_paragraph(c: Seq<InlineView>) -> Seq<char> {
    trim_end(md_para_upto(c, c.len() as int))
}

/// Markdown output: one segment. Segments whose trimmed text is empty are skipped; the
/// others are written as a blank line, the rendered paragraph and a newline.
pub open spec fn markdown_step(st: (Seq<char>, Seq<char>), seg: SegmentView) -> (
    Seq<char>,
    Seq<char>,
) {
    if trim(seg.text).len() == 0 {
        st
    } else {
        let h = section_step(st, seg);
        (h.0.push('\n') + md_paragraph(seg.content) + seq!['\n'], h.1)
    }
}

/// Markdown output after the first `n` segments.
pub open spec fn markdown_upto(segs: Seq<SegmentView>, n: int) -> (Seq<char>, Seq<char>)
    decreases n,
{
    if n <= 0 || n > segs.len() {
        (Seq::empty(), Seq::empty())
    } else {
        markdown_step(markdown_upto(segs, n - 1), segs[n - 1])
    }
}

/// The Markdown rendering of a sequence of segments.
pub open spec fn markdown_output(segs: Seq<SegmentView>) -> Seq<char> {
    markdown_upto(segs, segs.len() as int).0
}

/// Writes `n` hash characters.
fn push_hashes(out: &mut String, n: u8)
    ensures
        final(out)@ == old(out)@ + hashes(n as nat),
{
    let mut i: u8 = 0;
    while i < n
        invariant
            i <= n,
            out@ == old(out)@ + hashes(i as nat),
        decreases n - i,
    {
        push_char(out, '#');
        assert(out@ =~= old(out)@ + hashes((i + 1) as nat));
        i = i + 1;
    }
}

/// Writes the section heading for `seg` when its section differs from `last`.
fn write_section(out: &mut String, last: &mut String, seg: &TextSegment)
    ensures
        (final(out)@, final(last)@) == section_step((old(out)@, old(last)@), seg@),
{
    if !(seg.section == *last) {
        if !out.as_str().is_empty() {
            push_char(out, '\n');
        }
        if !seg.section.as_str().is_empty() {
            let depth: u8 = if seg.section_level < 1 {
                1
            } else {
                seg.section_level
            };
            push_hashes(out, depth);
            push_char(out, ' ');
            let heading = last_part_exec(seg.section.as_str(), " - ");
            out.append(heading.as_str());
            push_char(out, '\n');
        }
        *last = seg.section.clone();
    }
}

/// Format as plain text.
///
/// Section headings are emitted as `#`/`##`/`###` lines matching heading depth,
/// only when the section changes. Paragraphs are separated by blank lines.
pub fn format_plain(segments: &[TextSegment]) -> (r: String)
    ensures
        r@ == plain_output(segment_views(segments@)),
{
    let ghost segs = segment_views(segments@);
    let mut out = String::new();
    let mut last = String::new();
    for i in 0..segments.len()
        invariant
            segs == segment_views(segments@),
            (out@, last@) == plain_upto(segs, i as int),
    {
        let seg = &segments[i];
        let text = trim_str(seg.text.as_str());
        if !text.as_str().is_empty() {
            write_section(&mut out, &mut last, seg);
            push_char(&mut out, '\n');
            out.append(text.as_str());
            push_char(&mut out, '\n');
        }
    }
    out
}

/// Writes the space that separates a marked-up inline node from what precedes it.
fn md_push_space(para: &mut String)
    ensures
        final(para)@ == md_space(old(para)@),
{
    let cs = chars_of(para.as_str());
    if cs.len() > 0 && cs[cs.len() - 1] != ' ' {
        push_char(para, ' ');
    }
}

/// The Markdown rendering of a paragraph's inline nodes.
fn md_paragraph_exec(content: &Vec<InlineNode>) -> (r: String)
    ensures
        r@ == md_paragraph(inline_views(content@)),
{
    let ghost c = inline_views(content@);
    let mut para = String::new();
    for j in 0..content.len()
        invariant
            c == inline_views(content@),
            para@ == md_para_upto(c, j as int),
    {
        match &content[j] {
            InlineNode::Text(s) => {
                para.append(s.as_str());
            },
            InlineNode::Bold(s) => {
                md_push_space(&mut para);
                para.append("**");
                para.append(s.as_str());
                para.append("** ");
            },
            InlineNode::Italic(s) => {
                md_push_space(&mut para);
                push_char(&mut para, '_');
                para.append(s.as_str());
                para.append("_ ");
            },
            InlineNode::Link { text, href } => {
                md_push_space(&mut para);
                push_char(&mut para, '[');
                para.append(text.as_str());
                para.append("](");
                para.append(href.as_str());
                para.append(") ");
            },
        }
    }
    trim_end_str(para.as_str())
}

/// Format as Markdown.
///
/// Section headings become `##`/`###` etc. Inline content is rendered:
/// bold → `**text**`, italic → `_text_`, links → `[text](href)`.
pub fn format_markdown(segments: &[TextSegment]) -> (r: String)
    ensures
        r@ == markdown_output(segment_views(segments@)),
{
    let ghost segs = segment_views(segments@);
    let mut out = String::new();
    let mut last = String::new();
    for i in 0..segments.len()
        invariant
            segs == segment_views(segments@),
            (out@, last@) == markdown_upto(segs, i as int),
    {
        let seg = &segments[i];
        let text = trim_str(seg.text.as_str());
        if !text.as_str().is_empty() {
            write_section(&mut out, &mut last, seg);
            push_char(&mut out, '\n');
            let para = md_paragraph_exec(&seg.content);
            out.append(para.as_str());
            push_char(&mut out, '\n');
        }
    }
    out
}

/// Output formatting for a collection of [`TextSegment`]s.
pub trait ArticleFormat {
    /// The segments being formatted.
    spec fn segments_view(&self) -> Seq<SegmentView>;

    /// Format as plain text.
    ///
    /// Section headings are emitted as `#`/`##`/`###` lines matching heading depth,
    /// only when the section changes. Paragraphs are separated by blank lines.
    /// No metadata labels or separators.
    fn format_plain(&self) -> (r: String)
        ensures
            r@ == plain_output(self.segments_view()),
    ;

    /// Format as Markdown.
    ///
    /// Section headings become `##`/`###` etc. Inline content is rendered:
    /// bold → `**text**`, italic → `_text_`, links → `[text](href)`.
    fn format_markdown(&self) -> (r: String)
        ensures
            r@ == markdown_output(self.segments_view()),
    ;

    /// The semantic section tree, the structure of JSON output:
    /// `{ "intro": [...], "sections": [{ "heading", "level", "paragraphs", "subsections" }] }`.
    fn article_tree(&self) -> (r: ArticleTree)
        ensures
            r@ == article_tree_of(self.segments_view()),
    ;
}

impl ArticleFormat for Vec<TextSegment> {
    open spec fn segments_view(&self) -> Seq<SegmentView> {
        segment_views(self@)
    }

    fn format_plain(&self) -> (r: String) {
        format_plain(self.as_slice())
    }

    fn format_markdown(&self) -> (r: String) {
        format_markdown(self.as_slice())
    }

    fn article_tree(&self) -> (r: ArticleTree) {
        article_tree(self.as_slice())
    }
}

impl<'a> ArticleFormat for &'a [TextSegment] {
    open spec fn segments_view(&self) -> Seq<SegmentView> {
        segment_views(self@)
    }

    fn format_plain(&self) -> (r: String) {
        format_plain(self)
    }

    fn format_markdown(&self) -> (r: String) {
        format_markdown(self)
    }

    fn article_tree(&self) -> (r: ArticleTree) {
        article_tree(self)
    }
}

/// The segments whose trimmed text is not empty, in order.
pub open spec fn nonblank(segs: Seq<SegmentView>) -> Seq<SegmentView>
    decreases segs.len(),
{
    if segs.len() == 0 {
        Seq::empty()
    } else {
        let rest = nonblank(segs.drop_last());
        if trim(segs.last().text).len() > 0 {
            rest.push(segs.last())
        } else {
            rest
        }
    }
}

proof fn lemma_plain_upto_push(a: Seq<SegmentView>, x: SegmentView, k: int)
    requires
        0 <= k <= a.len(),
    ensures
        plain_upto(a.push(x), k) == plain_upto(a, k),
    decreases k,
{
    if k > 0 {
        lemma_plain_upto_push(a, x, k - 1);
        assert(a.push(x)[k - 1] == a[k - 1]);
    }
}

proof fn lemma_markdown_upto_push(a: Seq<SegmentView>, x: SegmentView, k: int)
    requires
        0 <= k <= a.len(),
    ensures
        markdown_upto(a.push(x), k) == markdown_upto(a, k),
    decreases k,
{
    if k > 0 {
        lemma_markdown_upto_push(a, x, k - 1);
        assert(a.push(x)[k - 1] == a[k - 1]);
    }
}

proof fn lemma_plain_nonblank(segs: Seq<SegmentView>, n: int)
    requires
        0 <= n <= segs.len(),
    ensures
        plain_upto(segs, n) == plain_upto(
            nonblank(segs.take(n)),
            nonblank(segs.take(n)).len() as int,
        ),
    decreases n,
{
    if n > 0 {
        lemma_plain_nonblank(segs, n - 1);
        let t = segs.take(n);
        assert(t.drop_last() =~= segs.take(n - 1));
        assert(t.last() == segs[n - 1]);
        let x = nonblank(segs.take(n - 1));
        if trim(segs[n - 1].text).len() > 0 {
            lemma_plain_upto_push(x, segs[n - 1], x.len() as int);
            assert(x.push(segs[n - 1])[x.len() as int] == segs[n - 1]);
        }
    } else {
        assert(segs.take(0) =~= Seq::<SegmentView>::empty());
    }
}

proof fn lemma_markdown_nonblank(segs: Seq<SegmentView>, n: int)
    requires
        0 <= n <= segs.len(),
    ensures
        markdown_upto(segs, n) == markdown_upto(
            nonblank(segs.take(n)),
            nonblank(segs.take(n)).len() as int,
        ),
    decreases n,
{
    if n > 0 {
        lemma_markdown_nonblank(segs, n - 1);
        let t = segs.take(n);
        assert(t.drop_last() =~= segs.take(n - 1));
        assert(t.last() == segs[n - 1]);
        let x = nonblank(segs.take(n - 1));
        if trim(segs[n - 1].text).len() > 0 {
            lemma_markdown_upto_push(x, segs[n - 1], x.len() as int);
            assert(x.push(segs[n - 1])[x.len() as int] == segs[n - 1]);
        }
    } else {
        assert(segs.take(0) =~= Seq::<SegmentView>::empty());
    }
}

/// Segments whose text is only whitespace contribute nothing to plain or Markdown
/// output: formatting gives the same text with them left out.
pub proof fn law_blank_segments_are_skipped(segs: Seq<SegmentView>)
    ensures
        plain_output(segs) == plain_output(nonblank(segs)),
        markdown_output(segs) == markdown_output(nonblank(segs)),
{
    lemma_plain_nonblank(segs, segs.len() as int);
    lemma_markdown_nonblank(segs, segs.len() as int);
    assert(segs.take(segs.len() as int) =~= segs);
}

/// Two segments that plain output cannot tell apart: the same trimmed text, section
/// and section level (their `mwid` and inline content may differ).
pub open spec fn same_for_plain(a: SegmentView, b: SegmentView) -> bool {
    trim(a.text) == trim(b.text) && a.section == b.section && a.section_level == b.section_level
}

/// Two segments that Markdown output cannot tell apart: both blank or both not, and the
/// same section, section level and inline content (their `mwid` and text may differ).
pub open spec fn same_for_markdown(a: SegmentView, b: SegmentView) -> bool {
    (trim(a.text).len() == 0) == (trim(b.text).len() == 0) && a.section == b.section
        && a.section_level == b.section_level && a.content == b.content
}

proof fn lemma_plain_same(a: Seq<SegmentView>, b: Seq<SegmentView>, n: int)
    requires
        a.len() == b.len(),
        0 <= n <= a.len(),
        forall|i: int| 0 <= i < a.len() ==> same_for_plain(#[trigger] a[i], b[i]),
    ensures
        plain_upto(a, n) == plain_upto(b, n),
    decreases n,
{
    if n > 0 {
        lemma_plain_same(a, b, n - 1);
        assert(same_for_plain(a[n - 1], b[n - 1]));
    }
}

proof fn lemma_markdown_same(a: Seq<SegmentView>, b: Seq<SegmentView>, n: int)
    requires
        a.len() == b.len(),
        0 <= n <= a.len(),
        forall|i: int| 0 <= i < a.len() ==> same_for_markdown(#[trigger] a[i], b[i]),
    ensures
        markdown_upto(a, n) == markdown_upto(b, n),
    decreases n,
{
    if n > 0 {
        lemma_markdown_same(a, b, n - 1);
        assert(same_for_markdown(a[n - 1], b[n - 1]));
    }
}

/// Plain output reads only each segment's trimmed text, section and section level:
/// no `mwid` and no inline structure reaches it.
pub proof fn law_plain_reads_text_and_section(a: Seq<SegmentView>, b: Seq<SegmentView>)
    requires
        a.len() == b.len(),
        forall|i: int| 0 <= i < a.len() ==> same_for_plain(#[trigger] a[i], b[i]),
    ensures
        plain_output(a) == plain_output(b),
{
    lemma_plain_same(a, b, a.len() as int);
}

/// Markdown output reads only whether a segment's text is blank, its section, section
/// level and inline content: no `mwid` reaches it, and the text itself neither.
pub proof fn law_markdown_reads_content_and_section(a: Seq<SegmentView>, b: Seq<SegmentView>)
    requires
        a.len() == b.len(),
        forall|i: int| 0 <= i < a.len() ==> same_for_markdown(#[trigger] a[i], b[i]),
    ensures
        markdown_output(a) == markdown_output(b),
{
    lemma_markdown_same(a, b, a.len() as int);
}

proof fn lemma_markdown_is_plain(a: Seq<SegmentView>, n: int)
    requires
        0 <= n <= a.len(),
        forall|i: int|
            0 <= i < a.len() ==> (#[trigger] a[i]).content == seq![InlineView::Text(trim(a[i].text))],
    ensures
        markdown_upto(a, n) == plain_upto(a, n),
    decreases n,
{
    if n > 0 {
        lemma_markdown_is_plain(a, n - 1);
        let seg = a[n - 1];
        let c = seg.content;
        assert(c == seq![InlineView::Text(trim(seg.text))]);
        assert(md_para_upto(c, 0) == Seq::<char>::empty());
        assert(md_para_upto(c, 1) =~= trim(seg.text));
        lemma_trim_is_trimmed(seg.text);
        lemma_trimmed_is_fixed(trim(seg.text));
    }
}

/// When every segment's content is its trimmed text as one plain node, Markdown output
/// is the plain output.
pub proof fn law_markdown_of_plain_content_is_plain(a: Seq<SegmentView>)
    requires
        forall|i: int|
            0 <= i < a.len() ==> (#[trigger] a[i]).content == seq![InlineView::Text(trim(a[i].text))],
    ensures
        markdown_output(a) == plain_output(a),
{
    lemma_markdown_is_plain(a, a.len() as int);
}

proof fn lemma_plain_empty(a: Seq<SegmentView>, n: int)
    requires
        0 <= n <= a.len(),
    ensures
        plain_upto(a, n).0.len() == 0 <==> (forall|i: int| 0 <= i < n ==> trim(
            (#[trigger] a[i]).text,
        ).len() == 0),
        plain_upto(a, n).0.len() > 0 ==> plain_upto(a, n).0.last() == '\n',
    decreases n,
{
    if n > 0 {
        lemma_plain_empty(a, n - 1);
        if trim(a[n - 1].text).len() > 0 {
            let h = section_step(plain_upto(a, n - 1), a[n - 1]);
            let out = h.0.push('\n') + trim(a[n - 1].text) + seq!['\n'];
            assert(out.last() == '\n');
        }
    }
}

/// Plain output is empty exactly when every segment's text is blank (so also for no
/// segments), and otherwise ends with a newline.
pub proof fn law_plain_empty_iff_all_blank(a: Seq<SegmentView>)
    ensures
        plain_output(a).len() == 0 <==> (forall|i: int| 0 <= i < a.len() ==> trim(
            (#[trigger] a[i]).text,
        ).len() == 0),
        plain_output(a).len() > 0 ==> plain_output(a).last() == '\n',
{
    lemma_plain_empty(a, a.len() as int);
}

/// In Markdown a plain text node is added as it is, and a bold, italic or link node is
/// written with its markup and a trailing space, preceded by exactly one space when the
/// paragraph so far is non-empty and does not end with a space, and by nothing otherwise.
pub proof fn law_markdown_marks_are_space_separated(
    p: Seq<char>,
    s: Seq<char>,
    text: Seq<char>,
    href: Seq<char>,
)
    ensures
        md_step(p, InlineView::Text(s)) == p + s,
        p.len() > 0 && p.last() != ' ' ==> {
            &&& md_step(p, InlineView::Bold(s)) == p + " **"@ + s + "** "@
            &&& md_step(p, InlineView::Italic(s)) == p + " _"@ + s + "_ "@
            &&& md_step(p, InlineView::Link { text, href }) == p + " ["@ + text + "]("@ + href
                + ") "@
        },
        p.len() == 0 || p.last() == ' ' ==> {
            &&& md_step(p, InlineView::Bold(s)) == p + "**"@ + s + "** "@
            &&& md_step(p, InlineView::Italic(s)) == p + "_"@ + s + "_ "@
            &&& md_step(p, InlineView::Link { text, href }) == p + "["@ + text + "]("@ + href
                + ") "@
        },
{
    reveal_strlit(" **");
    reveal_strlit("**");
    reveal_strlit(" _");
    reveal_strlit("_");
    reveal_strlit(" [");
    reveal_strlit("[");
    if p.len() > 0 && p.last() != ' ' {
        assert(p.push(' ') + "**"@ + s + "** "@ =~= p + " **"@ + s + "** "@);
        assert(p.push(' ').push('_') + s + "_ "@ =~= p + " _"@ + s + "_ "@);
        assert(p.push(' ').push('[') + text + "]("@ + href + ") "@ =~= p + " ["@ + text + "]("@
            + href + ") "@);
    } else {
        assert(p.push('_') + s + "_ "@ =~= p + "_"@ + s + "_ "@);
        assert(p.push('[') + text + "]("@ + href + ") "@ =~= p + "["@ + text + "]("@ + href
            + ") "@);
    }
}

/// A paragraph of a text `a` (non-empty, not ending in a space) followed by a bold,
/// italic or link node renders in Markdown as `a`, one space, and the marked-up node.
pub proof fn law_markdown_text_then_mark(a: Seq<char>, s: Seq<char>, href: Seq<char>)
    requires
        a.len() > 0,
        a.last() != ' ',
    ensures
        md_paragraph(seq![InlineView::Text(a), InlineView::Bold(s)]) == a + " **"@ + s + "**"@,
        md_paragraph(seq![InlineView::Text(a), InlineView::Italic(s)]) == a + " _"@ + s + "_"@,
        md_paragraph(seq![InlineView::Text(a), InlineView::Link { text: s, href }]) == a + " ["@
            + s + "]("@ + href + ")"@,
{
    reveal_strlit("** ");
    reveal_strlit("**");
    reveal_strlit("_ ");
    reveal_strlit("_");
    reveal_strlit(") ");
    reveal_strlit(")");
    let e = Seq::<char>::empty();
    law_markdown_marks_are_space_separated(e, a, s, href);
    assert(e + a =~= a);
    law_markdown_marks_are_space_separated(a, s, s, href);
    let cb = seq![InlineView::Text(a), InlineView::Bold(s)];
    let ci = seq![InlineView::Text(a), InlineView::Italic(s)];
    let cl = seq![InlineView::Text(a), InlineView::Link { text: s, href }];
    assert(md_para_upto(cb, 0) == e && cb[0] == InlineView::Text(a) && cb[1] == InlineView::Bold(s));
    assert(md_para_upto(ci, 0) == e && ci[0] == InlineView::Text(a) && ci[1] == InlineView::Italic(s));
    assert(md_para_upto(cl, 0) == e && cl[0] == InlineView::Text(a));
    assert(md_para_upto(cb, 1) == a);
    assert(md_para_upto(ci, 1) == a);
    assert(md_para_upto(cl, 1) == a);
    let xb = a + " **"@ + s + "**"@;
    let xi = a + " _"@ + s + "_"@;
    let xl = a + " ["@ + s + "]("@ + href + ")"@;
    assert(a + " **"@ + s + "** "@ =~= xb.push(' '));
    assert(a + " _"@ + s + "_ "@ =~= xi.push(' '));
    assert(a + " ["@ + s + "]("@ + href + ") "@ =~= xl.push(' '));
    assert(xb.push(' ').drop_last() =~= xb);
    assert(xi.push(' ').drop_last() =~= xi);
    assert(xl.push(' ').drop_last() =~= xl);
    assert(xb.last() == '*');
    assert(xi.last() == '_');
    assert(xl.last() == ')');
    assert(md_para_upto(cb, 2) == xb.push(' '));
    assert(md_para_upto(ci, 2) == xi.push(' '));
    assert(md_para_upto(cl, 2) == xl.push(' '));
    assert(trim_end(xb) == xb);
    assert(trim_end(xi) == xi);
    assert(trim_end(xl) == xl);
    assert(trim_end(xb.push(' ')) == xb);
    assert(trim_end(xi.push(' ')) == xi);
    assert(trim_end(xl.push(' ')) == xl);
}

} // verus!
