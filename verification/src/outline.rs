//! The semantic section tree of an article: the structure that JSON output serialises.

use vstd::prelude::*;

use crate::formatters::nonblank;
use crate::segment::{SegmentView, TextSegment, segment_views};
use crate::text::{split, split_exec, str_eq, string_views, trim, trim_str};

verus! {

/// A section of the article tree: its heading, heading level, paragraphs and
/// nested subsections.
#[derive(Debug)]
pub struct Section {
    pub heading: String,
    pub level: u8,
    pub paragraphs: Vec<String>,
    pub subsections: Vec<Section>,
}

/// The article tree: paragraphs before the first heading, then the top-level sections.
#[derive(Debug)]
pub struct ArticleTree {
    pub intro: Vec<String>,
    pub sections: Vec<Section>,
}

/// The mathematical value of a [`Section`].
pub struct SectionView {
    pub heading: Seq<char>,
    pub level: u8,
    pub paragraphs: Seq<Seq<char>>,
    pub subsections: Seq<SectionView>,
}

/// The mathematical value of an [`ArticleTree`].
pub struct ArticleTreeView {
    pub intro: Seq<Seq<char>>,
    pub sections: Seq<SectionView>,
}

/// The value of a section.
pub open spec fn section_view(s: Section) -> SectionView
    decreases s,
{
    SectionView {
        heading: s.heading@,
        level: s.level,
        paragraphs: string_views(s.paragraphs@),
        subsections: sections_view(s.subsections@),
    }
}

/// The values of a sequence of sections.
pub open spec fn sections_view(v: Seq<Section>) -> Seq<SectionView>
    decreases v,
{
    Seq::new(
        v.len(),
        |i: int|
            if 0 <= i < v.len() {
                section_view(v[i])
            } else {
                SectionView {
                    heading: Seq::empty(),
                    level: 0,
                    paragraphs: Seq::empty(),
                    subsections: Seq::empty(),
                }
            },
    )
}

impl View for ArticleTree {
    type V = ArticleTreeView;

    open spec fn view(&self) -> ArticleTreeView {
        ArticleTreeView { intro: string_views(self.intro@), sections: sections_view(self.sections@) }
    }
}

/// The first index at or after `i` of a section headed `h`.
pub open spec fn heading_index_from(sibs: Seq<SectionView>, h: Seq<char>, i: int) -> Option<int>
    decreases sibs.len() - i,
{
    if i < 0 || i >= sibs.len() {
        None
    } else if sibs[i].heading == h {
        Some(i)
    } else {
        heading_index_from(sibs, h, i + 1)
    }
}

/// The first index of a section headed `h`.
pub open spec fn heading_index(sibs: Seq<SectionView>, h: Seq<char>) -> Option<int> {
    heading_index_from(sibs, h, 0)
}

/// The level given to the section named by `parts[i]` of a path whose last part has
/// level `seg_level`: one less for each part below it, not below zero.
pub open spec fn path_level(seg_level: u8, parts_len: int, i: int) -> u8 {
    let depth = ((parts_len - 1 - i) % 256) as u8;
    if seg_level < depth {
        0
    } else {
        (seg_level - depth) as u8
    }
}

/// `sibs` with `text` added as a paragraph of the section named by the path
/// `parts[i..]`; the sections of the path that are missing are appended first.
pub open spec fn insert_path(
    sibs: Seq<SectionView>,
    parts: Seq<Seq<char>>,
    i: int,
    seg_level: u8,
    text: Seq<char>,
) -> Seq<SectionView>
    decreases parts.len() - i,
{
    if i < 0 || i >= parts.len() {
        sibs
    } else {
        let part = parts[i];
        let sibs1 = if heading_index(sibs, part) is None {
            sibs.push(
                SectionView {
                    heading: part,
                    level: path_level(seg_level, parts.len() as int, i),
                    paragraphs: Seq::empty(),
                    subsections: Seq::empty(),
                },
            )
        } else {
            sibs
        };
        let idx = heading_index(sibs1, part).unwrap();
        let s = sibs1[idx];
        let s2 = if i == parts.len() - 1 {
            SectionView { paragraphs: s.paragraphs.push(text), ..s }
        } else {
            SectionView {
                subsections: insert_path(s.subsections, parts, i + 1, seg_level, text),
                ..s
            }
        };
        sibs1.update(idx, s2)
    }
}

/// The tree after one more segment: empty paragraphs are skipped, paragraphs without
/// a section go to the introduction, the others into the section that their path names.
pub open spec fn tree_step(t: ArticleTreeView, seg: SegmentView) -> ArticleTreeView {
    let text = trim(seg.text);
    if text.len() == 0 {
        t
    } else if seg.section.len() == 0 {
        ArticleTreeView { intro: t.intro.push(text), ..t }
    } else {
        ArticleTreeView {
            sections: insert_path(t.sections, split(seg.section, " - "@), 0, seg.section_level, text),
            ..t
        }
    }
}

/// The tree after the first `n` segments.
pub open spec fn tree_upto(segs: Seq<SegmentView>, n: int) -> ArticleTreeView
    decreases n,
{
    if n <= 0 || n > segs.len() {
        ArticleTreeView { intro: Seq::empty(), sections: Seq::empty() }
    } else {
        tree_step(tree_upto(segs, n - 1), segs[n - 1])
    }
}

/// The section tree of a sequence of segments.
pub open spec fn article_tree_of(segs: Seq<SegmentView>) -> ArticleTreeView {
    tree_upto(segs, segs.len() as int)
}

/// The first index of a section headed `h`.
fn find_heading(sibs: &Vec<Section>, h: &String) -> (r: Option<usize>)
    ensures
        r matches Some(k) ==> heading_index(sections_view(sibs@), h@) == Some(k as int),
        r is None ==> heading_index(sections_view(sibs@), h@) is None,
{
    let ghost v = sections_view(sibs@);
    let mut k: usize = 0;
    while k < sibs.len()
        invariant
            v == sections_view(sibs@),
            k <= sibs@.len(),
            heading_index(v, h@) == heading_index_from(v, h@, k as int),
        decreases sibs.len() - k,
    {
        if str_eq(sibs[k].heading.as_str(), h.as_str()) {
            return Some(k);
        }
        k = k + 1;
    }
    None
}

proof fn lemma_sections_view_push(v: Seq<Section>, s: Section)
    ensures
        sections_view(v.push(s)) == sections_view(v).push(section_view(s)),
{
    assert(sections_view(v.push(s)) =~= sections_view(v).push(section_view(s)));
}

proof fn lemma_sections_view_update(v: Seq<Section>, k: int, s: Section)
    requires
        0 <= k < v.len(),
    ensures
        sections_view(v.update(k, s)) == sections_view(v).update(k, section_view(s)),
{
    assert(sections_view(v.update(k, s)) =~= sections_view(v).update(k, section_view(s)));
}

proof fn lemma_heading_index_push(v: Seq<SectionView>, h: Seq<char>, s: SectionView, i: int)
    requires
        0 <= i <= v.len(),
        heading_index_from(v, h, i) is None,
        s.heading == h,
    ensures
        heading_index_from(v.push(s), h, i) == Some(v.len() as int),
    decreases v.len() - i,
{
    if i < v.len() {
        lemma_heading_index_push(v, h, s, i + 1);
    }
}

/// Adds `text` as a paragraph of the section named by the path `parts[i..]`.
fn insert_path_exec(
    sibs: &mut Vec<Section>,
    parts: &Vec<String>,
    i: usize,
    seg_level: u8,
    text: &String,
)
    requires
        i < parts@.len(),
    ensures
        sections_view(final(sibs)@) == insert_path(
            sections_view(old(sibs)@),
            string_views(parts@),
            i as int,
            seg_level,
            text@,
        ),
    decreases parts@.len() - i,
{
    let ghost pv = string_views(parts@);
    let ghost v0 = sections_view(sibs@);
    let part = &parts[i];
    let depth: u8 = ((parts.len() - 1 - i) % 256) as u8;
    let level: u8 = if seg_level < depth {
        0
    } else {
        seg_level - depth
    };
    assert(level == path_level(seg_level, pv.len() as int, i as int));
    let idx: usize = match find_heading(sibs, part) {
        Some(k) => k,
        None => {
            let fresh = Section {
                heading: part.clone(),
                level,
                paragraphs: Vec::new(),
                subsections: Vec::new(),
            };
            proof {
                lemma_sections_view_push(sibs@, fresh);
                assert(string_views(fresh.paragraphs@) =~= Seq::<Seq<char>>::empty());
                assert(sections_view(fresh.subsections@) =~= Seq::<SectionView>::empty());
                lemma_heading_index_push(v0, pv[i as int], section_view(fresh), 0);
            }
            sibs.push(fresh);
            sibs.len() - 1
        },
    };
    let ghost v1 = sections_view(sibs@);
    let ghost l1 = sibs@;
    assert(heading_index(v1, pv[i as int]) == Some(idx as int));
    proof {
        lemma_heading_index_bounds(v1, pv[i as int], 0);
    }
    let mut sec = sibs.remove(idx);
    assert(section_view(sec) == v1[idx as int]);
    if i == parts.len() - 1 {
        let ghost before = string_views(sec.paragraphs@);
        sec.paragraphs.push(text.clone());
        assert(string_views(sec.paragraphs@) =~= before.push(text@));
    } else {
        insert_path_exec(&mut sec.subsections, parts, i + 1, seg_level, text);
    }
    sibs.insert(idx, sec);
    assert(sibs@ =~= l1.update(idx as int, sec));
    proof {
        lemma_sections_view_update(l1, idx as int, sec);
    }
}

proof fn lemma_heading_index_bounds(v: Seq<SectionView>, h: Seq<char>, i: int)
    ensures
        heading_index_from(v, h, i) matches Some(k) ==> i <= k < v.len() && v[k].heading == h,
    decreases v.len() - i,
{
    if 0 <= i < v.len() && v[i].heading != h {
        lemma_heading_index_bounds(v, h, i + 1);
    }
}

/// Adds one segment's trimmed text to the tree.
fn tree_step_exec(tree: &mut ArticleTree, seg: &TextSegment)
    ensures
        final(tree)@ == tree_step(old(tree)@, seg@),
{
    let text = trim_str(seg.text.as_str());
    if text.as_str().is_empty() {
        return;
    }
    if seg.section.as_str().is_empty() {
        let ghost before = string_views(tree.intro@);
        tree.intro.push(text);
        assert(string_views(tree.intro@) =~= before.push(text@));
        return;
    }
    let parts = split_exec(seg.section.as_str(), " - ");
    if parts.len() > 0 {
        insert_path_exec(&mut tree.sections, &parts, 0, seg.section_level, &text);
    }
}

/// Builds the semantic section tree of the segments: paragraphs before any heading
/// form the introduction, the others are placed under the section path they belong to.
pub fn article_tree(segments: &[TextSegment]) -> (r: ArticleTree)
    ensures
        r@ == article_tree_of(segment_views(segments@)),
{
    let ghost segs = segment_views(segments@);
    let mut tree = ArticleTree { intro: Vec::new(), sections: Vec::new() };
    assert(string_views(tree.intro@) =~= Seq::<Seq<char>>::empty());
    assert(sections_view(tree.sections@) =~= Seq::<SectionView>::empty());
    for i in 0..segments.len()
        invariant
            segs == segment_views(segments@),
            tree@ == tree_upto(segs, i as int),
    {
        tree_step_exec(&mut tree, &segments[i]);
    }
    tree
}

/// The number of paragraphs in a section and its subsections.
pub open spec fn paragraph_count(s: SectionView) -> nat
    decreases s,
{
    s.paragraphs.len() + paragraph_count_seq(s.subsections)
}

/// The number of paragraphs in a sequence of sections and their subsections.
pub open spec fn paragraph_count_seq(v: Seq<SectionView>) -> nat
    decreases v,
{
    if v.len() == 0 {
        0
    } else {
        paragraph_count(v[0]) + paragraph_count_seq(v.drop_first())
    }
}

/// The number of paragraphs in an article tree, the introduction included.
pub open spec fn tree_paragraph_count(t: ArticleTreeView) -> nat {
    t.intro.len() + paragraph_count_seq(t.sections)
}

proof fn lemma_count_push(v: Seq<SectionView>, x: SectionView)
    ensures
        paragraph_count_seq(v.push(x)) == paragraph_count_seq(v) + paragraph_count(x),
    decreases v.len(),
{
    if v.len() == 0 {
        assert(v.push(x).drop_first() =~= Seq::<SectionView>::empty());
        assert(paragraph_count_seq(v.push(x).drop_first()) == 0);
        assert(paragraph_count_seq(v) == 0);
    } else {
        assert(v.push(x).drop_first() =~= v.drop_first().push(x));
        assert(v.push(x)[0] == v[0]);
        lemma_count_push(v.drop_first(), x);
    }
}

proof fn lemma_count_update(v: Seq<SectionView>, k: int, x: SectionView)
    requires
        0 <= k < v.len(),
    ensures
        paragraph_count_seq(v.update(k, x)) + paragraph_count(v[k]) == paragraph_count_seq(v)
            + paragraph_count(x),
    decreases v.len(),
{
    if k == 0 {
        assert(v.update(k, x).drop_first() =~= v.drop_first());
    } else {
        assert(v.update(k, x).drop_first() =~= v.drop_first().update(k - 1, x));
        lemma_count_update(v.drop_first(), k - 1, x);
    }
}

proof fn lemma_insert_path_count(
    sibs: Seq<SectionView>,
    parts: Seq<Seq<char>>,
    i: int,
    seg_level: u8,
    text: Seq<char>,
)
    requires
        0 <= i < parts.len(),
    ensures
        paragraph_count_seq(insert_path(sibs, parts, i, seg_level, text)) == paragraph_count_seq(
            sibs,
        ) + 1,
    decreases parts.len() - i,
{
    let part = parts[i];
    let fresh = SectionView {
        heading: part,
        level: path_level(seg_level, parts.len() as int, i),
        paragraphs: Seq::empty(),
        subsections: Seq::empty(),
    };
    let sibs1 = if heading_index(sibs, part) is None {
        sibs.push(fresh)
    } else {
        sibs
    };
    if heading_index(sibs, part) is None {
        lemma_count_push(sibs, fresh);
        lemma_heading_index_push(sibs, part, fresh, 0);
    }
    lemma_heading_index_bounds(sibs1, part, 0);
    let idx = heading_index(sibs1, part).unwrap();
    let s = sibs1[idx];
    if i == parts.len() - 1 {
        let s2 = SectionView { paragraphs: s.paragraphs.push(text), ..s };
        lemma_count_update(sibs1, idx, s2);
    } else {
        lemma_insert_path_count(s.subsections, parts, i + 1, seg_level, text);
        let s2 = SectionView {
            subsections: insert_path(s.subsections, parts, i + 1, seg_level, text),
            ..s
        };
        lemma_count_update(sibs1, idx, s2);
    }
}

proof fn lemma_split_nonempty(s: Seq<char>, sep: Seq<char>)
    ensures
        split(s, sep).len() >= 1,
{
}

proof fn lemma_tree_count(segs: Seq<SegmentView>, n: int)
    requires
        0 <= n <= segs.len(),
    ensures
        tree_paragraph_count(tree_upto(segs, n)) == nonblank(segs.take(n)).len(),
    decreases n,
{
    if n > 0 {
        lemma_tree_count(segs, n - 1);
        let t = segs.take(n);
        assert(t.drop_last() =~= segs.take(n - 1));
        assert(t.last() == segs[n - 1]);
        let seg = segs[n - 1];
        if trim(seg.text).len() > 0 && seg.section.len() > 0 {
            lemma_split_nonempty(seg.section, " - "@);
            lemma_insert_path_count(
                tree_upto(segs, n - 1).sections,
                split(seg.section, " - "@),
                0,
                seg.section_level,
                trim(seg.text),
            );
        }
    } else {
        assert(segs.take(0) =~= Seq::<SegmentView>::empty());
    }
}

/// The article tree holds exactly one paragraph for each segment whose trimmed text
/// is not empty: none is lost and none is added.
pub proof fn law_tree_keeps_every_paragraph(segs: Seq<SegmentView>)
    ensures
        tree_paragraph_count(article_tree_of(segs)) == nonblank(segs).len(),
{
    lemma_tree_count(segs, segs.len() as int);
    assert(segs.take(segs.len() as int) =~= segs);
}

/// The trimmed texts of the non-blank segments that stand under no heading, in order.
pub open spec fn intro_texts(segs: Seq<SegmentView>) -> Seq<Seq<char>>
    decreases segs.len(),
{
    if segs.len() == 0 {
        Seq::empty()
    } else {
        let rest = intro_texts(segs.drop_last());
        let s = segs.last();
        if trim(s.text).len() > 0 && s.section.len() == 0 {
            rest.push(trim(s.text))
        } else {
            rest
        }
    }
}

proof fn lemma_tree_intro(segs: Seq<SegmentView>, n: int)
    requires
        0 <= n <= segs.len(),
    ensures
        tree_upto(segs, n).intro == intro_texts(segs.take(n)),
    decreases n,
{
    if n > 0 {
        lemma_tree_intro(segs, n - 1);
        let t = segs.take(n);
        assert(t.drop_last() =~= segs.take(n - 1));
        assert(t.last() == segs[n - 1]);
    } else {
        assert(segs.take(0) =~= Seq::<SegmentView>::empty());
    }
}

/// The introduction of the article tree is the trimmed text of every non-blank segment
/// that stands under no heading, in input order.
pub proof fn law_tree_intro(segs: Seq<SegmentView>)
    ensures
        article_tree_of(segs).intro == intro_texts(segs),
{
    lemma_tree_intro(segs, segs.len() as int);
    assert(segs.take(segs.len() as int) =~= segs);
}

/// The headings of a sequence of sections, in order.
pub open spec fn headings(v: Seq<SectionView>) -> Seq<Seq<char>> {
    v.map_values(|s: SectionView| s.heading)
}

/// Sibling sections have distinct headings, at every depth.
pub open spec fn headings_distinct(v: Seq<SectionView>) -> bool
    decreases v,
{
    &&& forall|i: int, j: int| 0 <= i < j < v.len() ==> v[i].heading != v[j].heading
    &&& forall|i: int|
        0 <= i < v.len() ==> headings_distinct(#[trigger] v[i].subsections)
}

proof fn lemma_heading_index_none(v: Seq<SectionView>, h: Seq<char>, i: int)
    requires
        0 <= i,
        heading_index_from(v, h, i) is None,
    ensures
        forall|k: int| i <= k < v.len() ==> v[k].heading != h,
    decreases v.len() - i,
{
    if i < v.len() {
        lemma_heading_index_none(v, h, i + 1);
    }
}

proof fn lemma_insert_path_distinct(
    sibs: Seq<SectionView>,
    parts: Seq<Seq<char>>,
    i: int,
    seg_level: u8,
    text: Seq<char>,
)
    requires
        headings_distinct(sibs),
    ensures
        headings_distinct(insert_path(sibs, parts, i, seg_level, text)),
        0 <= i < parts.len() && heading_index(sibs, parts[i]) is Some ==> headings(
            insert_path(sibs, parts, i, seg_level, text),
        ) == headings(sibs),
        0 <= i < parts.len() && heading_index(sibs, parts[i]) is None ==> headings(
            insert_path(sibs, parts, i, seg_level, text),
        ) == headings(sibs).push(parts[i]),
    decreases parts.len() - i,
{
    if 0 <= i < parts.len() {
        let part = parts[i];
        let fresh = SectionView {
            heading: part,
            level: path_level(seg_level, parts.len() as int, i),
            paragraphs: Seq::empty(),
            subsections: Seq::empty(),
        };
        let sibs1 = if heading_index(sibs, part) is None {
            sibs.push(fresh)
        } else {
            sibs
        };
        if heading_index(sibs, part) is None {
            lemma_heading_index_none(sibs, part, 0);
            lemma_heading_index_push(sibs, part, fresh, 0);
            assert(headings_distinct(fresh.subsections));
            assert(headings_distinct(sibs1)) by {
                assert forall|k: int| 0 <= k < sibs1.len() implies headings_distinct(
                    #[trigger] sibs1[k].subsections,
                ) by {
                    if k < sibs.len() {
                        assert(sibs1[k] == sibs[k]);
                    }
                }
            }
            assert(headings(sibs1) =~= headings(sibs).push(part));
        }
        lemma_heading_index_bounds(sibs1, part, 0);
        let idx = heading_index(sibs1, part).unwrap();
        let s = sibs1[idx];
        assert(headings_distinct(s.subsections));
        let s2 = if i == parts.len() - 1 {
            SectionView { paragraphs: s.paragraphs.push(text), ..s }
        } else {
            lemma_insert_path_distinct(s.subsections, parts, i + 1, seg_level, text);
            SectionView {
                subsections: insert_path(s.subsections, parts, i + 1, seg_level, text),
                ..s
            }
        };
        let r = sibs1.update(idx, s2);
        assert(r == insert_path(sibs, parts, i, seg_level, text));
        assert forall|k: int| 0 <= k < r.len() implies headings_distinct(
            #[trigger] r[k].subsections,
        ) by {
            if k != idx {
                assert(r[k] == sibs1[k]);
            }
        }
        assert(headings(r) =~= headings(sibs1));
    }
}

proof fn lemma_tree_distinct(segs: Seq<SegmentView>, n: int)
    requires
        0 <= n <= segs.len(),
    ensures
        headings_distinct(tree_upto(segs, n).sections),
    decreases n,
{
    if n > 0 {
        lemma_tree_distinct(segs, n - 1);
        let seg = segs[n - 1];
        lemma_insert_path_distinct(
            tree_upto(segs, n - 1).sections,
            split(seg.section, " - "@),
            0,
            seg.section_level,
            trim(seg.text),
        );
    }
}

/// In the article tree, sibling sections have distinct headings at every depth.
pub proof fn law_tree_headings_distinct(segs: Seq<SegmentView>)
    ensures
        headings_distinct(article_tree_of(segs).sections),
{
    lemma_tree_distinct(segs, segs.len() as int);
}

/// Adding a paragraph under a section path keeps the headings of the top-level
/// sections and their order: a heading not yet present is appended at the end, so
/// headings stand in the order in which they are first met. (The sections of every
/// article tree have distinct headings, by [`law_tree_headings_distinct`].)
pub proof fn law_insert_keeps_heading_order(
    sibs: Seq<SectionView>,
    parts: Seq<Seq<char>>,
    seg_level: u8,
    text: Seq<char>,
)
    requires
        headings_distinct(sibs),
        parts.len() > 0,
    ensures
        heading_index(sibs, parts[0]) is Some ==> headings(insert_path(sibs, parts, 0, seg_level, text))
            == headings(sibs),
        heading_index(sibs, parts[0]) is None ==> headings(insert_path(sibs, parts, 0, seg_level, text))
            == headings(sibs).push(parts[0]),
{
    lemma_insert_path_distinct(sibs, parts, 0, seg_level, text);
}

/// The top-level headings that a sequence of segments names, each once, in the order in
/// which they are first met: the first part of the section path of every non-blank
/// segment that stands under a heading.
pub open spec fn first_seen_headings(segs: Seq<SegmentView>) -> Seq<Seq<char>>
    decreases segs.len(),
{
    if segs.len() == 0 {
        Seq::empty()
    } else {
        let rest = first_seen_headings(segs.drop_last());
        let s = segs.last();
        let h = split(s.section, " - "@)[0];
        if trim(s.text).len() == 0 || s.section.len() == 0 || rest.contains(h) {
            rest
        } else {
            rest.push(h)
        }
    }
}

proof fn lemma_heading_index_contains(v: Seq<SectionView>, h: Seq<char>)
    ensures
        heading_index(v, h) is Some <==> headings(v).contains(h),
{
    lemma_heading_index_bounds(v, h, 0);
    if let Some(k) = heading_index(v, h) {
        assert(headings(v)[k] == h);
    } else {
        lemma_heading_index_none(v, h, 0);
        if headings(v).contains(h) {
            let k = choose|k: int| 0 <= k < headings(v).len() && headings(v)[k] == h;
            assert(v[k].heading == h);
        }
    }
}

proof fn lemma_tree_first_seen(segs: Seq<SegmentView>, n: int)
    requires
        0 <= n <= segs.len(),
    ensures
        headings(tree_upto(segs, n).sections) == first_seen_headings(segs.take(n)),
        headings_distinct(tree_upto(segs, n).sections),
    decreases n,
{
    if n > 0 {
        lemma_tree_first_seen(segs, n - 1);
        let t = segs.take(n);
        assert(t.drop_last() =~= segs.take(n - 1));
        assert(t.last() == segs[n - 1]);
        let seg = segs[n - 1];
        let sibs = tree_upto(segs, n - 1).sections;
        let parts = split(seg.section, " - "@);
        lemma_split_nonempty(seg.section, " - "@);
        lemma_insert_path_distinct(sibs, parts, 0, seg.section_level, trim(seg.text));
        lemma_heading_index_contains(sibs, parts[0]);
    } else {
        assert(segs.take(0) =~= Seq::<SegmentView>::empty());
        assert(headings(Seq::<SectionView>::empty()) =~= Seq::<Seq<char>>::empty());
    }
}

/// The top-level sections of the article tree are headed by the first part of each
/// section path, each heading once, in the order in which the segments first name it.
pub proof fn law_tree_headings_in_first_seen_order(segs: Seq<SegmentView>)
    ensures
        headings(article_tree_of(segs).sections) == first_seen_headings(segs),
{
    lemma_tree_first_seen(segs, segs.len() as int);
    assert(segs.take(segs.len() as int) =~= segs);
}

/// The section reached from `sibs` by following the headings `path[i..]`, one level
/// down for each heading: at each level, the first section with that heading.
pub open spec fn section_at(sibs: Seq<SectionView>, path: Seq<Seq<char>>, i: int) -> Option<
    SectionView,
>
    decreases path.len() - i,
{
    if i < 0 || i >= path.len() {
        None
    } else {
        match heading_index(sibs, path[i]) {
            Some(k) => if 0 <= k < sibs.len() {
                if i == path.len() - 1 {
                    Some(sibs[k])
                } else {
                    section_at(sibs[k].subsections, path, i + 1)
                }
            } else {
                None
            },
            None => None,
        }
    }
}

proof fn lemma_heading_index_update(v: Seq<SectionView>, k: int, x: SectionView, h: Seq<char>, i: int)
    requires
        0 <= k < v.len(),
        x.heading == v[k].heading,
    ensures
        heading_index_from(v.update(k, x), h, i) == heading_index_from(v, h, i),
    decreases v.len() - i,
{
    if 0 <= i < v.len() {
        assert(v.update(k, x)[i].heading == v[i].heading);
        lemma_heading_index_update(v, k, x, h, i + 1);
    }
}

proof fn lemma_heading_index_push_some(v: Seq<SectionView>, h: Seq<char>, x: SectionView, i: int)
    requires
        heading_index_from(v, h, i) is Some,
    ensures
        heading_index_from(v.push(x), h, i) == heading_index_from(v, h, i),
    decreases v.len() - i,
{
    if 0 <= i < v.len() {
        assert(v.push(x)[i] == v[i]);
        if v[i].heading != h {
            lemma_heading_index_push_some(v, h, x, i + 1);
        }
    }
}

proof fn lemma_insert_path_reaches(
    sibs: Seq<SectionView>,
    parts: Seq<Seq<char>>,
    i: int,
    seg_level: u8,
    text: Seq<char>,
)
    requires
        0 <= i < parts.len(),
    ensures
        section_at(insert_path(sibs, parts, i, seg_level, text), parts, i) matches Some(s)
            && s.paragraphs.len() > 0 && s.paragraphs.last() == text,
    decreases parts.len() - i,
{
    let part = parts[i];
    let fresh = SectionView {
        heading: part,
        level: path_level(seg_level, parts.len() as int, i),
        paragraphs: Seq::empty(),
        subsections: Seq::empty(),
    };
    let sibs1 = if heading_index(sibs, part) is None {
        sibs.push(fresh)
    } else {
        sibs
    };
    if heading_index(sibs, part) is None {
        lemma_heading_index_push(sibs, part, fresh, 0);
    }
    lemma_heading_index_bounds(sibs1, part, 0);
    let idx = heading_index(sibs1, part).unwrap();
    let s = sibs1[idx];
    let s2 = if i == parts.len() - 1 {
        SectionView { paragraphs: s.paragraphs.push(text), ..s }
    } else {
        lemma_insert_path_reaches(s.subsections, parts, i + 1, seg_level, text);
        SectionView {
            subsections: insert_path(s.subsections, parts, i + 1, seg_level, text),
            ..s
        }
    };
    let r = sibs1.update(idx, s2);
    lemma_heading_index_update(sibs1, idx, s2, part, 0);
    assert(r == insert_path(sibs, parts, i, seg_level, text));
    assert(r[idx] == s2);
}

proof fn lemma_insert_path_keeps(
    sibs: Seq<SectionView>,
    parts: Seq<Seq<char>>,
    i: int,
    seg_level: u8,
    text: Seq<char>,
    q: Seq<Seq<char>>,
    j: int,
)
    requires
        0 <= j < q.len(),
        section_at(sibs, q, j) is Some,
    ensures
        section_at(insert_path(sibs, parts, i, seg_level, text), q, j) matches Some(s2)
            && section_at(sibs, q, j).unwrap().paragraphs.is_prefix_of(s2.paragraphs),
    decreases q.len() - j,
{
    let old_s = section_at(sibs, q, j).unwrap();
    assert(old_s.paragraphs.is_prefix_of(old_s.paragraphs)) by {
        assert(old_s.paragraphs.subrange(0, old_s.paragraphs.len() as int) =~= old_s.paragraphs);
    }
    if 0 <= i < parts.len() {
        let part = parts[i];
        let fresh = SectionView {
            heading: part,
            level: path_level(seg_level, parts.len() as int, i),
            paragraphs: Seq::empty(),
            subsections: Seq::empty(),
        };
        let sibs1 = if heading_index(sibs, part) is None {
            sibs.push(fresh)
        } else {
            sibs
        };
        lemma_heading_index_bounds(sibs, q[j], 0);
        let k = heading_index(sibs, q[j]).unwrap();
        if heading_index(sibs, part) is None {
            lemma_heading_index_push(sibs, part, fresh, 0);
            lemma_heading_index_push_some(sibs, q[j], fresh, 0);
        }
        assert(sibs1[k] == sibs[k]);
        lemma_heading_index_bounds(sibs1, part, 0);
        let idx = heading_index(sibs1, part).unwrap();
        let s = sibs1[idx];
        let s2 = if i == parts.len() - 1 {
            SectionView { paragraphs: s.paragraphs.push(text), ..s }
        } else {
            SectionView {
                subsections: insert_path(s.subsections, parts, i + 1, seg_level, text),
                ..s
            }
        };
        let r = sibs1.update(idx, s2);
        lemma_heading_index_update(sibs1, idx, s2, q[j], 0);
        assert(r == insert_path(sibs, parts, i, seg_level, text));
        if k == idx {
            assert(r[k] == s2);
            if j == q.len() - 1 {
                if i == parts.len() - 1 {
                    assert(s.paragraphs.push(text).subrange(0, s.paragraphs.len() as int)
                        =~= s.paragraphs);
                }
            } else if i < parts.len() - 1 {
                lemma_insert_path_keeps(s.subsections, parts, i + 1, seg_level, text, q, j + 1);
            }
        } else {
            assert(r[k] == sibs[k]);
        }
    }
}

/// Adding a paragraph under a section path files it in the section that the path's
/// last heading names, reached from the top by one heading per level.
pub proof fn law_insert_path_files_under_the_last_heading(
    sibs: Seq<SectionView>,
    parts: Seq<Seq<char>>,
    seg_level: u8,
    text: Seq<char>,
)
    requires
        parts.len() > 0,
    ensures
        section_at(insert_path(sibs, parts, 0, seg_level, text), parts, 0) matches Some(s)
            && s.paragraphs.len() > 0 && s.paragraphs.last() == text,
{
    lemma_insert_path_reaches(sibs, parts, 0, seg_level, text);
}

/// Whether the tree files a segment under a section: its text is not blank and it
/// stands under a heading.
pub open spec fn filed_under_heading(seg: SegmentView) -> bool {
    trim(seg.text).len() > 0 && seg.section.len() > 0
}

proof fn lemma_tree_paths(segs: Seq<SegmentView>, n: int)
    requires
        0 <= n <= segs.len(),
    ensures
        forall|k: int|
            0 <= k < n && filed_under_heading(#[trigger] segs[k]) ==> (section_at(
                tree_upto(segs, n).sections,
                split(segs[k].section, " - "@),
                0,
            ) matches Some(s) && s.paragraphs.contains(trim(segs[k].text))),
    decreases n,
{
    if n > 0 {
        lemma_tree_paths(segs, n - 1);
        let prev = tree_upto(segs, n - 1).sections;
        let seg = segs[n - 1];
        let cur = tree_upto(segs, n).sections;
        if filed_under_heading(seg) {
            let parts = split(seg.section, " - "@);
            lemma_split_nonempty(seg.section, " - "@);
            lemma_insert_path_reaches(prev, parts, 0, seg.section_level, trim(seg.text));
            assert(cur == insert_path(prev, parts, 0, seg.section_level, trim(seg.text)));
            let s = section_at(cur, parts, 0).unwrap();
            assert(s.paragraphs[s.paragraphs.len() - 1] == trim(seg.text));
            assert forall|k: int|
                0 <= k < n && filed_under_heading(#[trigger] segs[k]) implies (section_at(
                cur,
                split(segs[k].section, " - "@),
                0,
            ) matches Some(s) && s.paragraphs.contains(trim(segs[k].text))) by {
                if k < n - 1 {
                    let q = split(segs[k].section, " - "@);
                    lemma_split_nonempty(segs[k].section, " - "@);
                    lemma_insert_path_keeps(
                        prev,
                        parts,
                        0,
                        seg.section_level,
                        trim(seg.text),
                        q,
                        0,
                    );
                    let a = section_at(prev, q, 0).unwrap().paragraphs;
                    let b = section_at(cur, q, 0).unwrap().paragraphs;
                    let x = trim(segs[k].text);
                    let w = choose|m: int| 0 <= m < a.len() && a[m] == x;
                    assert(b.subrange(0, a.len() as int)[w] == b[w]);
                    assert(b[w] == x);
                }
            }
        } else {
            assert(cur == prev);
        }
    }
}

/// Every non-blank segment that stands under a heading is filed in the article tree
/// under its section path: following the path's headings from the top-level sections,
/// one level down for each, reaches a section, and the segment's trimmed text is among
/// that section's paragraphs.
pub proof fn law_tree_files_paragraphs_under_their_path(segs: Seq<SegmentView>)
    ensures
        forall|k: int|
            0 <= k < segs.len() && filed_under_heading(#[trigger] segs[k]) ==> (section_at(
                article_tree_of(segs).sections,
                split(segs[k].section, " - "@),
                0,
            ) matches Some(s) && s.paragraphs.contains(trim(segs[k].text))),
{
    lemma_tree_paths(segs, segs.len() as int);
}

proof fn lemma_insert_path_levels(
    sibs: Seq<SectionView>,
    parts: Seq<Seq<char>>,
    i: int,
    seg_level: u8,
    text: Seq<char>,
    d: int,
)
    requires
        0 <= i <= d < parts.len(),
        section_at(sibs, parts.take(d + 1), i) is None,
    ensures
        section_at(insert_path(sibs, parts, i, seg_level, text), parts.take(d + 1), i) matches Some(
            s,
        ) && s.level == path_level(seg_level, parts.len() as int, d),
    decreases parts.len() - i,
{
    let q = parts.take(d + 1);
    assert(q[i] == parts[i]);
    let part = parts[i];
    let fresh = SectionView {
        heading: part,
        level: path_level(seg_level, parts.len() as int, i),
        paragraphs: Seq::empty(),
        subsections: Seq::empty(),
    };
    let sibs1 = if heading_index(sibs, part) is None {
        sibs.push(fresh)
    } else {
        sibs
    };
    lemma_heading_index_bounds(sibs, part, 0);
    if heading_index(sibs, part) is None {
        lemma_heading_index_push(sibs, part, fresh, 0);
    }
    lemma_heading_index_bounds(sibs1, part, 0);
    let idx = heading_index(sibs1, part).unwrap();
    let s = sibs1[idx];
    if heading_index(sibs, part) is None {
        assert(s == fresh);
        assert(heading_index_from(Seq::<SectionView>::empty(), q[i + 1], 0) is None);
    }
    let s2 = if i == parts.len() - 1 {
        SectionView { paragraphs: s.paragraphs.push(text), ..s }
    } else {
        if i < d {
            lemma_insert_path_levels(s.subsections, parts, i + 1, seg_level, text, d);
        }
        SectionView {
            subsections: insert_path(s.subsections, parts, i + 1, seg_level, text),
            ..s
        }
    };
    let r = sibs1.update(idx, s2);
    lemma_heading_index_update(sibs1, idx, s2, part, 0);
    assert(r == insert_path(sibs, parts, i, seg_level, text));
    assert(r[idx] == s2);
}

/// A section that a paragraph's path creates gets its level from the segment's level:
/// the section for the last heading of the path has the segment's level, and each one
/// above it one less, not below zero (the depth taken modulo 256, as a `u8`).
pub proof fn law_new_sections_take_levels_from_the_segment(
    sibs: Seq<SectionView>,
    parts: Seq<Seq<char>>,
    seg_level: u8,
    text: Seq<char>,
    d: int,
)
    requires
        0 <= d < parts.len(),
        section_at(sibs, parts.take(d + 1), 0) is None,
    ensures
        section_at(insert_path(sibs, parts, 0, seg_level, text), parts.take(d + 1), 0) matches Some(
            s,
        ) && s.level == ({
            let depth = ((parts.len() - 1 - d) % 256) as u8;
            if seg_level < depth {
                0
            } else {
                (seg_level - depth) as u8
            }
        }),
{
    lemma_insert_path_levels(sibs, parts, 0, seg_level, text, d);
}

} // verus!
