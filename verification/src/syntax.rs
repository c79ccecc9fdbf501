//! The HTML syntax tree: what the tree-sitter HTML parser reports of a document, as
//! plain values, and the tree that its preorder listing describes.

use vstd::prelude::*;
use vstd::utf8::{decode_utf8, encode_utf8, is_char_boundary};

use tree_sitter::{LanguageError, Parser};

use crate::text::str_eq;

verus! {

broadcast use vstd::utf8::encode_utf8_decode_utf8;

#[verifier::external_type_specification]
#[verifier::external_body]
pub struct ExParser(tree_sitter::Parser);

#[verifier::external_type_specification]
#[verifier::external_body]
pub struct ExLanguageError(tree_sitter::LanguageError);

/// One node of a parsed document, as the parser reports it: its grammar kind, its byte
/// range in the source, and its number of children.
#[derive(Debug, Clone)]
pub struct RawNode {
    pub kind: String,
    pub start_byte: usize,
    pub end_byte: usize,
    pub child_count: usize,
}

/// The mathematical value of a [`RawNode`].
pub struct RawNodeView {
    pub kind: Seq<char>,
    pub start_byte: nat,
    pub end_byte: nat,
    pub child_count: nat,
}

impl View for RawNode {
    type V = RawNodeView;

    open spec fn view(&self) -> RawNodeView {
        RawNodeView {
            kind: self.kind@,
            start_byte: self.start_byte as nat,
            end_byte: self.end_byte as nat,
            child_count: self.child_count as nat,
        }
    }
}

/// The views of a sequence of raw nodes.
pub open spec fn raw_views(s: Seq<RawNode>) -> Seq<RawNodeView> {
    s.map_values(|n: RawNode| n@)
}

/// The nodes of the tree-sitter HTML syntax tree of `html`, in preorder.
pub uninterp spec fn html_syntax(html: Seq<char>) -> Seq<RawNodeView>;

/// The node kinds of the HTML grammar that text extraction tells apart.
#[derive(Debug, Clone, Copy, PartialEq, Eq, Structural)]
pub enum NodeKind {
    Text,
    Element,
    ScriptElement,
    StyleElement,
    StartTag,
    TagName,
    Attribute,
    AttributeName,
    AttributeValue,
    QuotedAttributeValue,
    Other,
}

/// The kind that a grammar kind name stands for.
pub open spec fn classify(k: Seq<char>) -> NodeKind {
    if k == "text"@ {
        NodeKind::Text
    } else if k == "element"@ {
        NodeKind::Element
    } else if k == "script_element"@ {
        NodeKind::ScriptElement
    } else if k == "style_element"@ {
        NodeKind::StyleElement
    } else if k == "start_tag"@ {
        NodeKind::StartTag
    } else if k == "tag_name"@ {
        NodeKind::TagName
    } else if k == "attribute"@ {
        NodeKind::Attribute
    } else if k == "attribute_name"@ {
        NodeKind::AttributeName
    } else if k == "attribute_value"@ {
        NodeKind::AttributeValue
    } else if k == "quoted_attribute_value"@ {
        NodeKind::QuotedAttributeValue
    } else {
        NodeKind::Other
    }
}

pub fn classify_exec(k: &str) -> (r: NodeKind)
    ensures
        r == classify(k@),
{
    if str_eq(k, "text") {
        NodeKind::Text
    } else if str_eq(k, "element") {
        NodeKind::Element
    } else if str_eq(k, "script_element") {
        NodeKind::ScriptElement
    } else if str_eq(k, "style_element") {
        NodeKind::StyleElement
    } else if str_eq(k, "start_tag") {
        NodeKind::StartTag
    } else if str_eq(k, "tag_name") {
        NodeKind::TagName
    } else if str_eq(k, "attribute") {
        NodeKind::Attribute
    } else if str_eq(k, "attribute_name") {
        NodeKind::AttributeName
    } else if str_eq(k, "attribute_value") {
        NodeKind::AttributeValue
    } else if str_eq(k, "quoted_attribute_value") {
        NodeKind::QuotedAttributeValue
    } else {
        NodeKind::Other
    }
}

/// A node of the syntax tree, as a mathematical value.
pub struct SyntaxTree {
    pub kind: NodeKind,
    pub start_byte: nat,
    pub end_byte: nat,
    pub children: Seq<SyntaxTree>,
}

/// A node of the syntax tree.
#[derive(Debug)]
pub struct SyntaxNode {
    pub kind: NodeKind,
    pub start_byte: usize,
    pub end_byte: usize,
    pub children: Vec<SyntaxNode>,
}

/// The value of a node.
pub open spec fn tree_of(n: SyntaxNode) -> SyntaxTree
    decreases n,
{
    SyntaxTree {
        kind: n.kind,
        start_byte: n.start_byte as nat,
        end_byte: n.end_byte as nat,
        children: trees_of(n.children@),
    }
}

/// The values of a sequence of nodes.
pub open spec fn trees_of(v: Seq<SyntaxNode>) -> Seq<SyntaxTree>
    decreases v,
{
    Seq::new(
        v.len(),
        |i: int|
            if 0 <= i < v.len() {
                tree_of(v[i])
            } else {
                SyntaxTree { kind: NodeKind::Other, start_byte: 0, end_byte: 0, children: Seq::empty() }
            },
    )
}

/// The value of a node has the node's kind, range and number of children.
pub broadcast proof fn lemma_tree_of_fields(n: SyntaxNode)
    ensures
        #![trigger tree_of(n)]
        tree_of(n).kind == n.kind,
        tree_of(n).start_byte == n.start_byte,
        tree_of(n).end_byte == n.end_byte,
        tree_of(n).children.len() == n.children@.len(),
{
}

/// The value of a node's child is the child's value.
pub broadcast proof fn lemma_tree_of_child(n: SyntaxNode, i: int)
    requires
        0 <= i < n.children@.len(),
    ensures
        #[trigger] tree_of(n).children[i] == tree_of(n.children@[i]),
{
}

/// The node listed at position `i` of a preorder listing, with the position after its
/// last descendant; `None` when the listing ends before the subtree does.
pub open spec fn decode_node(e: Seq<RawNodeView>, i: int) -> Option<(SyntaxTree, int)>
    decreases e.len() - i, 0int,
{
    if 0 <= i < e.len() {
        match decode_children(e, i + 1, e[i].child_count) {
            Some((cs, next)) => Some(
                (
                    SyntaxTree {
                        kind: classify(e[i].kind),
                        start_byte: e[i].start_byte,
                        end_byte: e[i].end_byte,
                        children: cs,
                    },
                    next,
                ),
            ),
            None => None,
        }
    } else {
        None
    }
}

/// `k` consecutive subtrees listed from position `j` of a preorder listing, with the
/// position after the last of them.
pub open spec fn decode_children(e: Seq<RawNodeView>, j: int, k: nat) -> Option<
    (Seq<SyntaxTree>, int),
>
    decreases e.len() - j, 1int,
{
    if k == 0 {
        Some((Seq::empty(), j))
    } else if 0 <= j < e.len() {
        match decode_node(e, j) {
            Some((t, next)) => if j < next <= e.len() {
                match decode_children(e, next, (k - 1) as nat) {
                    Some((rest, n2)) => Some((seq![t] + rest, n2)),
                    None => None,
                }
            } else {
                None
            },
            None => None,
        }
    } else {
        None
    }
}

/// The tree whose preorder listing is `e`, when `e` lists exactly one tree.
pub open spec fn syntax_tree(e: Seq<RawNodeView>) -> Option<SyntaxTree> {
    match decode_node(e, 0) {
        Some((t, n)) => if n == e.len() {
            Some(t)
        } else {
            None
        },
        None => None,
    }
}

/// The result of decoding trees before `r`'s.
pub open spec fn after(cs: Seq<SyntaxTree>, r: Option<(Seq<SyntaxTree>, int)>) -> Option<
    (Seq<SyntaxTree>, int),
> {
    match r {
        Some((rest, n)) => Some((cs + rest, n)),
        None => None,
    }
}

proof fn lemma_trees_of_push(v: Seq<SyntaxNode>, n: SyntaxNode)
    ensures
        trees_of(v.push(n)) == trees_of(v).push(tree_of(n)),
{
    assert(trees_of(v.push(n)) =~= trees_of(v).push(tree_of(n)));
}

/// Decodes the subtree listed at position `i`.
fn decode_node_exec(e: &Vec<RawNode>, i: usize) -> (r: Option<(SyntaxNode, usize)>)
    ensures
        r matches Some((n, next)) ==> decode_node(raw_views(e@), i as int) == Some(
            (tree_of(n), next as int),
        ),
        r is None ==> decode_node(raw_views(e@), i as int) is None,
    decreases e@.len() - i,
{
    let ghost ev = raw_views(e@);
    if i >= e.len() {
        return None;
    }
    let k = e[i].child_count;
    let mut children: Vec<SyntaxNode> = Vec::new();
    let mut pos: usize = i + 1;
    let mut c: usize = 0;
    assert(trees_of(children@) =~= Seq::<SyntaxTree>::empty());
    assert(after(Seq::empty(), decode_children(ev, pos as int, (k - c) as nat)) == decode_children(
        ev,
        i + 1,
        k as nat,
    )) by {
        match decode_children(ev, i + 1, k as nat) {
            Some((cs, n)) => {
                assert(Seq::<SyntaxTree>::empty() + cs =~= cs);
            },
            None => {},
        }
    }
    while c < k
        invariant
            ev == raw_views(e@),
            i < e@.len(),
            k == e@[i as int].child_count,
            i < pos <= e@.len(),
            c <= k,
            decode_children(ev, i + 1, k as nat) == after(
                trees_of(children@),
                decode_children(ev, pos as int, (k - c) as nat),
            ),
        decreases k - c,
    {
        if pos >= e.len() {
            return None;
        }
        match decode_node_exec(e, pos) {
            None => {
                return None;
            },
            Some((child, next)) => {
                if !(pos < next && next <= e.len()) {
                    return None;
                }
                proof {
                    let cs = trees_of(children@);
                    lemma_trees_of_push(children@, child);
                    match decode_children(ev, next as int, (k - c - 1) as nat) {
                        Some((rest, n2)) => {
                            assert(cs + (seq![tree_of(child)] + rest) =~= cs.push(tree_of(child))
                                + rest);
                        },
                        None => {},
                    }
                }
                children.push(child);
                pos = next;
                c = c + 1;
            },
        }
    }
    assert(decode_children(ev, pos as int, 0) == Some((Seq::<SyntaxTree>::empty(), pos as int)));
    assert(trees_of(children@) + Seq::<SyntaxTree>::empty() =~= trees_of(children@));
    let kind = classify_exec(e[i].kind.as_str());
    let node = SyntaxNode {
        kind,
        start_byte: e[i].start_byte,
        end_byte: e[i].end_byte,
        children,
    };
    Some((node, pos))
}

/// The tree that a preorder listing of nodes describes.
pub fn syntax_tree_exec(e: &Vec<RawNode>) -> (r: Option<SyntaxNode>)
    ensures
        r matches Some(n) ==> syntax_tree(raw_views(e@)) == Some(tree_of(n)),
        r is None ==> syntax_tree(raw_views(e@)) is None,
{
    match decode_node_exec(e, 0) {
        Some((n, next)) => if next == e.len() {
            Some(n)
        } else {
            None
        },
        None => None,
    }
}

/// Creates a parser (`tree_sitter::Parser::new`) and assigns it the tree-sitter HTML
/// grammar, `tree_sitter_html::LANGUAGE` (`tree_sitter::Parser::set_language`).
///
/// `set_language` fails only for a grammar whose ABI version lies outside
/// `MIN_COMPATIBLE_LANGUAGE_VERSION..=LANGUAGE_VERSION` (13 to 15 in tree-sitter 0.27.1)
/// or that has no lexer; the bundled grammar has ABI version 14 and a lexer, so the
/// assignment succeeds.
#[verifier::external_body]
pub(crate) fn new_html_parser() -> (r: Result<Parser, LanguageError>)
    ensures
        r is Ok,
{
    let mut parser = Parser::new();
    parser.set_language(&tree_sitter_html::LANGUAGE.into())?;
    Ok(parser)
}

/// Parses `html` (`tree_sitter::Parser::parse`) and lists the nodes of the resulting
/// tree in preorder, each with its kind (`Node::kind`), byte range (`Node::start_byte`,
/// `Node::end_byte`) and number of children (`Node::child_count`), visiting them with
/// `TreeCursor::goto_descendant` over `0..Node::descendant_count()` of the root; the
/// loop only converts each node into a plain record.
///
/// The HTML grammar is assigned first (`Parser::set_language`, which succeeds for the
/// bundled grammar as `new_html_parser` states), whatever the parser held before.
/// `parse` returns `None` only when no language is assigned (or a progress callback,
/// which is never given here, cancels it), so a tree is always returned. That tree is a
/// function of `html` alone: the list is named `html_syntax(html)`. The list holds the
/// root (descendant 0) and every descendant in preorder, each node with the number of
/// its children, so it is the preorder listing of one tree: it decodes.
#[verifier::external_body]
pub(crate) fn parse_html_nodes(parser: &mut Parser, html: &str) -> (r: Option<Vec<RawNode>>)
    ensures
        r is Some,
        r matches Some(v) ==> raw_views(v@) == html_syntax(html@) && syntax_tree(
            raw_views(v@),
        ) is Some,
{
    parser.set_language(&tree_sitter_html::LANGUAGE.into()).ok()?;
    let tree = parser.parse(html, None)?;
    let root = tree.root_node();
    let mut cursor = root.walk();
    let mut nodes = Vec::new();
    for i in 0..root.descendant_count() {
        cursor.goto_descendant(i);
        let n = cursor.node();
        let (start_byte, end_byte) = (n.start_byte(), n.end_byte());
        let child_count = n.child_count() as usize;
        nodes.push(RawNode { kind: n.kind().to_string(), start_byte, end_byte, child_count });
    }
    Some(nodes)
}

/// The text of `s` between the byte offsets `start` and `end` (`str::get` with a
/// range): `None` when the range is reversed, runs past the end, or does not lie on
/// character boundaries.
#[verifier::external_body]
fn str_get(s: &str, start: usize, end: usize) -> (r: Option<&str>)
    ensures
        r is Some <==> (start <= end && end <= encode_utf8(s@).len() && is_char_boundary(
            encode_utf8(s@),
            start as int,
        ) && is_char_boundary(encode_utf8(s@), end as int)),
        r matches Some(t) ==> encode_utf8(t@) == encode_utf8(s@).subrange(
            start as int,
            end as int,
        ),
{
    s.get(start..end)
}

/// The source text that a node spans: the bytes of its range, decoded, when the range
/// lies on character boundaries of the source.
pub open spec fn node_text(html: Seq<char>, t: SyntaxTree) -> Option<Seq<char>> {
    let b = encode_utf8(html);
    if t.start_byte <= t.end_byte && t.end_byte <= b.len() && is_char_boundary(
        b,
        t.start_byte as int,
    ) && is_char_boundary(b, t.end_byte as int) {
        Some(decode_utf8(b.subrange(t.start_byte as int, t.end_byte as int)))
    } else {
        None
    }
}

/// The source text that a node spans (`Node::utf8_text`).
pub fn node_text_exec(html: &str, node: &SyntaxNode) -> (r: Option<String>)
    ensures
        r matches Some(s) ==> node_text(html@, tree_of(*node)) == Some(s@),
        r is None ==> node_text(html@, tree_of(*node)) is None,
{
    match str_get(html, node.start_byte, node.end_byte) {
        Some(t) => {
            assert(decode_utf8(encode_utf8(t@)) == t@);
            Some(t.to_owned())
        },
        None => None,
    }
}

/// A node as a preorder listing gives it: kind, byte range and number of children.
pub struct ListedNode {
    pub kind: NodeKind,
    pub start_byte: nat,
    pub end_byte: nat,
    pub child_count: nat,
}

/// A reported node, with its kind name classified.
pub open spec fn listed(r: RawNodeView) -> ListedNode {
    ListedNode {
        kind: classify(r.kind),
        start_byte: r.start_byte,
        end_byte: r.end_byte,
        child_count: r.child_count,
    }
}

/// The reported nodes from position `a` to `b`, classified.
pub open spec fn listing(e: Seq<RawNodeView>, a: int, b: int) -> Seq<ListedNode> {
    e.subrange(a, b).map_values(|r: RawNodeView| listed(r))
}

/// The nodes of a tree in preorder: the node, then its children's subtrees in order.
pub open spec fn preorder(t: SyntaxTree) -> Seq<ListedNode>
    decreases t,
{
    seq![
        ListedNode {
            kind: t.kind,
            start_byte: t.start_byte,
            end_byte: t.end_byte,
            child_count: t.children.len(),
        },
    ] + preorder_seq(t.children)
}

/// The preorder listings of a sequence of trees, one after the other.
pub open spec fn preorder_seq(cs: Seq<SyntaxTree>) -> Seq<ListedNode>
    decreases cs,
{
    if cs.len() == 0 {
        Seq::empty()
    } else {
        preorder(cs[0]) + preorder_seq(cs.drop_first())
    }
}

proof fn lemma_listing_split(e: Seq<RawNodeView>, a: int, m: int, b: int)
    requires
        0 <= a <= m <= b <= e.len(),
    ensures
        listing(e, a, b) == listing(e, a, m) + listing(e, m, b),
{
    assert(listing(e, a, b) =~= listing(e, a, m) + listing(e, m, b));
}

proof fn lemma_decode_node_sound(e: Seq<RawNodeView>, i: int)
    ensures
        decode_node(e, i) matches Some((t, n)) ==> i < n <= e.len() && preorder(t) == listing(
            e,
            i,
            n,
        ),
    decreases e.len() - i, 0int,
{
    if 0 <= i < e.len() {
        lemma_decode_children_sound(e, i + 1, e[i].child_count);
        match decode_children(e, i + 1, e[i].child_count) {
            Some((cs, next)) => {
                let t = decode_node(e, i).unwrap().0;
                lemma_listing_split(e, i, i + 1, next);
                assert(listing(e, i, i + 1) =~= seq![listed(e[i])]);
                assert(preorder(t) == seq![listed(e[i])] + preorder_seq(cs));
            },
            None => {},
        }
    }
}

proof fn lemma_decode_children_sound(e: Seq<RawNodeView>, j: int, k: nat)
    requires
        0 <= j <= e.len(),
    ensures
        decode_children(e, j, k) matches Some((cs, n)) ==> j <= n <= e.len() && cs.len() == k
            && preorder_seq(cs) == listing(e, j, n),
    decreases e.len() - j, 1int,
{
    if k == 0 {
        assert(listing(e, j, j) =~= Seq::<ListedNode>::empty());
    } else if 0 <= j < e.len() {
        lemma_decode_node_sound(e, j);
        match decode_node(e, j) {
            Some((t, next)) => {
                if j < next <= e.len() {
                    lemma_decode_children_sound(e, next, (k - 1) as nat);
                    match decode_children(e, next, (k - 1) as nat) {
                        Some((rest, n2)) => {
                            let cs = seq![t] + rest;
                            assert(cs.drop_first() =~= rest);
                            assert(cs[0] == t);
                            lemma_listing_split(e, j, next, n2);
                        },
                        None => {},
                    }
                }
            },
            None => {},
        }
    }
}

proof fn lemma_preorder_len(t: SyntaxTree)
    ensures
        preorder(t).len() >= 1,
{
}

proof fn lemma_decode_node_complete(e: Seq<RawNodeView>, i: int, t: SyntaxTree)
    requires
        0 <= i,
        i + preorder(t).len() <= e.len(),
        listing(e, i, i + preorder(t).len()) == preorder(t),
    ensures
        decode_node(e, i) == Some((t, i + preorder(t).len())),
    decreases t,
{
    let n = i + preorder(t).len();
    lemma_listing_split(e, i, i + 1, n);
    assert(listing(e, i, i + 1) =~= seq![listed(e[i])]);
    assert(listing(e, i, n)[0] == preorder(t)[0]);
    assert(listed(e[i]) == preorder(t)[0]);
    assert(listing(e, i + 1, n) =~= preorder_seq(t.children)) by {
        assert(listing(e, i, n).skip(1) =~= listing(e, i + 1, n));
        assert(preorder(t).skip(1) =~= preorder_seq(t.children));
    }
    lemma_decode_children_complete(e, i + 1, t.children);
    assert(e[i].child_count == t.children.len());
}

proof fn lemma_decode_children_complete(e: Seq<RawNodeView>, j: int, cs: Seq<SyntaxTree>)
    requires
        0 <= j,
        j + preorder_seq(cs).len() <= e.len(),
        listing(e, j, j + preorder_seq(cs).len()) == preorder_seq(cs),
    ensures
        decode_children(e, j, cs.len()) == Some((cs, j + preorder_seq(cs).len())),
    decreases cs,
{
    if cs.len() > 0 {
        let t = cs[0];
        let rest = cs.drop_first();
        let p = preorder(t).len() as int;
        let n = j + preorder_seq(cs).len();
        lemma_preorder_len(t);
        assert(preorder_seq(cs) == preorder(t) + preorder_seq(rest));
        lemma_listing_split(e, j, j + p, n);
        assert(listing(e, j, j + p) =~= preorder(t)) by {
            assert(listing(e, j, n).take(p) =~= listing(e, j, j + p));
            assert(preorder_seq(cs).take(p) =~= preorder(t));
        }
        assert(listing(e, j + p, n) =~= preorder_seq(rest)) by {
            assert(listing(e, j, n).skip(p) =~= listing(e, j + p, n));
            assert(preorder_seq(cs).skip(p) =~= preorder_seq(rest));
        }
        lemma_decode_node_complete(e, j, t);
        lemma_decode_children_complete(e, j + p, rest);
        assert(seq![t] + rest =~= cs);
        assert((cs.len() - 1) as nat == rest.len());
    } else {
        assert(preorder_seq(cs) =~= Seq::<ListedNode>::empty());
    }
}

/// The tree that a listing decodes to lists, in preorder, exactly the reported nodes;
/// and a listing that is the preorder listing of a tree decodes to that tree.
pub proof fn law_syntax_tree_is_preorder_inverse(e: Seq<RawNodeView>, t: SyntaxTree)
    ensures
        syntax_tree(e) matches Some(d) ==> preorder(d) == e.map_values(|r: RawNodeView| listed(r)),
        e.map_values(|r: RawNodeView| listed(r)) == preorder(t) ==> syntax_tree(e) == Some(t),
{
    lemma_decode_node_sound(e, 0);
    assert(listing(e, 0, e.len() as int) =~= e.map_values(|r: RawNodeView| listed(r)));
    if e.map_values(|r: RawNodeView| listed(r)) == preorder(t) {
        lemma_decode_node_complete(e, 0, t);
    }
}

} // verus!
