//! Reading HTML elements from the syntax tree: tag names, attributes, element text,
//! class tokens, heading levels and link targets.

use vstd::prelude::*;

use crate::syntax::{NodeKind, SyntaxNode, SyntaxTree, node_text, node_text_exec, tree_of};
use crate::text::{
    chars_of, has_prefix, is_trimmed, is_whitespace, is_whitespace_char, join,
    lemma_join_concat, lemma_join_nonempty_last, lemma_join_push, lemma_trim_is_trimmed,
    lemma_trimmed_is_fixed, occurs_at, occurs_at_exec, push_char, starts_with, str_eq,
    string_from, trim, trim_str,
};

verus! {

broadcast use {crate::syntax::lemma_tree_of_fields, crate::syntax::lemma_tree_of_child};

/// A name and value pair of an element's attribute.
pub type AttrView = (Seq<char>, Seq<char>);

/// The first index at or after `i` of a node of kind `k`.
pub open spec fn first_of_kind_from(cs: Seq<SyntaxTree>, k: NodeKind, i: int) -> Option<int>
    decreases cs.len() - i,
{
    if i < 0 || i >= cs.len() {
        None
    } else if cs[i].kind == k {
        Some(i)
    } else {
        first_of_kind_from(cs, k, i + 1)
    }
}

/// The first index of a node of kind `k`.
pub open spec fn first_of_kind(cs: Seq<SyntaxTree>, k: NodeKind) -> Option<int> {
    first_of_kind_from(cs, k, 0)
}

/// The value that a quoted attribute value gives after its first `m` children, starting
/// from `v0`: the text of the last readable `attribute_value` among them.
pub open spec fn quoted_value_upto(html: Seq<char>, q: SyntaxTree, m: int, v0: Seq<char>) -> Seq<
    char,
>
    decreases m,
{
    if m <= 0 || m > q.children.len() {
        v0
    } else {
        let v = quoted_value_upto(html, q, m - 1, v0);
        let g = q.children[m - 1];
        if g.kind == NodeKind::AttributeValue {
            match node_text(html, g) {
                Some(s) => s,
                None => v,
            }
        } else {
            v
        }
    }
}

/// The name and value of an attribute after its first `n` children: the name is the
/// text of the last `attribute_name` (none when that text is unreadable), the value the
/// last readable `attribute_value`, directly or inside a quoted value.
pub open spec fn attr_upto(html: Seq<char>, a: SyntaxTree, n: int) -> (Option<Seq<char>>, Seq<char>)
    decreases n,
{
    if n <= 0 || n > a.children.len() {
        (None, Seq::empty())
    } else {
        let st = attr_upto(html, a, n - 1);
        let c = a.children[n - 1];
        match c.kind {
            NodeKind::AttributeName => (node_text(html, c), st.1),
            NodeKind::QuotedAttributeValue => (
                st.0,
                quoted_value_upto(html, c, c.children.len() as int, st.1),
            ),
            NodeKind::AttributeValue => (
                st.0,
                match node_text(html, c) {
                    Some(s) => s,
                    None => st.1,
                },
            ),
            _ => st,
        }
    }
}

/// The name and value of an attribute node; `None` when it has no readable name.
pub open spec fn parse_attribute(html: Seq<char>, a: SyntaxTree) -> Option<AttrView> {
    let st = attr_upto(html, a, a.children.len() as int);
    match st.0 {
        Some(name) => Some((name, st.1)),
        None => None,
    }
}

/// The attributes read from the first `n` children of a start tag.
pub open spec fn attributes_upto(html: Seq<char>, st: SyntaxTree, n: int) -> Seq<AttrView>
    decreases n,
{
    if n <= 0 || n > st.children.len() {
        Seq::empty()
    } else {
        let acc = attributes_upto(html, st, n - 1);
        let c = st.children[n - 1];
        if c.kind == NodeKind::Attribute {
            match parse_attribute(html, c) {
                Some(p) => acc.push(p),
                None => acc,
            }
        } else {
            acc
        }
    }
}

/// The tag name and attributes of an element: read from its first start tag, whose
/// first tag name must be readable.
pub open spec fn parse_element(html: Seq<char>, e: SyntaxTree) -> Option<
    (Seq<char>, Seq<AttrView>),
> {
    match first_of_kind(e.children, NodeKind::StartTag) {
        Some(si) => {
            let st = e.children[si];
            match first_of_kind(st.children, NodeKind::TagName) {
                Some(ti) => match node_text(html, st.children[ti]) {
                    Some(tag) => Some((tag, attributes_upto(html, st, st.children.len() as int))),
                    None => None,
                },
                None => None,
            }
        },
        None => None,
    }
}

/// The value of the first attribute named `key`, at or after index `i`.
pub open spec fn find_attr_from(attrs: Seq<AttrView>, key: Seq<char>, i: int) -> Option<Seq<char>>
    decreases attrs.len() - i,
{
    if i < 0 || i >= attrs.len() {
        None
    } else if attrs[i].0 == key {
        Some(attrs[i].1)
    } else {
        find_attr_from(attrs, key, i + 1)
    }
}

/// The value of the first attribute named `key`.
pub open spec fn find_attr(attrs: Seq<AttrView>, key: Seq<char>) -> Option<Seq<char>> {
    find_attr_from(attrs, key, 0)
}

/// The value of the first attribute named `key`, or the empty string.
pub open spec fn attr_or_empty(attrs: Seq<AttrView>, key: Seq<char>) -> Seq<char> {
    match find_attr(attrs, key) {
        Some(v) => v,
        None => Seq::empty(),
    }
}

/// `acc` followed by a space, unless it is empty.
pub open spec fn space_after(acc: Seq<char>) -> Seq<char> {
    if acc.len() > 0 {
        acc.push(' ')
    } else {
        acc
    }
}

/// The text of a heading element: its text children trimmed and joined without
/// separator, and its non-empty child elements' text separated by a space.
pub open spec fn element_text(html: Seq<char>, t: SyntaxTree) -> Seq<char>
    decreases t, t.children.len() + 1,
{
    element_text_upto(html, t, t.children.len() as int)
}

/// [`element_text`] after the first `n` children.
pub open spec fn element_text_upto(html: Seq<char>, t: SyntaxTree, n: int) -> Seq<char>
    decreases t, n,
{
    if n <= 0 || n > t.children.len() {
        Seq::empty()
    } else {
        let acc = element_text_upto(html, t, n - 1);
        let c = t.children[n - 1];
        match c.kind {
            NodeKind::Text => match node_text(html, c) {
                Some(s) => acc + trim(s),
                None => acc,
            },
            NodeKind::Element => {
                let ct = element_text(html, c);
                if ct.len() > 0 {
                    space_after(acc) + ct
                } else {
                    acc
                }
            },
            _ => acc,
        }
    }
}

/// The text of an inline element: its non-empty trimmed text children and non-empty
/// child elements' text, separated by single spaces.
pub open spec fn inline_text(html: Seq<char>, t: SyntaxTree) -> Seq<char>
    decreases t, t.children.len() + 1,
{
    inline_text_upto(html, t, t.children.len() as int)
}

/// [`inline_text`] after the first `n` children.
pub open spec fn inline_text_upto(html: Seq<char>, t: SyntaxTree, n: int) -> Seq<char>
    decreases t, n,
{
    if n <= 0 || n > t.children.len() {
        Seq::empty()
    } else {
        let acc = inline_text_upto(html, t, n - 1);
        let c = t.children[n - 1];
        match c.kind {
            NodeKind::Text => match node_text(html, c) {
                Some(s) => if trim(s).len() > 0 {
                    space_after(acc) + trim(s)
                } else {
                    acc
                },
                None => acc,
            },
            NodeKind::Element => {
                let ct = inline_text(html, c);
                if ct.len() > 0 {
                    space_after(acc) + ct
                } else {
                    acc
                }
            },
            _ => acc,
        }
    }
}

/// Whether `w` is one of the whitespace-separated tokens of `s`: it occurs in `s` with
/// whitespace or the end of `s` on both sides.
pub open spec fn has_token(s: Seq<char>, w: Seq<char>) -> bool {
    exists|i: int|
        occurs_at(s, w, i) && (i == 0 || is_whitespace(s[i - 1])) && (i + w.len() == s.len()
            || is_whitespace(s[i + w.len()]))
}

/// Whether a `class` attribute names one of the classes whose elements hold no prose.
pub open spec fn excluded_class(class: Seq<char>) -> bool {
    ||| has_token(class, "shortdescription"@)
    ||| has_token(class, "hatnote"@)
    ||| has_token(class, "infobox"@)
    ||| has_token(class, "reference"@)
    ||| has_token(class, "navbox"@)
    ||| has_token(class, "noprint"@)
    ||| has_token(class, "reflist"@)
    ||| has_token(class, "citation"@)
}

/// The heading level of a tag name: 1 to 6 for `h1` to `h6`.
pub open spec fn header_level(tag: Seq<char>) -> Option<u8> {
    if tag == "h1"@ {
        Some(1u8)
    } else if tag == "h2"@ {
        Some(2u8)
    } else if tag == "h3"@ {
        Some(3u8)
    } else if tag == "h4"@ {
        Some(4u8)
    } else if tag == "h5"@ {
        Some(5u8)
    } else if tag == "h6"@ {
        Some(6u8)
    } else {
        None
    }
}

/// A link target resolved against the base URL: absolute `http(s)://` targets are kept,
/// protocol-relative `//` targets get `https:`, `./` targets are appended to the base
/// URL when there is one, and anything else is kept.
pub open spec fn resolve_href(base: Option<Seq<char>>, href: Seq<char>) -> Seq<char> {
    if has_prefix(href, "http://"@) || has_prefix(href, "https://"@) {
        href
    } else if has_prefix(href, "//"@) {
        "https://"@ + href.skip(2)
    } else if has_prefix(href, "./"@) && base is Some {
        base.unwrap() + href.skip(2)
    } else {
        href
    }
}

/// The heading level of a tag name (`h1` to `h6`).
pub fn get_header_level(tag: &str) -> (r: Option<u8>)
    ensures
        r == header_level(tag@),
{
    if str_eq(tag, "h1") {
        Some(1)
    } else if str_eq(tag, "h2") {
        Some(2)
    } else if str_eq(tag, "h3") {
        Some(3)
    } else if str_eq(tag, "h4") {
        Some(4)
    } else if str_eq(tag, "h5") {
        Some(5)
    } else if str_eq(tag, "h6") {
        Some(6)
    } else {
        None
    }
}

/// Whether `w` is one of the whitespace-separated tokens of `s`.
pub fn has_token_exec(s: &str, w: &str) -> (r: bool)
    ensures
        r == has_token(s@, w@),
{
    let cs = chars_of(s);
    let ws = chars_of(w);
    let n = cs.len();
    let m = ws.len();
    if m > n {
        assert forall|i: int| !occurs_at(s@, w@, i) by {}
        return false;
    }
    let mut i: usize = 0;
    loop
        invariant
            cs@ == s@,
            ws@ == w@,
            n == cs@.len(),
            m == ws@.len(),
            m <= n,
            i <= n - m,
            forall|j: int|
                0 <= j < i ==> !(occurs_at(s@, w@, j) && (j == 0 || is_whitespace(s@[j - 1])) && (
                j + w@.len() == s@.len() || is_whitespace(s@[j + w@.len()]))),
        decreases n - m - i,
    {
        if occurs_at_exec(cs.as_slice(), ws.as_slice(), i) && (i == 0 || is_whitespace_char(
            cs[i - 1],
        )) && (i + m == n || is_whitespace_char(cs[i + m])) {
            return true;
        }
        if i == n - m {
            assert forall|j: int|
                !(occurs_at(s@, w@, j) && (j == 0 || is_whitespace(s@[j - 1])) && (j + w@.len()
                    == s@.len() || is_whitespace(s@[j + w@.len()]))) by {
                if j > i {
                    assert(!occurs_at(s@, w@, j));
                }
            }
            return false;
        }
        i = i + 1;
    }
}

/// Whether a `class` attribute names one of the classes whose elements hold no prose.
pub fn is_excluded_class(class: &str) -> (r: bool)
    ensures
        r == excluded_class(class@),
{
    has_token_exec(class, "shortdescription") || has_token_exec(class, "hatnote")
        || has_token_exec(class, "infobox") || has_token_exec(class, "reference")
        || has_token_exec(class, "navbox") || has_token_exec(class, "noprint")
        || has_token_exec(class, "reflist") || has_token_exec(class, "citation")
}

/// Resolves a link target against the base URL.
///
/// - `./Foo`           → `{base}Foo`
/// - `//en.wikipedia.org/wiki/Foo` → `https://en.wikipedia.org/wiki/Foo`
/// - already `http(s)://` → unchanged
/// - anything else (anchors, mw-data:, etc.) → unchanged
pub fn resolve_href_exec(base: &Option<String>, href: &str) -> (r: String)
    ensures
        r@ == resolve_href(
            match base {
                Some(b) => Some(b@),
                None => None,
            },
            href@,
        ),
{
    let cs = chars_of(href);
    if starts_with(href, "http://") || starts_with(href, "https://") {
        return href.to_owned();
    }
    if starts_with(href, "//") {
        proof {
            reveal_strlit("//");
        }
        assert(has_prefix(href@, "//"@));
        let mut r = String::from_str("https://");
        let rest = string_from(cs.as_slice(), 2, cs.len());
        assert(rest@ =~= href@.skip(2));
        r.append(rest.as_str());
        return r;
    }
    if starts_with(href, "./") {
        if let Some(b) = base {
            proof {
                reveal_strlit("./");
            }
            assert(has_prefix(href@, "./"@));
            let mut r = b.clone();
            let rest = string_from(cs.as_slice(), 2, cs.len());
            assert(rest@ =~= href@.skip(2));
            r.append(rest.as_str());
            return r;
        }
    }
    href.to_owned()
}

/// The views of attribute pairs.
pub open spec fn attr_views(v: Seq<(String, String)>) -> Seq<AttrView> {
    v.map_values(|p: (String, String)| (p.0@, p.1@))
}

/// The index of the first child of `node` of kind `k`.
fn first_child_of_kind(node: &SyntaxNode, k: NodeKind) -> (r: Option<usize>)
    ensures
        r matches Some(i) ==> first_of_kind(tree_of(*node).children, k) == Some(i as int) && i
            < node.children@.len(),
        r is None ==> first_of_kind(tree_of(*node).children, k) is None,
{
    let ghost cs = tree_of(*node).children;
    let mut i: usize = 0;
    while i < node.children.len()
        invariant
            cs == tree_of(*node).children,
            i <= node.children@.len(),
            first_of_kind(cs, k) == first_of_kind_from(cs, k, i as int),
        decreases node.children.len() - i,
    {
        if node.children[i].kind == k {
            return Some(i);
        }
        i = i + 1;
    }
    None
}

/// The value that a quoted attribute value gives, starting from `v0`.
fn quoted_value_exec(html: &str, q: &SyntaxNode, v0: String) -> (r: String)
    ensures
        r@ == quoted_value_upto(
            html@,
            tree_of(*q),
            tree_of(*q).children.len() as int,
            v0@,
        ),
{
    let ghost t = tree_of(*q);
    let mut v = v0;
    for m in 0..q.children.len()
        invariant
            t == tree_of(*q),
            v@ == quoted_value_upto(html@, t, m as int, v0@),
    {
        let g = &q.children[m];
        if g.kind == NodeKind::AttributeValue {
            if let Some(s) = node_text_exec(html, g) {
                v = s;
            }
        }
    }
    v
}

/// The name and value of an attribute node.
pub fn parse_attribute_exec(html: &str, a: &SyntaxNode) -> (r: Option<(String, String)>)
    ensures
        r matches Some(p) ==> parse_attribute(html@, tree_of(*a)) == Some((p.0@, p.1@)),
        r is None ==> parse_attribute(html@, tree_of(*a)) is None,
{
    let ghost t = tree_of(*a);
    let mut name: Option<String> = None;
    let mut value = String::new();
    for n in 0..a.children.len()
        invariant
            t == tree_of(*a),
            (match name {
                Some(x) => Some(x@),
                None => None,
            }) == attr_upto(html@, t, n as int).0,
            value@ == attr_upto(html@, t, n as int).1,
    {
        let c = &a.children[n];
        match c.kind {
            NodeKind::AttributeName => {
                name = node_text_exec(html, c);
            },
            NodeKind::QuotedAttributeValue => {
                value = quoted_value_exec(html, c, value);
            },
            NodeKind::AttributeValue => {
                if let Some(s) = node_text_exec(html, c) {
                    value = s;
                }
            },
            _ => {},
        }
    }
    match name {
        Some(x) => Some((x, value)),
        None => None,
    }
}

/// The attributes of a start tag.
fn attributes_exec(html: &str, st: &SyntaxNode) -> (r: Vec<(String, String)>)
    ensures
        attr_views(r@) == attributes_upto(html@, tree_of(*st), tree_of(*st).children.len() as int),
{
    let ghost t = tree_of(*st);
    let mut attrs: Vec<(String, String)> = Vec::new();
    assert(attr_views(attrs@) =~= Seq::<AttrView>::empty());
    for n in 0..st.children.len()
        invariant
            t == tree_of(*st),
            attr_views(attrs@) == attributes_upto(html@, t, n as int),
    {
        let c = &st.children[n];
        if c.kind == NodeKind::Attribute {
            if let Some(p) = parse_attribute_exec(html, c) {
                let ghost before = attr_views(attrs@);
                let ghost pv = (p.0@, p.1@);
                attrs.push(p);
                assert(attr_views(attrs@) =~= before.push(pv));
            }
        }
    }
    attrs
}

/// The tag name and attributes of an element.
pub fn parse_element_exec(html: &str, e: &SyntaxNode) -> (r: Option<(String, Vec<(String, String)>)>)
    ensures
        r matches Some(p) ==> parse_element(html@, tree_of(*e)) == Some((p.0@, attr_views(p.1@))),
        r is None ==> parse_element(html@, tree_of(*e)) is None,
{
    let si = match first_child_of_kind(e, NodeKind::StartTag) {
        Some(i) => i,
        None => {
            return None;
        },
    };
    let st = &e.children[si];
    let ti = match first_child_of_kind(st, NodeKind::TagName) {
        Some(i) => i,
        None => {
            return None;
        },
    };
    let tag = match node_text_exec(html, &st.children[ti]) {
        Some(t) => t,
        None => {
            return None;
        },
    };
    let attrs = attributes_exec(html, st);
    Some((tag, attrs))
}

/// The value of the first attribute named `key`.
pub fn find_attr_exec(attrs: &Vec<(String, String)>, key: &str) -> (r: Option<String>)
    ensures
        r matches Some(v) ==> find_attr(attr_views(attrs@), key@) == Some(v@),
        r is None ==> find_attr(attr_views(attrs@), key@) is None,
{
    let ghost av = attr_views(attrs@);
    let mut i: usize = 0;
    while i < attrs.len()
        invariant
            av == attr_views(attrs@),
            i <= attrs@.len(),
            find_attr(av, key@) == find_attr_from(av, key@, i as int),
        decreases attrs.len() - i,
    {
        if str_eq(attrs[i].0.as_str(), key) {
            return Some(attrs[i].1.clone());
        }
        i = i + 1;
    }
    None
}

/// Appends a space to `acc` unless it is empty.
fn push_space_after(acc: &mut String)
    ensures
        final(acc)@ == space_after(old(acc)@),
{
    if !acc.as_str().is_empty() {
        push_char(acc, ' ');
    }
}

/// The text of a heading element.
pub fn element_text_exec(html: &str, node: &SyntaxNode) -> (r: String)
    ensures
        r@ == element_text(html@, tree_of(*node)),
    decreases node,
{
    let ghost t = tree_of(*node);
    let mut text = String::new();
    for n in 0..node.children.len()
        invariant
            t == tree_of(*node),
            text@ == element_text_upto(html@, t, n as int),
    {
        let c = &node.children[n];
        match c.kind {
            NodeKind::Text => {
                if let Some(s) = node_text_exec(html, c) {
                    let tr = trim_str(s.as_str());
                    text.append(tr.as_str());
                }
            },
            NodeKind::Element => {
                let ct = element_text_exec(html, c);
                if !ct.as_str().is_empty() {
                    push_space_after(&mut text);
                    text.append(ct.as_str());
                }
            },
            _ => {},
        }
    }
    text
}

/// The text of an inline element.
pub fn inline_text_exec(html: &str, node: &SyntaxNode) -> (r: String)
    ensures
        r@ == inline_text(html@, tree_of(*node)),
    decreases node,
{
    let ghost t = tree_of(*node);
    let mut text = String::new();
    for n in 0..node.children.len()
        invariant
            t == tree_of(*node),
            text@ == inline_text_upto(html@, t, n as int),
    {
        let c = &node.children[n];
        match c.kind {
            NodeKind::Text => {
                if let Some(s) = node_text_exec(html, c) {
                    let tr = trim_str(s.as_str());
                    if !tr.as_str().is_empty() {
                        push_space_after(&mut text);
                        text.append(tr.as_str());
                    }
                }
            },
            NodeKind::Element => {
                let ct = inline_text_exec(html, c);
                if !ct.as_str().is_empty() {
                    push_space_after(&mut text);
                    text.append(ct.as_str());
                }
            },
            _ => {},
        }
    }
    text
}

proof fn lemma_prefix_of_concat(a: Seq<char>, b: Seq<char>, p: Seq<char>)
    requires
        has_prefix(a, p),
    ensures
        has_prefix(a + b, p),
{
    assert((a + b).subrange(0, p.len() as int) =~= a.subrange(0, p.len() as int));
}

/// Resolving a link target twice gives what resolving it once gives, when the base
/// URL, if any, is itself an `https://` URL (as the ones [`crate::WikiPage::set_base_url`]
/// makes are).
pub proof fn law_resolve_href_idempotent(base: Option<Seq<char>>, href: Seq<char>)
    requires
        base matches Some(b) ==> has_prefix(b, "https://"@),
    ensures
        resolve_href(base, resolve_href(base, href)) == resolve_href(base, href),
{
    reveal_strlit("https://");
    assert(has_prefix("https://"@, "https://"@)) by {
        assert("https://"@.subrange(0, 8) =~= "https://"@);
    }
    if has_prefix(href, "http://"@) || has_prefix(href, "https://"@) {
    } else if has_prefix(href, "//"@) {
        lemma_prefix_of_concat("https://"@, href.skip(2), "https://"@);
    } else if has_prefix(href, "./"@) && base is Some {
        lemma_prefix_of_concat(base.unwrap(), href.skip(2), "https://"@);
    }
}

/// The text leaves that make an inline element's text: the non-empty trimmed texts of
/// its text children, and the leaves of its child elements, in document order.
pub open spec fn inline_leaves(html: Seq<char>, t: SyntaxTree) -> Seq<Seq<char>>
    decreases t, t.children.len() + 1,
{
    inline_leaves_upto(html, t, t.children.len() as int)
}

/// [`inline_leaves`] of the first `n` children.
pub open spec fn inline_leaves_upto(html: Seq<char>, t: SyntaxTree, n: int) -> Seq<Seq<char>>
    decreases t, n,
{
    if n <= 0 || n > t.children.len() {
        Seq::empty()
    } else {
        let acc = inline_leaves_upto(html, t, n - 1);
        let c = t.children[n - 1];
        match c.kind {
            NodeKind::Text => match node_text(html, c) {
                Some(s) => if trim(s).len() > 0 {
                    acc.push(trim(s))
                } else {
                    acc
                },
                None => acc,
            },
            NodeKind::Element => acc + inline_leaves(html, c),
            _ => acc,
        }
    }
}

proof fn lemma_inline_leaves(html: Seq<char>, t: SyntaxTree)
    ensures
        inline_text(html, t) == join(inline_leaves(html, t), " "@),
        forall|i: int|
            0 <= i < inline_leaves(html, t).len() ==> (#[trigger] inline_leaves(html, t)[i]).len()
                > 0,
    decreases t, t.children.len() + 1,
{
    lemma_inline_leaves_upto(html, t, t.children.len() as int);
}

proof fn lemma_inline_leaves_upto(html: Seq<char>, t: SyntaxTree, n: int)
    ensures
        inline_text_upto(html, t, n) == join(inline_leaves_upto(html, t, n), " "@),
        forall|i: int|
            0 <= i < inline_leaves_upto(html, t, n).len() ==> (#[trigger] inline_leaves_upto(
                html,
                t,
                n,
            )[i]).len() > 0,
    decreases t, n,
{
    let sp = " "@;
    if 0 < n <= t.children.len() {
        lemma_inline_leaves_upto(html, t, n - 1);
        let acc = inline_leaves_upto(html, t, n - 1);
        let c = t.children[n - 1];
        if acc.len() > 0 {
            lemma_join_nonempty_last(acc, sp);
        } else {
            assert(join(acc, sp).len() == 0);
        }
        match c.kind {
            NodeKind::Text => {
                match node_text(html, c) {
                    Some(s) => {
                        if trim(s).len() > 0 {
                            lemma_join_push(acc, trim(s), sp);
                            reveal_strlit(" ");
                            if acc.len() > 0 {
                                assert(space_after(join(acc, sp)) + trim(s) =~= join(acc, sp) + sp
                                    + trim(s));
                            } else {
                                assert(space_after(join(acc, sp)) + trim(s) =~= trim(s));
                            }
                            let r = acc.push(trim(s));
                            assert forall|i: int| 0 <= i < r.len() implies (#[trigger] r[i]).len()
                                > 0 by {
                                if i < acc.len() {
                                    assert(r[i] == acc[i]);
                                }
                            }
                        }
                    },
                    None => {},
                }
            },
            NodeKind::Element => {
                lemma_inline_leaves(html, c);
                let m = inline_leaves(html, c);
                let r = acc + m;
                if m.len() > 0 {
                    lemma_join_nonempty_last(m, sp);
                    reveal_strlit(" ");
                    if acc.len() > 0 {
                        lemma_join_concat(acc, m, sp);
                        assert(space_after(join(acc, sp)) + join(m, sp) =~= join(acc, sp) + sp
                            + join(m, sp));
                    } else {
                        assert(r =~= m);
                        assert(space_after(join(acc, sp)) + join(m, sp) =~= join(m, sp));
                    }
                } else {
                    assert(r =~= acc);
                    assert(join(m, sp).len() == 0);
                }
                assert forall|i: int| 0 <= i < r.len() implies (#[trigger] r[i]).len() > 0 by {
                    if i < acc.len() {
                        assert(r[i] == acc[i]);
                    } else {
                        assert(r[i] == m[i - acc.len()]);
                    }
                }
            },
            _ => {},
        }
    }
}

/// The text of an inline element is its non-empty trimmed text leaves joined by
/// single spaces.
pub proof fn law_inline_text_joins_leaves(html: Seq<char>, t: SyntaxTree)
    ensures
        inline_text(html, t) == join(inline_leaves(html, t), " "@),
        forall|i: int|
            0 <= i < inline_leaves(html, t).len() ==> (#[trigger] inline_leaves(html, t)[i]).len()
                > 0,
{
    lemma_inline_leaves(html, t);
}

proof fn lemma_join_pieces(acc: Seq<char>, x: Seq<char>)
    requires
        is_trimmed(acc),
        is_trimmed(x),
        x.len() > 0,
    ensures
        is_trimmed(acc + x),
        is_trimmed(space_after(acc) + x),
{
    let y = space_after(acc) + x;
    assert((acc + x).last() == x.last());
    assert(y.last() == x.last());
    if acc.len() > 0 {
        assert((acc + x)[0] == acc[0]);
        assert(y[0] == acc[0]);
    } else {
        assert(acc + x =~= x);
        assert(y =~= x);
    }
}

proof fn lemma_element_text_trimmed(html: Seq<char>, t: SyntaxTree, n: int)
    ensures
        is_trimmed(element_text_upto(html, t, n)),
    decreases t, n,
{
    if 0 < n <= t.children.len() {
        lemma_element_text_trimmed(html, t, n - 1);
        let acc = element_text_upto(html, t, n - 1);
        let c = t.children[n - 1];
        match c.kind {
            NodeKind::Text => match node_text(html, c) {
                Some(s) => {
                    lemma_trim_is_trimmed(s);
                    if trim(s).len() > 0 {
                        lemma_join_pieces(acc, trim(s));
                    } else {
                        assert(acc + trim(s) =~= acc);
                    }
                },
                None => {},
            },
            NodeKind::Element => {
                lemma_element_text_trimmed(html, c, c.children.len() as int);
                let ct = element_text(html, c);
                if ct.len() > 0 {
                    lemma_join_pieces(acc, ct);
                }
            },
            _ => {},
        }
    }
}

proof fn lemma_inline_text_trimmed(html: Seq<char>, t: SyntaxTree, n: int)
    ensures
        is_trimmed(inline_text_upto(html, t, n)),
    decreases t, n,
{
    if 0 < n <= t.children.len() {
        lemma_inline_text_trimmed(html, t, n - 1);
        let acc = inline_text_upto(html, t, n - 1);
        let c = t.children[n - 1];
        match c.kind {
            NodeKind::Text => match node_text(html, c) {
                Some(s) => {
                    lemma_trim_is_trimmed(s);
                    if trim(s).len() > 0 {
                        lemma_join_pieces(acc, trim(s));
                    }
                },
                None => {},
            },
            NodeKind::Element => {
                lemma_inline_text_trimmed(html, c, c.children.len() as int);
                let ct = inline_text(html, c);
                if ct.len() > 0 {
                    lemma_join_pieces(acc, ct);
                }
            },
            _ => {},
        }
    }
}

/// The text of a heading element and the text of an inline element neither start nor
/// end with whitespace: trimming them changes nothing.
pub proof fn law_element_texts_are_trimmed(html: Seq<char>, t: SyntaxTree)
    ensures
        is_trimmed(element_text(html, t)),
        is_trimmed(inline_text(html, t)),
        trim(element_text(html, t)) == element_text(html, t),
        trim(inline_text(html, t)) == inline_text(html, t),
{
    lemma_element_text_trimmed(html, t, t.children.len() as int);
    lemma_inline_text_trimmed(html, t, t.children.len() as int);
    lemma_trimmed_is_fixed(element_text(html, t));
    lemma_trimmed_is_fixed(inline_text(html, t));
}

/// The class names whose elements hold no prose.
pub open spec fn skipped_class_name(w: Seq<char>) -> bool {
    ||| w == "shortdescription"@
    ||| w == "hatnote"@
    ||| w == "infobox"@
    ||| w == "reference"@
    ||| w == "navbox"@
    ||| w == "noprint"@
    ||| w == "reflist"@
    ||| w == "citation"@
}

/// A class attribute is excluded exactly when one of its whitespace-separated tokens is
/// `shortdescription`, `hatnote`, `infobox`, `reference`, `navbox`, `noprint`,
/// `reflist` or `citation`.
pub proof fn law_excluded_class_names(class: Seq<char>, w: Seq<char>)
    ensures
        skipped_class_name(w) && has_token(class, w) ==> excluded_class(class),
        excluded_class(class) ==> exists|v: Seq<char>| skipped_class_name(v) && has_token(class, v),
{
    if excluded_class(class) {
        if has_token(class, "shortdescription"@) {
            assert(skipped_class_name("shortdescription"@));
        } else if has_token(class, "hatnote"@) {
            assert(skipped_class_name("hatnote"@));
        } else if has_token(class, "infobox"@) {
            assert(skipped_class_name("infobox"@));
        } else if has_token(class, "reference"@) {
            assert(skipped_class_name("reference"@));
        } else if has_token(class, "navbox"@) {
            assert(skipped_class_name("navbox"@));
        } else if has_token(class, "noprint"@) {
            assert(skipped_class_name("noprint"@));
        } else if has_token(class, "reflist"@) {
            assert(skipped_class_name("reflist"@));
        } else {
            assert(skipped_class_name("citation"@));
        }
    }
}

/// How a link target resolves, whatever the base URL: a protocol-relative `//rest`
/// becomes `https://rest`; `./rest` becomes the base URL followed by `rest` when there
/// is a base URL and stays as it is otherwise; `http://` and `https://` targets, and
/// any target that starts with neither `./` nor `//`, are kept unchanged.
pub proof fn law_resolve_href_cases(base: Option<Seq<char>>, rest: Seq<char>, href: Seq<char>)
    ensures
        resolve_href(base, "//"@ + rest) == "https://"@ + rest,
        base matches Some(b) ==> resolve_href(base, "./"@ + rest) == b + rest,
        base is None ==> resolve_href(base, "./"@ + rest) == "./"@ + rest,
        resolve_href(base, "http://"@ + rest) == "http://"@ + rest,
        resolve_href(base, "https://"@ + rest) == "https://"@ + rest,
        !has_prefix(href, "./"@) && !has_prefix(href, "//"@) ==> resolve_href(base, href) == href,
{
    reveal_strlit("//");
    reveal_strlit("./");
    reveal_strlit("http://");
    reveal_strlit("https://");
    let a = "//"@ + rest;
    assert(a.subrange(0, 2) =~= "//"@);
    assert(a[0] == '/');
    assert(a.skip(2) =~= rest);
    let d = "./"@ + rest;
    assert(d.subrange(0, 2) =~= "./"@);
    assert(d[0] == '.');
    assert(d.skip(2) =~= rest);
    let h = "http://"@ + rest;
    assert(h.subrange(0, 7) =~= "http://"@);
    let s = "https://"@ + rest;
    assert(s.subrange(0, 8) =~= "https://"@);
}

} // verus!
