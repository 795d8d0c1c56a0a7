//! The parts of a document, and the selector entry points that choose a
//! search by the look of the selector.

use crate::node::{Dom, NodeData, NodeDataView};
use crate::props::{
    first_child_of_kind,
    first_kid,
    lemma_first_kid,
    is_kind,
    node_at,
    node_is,
    text_below,
    Kind,
    KindQuery,
};
use crate::query::{
    chosen,
    first_node,
    first_of,
    found_below,
    search_below,
    tag_filter,
    Filter,
    NodeFilter,
};
use crate::shape::{DomNode, Shape};
use crate::text::{split_tokens, string_from, string_of, tokens, trim_chars, trimmed};
use crate::tree::lemma_child_room;
use vstd::prelude::*;

verus! {

/// The first node named `local` that is a child of an `html` element among
/// the nodes of `kids` from index `i` on.
pub open spec fn section_from(
    s: Shape,
    datas: Seq<NodeDataView>,
    kids: Seq<DomNode>,
    local: Seq<char>,
    i: int,
) -> Option<DomNode>
    decreases kids.len() - i,
{
    if i >= kids.len() {
        None
    } else if is_kind(datas[kids[i].id as int], Kind::Named("html"@)) && first_kid(
        datas,
        s.children_of(kids[i]),
        Kind::Named(local),
        0,
    ) < s.children_of(kids[i]).len() {
        Some(
            s.children_of(kids[i])[first_kid(datas, s.children_of(kids[i]), Kind::Named(local), 0)],
        )
    } else {
        section_from(s, datas, kids, local, i + 1)
    }
}

/// The section named `local` of a document; nothing for any other node.
pub open spec fn section_of(s: Shape, datas: Seq<NodeDataView>, x: DomNode, local: Seq<char>) -> Option<
    DomNode,
> {
    if datas[x.id as int] is Document {
        section_from(s, datas, s.children_of(x), local, 0)
    } else {
        None
    }
}

/// The section named `local` of a document.
pub fn find_section(dom: &Dom, x: DomNode, local: &str) -> (r: Option<DomNode>)
    requires
        dom.wf(),
        dom.has(x),
    ensures
        r == section_of(dom.shape(), dom.datas(), x, local@),
        r is Some ==> dom.has(r.unwrap()),
{
    match dom.data(x) {
        NodeData::Document => {},
        _ => {
            return None;
        },
    }
    let n = dom.child_count(x);
    let mut i: usize = 0;
    while i < n
        invariant
            dom.wf(),
            dom.has(x),
            n == dom.children_of(x).len(),
            i <= n,
            dom.data_of(x) is Document,
            section_from(dom.shape(), dom.datas(), dom.children_of(x), local@, 0) == section_from(
                dom.shape(),
                dom.datas(),
                dom.children_of(x),
                local@,
                i as int,
            ),
        decreases n - i,
    {
        let c = dom.child_at(x, i);
        proof {
            lemma_child_room(dom.shape(), x, i as int);
        }
        proof {
            lemma_first_kid(dom.datas(), dom.children_of(c), Kind::Named(local@), 0);
        }
        if node_is(dom, c, &KindQuery::Named("html")) {
            match first_child_of_kind(dom, c, &KindQuery::Named(local), 0) {
                Some(g) => {
                    return Some(g);
                },
                None => {},
            }
        }
        i += 1;
    }
    None
}

/// The text after the first character of `t`.
pub open spec fn after_mark(t: Seq<char>) -> Seq<char> {
    t.skip(1)
}

/// The nodes that a search by class names finds below `x`.
pub open spec fn by_class(s: Shape, datas: Seq<NodeDataView>, x: DomNode, names: Seq<char>) -> Seq<
    DomNode,
> {
    if tokens(names).len() == 0 {
        Seq::empty()
    } else {
        found_below(s, datas, x, Filter::Classes(tokens(names)))
    }
}

/// What a selector finds below `x`. A selector of two or more parts is a
/// chain, and finds the nodes that the chain matches. A single part is
/// read by its first character: `#` looks for the first element with the
/// id, `.` for the elements with the class, anything else for the elements
/// with the tag name.
pub open spec fn selected(s: Shape, datas: Seq<NodeDataView>, x: DomNode, selector: Seq<char>) -> Seq<
    DomNode,
> {
    let t = trimmed(selector);
    if tokens(selector).len() >= 2 {
        found_below(s, datas, x, Filter::Chain(tokens(selector)))
    } else if t.len() > 0 && t[0] == '#' {
        match first_of(found_below(s, datas, x, Filter::Id(after_mark(t)))) {
            Some(n) => seq![n],
            None => Seq::empty(),
        }
    } else if t.len() > 0 && t[0] == '.' {
        by_class(s, datas, x, after_mark(t))
    } else {
        found_below(s, datas, x, tag_filter(t))
    }
}

/// The selector that asks for the elements right under the body.
pub open spec fn body_children_selector() -> Seq<char> {
    seq!['b', 'o', 'd', 'y', '>', '*']
}

/// What a selector finds below `x`, where all that it finds is asked for:
/// as `selected`, but for the one selector `body>*`, which finds the
/// elements that are children of the document's body.
pub open spec fn selected_all(s: Shape, datas: Seq<NodeDataView>, x: DomNode, selector: Seq<char>) -> Seq<
    DomNode,
> {
    if trimmed(selector) == body_children_selector() {
        match section_of(s, datas, x, "body"@) {
            Some(b) => chosen(s, datas, s.children_of(b), Filter::AnyElement, s.children_of(b).len()),
            None => Seq::empty(),
        }
    } else {
        selected(s, datas, x, selector)
    }
}

/// What the selector finds below `x`.
fn run_selector(dom: &Dom, x: DomNode, selectors: &str) -> (r: Vec<DomNode>)
    requires
        dom.wf(),
        dom.has(x),
    ensures
        r@ == selected(dom.shape(), dom.datas(), x, selectors@),
        forall|j: int| 0 <= j < r.len() ==> dom.has(#[trigger] r[j]),
{
    let parts = split_tokens(selectors);
    if parts.len() >= 2 {
        return search_below(dom, x, &NodeFilter::Chain(&parts));
    }
    let t = trim_chars(selectors);
    if t.len() > 0 && t[0] == '#' {
        let rest = string_from(&t, 1, t.len());
        assert(rest@ =~= after_mark(t@));
        let mut r: Vec<DomNode> = Vec::new();
        match x.get_element_by_id(dom, rest) {
            Some(n) => {
                r.push(n);
                assert(r@ =~= seq![n]);
            },
            None => {
                assert(r@ =~= Seq::<DomNode>::empty());
            },
        }
        r
    } else if t.len() > 0 && t[0] == '.' {
        let rest = string_from(&t, 1, t.len());
        assert(rest@ =~= after_mark(t@));
        x.get_elements_by_class_name(dom, rest)
    } else {
        x.get_elements_by_tag_name(dom, string_of(&t))
    }
}

impl DomNode {
    /// The head of a document: the first `head` element under an `html`
    /// element of the document.
    pub fn head(&self, dom: &Dom) -> (r: Option<DomNode>)
        requires
            dom.wf(),
            dom.has(*self),
        ensures
            r == section_of(dom.shape(), dom.datas(), *self, "head"@),
            r is Some ==> dom.has(r.unwrap()),
    {
        find_section(dom, *self, "head")
    }

    /// The body of a document: the first `body` element under an `html`
    /// element of the document.
    pub fn body(&self, dom: &Dom) -> (r: Option<DomNode>)
        requires
            dom.wf(),
            dom.has(*self),
        ensures
            r == section_of(dom.shape(), dom.datas(), *self, "body"@),
            r is Some ==> dom.has(r.unwrap()),
    {
        find_section(dom, *self, "body")
    }

    /// The title of a document: the text below the first `title` element
    /// of its head, or the empty text.
    pub fn title(&self, dom: &Dom) -> (r: String)
        requires
            dom.wf(),
            dom.has(*self),
        ensures
            r@ == match section_of(dom.shape(), dom.datas(), *self, "head"@) {
                Some(h) => match node_at(
                    dom.children_of(h),
                    first_kid(dom.datas(), dom.children_of(h), Kind::Named("title"@), 0),
                ) {
                    Some(t) => text_below(dom.shape(), dom.datas(), t),
                    None => Seq::<char>::empty(),
                },
                None => Seq::<char>::empty(),
            },
    {
        match self.head(dom) {
            Some(h) => match first_child_of_kind(dom, h, &KindQuery::Named("title"), 0) {
                Some(t) => t.text(dom),
                None => String::new(),
            },
            None => String::new(),
        }
    }

    /// The first node that the selector finds below this node.
    pub fn query_selector(&self, dom: &Dom, selectors: String) -> (r: Option<DomNode>)
        requires
            dom.wf(),
            dom.has(*self),
        ensures
            r == first_of(selected(dom.shape(), dom.datas(), *self, selectors@)),
            r is Some ==> dom.has(r.unwrap()),
    {
        let found = run_selector(dom, *self, selectors.as_str());
        first_node(&found)
    }

    /// All the nodes that the selector finds below this node, in document
    /// order.
    pub fn query_selector_all(&self, dom: &Dom, selectors: String) -> (r: Vec<DomNode>)
        requires
            dom.wf(),
            dom.has(*self),
        ensures
            r@ == selected_all(dom.shape(), dom.datas(), *self, selectors@),
            forall|j: int| 0 <= j < r.len() ==> dom.has(#[trigger] r[j]),
    {
        let t = trim_chars(selectors.as_str());
        if t.len() == 6 && t[0] == 'b' && t[1] == 'o' && t[2] == 'd' && t[3] == 'y' && t[4] == '>'
            && t[5] == '*' {
            assert(t@ =~= body_children_selector());
            match self.body(dom) {
                Some(b) => b.children(dom),
                None => Vec::new(),
            }
        } else {
            assert(t@ != body_children_selector()) by {
                if t@ == body_children_selector() {
                    let b = body_children_selector();
                    assert(b.len() == 6 && b[0] == 'b' && b[1] == 'o' && b[2] == 'd' && b[3] == 'y'
                        && b[4] == '>' && b[5] == '*');
                }
            }
            run_selector(dom, *self, selectors.as_str())
        }
    }
}

} // verus!
