//! Finding nodes: searches below a node in document order, and the small
//! selector language of ids, classes, tag names and chains of them.

use crate::attrs::{attribute_value, attrs_of, find_attr, first_with, value_at, AttrKey, AttrQuery};
use crate::node::{Dom, NodeData, NodeDataView};
use crate::shape::{DomNode, Shape};
use crate::text::{
    chars_of,
    eq_ignoring_ascii_case,
    has_token,
    same_ignoring_ascii_case,
    same_str,
    split_tokens,
    string_from,
    to_upper,
    tokens,
    uppercase_of,
    views,
};
use crate::tree::{below, descendants};
use vstd::prelude::*;

verus! {

/// Whether a node with this data is matched by one simple selector: `#id`,
/// `.class`, `*` or a tag name.
pub open spec fn simple_matches(d: NodeDataView, sel: Seq<char>) -> bool {
    if sel.len() > 0 && sel[0] == '#' {
        attribute_value(attrs_of(d), "id"@) == Some(sel.skip(1))
    } else if sel.len() > 0 && sel[0] == '.' {
        match attribute_value(attrs_of(d), "class"@) {
            Some(c) => tokens(c).contains(sel.skip(1)),
            None => false,
        }
    } else {
        match d {
            NodeDataView::Element { name, attrs } => sel == seq!['*'] || same_ignoring_ascii_case(
                name.local,
                sel,
            ),
            _ => false,
        }
    }
}

/// Whether the first `k` selectors of `parts` are matched, from the last of
/// them backwards, by nodes above `x`: each by the nearest node above the
/// one that matched the selector after it.
pub open spec fn chain_above(
    s: Shape,
    datas: Seq<NodeDataView>,
    x: DomNode,
    parts: Seq<Seq<char>>,
    k: nat,
) -> bool
    decreases s.rank_of(x),
    when s.wf() && s.has(x)
{
    if k == 0 {
        true
    } else {
        match s.parent_of(x) {
            None => false,
            Some(p) => {
                proof {
                    assert(s.node_ok(x));
                }
                if simple_matches(datas[p.id as int], parts[k - 1]) {
                    chain_above(s, datas, p, parts, (k - 1) as nat)
                } else {
                    chain_above(s, datas, p, parts, k)
                }
            },
        }
    }
}

/// Whether the chain of selectors matches `x`: its last selector matches
/// `x`, and the others are matched above `x`.
pub open spec fn chain_matches(s: Shape, datas: Seq<NodeDataView>, x: DomNode, parts: Seq<Seq<char>>) -> bool {
    parts.len() > 0 && simple_matches(datas[x.id as int], parts.last()) && chain_above(
        s,
        datas,
        x,
        parts,
        (parts.len() - 1) as nat,
    )
}

/// The nearest node, from `x` upwards and `x` included, that the chain matches.
pub open spec fn nearest_match(
    s: Shape,
    datas: Seq<NodeDataView>,
    x: DomNode,
    parts: Seq<Seq<char>>,
) -> Option<DomNode>
    decreases s.rank_of(x),
    when s.wf() && s.has(x)
{
    if chain_matches(s, datas, x, parts) {
        Some(x)
    } else {
        match s.parent_of(x) {
            None => None,
            Some(p) => {
                proof {
                    assert(s.node_ok(x));
                }
                nearest_match(s, datas, p, parts)
            },
        }
    }
}

/// What a search looks for.
pub enum Filter {
    /// An element whose first `id` attribute has this value.
    Id(Seq<char>),
    /// An element whose first `class` attribute holds each of these words.
    Classes(Seq<Seq<char>>),
    /// An element whose local name has this upper-case form.
    TagUpper(Seq<char>),
    /// Any element.
    AnyElement,
    /// A node that this chain of selectors matches.
    Chain(Seq<Seq<char>>),
}

/// Whether every one of `wanted` is among `have`.
pub open spec fn all_among(wanted: Seq<Seq<char>>, have: Seq<Seq<char>>) -> bool {
    forall|i: int| 0 <= i < wanted.len() ==> have.contains(#[trigger] wanted[i])
}

/// Whether `x` is what the filter looks for.
pub open spec fn passes(s: Shape, datas: Seq<NodeDataView>, x: DomNode, f: Filter) -> bool {
    let d = datas[x.id as int];
    match f {
        Filter::Id(id) => value_at(attrs_of(d), first_with(attrs_of(d), AttrKey::Local("id"@)))
            == Some(id),
        Filter::Classes(wanted) => match value_at(
            attrs_of(d),
            first_with(attrs_of(d), AttrKey::Local("class"@)),
        ) {
            Some(c) => all_among(wanted, tokens(c)),
            None => false,
        },
        Filter::TagUpper(upper) => match d {
            NodeDataView::Element { name, attrs } => uppercase_of(name.local) == upper,
            _ => false,
        },
        Filter::AnyElement => d is Element,
        Filter::Chain(parts) => chain_matches(s, datas, x, parts),
    }
}

/// Those of the first `n` nodes that pass the filter, in order.
pub open spec fn chosen(
    s: Shape,
    datas: Seq<NodeDataView>,
    nodes: Seq<DomNode>,
    f: Filter,
    n: nat,
) -> Seq<DomNode>
    decreases n,
{
    if n == 0 {
        Seq::empty()
    } else if passes(s, datas, nodes[n - 1], f) {
        chosen(s, datas, nodes, f, (n - 1) as nat).push(nodes[n - 1])
    } else {
        chosen(s, datas, nodes, f, (n - 1) as nat)
    }
}

/// The nodes below `x` that pass the filter, in document order.
pub open spec fn found_below(s: Shape, datas: Seq<NodeDataView>, x: DomNode, f: Filter) -> Seq<DomNode> {
    chosen(s, datas, below(s, x), f, below(s, x).len())
}

/// The first of a sequence of nodes, if it has one.
pub open spec fn first_of(nodes: Seq<DomNode>) -> Option<DomNode> {
    if nodes.len() > 0 {
        Some(nodes[0])
    } else {
        None
    }
}

/// What a search looks for, as the code holds it.
pub enum NodeFilter<'a> {
    Id(&'a str),
    Classes(&'a Vec<String>),
    TagUpper(&'a str),
    AnyElement,
    Chain(&'a Vec<String>),
}

impl<'a> NodeFilter<'a> {
    /// What the search looks for, as contracts speak of it.
    pub open spec fn key(&self) -> Filter {
        match *self {
            NodeFilter::Id(id) => Filter::Id(id@),
            NodeFilter::Classes(wanted) => Filter::Classes(views(wanted@)),
            NodeFilter::TagUpper(upper) => Filter::TagUpper(upper@),
            NodeFilter::AnyElement => Filter::AnyElement,
            NodeFilter::Chain(parts) => Filter::Chain(views(parts@)),
        }
    }
}

/// Whether every one of `wanted` is among `have`.
fn all_present(wanted: &Vec<String>, have: &Vec<String>) -> (r: bool)
    ensures
        r == all_among(views(wanted@), views(have@)),
{
    let mut i: usize = 0;
    while i < wanted.len()
        invariant
            i <= wanted.len(),
            forall|j: int| 0 <= j < i ==> views(have@).contains(#[trigger] views(wanted@)[j]),
        decreases wanted.len() - i,
    {
        assert(views(wanted@)[i as int] == wanted[i as int]@);
        if !has_token(have, wanted[i].as_str()) {
            return false;
        }
        i += 1;
    }
    true
}

/// Whether the node is matched by one simple selector.
pub fn matches_simple(dom: &Dom, x: DomNode, selector: &str) -> (r: bool)
    requires
        dom.has(x),
    ensures
        r == simple_matches(dom.data_of(x), selector@),
{
    let v = chars_of(selector);
    if v.len() > 0 && v[0] == '#' {
        let rest = string_from(&v, 1, v.len());
        assert(rest@ =~= selector@.skip(1));
        match x.get_attribute(dom, "id".to_owned()) {
            Some(id) => same_str(id.as_str(), rest.as_str()),
            None => false,
        }
    } else if v.len() > 0 && v[0] == '.' {
        let rest = string_from(&v, 1, v.len());
        assert(rest@ =~= selector@.skip(1));
        match x.get_attribute(dom, "class".to_owned()) {
            Some(c) => {
                let words = split_tokens(c.as_str());
                has_token(&words, rest.as_str())
            },
            None => false,
        }
    } else {
        match dom.data(x) {
            NodeData::Element { name, attrs: _ } => {
                if v.len() == 1 && v[0] == '*' {
                    assert(selector@ =~= seq!['*']);
                    true
                } else {
                    assert(selector@ != seq!['*']) by {
                        if selector@ == seq!['*'] {
                            assert(seq!['*'].len() == 1);
                            assert(seq!['*'][0] == '*');
                        }
                    }
                    eq_ignoring_ascii_case(name.local.as_str(), selector)
                }
            },
            _ => false,
        }
    }
}

/// Whether the chain of selectors matches the node.
pub fn matches_chain(dom: &Dom, x: DomNode, parts: &Vec<String>) -> (r: bool)
    requires
        dom.wf(),
        dom.has(x),
    ensures
        r == chain_matches(dom.shape(), dom.datas(), x, views(parts@)),
{
    if parts.len() == 0 {
        return false;
    }
    let last = parts.len() - 1;
    assert(views(parts@).last() == parts[last as int]@);
    if !matches_simple(dom, x, parts[last].as_str()) {
        return false;
    }
    let mut k: usize = last;
    let mut cur = x;
    while k > 0
        invariant
            dom.wf(),
            dom.has(cur),
            dom.has(x),
            k <= last,
            last == parts.len() - 1,
            simple_matches(dom.data_of(x), views(parts@).last()),
            chain_above(dom.shape(), dom.datas(), x, views(parts@), last as nat) == chain_above(
                dom.shape(),
                dom.datas(),
                cur,
                views(parts@),
                k as nat,
            ),
        decreases dom.shape().rank_of(cur),
    {
        proof {
            assert(dom.shape().node_ok(cur));
        }
        match dom.parent(cur) {
            None => {
                return false;
            },
            Some(p) => {
                assert(views(parts@)[k - 1] == parts[k - 1]@);
                if matches_simple(dom, p, parts[k - 1].as_str()) {
                    k -= 1;
                }
                cur = p;
            },
        }
    }
    true
}

/// Whether the node is what the filter looks for.
pub fn node_passes(dom: &Dom, x: DomNode, f: &NodeFilter) -> (r: bool)
    requires
        dom.wf(),
        dom.has(x),
    ensures
        r == passes(dom.shape(), dom.datas(), x, f.key()),
{
    match f {
        NodeFilter::Id(id) => match dom.data(x) {
            NodeData::Element { name: _, attrs } => {
                let i = find_attr(attrs, &AttrQuery::Local("id"));
                if i < attrs.len() {
                    same_str(attrs[i].value.as_str(), id)
                } else {
                    false
                }
            },
            _ => false,
        },
        NodeFilter::Classes(wanted) => match dom.data(x) {
            NodeData::Element { name: _, attrs } => {
                let i = find_attr(attrs, &AttrQuery::Local("class"));
                if i < attrs.len() {
                    let have = split_tokens(attrs[i].value.as_str());
                    all_present(wanted, &have)
                } else {
                    false
                }
            },
            _ => false,
        },
        NodeFilter::TagUpper(upper) => match dom.data(x) {
            NodeData::Element { name, attrs: _ } => {
                let mine = to_upper(name.local.as_str());
                same_str(mine.as_str(), upper)
            },
            _ => false,
        },
        NodeFilter::AnyElement => match dom.data(x) {
            NodeData::Element { .. } => true,
            _ => false,
        },
        NodeFilter::Chain(parts) => matches_chain(dom, x, parts),
    }
}

/// Those of the nodes that pass the filter, in order.
pub fn filter_nodes(dom: &Dom, nodes: &Vec<DomNode>, f: &NodeFilter) -> (r: Vec<DomNode>)
    requires
        dom.wf(),
        forall|j: int| 0 <= j < nodes.len() ==> dom.has(#[trigger] nodes[j]),
    ensures
        r@ == chosen(dom.shape(), dom.datas(), nodes@, f.key(), nodes.len() as nat),
        forall|j: int| 0 <= j < r.len() ==> dom.has(#[trigger] r[j]),
{
    let mut r: Vec<DomNode> = Vec::new();
    let mut i: usize = 0;
    while i < nodes.len()
        invariant
            dom.wf(),
            i <= nodes.len(),
            forall|j: int| 0 <= j < nodes.len() ==> dom.has(#[trigger] nodes[j]),
            r@ == chosen(dom.shape(), dom.datas(), nodes@, f.key(), i as nat),
            forall|j: int| 0 <= j < r.len() ==> dom.has(#[trigger] r[j]),
        decreases nodes.len() - i,
    {
        if node_passes(dom, nodes[i], f) {
            r.push(nodes[i]);
        }
        i += 1;
    }
    r
}

/// The nodes below `x` that pass the filter, in document order.
pub fn search_below(dom: &Dom, x: DomNode, f: &NodeFilter) -> (r: Vec<DomNode>)
    requires
        dom.wf(),
        dom.has(x),
    ensures
        r@ == found_below(dom.shape(), dom.datas(), x, f.key()),
        forall|j: int| 0 <= j < r.len() ==> dom.has(#[trigger] r[j]),
{
    let all = descendants(dom, x);
    filter_nodes(dom, &all, f)
}

/// The first of the nodes, if there is one.
pub fn first_node(nodes: &Vec<DomNode>) -> (r: Option<DomNode>)
    ensures
        r == first_of(nodes@),
{
    if nodes.len() > 0 {
        Some(nodes[0])
    } else {
        None
    }
}

impl DomNode {
    /// Selector support beyond the simple chains is not there: nothing is
    /// ever found.
    pub fn select(&self, selectors: String) -> (r: Option<DomNode>)
        ensures
            r is None,
    {
        None
    }

    /// Selector support beyond the simple chains is not there: nothing is
    /// ever found.
    pub fn select_all(&self, selectors: String) -> (r: Vec<DomNode>)
        ensures
            r.len() == 0,
    {
        Vec::new()
    }

    /// The first element below this node, in document order, whose `id`
    /// attribute has the value `id`.
    pub fn get_element_by_id(&self, dom: &Dom, id: String) -> (r: Option<DomNode>)
        requires
            dom.wf(),
            dom.has(*self),
        ensures
            r == first_of(found_below(dom.shape(), dom.datas(), *self, Filter::Id(id@))),
            r is Some ==> dom.has(r.unwrap()),
    {
        let found = search_below(dom, *self, &NodeFilter::Id(id.as_str()));
        first_node(&found)
    }

    /// The elements below this node, in document order, whose `class`
    /// attribute holds every word of `class_names`. Nothing is found where
    /// `class_names` holds no word.
    pub fn get_elements_by_class_name(&self, dom: &Dom, class_names: String) -> (r: Vec<DomNode>)
        requires
            dom.wf(),
            dom.has(*self),
        ensures
            r@ == if tokens(class_names@).len() == 0 {
                Seq::<DomNode>::empty()
            } else {
                found_below(dom.shape(), dom.datas(), *self, Filter::Classes(tokens(class_names@)))
            },
            forall|j: int| 0 <= j < r.len() ==> dom.has(#[trigger] r[j]),
    {
        let wanted = split_tokens(class_names.as_str());
        if wanted.len() == 0 {
            return Vec::new();
        }
        search_below(dom, *self, &NodeFilter::Classes(&wanted))
    }

    /// The elements below this node, in document order, whose local name
    /// is `tag_name` whatever the case of its letters; every element where
    /// `tag_name` is `*`.
    pub fn get_elements_by_tag_name(&self, dom: &Dom, tag_name: String) -> (r: Vec<DomNode>)
        requires
            dom.wf(),
            dom.has(*self),
        ensures
            r@ == found_below(dom.shape(), dom.datas(), *self, tag_filter(tag_name@)),
            forall|j: int| 0 <= j < r.len() ==> dom.has(#[trigger] r[j]),
    {
        let v = chars_of(tag_name.as_str());
        if v.len() == 1 && v[0] == '*' {
            assert(tag_name@ =~= seq!['*']);
            search_below(dom, *self, &NodeFilter::AnyElement)
        } else {
            assert(tag_name@ != seq!['*']) by {
                if tag_name@ == seq!['*'] {
                    assert(seq!['*'].len() == 1);
                    assert(seq!['*'][0] == '*');
                }
            }
            let upper = to_upper(tag_name.as_str());
            search_below(dom, *self, &NodeFilter::TagUpper(upper.as_str()))
        }
    }

    /// Whether the chain of simple selectors in `selectors`, read as
    /// "below", matches this node.
    pub fn matches(&self, dom: &Dom, selectors: String) -> (r: bool)
        requires
            dom.wf(),
            dom.has(*self),
        ensures
            r == chain_matches(dom.shape(), dom.datas(), *self, tokens(selectors@)),
    {
        let parts = split_tokens(selectors.as_str());
        matches_chain(dom, *self, &parts)
    }

    /// The nearest node, from this node upwards and this node included,
    /// that the chain of selectors matches.
    pub fn closest(&self, dom: &Dom, selectors: String) -> (r: Option<DomNode>)
        requires
            dom.wf(),
            dom.has(*self),
        ensures
            r == nearest_match(dom.shape(), dom.datas(), *self, tokens(selectors@)),
            r is Some ==> dom.has(r.unwrap()),
    {
        let parts = split_tokens(selectors.as_str());
        let mut cur = *self;
        loop
            invariant
                dom.wf(),
                dom.has(cur),
                views(parts@) == tokens(selectors@),
                nearest_match(dom.shape(), dom.datas(), *self, tokens(selectors@)) == nearest_match(
                    dom.shape(),
                    dom.datas(),
                    cur,
                    tokens(selectors@),
                ),
            decreases dom.shape().rank_of(cur),
        {
            proof {
                assert(dom.shape().node_ok(cur));
            }
            if matches_chain(dom, cur, &parts) {
                return Some(cur);
            }
            match dom.parent(cur) {
                Some(p) => {
                    cur = p;
                },
                None => {
                    return None;
                },
            }
        }
    }
}

/// The filter of a search by tag name: any element for `*`, else the
/// elements whose local name has the same upper-case form as `tag_name`.
pub open spec fn tag_filter(tag_name: Seq<char>) -> Filter {
    if tag_name == seq!['*'] {
        Filter::AnyElement
    } else {
        Filter::TagUpper(uppercase_of(tag_name))
    }
}

} // verus!
