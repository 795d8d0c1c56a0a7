//! What a node is and where it stands: kind and names, parent, children and
//! siblings, and the text below it.

use crate::node::{Dom, NodeData, NodeDataView};
use crate::query::{chosen, filter_nodes, Filter, NodeFilter};
use crate::shape::{DomNode, Shape};
use crate::chardata::opt_seq;
use crate::text::{same_str, to_upper, uppercase_of};
use crate::tree::lemma_child_room;
use vstd::prelude::*;

verus! {

/// The kind of an element.
pub const ELEMENT_NODE: i32 = 1;

/// The kind of an attribute; no node of a store is of it.
pub const ATTRIBUTE_NODE: i32 = 2;

/// The kind of a text node.
pub const TEXT_NODE: i32 = 3;

/// The kind of a CDATA section; no node of a store is of it.
pub const CDATA_SECTION_NODE: i32 = 4;

/// The kind of an entity reference; no node of a store is of it.
pub const ENTITY_REFERENCE_NODE: i32 = 5;

/// The kind of an entity; no node of a store is of it.
pub const ENTITY_NODE: i32 = 6;

/// The kind of a processing instruction.
pub const PROCESSING_INSTRUCTION_NODE: i32 = 7;

/// The kind of a comment.
pub const COMMENT_NODE: i32 = 8;

/// The kind of a document.
pub const DOCUMENT_NODE: i32 = 9;

/// The kind of a document type.
pub const DOCUMENT_TYPE_NODE: i32 = 10;

/// The kind of a document fragment.
pub const DOCUMENT_FRAGMENT_NODE: i32 = 11;

/// The kind of a notation; no node of a store is of it.
pub const NOTATION_NODE: i32 = 12;

/// The number that stands for the kind of a node.
pub open spec fn type_of(d: NodeDataView) -> i32 {
    match d {
        NodeDataView::Element { name, attrs } => if name.local == "#document-fragment"@ {
            11i32
        } else {
            1i32
        },
        NodeDataView::Text { contents } => 3,
        NodeDataView::Comment { contents } => 8,
        NodeDataView::Document => 9,
        NodeDataView::Doctype { name, public_id, system_id } => 10,
        NodeDataView::ProcessingInstruction { target, contents } => 7,
    }
}

/// The name of a node: for an element its local name in upper case, for a
/// fragment, a text node, a comment or a document a fixed name, for a
/// document type its name, for a processing instruction its target.
pub open spec fn name_of(d: NodeDataView) -> Seq<char> {
    match d {
        NodeDataView::Element { name, attrs } => if name.local == "#document-fragment"@ {
            "#document-fragment"@
        } else {
            uppercase_of(name.local)
        },
        NodeDataView::Text { contents } => "#text"@,
        NodeDataView::Comment { contents } => "#comment"@,
        NodeDataView::Document => "#document"@,
        NodeDataView::Doctype { name, public_id, system_id } => name,
        NodeDataView::ProcessingInstruction { target, contents } => target,
    }
}

/// A kind of node that a search among children looks for.
pub enum Kind {
    /// Any element.
    Element,
    /// A document type.
    Doctype,
    /// An element with this local name.
    Named(Seq<char>),
}

/// Whether the data is of the kind.
pub open spec fn is_kind(d: NodeDataView, k: Kind) -> bool {
    match k {
        Kind::Element => d is Element,
        Kind::Doctype => d is Doctype,
        Kind::Named(local) => match d {
            NodeDataView::Element { name, attrs } => name.local == local,
            _ => false,
        },
    }
}

/// The index in `nodes` of the first node of the kind, from index `from`
/// on; the length of `nodes` where there is none.
pub open spec fn first_kid(datas: Seq<NodeDataView>, nodes: Seq<DomNode>, k: Kind, from: int) -> int
    decreases nodes.len() - from,
{
    if from >= nodes.len() {
        nodes.len() as int
    } else if is_kind(datas[nodes[from].id as int], k) {
        from
    } else {
        first_kid(datas, nodes, k, from + 1)
    }
}

/// The first node of a kind stands at or after the start, is of the kind, and has none of the kind between the start and itself.
pub proof fn lemma_first_kid(datas: Seq<NodeDataView>, nodes: Seq<DomNode>, k: Kind, from: int)
    requires
        0 <= from <= nodes.len(),
    ensures
        from <= first_kid(datas, nodes, k, from) <= nodes.len(),
        first_kid(datas, nodes, k, from) < nodes.len() ==> is_kind(
            datas[nodes[first_kid(datas, nodes, k, from)].id as int],
            k,
        ),
        forall|j: int|
            from <= j < first_kid(datas, nodes, k, from) ==> !is_kind(datas[nodes[j].id as int], k),
    decreases nodes.len() - from,
{
    if from < nodes.len() && !is_kind(datas[nodes[from].id as int], k) {
        lemma_first_kid(datas, nodes, k, from + 1);
    }
}

/// The index in `nodes` of the last node of the kind before index `to`;
/// `-1` where there is none.
pub open spec fn last_kid(datas: Seq<NodeDataView>, nodes: Seq<DomNode>, k: Kind, to: int) -> int
    decreases to,
{
    if to <= 0 {
        -1
    } else if is_kind(datas[nodes[to - 1].id as int], k) {
        to - 1
    } else {
        last_kid(datas, nodes, k, to - 1)
    }
}

/// The node at index `i`, if there is one.
pub open spec fn node_at(nodes: Seq<DomNode>, i: int) -> Option<DomNode> {
    if 0 <= i < nodes.len() {
        Some(nodes[i])
    } else {
        None
    }
}

/// The kind as the code holds it.
pub enum KindQuery<'a> {
    Element,
    Doctype,
    Named(&'a str),
}

impl<'a> KindQuery<'a> {
    /// The kind that is looked for, as contracts speak of it.
    pub open spec fn key(&self) -> Kind {
        match *self {
            KindQuery::Element => Kind::Element,
            KindQuery::Doctype => Kind::Doctype,
            KindQuery::Named(n) => Kind::Named(n@),
        }
    }
}

/// Whether the node is of the kind.
pub fn node_is(dom: &Dom, x: DomNode, k: &KindQuery) -> (r: bool)
    requires
        dom.has(x),
    ensures
        r == is_kind(dom.data_of(x), k.key()),
{
    match k {
        KindQuery::Element => match dom.data(x) {
            NodeData::Element { .. } => true,
            _ => false,
        },
        KindQuery::Doctype => match dom.data(x) {
            NodeData::Doctype { .. } => true,
            _ => false,
        },
        KindQuery::Named(n) => match dom.data(x) {
            NodeData::Element { name, attrs: _ } => same_str(name.local.as_str(), n),
            _ => false,
        },
    }
}

/// The first child of `x` of the kind, at index `from` or after it.
pub fn first_child_of_kind(dom: &Dom, x: DomNode, k: &KindQuery, from: usize) -> (r: Option<DomNode>)
    requires
        dom.wf(),
        dom.has(x),
    ensures
        r == node_at(dom.children_of(x), first_kid(dom.datas(), dom.children_of(x), k.key(), from as int)),
        r is Some ==> dom.has(r.unwrap()) && dom.parent_of(r.unwrap()) == Some(x),
{
    let n = dom.child_count(x);
    let mut i: usize = from;
    while i < n
        invariant
            dom.wf(),
            dom.has(x),
            n == dom.children_of(x).len(),
            from <= i,
            first_kid(dom.datas(), dom.children_of(x), k.key(), from as int) == first_kid(
                dom.datas(),
                dom.children_of(x),
                k.key(),
                i as int,
            ),
        decreases n - i,
    {
        let c = dom.child_at(x, i);
        proof {
            lemma_child_room(dom.shape(), x, i as int);
        }
        if node_is(dom, c, k) {
            return Some(c);
        }
        i += 1;
    }
    None
}

/// The last child of `x` of the kind before index `to`.
pub fn last_child_of_kind(dom: &Dom, x: DomNode, k: &KindQuery, to: usize) -> (r: Option<DomNode>)
    requires
        dom.wf(),
        dom.has(x),
        to <= dom.children_of(x).len(),
    ensures
        r == node_at(dom.children_of(x), last_kid(dom.datas(), dom.children_of(x), k.key(), to as int)),
        r is Some ==> dom.has(r.unwrap()) && dom.parent_of(r.unwrap()) == Some(x),
{
    let mut i: usize = to;
    while i > 0
        invariant
            dom.wf(),
            dom.has(x),
            i <= to <= dom.children_of(x).len(),
            last_kid(dom.datas(), dom.children_of(x), k.key(), to as int) == last_kid(
                dom.datas(),
                dom.children_of(x),
                k.key(),
                i as int,
            ),
        decreases i,
    {
        let c = dom.child_at(x, i - 1);
        proof {
            lemma_child_room(dom.shape(), x, i - 1);
        }
        if node_is(dom, c, k) {
            return Some(c);
        }
        i -= 1;
    }
    None
}

/// The index of `x` among the children of its parent.
pub open spec fn index_in_parent(s: Shape, x: DomNode) -> int {
    s.children_of(s.parent_of(x).unwrap()).index_of(x)
}

/// The parent of `x` and the index of `x` among its children.
pub fn place_of(dom: &Dom, x: DomNode) -> (r: Option<(DomNode, usize)>)
    requires
        dom.wf(),
        dom.has(x),
    ensures
        match r {
            Some((p, k)) => dom.parent_of(x) == Some(p) && dom.has(p) && k == index_in_parent(
                dom.shape(),
                x,
            ) && k < dom.children_of(p).len() && dom.children_of(p)[k as int] == x,
            None => dom.parent_of(x) is None,
        },
{
    match dom.parent(x) {
        None => None,
        Some(p) => {
            proof {
                dom.shape().lemma_index_of(p, x);
            }
            match crate::node::position_of(&dom.nodes[p.id].children, x) {
                Some(k) => Some((p, k)),
                None => None,
            }
        },
    }
}

/// The text below a node: the contents of a text node; for an element or a
/// document, the texts below its children, one after the other; nothing for
/// any other node.
pub open spec fn text_below(s: Shape, datas: Seq<NodeDataView>, x: DomNode) -> Seq<char>
    decreases s.room(x), s.children_of(x).len() + 1,
    when s.wf() && s.has(x)
{
    match datas[x.id as int] {
        NodeDataView::Text { contents } => contents,
        NodeDataView::Element { name, attrs } => text_first(s, datas, x, s.children_of(x).len()),
        NodeDataView::Document => text_first(s, datas, x, s.children_of(x).len()),
        _ => Seq::empty(),
    }
}

/// The texts below the first `k` children of `x`, one after the other.
pub open spec fn text_first(s: Shape, datas: Seq<NodeDataView>, x: DomNode, k: nat) -> Seq<char>
    decreases s.room(x), k,
    when s.wf() && s.has(x) && k <= s.children_of(x).len()
{
    if k == 0 {
        Seq::empty()
    } else {
        proof {
            assert(s.node_ok(x));
            assert(s.has(s.children_of(x)[k - 1]));
            assert(s.node_ok(s.children_of(x)[k - 1]));
        }
        text_first(s, datas, x, (k - 1) as nat) + text_below(s, datas, s.children_of(x)[k - 1])
    }
}

/// Adds to `out` the text below `x`.
pub fn gather_text(dom: &Dom, x: DomNode, out: &mut String)
    requires
        dom.wf(),
        dom.has(x),
    ensures
        final(out)@ == old(out)@ + text_below(dom.shape(), dom.datas(), x),
    decreases dom.shape().room(x),
{
    let walk = match dom.data(x) {
        NodeData::Text { contents } => {
            out.append(contents.as_str());
            false
        },
        NodeData::Element { .. } => true,
        NodeData::Document => true,
        _ => {
            assert(out@ =~= old(out)@ + Seq::<char>::empty());
            false
        },
    };
    if walk {
        let n = dom.child_count(x);
        let mut k: usize = 0;
        assert(out@ =~= old(out)@ + text_first(dom.shape(), dom.datas(), x, 0));
        while k < n
            invariant
                dom.wf(),
                dom.has(x),
                n == dom.children_of(x).len(),
                k <= n,
                out@ == old(out)@ + text_first(dom.shape(), dom.datas(), x, k as nat),
            decreases n - k,
        {
            let c = dom.child_at(x, k);
            proof {
                lemma_child_room(dom.shape(), x, k as int);
            }
            let ghost before = out@;
            gather_text(dom, c, out);
            assert(out@ =~= old(out)@ + text_first(dom.shape(), dom.datas(), x, (k + 1) as nat)) by {
                assert(out@ == before + text_below(dom.shape(), dom.datas(), c));
            }
            k += 1;
        }
    }
}

impl DomNode {
    /// The number that stands for the kind of the node.
    pub fn node_type(&self, dom: &Dom) -> (r: i32)
        requires
            dom.has(*self),
        ensures
            r == type_of(dom.data_of(*self)),
    {
        match dom.data(*self) {
            NodeData::Element { name, attrs: _ } => {
                if same_str(name.local.as_str(), "#document-fragment") {
                    DOCUMENT_FRAGMENT_NODE
                } else {
                    ELEMENT_NODE
                }
            },
            NodeData::Text { .. } => TEXT_NODE,
            NodeData::Comment { .. } => COMMENT_NODE,
            NodeData::Document => DOCUMENT_NODE,
            NodeData::Doctype { .. } => DOCUMENT_TYPE_NODE,
            NodeData::ProcessingInstruction { .. } => PROCESSING_INSTRUCTION_NODE,
        }
    }

    /// The name of the node.
    pub fn node_name(&self, dom: &Dom) -> (r: String)
        requires
            dom.has(*self),
        ensures
            r@ == name_of(dom.data_of(*self)),
    {
        match dom.data(*self) {
            NodeData::Element { name, attrs: _ } => {
                if same_str(name.local.as_str(), "#document-fragment") {
                    "#document-fragment".to_owned()
                } else {
                    to_upper(name.local.as_str())
                }
            },
            NodeData::Text { .. } => "#text".to_owned(),
            NodeData::Comment { .. } => "#comment".to_owned(),
            NodeData::Document => "#document".to_owned(),
            NodeData::Doctype { name, .. } => name.clone(),
            NodeData::ProcessingInstruction { target, .. } => target.clone(),
        }
    }

    /// The local name of an element in upper case.
    pub fn tag_name(&self, dom: &Dom) -> (r: Option<String>)
        requires
            dom.has(*self),
        ensures
            opt_seq(r) == match dom.data_of(*self) {
                NodeDataView::Element { name, attrs } => Some(uppercase_of(name.local)),
                _ => None,
            },
    {
        match dom.data(*self) {
            NodeData::Element { name, attrs: _ } => Some(to_upper(name.local.as_str())),
            _ => None,
        }
    }

    /// The namespace of an element.
    pub fn namespace_uri(&self, dom: &Dom) -> (r: Option<String>)
        requires
            dom.has(*self),
        ensures
            opt_seq(r) == match dom.data_of(*self) {
                NodeDataView::Element { name, attrs } => Some(name.ns),
                _ => None,
            },
    {
        match dom.data(*self) {
            NodeData::Element { name, attrs: _ } => Some(name.ns.clone()),
            _ => None,
        }
    }

    /// The prefix of an element's name.
    pub fn prefix(&self, dom: &Dom) -> (r: Option<String>)
        requires
            dom.has(*self),
        ensures
            opt_seq(r) == match dom.data_of(*self) {
                NodeDataView::Element { name, attrs } => name.prefix,
                _ => None,
            },
    {
        match dom.data(*self) {
            NodeData::Element { name, attrs: _ } => match &name.prefix {
                Some(p) => Some(p.clone()),
                None => None,
            },
            _ => None,
        }
    }

    /// The local name of an element.
    pub fn local_name(&self, dom: &Dom) -> (r: Option<String>)
        requires
            dom.has(*self),
        ensures
            opt_seq(r) == match dom.data_of(*self) {
                NodeDataView::Element { name, attrs } => Some(name.local),
                _ => None,
            },
    {
        match dom.data(*self) {
            NodeData::Element { name, attrs: _ } => Some(name.local.clone()),
            _ => None,
        }
    }

    /// The target of a processing instruction.
    pub fn target(&self, dom: &Dom) -> (r: Option<String>)
        requires
            dom.has(*self),
        ensures
            opt_seq(r) == match dom.data_of(*self) {
                NodeDataView::ProcessingInstruction { target, contents } => Some(target),
                _ => None,
            },
    {
        match dom.data(*self) {
            NodeData::ProcessingInstruction { target, .. } => Some(target.clone()),
            _ => None,
        }
    }

    /// The name of a document type.
    pub fn name(&self, dom: &Dom) -> (r: Option<String>)
        requires
            dom.has(*self),
        ensures
            opt_seq(r) == match dom.data_of(*self) {
                NodeDataView::Doctype { name, public_id, system_id } => Some(name),
                _ => None,
            },
    {
        match dom.data(*self) {
            NodeData::Doctype { name, .. } => Some(name.clone()),
            _ => None,
        }
    }

    /// The public identifier of a document type.
    pub fn public_id(&self, dom: &Dom) -> (r: Option<String>)
        requires
            dom.has(*self),
        ensures
            opt_seq(r) == match dom.data_of(*self) {
                NodeDataView::Doctype { name, public_id, system_id } => Some(public_id),
                _ => None,
            },
    {
        match dom.data(*self) {
            NodeData::Doctype { public_id, .. } => Some(public_id.clone()),
            _ => None,
        }
    }

    /// The system identifier of a document type.
    pub fn system_id(&self, dom: &Dom) -> (r: Option<String>)
        requires
            dom.has(*self),
        ensures
            opt_seq(r) == match dom.data_of(*self) {
                NodeDataView::Doctype { name, public_id, system_id } => Some(system_id),
                _ => None,
            },
    {
        match dom.data(*self) {
            NodeData::Doctype { system_id, .. } => Some(system_id.clone()),
            _ => None,
        }
    }

    /// Whether the two handles name one and the same node.
    pub fn is_same_node(&self, other_node: &DomNode) -> (r: bool)
        ensures
            r == (*self == *other_node),
    {
        self.id == other_node.id
    }

    /// The parent of the node.
    pub fn parent_node(&self, dom: &Dom) -> (r: Option<DomNode>)
        requires
            dom.wf(),
            dom.has(*self),
        ensures
            r == dom.parent_of(*self),
            r is Some ==> dom.has(r.unwrap()),
    {
        proof {
            assert(dom.shape().node_ok(*self));
        }
        dom.parent(*self)
    }

    /// The parent of the node, where it is an element.
    pub fn parent_element(&self, dom: &Dom) -> (r: Option<DomNode>)
        requires
            dom.wf(),
            dom.has(*self),
        ensures
            r == match dom.parent_of(*self) {
                Some(p) => if dom.data_of(p) is Element {
                    Some(p)
                } else {
                    None
                },
                None => None,
            },
            r is Some ==> dom.has(r.unwrap()),
    {
        proof {
            assert(dom.shape().node_ok(*self));
        }
        match dom.parent(*self) {
            Some(p) => {
                if node_is(dom, p, &KindQuery::Element) {
                    Some(p)
                } else {
                    None
                }
            },
            None => None,
        }
    }

    /// The children of the node, in order.
    pub fn child_nodes(&self, dom: &Dom) -> (r: Vec<DomNode>)
        requires
            dom.wf(),
            dom.has(*self),
        ensures
            r@ == dom.children_of(*self),
            forall|j: int| 0 <= j < r.len() ==> dom.has(#[trigger] r[j]),
    {
        let n = dom.child_count(*self);
        let mut r: Vec<DomNode> = Vec::new();
        let mut k: usize = 0;
        while k < n
            invariant
                dom.wf(),
                dom.has(*self),
                n == dom.children_of(*self).len(),
                k <= n,
                r@ == dom.children_of(*self).take(k as int),
                forall|j: int| 0 <= j < r.len() ==> dom.has(#[trigger] r[j]),
            decreases n - k,
        {
            let c = dom.child_at(*self, k);
            proof {
                lemma_child_room(dom.shape(), *self, k as int);
            }
            r.push(c);
            assert(r@ =~= dom.children_of(*self).take(k + 1));
            k += 1;
        }
        assert(dom.children_of(*self).take(n as int) =~= dom.children_of(*self));
        r
    }

    /// Whether the node has a child.
    pub fn has_child_nodes(&self, dom: &Dom) -> (r: bool)
        requires
            dom.has(*self),
        ensures
            r == (dom.children_of(*self).len() > 0),
    {
        dom.child_count(*self) > 0
    }

    /// The first child of the node.
    pub fn first_child(&self, dom: &Dom) -> (r: Option<DomNode>)
        requires
            dom.wf(),
            dom.has(*self),
        ensures
            r == node_at(dom.children_of(*self), 0),
            r is Some ==> dom.has(r.unwrap()),
    {
        if dom.child_count(*self) > 0 {
            proof {
                lemma_child_room(dom.shape(), *self, 0);
            }
            Some(dom.child_at(*self, 0))
        } else {
            None
        }
    }

    /// The last child of the node.
    pub fn last_child(&self, dom: &Dom) -> (r: Option<DomNode>)
        requires
            dom.wf(),
            dom.has(*self),
        ensures
            r == node_at(dom.children_of(*self), dom.children_of(*self).len() - 1),
            r is Some ==> dom.has(r.unwrap()),
    {
        let n = dom.child_count(*self);
        if n > 0 {
            proof {
                lemma_child_room(dom.shape(), *self, n - 1);
            }
            Some(dom.child_at(*self, n - 1))
        } else {
            None
        }
    }

    /// The node right before this one among the children of its parent.
    pub fn previous_sibling(&self, dom: &Dom) -> (r: Option<DomNode>)
        requires
            dom.wf(),
            dom.has(*self),
        ensures
            r == match dom.parent_of(*self) {
                Some(p) => node_at(dom.children_of(p), index_in_parent(dom.shape(), *self) - 1),
                None => None,
            },
            r is Some ==> dom.has(r.unwrap()),
    {
        match place_of(dom, *self) {
            Some((p, k)) => {
                if k > 0 {
                    proof {
                        lemma_child_room(dom.shape(), p, k - 1);
                    }
                    Some(dom.child_at(p, k - 1))
                } else {
                    None
                }
            },
            None => None,
        }
    }

    /// The node right after this one among the children of its parent.
    pub fn next_sibling(&self, dom: &Dom) -> (r: Option<DomNode>)
        requires
            dom.wf(),
            dom.has(*self),
        ensures
            r == match dom.parent_of(*self) {
                Some(p) => node_at(dom.children_of(p), index_in_parent(dom.shape(), *self) + 1),
                None => None,
            },
            r is Some ==> dom.has(r.unwrap()),
    {
        match place_of(dom, *self) {
            Some((p, k)) => {
                let n = dom.child_count(p);
                if k + 1 < n {
                    proof {
                        lemma_child_room(dom.shape(), p, k + 1);
                    }
                    Some(dom.child_at(p, k + 1))
                } else {
                    None
                }
            },
            None => None,
        }
    }

    /// The first child that is an element.
    pub fn first_element_child(&self, dom: &Dom) -> (r: Option<DomNode>)
        requires
            dom.wf(),
            dom.has(*self),
        ensures
            r == node_at(
                dom.children_of(*self),
                first_kid(dom.datas(), dom.children_of(*self), Kind::Element, 0),
            ),
            r is Some ==> dom.has(r.unwrap()),
    {
        first_child_of_kind(dom, *self, &KindQuery::Element, 0)
    }

    /// The last child that is an element.
    pub fn last_element_child(&self, dom: &Dom) -> (r: Option<DomNode>)
        requires
            dom.wf(),
            dom.has(*self),
        ensures
            r == node_at(
                dom.children_of(*self),
                last_kid(
                    dom.datas(),
                    dom.children_of(*self),
                    Kind::Element,
                    dom.children_of(*self).len() as int,
                ),
            ),
            r is Some ==> dom.has(r.unwrap()),
    {
        last_child_of_kind(dom, *self, &KindQuery::Element, dom.child_count(*self))
    }

    /// The nearest element before this node among the children of its parent.
    pub fn previous_element_sibling(&self, dom: &Dom) -> (r: Option<DomNode>)
        requires
            dom.wf(),
            dom.has(*self),
        ensures
            r == match dom.parent_of(*self) {
                Some(p) => node_at(
                    dom.children_of(p),
                    last_kid(
                        dom.datas(),
                        dom.children_of(p),
                        Kind::Element,
                        index_in_parent(dom.shape(), *self),
                    ),
                ),
                None => None,
            },
            r is Some ==> dom.has(r.unwrap()),
    {
        match place_of(dom, *self) {
            Some((p, k)) => last_child_of_kind(dom, p, &KindQuery::Element, k),
            None => None,
        }
    }

    /// The nearest element after this node among the children of its parent.
    pub fn next_element_sibling(&self, dom: &Dom) -> (r: Option<DomNode>)
        requires
            dom.wf(),
            dom.has(*self),
        ensures
            r == match dom.parent_of(*self) {
                Some(p) => node_at(
                    dom.children_of(p),
                    first_kid(
                        dom.datas(),
                        dom.children_of(p),
                        Kind::Element,
                        index_in_parent(dom.shape(), *self) + 1,
                    ),
                ),
                None => None,
            },
            r is Some ==> dom.has(r.unwrap()),
    {
        match place_of(dom, *self) {
            Some((p, k)) => {
                let n = dom.child_count(p);
                assert(k < n);
                first_child_of_kind(dom, p, &KindQuery::Element, k + 1)
            },
            None => None,
        }
    }

    /// The children that are elements, in order.
    pub fn children(&self, dom: &Dom) -> (r: Vec<DomNode>)
        requires
            dom.wf(),
            dom.has(*self),
        ensures
            r@ == chosen(
                dom.shape(),
                dom.datas(),
                dom.children_of(*self),
                Filter::AnyElement,
                dom.children_of(*self).len(),
            ),
            forall|j: int| 0 <= j < r.len() ==> dom.has(#[trigger] r[j]),
    {
        let all = self.child_nodes(dom);
        filter_nodes(dom, &all, &NodeFilter::AnyElement)
    }

    /// The number of children that are elements, cut to 32 bits.
    pub fn child_element_count(&self, dom: &Dom) -> (r: u32)
        requires
            dom.wf(),
            dom.has(*self),
        ensures
            r == chosen(
                dom.shape(),
                dom.datas(),
                dom.children_of(*self),
                Filter::AnyElement,
                dom.children_of(*self).len(),
            ).len() as u32,
    {
        let found = self.children(dom);
        #[verifier::truncate]
        (found.len() as u32)
    }

    /// The root of the node's tree, where it is a document.
    pub fn owner_document(&self, dom: &Dom) -> (r: Option<DomNode>)
        requires
            dom.wf(),
            dom.has(*self),
        ensures
            r == if dom.data_of(dom.shape().root_of(*self)) is Document {
                Some(dom.shape().root_of(*self))
            } else {
                None
            },
            r is Some ==> dom.has(r.unwrap()),
    {
        let root = self.get_root_node(dom);
        match dom.data(root) {
            NodeData::Document => Some(root),
            _ => None,
        }
    }

    /// The document type of a document: its first child of that kind.
    pub fn doctype(&self, dom: &Dom) -> (r: Option<DomNode>)
        requires
            dom.wf(),
            dom.has(*self),
        ensures
            r == if dom.data_of(*self) is Document {
                node_at(
                    dom.children_of(*self),
                    first_kid(dom.datas(), dom.children_of(*self), Kind::Doctype, 0),
                )
            } else {
                None
            },
            r is Some ==> dom.has(r.unwrap()),
    {
        match dom.data(*self) {
            NodeData::Document => first_child_of_kind(dom, *self, &KindQuery::Doctype, 0),
            _ => None,
        }
    }

    /// The top element of a document: its first child that is an element.
    pub fn document_element(&self, dom: &Dom) -> (r: Option<DomNode>)
        requires
            dom.wf(),
            dom.has(*self),
        ensures
            r == if dom.data_of(*self) is Document {
                node_at(
                    dom.children_of(*self),
                    first_kid(dom.datas(), dom.children_of(*self), Kind::Element, 0),
                )
            } else {
                None
            },
            r is Some ==> dom.has(r.unwrap()),
    {
        match dom.data(*self) {
            NodeData::Document => first_child_of_kind(dom, *self, &KindQuery::Element, 0),
            _ => None,
        }
    }

    /// The text below the node.
    pub fn text_content_getter(&self, dom: &Dom) -> (r: String)
        requires
            dom.wf(),
            dom.has(*self),
        ensures
            r@ == text_below(dom.shape(), dom.datas(), *self),
    {
        let mut r = String::new();
        gather_text(dom, *self, &mut r);
        assert(r@ =~= text_below(dom.shape(), dom.datas(), *self));
        r
    }

    /// The text below the node.
    pub fn text(&self, dom: &Dom) -> (r: String)
        requires
            dom.wf(),
            dom.has(*self),
        ensures
            r@ == text_below(dom.shape(), dom.datas(), *self),
    {
        self.text_content_getter(dom)
    }
}

} // verus!
