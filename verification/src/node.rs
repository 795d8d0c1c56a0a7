//! The node store: what a node holds, and the store that keeps every node of
//! a document with its parent link and its ordered child list.

use crate::shape::{DomNode, Shape};
use vstd::prelude::*;

verus! {

/// A name made of a namespace, an optional prefix and a local name.
pub struct QualName {
    pub prefix: Option<String>,
    pub ns: String,
    pub local: String,
}

/// A qualified name as contracts speak of it.
pub struct QualNameView {
    pub prefix: Option<Seq<char>>,
    pub ns: Seq<char>,
    pub local: Seq<char>,
}

/// The characters of an optional string.
pub open spec fn opt_view(s: Option<String>) -> Option<Seq<char>> {
    match s {
        Some(t) => Some(t@),
        None => None,
    }
}

impl View for QualName {
    type V = QualNameView;

    open spec fn view(&self) -> QualNameView {
        QualNameView { prefix: opt_view(self.prefix), ns: self.ns@, local: self.local@ }
    }
}

/// One attribute of an element.
pub struct Attribute {
    pub name: QualName,
    pub value: String,
}

/// An attribute as contracts speak of it.
pub struct AttributeView {
    pub name: QualNameView,
    pub value: Seq<char>,
}

impl View for Attribute {
    type V = AttributeView;

    open spec fn view(&self) -> AttributeView {
        AttributeView { name: self.name@, value: self.value@ }
    }
}

/// An attribute list as contracts speak of it.
pub open spec fn attrs_view(attrs: Seq<Attribute>) -> Seq<AttributeView> {
    Seq::new(attrs.len(), |i: int| attrs[i]@)
}

/// What a node holds besides its place in the tree. The content that a
/// parser keeps apart for a `template` element is not held: no operation of
/// this library reads it and the serializer does not write it, so a copy of
/// an element has none to carry.
#[allow(inconsistent_fields)]
pub enum NodeData {
    Document,
    Doctype { name: String, public_id: String, system_id: String },
    Text { contents: String },
    Comment { contents: String },
    Element { name: QualName, attrs: Vec<Attribute> },
    ProcessingInstruction { target: String, contents: String },
}

/// What a node holds, as contracts speak of it.
#[allow(inconsistent_fields)]
pub enum NodeDataView {
    Document,
    Doctype { name: Seq<char>, public_id: Seq<char>, system_id: Seq<char> },
    Text { contents: Seq<char> },
    Comment { contents: Seq<char> },
    Element { name: QualNameView, attrs: Seq<AttributeView> },
    ProcessingInstruction { target: Seq<char>, contents: Seq<char> },
}

impl View for NodeData {
    type V = NodeDataView;

    open spec fn view(&self) -> NodeDataView {
        match *self {
            NodeData::Document => NodeDataView::Document,
            NodeData::Doctype { name, public_id, system_id } => NodeDataView::Doctype {
                name: name@,
                public_id: public_id@,
                system_id: system_id@,
            },
            NodeData::Text { contents } => NodeDataView::Text { contents: contents@ },
            NodeData::Comment { contents } => NodeDataView::Comment { contents: contents@ },
            NodeData::Element { name, attrs } => NodeDataView::Element {
                name: name@,
                attrs: attrs_view(attrs@),
            },
            NodeData::ProcessingInstruction { target, contents } => {
                NodeDataView::ProcessingInstruction { target: target@, contents: contents@ }
            },
        }
    }
}

impl QualName {
    /// A copy of the name.
    pub fn duplicate(&self) -> (r: QualName)
        ensures
            r@ == self@,
    {
        let prefix = match &self.prefix {
            Some(p) => Some(p.clone()),
            None => None,
        };
        QualName { prefix, ns: self.ns.clone(), local: self.local.clone() }
    }
}

impl Attribute {
    /// A copy of the attribute.
    pub fn duplicate(&self) -> (r: Attribute)
        ensures
            r@ == self@,
    {
        Attribute { name: self.name.duplicate(), value: self.value.clone() }
    }
}

/// A copy of an attribute list, entry by entry.
pub fn duplicate_attrs(attrs: &Vec<Attribute>) -> (r: Vec<Attribute>)
    ensures
        attrs_view(r@) == attrs_view(attrs@),
{
    let mut r: Vec<Attribute> = Vec::new();
    let mut i: usize = 0;
    while i < attrs.len()
        invariant
            i <= attrs.len(),
            r.len() == i,
            forall|k: int| 0 <= k < i ==> r[k]@ == attrs[k]@,
        decreases attrs.len() - i,
    {
        r.push(attrs[i].duplicate());
        i += 1;
    }
    assert(attrs_view(r@) =~= attrs_view(attrs@));
    r
}

impl NodeData {
    /// A copy of the node's own data: kind, names, attribute list and text.
    pub fn duplicate(&self) -> (r: NodeData)
        ensures
            r@ == self@,
    {
        match self {
            NodeData::Document => NodeData::Document,
            NodeData::Doctype { name, public_id, system_id } => NodeData::Doctype {
                name: name.clone(),
                public_id: public_id.clone(),
                system_id: system_id.clone(),
            },
            NodeData::Text { contents } => NodeData::Text { contents: contents.clone() },
            NodeData::Comment { contents } => NodeData::Comment { contents: contents.clone() },
            NodeData::Element { name, attrs } => NodeData::Element {
                name: name.duplicate(),
                attrs: duplicate_attrs(attrs),
            },
            NodeData::ProcessingInstruction { target, contents } => {
                NodeData::ProcessingInstruction {
                    target: target.clone(),
                    contents: contents.clone(),
                }
            },
        }
    }
}

/// One node as the store keeps it.
pub struct NodeRecord {
    pub data: NodeData,
    pub parent: Option<DomNode>,
    pub children: Vec<DomNode>,
}

/// Every node of one or more trees. Handles index into it; a node that has
/// been taken out of its tree stays in the store, without a parent.
pub struct Dom {
    pub(crate) nodes: Vec<NodeRecord>,
    pub(crate) rank: Ghost<Seq<nat>>,
    pub(crate) bound: Ghost<nat>,
}

impl Dom {
    /// Parent links and child lists of the store.
    pub open(crate) spec fn shape(&self) -> Shape {
        Shape {
            parents: Seq::new(self.nodes.len() as nat, |i: int| self.nodes[i].parent),
            kids: Seq::new(self.nodes.len() as nat, |i: int| self.nodes[i].children@),
            rank: self.rank@,
            bound: self.bound@,
        }
    }

    /// What each node holds, by handle id.
    pub open(crate) spec fn datas(&self) -> Seq<NodeDataView> {
        Seq::new(self.nodes.len() as nat, |i: int| self.nodes[i].data@)
    }

    /// The store's invariant: its skeleton is a forest.
    pub open spec fn wf(&self) -> bool {
        self.shape().wf()
    }

    /// The number of nodes ever created in the store.
    pub open spec fn count(&self) -> nat {
        self.shape().parents.len()
    }

    /// Whether the handle names a node of this store.
    pub open spec fn has(&self, n: DomNode) -> bool {
        self.shape().has(n)
    }

    /// The parent of a node, if it has one.
    pub open spec fn parent_of(&self, n: DomNode) -> Option<DomNode> {
        self.shape().parent_of(n)
    }

    /// The children of a node, in order.
    pub open spec fn children_of(&self, n: DomNode) -> Seq<DomNode> {
        self.shape().children_of(n)
    }

    /// What the node holds.
    pub open spec fn data_of(&self, n: DomNode) -> NodeDataView {
        self.datas()[n.id as int]
    }

    /// `a` is `x` or stands above `x`.
    pub open spec fn is_ancestor(&self, a: DomNode, x: DomNode) -> bool {
        self.shape().is_ancestor(a, x)
    }

    /// An empty store.
    pub fn new() -> (dom: Dom)
        ensures
            dom.wf(),
            dom.count() == 0,
    {
        let dom = Dom { nodes: Vec::new(), rank: Ghost(Seq::empty()), bound: Ghost(0) };
        assert(dom.shape().kids.len() == 0);
        dom
    }

    /// The number of nodes ever created in the store.
    pub fn len(&self) -> (n: usize)
        ensures
            n == self.count(),
    {
        self.nodes.len()
    }

    /// Whether the handle names a node of this store.
    pub fn contains_node(&self, n: &DomNode) -> (b: bool)
        ensures
            b == self.has(*n),
    {
        n.id < self.nodes.len()
    }

    /// Adds a node that has no parent and no children.
    pub fn create(&mut self, data: NodeData) -> (n: DomNode)
        requires
            old(self).wf(),
        ensures
            final(self).wf(),
            n.id == old(self).count(),
            final(self).shape() == old(self).shape().grown(),
            final(self).datas() == old(self).datas().push(data@),
    {
        let id = self.nodes.len();
        self.nodes.push(NodeRecord { data, parent: None, children: Vec::new() });
        let grown_len = self.nodes.len();
        proof {
            self.rank@ = self.rank@.push(0);
            self.bound@ = self.bound@ + 1;
            old(self).shape().lemma_grown_wf();
            assert(self.shape().parents =~= old(self).shape().grown().parents);
            assert(self.shape().kids =~= old(self).shape().grown().kids);
            assert(self.datas() =~= old(self).datas().push(data@));
        }
        DomNode { id }
    }

    /// The parent of a node, if it has one.
    pub fn parent(&self, n: DomNode) -> (r: Option<DomNode>)
        requires
            self.has(n),
        ensures
            r == self.parent_of(n),
    {
        self.nodes[n.id].parent
    }

    /// Puts `data` in the place of what the node holds.
    pub(crate) fn put_data(&mut self, n: DomNode, data: NodeData)
        requires
            old(self).has(n),
        ensures
            final(self).shape() == old(self).shape(),
            final(self).datas() == old(self).datas().update(n.id as int, data@),
    {
        self.nodes[n.id].data = data;
        proof {
            assert(self.shape().parents =~= old(self).shape().parents);
            assert(self.shape().kids =~= old(self).shape().kids);
            assert(self.datas() =~= old(self).datas().update(n.id as int, data@));
        }
    }

    /// Adds an attribute at the end of an element's list.
    pub(crate) fn push_attr(&mut self, n: DomNode, a: Attribute)
        requires
            old(self).has(n),
            old(self).data_of(n) is Element,
        ensures
            final(self).shape() == old(self).shape(),
            final(self).datas() == old(self).datas().update(
                n.id as int,
                NodeDataView::Element {
                    name: old(self).data_of(n)->Element_name,
                    attrs: old(self).data_of(n)->Element_attrs.push(a@),
                },
            ),
    {
        match &mut self.nodes[n.id].data {
            NodeData::Element { name, attrs } => {
                attrs.push(a);
            },
            _ => {},
        }
        proof {
            assert(self.shape().parents =~= old(self).shape().parents);
            assert(self.shape().kids =~= old(self).shape().kids);
            assert(self.data_of(n)->Element_attrs =~= old(self).data_of(n)->Element_attrs.push(a@));
            assert(self.datas() =~= old(self).datas().update(
                n.id as int,
                NodeDataView::Element {
                    name: old(self).data_of(n)->Element_name,
                    attrs: old(self).data_of(n)->Element_attrs.push(a@),
                },
            ));
        }
    }

    /// Gives the attribute at index `i` of an element a new value.
    pub(crate) fn set_attr_value(&mut self, n: DomNode, i: usize, value: String)
        requires
            old(self).has(n),
            old(self).data_of(n) is Element,
            i < old(self).data_of(n)->Element_attrs.len(),
        ensures
            final(self).shape() == old(self).shape(),
            final(self).datas() == old(self).datas().update(
                n.id as int,
                NodeDataView::Element {
                    name: old(self).data_of(n)->Element_name,
                    attrs: old(self).data_of(n)->Element_attrs.update(
                        i as int,
                        AttributeView {
                            name: old(self).data_of(n)->Element_attrs[i as int].name,
                            value: value@,
                        },
                    ),
                },
            ),
    {
        match &mut self.nodes[n.id].data {
            NodeData::Element { name, attrs } => {
                attrs[i].value = value;
            },
            _ => {},
        }
        proof {
            let want = old(self).data_of(n)->Element_attrs.update(
                i as int,
                AttributeView {
                    name: old(self).data_of(n)->Element_attrs[i as int].name,
                    value: value@,
                },
            );
            assert(self.shape().parents =~= old(self).shape().parents);
            assert(self.shape().kids =~= old(self).shape().kids);
            assert(self.data_of(n)->Element_attrs =~= want);
            assert(self.datas() =~= old(self).datas().update(
                n.id as int,
                NodeDataView::Element { name: old(self).data_of(n)->Element_name, attrs: want },
            ));
        }
    }

    /// Takes the attribute at index `i` out of an element's list.
    pub(crate) fn remove_attr(&mut self, n: DomNode, i: usize)
        requires
            old(self).has(n),
            old(self).data_of(n) is Element,
            i < old(self).data_of(n)->Element_attrs.len(),
        ensures
            final(self).shape() == old(self).shape(),
            final(self).datas() == old(self).datas().update(
                n.id as int,
                NodeDataView::Element {
                    name: old(self).data_of(n)->Element_name,
                    attrs: old(self).data_of(n)->Element_attrs.remove(i as int),
                },
            ),
    {
        match &mut self.nodes[n.id].data {
            NodeData::Element { name, attrs } => {
                attrs.remove(i);
            },
            _ => {},
        }
        proof {
            let want = old(self).data_of(n)->Element_attrs.remove(i as int);
            assert(self.shape().parents =~= old(self).shape().parents);
            assert(self.shape().kids =~= old(self).shape().kids);
            assert(self.data_of(n)->Element_attrs =~= want);
            assert(self.datas() =~= old(self).datas().update(
                n.id as int,
                NodeDataView::Element { name: old(self).data_of(n)->Element_name, attrs: want },
            ));
        }
    }

    /// What the node holds.
    pub fn data(&self, n: DomNode) -> (d: &NodeData)
        requires
            self.has(n),
        ensures
            d@ == self.data_of(n),
    {
        &self.nodes[n.id].data
    }

    /// The number of children of a node.
    pub fn child_count(&self, n: DomNode) -> (r: usize)
        requires
            self.has(n),
        ensures
            r == self.children_of(n).len(),
    {
        self.nodes[n.id].children.len()
    }

    /// The child at index `k` of a node.
    pub fn child_at(&self, n: DomNode, k: usize) -> (r: DomNode)
        requires
            self.has(n),
            k < self.children_of(n).len(),
        ensures
            r == self.children_of(n)[k as int],
    {
        self.nodes[n.id].children[k]
    }

    /// Whether `a` is `x` or stands above `x`.
    pub fn is_inclusive_ancestor(&self, a: DomNode, x: DomNode) -> (b: bool)
        requires
            self.wf(),
            self.has(x),
        ensures
            b == self.is_ancestor(a, x),
    {
        let mut cur = x;
        loop
            invariant
                self.wf(),
                self.has(cur),
                self.is_ancestor(a, x) == self.is_ancestor(a, cur),
            decreases self.shape().rank_of(cur),
        {
            if cur.id == a.id {
                return true;
            }
            proof {
                assert(self.shape().node_ok(cur));
            }
            match self.nodes[cur.id].parent {
                Some(p) => {
                    cur = p;
                },
                None => {
                    return false;
                },
            }
        }
    }

    /// Takes `n` out of its parent's child list and clears its parent link.
    /// A node without a parent is left as it is.
    pub fn detach(&mut self, n: DomNode)
        requires
            old(self).wf(),
            old(self).has(n),
        ensures
            final(self).wf(),
            final(self).shape() == old(self).shape().detached(n),
            final(self).datas() == old(self).datas(),
    {
        proof {
            old(self).shape().lemma_detached_wf(n);
        }
        match self.nodes[n.id].parent {
            None => {},
            Some(p) => {
                proof {
                    old(self).shape().lemma_index_of(p, n);
                }
                let at = position_of(&self.nodes[p.id].children, n);
                match at {
                    Some(k) => {
                        self.nodes[p.id].children.remove(k);
                    },
                    None => {},
                }
                self.nodes[n.id].parent = None;
                proof {
                    assert(self.shape().parents =~= old(self).shape().detached(n).parents);
                    assert(self.shape().kids =~= old(self).shape().detached(n).kids);
                    assert(self.datas() =~= old(self).datas());
                }
            },
        }
    }

    /// Puts the parentless node `n` at index `pos` of the child list of `p`.
    pub(crate) fn attach(&mut self, p: DomNode, n: DomNode, pos: usize)
        requires
            old(self).wf(),
            old(self).has(p),
            old(self).has(n),
            old(self).parent_of(n) is None,
            !old(self).is_ancestor(n, p),
            pos <= old(self).children_of(p).len(),
        ensures
            final(self).wf(),
            final(self).shape() == old(self).shape().attached(p, n, pos as int),
            final(self).datas() == old(self).datas(),
    {
        proof {
            old(self).shape().lemma_attached_wf(p, n, pos as int);
        }
        self.nodes[p.id].children.insert(pos, n);
        self.nodes[n.id].parent = Some(p);
        proof {
            let t = old(self).shape().attached(p, n, pos as int);
            self.rank@ = t.rank;
            self.bound@ = t.bound;
            assert(self.shape().parents =~= t.parents);
            assert(self.shape().kids =~= t.kids);
            assert(self.datas() =~= old(self).datas());
        }
    }
}

/// The first index at which `n` stands in `list`.
pub fn position_of(list: &Vec<DomNode>, n: DomNode) -> (r: Option<usize>)
    ensures
        match r {
            Some(k) => k < list.len() && list[k as int] == n && forall|j: int|
                0 <= j < k ==> list[j] != n,
            None => !list@.contains(n),
        },
{
    let mut i: usize = 0;
    while i < list.len()
        invariant
            i <= list.len(),
            forall|j: int| 0 <= j < i ==> list[j] != n,
        decreases list.len() - i,
    {
        if list[i].id == n.id {
            return Some(i);
        }
        i += 1;
    }
    None
}

} // verus!
