//! The boundary to the HTML parser and serializer: markup text comes in as
//! a tree of the parser's own nodes, which is copied into a store, and a
//! subtree goes out as a run of events for the serializer.

use crate::node::{Attribute, AttributeView, Dom, NodeData, NodeDataView, QualName, QualNameView};
use crate::chardata::lemma_fresh_is_apart;
use crate::factory::{html_element, new_html_element};
use crate::props::{first_child_of_kind, first_kid, is_kind, lemma_first_kid, Kind, KindQuery};
use crate::shape::{DomNode, Shape};
use crate::tree::{forest, lemma_child_room, lemma_forest_frame, lemma_subtree_frame, subtree, TreeModel};
use html5ever::serialize::{HtmlSerializer, SerializeOpts, Serializer, TraversalScope};
use html5ever::tendril::TendrilSink;
use html5ever::{LocalName, Namespace, Prefix};
use markup5ever_rcdom::NodeData as Parsed;
use markup5ever_rcdom::{Node, RcDom};
use std::rc::Rc;
use vstd::prelude::*;

verus! {

/// A node of the parser's own tree. The library reads such nodes and never
/// changes them.
#[verifier::external_type_specification]
#[verifier::external_body]
pub struct ExNode(markup5ever_rcdom::Node);

/// What hangs at a node of the parser's tree: what the node holds, with the
/// subtrees of its children, in order.
pub uninterp spec fn parsed_tree(h: Node) -> TreeModel;

/// The tree that html5ever's parser builds for a text that is a whole
/// document.
pub uninterp spec fn document_tree(html: Seq<char>) -> TreeModel;

/// The tree that html5ever's parser builds for a text that is a fragment in
/// the context of an element of the name `context`.
pub uninterp spec fn fragment_tree(html: Seq<char>, context: QualNameView) -> TreeModel;

/// The greatest number of bytes of markup that is handed to the parser. The
/// parser keeps text in buffers whose lengths are 32-bit numbers and whose
/// capacities are powers of two, and a character of the text can come to
/// stand as three bytes in the tree; within this bound no buffer outgrows
/// them.
pub const MAX_MARKUP_BYTES: usize = 0x2000_0000;

/// Whether a text is short enough for the parser.
pub open spec fn markup_fits(html: Seq<char>) -> bool {
    vstd::utf8::encode_utf8(html).len() <= MAX_MARKUP_BYTES
}

/// Whether a text is short enough for the parser.
pub fn fits_in_parser(html: &str) -> (r: bool)
    ensures
        r == markup_fits(html@),
{
    let bytes = html.as_bytes();
    bytes.len() <= MAX_MARKUP_BYTES
}

/// The serializer of html5ever, writing into a byte vector.
#[verifier::external_body]
pub struct MarkupWriter {
    inner: HtmlSerializer<Vec<u8>>,
}

/// One call that a serializer has received.
#[allow(inconsistent_fields)]
pub enum MarkupEvent {
    /// It was made, with scripting on or off.
    Begin { scripting: bool },
    /// The start of an element.
    Start { name: QualNameView, attrs: Seq<AttributeView> },
    /// The end of an element.
    End { name: QualNameView },
    /// A text.
    Text { contents: Seq<char> },
    /// A comment.
    Comment { contents: Seq<char> },
    /// A document type.
    Doctype { name: Seq<char> },
    /// A processing instruction.
    Instruction { target: Seq<char>, contents: Seq<char> },
}

/// The calls that the serializer has received since it was made, in order.
pub uninterp spec fn fed(w: MarkupWriter) -> Seq<MarkupEvent>;

/// The markup that html5ever's serializer writes for a run of calls.
pub uninterp spec fn rendered(events: Seq<MarkupEvent>) -> Seq<char>;

/// `HtmlSerializer::new` over an empty byte vector. The serializer is told
/// to make do where an element ends that never began, so that no run of
/// calls can make it panic.
#[verifier::external_body]
fn writer_new(scripting: bool) -> (w: MarkupWriter)
    ensures
        fed(w) == seq![MarkupEvent::Begin { scripting }],
{
    let opts = SerializeOpts {
        scripting_enabled: scripting,
        traversal_scope: TraversalScope::IncludeNode,
        create_missing_parent: true,
    };
    MarkupWriter { inner: HtmlSerializer::new(Vec::new(), opts) }
}

/// `Serializer::start_elem` of html5ever's serializer, with the name and the
/// attributes turned into html5ever's own.
#[verifier::external_body]
fn writer_start(w: &mut MarkupWriter, name: &QualName, attrs: &Vec<Attribute>)
    ensures
        fed(*final(w)) == fed(*old(w)).push(
            MarkupEvent::Start { name: name@, attrs: crate::node::attrs_view(attrs@) },
        ),
{
    let outside = |n: &QualName|
        html5ever::QualName::new(
            n.prefix.as_deref().map(Prefix::from),
            Namespace::from(n.ns.as_str()),
            LocalName::from(n.local.as_str()),
        );
    let names: Vec<html5ever::QualName> = attrs.iter().map(|a| outside(&a.name)).collect();
    let pairs = names.iter().zip(attrs.iter()).map(|(q, a)| (q, a.value.as_str()));
    let _ = w.inner.start_elem(outside(name), pairs);
}

/// `Serializer::end_elem` of html5ever's serializer.
#[verifier::external_body]
fn writer_end(w: &mut MarkupWriter, name: &QualName)
    ensures
        fed(*final(w)) == fed(*old(w)).push(MarkupEvent::End { name: name@ }),
{
    let outside = html5ever::QualName::new(
        name.prefix.as_deref().map(Prefix::from),
        Namespace::from(name.ns.as_str()),
        LocalName::from(name.local.as_str()),
    );
    let _ = w.inner.end_elem(outside);
}

/// `Serializer::write_text` of html5ever's serializer.
#[verifier::external_body]
fn writer_text(w: &mut MarkupWriter, text: &str)
    ensures
        fed(*final(w)) == fed(*old(w)).push(MarkupEvent::Text { contents: text@ }),
{
    let _ = w.inner.write_text(text);
}

/// `Serializer::write_comment` of html5ever's serializer.
#[verifier::external_body]
fn writer_comment(w: &mut MarkupWriter, text: &str)
    ensures
        fed(*final(w)) == fed(*old(w)).push(MarkupEvent::Comment { contents: text@ }),
{
    let _ = w.inner.write_comment(text);
}

/// `Serializer::write_doctype` of html5ever's serializer.
#[verifier::external_body]
fn writer_doctype(w: &mut MarkupWriter, name: &str)
    ensures
        fed(*final(w)) == fed(*old(w)).push(MarkupEvent::Doctype { name: name@ }),
{
    let _ = w.inner.write_doctype(name);
}

/// `Serializer::write_processing_instruction` of html5ever's serializer.
#[verifier::external_body]
fn writer_instruction(w: &mut MarkupWriter, target: &str, data: &str)
    ensures
        fed(*final(w)) == fed(*old(w)).push(
            MarkupEvent::Instruction { target: target@, contents: data@ },
        ),
{
    let _ = w.inner.write_processing_instruction(target, data);
}

/// What the serializer has written, as text.
#[verifier::external_body]
fn writer_finish(w: MarkupWriter) -> (r: String)
    ensures
        r@ == rendered(fed(w)),
{
    String::from_utf8_lossy(&w.inner.writer).into_owned()
}

/// `html5ever::parse_document` with an `RcDom` as its sink, fed the whole
/// text at once: the document node of the tree that the parser builds. The
/// tree depends on the text alone. A text beyond the bound is left out,
/// since the parser's buffers panic when they outgrow their 32-bit lengths.
#[verifier::external_body]
fn parse_document_handle(html: &str) -> (r: Rc<Node>)
    requires
        markup_fits(html@),
    ensures
        parsed_tree(*r) == document_tree(html@),
{
    let parser = html5ever::parse_document(RcDom::default(), Default::default());
    parser.from_utf8().one(html.as_bytes()).document
}

/// `html5ever::parse_fragment` with an `RcDom` as its sink and an element of
/// the name `context`, without attributes, as its context: the document node
/// under which the parser puts what it builds. The tree depends on the text
/// and the name alone. A text beyond the bound is left out, as for a document.
#[verifier::external_body]
pub(crate) fn parse_fragment_handle(html: &str, context: &QualName) -> (r: Rc<Node>)
    requires
        markup_fits(html@),
    ensures
        parsed_tree(*r) == fragment_tree(html@, context@),
{
    let name = html5ever::QualName::new(
        context.prefix.as_deref().map(Prefix::from),
        Namespace::from(context.ns.as_str()),
        LocalName::from(context.local.as_str()),
    );
    let parser = html5ever::parse_fragment(RcDom::default(), Default::default(), name, Vec::new());
    parser.from_utf8().one(html.as_bytes()).document
}

/// The children of a node of the parser's tree, in order: the field
/// `children` of rcdom's `Node`.
#[verifier::external_body]
fn handle_children(h: &Rc<Node>) -> (r: Vec<Rc<Node>>)
    ensures
        r@.len() == parsed_tree(**h).children.len(),
        forall|i: int| 0 <= i < r@.len() ==> parsed_tree(*#[trigger] r@[i]) == parsed_tree(**h).children[i],
{
    h.children.borrow().iter().cloned().collect()
}

/// What a node of the parser's tree holds, but for an element, which gives
/// nothing here: the field `data` of rcdom's `Node`, variant by variant.
#[verifier::external_body]
fn handle_leaf(h: &Rc<Node>) -> (r: Option<NodeData>)
    ensures
        match parsed_tree(**h).data {
            NodeDataView::Element { name, attrs } => r is None,
            d => r is Some && r.unwrap()@ == d,
        },
{
    let text = |t: &html5ever::tendril::StrTendril| t.to_string();
    match &h.data {
        Parsed::Document => Some(NodeData::Document),
        Parsed::Doctype { name, public_id, system_id } => Some(
            NodeData::Doctype { name: text(name), public_id: text(public_id), system_id: text(system_id) },
        ),
        Parsed::Text { contents } => Some(NodeData::Text { contents: text(&contents.borrow()) }),
        Parsed::Comment { contents } => Some(NodeData::Comment { contents: text(contents) }),
        Parsed::ProcessingInstruction { target, contents } => Some(
            NodeData::ProcessingInstruction { target: text(target), contents: text(contents) },
        ),
        Parsed::Element { .. } => None,
    }
}

/// The name of an element of the parser's tree; nothing for any other node.
#[verifier::external_body]
fn handle_element_name(h: &Rc<Node>) -> (r: Option<QualName>)
    ensures
        match parsed_tree(**h).data {
            NodeDataView::Element { name, attrs } => r is Some && r.unwrap()@ == name,
            _ => r is None,
        },
{
    match &h.data {
        Parsed::Element { name, .. } => Some(
            QualName {
                prefix: name.prefix.as_ref().map(|p| p.to_string()),
                ns: name.ns.to_string(),
                local: name.local.to_string(),
            },
        ),
        _ => None,
    }
}

/// The attributes of an element of the parser's tree, in order; none for
/// any other node.
#[verifier::external_body]
fn handle_attrs(h: &Rc<Node>) -> (r: Vec<Attribute>)
    ensures
        match parsed_tree(**h).data {
            NodeDataView::Element { name, attrs } => crate::node::attrs_view(r@) == attrs,
            _ => r@.len() == 0,
        },
{
    let name = |n: &html5ever::QualName|
        QualName {
            prefix: n.prefix.as_ref().map(|p| p.to_string()),
            ns: n.ns.to_string(),
            local: n.local.to_string(),
        };
    let plain = |a: &html5ever::Attribute| Attribute { name: name(&a.name), value: a.value.to_string() };
    match &h.data {
        Parsed::Element { attrs, .. } => attrs.borrow().iter().map(plain).collect(),
        _ => Vec::new(),
    }
}

/// What a node of the parser's tree holds, as the store holds it.
fn handle_data(h: &Rc<Node>) -> (r: NodeData)
    ensures
        r@ == parsed_tree(**h).data,
{
    let leaf = handle_leaf(h);
    let name = handle_element_name(h);
    let attrs = handle_attrs(h);
    data_from_parts(leaf, name, attrs)
}

/// The data that three readings of one node amount to: the data of a leaf
/// where the node gave one; else an element with the name and the attributes
/// read; a document where the node gave neither.
pub open spec fn assembled(
    leaf: Option<NodeData>,
    name: Option<QualName>,
    attrs: Seq<Attribute>,
) -> NodeDataView {
    match leaf {
        Some(d) => d@,
        None => match name {
            Some(n) => NodeDataView::Element { name: n@, attrs: crate::node::attrs_view(attrs) },
            None => NodeDataView::Document,
        },
    }
}

/// Puts together what was read of one node of the parser's tree.
pub fn data_from_parts(leaf: Option<NodeData>, name: Option<QualName>, attrs: Vec<Attribute>) -> (r:
    NodeData)
    ensures
        r@ == assembled(leaf, name, attrs@),
{
    match leaf {
        Some(d) => d,
        None => match name {
            Some(n) => NodeData::Element { name: n, attrs },
            None => NodeData::Document,
        },
    }
}

/// The events that the serializer receives for the node `x` and what is
/// below it: an element gives its start, the events of its children and its
/// end; a document gives the events of its children; any other node gives
/// one event of its kind, whatever stands below it.
pub open spec fn events_of(s: Shape, datas: Seq<NodeDataView>, x: DomNode) -> Seq<MarkupEvent>
    decreases s.room(x), s.children_of(x).len() + 1,
    when s.wf() && s.has(x)
{
    match datas[x.id as int] {
        NodeDataView::Element { name, attrs } => seq![MarkupEvent::Start { name, attrs }]
            + events_first(s, datas, x, s.children_of(x).len()) + seq![MarkupEvent::End { name }],
        NodeDataView::Document => events_first(s, datas, x, s.children_of(x).len()),
        NodeDataView::Doctype { name, public_id, system_id } => seq![MarkupEvent::Doctype { name }],
        NodeDataView::Text { contents } => seq![MarkupEvent::Text { contents }],
        NodeDataView::Comment { contents } => seq![MarkupEvent::Comment { contents }],
        NodeDataView::ProcessingInstruction { target, contents } => seq![
            MarkupEvent::Instruction { target, contents },
        ],
    }
}

/// The events for the first `k` children of `x`, child after child.
pub open spec fn events_first(s: Shape, datas: Seq<NodeDataView>, x: DomNode, k: nat) -> Seq<
    MarkupEvent,
>
    decreases s.room(x), k,
    when s.wf() && s.has(x) && k <= s.children_of(x).len()
{
    if k == 0 {
        Seq::empty()
    } else {
        proof {
            assert(s.node_ok(x));
            assert(s.has(s.children_of(x)[k - 1]));
            assert(s.node_ok(s.children_of(x)[k - 1]));
        }
        events_first(s, datas, x, (k - 1) as nat) + events_of(s, datas, s.children_of(x)[k - 1])
    }
}

/// The markup of the node `x` with what is below it, or of what is below
/// it alone: what the serializer writes when it is made with `scripting` and
/// then receives the events.
pub open spec fn markup_of(
    s: Shape,
    datas: Seq<NodeDataView>,
    x: DomNode,
    children_only: bool,
    scripting: bool,
) -> Seq<char> {
    rendered(
        seq![MarkupEvent::Begin { scripting }] + if children_only {
            events_first(s, datas, x, s.children_of(x).len())
        } else {
            events_of(s, datas, x)
        },
    )
}

/// Hands the serializer the events for the children of `x`.
fn write_children(dom: &Dom, x: DomNode, w: &mut MarkupWriter)
    requires
        dom.wf(),
        dom.has(x),
    ensures
        fed(*final(w)) == fed(*old(w)) + events_first(
            dom.shape(),
            dom.datas(),
            x,
            dom.children_of(x).len(),
        ),
    decreases dom.shape().room(x), 0nat,
{
    let n = dom.child_count(x);
    let mut k: usize = 0;
    assert(fed(*w) =~= fed(*old(w)) + events_first(dom.shape(), dom.datas(), x, 0));
    while k < n
        invariant
            dom.wf(),
            dom.has(x),
            n == dom.children_of(x).len(),
            k <= n,
            fed(*w) == fed(*old(w)) + events_first(dom.shape(), dom.datas(), x, k as nat),
        decreases n - k,
    {
        let c = dom.child_at(x, k);
        proof {
            crate::tree::lemma_child_room(dom.shape(), x, k as int);
        }
        let ghost before = fed(*w);
        write_node(dom, c, w);
        assert(fed(*w) =~= fed(*old(w)) + events_first(dom.shape(), dom.datas(), x, (k + 1) as nat))
            by {
            assert(fed(*w) == before + events_of(dom.shape(), dom.datas(), c));
        }
        k += 1;
    }
}

/// Hands the serializer the events for `x` and what is below it.
fn write_node(dom: &Dom, x: DomNode, w: &mut MarkupWriter)
    requires
        dom.wf(),
        dom.has(x),
    ensures
        fed(*final(w)) == fed(*old(w)) + events_of(dom.shape(), dom.datas(), x),
    decreases dom.shape().room(x), 1nat,
{
    match dom.data(x) {
        NodeData::Element { name, attrs } => {
            writer_start(w, name, attrs);
            write_children(dom, x, w);
            writer_end(w, name);
            assert(fed(*w) =~= fed(*old(w)) + events_of(dom.shape(), dom.datas(), x));
        },
        NodeData::Document => {
            write_children(dom, x, w);
        },
        NodeData::Doctype { name, .. } => {
            writer_doctype(w, name.as_str());
            assert(fed(*w) =~= fed(*old(w)) + events_of(dom.shape(), dom.datas(), x));
        },
        NodeData::Text { contents } => {
            writer_text(w, contents.as_str());
            assert(fed(*w) =~= fed(*old(w)) + events_of(dom.shape(), dom.datas(), x));
        },
        NodeData::Comment { contents } => {
            writer_comment(w, contents.as_str());
            assert(fed(*w) =~= fed(*old(w)) + events_of(dom.shape(), dom.datas(), x));
        },
        NodeData::ProcessingInstruction { target, contents } => {
            writer_instruction(w, target.as_str(), contents.as_str());
            assert(fed(*w) =~= fed(*old(w)) + events_of(dom.shape(), dom.datas(), x));
        },
    }
}

/// The markup of `x` with what is below it, or of what is below it alone.
pub fn serialize_node(dom: &Dom, x: DomNode, children_only: bool, scripting: bool) -> (r: String)
    requires
        dom.wf(),
        dom.has(x),
    ensures
        r@ == markup_of(dom.shape(), dom.datas(), x, children_only, scripting),
{
    let mut w = writer_new(scripting);
    if children_only {
        write_children(dom, x, &mut w);
    } else {
        write_node(dom, x, &mut w);
    }
    writer_finish(w)
}

impl DomNode {
    /// The markup of this node and of what is below it, with scripting
    /// taken to be on. A document is written as its children.
    pub fn outer_html(&self, dom: &Dom) -> (r: String)
        requires
            dom.wf(),
            dom.has(*self),
        ensures
            r@ == markup_of(dom.shape(), dom.datas(), *self, false, true),
    {
        serialize_node(dom, *self, false, true)
    }

    /// The markup of what is below this node, with scripting taken to be on.
    pub fn inner_html(&self, dom: &Dom) -> (r: String)
        requires
            dom.wf(),
            dom.has(*self),
        ensures
            r@ == markup_of(dom.shape(), dom.datas(), *self, true, true),
    {
        serialize_node(dom, *self, true, true)
    }

    /// The markup of this node and of what is below it, with scripting
    /// taken to be off. A document is written as its children.
    pub fn outer_html_getter(&self, dom: &Dom) -> (r: String)
        requires
            dom.wf(),
            dom.has(*self),
        ensures
            r@ == markup_of(dom.shape(), dom.datas(), *self, false, false),
    {
        serialize_node(dom, *self, false, false)
    }

    /// The markup of what is below this node, with scripting taken to be off.
    pub fn inner_html_getter(&self, dom: &Dom) -> (r: String)
        requires
            dom.wf(),
            dom.has(*self),
        ensures
            r@ == markup_of(dom.shape(), dom.datas(), *self, true, false),
    {
        serialize_node(dom, *self, true, false)
    }

    /// The same as `outer_html_getter`.
    pub fn to_string_js(&self, dom: &Dom) -> (r: String)
        requires
            dom.wf(),
            dom.has(*self),
        ensures
            r@ == markup_of(dom.shape(), dom.datas(), *self, false, false),
    {
        self.outer_html_getter(dom)
    }

    /// Whether the two nodes have the same markup.
    pub fn is_equal_node(&self, dom: &Dom, other_node: &DomNode) -> (r: bool)
        requires
            dom.wf(),
            dom.has(*self),
            dom.has(*other_node),
        ensures
            r == (markup_of(dom.shape(), dom.datas(), *self, false, true) == markup_of(
                dom.shape(),
                dom.datas(),
                *other_node,
                false,
                true,
            )),
    {
        let a = self.outer_html(dom);
        let b = other_node.outer_html(dom);
        crate::text::same_str(a.as_str(), b.as_str())
    }
}

/// What hangs at the node behind a handle of the parser's tree.
pub open spec fn tree_at(h: &Rc<Node>) -> TreeModel {
    parsed_tree(**h)
}

/// Copies what hangs at a node of the parser's tree into the store, as
/// fresh nodes, and returns the copy of the node, which has no parent.
fn import_below(dom: &mut Dom, h: &Rc<Node>) -> (r: DomNode)
    requires
        old(dom).wf(),
    ensures
        final(dom).wf(),
        final(dom).extends(old(dom)),
        r.id == old(dom).count(),
        final(dom).has(r),
        final(dom).parent_of(r) is None,
        final(dom).subtree_of(r) == parsed_tree(**h),
    decreases parsed_tree(**h),
{
    let ghost want = tree_at(h);
    let top = dom.create(handle_data(h));
    let kids = handle_children(h);
    let count = kids.len();
    let mut k: usize = 0;
    proof {
        assert forall|y: DomNode| #[trigger] old(dom).has(y) implies dom.parent_of(y) == old(
            dom,
        ).parent_of(y) && dom.children_of(y) == old(dom).children_of(y) && dom.data_of(y) == old(
            dom,
        ).data_of(y) by {}
        assert(dom.children_of(top) =~= Seq::empty());
        assert(want.children.take(0) =~= forest(dom.shape(), dom.datas(), top, 0));
    }
    while k < count
        invariant
            dom.wf(),
            dom.extends(old(dom)),
            want == tree_at(h),
            top.id == old(dom).count(),
            dom.has(top),
            dom.parent_of(top) is None,
            dom.data_of(top) == want.data,
            count == kids@.len(),
            count == want.children.len(),
            forall|i: int| 0 <= i < kids@.len() ==> tree_at(&#[trigger] kids@[i]) == want.children[i],
            k <= count,
            dom.children_of(top).len() == k,
            forest(dom.shape(), dom.datas(), top, k as nat) == want.children.take(k as int),
        decreases count - k,
    {
        let ghost dom1 = *dom;
        proof {
            assert(tree_at(&kids@[k as int]) == want.children[k as int]);
            assert(decreases_to!(want => want.children[k as int]));
        }
        let copy = import_below(dom, &kids[k]);
        let ghost dom2 = *dom;
        proof {
            assert(dom1.has(top));
            assert(dom2.shape().node_ok(top));
            assert forall|y: DomNode|
                dom1.shape().has(y) && y != top && #[trigger] dom1.shape().is_ancestor(
                    top,
                    y,
                ) implies dom2.shape().has(y) && dom2.shape().children_of(y)
                == dom1.shape().children_of(y) && dom2.datas()[y.id as int]
                == dom1.datas()[y.id as int] by {
                assert(dom1.has(y));
            }
            lemma_forest_frame(
                dom1.shape(),
                dom1.datas(),
                dom2.shape(),
                dom2.datas(),
                top,
                k as nat,
            );
            assert(!dom2.is_ancestor(copy, top));
        }
        dom.attach(top, copy, k);
        proof {
            let s2 = dom2.shape();
            let s3 = dom.shape();
            s2.children_of(top).insert_ensures(k as int, copy);
            assert(s3.children_of(top) == s2.children_of(top).insert(k as int, copy));
            assert forall|y: DomNode| s2.has(y) && y != top implies s3.has(y) && s3.children_of(y)
                == s2.children_of(y) && dom.datas()[y.id as int] == dom2.datas()[y.id as int] by {}
            lemma_forest_frame(s2, dom2.datas(), s3, dom.datas(), top, k as nat);
            assert forall|y: DomNode| s2.has(y) && #[trigger] s2.is_ancestor(copy, y) implies s3.has(
                y,
            ) && s3.children_of(y) == s2.children_of(y) && dom.datas()[y.id as int]
                == dom2.datas()[y.id as int] by {
                if y == top {
                    assert(s2.is_ancestor(copy, top));
                }
            }
            lemma_subtree_frame(s2, dom2.datas(), s3, dom.datas(), copy);
            assert(s3.children_of(top)[k as int] == copy);
            lemma_child_room(s3, top, k as int);
            assert(forest(s3, dom.datas(), top, (k + 1) as nat) == forest(
                s3,
                dom.datas(),
                top,
                k as nat,
            ).push(subtree(s3, dom.datas(), copy)));
            assert(want.children.take(k + 1) =~= want.children.take(k as int).push(
                want.children[k as int],
            ));
            assert forall|y: DomNode| #[trigger] old(dom).has(y) implies dom.parent_of(y) == old(
                dom,
            ).parent_of(y) && dom.children_of(y) == old(dom).children_of(y) && dom.data_of(y)
                == old(dom).data_of(y) by {
                assert(dom1.has(y));
                assert(dom2.has(y));
            }
        }
        k += 1;
    }
    proof {
        assert(want.children.take(count as int) =~= want.children);
        let got = dom.subtree_of(top);
        assert(got.data == want.data);
        assert(got.children == want.children);
    }
    top
}

/// Copies a tree of the parser's nodes into the store, as fresh nodes, and
/// returns the copy of its top, which has no parent. The copy holds the same
/// data at every place, and children keep their order.
pub fn import_tree(dom: &mut Dom, top: Rc<Node>) -> (r: DomNode)
    requires
        old(dom).wf(),
    ensures
        final(dom).wf(),
        final(dom).extends(old(dom)),
        r.id == old(dom).count(),
        final(dom).has(r),
        final(dom).parent_of(r) is None,
        final(dom).subtree_of(r) == parsed_tree(*top),
{
    import_below(dom, &top)
}

impl Shape {
    /// The skeleton after a new node has been put between `root` and its
    /// children: the new node is the one child of `root`, and the former
    /// children of `root` are its children, in their order.
    pub open spec fn wrapped_to(self, root: DomNode, j: int) -> Shape {
        let h = DomNode { id: self.parents.len() as usize };
        Shape {
            parents: Seq::new(
                self.parents.len() + 1,
                |i: int|
                    if i == self.parents.len() {
                        Some(root)
                    } else if self.parents[i] == Some(root) && self.children_of(root).index_of(
                        DomNode { id: i as usize },
                    ) < j {
                        Some(h)
                    } else {
                        self.parents[i]
                    },
            ),
            kids: self.kids.update(root.id as int, self.children_of(root).skip(j).push(h)).push(
                self.children_of(root).take(j),
            ),
            rank: self.rank,
            bound: self.bound,
        }
    }

    /// The skeleton after a new node has been put between `root` and all of
    /// its children.
    pub open spec fn wrapped(self, root: DomNode) -> Shape {
        self.wrapped_to(root, self.children_of(root).len() as int)
    }
}

/// Whether `after` is `mid` with an `html` element given to the document
/// `root` where it had none among its children.
pub open spec fn html_ensured(after: &Dom, mid: &Dom, root: DomNode) -> bool {
    if has_html_child(mid.shape(), mid.datas(), root) {
        after.shape() == mid.shape() && after.datas() == mid.datas()
    } else {
        after.shape().same_links(mid.shape().wrapped(root)) && after.datas() == mid.datas().push(
            html_element("html"@),
        )
    }
}

/// Whether a document has an `html` element among its children.
pub open spec fn has_html_child(s: Shape, datas: Seq<NodeDataView>, root: DomNode) -> bool {
    first_kid(datas, s.children_of(root), Kind::Named("html"@), 0) < s.children_of(root).len()
}

/// Gives the document an `html` element where it has none among its
/// children: a new HTML element becomes the one child of `root`, and the
/// former children of `root` become its children, in their order.
pub fn ensure_html_root(dom: &mut Dom, root: DomNode)
    requires
        old(dom).wf(),
        old(dom).has(root),
    ensures
        final(dom).wf(),
        html_ensured(final(dom), old(dom), root),
        has_html_child(final(dom).shape(), final(dom).datas(), root),
{
    proof {
        lemma_first_kid(dom.datas(), dom.children_of(root), Kind::Named("html"@), 0);
    }
    match first_child_of_kind(dom, root, &KindQuery::Named("html"), 0) {
        Some(_) => {
            return ;
        },
        None => {},
    }
    let ghost s0 = dom.shape();
    let ghost kids0 = s0.children_of(root);
    let n = dom.child_count(root);
    let h = new_html_element(dom, "html".to_owned());
    proof {
        lemma_fresh_is_apart(s0, h, root);
    }
    dom.attach(root, h, n);
    proof {
        assert(kids0.skip(0) =~= kids0);
        assert(kids0.take(0) =~= Seq::<DomNode>::empty());
        assert(kids0.insert(n as int, h) =~= kids0.push(h));
        assert(dom.shape().kids =~= s0.wrapped_to(root, 0).kids);
        assert forall|i: int| 0 <= i < dom.shape().parents.len() implies dom.shape().parents[i]
            == s0.wrapped_to(root, 0).parents[i] by {
            let y = DomNode { id: i as usize };
            if i < s0.parents.len() && s0.parents[i] == Some(root) {
                assert(s0.parent_of(y) == Some(root));
                s0.lemma_index_of(root, y);
            }
        }
        assert(dom.shape().parents =~= s0.wrapped_to(root, 0).parents);
    }
    let mut j: usize = 0;
    while j < n
        invariant
            s0.wf(),
            s0.has(root),
            kids0 == s0.children_of(root),
            n == kids0.len(),
            h.id == s0.parents.len(),
            s0.parents.len() < usize::MAX,
            j <= n,
            dom.wf(),
            dom.has(root),
            dom.has(h),
            dom.shape().same_links(s0.wrapped_to(root, j as int)),
            dom.datas() == old(dom).datas().push(html_element("html"@)),
        decreases n - j,
    {
        let ghost s1 = dom.shape();
        assert(s1.children_of(root) == kids0.skip(j as int).push(h));
        let c = dom.child_at(root, 0);
        proof {
            assert(c == kids0[j as int]);
            lemma_child_room(s0, root, j as int);
            lemma_child_room(s1, root, 0);
            s0.lemma_index_of(root, c);
            s1.lemma_index_of(root, c);
            assert(s1.children_of(root).index_of(c) == 0);
            assert(c != h);
            assert(c != root) by {
                assert(s0.node_ok(c));
            }
            // the child does not stand above the new element
            if s1.is_ancestor(c, root) {
                s1.lemma_ancestor_rank(c, root);
                assert(s1.node_ok(c));
            }
            assert(s1.node_ok(h));
            assert(s1.parent_of(h) == Some(root));
            assert(!s1.is_ancestor(c, h));
            s1.lemma_detached_wf(c);
            s1.lemma_detached_ancestor(c, c, h);
        }
        dom.detach(c);
        let ghost s2 = dom.shape();
        proof {
            assert(s2.children_of(h) == kids0.take(j as int));
        }
        dom.attach(h, c, j);
        proof {
            let s3 = dom.shape();
            let want = s0.wrapped_to(root, j + 1);
            assert(kids0.skip(j as int).push(h).remove(0) =~= kids0.skip(j + 1).push(h));
            assert(kids0.take(j as int).insert(j as int, c) =~= kids0.take(j + 1));
            assert(s3.kids =~= want.kids);
            assert forall|i: int| 0 <= i < s3.parents.len() implies s3.parents[i]
                == want.parents[i] by {
                let y = DomNode { id: i as usize };
                if i < s0.parents.len() && s0.parents[i] == Some(root) {
                    assert(s0.parent_of(y) == Some(root));
                    s0.lemma_index_of(root, y);
                    if y != c {
                        assert(kids0.index_of(y) != j);
                    }
                }
            }
            assert(s3.parents =~= want.parents);
        }
        j += 1;
    }
    proof {
        let s = dom.shape();
        assert(kids0.skip(n as int) =~= Seq::<DomNode>::empty());
        assert(s.children_of(root) =~= seq![h]);
        assert(is_kind(dom.datas()[h.id as int], Kind::Named("html"@)));
        assert(first_kid(dom.datas(), s.children_of(root), Kind::Named("html"@), 0) == 0);
    }
}

/// Reads a document from markup into a store that may hold others. The
/// parser builds the tree; it is copied into the store as fresh nodes, and
/// the handle of its document node is returned. A document that came without
/// an `html` element among its children is given one. What the store held
/// before is left as it was.
pub fn parse_into(dom: &mut Dom, html: String) -> (root: DomNode)
    requires
        old(dom).wf(),
        markup_fits(html@),
    ensures
        final(dom).wf(),
        final(dom).extends(old(dom)),
        root.id == old(dom).count(),
        final(dom).has(root),
        final(dom).parent_of(root) is None,
        has_html_child(final(dom).shape(), final(dom).datas(), root),
        exists|mid: Dom| #[trigger]
            mid.extends(old(dom)) && mid.wf() && mid.has(root) && mid.parent_of(root) is None
                && mid.subtree_of(root) == document_tree(html@) && html_ensured(
                final(dom),
                &mid,
                root,
            ),
{
    let top = parse_document_handle(html.as_str());
    let root = import_tree(dom, top);
    let ghost mid = *dom;
    ensure_html_root(dom, root);
    proof {
        assert(mid.shape().node_ok(root));
        assert forall|y: DomNode| #[trigger] old(dom).has(y) implies dom.parent_of(y) == old(
            dom,
        ).parent_of(y) && dom.children_of(y) == old(dom).children_of(y) && dom.data_of(y) == old(
            dom,
        ).data_of(y) by {
            assert(mid.has(y));
            assert(old(dom).shape().node_ok(y));
            assert(y != root);
            if old(dom).parent_of(y) is Some {
                assert(old(dom).has(old(dom).parent_of(y).unwrap()));
            }
        }
    }
    root
}

/// Reads a document from markup into a new store, and returns the store
/// with the handle of the document node.
pub fn parse(html: String) -> (r: (Dom, DomNode))
    requires
        markup_fits(html@),
    ensures
        r.0.wf(),
        r.0.has(r.1),
        r.1.id == 0,
        r.0.parent_of(r.1) is None,
        has_html_child(r.0.shape(), r.0.datas(), r.1),
        exists|mid: Dom| #[trigger]
            mid.wf() && mid.has(r.1) && mid.parent_of(r.1) is None && mid.subtree_of(r.1)
                == document_tree(html@) && html_ensured(&r.0, &mid, r.1),
{
    let mut dom = Dom::new();
    let ghost empty = dom;
    let root = parse_into(&mut dom, html);
    proof {
        let mid = choose|mid: Dom| #[trigger]
            mid.extends(&empty) && mid.wf() && mid.has(root) && mid.parent_of(root) is None
                && mid.subtree_of(root) == document_tree(html@) && html_ensured(&dom, &mid, root);
        assert(mid.wf() && mid.has(root) && mid.parent_of(root) is None && mid.subtree_of(root)
            == document_tree(html@) && html_ensured(&dom, &mid, root));
    }
    (dom, root)
}

} // verus!
