//! Making nodes. A new node stands in no tree until it is put into one.

use crate::node::{Dom, NodeData, NodeDataView, QualName, QualNameView};
use crate::shape::DomNode;
use crate::text::{lowercase_of, to_lower};
use vstd::prelude::*;

verus! {

/// The namespace of HTML elements.
pub open spec fn html_namespace() -> Seq<char> {
    "http://www.w3.org/1999/xhtml"@
}

/// The local name that marks an element as a document fragment.
pub open spec fn fragment_name() -> Seq<char> {
    "#document-fragment"@
}

/// An HTML element with this local name and no attributes.
pub open spec fn html_element(local: Seq<char>) -> NodeDataView {
    NodeDataView::Element {
        name: QualNameView { prefix: None, ns: html_namespace(), local },
        attrs: Seq::empty(),
    }
}

/// An element without namespace, with this local name and no attributes.
pub open spec fn bare_element(local: Seq<char>) -> NodeDataView {
    NodeDataView::Element {
        name: QualNameView { prefix: None, ns: Seq::empty(), local },
        attrs: Seq::empty(),
    }
}

/// A new HTML element with this local name.
pub fn new_html_element(dom: &mut Dom, local: String) -> (r: DomNode)
    requires
        old(dom).wf(),
    ensures
        final(dom).wf(),
        r.id == old(dom).count(),
        final(dom).shape() == old(dom).shape().grown(),
        final(dom).datas() == old(dom).datas().push(html_element(local@)),
{
    let name = QualName {
        prefix: None,
        ns: "http://www.w3.org/1999/xhtml".to_owned(),
        local,
    };
    let data = NodeData::Element { name, attrs: Vec::new() };
    assert(data@->Element_attrs =~= Seq::empty());
    dom.create(data)
}

impl DomNode {
    /// A new HTML element whose local name is `tag_name` in lower case.
    pub fn create_element(&self, dom: &mut Dom, tag_name: String) -> (r: DomNode)
        requires
            old(dom).wf(),
        ensures
            final(dom).wf(),
            r.id == old(dom).count(),
            final(dom).shape() == old(dom).shape().grown(),
            final(dom).datas() == old(dom).datas().push(html_element(lowercase_of(tag_name@))),
    {
        new_html_element(dom, to_lower(tag_name.as_str()))
    }

    /// A new text node.
    pub fn create_text_node(&self, dom: &mut Dom, data: String) -> (r: DomNode)
        requires
            old(dom).wf(),
        ensures
            final(dom).wf(),
            r.id == old(dom).count(),
            final(dom).shape() == old(dom).shape().grown(),
            final(dom).datas() == old(dom).datas().push(NodeDataView::Text { contents: data@ }),
    {
        dom.create(NodeData::Text { contents: data })
    }

    /// A new comment.
    pub fn create_comment(&self, dom: &mut Dom, data: String) -> (r: DomNode)
        requires
            old(dom).wf(),
        ensures
            final(dom).wf(),
            r.id == old(dom).count(),
            final(dom).shape() == old(dom).shape().grown(),
            final(dom).datas() == old(dom).datas().push(NodeDataView::Comment { contents: data@ }),
    {
        dom.create(NodeData::Comment { contents: data })
    }

    /// A new document fragment: an element without namespace that bears the
    /// reserved local name.
    pub fn create_document_fragment(&self, dom: &mut Dom) -> (r: DomNode)
        requires
            old(dom).wf(),
        ensures
            final(dom).wf(),
            r.id == old(dom).count(),
            final(dom).shape() == old(dom).shape().grown(),
            final(dom).datas() == old(dom).datas().push(bare_element(fragment_name())),
    {
        let name = QualName {
            prefix: None,
            ns: String::new(),
            local: "#document-fragment".to_owned(),
        };
        let data = NodeData::Element { name, attrs: Vec::new() };
        assert(data@->Element_attrs =~= Seq::empty());
        dom.create(data)
    }

    /// A new processing instruction.
    pub fn create_processing_instruction(&self, dom: &mut Dom, target: String, data: String) -> (r:
        DomNode)
        requires
            old(dom).wf(),
        ensures
            final(dom).wf(),
            r.id == old(dom).count(),
            final(dom).shape() == old(dom).shape().grown(),
            final(dom).datas() == old(dom).datas().push(
                NodeDataView::ProcessingInstruction { target: target@, contents: data@ },
            ),
    {
        dom.create(NodeData::ProcessingInstruction { target, contents: data })
    }
}

} // verus!
