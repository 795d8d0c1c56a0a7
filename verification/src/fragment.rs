//! Markup put into a live tree: the text is parsed as a fragment in the
//! context of an element, what the parser wrapped around the content is
//! taken off, and the content is spliced in.

use crate::adjacent::{
    clear_children,
    in_moving_order,
    lemma_put_all_at_wf,
    place_from_name,
    place_named,
    put_all_at,
    Place,
};
use crate::factory::html_namespace;
use crate::copy::lemma_old_stays_apart;
use crate::adjacent::{lemma_appended_all, lemma_emptied_ancestor};
use crate::markup::{fragment_tree, import_tree, markup_fits, parse_fragment_handle};
use crate::tree::lemma_child_room;
use crate::node::{Dom, NodeData, NodeDataView, QualName, QualNameView};
use crate::props::{first_kid, is_kind, lemma_first_kid, node_is, Kind, KindQuery};
use crate::shape::{DomNode, Shape};
use crate::text::{lowercase_of, same_str, to_lower};
use vstd::prelude::*;

verus! {

/// The name of the element that a fragment is parsed for: the name of the
/// element given, or that of an HTML `body` where there is no element.
pub open spec fn context_name(d: Option<NodeDataView>) -> QualNameView {
    match d {
        Some(NodeDataView::Element { name, attrs }) => name,
        _ => QualNameView { prefix: None, ns: html_namespace(), local: "body"@ },
    }
}

/// The data of an optional node.
pub open spec fn data_at(datas: Seq<NodeDataView>, x: Option<DomNode>) -> Option<NodeDataView> {
    match x {
        Some(n) => Some(datas[n.id as int]),
        None => None,
    }
}

/// The name of the element that a fragment is parsed for.
pub fn context_for(dom: &Dom, x: Option<DomNode>) -> (r: QualName)
    requires
        x is Some ==> dom.has(x.unwrap()),
    ensures
        r@ == context_name(data_at(dom.datas(), x)),
{
    let found = match x {
        Some(n) => match dom.data(n) {
            NodeData::Element { name, attrs: _ } => Some(name.duplicate()),
            _ => None,
        },
        None => None,
    };
    match found {
        Some(name) => name,
        None => QualName {
            prefix: None,
            ns: "http://www.w3.org/1999/xhtml".to_owned(),
            local: "body".to_owned(),
        },
    }
}

/// The children of `top` or, where `top` has one child alone and that is
/// an `html` element, the children of that element.
pub open spec fn without_html(s: Shape, datas: Seq<NodeDataView>, top: DomNode) -> Seq<DomNode> {
    let first = s.children_of(top);
    if first.len() == 1 && is_kind(datas[first[0].id as int], Kind::Named("html"@)) {
        s.children_of(first[0])
    } else {
        first
    }
}

/// The content of a parsed fragment. The parser puts what it builds under
/// `top`. An `html` element that is the one child of `top` is taken off.
/// Where the fragment was parsed for a `body`, and a `body` element is among
/// what remains, the children of the first such element are the content, and
/// what stands beside it is dropped.
pub open spec fn unwrapped(s: Shape, datas: Seq<NodeDataView>, context_local: Seq<char>, top: DomNode) -> Seq<
    DomNode,
> {
    let rest = without_html(s, datas, top);
    if context_local == "body"@ && first_kid(datas, rest, Kind::Named("body"@), 0) < rest.len() {
        s.children_of(rest[first_kid(datas, rest, Kind::Named("body"@), 0)])
    } else {
        rest
    }
}

/// The content of a fragment is made of nodes below its top, none of
/// which comes twice.
pub proof fn lemma_unwrapped(s: Shape, datas: Seq<NodeDataView>, context_local: Seq<char>, top: DomNode)
    requires
        s.wf(),
        s.has(top),
    ensures
        unwrapped(s, datas, context_local, top).no_duplicates(),
        forall|j: int|
            0 <= j < unwrapped(s, datas, context_local, top).len() ==> s.has(
                #[trigger] unwrapped(s, datas, context_local, top)[j],
            ) && s.is_ancestor(top, unwrapped(s, datas, context_local, top)[j]) && unwrapped(
                s,
                datas,
                context_local,
                top,
            )[j] != top,
{
    let first = s.children_of(top);
    assert(s.node_ok(top));
    assert(s.is_ancestor(top, top));
    assert forall|j: int| 0 <= j < first.len() implies s.has(#[trigger] first[j])
        && s.is_ancestor(top, first[j]) && first[j] != top by {
        lemma_child_room(s, top, j);
        assert(s.node_ok(first[j]));
    }
    let rest = without_html(s, datas, top);
    assert(rest.no_duplicates() && forall|j: int|
        0 <= j < rest.len() ==> s.has(#[trigger] rest[j]) && s.is_ancestor(top, rest[j]) && rest[j]
            != top) by {
        if rest != first {
            let h = first[0];
            assert(s.node_ok(h));
            assert forall|j: int| 0 <= j < rest.len() implies s.has(#[trigger] rest[j])
                && s.is_ancestor(top, rest[j]) && rest[j] != top by {
                lemma_child_room(s, h, j);
                assert(s.node_ok(rest[j]));
                if rest[j] == top {
                    s.lemma_ancestor_rank(top, h);
                }
            }
        }
    }
    let out = unwrapped(s, datas, context_local, top);
    if out != rest {
        let i = first_kid(datas, rest, Kind::Named("body"@), 0);
        lemma_first_kid(datas, rest, Kind::Named("body"@), 0);
        let b = rest[i];
        assert(s.has(b));
        assert(s.node_ok(b));
        assert forall|j: int| 0 <= j < out.len() implies s.has(#[trigger] out[j]) && s.is_ancestor(
            top,
            out[j],
        ) && out[j] != top by {
            lemma_child_room(s, b, j);
            assert(s.node_ok(out[j]));
            if out[j] == top {
                s.lemma_ancestor_rank(top, b);
            }
        }
    }
}

/// The content of a parsed fragment whose nodes stand under `top`.
pub fn unwrap_fragment(dom: &Dom, context_local: &str, top: DomNode) -> (r: Vec<DomNode>)
    requires
        dom.wf(),
        dom.has(top),
    ensures
        r@ == unwrapped(dom.shape(), dom.datas(), context_local@, top),
        forall|j: int| 0 <= j < r.len() ==> dom.has(#[trigger] r[j]),
{
    let first = top.child_nodes(dom);
    let rest = if first.len() == 1 && node_is(dom, first[0], &KindQuery::Named("html")) {
        first[0].child_nodes(dom)
    } else {
        first
    };
    if !same_str(context_local, "body") {
        return rest;
    }
    let mut i: usize = 0;
    while i < rest.len()
        invariant
            dom.wf(),
            dom.has(top),
            i <= rest.len(),
            context_local@ == "body"@,
            rest@ == without_html(dom.shape(), dom.datas(), top),
            forall|j: int| 0 <= j < rest.len() ==> dom.has(#[trigger] rest[j]),
            first_kid(dom.datas(), rest@, Kind::Named("body"@), 0) == first_kid(
                dom.datas(),
                rest@,
                Kind::Named("body"@),
                i as int,
            ),
        decreases rest.len() - i,
    {
        proof {
            lemma_first_kid(dom.datas(), rest@, Kind::Named("body"@), i as int);
        }
        if node_is(dom, rest[i], &KindQuery::Named("body")) {
            return rest[i].child_nodes(dom);
        }
        i += 1;
    }
    proof {
        lemma_first_kid(dom.datas(), rest@, Kind::Named("body"@), i as int);
    }
    rest
}

/// Whether no node of the content of the fragment under `top` is `me`
/// or stands above it, so that all of the content can be put under `me`.
pub open spec fn kept_apart(mid: &Dom, me: DomNode, context_local: Seq<char>, top: DomNode) -> bool {
    forall|j: int|
        0 <= j < unwrapped(mid.shape(), mid.datas(), context_local, top).len() ==> !mid.is_ancestor(
            #[trigger] unwrapped(mid.shape(), mid.datas(), context_local, top)[j],
            me,
        )
}

/// Whether `after` is `mid` with the children of `me` replaced by the
/// content of the fragment under `top`.
pub open spec fn filled_from(after: &Dom, mid: &Dom, me: DomNode, context_local: Seq<char>, top: DomNode) -> bool {
    let content = unwrapped(mid.shape(), mid.datas(), context_local, top);
    after.datas() == mid.datas() && after.shape().same_links(
        put_all_at(mid.shape().emptied(me), me, content, Place::BeforeEnd, content.len()),
    )
}

/// Whether `after` is `mid` with the content of the fragment under `top`
/// put in the place of `me`, which is left without a parent. Where `me` has
/// no parent, nothing is changed.
pub open spec fn replaced_from(after: &Dom, mid: &Dom, me: DomNode, context_local: Seq<char>, top: DomNode) -> bool {
    let content = unwrapped(mid.shape(), mid.datas(), context_local, top);
    after.datas() == mid.datas() && after.shape().same_links(
        if mid.parent_of(me) is Some {
            put_all_at(mid.shape(), me, content, Place::BeforeBegin, content.len()).detached(me)
        } else {
            mid.shape()
        },
    )
}

/// Whether `after` is `mid` with the content of the fragment under `top`
/// put at the place with respect to `me`, in its order.
pub open spec fn joined_from(
    after: &Dom,
    mid: &Dom,
    me: DomNode,
    place: Place,
    context_local: Seq<char>,
    top: DomNode,
) -> bool {
    let content = unwrapped(mid.shape(), mid.datas(), context_local, top);
    after.datas() == mid.datas() && after.shape().same_links(
        put_all_at(mid.shape(), me, in_moving_order(content, place), place, content.len()),
    )
}

/// Whether `mid` is `before` with the tree that the parser builds for the
/// fragment `html` in the context of an element named `context` added to it:
/// the first new node is the top of a copy of that tree.
pub open spec fn parsed_into(mid: &Dom, before: &Dom, html: Seq<char>, context: QualNameView) -> bool {
    let top = DomNode { id: before.count() as usize };
    mid.has(top) && mid.parent_of(top) is None && mid.subtree_of(top) == fragment_tree(
        html,
        context,
    )
}

impl DomNode {
    /// Replaces the children of this node by the content of the parsed
    /// fragment under `top`. The former children are left without a parent.
    pub fn splice_inner(&self, dom: &mut Dom, context_local: &str, top: DomNode)
        requires
            old(dom).wf(),
            old(dom).has(*self),
            old(dom).has(top),
        ensures
            final(dom).wf(),
            final(dom).count() == old(dom).count(),
            filled_from(final(dom), old(dom), *self, context_local@, top),
            kept_apart(old(dom), *self, context_local@, top) ==> final(dom).children_of(*self)
                == unwrapped(old(dom).shape(), old(dom).datas(), context_local@, top) && final(dom).parent_of(*self) == old(dom).parent_of(*self),
    {
        let content = unwrap_fragment(dom, context_local, top);
        clear_children(dom, *self);
        let ghost e = dom.shape();
        self.insert_adjacent_nodes(dom, Place::BeforeEnd, &content);
        proof {
            if kept_apart(old(dom), *self, context_local@, top) {
                let s0 = old(dom).shape();
                lemma_unwrapped(s0, old(dom).datas(), context_local@, top);
                assert(s0.is_ancestor(*self, *self));
                assert forall|j: int| 0 <= j < content@.len() implies e.has(
                    #[trigger] content@[j],
                ) && !e.is_ancestor(content@[j], *self) && e.parent_of(content@[j]) != Some(
                    *self,
                ) by {
                    let c = content@[j];
                    lemma_emptied_ancestor(s0, *self, c, *self);
                    assert(!old(dom).is_ancestor(c, *self));
                    assert(DomNode { id: c.id as int as usize } == c);
                    if s0.parent_of(c) == Some(*self) {
                        s0.lemma_index_of(*self, c);
                    }
                }
                lemma_appended_all(e, *self, content@, content@.len());
                assert(!content@.contains(*self)) by {
                    if content@.contains(*self) {
                        let j = content@.index_of(*self);
                        assert(!old(dom).is_ancestor(content@[j], *self));
                    }
                }
                assert(e.parent_of(*self) == s0.parent_of(*self)) by {
                    assert(DomNode { id: self.id as int as usize } == *self);
                    assert(s0.node_ok(*self));
                }
                let u = put_all_at(e, *self, content@, Place::BeforeEnd, content@.len());
                assert(e.has(*self));
                assert(u.parent_of(*self) == e.parent_of(*self));
                assert(dom.shape().same_links(u));
                assert(dom.parent_of(*self) == u.parent_of(*self));
                assert(e.children_of(*self) =~= Seq::<DomNode>::empty());
                assert(content@.take(content@.len() as int) =~= content@);
                assert(Seq::<DomNode>::empty() + content@ =~= content@);
            }
        }
    }

    /// Puts the content of the parsed fragment under `top` in the place of
    /// this node, and leaves this node without a parent. Nothing happens where
    /// this node has no parent.
    pub fn splice_outer(&self, dom: &mut Dom, context_local: &str, top: DomNode)
        requires
            old(dom).wf(),
            old(dom).has(*self),
            old(dom).has(top),
        ensures
            final(dom).wf(),
            final(dom).count() == old(dom).count(),
            replaced_from(final(dom), old(dom), *self, context_local@, top),
    {
        match dom.parent(*self) {
            None => {},
            Some(_) => {
                let content = unwrap_fragment(dom, context_local, top);
                self.insert_adjacent_nodes(dom, Place::BeforeBegin, &content);
                proof {
                    lemma_put_all_at_wf(
                        old(dom).shape(),
                        *self,
                        content@,
                        Place::BeforeBegin,
                        content.len() as nat,
                    );
                    dom.shape().lemma_detached_wf(*self);
                }
                dom.detach(*self);
            },
        }
    }

    /// Parses `html` as a fragment in the context of this element (of a
    /// `body` where this node is no element) and replaces the children of this
    /// node by its content.
    pub fn set_inner_html(&self, dom: &mut Dom, html: String)
        requires
            old(dom).wf(),
            old(dom).has(*self),
            markup_fits(html@),
        ensures
            final(dom).wf(),
            exists|mid: Dom| #[trigger]
                mid.extends(old(dom)) && mid.wf() && mid.count() == final(dom).count()
                    && parsed_into(
                    &mid,
                    old(dom),
                    html@,
                    context_name(Some(old(dom).data_of(*self))),
                ) && filled_from(
                    final(dom),
                    &mid,
                    *self,
                    context_name(Some(old(dom).data_of(*self))).local,
                    DomNode { id: old(dom).count() as usize },
                ) && final(dom).children_of(*self) == unwrapped(
                    mid.shape(),
                    mid.datas(),
                    context_name(Some(old(dom).data_of(*self))).local,
                    DomNode { id: old(dom).count() as usize },
                ),
            final(dom).data_of(*self) == old(dom).data_of(*self),
            final(dom).parent_of(*self) == old(dom).parent_of(*self),
            forall|k: int|
                0 <= k < final(dom).children_of(*self).len() ==> !old(dom).has(
                    #[trigger] final(dom).children_of(*self)[k],
                ),
    {
        let context = context_for(dom, Some(*self));
        let parsed = parse_fragment_handle(html.as_str(), &context);
        let top = import_tree(dom, parsed);
        let ghost mid = *dom;
        proof {
            assert(mid.extends(old(dom)));
            assert(mid.has(*self));
            lemma_unwrapped(mid.shape(), mid.datas(), context.local@, top);
            let content = unwrapped(mid.shape(), mid.datas(), context.local@, top);
            assert forall|j: int| 0 <= j < content.len() implies !old(dom).has(
                #[trigger] content[j],
            ) && !mid.is_ancestor(content[j], *self) by {
                let c = content[j];
                if old(dom).has(c) {
                    lemma_old_stays_apart(old(dom), &mid, top, c);
                }
                lemma_old_stays_apart(old(dom), &mid, c, *self);
            }
            assert(kept_apart(&mid, *self, context.local@, top));
        }
        self.splice_inner(dom, context.local.as_str(), top);
    }

    /// Parses `html` as a fragment in the context of this node's parent (of
    /// a `body` where that is no element) and puts its content in the place of
    /// this node. Nothing happens where this node has no parent.
    pub fn set_outer_html(&self, dom: &mut Dom, html: String)
        requires
            old(dom).wf(),
            old(dom).has(*self),
            markup_fits(html@),
        ensures
            final(dom).wf(),
            old(dom).parent_of(*self) is None ==> final(dom).shape() == old(dom).shape()
                && final(dom).datas() == old(dom).datas(),
            old(dom).parent_of(*self) is Some ==> exists|mid: Dom| #[trigger]
                mid.extends(old(dom)) && mid.wf() && mid.count() == final(dom).count()
                    && parsed_into(
                    &mid,
                    old(dom),
                    html@,
                    context_name(data_at(old(dom).datas(), old(dom).parent_of(*self))),
                ) && replaced_from(
                    final(dom),
                    &mid,
                    *self,
                    context_name(data_at(old(dom).datas(), old(dom).parent_of(*self))).local,
                    DomNode { id: old(dom).count() as usize },
                ),
    {
        proof {
            assert(old(dom).shape().node_ok(*self));
        }
        match dom.parent(*self) {
            None => {},
            Some(p) => {
                let context = context_for(dom, Some(p));
                let parsed = parse_fragment_handle(html.as_str(), &context);
                let top = import_tree(dom, parsed);
                let ghost mid = *dom;
                self.splice_outer(dom, context.local.as_str(), top);
                proof {
                    assert(mid.extends(old(dom)));
                }
            },
        }
    }

    /// Parses `html` as a fragment in the context of this node's parent (of
    /// a `body` where there is none, or none that is an element) and puts its
    /// content at the place that `position` names with respect to this node.
    /// Nothing happens for a name that names no place.
    pub fn insert_adjacent_html(&self, dom: &mut Dom, position: String, html: String)
        requires
            old(dom).wf(),
            old(dom).has(*self),
            markup_fits(html@),
        ensures
            final(dom).wf(),
            match place_named(lowercase_of(position@)) {
                None => final(dom).shape() == old(dom).shape() && final(dom).datas() == old(
                    dom,
                ).datas(),
                Some(place) => exists|mid: Dom| #[trigger]
                    mid.extends(old(dom)) && mid.wf() && mid.count() == final(dom).count()
                        && parsed_into(
                        &mid,
                        old(dom),
                        html@,
                        context_name(data_at(old(dom).datas(), old(dom).parent_of(*self))),
                    ) && joined_from(
                        final(dom),
                        &mid,
                        *self,
                        place,
                        context_name(data_at(old(dom).datas(), old(dom).parent_of(*self))).local,
                        DomNode { id: old(dom).count() as usize },
                    ),
            },
    {
        proof {
            assert(old(dom).shape().node_ok(*self));
        }
        let name = to_lower(position.as_str());
        match place_from_name(name.as_str()) {
            None => {},
            Some(place) => {
                let context = context_for(dom, dom.parent(*self));
                let parsed = parse_fragment_handle(html.as_str(), &context);
                let top = import_tree(dom, parsed);
                let ghost mid = *dom;
                let content = unwrap_fragment(dom, context.local.as_str(), top);
                self.insert_adjacent_nodes(dom, place, &content);
                proof {
                    assert(mid.extends(old(dom)));
                }
            },
        }
    }
}

} // verus!
