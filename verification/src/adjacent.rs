//! Replacing all children of a node by a text, and putting nodes next to a
//! node or at either end of its child list.

use crate::chardata::lemma_fresh_is_apart;
use crate::modify::{appended, prepended, put_beside};
use crate::node::{Dom, NodeData, NodeDataView};
use crate::shape::{DomNode, Shape};
use crate::text::{lowercase_of, same_str, to_lower};
use crate::tree::lemma_child_room;
use vstd::prelude::*;

verus! {

impl Shape {
    /// The skeleton after the children of `x` from index `m` on have been
    /// taken out of its child list.
    pub open spec fn emptied_to(self, x: DomNode, m: int) -> Shape {
        Shape {
            parents: Seq::new(
                self.parents.len(),
                |i: int|
                    if self.parents[i] == Some(x) && self.children_of(x).index_of(
                        DomNode { id: i as usize },
                    ) >= m {
                        None
                    } else {
                        self.parents[i]
                    },
            ),
            kids: self.kids.update(x.id as int, self.children_of(x).take(m)),
            rank: self.rank,
            bound: self.bound,
        }
    }

    /// The skeleton after every child of `x` has been taken out of its
    /// child list.
    pub open spec fn emptied(self, x: DomNode) -> Shape {
        self.emptied_to(x, 0)
    }

    /// Taking out the children from the end of the list on takes out none.
    pub proof fn lemma_emptied_start(self, x: DomNode)
        requires
            self.wf(),
            self.has(x),
        ensures
            self.emptied_to(x, self.children_of(x).len() as int) == self,
    {
        let e = self.emptied_to(x, self.children_of(x).len() as int);
        assert(self.children_of(x).take(self.children_of(x).len() as int) =~= self.children_of(x));
        assert(e.kids =~= self.kids);
        assert forall|i: int| 0 <= i < self.parents.len() implies e.parents[i]
            == self.parents[i] by {
            let n = DomNode { id: i as usize };
            if self.parents[i] == Some(x) {
                assert(self.parent_of(n) == Some(x));
                self.lemma_index_of(x, n);
            }
        }
        assert(e.parents =~= self.parents);
    }

    /// Taking out one more child, the last that is left, is one step of emptying.
    pub proof fn lemma_emptied_step(self, x: DomNode, m: int)
        requires
            self.wf(),
            self.has(x),
            0 < m <= self.children_of(x).len(),
            self.emptied_to(x, m).wf(),
        ensures
            self.emptied_to(x, m).detached(self.children_of(x)[m - 1]) == self.emptied_to(x, m - 1),
    {
        let cur = self.emptied_to(x, m);
        let c = self.children_of(x)[m - 1];
        let kids = self.children_of(x);
        lemma_child_room(self, x, m - 1);
        self.lemma_index_of(x, c);
        assert(kids.index_of(c) == m - 1);
        assert(cur.parent_of(c) == Some(x)) by {
            assert(DomNode { id: c.id as int as usize } == c);
        }
        assert(cur.children_of(x) == kids.take(m));
        assert(kids.take(m)[m - 1] == c);
        cur.lemma_index_of(x, c);
        assert(cur.children_of(x).index_of(c) == m - 1);
        let d = cur.detached(c);
        let want = self.emptied_to(x, m - 1);
        assert(kids.take(m).remove(m - 1) =~= kids.take(m - 1));
        assert(d.kids =~= want.kids);
        assert forall|i: int| 0 <= i < self.parents.len() implies d.parents[i]
            == want.parents[i] by {
            let n = DomNode { id: i as usize };
            if self.parents[i] == Some(x) {
                assert(self.parent_of(n) == Some(x));
                self.lemma_index_of(x, n);
                if n != c {
                    assert(kids.index_of(n) != m - 1);
                }
            }
        }
        assert(d.parents =~= want.parents);
    }
}

/// Takes every child of `x` out of its child list.
pub fn clear_children(dom: &mut Dom, x: DomNode)
    requires
        old(dom).wf(),
        old(dom).has(x),
    ensures
        final(dom).wf(),
        final(dom).datas() == old(dom).datas(),
        final(dom).shape() == old(dom).shape().emptied(x),
{
    let mut m = dom.child_count(x);
    proof {
        old(dom).shape().lemma_emptied_start(x);
    }
    while m > 0
        invariant
            old(dom).wf(),
            old(dom).has(x),
            dom.wf(),
            m <= old(dom).children_of(x).len(),
            dom.datas() == old(dom).datas(),
            dom.shape() == old(dom).shape().emptied_to(x, m as int),
        decreases m,
    {
        assert(dom.children_of(x) == old(dom).children_of(x).take(m as int));
        let c = dom.child_at(x, m - 1);
        proof {
            lemma_child_room(old(dom).shape(), x, m - 1);
            old(dom).shape().lemma_emptied_step(x, m as int);
        }
        dom.detach(c);
        m -= 1;
    }
}

/// Where a node is put with respect to another.
#[derive(Clone, Copy, PartialEq, Eq, Structural, Debug)]
pub enum Place {
    /// Right before the other node, under the same parent.
    BeforeBegin,
    /// As the first child of the other node.
    AfterBegin,
    /// As the last child of the other node.
    BeforeEnd,
    /// Right after the other node, under the same parent.
    AfterEnd,
}

/// The place that a name in lower case stands for.
pub open spec fn place_named(name: Seq<char>) -> Option<Place> {
    if name == "beforebegin"@ {
        Some(Place::BeforeBegin)
    } else if name == "afterbegin"@ {
        Some(Place::AfterBegin)
    } else if name == "beforeend"@ {
        Some(Place::BeforeEnd)
    } else if name == "afterend"@ {
        Some(Place::AfterEnd)
    } else {
        None
    }
}

/// The place that a name in lower case stands for.
pub fn place_from_name(name: &str) -> (r: Option<Place>)
    ensures
        r == place_named(name@),
{
    if same_str(name, "beforebegin") {
        Some(Place::BeforeBegin)
    } else if same_str(name, "afterbegin") {
        Some(Place::AfterBegin)
    } else if same_str(name, "beforeend") {
        Some(Place::BeforeEnd)
    } else if same_str(name, "afterend") {
        Some(Place::AfterEnd)
    } else {
        None
    }
}

/// The links after `n` has been moved to the place with respect to `me`.
pub open spec fn put_at(s: Shape, me: DomNode, n: DomNode, place: Place) -> Shape {
    match place {
        Place::BeforeBegin => put_beside(s, me, n, 0),
        Place::AfterBegin => prepended(s, me, n),
        Place::BeforeEnd => appended(s, me, n),
        Place::AfterEnd => put_beside(s, me, n, 1),
    }
}

/// The links after the first `k` of the nodes have been moved to the place
/// with respect to `me`, one after the other.
pub open spec fn put_all_at(s: Shape, me: DomNode, nodes: Seq<DomNode>, place: Place, k: nat) -> Shape
    decreases k,
{
    if k == 0 {
        s
    } else {
        put_at(put_all_at(s, me, nodes, place, (k - 1) as nat), me, nodes[k - 1], place)
    }
}

/// The nodes in the order in which they are moved so that they end up in
/// the order given: as given where each is put before the place of the last,
/// backwards where each is put in front of the one before.
pub open spec fn in_moving_order(nodes: Seq<DomNode>, place: Place) -> Seq<DomNode> {
    match place {
        Place::BeforeBegin => nodes,
        Place::BeforeEnd => nodes,
        Place::AfterBegin => nodes.reverse(),
        Place::AfterEnd => nodes.reverse(),
    }
}

/// Whether a node stands above another depends on the links alone.
pub proof fn lemma_links_ancestor(s1: Shape, s2: Shape, a: DomNode, x: DomNode)
    requires
        s1.wf(),
        s2.wf(),
        s1.same_links(s2),
        s1.has(x),
    ensures
        s1.is_ancestor(a, x) == s2.is_ancestor(a, x),
    decreases s1.rank_of(x),
{
    assert(s1.node_ok(x));
    assert(s2.has(x));
    match s1.parent_of(x) {
        Some(p) => {
            lemma_links_ancestor(s1, s2, a, p);
        },
        None => {},
    }
}

/// Putting a node at a place leaves a forest, of as many nodes.
pub proof fn lemma_put_at_wf(s: Shape, me: DomNode, n: DomNode, place: Place)
    requires
        s.wf(),
        s.has(me),
        s.has(n),
    ensures
        put_at(s, me, n, place).wf(),
        put_at(s, me, n, place).parents.len() == s.parents.len(),
{
    let d = s.detached(n);
    s.lemma_detached_wf(n);
    match place {
        Place::AfterBegin => {
            if !s.is_ancestor(n, me) {
                s.lemma_moved(me, n, 0);
            }
        },
        Place::BeforeEnd => {
            if !s.is_ancestor(n, me) {
                s.lemma_moved(me, n, d.children_of(me).len() as int);
            }
        },
        _ => {
            let offset: int = if place == Place::BeforeBegin {
                0
            } else {
                1
            };
            assert(s.is_ancestor(me, me));
            if s.parent_of(me) is None || s.is_ancestor(n, me) {
            } else {
                let p = s.parent_of(me).unwrap();
                assert(n != me);
                assert(s.node_ok(me));
                s.lemma_detached_ancestor(n, n, p);
                d.lemma_index_of(p, me);
                d.lemma_attached_wf(p, n, d.children_of(p).index_of(me) + offset);
            }
        },
    }
}

/// Where a node ends up when it is put at a place depends on the links alone.
pub proof fn lemma_put_at_links(s1: Shape, s2: Shape, me: DomNode, n: DomNode, place: Place)
    requires
        s1.wf(),
        s2.wf(),
        s1.same_links(s2),
        s1.has(me),
        s1.has(n),
    ensures
        put_at(s1, me, n, place).same_links(put_at(s2, me, n, place)),
{
    lemma_links_ancestor(s1, s2, n, me);
    let d1 = s1.detached(n);
    let d2 = s2.detached(n);
    assert(d1.same_links(d2));
}

/// Putting a parentless node under another leaves what stands above a
/// node as it was, where the node put is not among it.
pub proof fn lemma_attached_ancestor(s: Shape, p: DomNode, n: DomNode, pos: int, a: DomNode, x: DomNode)
    requires
        s.wf(),
        s.has(p),
        s.has(n),
        s.parent_of(n) is None,
        !s.is_ancestor(n, p),
        0 <= pos <= s.children_of(p).len(),
        s.has(x),
        !s.is_ancestor(n, x),
    ensures
        s.attached(p, n, pos).is_ancestor(a, x) == s.is_ancestor(a, x),
    decreases s.rank_of(x),
{
    s.lemma_attached_wf(p, n, pos);
    let t = s.attached(p, n, pos);
    assert(s.node_ok(x));
    assert(x != n);
    assert(t.has(x));
    assert(t.parent_of(x) == s.parent_of(x));
    match s.parent_of(x) {
        Some(q) => {
            lemma_attached_ancestor(s, p, n, pos, a, q);
        },
        None => {},
    }
}

/// Emptying a node leaves what stands above it as it was.
pub proof fn lemma_emptied_ancestor(s: Shape, x: DomNode, a: DomNode, y: DomNode)
    requires
        s.wf(),
        s.emptied(x).wf(),
        s.has(x),
        s.has(y),
        s.is_ancestor(y, x),
    ensures
        s.emptied(x).is_ancestor(a, y) == s.is_ancestor(a, y),
    decreases s.rank_of(y),
{
    let e = s.emptied(x);
    assert(s.node_ok(y));
    assert(e.has(y));
    assert(DomNode { id: y.id as int as usize } == y);
    if s.parent_of(y) == Some(x) {
        // a child of `x` does not stand above `x`
        s.lemma_ancestor_rank(y, x);
    }
    assert(e.parent_of(y) == s.parent_of(y));
    match s.parent_of(y) {
        Some(q) => {
            assert(s.is_ancestor(q, y)) by {
                assert(s.is_ancestor(q, q));
            }
            s.lemma_ancestor_transitive(q, y, x);
            lemma_emptied_ancestor(s, x, a, q);
        },
        None => {},
    }
}

/// Nodes that are put last under a node, one after the other, end up as
/// its last children, in their order, where none of them is the node or
/// stands above it, none is its child already, and none comes twice.
pub proof fn lemma_appended_all(s: Shape, me: DomNode, nodes: Seq<DomNode>, k: nat)
    requires
        s.wf(),
        s.has(me),
        k <= nodes.len(),
        nodes.no_duplicates(),
        forall|j: int| 0 <= j < nodes.len() ==> s.has(#[trigger] nodes[j]) && !s.is_ancestor(
            nodes[j],
            me,
        ) && s.parent_of(nodes[j]) != Some(me),
    ensures
        put_all_at(s, me, nodes, Place::BeforeEnd, k).wf(),
        put_all_at(s, me, nodes, Place::BeforeEnd, k).parents.len() == s.parents.len(),
        put_all_at(s, me, nodes, Place::BeforeEnd, k).children_of(me) == s.children_of(me)
            + nodes.take(k as int),
        forall|j: int|
            k <= j < nodes.len() ==> !put_all_at(s, me, nodes, Place::BeforeEnd, k).is_ancestor(
                #[trigger] nodes[j],
                me,
            ) && put_all_at(s, me, nodes, Place::BeforeEnd, k).parent_of(nodes[j]) != Some(me),
        forall|y: DomNode|
            s.has(y) && !nodes.contains(y) ==> #[trigger] put_all_at(
                s,
                me,
                nodes,
                Place::BeforeEnd,
                k,
            ).parent_of(y) == s.parent_of(y),
    decreases k,
{
    if k == 0 {
        assert(s.children_of(me) + nodes.take(0) =~= s.children_of(me));
    } else {
        lemma_appended_all(s, me, nodes, (k - 1) as nat);
        let t = put_all_at(s, me, nodes, Place::BeforeEnd, (k - 1) as nat);
        let n = nodes[k - 1];
        let u = put_all_at(s, me, nodes, Place::BeforeEnd, k);
        assert(u == appended(t, me, n));
        assert(!t.is_ancestor(n, me));
        let d = t.detached(n);
        t.lemma_detached_wf(n);
        assert(t.node_ok(me));
        assert(t.has(n));
        assert(t.parent_of(nodes[k - 1]) != Some(me));
        assert(d.children_of(me) == t.children_of(me)) by {
            assert(t.node_ok(n));
            match t.parent_of(n) {
                Some(q) => {
                    assert(q != me);
                    assert(q.id != me.id);
                    assert(t.has(q));
                },
                None => {},
            }
        }
        let pos = d.children_of(me).len() as int;
        t.lemma_moved(me, n, pos);
        t.lemma_detached_ancestor(n, n, me);
        assert(u.children_of(me) == d.children_of(me).insert(pos, n));
        assert(d.children_of(me).insert(pos, n) =~= d.children_of(me).push(n));
        assert(nodes.take(k as int) =~= nodes.take(k - 1).push(n));
        assert(u.children_of(me) =~= s.children_of(me) + nodes.take(k as int));
        assert forall|j: int| k <= j < nodes.len() implies !u.is_ancestor(#[trigger] nodes[j], me)
            && u.parent_of(nodes[j]) != Some(me) by {
            let w = nodes[j];
            assert(w != n);
            assert(!t.is_ancestor(w, me) && t.parent_of(w) != Some(me));
            t.lemma_detached_ancestor(n, w, me);
            lemma_attached_ancestor(d, me, n, pos, w, me);
            assert(d.parent_of(w) == t.parent_of(w));
            assert(u.parent_of(w) == d.parent_of(w));
        }
        assert forall|y: DomNode| s.has(y) && !nodes.contains(y) implies #[trigger] u.parent_of(y)
            == s.parent_of(y) by {
            assert(nodes.contains(n));
            assert(y != n);
            assert(t.parent_of(y) == s.parent_of(y));
            assert(d.parent_of(y) == t.parent_of(y));
            assert(u.parent_of(y) == d.parent_of(y));
        }
    }
}

/// Putting nodes at a place, one after the other, leaves a forest.
pub proof fn lemma_put_all_at_wf(s: Shape, me: DomNode, nodes: Seq<DomNode>, place: Place, k: nat)
    requires
        s.wf(),
        s.has(me),
        k <= nodes.len(),
        forall|j: int| 0 <= j < nodes.len() ==> s.has(#[trigger] nodes[j]),
    ensures
        put_all_at(s, me, nodes, place, k).wf(),
        put_all_at(s, me, nodes, place, k).parents.len() == s.parents.len(),
    decreases k,
{
    if k > 0 {
        lemma_put_all_at_wf(s, me, nodes, place, (k - 1) as nat);
        let prev = put_all_at(s, me, nodes, place, (k - 1) as nat);
        assert(s.has(nodes[k - 1]));
        lemma_put_at_wf(prev, me, nodes[k - 1], place);
    }
}

impl DomNode {
    /// Moves the nodes to the place with respect to this node, so that they
    /// stand there in the order given.
    pub fn insert_adjacent_nodes(&self, dom: &mut Dom, place: Place, nodes: &Vec<DomNode>)
        requires
            old(dom).wf(),
            old(dom).has(*self),
            forall|j: int| 0 <= j < nodes.len() ==> old(dom).has(#[trigger] nodes[j]),
        ensures
            final(dom).wf(),
            final(dom).datas() == old(dom).datas(),
            final(dom).count() == old(dom).count(),
            final(dom).shape().same_links(
                put_all_at(
                    old(dom).shape(),
                    *self,
                    in_moving_order(nodes@, place),
                    place,
                    nodes.len() as nat,
                ),
            ),
    {
        let n = nodes.len();
        let forward = match place {
            Place::BeforeBegin => true,
            Place::BeforeEnd => true,
            _ => false,
        };
        let ghost order = in_moving_order(nodes@, place);
        let ghost s0 = dom.shape();
        assert(order.len() == n);
        assert forall|j: int| 0 <= j < order.len() implies s0.has(#[trigger] order[j]) by {
            if forward {
                assert(order[j] == nodes[j]);
            } else {
                assert(order[j] == nodes[n - 1 - j]);
            }
        }
        let mut k: usize = 0;
        while k < n
            invariant
                s0.wf(),
                s0 == old(dom).shape(),
                s0.has(*self),
                n == nodes.len(),
                order == in_moving_order(nodes@, place),
                order.len() == n,
                forward == (place == Place::BeforeBegin || place == Place::BeforeEnd),
                forall|j: int| 0 <= j < order.len() ==> s0.has(#[trigger] order[j]),
                k <= n,
                dom.wf(),
                dom.datas() == old(dom).datas(),
                dom.count() == old(dom).count(),
                dom.shape().same_links(put_all_at(s0, *self, order, place, k as nat)),
            decreases n - k,
        {
            let next = if forward {
                nodes[k]
            } else {
                nodes[n - 1 - k]
            };
            proof {
                assert(next == order[k as int]);
                assert(s0.has(order[k as int]));
                lemma_put_all_at_wf(s0, *self, order, place, k as nat);
                lemma_put_at_links(
                    dom.shape(),
                    put_all_at(s0, *self, order, place, k as nat),
                    *self,
                    next,
                    place,
                );
            }
            self.insert_adjacent(dom, place, &next);
            k += 1;
        }
    }

    /// Moves `n` to the place with respect to this node. Nothing happens
    /// where that would put `n` below itself.
    pub fn insert_adjacent(&self, dom: &mut Dom, place: Place, n: &DomNode)
        requires
            old(dom).wf(),
            old(dom).has(*self),
            old(dom).has(*n),
        ensures
            final(dom).wf(),
            final(dom).datas() == old(dom).datas(),
            final(dom).shape().same_links(put_at(old(dom).shape(), *self, *n, place)),
            final(dom).count() == old(dom).count(),
    {
        match place {
            Place::BeforeBegin => self.before(dom, n),
            Place::AfterBegin => self.prepend(dom, n),
            Place::BeforeEnd => self.append(dom, n),
            Place::AfterEnd => self.after(dom, n),
        }
    }

    /// Moves `element` to the place that `position` names with respect to
    /// this node: `beforebegin`, `afterbegin`, `beforeend` or `afterend`, in
    /// letters of any case. Nothing happens for any other name.
    pub fn insert_adjacent_element(&self, dom: &mut Dom, position: String, element: &DomNode)
        requires
            old(dom).wf(),
            old(dom).has(*self),
            old(dom).has(*element),
        ensures
            final(dom).wf(),
            final(dom).datas() == old(dom).datas(),
            final(dom).shape().same_links(
                match place_named(lowercase_of(position@)) {
                    Some(place) => put_at(old(dom).shape(), *self, *element, place),
                    None => old(dom).shape(),
                },
            ),
    {
        let name = to_lower(position.as_str());
        match place_from_name(name.as_str()) {
            Some(place) => self.insert_adjacent(dom, place, element),
            None => {},
        }
    }

    /// Puts a new text node at the place that `position` names with
    /// respect to this node. Nothing happens for a name that names no place.
    pub fn insert_adjacent_text(&self, dom: &mut Dom, position: String, text: String)
        requires
            old(dom).wf(),
            old(dom).has(*self),
        ensures
            final(dom).wf(),
            match place_named(lowercase_of(position@)) {
                Some(place) => final(dom).datas() == old(dom).datas().push(
                    NodeDataView::Text { contents: text@ },
                ) && final(dom).shape().same_links(
                    put_at(
                        old(dom).shape().grown(),
                        *self,
                        DomNode { id: old(dom).count() as usize },
                        place,
                    ),
                ),
                None => final(dom).datas() == old(dom).datas() && final(dom).shape() == old(
                    dom,
                ).shape(),
            },
    {
        let name = to_lower(position.as_str());
        match place_from_name(name.as_str()) {
            Some(place) => {
                let t = dom.create(NodeData::Text { contents: text });
                self.insert_adjacent(dom, place, &t);
            },
            None => {},
        }
    }

    /// Replaces the children of this node by one new text node. The former
    /// children are left without a parent.
    pub fn set_text_content(&self, dom: &mut Dom, text: String)
        requires
            old(dom).wf(),
            old(dom).has(*self),
        ensures
            final(dom).wf(),
            final(dom).datas() == old(dom).datas().push(NodeDataView::Text { contents: text@ }),
            final(dom).shape().same_links(
                old(dom).shape().emptied(*self).grown().attached(
                    *self,
                    DomNode { id: old(dom).count() as usize },
                    0,
                ),
            ),
            final(dom).children_of(*self) == seq![DomNode { id: old(dom).count() as usize }],
    {
        clear_children(dom, *self);
        let ghost e = dom.shape();
        let t = dom.create(NodeData::Text { contents: text });
        proof {
            lemma_fresh_is_apart(e, t, *self);
            assert(e.children_of(*self) =~= Seq::empty());
        }
        dom.attach(*self, t, 0);
        proof {
            assert(dom.children_of(*self) =~= seq![t]);
        }
    }
}

} // verus!
