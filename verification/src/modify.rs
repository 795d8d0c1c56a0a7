//! Moving nodes: taking a node out of its tree and putting it into another
//! place. Every operation that places a node first takes it out of wherever
//! it stands, and refuses to put a node below itself.

use crate::node::{position_of, Dom};
use crate::shape::{DomNode, Shape};
use vstd::prelude::*;

verus! {

/// Why an insertion was refused.
#[derive(Clone, Copy, PartialEq, Eq, Structural, Debug)]
pub enum DomError {
    /// The reference node given to an insertion is not a child of the parent.
    ReferenceNotChild,
    /// The node to be replaced is not a child of the parent.
    ReplacedNotChild,
    /// The node to be placed is the destination or stands above it.
    WouldCycle,
}

/// The handle behind an optional reference.
pub open spec fn deref_opt(r: Option<&DomNode>) -> Option<DomNode> {
    match r {
        Some(n) => Some(*n),
        None => None,
    }
}

/// What an insertion before a reference returns: the first error that
/// applies, else the node that was placed.
pub open spec fn insert_before_outcome(
    s: Shape,
    p: DomNode,
    n: DomNode,
    reference: Option<DomNode>,
) -> Result<DomNode, DomError> {
    if reference is Some && s.parent_of(reference.unwrap()) != Some(p) {
        Err(DomError::ReferenceNotChild)
    } else if s.is_ancestor(n, p) {
        Err(DomError::WouldCycle)
    } else {
        Ok(n)
    }
}

/// What a replacement returns: the first error that applies, else the node
/// that was displaced.
pub open spec fn replace_child_outcome(
    s: Shape,
    p: DomNode,
    n: DomNode,
    old_child: DomNode,
) -> Result<DomNode, DomError> {
    if s.parent_of(old_child) != Some(p) {
        Err(DomError::ReplacedNotChild)
    } else if s.is_ancestor(n, p) {
        Err(DomError::WouldCycle)
    } else {
        Ok(old_child)
    }
}

impl DomError {
    /// The text a caller sees for the error.
    pub fn message(&self) -> (s: &'static str)
        ensures
            s@ == match *self {
                DomError::ReferenceNotChild =>
                    "The node before which the new node is to be inserted is not a child of this node."@,
                DomError::ReplacedNotChild =>
                    "The node to be replaced is not a child of this node."@,
                DomError::WouldCycle => "The new child contains the parent."@,
            },
    {
        match self {
            DomError::ReferenceNotChild =>
                "The node before which the new node is to be inserted is not a child of this node.",
            DomError::ReplacedNotChild => "The node to be replaced is not a child of this node.",
            DomError::WouldCycle => "The new child contains the parent.",
        }
    }
}

/// The links after `n` has been put last under `p`; unchanged where `n` is
/// `p` or stands above it.
pub open spec fn appended(s: Shape, p: DomNode, n: DomNode) -> Shape {
    if s.is_ancestor(n, p) {
        s
    } else {
        s.moved(p, n, s.detached(n).children_of(p).len() as int)
    }
}

/// The links after `n` has been put first under `p`; unchanged where `n` is
/// `p` or stands above it.
pub open spec fn prepended(s: Shape, p: DomNode, n: DomNode) -> Shape {
    if s.is_ancestor(n, p) {
        s
    } else {
        s.moved(p, n, 0)
    }
}

/// The links after `n` has been put next to `me`, `offset` places after the
/// index of `me` in its parent's child list. Unchanged where `me` has no
/// parent, where `n` is `me`, and where `n` stands above `me`.
pub open spec fn put_beside(s: Shape, me: DomNode, n: DomNode, offset: int) -> Shape {
    if s.parent_of(me) is None || s.is_ancestor(n, me) {
        s
    } else {
        let d = s.detached(n);
        let p = s.parent_of(me).unwrap();
        d.attached(p, n, d.children_of(p).index_of(me) + offset)
    }
}

/// The links after `n`, which stands in no tree, has been put right after
/// `me`; where `me` has no parent, nothing changes.
pub open spec fn placed_after(s: Shape, me: DomNode, n: DomNode) -> Shape {
    put_beside(s, me, n, 1)
}

/// The links after `n` has taken the place of `old_child` under `p`, and
/// `old_child` has been left without a parent. Where the two are one node,
/// that node stays where it is.
pub open spec fn replaced(s: Shape, p: DomNode, n: DomNode, old_child: DomNode) -> Shape {
    if n == old_child {
        s
    } else {
        let d = s.detached(n);
        d.detached(old_child).attached(p, n, d.children_of(p).index_of(old_child))
    }
}

/// The links after `n` has been put before `reference` under `p`, or last
/// under `p` where no reference is given. Where `n` is the reference itself,
/// it stays where it is.
pub open spec fn inserted_before(s: Shape, p: DomNode, n: DomNode, reference: Option<DomNode>) -> Shape {
    match reference {
        None => s.moved(p, n, s.detached(n).children_of(p).len() as int),
        Some(r) => if n == r {
            s
        } else {
            s.moved(p, n, s.detached(n).children_of(p).index_of(r))
        },
    }
}

/// Puts `n` beside `me`, `offset` places after the index of `me`.
fn place_beside(dom: &mut Dom, me: DomNode, n: DomNode, offset: usize)
    requires
        old(dom).wf(),
        old(dom).has(me),
        old(dom).has(n),
        offset <= 1,
    ensures
        final(dom).wf(),
        final(dom).datas() == old(dom).datas(),
        final(dom).shape().same_links(put_beside(old(dom).shape(), me, n, offset as int)),
        n != me && !old(dom).is_ancestor(n, me) && old(dom).parent_of(me) is Some ==> {
            let p = old(dom).parent_of(me).unwrap();
            let k = final(dom).children_of(p).index_of(me);
            &&& final(dom).shape().placed(p, n)
            &&& final(dom).parent_of(me) == Some(p)
            &&& 0 <= k < final(dom).children_of(p).len()
            &&& 0 <= k + 2 * offset - 1 < final(dom).children_of(p).len()
            &&& final(dom).children_of(p)[k + 2 * offset - 1] == n
        },
{
    proof {
        assert(old(dom).is_ancestor(me, me));
    }
    if dom.parent(me).is_none() || dom.is_inclusive_ancestor(n, me) {
        return ;
    }
    proof {
        old(dom).shape().lemma_detached_wf(n);
    }
    dom.detach(n);
    match dom.parent(me) {
        None => {},
        Some(p) => {
            proof {
                assert(n != me);
                assert(old(dom).shape().node_ok(me));
                old(dom).shape().lemma_detached_ancestor(n, n, p);
                dom.shape().lemma_index_of(p, me);
            }
            let at = position_of(&dom.nodes[p.id].children, me);
            match at {
                Some(k) => {
                    let ghost d = dom.shape();
                    proof {
                        d.lemma_attached_wf(p, n, k + offset);
                        d.children_of(p).insert_ensures(k + offset, n);
                    }
                    dom.attach(p, n, k + offset);
                    proof {
                        let t = dom.shape();
                        t.lemma_placed(p, n);
                        t.lemma_index_of(p, me);
                        if offset == 1 {
                            assert(t.children_of(p)[k as int] == me);
                        } else {
                            assert(t.children_of(p)[k + 1] == me);
                        }
                    }
                },
                None => {},
            }
        },
    }
}

/// Puts `n` in the place of `old_child` under `p`.
fn swap_in(dom: &mut Dom, p: DomNode, n: DomNode, old_child: DomNode)
    requires
        old(dom).wf(),
        old(dom).has(p),
        old(dom).has(n),
        old(dom).has(old_child),
        old(dom).parent_of(old_child) == Some(p),
        !old(dom).is_ancestor(n, p),
    ensures
        final(dom).wf(),
        final(dom).datas() == old(dom).datas(),
        final(dom).shape().same_links(replaced(old(dom).shape(), p, n, old_child)),
        final(dom).shape().placed(p, n),
        n != old_child ==> final(dom).parent_of(old_child) is None,
{
    if n.id == old_child.id {
        proof {
            old(dom).shape().lemma_placed(p, n);
        }
        return ;
    }
    proof {
        old(dom).shape().lemma_detached_wf(n);
    }
    dom.detach(n);
    let ghost d = dom.shape();
    proof {
        old(dom).shape().lemma_detached_ancestor(n, n, p);
        d.lemma_index_of(p, old_child);
        d.lemma_detached_wf(old_child);
        if d.is_ancestor(old_child, p) {
            d.lemma_ancestor_rank(old_child, p);
            assert(d.node_ok(old_child));
        }
        d.lemma_detached_ancestor(old_child, n, p);
    }
    let at = position_of(&dom.nodes[p.id].children, old_child);
    match at {
        Some(k) => {
            dom.detach(old_child);
            proof {
                d.children_of(p).remove_ensures(k as int);
                dom.shape().lemma_attached_wf(p, n, k as int);
            }
            dom.attach(p, n, k);
            proof {
                dom.shape().lemma_placed(p, n);
            }
        },
        None => {},
    }
}

impl DomNode {
    /// Moves `new_sibling` to the place right after this node. Nothing
    /// happens where this node has no parent, nor where `new_sibling` is this
    /// node or stands above it.
    pub fn after(&self, dom: &mut Dom, new_sibling: &DomNode)
        requires
            old(dom).wf(),
            old(dom).has(*self),
            old(dom).has(*new_sibling),
        ensures
            final(dom).wf(),
            final(dom).datas() == old(dom).datas(),
            final(dom).shape().same_links(put_beside(old(dom).shape(), *self, *new_sibling, 1)),
            *new_sibling != *self && !old(dom).is_ancestor(*new_sibling, *self) && old(
                dom,
            ).parent_of(*self) is Some ==> {
                let p = old(dom).parent_of(*self).unwrap();
                let k = final(dom).children_of(p).index_of(*self);
                &&& final(dom).shape().placed(p, *new_sibling)
                &&& 0 <= k < k + 1 < final(dom).children_of(p).len()
                &&& final(dom).children_of(p)[k + 1] == *new_sibling
            },
    {
        place_beside(dom, *self, *new_sibling, 1);
    }

    /// Moves `new_sibling` to the place right before this node. Nothing
    /// happens where this node has no parent, nor where `new_sibling` is this
    /// node or stands above it.
    pub fn before(&self, dom: &mut Dom, new_sibling: &DomNode)
        requires
            old(dom).wf(),
            old(dom).has(*self),
            old(dom).has(*new_sibling),
        ensures
            final(dom).wf(),
            final(dom).datas() == old(dom).datas(),
            final(dom).shape().same_links(put_beside(old(dom).shape(), *self, *new_sibling, 0)),
            *new_sibling != *self && !old(dom).is_ancestor(*new_sibling, *self) && old(
                dom,
            ).parent_of(*self) is Some ==> {
                let p = old(dom).parent_of(*self).unwrap();
                let k = final(dom).children_of(p).index_of(*self);
                &&& final(dom).shape().placed(p, *new_sibling)
                &&& 0 <= k - 1 < k < final(dom).children_of(p).len()
                &&& final(dom).children_of(p)[k - 1] == *new_sibling
            },
    {
        place_beside(dom, *self, *new_sibling, 0);
    }

    /// Moves `new_node` before `ref_node` in this node's child list, or to
    /// the end where no reference is given. The reference must be a child of
    /// this node, and `new_node` must not be this node or stand above it:
    /// otherwise the error says which, and nothing changes. Where `new_node`
    /// is the reference itself, it stays where it is.
    pub fn insert_before_node(
        &self,
        dom: &mut Dom,
        new_node: &DomNode,
        ref_node: Option<&DomNode>,
    ) -> (r: Result<DomNode, DomError>)
        requires
            old(dom).wf(),
            old(dom).has(*self),
            old(dom).has(*new_node),
            ref_node is Some ==> old(dom).has(*ref_node.unwrap()),
        ensures
            final(dom).wf(),
            final(dom).datas() == old(dom).datas(),
            r == insert_before_outcome(old(dom).shape(), *self, *new_node, deref_opt(ref_node)),
            r is Err ==> final(dom).shape().same_links(old(dom).shape()),
            r is Ok ==> final(dom).shape().same_links(
                inserted_before(old(dom).shape(), *self, *new_node, deref_opt(ref_node)),
            ),
            r is Ok ==> final(dom).shape().placed(*self, *new_node),
    {
        match ref_node {
            Some(reference) => {
                let is_child = match dom.parent(*reference) {
                    Some(p) => p.id == self.id,
                    None => false,
                };
                if !is_child {
                    return Err(DomError::ReferenceNotChild);
                }
                if dom.is_inclusive_ancestor(*new_node, *self) {
                    return Err(DomError::WouldCycle);
                }
                if new_node.id == reference.id {
                    proof {
                        old(dom).shape().lemma_placed(*self, *new_node);
                    }
                    return Ok(*new_node);
                }
                proof {
                    old(dom).shape().lemma_detached_wf(*new_node);
                    old(dom).shape().lemma_detached_ancestor(*new_node, *new_node, *self);
                }
                dom.detach(*new_node);
                let at = position_of(&dom.nodes[self.id].children, *reference);
                match at {
                    Some(k) => {
                        proof {
                            dom.shape().lemma_index_of(*self, *reference);
                            old(dom).shape().lemma_moved(*self, *new_node, k as int);
                        }
                        dom.attach(*self, *new_node, k);
                    },
                    None => {
                        proof {
                            dom.shape().lemma_index_of(*self, *reference);
                        }
                    },
                }
                Ok(*new_node)
            },
            None => {
                if dom.is_inclusive_ancestor(*new_node, *self) {
                    return Err(DomError::WouldCycle);
                }
                self.append(dom, new_node);
                Ok(*new_node)
            },
        }
    }

    /// Puts `new_child` in the place of `old_child`, which must be a child of
    /// this node, and hands `old_child` back without a parent. `new_child` must
    /// not be this node or stand above it. On an error nothing changes. Where
    /// the two are one node, that node stays where it is.
    pub fn replace_child(&self, dom: &mut Dom, new_child: &DomNode, old_child: &DomNode) -> (r:
        Result<DomNode, DomError>)
        requires
            old(dom).wf(),
            old(dom).has(*self),
            old(dom).has(*new_child),
            old(dom).has(*old_child),
        ensures
            final(dom).wf(),
            final(dom).datas() == old(dom).datas(),
            r == replace_child_outcome(old(dom).shape(), *self, *new_child, *old_child),
            r is Err ==> final(dom).shape().same_links(old(dom).shape()),
            r is Ok ==> final(dom).shape().same_links(
                replaced(old(dom).shape(), *self, *new_child, *old_child),
            ) && final(dom).shape().placed(*self, *new_child),
            r is Ok && *new_child != *old_child ==> final(dom).parent_of(*old_child) is None,
    {
        let is_child = match dom.parent(*old_child) {
            Some(p) => p.id == self.id,
            None => false,
        };
        if !is_child {
            return Err(DomError::ReplacedNotChild);
        }
        if dom.is_inclusive_ancestor(*new_child, *self) {
            return Err(DomError::WouldCycle);
        }
        swap_in(dom, *self, *new_child, *old_child);
        Ok(*old_child)
    }

    /// Puts `new_node` in the place of this node and leaves this node without
    /// a parent. Nothing happens where this node has no parent, or where
    /// `new_node` is that parent or stands above it. Where `new_node` is this
    /// node, it stays where it is.
    pub fn replace_with(&self, dom: &mut Dom, new_node: &DomNode)
        requires
            old(dom).wf(),
            old(dom).has(*self),
            old(dom).has(*new_node),
        ensures
            final(dom).wf(),
            final(dom).datas() == old(dom).datas(),
            final(dom).shape().same_links(
                match old(dom).parent_of(*self) {
                    None => old(dom).shape(),
                    Some(p) => if old(dom).is_ancestor(*new_node, p) {
                        old(dom).shape()
                    } else {
                        replaced(old(dom).shape(), p, *new_node, *self)
                    },
                },
            ),
            old(dom).parent_of(*self) is Some && !old(dom).is_ancestor(
                *new_node,
                old(dom).parent_of(*self).unwrap(),
            ) ==> final(dom).shape().placed(old(dom).parent_of(*self).unwrap(), *new_node) && (
            *new_node != *self ==> final(dom).parent_of(*self) is None),
    {
        match dom.parent(*self) {
            None => {},
            Some(p) => {
                proof {
                    assert(old(dom).shape().node_ok(*self));
                }
                if dom.is_inclusive_ancestor(*new_node, p) {
                    return ;
                }
                swap_in(dom, p, *new_node, *self);
            },
        }
    }

    /// Moves `new_child` to the end of this node's child list.
    pub fn append(&self, dom: &mut Dom, new_child: &DomNode)
        requires
            old(dom).wf(),
            old(dom).has(*self),
            old(dom).has(*new_child),
        ensures
            final(dom).wf(),
            final(dom).datas() == old(dom).datas(),
            final(dom).shape().same_links(appended(old(dom).shape(), *self, *new_child)),
            !old(dom).is_ancestor(*new_child, *self) ==> final(dom).shape().placed(
                *self,
                *new_child,
            ) && final(dom).children_of(*self).last() == *new_child,
    {
        if dom.is_inclusive_ancestor(*new_child, *self) {
            return ;
        }
        dom.detach(*new_child);
        let at = dom.child_count(*self);
        proof {
            old(dom).shape().lemma_moved(*self, *new_child, at as int);
            old(dom).shape().lemma_detached_ancestor(*new_child, *new_child, *self);
        }
        dom.attach(*self, *new_child, at);
    }

    /// Moves `new_child` to the end of this node's child list and hands it back.
    pub fn append_child(&self, dom: &mut Dom, new_child: &DomNode) -> (r: DomNode)
        requires
            old(dom).wf(),
            old(dom).has(*self),
            old(dom).has(*new_child),
        ensures
            r == *new_child,
            final(dom).wf(),
            final(dom).datas() == old(dom).datas(),
            final(dom).shape().same_links(appended(old(dom).shape(), *self, *new_child)),
            !old(dom).is_ancestor(*new_child, *self) ==> final(dom).shape().placed(
                *self,
                *new_child,
            ) && final(dom).children_of(*self).last() == *new_child,
    {
        self.append(dom, new_child);
        *new_child
    }

    /// Moves `new_child` to the front of this node's child list.
    pub fn prepend(&self, dom: &mut Dom, new_child: &DomNode)
        requires
            old(dom).wf(),
            old(dom).has(*self),
            old(dom).has(*new_child),
        ensures
            final(dom).wf(),
            final(dom).datas() == old(dom).datas(),
            final(dom).shape().same_links(prepended(old(dom).shape(), *self, *new_child)),
            !old(dom).is_ancestor(*new_child, *self) ==> final(dom).shape().placed(
                *self,
                *new_child,
            ) && final(dom).children_of(*self).first() == *new_child,
    {
        if dom.is_inclusive_ancestor(*new_child, *self) {
            return ;
        }
        dom.detach(*new_child);
        proof {
            old(dom).shape().lemma_moved(*self, *new_child, 0);
            old(dom).shape().lemma_detached_ancestor(*new_child, *new_child, *self);
        }
        dom.attach(*self, *new_child, 0);
    }

    /// Takes this node out of its parent's child list.
    pub fn remove(&self, dom: &mut Dom)
        requires
            old(dom).wf(),
            old(dom).has(*self),
        ensures
            final(dom).wf(),
            final(dom).datas() == old(dom).datas(),
            final(dom).shape() == old(dom).shape().detached(*self),
            final(dom).parent_of(*self) is None,
    {
        proof {
            old(dom).shape().lemma_detached_wf(*self);
        }
        dom.detach(*self);
    }

    /// Takes `child` out of its parent's child list, whichever node that
    /// parent is, and hands it back.
    pub fn remove_child(&self, dom: &mut Dom, child: &DomNode) -> (r: DomNode)
        requires
            old(dom).wf(),
            old(dom).has(*child),
        ensures
            r == *child,
            final(dom).wf(),
            final(dom).datas() == old(dom).datas(),
            final(dom).shape() == old(dom).shape().detached(*child),
            final(dom).parent_of(*child) is None,
    {
        proof {
            old(dom).shape().lemma_detached_wf(*child);
        }
        dom.detach(*child);
        *child
    }

    /// Takes `external_node` out of its tree and hands it back, ready to be
    /// put somewhere else.
    pub fn adopt_node(&self, dom: &mut Dom, external_node: &DomNode) -> (r: DomNode)
        requires
            old(dom).wf(),
            old(dom).has(*external_node),
        ensures
            r == *external_node,
            final(dom).wf(),
            final(dom).datas() == old(dom).datas(),
            final(dom).shape() == old(dom).shape().detached(*external_node),
            final(dom).parent_of(*external_node) is None,
    {
        proof {
            old(dom).shape().lemma_detached_wf(*external_node);
        }
        dom.detach(*external_node);
        *external_node
    }
}

} // verus!
