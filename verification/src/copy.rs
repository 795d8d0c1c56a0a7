//! Copies of nodes: a node alone, or a node with everything below it.

use crate::node::{Dom, NodeDataView};
use crate::shape::{DomNode, Shape};
use crate::tree::{forest, lemma_child_room, lemma_forest_frame, lemma_subtree_frame, subtree};
use vstd::prelude::*;

verus! {

/// Copies the subtree at `src` into fresh nodes and returns the top of the
/// copy. `s0` and `d0` are the links and data as they were when the outermost
/// copy began; nothing that existed then is changed.
fn copy_subtree(
    dom: &mut Dom,
    src: DomNode,
    Ghost(s0): Ghost<Shape>,
    Ghost(d0): Ghost<Seq<NodeDataView>>,
) -> (r: DomNode)
    requires
        old(dom).wf(),
        s0.wf(),
        s0.has(src),
        s0.parents.len() <= old(dom).count(),
        d0.len() == s0.parents.len(),
        forall|y: DomNode| #[trigger]
            s0.has(y) ==> old(dom).children_of(y) == s0.children_of(y) && old(dom).data_of(y)
                == d0[y.id as int],
    ensures
        final(dom).wf(),
        final(dom).extends(old(dom)),
        r.id == old(dom).count(),
        final(dom).has(r),
        final(dom).parent_of(r) is None,
        final(dom).subtree_of(r) == subtree(s0, d0, src),
    decreases s0.room(src),
{
    assert(old(dom).has(src));
    let data = dom.nodes[src.id].data.duplicate();
    let top = dom.create(data);
    let count = dom.nodes[src.id].children.len();
    proof {
        assert forall|y: DomNode| #[trigger] old(dom).has(y) implies dom.parent_of(y) == old(
            dom,
        ).parent_of(y) && dom.children_of(y) == old(dom).children_of(y) && dom.data_of(y) == old(
            dom,
        ).data_of(y) by {}
        assert(s0.has(src));
        assert(old(dom).has(src));
        assert(dom.children_of(src) == s0.children_of(src));
        assert(dom.children_of(top) =~= Seq::empty());
    }
    let mut k: usize = 0;
    while k < count
        invariant
            dom.wf(),
            dom.extends(old(dom)),
            s0.wf(),
            s0.has(src),
            s0.parents.len() <= old(dom).count(),
            d0.len() == s0.parents.len(),
            forall|y: DomNode| #[trigger]
                s0.has(y) ==> dom.children_of(y) == s0.children_of(y) && dom.data_of(y)
                    == d0[y.id as int],
            top.id == old(dom).count(),
            dom.has(top),
            dom.parent_of(top) is None,
            dom.data_of(top) == d0[src.id as int],
            count == s0.children_of(src).len(),
            k <= count,
            dom.children_of(top).len() == k,
            forest(dom.shape(), dom.datas(), top, k as nat) == forest(s0, d0, src, k as nat),
        decreases count - k,
    {
        let child = dom.nodes[src.id].children[k];
        proof {
            lemma_child_room(s0, src, k as int);
        }
        let ghost dom1 = *dom;
        let copy = copy_subtree(dom, child, Ghost(s0), Ghost(d0));
        let ghost dom2 = *dom;
        proof {
            assert(dom1.has(top));
            assert(dom2.shape().node_ok(top));
            assert forall|y: DomNode|
                dom1.shape().has(y) && y != top && #[trigger] dom1.shape().is_ancestor(
                    top,
                    y,
                ) implies dom2.shape().has(y) && dom2.shape().children_of(y)
                == dom1.shape().children_of(y) && dom2.datas()[y.id as int]
                == dom1.datas()[y.id as int] by {
                assert(dom1.has(y));
            }
            lemma_forest_frame(
                dom1.shape(),
                dom1.datas(),
                dom2.shape(),
                dom2.datas(),
                top,
                k as nat,
            );
            assert(!dom2.is_ancestor(copy, top));
        }
        dom.attach(top, copy, k);
        proof {
            let s2 = dom2.shape();
            let s3 = dom.shape();
            s2.children_of(top).insert_ensures(k as int, copy);
            assert(s3.children_of(top) == s2.children_of(top).insert(k as int, copy));
            assert forall|y: DomNode| s2.has(y) && y != top implies s3.has(y) && s3.children_of(y)
                == s2.children_of(y) && dom.datas()[y.id as int] == dom2.datas()[y.id as int] by {}
            lemma_forest_frame(s2, dom2.datas(), s3, dom.datas(), top, k as nat);
            assert forall|y: DomNode| s2.has(y) && #[trigger] s2.is_ancestor(copy, y) implies s3.has(
                y,
            ) && s3.children_of(y) == s2.children_of(y) && dom.datas()[y.id as int]
                == dom2.datas()[y.id as int] by {
                if y == top {
                    assert(s2.is_ancestor(copy, top));
                }
            }
            lemma_subtree_frame(s2, dom2.datas(), s3, dom.datas(), copy);
            assert(s3.children_of(top)[k as int] == copy);
            lemma_child_room(s3, top, k as int);
            assert(forest(s3, dom.datas(), top, (k + 1) as nat) == forest(
                s3,
                dom.datas(),
                top,
                k as nat,
            ).push(subtree(s3, dom.datas(), copy)));
            assert(forest(s0, d0, src, (k + 1) as nat) == forest(s0, d0, src, k as nat).push(
                subtree(s0, d0, child),
            ));
            assert forall|y: DomNode| #[trigger] old(dom).has(y) implies dom.parent_of(y) == old(
                dom,
            ).parent_of(y) && dom.children_of(y) == old(dom).children_of(y) && dom.data_of(y)
                == old(dom).data_of(y) by {
                assert(dom1.has(y));
                assert(dom2.has(y));
            }
            assert forall|y: DomNode| #[trigger] s0.has(y) implies dom.children_of(y)
                == s0.children_of(y) && dom.data_of(y) == d0[y.id as int] by {
                assert(dom1.has(y));
                assert(dom2.has(y));
            }
        }
        k += 1;
    }
    top
}

impl DomNode {
    /// A fresh node with this node's own data and no children, whatever this
    /// node has below it.
    pub fn clone_self_only(&self, dom: &mut Dom) -> (r: DomNode)
        requires
            old(dom).wf(),
            old(dom).has(*self),
        ensures
            final(dom).wf(),
            final(dom).extends(old(dom)),
            final(dom).count() == old(dom).count() + 1,
            r.id == old(dom).count(),
            !old(dom).has(r),
            final(dom).data_of(r) == old(dom).data_of(*self),
            final(dom).children_of(r).len() == 0,
            final(dom).parent_of(r) is None,
    {
        let data = dom.nodes[self.id].data.duplicate();
        dom.create(data)
    }

    /// A fresh copy of this node and of everything below it. The copy holds
    /// the same data at every place and shares no node with what was there
    /// before.
    pub fn clone_recursive(&self, dom: &mut Dom) -> (r: DomNode)
        requires
            old(dom).wf(),
            old(dom).has(*self),
        ensures
            final(dom).wf(),
            final(dom).extends(old(dom)),
            r.id == old(dom).count(),
            !old(dom).has(r),
            final(dom).has(r),
            final(dom).parent_of(r) is None,
            final(dom).subtree_of(r) == old(dom).subtree_of(*self),
            forall|y: DomNode| final(dom).has(y) && final(dom).is_ancestor(r, y) ==> !old(dom).has(y),
    {
        let ghost s0 = dom.shape();
        let ghost d0 = dom.datas();
        let r = copy_subtree(dom, *self, Ghost(s0), Ghost(d0));
        proof {
            assert forall|y: DomNode| dom.has(y) && dom.is_ancestor(r, y) implies !old(dom).has(
                y,
            ) by {
                if old(dom).has(y) {
                    lemma_old_stays_apart(old(dom), dom, r, y);
                }
            }
        }
        r
    }

    /// A copy of this node: with everything below it where `deep` is
    /// `Some(true)`, of the node alone otherwise.
    pub fn clone_node(&self, dom: &mut Dom, deep: Option<bool>) -> (r: DomNode)
        requires
            old(dom).wf(),
            old(dom).has(*self),
        ensures
            final(dom).wf(),
            final(dom).extends(old(dom)),
            r.id == old(dom).count(),
            !old(dom).has(r),
            final(dom).has(r),
            final(dom).parent_of(r) is None,
            final(dom).data_of(r) == old(dom).data_of(*self),
            deep == Some(true) ==> final(dom).subtree_of(r) == old(dom).subtree_of(*self),
            deep == Some(true) ==> forall|y: DomNode|
                final(dom).has(y) && final(dom).is_ancestor(r, y) ==> !old(dom).has(y),
            deep != Some(true) ==> final(dom).children_of(r).len() == 0 && final(dom).count()
                == old(dom).count() + 1,
    {
        let go_deep = match deep {
            Some(d) => d,
            None => false,
        };
        if go_deep {
            self.clone_recursive(dom)
        } else {
            self.clone_self_only(dom)
        }
    }

    /// A copy of `external_node`, made as `clone_node` makes it.
    pub fn import_node(&self, dom: &mut Dom, external_node: &DomNode, deep: Option<bool>) -> (r:
        DomNode)
        requires
            old(dom).wf(),
            old(dom).has(*external_node),
        ensures
            final(dom).wf(),
            final(dom).extends(old(dom)),
            r.id == old(dom).count(),
            !old(dom).has(r),
            final(dom).has(r),
            final(dom).parent_of(r) is None,
            final(dom).data_of(r) == old(dom).data_of(*external_node),
            deep == Some(true) ==> final(dom).subtree_of(r) == old(dom).subtree_of(*external_node),
            deep == Some(true) ==> forall|y: DomNode|
                final(dom).has(y) && final(dom).is_ancestor(r, y) ==> !old(dom).has(y),
            deep != Some(true) ==> final(dom).children_of(r).len() == 0 && final(dom).count()
                == old(dom).count() + 1,
    {
        external_node.clone_node(dom, deep)
    }
}

/// A node that was there before a store grew has nothing above it but nodes
/// that were there before.
pub proof fn lemma_old_stays_apart(before: &Dom, after: &Dom, fresh: DomNode, y: DomNode)
    requires
        before.wf(),
        after.wf(),
        after.extends(before),
        before.has(y),
        !before.has(fresh),
    ensures
        !after.is_ancestor(fresh, y),
    decreases after.shape().rank_of(y),
{
    assert(after.has(y));
    assert(after.shape().node_ok(y));
    assert(before.shape().node_ok(y));
    match before.parent_of(y) {
        Some(p) => {
            lemma_old_stays_apart(before, after, fresh, p);
        },
        None => {},
    }
}

} // verus!
