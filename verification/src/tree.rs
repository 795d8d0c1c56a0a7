//! Whole subtrees as values: what a node and everything below it hold,
//! without regard to which handles name the nodes.

use crate::node::{Dom, NodeDataView};
use crate::shape::{DomNode, Shape};
use vstd::prelude::*;

verus! {

/// A node's data with the subtrees of its children, in order.
pub struct TreeModel {
    pub data: NodeDataView,
    pub children: Seq<TreeModel>,
}

/// The subtree that hangs at `x`.
pub open spec fn subtree(s: Shape, datas: Seq<NodeDataView>, x: DomNode) -> TreeModel
    decreases s.room(x), s.children_of(x).len() + 1,
    when s.wf() && s.has(x)
{
    TreeModel { data: datas[x.id as int], children: forest(s, datas, x, s.children_of(x).len()) }
}

/// The subtrees of the first `k` children of `x`.
pub open spec fn forest(s: Shape, datas: Seq<NodeDataView>, x: DomNode, k: nat) -> Seq<TreeModel>
    decreases s.room(x), k,
    when s.wf() && s.has(x) && k <= s.children_of(x).len()
{
    if k == 0 {
        Seq::empty()
    } else {
        proof {
            assert(s.node_ok(x));
            assert(s.has(s.children_of(x)[k - 1]));
            assert(s.node_ok(s.children_of(x)[k - 1]));
        }
        forest(s, datas, x, (k - 1) as nat).push(subtree(s, datas, s.children_of(x)[k - 1]))
    }
}

/// A child has less room below it than its parent.
pub proof fn lemma_child_room(s: Shape, x: DomNode, k: int)
    requires
        s.wf(),
        s.has(x),
        0 <= k < s.children_of(x).len(),
    ensures
        s.has(s.children_of(x)[k]),
        s.parent_of(s.children_of(x)[k]) == Some(x),
        s.room(s.children_of(x)[k]) < s.room(x),
        s.is_ancestor(x, s.children_of(x)[k]),
{
    assert(s.node_ok(x));
    let c = s.children_of(x)[k];
    assert(s.has(c));
    assert(s.node_ok(c));
    assert(s.is_ancestor(x, x));
}

/// The subtrees of the first `k` children are `k`, each that of its child.
pub proof fn lemma_forest_len(s: Shape, datas: Seq<NodeDataView>, x: DomNode, k: nat)
    requires
        s.wf(),
        s.has(x),
        k <= s.children_of(x).len(),
    ensures
        forest(s, datas, x, k).len() == k,
        forall|j: int|
            0 <= j < k ==> #[trigger] forest(s, datas, x, k)[j] == subtree(
                s,
                datas,
                s.children_of(x)[j],
            ),
    decreases k,
{
    if k > 0 {
        lemma_forest_len(s, datas, x, (k - 1) as nat);
        let f = forest(s, datas, x, k);
        let g = forest(s, datas, x, (k - 1) as nat);
        lemma_child_room(s, x, k - 1);
        assert(f == g.push(subtree(s, datas, s.children_of(x)[k - 1])));
        assert forall|j: int| 0 <= j < k implies #[trigger] f[j] == subtree(
            s,
            datas,
            s.children_of(x)[j],
        ) by {
            if j < k - 1 {
                assert(f[j] == g[j]);
            }
        }
    }
}

/// A subtree is the same in two stores that agree on the child lists and the
/// data of every node at or below its top.
pub proof fn lemma_subtree_frame(
    s1: Shape,
    d1: Seq<NodeDataView>,
    s2: Shape,
    d2: Seq<NodeDataView>,
    x: DomNode,
)
    requires
        s1.wf(),
        s2.wf(),
        s1.has(x),
        forall|y: DomNode|
            s1.has(y) && #[trigger] s1.is_ancestor(x, y) ==> s2.has(y) && s2.children_of(y)
                == s1.children_of(y) && d2[y.id as int] == d1[y.id as int],
    ensures
        subtree(s1, d1, x) == subtree(s2, d2, x),
    decreases s1.room(x), s1.children_of(x).len() + 1,
{
    assert(s1.is_ancestor(x, x));
    lemma_forest_frame(s1, d1, s2, d2, x, s1.children_of(x).len());
}

/// The subtrees of the first `k` children are the same in two stores that
/// agree on those children and on every node below them.
pub proof fn lemma_forest_frame(
    s1: Shape,
    d1: Seq<NodeDataView>,
    s2: Shape,
    d2: Seq<NodeDataView>,
    x: DomNode,
    k: nat,
)
    requires
        s1.wf(),
        s2.wf(),
        s1.has(x),
        s2.has(x),
        k <= s1.children_of(x).len(),
        k <= s2.children_of(x).len(),
        forall|j: int| 0 <= j < k ==> s1.children_of(x)[j] == s2.children_of(x)[j],
        forall|y: DomNode|
            s1.has(y) && y != x && #[trigger] s1.is_ancestor(x, y) ==> s2.has(y) && s2.children_of(
                y,
            ) == s1.children_of(y) && d2[y.id as int] == d1[y.id as int],
    ensures
        forest(s1, d1, x, k) == forest(s2, d2, x, k),
    decreases s1.room(x), k,
{
    if k > 0 {
        lemma_forest_frame(s1, d1, s2, d2, x, (k - 1) as nat);
        let c = s1.children_of(x)[k - 1];
        lemma_child_room(s1, x, k - 1);
        lemma_child_room(s2, x, k - 1);
        assert(c != x) by {
            assert(s1.node_ok(c));
        }
        assert forall|y: DomNode| s1.has(y) && #[trigger] s1.is_ancestor(c, y) implies s2.has(y)
            && s2.children_of(y) == s1.children_of(y) && d2[y.id as int] == d1[y.id as int] by {
            s1.lemma_ancestor_transitive(x, c, y);
            if y == x {
                s1.lemma_ancestor_antisymmetric(x, c);
            }
        }
        lemma_subtree_frame(s1, d1, s2, d2, c);
    }
}

/// The nodes below `x` in document order: each child, followed by what is
/// below it, child after child.
pub open spec fn below(s: Shape, x: DomNode) -> Seq<DomNode>
    decreases s.room(x), s.children_of(x).len() + 1,
    when s.wf() && s.has(x)
{
    below_first(s, x, s.children_of(x).len())
}

/// The first `k` children of `x`, each followed by what is below it.
pub open spec fn below_first(s: Shape, x: DomNode, k: nat) -> Seq<DomNode>
    decreases s.room(x), k,
    when s.wf() && s.has(x) && k <= s.children_of(x).len()
{
    if k == 0 {
        Seq::empty()
    } else {
        proof {
            assert(s.node_ok(x));
            assert(s.has(s.children_of(x)[k - 1]));
            assert(s.node_ok(s.children_of(x)[k - 1]));
        }
        below_first(s, x, (k - 1) as nat) + seq![s.children_of(x)[k - 1]] + below(
            s,
            s.children_of(x)[k - 1],
        )
    }
}

/// Every node below `x` is a node of the store.
pub proof fn lemma_below_has(s: Shape, x: DomNode)
    requires
        s.wf(),
        s.has(x),
    ensures
        forall|j: int| 0 <= j < below(s, x).len() ==> s.has(#[trigger] below(s, x)[j]),
    decreases s.room(x), s.children_of(x).len() + 1,
{
    lemma_below_first_has(s, x, s.children_of(x).len());
    assert(below(s, x) == below_first(s, x, s.children_of(x).len()));
}

/// Every node below the first `k` children is a node of the store.
pub proof fn lemma_below_first_has(s: Shape, x: DomNode, k: nat)
    requires
        s.wf(),
        s.has(x),
        k <= s.children_of(x).len(),
    ensures
        forall|j: int| 0 <= j < below_first(s, x, k).len() ==> s.has(#[trigger] below_first(s, x, k)[j]),
    decreases s.room(x), k,
{
    if k > 0 {
        let c = s.children_of(x)[k - 1];
        lemma_child_room(s, x, k - 1);
        lemma_below_first_has(s, x, (k - 1) as nat);
        lemma_below_has(s, c);
        let a = below_first(s, x, (k - 1) as nat);
        let b = below(s, c);
        let all = below_first(s, x, k);
        assert(all == a + seq![c] + b);
        assert forall|j: int| 0 <= j < all.len() implies s.has(#[trigger] all[j]) by {
            if j < a.len() {
                assert(all[j] == a[j]);
            } else if j == a.len() {
                assert(all[j] == c);
            } else {
                assert(all[j] == b[j - a.len() - 1]);
            }
        }
    }
}

/// Adds to `out` the nodes below `x`, in document order.
pub fn collect_below(dom: &Dom, x: DomNode, out: &mut Vec<DomNode>)
    requires
        dom.wf(),
        dom.has(x),
    ensures
        final(out)@ == old(out)@ + below(dom.shape(), x),
    decreases dom.shape().room(x),
{
    let count = dom.child_count(x);
    let mut k: usize = 0;
    assert(out@ =~= old(out)@ + below_first(dom.shape(), x, 0));
    while k < count
        invariant
            dom.wf(),
            dom.has(x),
            count == dom.children_of(x).len(),
            k <= count,
            out@ == old(out)@ + below_first(dom.shape(), x, k as nat),
        decreases count - k,
    {
        let c = dom.child_at(x, k);
        proof {
            lemma_child_room(dom.shape(), x, k as int);
        }
        let ghost before = out@;
        out.push(c);
        collect_below(dom, c, out);
        assert(out@ =~= old(out)@ + below_first(dom.shape(), x, (k + 1) as nat)) by {
            assert(out@ == before.push(c) + below(dom.shape(), c));
            assert(below_first(dom.shape(), x, (k + 1) as nat) == below_first(
                dom.shape(),
                x,
                k as nat,
            ) + seq![c] + below(dom.shape(), c));
        }
        k += 1;
    }
}

/// The nodes below `x`, in document order.
pub fn descendants(dom: &Dom, x: DomNode) -> (r: Vec<DomNode>)
    requires
        dom.wf(),
        dom.has(x),
    ensures
        r@ == below(dom.shape(), x),
        forall|j: int| 0 <= j < r.len() ==> dom.has(#[trigger] r[j]),
{
    let mut r: Vec<DomNode> = Vec::new();
    collect_below(dom, x, &mut r);
    proof {
        assert(r@ =~= below(dom.shape(), x));
        lemma_below_has(dom.shape(), x);
    }
    r
}

impl Dom {
    /// The subtree that hangs at `x` in this store.
    pub open spec fn subtree_of(&self, x: DomNode) -> TreeModel {
        subtree(self.shape(), self.datas(), x)
    }

    /// Every node that `before` holds is in this store too, with the same
    /// parent, the same children and the same data.
    pub open spec fn extends(&self, before: &Dom) -> bool {
        &&& before.count() <= self.count()
        &&& forall|y: DomNode| #[trigger]
            before.has(y) ==> self.parent_of(y) == before.parent_of(y) && self.children_of(y)
                == before.children_of(y) && self.data_of(y) == before.data_of(y)
    }
}

} // verus!
