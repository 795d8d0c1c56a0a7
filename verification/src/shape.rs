//! The skeleton of a node store: who is whose parent and in which order the
//! children stand. Everything here is specification and proof; the store in
//! `node` keeps its skeleton in step with the functions of this module.

use vstd::prelude::*;

verus! {

/// A handle to one node of a store. Two handles name the same node exactly
/// when their `id`s are equal.
#[derive(Clone, Copy, PartialEq, Eq, Structural, Debug)]
pub struct DomNode {
    pub id: usize,
}

/// Parent links and child lists of every node, with the two measures that
/// make walks along them terminate: `rank` grows from parent to child and
/// stays below `bound`.
pub struct Shape {
    pub parents: Seq<Option<DomNode>>,
    pub kids: Seq<Seq<DomNode>>,
    pub rank: Seq<nat>,
    pub bound: nat,
}

impl Shape {
    /// Whether the handle names a node of the skeleton.
    pub open spec fn has(self, n: DomNode) -> bool {
        (n.id as int) < self.parents.len()
    }

    /// The parent of a node, if it has one.
    pub open spec fn parent_of(self, n: DomNode) -> Option<DomNode> {
        self.parents[n.id as int]
    }

    /// The children of a node, in order.
    pub open spec fn children_of(self, n: DomNode) -> Seq<DomNode> {
        self.kids[n.id as int]
    }

    /// The rank of a node.
    pub open spec fn rank_of(self, n: DomNode) -> nat {
        self.rank[n.id as int]
    }

    /// What remains of `bound` below a node: it shrinks from parent to child.
    pub open spec fn room(self, n: DomNode) -> nat {
        (self.bound - self.rank_of(n)) as nat
    }

    /// A parent link is matched by an entry in the parent's child list, and
    /// the parent ranks lower.
    pub open spec fn parent_ok(self, n: DomNode) -> bool {
        match self.parent_of(n) {
            None => true,
            Some(p) => self.has(p) && self.children_of(p).contains(n) && self.rank_of(p)
                < self.rank_of(n),
        }
    }

    /// Every entry of a child list is a node of the store whose parent link
    /// points back.
    pub open spec fn kids_ok(self, n: DomNode) -> bool {
        &&& self.children_of(n).no_duplicates()
        &&& forall|k: int|
            0 <= k < self.children_of(n).len() ==> self.has(#[trigger] self.children_of(n)[k])
                && self.parent_of(self.children_of(n)[k]) == Some(n)
    }

    /// Everything that is asked of one node.
    pub open spec fn node_ok(self, n: DomNode) -> bool {
        self.rank_of(n) < self.bound && self.parent_ok(n) && self.kids_ok(n)
    }

    /// The skeleton is a forest: links and lists agree, no node is listed
    /// twice, and no walk along parent links comes back to where it began.
    pub open spec fn wf(self) -> bool {
        &&& self.kids.len() == self.parents.len()
        &&& self.rank.len() == self.parents.len()
        &&& self.parents.len() <= usize::MAX
        &&& forall|n: DomNode| self.has(n) ==> #[trigger] self.node_ok(n)
    }

    /// `a` is `x` or stands above `x`.
    pub open spec fn is_ancestor(self, a: DomNode, x: DomNode) -> bool
        decreases self.rank_of(x),
        when self.wf() && self.has(x)
    {
        x == a || match self.parent_of(x) {
            Some(p) => {
                proof {
                    assert(self.node_ok(x));
                }
                self.is_ancestor(a, p)
            },
            None => false,
        }
    }

    /// The topmost node above `x`, or `x` itself where it has no parent.
    pub open spec fn root_of(self, x: DomNode) -> DomNode
        decreases self.rank_of(x),
        when self.wf() && self.has(x)
    {
        match self.parent_of(x) {
            Some(p) => {
                proof {
                    assert(self.node_ok(x));
                }
                self.root_of(p)
            },
            None => x,
        }
    }

    /// The nodes from the root down to `x`, both included.
    pub open spec fn path_to(self, x: DomNode) -> Seq<DomNode>
        decreases self.rank_of(x),
        when self.wf() && self.has(x)
    {
        match self.parent_of(x) {
            Some(p) => {
                proof {
                    assert(self.node_ok(x));
                }
                self.path_to(p).push(x)
            },
            None => seq![x],
        }
    }

    /// The skeleton after `n` has been taken out of its parent's child list.
    pub open spec fn detached(self, n: DomNode) -> Shape {
        match self.parent_of(n) {
            None => self,
            Some(p) => Shape {
                parents: self.parents.update(n.id as int, None),
                kids: self.kids.update(
                    p.id as int,
                    self.children_of(p).remove(self.children_of(p).index_of(n)),
                ),
                rank: self.rank,
                bound: self.bound,
            },
        }
    }

    /// The skeleton after the parentless `n` has been put at index `pos` of the
    /// child list of `p`. Every node at or below `n` moves up in rank by more
    /// than the rank of `p`.
    pub open spec fn attached(self, p: DomNode, n: DomNode, pos: int) -> Shape {
        Shape {
            parents: self.parents.update(n.id as int, Some(p)),
            kids: self.kids.update(p.id as int, self.children_of(p).insert(pos, n)),
            rank: Seq::new(
                self.rank.len(),
                |i: int|
                    if self.is_ancestor(n, DomNode { id: i as usize }) {
                        self.rank[i] + self.rank_of(p) + 1
                    } else {
                        self.rank[i]
                    },
            ),
            bound: self.bound + self.rank_of(p) + 1,
        }
    }

    /// The skeleton with one more node, which has no parent and no children.
    pub open spec fn grown(self) -> Shape {
        Shape {
            parents: self.parents.push(None),
            kids: self.kids.push(Seq::empty()),
            rank: self.rank.push(0),
            bound: self.bound + 1,
        }
    }

    /// Whether the two skeletons have the same links and lists.
    pub open spec fn same_links(self, other: Shape) -> bool {
        self.parents == other.parents && self.kids == other.kids
    }

    /// A node with a parent stands in that parent's child list, at one index only.
    pub proof fn lemma_index_of(self, p: DomNode, n: DomNode)
        requires
            self.wf(),
            self.has(n),
            self.parent_of(n) == Some(p),
        ensures
            self.has(p),
            self.children_of(p).contains(n),
            0 <= self.children_of(p).index_of(n) < self.children_of(p).len(),
            self.children_of(p)[self.children_of(p).index_of(n)] == n,
            forall|k: int|
                0 <= k < self.children_of(p).len() && self.children_of(p)[k] == n ==> k
                    == self.children_of(p).index_of(n),
    {
        assert(self.node_ok(n));
        assert(self.node_ok(p));
    }

    /// A forest with one more node that has no links is a forest.
    pub proof fn lemma_grown_wf(self)
        requires
            self.wf(),
            self.parents.len() < usize::MAX,
        ensures
            self.grown().wf(),
    {
        let g = self.grown();
        assert forall|n: DomNode| g.has(n) implies #[trigger] g.node_ok(n) by {
            if self.has(n) {
                assert(self.node_ok(n));
                assert(g.children_of(n) == self.children_of(n));
                assert forall|k: int| 0 <= k < g.children_of(n).len() implies g.has(
                    #[trigger] g.children_of(n)[k],
                ) && g.parent_of(g.children_of(n)[k]) == Some(n) by {
                    assert(self.has(self.children_of(n)[k]));
                }
            } else {
                assert(g.children_of(n) =~= Seq::empty());
            }
        }
    }

    /// Taking a node out of its parent's child list leaves a forest.
    pub proof fn lemma_detached_wf(self, n: DomNode)
        requires
            self.wf(),
            self.has(n),
        ensures
            self.detached(n).wf(),
            self.detached(n).parent_of(n) is None,
            self.detached(n).parents.len() == self.parents.len(),
    {
        let d = self.detached(n);
        match self.parent_of(n) {
            None => {},
            Some(p) => {
                self.lemma_index_of(p, n);
                let old_kids = self.children_of(p);
                let at = old_kids.index_of(n);
                let new_kids = old_kids.remove(at);
                old_kids.remove_ensures(at);
                assert(d.children_of(p) == new_kids);
                assert forall|m: DomNode| d.has(m) implies #[trigger] d.node_ok(m) by {
                    assert(self.has(m));
                    assert(self.node_ok(m));
                    // parent link of m
                    if m != n {
                        match self.parent_of(m) {
                            None => {},
                            Some(q) => {
                                assert(d.parent_of(m) == Some(q));
                                if q == p {
                                    let j = old_kids.index_of(m);
                                    assert(old_kids.contains(m));
                                    assert(j != at);
                                    if j < at {
                                        assert(new_kids[j] == m);
                                    } else {
                                        assert(new_kids[j - 1] == m);
                                    }
                                    assert(d.children_of(q).contains(m));
                                } else {
                                    assert(d.children_of(q) == self.children_of(q));
                                }
                            },
                        }
                    }
                    // child list of m
                    if m == p {
                        assert forall|i: int, j: int|
                            0 <= i < new_kids.len() && 0 <= j < new_kids.len() && i
                                != j implies new_kids[i] != new_kids[j] by {
                            let oi = if i < at { i } else { i + 1 };
                            let oj = if j < at { j } else { j + 1 };
                            assert(new_kids[i] == old_kids[oi]);
                            assert(new_kids[j] == old_kids[oj]);
                        }
                        assert forall|k: int| 0 <= k < d.children_of(m).len() implies d.has(
                            #[trigger] d.children_of(m)[k],
                        ) && d.parent_of(d.children_of(m)[k]) == Some(m) by {
                            let ok = if k < at { k } else { k + 1 };
                            assert(new_kids[k] == old_kids[ok]);
                            assert(self.has(old_kids[ok]));
                            assert(old_kids[ok] != n);
                        }
                    } else {
                        assert(d.children_of(m) == self.children_of(m));
                        assert forall|k: int| 0 <= k < d.children_of(m).len() implies d.has(
                            #[trigger] d.children_of(m)[k],
                        ) && d.parent_of(d.children_of(m)[k]) == Some(m) by {
                            let c = self.children_of(m)[k];
                            assert(self.has(c));
                            assert(self.parent_of(c) == Some(m));
                            assert(c != n);
                        }
                    }
                }
            },
        }
    }

    /// Taking `n` out of its parent leaves every walk that does not pass
    /// through `n` as it was.
    pub proof fn lemma_detached_ancestor(self, n: DomNode, a: DomNode, x: DomNode)
        requires
            self.wf(),
            self.has(n),
            self.has(x),
            !self.is_ancestor(n, x),
        ensures
            self.detached(n).is_ancestor(a, x) == self.is_ancestor(a, x),
        decreases self.rank_of(x),
    {
        self.lemma_detached_wf(n);
        let d = self.detached(n);
        assert(x != n);
        assert(d.parent_of(x) == self.parent_of(x));
        assert(self.node_ok(x));
        match self.parent_of(x) {
            Some(p) => {
                self.lemma_detached_ancestor(n, a, p);
            },
            None => {},
        }
    }

    /// Putting a parentless node under a node that it does not stand above leaves a forest.
    pub proof fn lemma_attached_wf(self, p: DomNode, n: DomNode, pos: int)
        requires
            self.wf(),
            self.has(p),
            self.has(n),
            self.parent_of(n) is None,
            !self.is_ancestor(n, p),
            0 <= pos <= self.children_of(p).len(),
        ensures
            self.attached(p, n, pos).wf(),
    {
        let t = self.attached(p, n, pos);
        let old_kids = self.children_of(p);
        let new_kids = old_kids.insert(pos, n);
        old_kids.insert_ensures(pos, n);
        assert(self.node_ok(p));
        assert(!old_kids.contains(n)) by {
            if old_kids.contains(n) {
                let k = old_kids.index_of(n);
                assert(self.parent_of(old_kids[k]) == Some(p));
            }
        }
        assert(t.children_of(p) == new_kids);
        assert forall|m: DomNode| t.has(m) implies #[trigger] t.node_ok(m) by {
            assert(self.has(m));
            assert(self.node_ok(m));
            assert(DomNode { id: m.id as int as usize } == m);
            // parent link of m
            if m == n {
                assert(new_kids[pos] == n);
                assert(t.children_of(p).contains(n));
                assert(self.is_ancestor(n, n));
                assert(DomNode { id: p.id as int as usize } == p);
            } else {
                match self.parent_of(m) {
                    None => {},
                    Some(q) => {
                        assert(self.has(q));
                        assert(DomNode { id: q.id as int as usize } == q);
                        assert(self.is_ancestor(n, m) == self.is_ancestor(n, q));
                        if q == p {
                            let j = old_kids.index_of(m);
                            if j < pos {
                                assert(new_kids[j] == m);
                            } else {
                                assert(new_kids[j + 1] == m);
                            }
                        } else {
                            assert(t.children_of(q) == self.children_of(q));
                        }
                    },
                }
            }
            // child list of m
            if m == p {
                assert forall|i: int, j: int|
                    0 <= i < new_kids.len() && 0 <= j < new_kids.len() && i
                        != j implies new_kids[i] != new_kids[j] by {
                    let oi = if i < pos { i } else { i - 1 };
                    let oj = if j < pos { j } else { j - 1 };
                    if i != pos {
                        assert(new_kids[i] == old_kids[oi]);
                    }
                    if j != pos {
                        assert(new_kids[j] == old_kids[oj]);
                    }
                }
                assert forall|k: int| 0 <= k < t.children_of(m).len() implies t.has(
                    #[trigger] t.children_of(m)[k],
                ) && t.parent_of(t.children_of(m)[k]) == Some(m) by {
                    if k != pos {
                        let ok = if k < pos { k } else { k - 1 };
                        assert(new_kids[k] == old_kids[ok]);
                        assert(self.has(old_kids[ok]));
                    }
                }
            } else {
                assert(t.children_of(m) == self.children_of(m));
                assert forall|k: int| 0 <= k < t.children_of(m).len() implies t.has(
                    #[trigger] t.children_of(m)[k],
                ) && t.parent_of(t.children_of(m)[k]) == Some(m) by {
                    let c = self.children_of(m)[k];
                    assert(self.has(c));
                    assert(self.parent_of(c) == Some(m));
                    assert(c != n);
                }
            }
        }
    }

    /// A node ranks no higher than what stands below it.
    pub proof fn lemma_ancestor_rank(self, a: DomNode, x: DomNode)
        requires
            self.wf(),
            self.has(x),
            self.is_ancestor(a, x),
        ensures
            self.has(a),
            self.rank_of(a) <= self.rank_of(x),
        decreases self.rank_of(x),
    {
        if x != a {
            assert(self.node_ok(x));
            self.lemma_ancestor_rank(a, self.parent_of(x).unwrap());
        }
    }

    /// A node ranks strictly lower than what stands strictly below it.
    pub proof fn lemma_strict_ancestor_rank(self, a: DomNode, x: DomNode)
        requires
            self.wf(),
            self.has(x),
            self.is_ancestor(a, x),
            a != x,
        ensures
            self.rank_of(a) < self.rank_of(x),
    {
        assert(self.node_ok(x));
        self.lemma_ancestor_rank(a, self.parent_of(x).unwrap());
    }

    /// Of two different nodes at most one stands above the other.
    pub proof fn lemma_ancestor_antisymmetric(self, a: DomNode, b: DomNode)
        requires
            self.wf(),
            self.has(a),
            self.has(b),
            self.is_ancestor(a, b),
            self.is_ancestor(b, a),
        ensures
            a == b,
    {
        if a != b {
            self.lemma_strict_ancestor_rank(a, b);
            self.lemma_strict_ancestor_rank(b, a);
        }
    }

    /// What stands above a node stands above everything below that node.
    pub proof fn lemma_ancestor_transitive(self, a: DomNode, b: DomNode, c: DomNode)
        requires
            self.wf(),
            self.has(c),
            self.is_ancestor(a, b),
            self.is_ancestor(b, c),
        ensures
            self.is_ancestor(a, c),
        decreases self.rank_of(c),
    {
        if c != b {
            assert(self.node_ok(c));
            self.lemma_ancestor_transitive(a, b, self.parent_of(c).unwrap());
        }
    }

    /// The path to a node starts at its root, ends at the node, steps from
    /// parent to child, and holds only nodes that stand above the node.
    pub proof fn lemma_path(self, x: DomNode)
        requires
            self.wf(),
            self.has(x),
        ensures
            self.path_to(x).len() >= 1,
            self.path_to(x).last() == x,
            self.path_to(x)[0] == self.root_of(x),
            self.has(self.root_of(x)),
            self.parent_of(self.root_of(x)) is None,
            self.is_ancestor(self.root_of(x), x),
            forall|j: int|
                0 <= j < self.path_to(x).len() ==> self.has(#[trigger] self.path_to(x)[j])
                    && self.is_ancestor(self.path_to(x)[j], x),
            forall|j: int|
                1 <= j < self.path_to(x).len() ==> self.parent_of(#[trigger] self.path_to(x)[j])
                    == Some(self.path_to(x)[j - 1]),
        decreases self.rank_of(x),
    {
        assert(self.node_ok(x));
        match self.parent_of(x) {
            None => {},
            Some(p) => {
                self.lemma_path(p);
                let pp = self.path_to(p);
                let px = self.path_to(x);
                assert(px == pp.push(x));
                assert forall|j: int| 0 <= j < px.len() implies self.has(#[trigger] px[j])
                    && self.is_ancestor(px[j], x) by {
                    if j < pp.len() {
                        assert(px[j] == pp[j]);
                        assert(self.is_ancestor(pp[j], p));
                    }
                }
                assert forall|j: int| 1 <= j < px.len() implies self.parent_of(#[trigger] px[j])
                    == Some(px[j - 1]) by {
                    if j < pp.len() {
                        assert(px[j] == pp[j]);
                        assert(px[j - 1] == pp[j - 1]);
                    } else {
                        assert(px[j - 1] == pp[pp.len() - 1]);
                    }
                }
            },
        }
    }

    /// The skeleton after `n` has been moved to index `pos` of the child list
    /// of `p`: taken out of where it was, then put in.
    pub open spec fn moved(self, p: DomNode, n: DomNode, pos: int) -> Shape {
        self.detached(n).attached(p, n, pos)
    }

    /// `n` has `p` as its parent, stands exactly once in the child list of
    /// `p`, and in no other child list.
    pub open spec fn placed(self, p: DomNode, n: DomNode) -> bool {
        &&& self.parent_of(n) == Some(p)
        &&& occurrences(self.children_of(p), n) == 1
        &&& forall|q: DomNode|
            self.has(q) && q != p ==> occurrences(#[trigger] self.children_of(q), n) == 0
    }

    /// In a forest a node with a parent stands once in that parent's child
    /// list and nowhere else.
    pub proof fn lemma_placed(self, p: DomNode, n: DomNode)
        requires
            self.wf(),
            self.has(n),
            self.parent_of(n) == Some(p),
        ensures
            self.placed(p, n),
    {
        self.lemma_index_of(p, n);
        assert(self.node_ok(p));
        lemma_occurrences_unique(self.children_of(p), n);
        assert forall|q: DomNode| self.has(q) && q != p implies occurrences(
            #[trigger] self.children_of(q),
            n,
        ) == 0 by {
            assert(self.node_ok(q));
            if self.children_of(q).contains(n) {
                let k = self.children_of(q).index_of(n);
                assert(self.parent_of(self.children_of(q)[k]) == Some(q));
            }
            lemma_occurrences_absent(self.children_of(q), n);
        }
    }

    /// Moving a node under a parent that it does not stand above gives a
    /// forest in which the node is placed under that parent, at the index asked.
    pub proof fn lemma_moved(self, p: DomNode, n: DomNode, pos: int)
        requires
            self.wf(),
            self.has(p),
            self.has(n),
            !self.is_ancestor(n, p),
            0 <= pos <= self.detached(n).children_of(p).len(),
        ensures
            self.moved(p, n, pos).wf(),
            self.moved(p, n, pos).parents.len() == self.parents.len(),
            self.moved(p, n, pos).placed(p, n),
            self.moved(p, n, pos).children_of(p)[pos] == n,
    {
        let d = self.detached(n);
        self.lemma_detached_wf(n);
        self.lemma_detached_ancestor(n, n, p);
        d.lemma_attached_wf(p, n, pos);
        let m = d.attached(p, n, pos);
        d.children_of(p).insert_ensures(pos, n);
        m.lemma_placed(p, n);
    }
}

/// How often `n` stands in `list`.
pub open spec fn occurrences(list: Seq<DomNode>, n: DomNode) -> nat
    decreases list.len(),
{
    if list.len() == 0 {
        0
    } else {
        occurrences(list.drop_last(), n) + if list.last() == n {
            1nat
        } else {
            0nat
        }
    }
}

/// A node stands in a list exactly when it occurs there at least once.
pub proof fn lemma_occurrences_absent(list: Seq<DomNode>, n: DomNode)
    ensures
        !list.contains(n) <==> occurrences(list, n) == 0,
    decreases list.len(),
{
    if list.len() > 0 {
        lemma_occurrences_absent(list.drop_last(), n);
        if list.drop_last().contains(n) {
            let k = list.drop_last().index_of(n);
            assert(list[k] == n);
        }
        if list.contains(n) && list.last() != n {
            let k = list.index_of(n);
            assert(list.drop_last()[k] == n);
        }
        if list.last() == n {
            assert(list[list.len() - 1] == n);
        }
    }
}

/// A node that stands in a list without duplicates occurs there once.
pub proof fn lemma_occurrences_unique(list: Seq<DomNode>, n: DomNode)
    requires
        list.no_duplicates(),
        list.contains(n),
    ensures
        occurrences(list, n) == 1,
    decreases list.len(),
{
    let k = list.index_of(n);
    let front = list.drop_last();
    if list.last() == n {
        if front.contains(n) {
            let j = front.index_of(n);
            assert(list[j] == n);
            assert(false);
        }
        lemma_occurrences_absent(front, n);
    } else {
        assert(front[k] == n);
        lemma_occurrences_unique(front, n);
    }
}

} // verus!
