//! Document order: how two nodes of one store stand to each other.

use crate::node::{position_of, Dom};
use crate::shape::{DomNode, Shape};
use vstd::prelude::*;

verus! {

/// The two nodes stand in different trees.
pub const DOCUMENT_POSITION_DISCONNECTED: u32 = 1;

/// One node comes before the other in document order.
pub const DOCUMENT_POSITION_PRECEDING: u32 = 2;

/// One node comes after the other in document order.
pub const DOCUMENT_POSITION_FOLLOWING: u32 = 4;

/// The other node stands above this one.
pub const DOCUMENT_POSITION_CONTAINS: u32 = 8;

/// The other node stands below this one.
pub const DOCUMENT_POSITION_CONTAINED_BY: u32 = 16;

/// The order of the two nodes is not given by a tree.
pub const DOCUMENT_POSITION_IMPLEMENTATION_SPECIFIC: u32 = 32;

/// The number of leading places at which the two sequences agree.
pub open spec fn common_prefix_len(p: Seq<DomNode>, q: Seq<DomNode>) -> nat
    decreases p.len(),
{
    if p.len() == 0 || q.len() == 0 || p[0] != q[0] {
        0
    } else {
        1 + common_prefix_len(p.skip(1), q.skip(1))
    }
}

/// The common prefix is no longer than either sequence, is the same both ways round, and ends where the sequences differ.
pub proof fn lemma_common_prefix(p: Seq<DomNode>, q: Seq<DomNode>)
    ensures
        common_prefix_len(p, q) <= p.len(),
        common_prefix_len(p, q) <= q.len(),
        common_prefix_len(p, q) == common_prefix_len(q, p),
        forall|j: int| 0 <= j < common_prefix_len(p, q) ==> p[j] == q[j],
        common_prefix_len(p, q) < p.len() && common_prefix_len(p, q) < q.len() ==> p[common_prefix_len(
            p,
            q,
        ) as int] != q[common_prefix_len(p, q) as int],
    decreases p.len(),
{
    if p.len() == 0 || q.len() == 0 || p[0] != q[0] {
    } else {
        lemma_common_prefix(p.skip(1), q.skip(1));
        let n = common_prefix_len(p.skip(1), q.skip(1)) as int;
        assert forall|j: int| 0 <= j < common_prefix_len(p, q) implies p[j] == q[j] by {
            if j > 0 {
                assert(p.skip(1)[j - 1] == q.skip(1)[j - 1]);
            }
        }
        if n < p.skip(1).len() && n < q.skip(1).len() {
            assert(p.skip(1)[n] == p[n + 1]);
            assert(q.skip(1)[n] == q[n + 1]);
        }
    }
}

/// A prefix on which the sequences agree, followed by a place where they
/// do not or where one of them ends, is the longest common prefix.
pub proof fn lemma_common_prefix_found(p: Seq<DomNode>, q: Seq<DomNode>, i: int)
    requires
        0 <= i <= p.len(),
        i <= q.len(),
        forall|j: int| 0 <= j < i ==> p[j] == q[j],
        i == p.len() || i == q.len() || p[i] != q[i],
    ensures
        common_prefix_len(p, q) == i,
{
    lemma_common_prefix(p, q);
    let c = common_prefix_len(p, q) as int;
    if c < i {
        assert(p[c] == q[c]);
    }
}

impl Shape {
    /// The relation of `b` to `a` as a set of position bits.
    ///
    /// Nothing for one and the same node; disconnected for nodes of
    /// different trees; `CONTAINED_BY | FOLLOWING` where `a` stands above
    /// `b`, `CONTAINS | PRECEDING` where `b` stands above `a`. Otherwise the
    /// two paths from the root part below a last common node, at two of its
    /// children: `PRECEDING` where the child on the path to `a` has the lower
    /// index, `FOLLOWING` where it has the higher.
    pub open spec fn position_bits(self, a: DomNode, b: DomNode) -> u32 {
        if a == b {
            0
        } else if self.root_of(a) != self.root_of(b) {
            33
        } else if self.is_ancestor(a, b) {
            20
        } else if self.is_ancestor(b, a) {
            10
        } else {
            let pa = self.path_to(a);
            let pb = self.path_to(b);
            let i = common_prefix_len(pa, pb) as int;
            let siblings = self.children_of(pa[i - 1]);
            if siblings.index_of(pa[i]) < siblings.index_of(pb[i]) {
                2
            } else {
                4
            }
        }
    }

    /// Where neither of two nodes of one tree stands above the other, their
    /// paths part at two different children of one node.
    pub proof fn lemma_fork(self, a: DomNode, b: DomNode)
        requires
            self.wf(),
            self.has(a),
            self.has(b),
            self.root_of(a) == self.root_of(b),
            !self.is_ancestor(a, b),
            !self.is_ancestor(b, a),
        ensures
            ({
                let pa = self.path_to(a);
                let pb = self.path_to(b);
                let i = common_prefix_len(pa, pb) as int;
                let siblings = self.children_of(pa[i - 1]);
                &&& 1 <= i < pa.len()
                &&& i < pb.len()
                &&& pa[i - 1] == pb[i - 1]
                &&& pa[i] != pb[i]
                &&& self.has(pa[i - 1])
                &&& siblings.contains(pa[i])
                &&& siblings.contains(pb[i])
                &&& siblings.index_of(pa[i]) != siblings.index_of(pb[i])
                &&& 0 <= siblings.index_of(pa[i]) < siblings.len()
                &&& 0 <= siblings.index_of(pb[i]) < siblings.len()
            }),
    {
        let pa = self.path_to(a);
        let pb = self.path_to(b);
        self.lemma_path(a);
        self.lemma_path(b);
        lemma_common_prefix(pa, pb);
        let i = common_prefix_len(pa, pb) as int;
        if i == 0 {
            assert(pa[0] == pb[0]);
        }
        if i == pa.len() {
            assert(pb[i - 1] == pa[i - 1]);
            assert(self.is_ancestor(pb[i - 1], b));
        }
        if i == pb.len() {
            assert(pa[i - 1] == pb[i - 1]);
            assert(self.is_ancestor(pa[i - 1], a));
        }
        assert(self.has(pa[i]));
        assert(self.has(pb[i]));
        assert(self.parent_of(pa[i]) == Some(pa[i - 1]));
        assert(self.parent_of(pb[i]) == Some(pb[i - 1]));
        self.lemma_index_of(pa[i - 1], pa[i]);
        self.lemma_index_of(pa[i - 1], pb[i]);
    }

    /// Seen from the other node the relation is the mirror image: what
    /// precedes one way follows the other way, and what contains one way is
    /// contained the other way.
    pub proof fn lemma_position_mirrored(self, a: DomNode, b: DomNode)
        requires
            self.wf(),
            self.has(a),
            self.has(b),
            a != b,
            self.root_of(a) == self.root_of(b),
        ensures
            self.position_bits(b, a) == mirrored(self.position_bits(a, b)),
            has_bit(self.position_bits(a, b), DOCUMENT_POSITION_PRECEDING) == has_bit(
                self.position_bits(b, a),
                DOCUMENT_POSITION_FOLLOWING,
            ),
            has_bit(self.position_bits(a, b), DOCUMENT_POSITION_FOLLOWING) == has_bit(
                self.position_bits(b, a),
                DOCUMENT_POSITION_PRECEDING,
            ),
            has_bit(self.position_bits(a, b), DOCUMENT_POSITION_CONTAINS) == has_bit(
                self.position_bits(b, a),
                DOCUMENT_POSITION_CONTAINED_BY,
            ),
            has_bit(self.position_bits(a, b), DOCUMENT_POSITION_CONTAINED_BY) == has_bit(
                self.position_bits(b, a),
                DOCUMENT_POSITION_CONTAINS,
            ),
            has_bit(self.position_bits(a, b), DOCUMENT_POSITION_PRECEDING) != has_bit(
                self.position_bits(a, b),
                DOCUMENT_POSITION_FOLLOWING,
            ),
    {
        lemma_bits();
        if self.is_ancestor(a, b) {
            if self.is_ancestor(b, a) {
                self.lemma_ancestor_antisymmetric(a, b);
            }
        } else if self.is_ancestor(b, a) {
        } else {
            self.lemma_fork(a, b);
            lemma_common_prefix(self.path_to(a), self.path_to(b));
        }
    }
}

/// The nodes from `x` up to its root: the path to `x`, read backwards.
fn chain_up(dom: &Dom, x: DomNode) -> (v: Vec<DomNode>)
    requires
        dom.wf(),
        dom.has(x),
    ensures
        v.len() == dom.shape().path_to(x).len(),
        forall|j: int| 0 <= j < v.len() ==> v[j] == dom.shape().path_to(x)[v.len() - 1 - j],
{
    let ghost path = dom.shape().path_to(x);
    proof {
        dom.shape().lemma_path(x);
    }
    let mut v: Vec<DomNode> = Vec::new();
    v.push(x);
    let mut cur = x;
    loop
        invariant
            dom.wf(),
            path == dom.shape().path_to(x),
            1 <= v.len() <= path.len(),
            cur == path[path.len() - v.len()],
            forall|j: int| 0 <= j < v.len() ==> v[j] == path[path.len() - 1 - j],
            forall|j: int| 0 <= j < path.len() ==> dom.has(#[trigger] path[j]),
            forall|j: int| 1 <= j < path.len() ==> dom.parent_of(#[trigger] path[j]) == Some(path[j - 1]),
            dom.parent_of(path[0]) is None,
        ensures
            v.len() == path.len(),
            forall|j: int| 0 <= j < v.len() ==> v[j] == path[path.len() - 1 - j],
        decreases path.len() - v.len(),
    {
        match dom.parent(cur) {
            Some(p) => {
                v.push(p);
                cur = p;
            },
            None => {
                break ;
            },
        }
    }
    v
}

impl DomNode {
    /// The topmost node above this node, or this node where it has no parent.
    pub fn get_root_node(&self, dom: &Dom) -> (r: DomNode)
        requires
            dom.wf(),
            dom.has(*self),
        ensures
            r == dom.shape().root_of(*self),
            dom.has(r),
            dom.parent_of(r) is None,
            dom.is_ancestor(r, *self),
    {
        proof {
            dom.shape().lemma_path(*self);
        }
        let mut cur = *self;
        loop
            invariant
                dom.wf(),
                dom.has(cur),
                dom.has(*self),
                dom.is_ancestor(dom.shape().root_of(*self), *self),
                dom.shape().root_of(cur) == dom.shape().root_of(*self),
            decreases dom.shape().rank_of(cur),
        {
            proof {
                assert(dom.shape().node_ok(cur));
            }
            match dom.parent(cur) {
                Some(p) => {
                    cur = p;
                },
                None => {
                    return cur;
                },
            }
        }
    }

    /// Whether `other_node` is this node or stands below it.
    pub fn contains(&self, dom: &Dom, other_node: &DomNode) -> (b: bool)
        requires
            dom.wf(),
            dom.has(*other_node),
        ensures
            b == dom.is_ancestor(*self, *other_node),
    {
        dom.is_inclusive_ancestor(*self, *other_node)
    }

    /// How `other` stands to this node, as position bits.
    pub fn compare_document_position(&self, dom: &Dom, other: &DomNode) -> (bits: u32)
        requires
            dom.wf(),
            dom.has(*self),
            dom.has(*other),
        ensures
            bits == dom.shape().position_bits(*self, *other),
    {
        assert(1u32 | 32u32 == 33 && 16u32 | 4u32 == 20 && 8u32 | 2u32 == 10) by (bit_vector);
        if self.id == other.id {
            return 0;
        }
        let root_a = self.get_root_node(dom);
        let root_b = other.get_root_node(dom);
        if root_a.id != root_b.id {
            return DOCUMENT_POSITION_DISCONNECTED | DOCUMENT_POSITION_IMPLEMENTATION_SPECIFIC;
        }
        if dom.is_inclusive_ancestor(*self, *other) {
            return DOCUMENT_POSITION_CONTAINED_BY | DOCUMENT_POSITION_FOLLOWING;
        }
        if dom.is_inclusive_ancestor(*other, *self) {
            return DOCUMENT_POSITION_CONTAINS | DOCUMENT_POSITION_PRECEDING;
        }
        let up_a = chain_up(dom, *self);
        let up_b = chain_up(dom, *other);
        let ghost pa = dom.shape().path_to(*self);
        let ghost pb = dom.shape().path_to(*other);
        proof {
            dom.shape().lemma_fork(*self, *other);
            lemma_common_prefix(pa, pb);
        }
        let la = up_a.len();
        let lb = up_b.len();
        let mut i: usize = 0;
        while i < la && i < lb && up_a[la - 1 - i].id == up_b[lb - 1 - i].id
            invariant
                la == up_a.len() == pa.len(),
                lb == up_b.len() == pb.len(),
                i <= la,
                i <= lb,
                forall|j: int| 0 <= j < la ==> up_a[j] == pa[la - 1 - j],
                forall|j: int| 0 <= j < lb ==> up_b[j] == pb[lb - 1 - j],
                forall|j: int| 0 <= j < i ==> pa[j] == pb[j],
            decreases la - i,
        {
            i += 1;
        }
        proof {
            lemma_common_prefix_found(pa, pb, i as int);
        }
        let fork = up_a[la - i];
        let child_a = up_a[la - 1 - i];
        let child_b = up_b[lb - 1 - i];
        proof {
            dom.shape().lemma_path(*self);
            dom.shape().lemma_path(*other);
            assert(fork == pa[i - 1]);
            assert(child_a == pa[i as int]);
            assert(child_b == pb[i as int]);
            assert(dom.has(pa[i - 1]) && dom.has(pa[i as int]) && dom.has(pb[i as int]));
            assert(dom.parent_of(pa[i as int]) == Some(pa[i - 1]));
            assert(dom.parent_of(pb[i as int]) == Some(pb[i - 1]));
        }
        let at_a = position_of(&dom.nodes[fork.id].children, child_a);
        let at_b = position_of(&dom.nodes[fork.id].children, child_b);
        match (at_a, at_b) {
            (Some(ka), Some(kb)) => {
                proof {
                    dom.shape().lemma_index_of(fork, child_a);
                    dom.shape().lemma_index_of(fork, child_b);
                }
                if ka < kb {
                    DOCUMENT_POSITION_PRECEDING
                } else {
                    DOCUMENT_POSITION_FOLLOWING
                }
            },
            _ => {
                proof {
                    assert(false);
                }
                0
            },
        }
    }
}

/// Whether `bits` holds the one bit `flag`.
pub open spec fn has_bit(bits: u32, flag: u32) -> bool {
    bits & flag != 0
}

/// The position bits with `PRECEDING` and `FOLLOWING` exchanged, and
/// `CONTAINS` and `CONTAINED_BY` exchanged.
pub open spec fn mirrored(bits: u32) -> u32 {
    (bits & 33) | ((bits & 2) << 1) | ((bits & 4) >> 1) | ((bits & 8) << 1) | ((bits & 16) >> 1)
}

/// The position bits of the relations that occur, and their mirror images.
pub proof fn lemma_bits()
    ensures
        mirrored(0) == 0,
        mirrored(33) == 33,
        mirrored(2) == 4,
        mirrored(4) == 2,
        mirrored(10) == 20,
        mirrored(20) == 10,
        has_bit(2, 2) && !has_bit(2, 4) && !has_bit(2, 8) && !has_bit(2, 16),
        has_bit(4, 4) && !has_bit(4, 2) && !has_bit(4, 8) && !has_bit(4, 16),
        has_bit(10, 2) && !has_bit(10, 4) && has_bit(10, 8) && !has_bit(10, 16),
        has_bit(20, 4) && !has_bit(20, 2) && !has_bit(20, 8) && has_bit(20, 16),
{
    assert(((0u32 & 33) | ((0u32 & 2) << 1) | ((0u32 & 4) >> 1) | ((0u32 & 8) << 1) | ((0u32 & 16)
        >> 1)) == 0) by (bit_vector);
    assert(((33u32 & 33) | ((33u32 & 2) << 1) | ((33u32 & 4) >> 1) | ((33u32 & 8) << 1) | ((33u32 & 16)
        >> 1)) == 33) by (bit_vector);
    assert(((2u32 & 33) | ((2u32 & 2) << 1) | ((2u32 & 4) >> 1) | ((2u32 & 8) << 1) | ((2u32 & 16)
        >> 1)) == 4) by (bit_vector);
    assert(((4u32 & 33) | ((4u32 & 2) << 1) | ((4u32 & 4) >> 1) | ((4u32 & 8) << 1) | ((4u32 & 16)
        >> 1)) == 2) by (bit_vector);
    assert(((10u32 & 33) | ((10u32 & 2) << 1) | ((10u32 & 4) >> 1) | ((10u32 & 8) << 1) | ((10u32 & 16)
        >> 1)) == 20) by (bit_vector);
    assert(((20u32 & 33) | ((20u32 & 2) << 1) | ((20u32 & 4) >> 1) | ((20u32 & 8) << 1) | ((20u32 & 16)
        >> 1)) == 10) by (bit_vector);
    assert(2u32 & 2 != 0 && 2u32 & 4 == 0 && 2u32 & 8 == 0 && 2u32 & 16 == 0 && 4u32 & 4 != 0 && 4u32
        & 2 == 0 && 4u32 & 8 == 0 && 4u32 & 16 == 0 && 10u32 & 2 != 0 && 10u32 & 4 == 0 && 10u32 & 8
        != 0 && 10u32 & 16 == 0 && 20u32 & 4 != 0 && 20u32 & 2 == 0 && 20u32 & 8 == 0 && 20u32 & 16
        != 0) by (bit_vector);
}

} // verus!
