//! Normal form of text: below a normalized node no text node is empty and
//! no two text nodes stand side by side.

use crate::node::{Dom, NodeData, NodeDataView};
use crate::props::{text_below, text_first};
use crate::shape::{DomNode, Shape};
use crate::tree::{
    forest, lemma_child_room, lemma_forest_frame, lemma_forest_len, lemma_subtree_frame, subtree,
    TreeModel,
};
use vstd::prelude::*;

verus! {

/// Whether the subtree hangs at a text node.
pub open spec fn is_text(t: TreeModel) -> bool {
    t.data is Text
}

/// The contents of the text node at the top of the subtree.
pub open spec fn text_of(t: TreeModel) -> Seq<char> {
    t.data->Text_contents
}

/// The first of two text nodes with the contents of the second added to
/// its own.
pub open spec fn absorbed(a: TreeModel, b: TreeModel) -> TreeModel {
    TreeModel {
        data: NodeDataView::Text { contents: text_of(a) + text_of(b) },
        children: a.children,
    }
}

/// The subtrees with every run of text nodes made one: the first node of
/// a run takes the contents of the others, which leave, and leaves itself
/// where the contents are empty.
pub open spec fn merged(f: Seq<TreeModel>) -> Seq<TreeModel>
    decreases f.len(),
{
    if f.len() == 0 {
        Seq::empty()
    } else if is_text(f[0]) {
        if f.len() > 1 && is_text(f[1]) {
            merged(seq![absorbed(f[0], f[1])] + f.skip(2))
        } else if text_of(f[0]).len() == 0 {
            merged(f.skip(1))
        } else {
            seq![f[0]] + merged(f.skip(1))
        }
    } else {
        seq![f[0]] + merged(f.skip(1))
    }
}

/// The subtree in normal form: the text nodes among the children of its
/// top are merged, and every other child is in normal form itself. What
/// stands below a text node is left as it is.
pub open spec fn normalized(t: TreeModel) -> TreeModel
    decreases t,
{
    TreeModel { data: t.data, children: merged(normalized_each(t.children)) }
}

/// The subtrees with each that does not hang at a text node in normal form.
pub open spec fn normalized_each(f: Seq<TreeModel>) -> Seq<TreeModel>
    decreases f,
{
    if f.len() == 0 {
        Seq::empty()
    } else {
        seq![
            if is_text(f[0]) {
                f[0]
            } else {
                normalized(f[0])
            },
        ] + normalized_each(f.skip(1))
    }
}

/// Putting each subtree in normal form goes subtree by subtree, and keeps text nodes as they are.
pub proof fn lemma_each_front(f: Seq<TreeModel>)
    requires
        f.len() > 0,
    ensures
        normalized_each(f).len() == f.len(),
        normalized_each(f)[0] == if is_text(f[0]) {
            f[0]
        } else {
            normalized(f[0])
        },
        is_text(normalized_each(f)[0]) == is_text(f[0]),
        normalized_each(f).skip(1) == normalized_each(f.skip(1)),
    decreases f.len(),
{
    if f.len() > 1 {
        lemma_each_front(f.skip(1));
    } else {
        assert(f.skip(1).len() == 0);
    }
    let head = seq![
        if is_text(f[0]) {
            f[0]
        } else {
            normalized(f[0])
        },
    ];
    assert(normalized_each(f) == head + normalized_each(f.skip(1)));
    assert((head + normalized_each(f.skip(1))).skip(1) =~= normalized_each(f.skip(1)));
}

/// Two text nodes at the front count as the one that they merge into.
pub proof fn lemma_front_merges(r: Seq<TreeModel>)
    requires
        r.len() >= 2,
        is_text(r[0]),
        is_text(r[1]),
    ensures
        merged(normalized_each(r)) == merged(
            normalized_each(seq![absorbed(r[0], r[1])] + r.skip(2)),
        ),
{
    let e = normalized_each(r);
    lemma_each_front(r);
    lemma_each_front(r.skip(1));
    assert(r.skip(1)[0] == r[1]);
    assert(e[1] == e.skip(1)[0]);
    assert(r.skip(1).skip(1) =~= r.skip(2));
    assert(e.skip(1).skip(1) =~= e.skip(2));
    assert(e.skip(2) == normalized_each(r.skip(2)));
    let r2 = seq![absorbed(r[0], r[1])] + r.skip(2);
    lemma_each_front(r2);
    assert(r2.skip(1) =~= r.skip(2));
    let e2 = normalized_each(r2);
    assert(e2 =~= seq![absorbed(e[0], e[1])] + e.skip(2)) by {
        assert(e2 =~= seq![e2[0]] + e2.skip(1));
    }
}

/// An empty text node at the front, with no text node after it, counts
/// for nothing.
pub proof fn lemma_front_drops(r: Seq<TreeModel>)
    requires
        r.len() >= 1,
        is_text(r[0]),
        text_of(r[0]).len() == 0,
        r.len() == 1 || !is_text(r[1]),
    ensures
        merged(normalized_each(r)) == merged(normalized_each(r.skip(1))),
{
    let e = normalized_each(r);
    lemma_each_front(r);
    if r.len() > 1 {
        lemma_each_front(r.skip(1));
        assert(r.skip(1)[0] == r[1]);
        assert(e[1] == e.skip(1)[0]);
    }
}

/// A node at the front that is no part of a run of text nodes stays, in
/// normal form.
pub proof fn lemma_front_stays(r: Seq<TreeModel>)
    requires
        r.len() >= 1,
        !is_text(r[0]) || (text_of(r[0]).len() > 0 && (r.len() == 1 || !is_text(r[1]))),
    ensures
        merged(normalized_each(r)) == seq![
            if is_text(r[0]) {
                r[0]
            } else {
                normalized(r[0])
            },
        ] + merged(normalized_each(r.skip(1))),
{
    let e = normalized_each(r);
    lemma_each_front(r);
    if r.len() > 1 {
        lemma_each_front(r.skip(1));
        assert(r.skip(1)[0] == r[1]);
        assert(e[1] == e.skip(1)[0]);
    }
}

/// Whether no text node among the subtrees is empty and no two text nodes
/// stand side by side.
pub open spec fn tidy(f: Seq<TreeModel>) -> bool {
    &&& forall|j: int| 0 <= j < f.len() && is_text(#[trigger] f[j]) ==> text_of(f[j]).len() > 0
    &&& forall|j: int| 0 <= j < f.len() - 1 ==> !(is_text(#[trigger] f[j]) && is_text(f[j + 1]))
}

/// Whether the children of the top are tidy, and so are those of every
/// node below it that is reached without passing a text node.
pub open spec fn deeply_tidy(t: TreeModel) -> bool
    decreases t,
{
    &&& tidy(t.children)
    &&& forall|j: int|
        0 <= j < t.children.len() ==> is_text(#[trigger] t.children[j]) || deeply_tidy(
            t.children[j],
        )
}

/// Each subtree, put in normal form where it does not hang at a text node,
/// stands at the index at which it stood.
pub proof fn lemma_each_at(f: Seq<TreeModel>, m: int)
    requires
        0 <= m < f.len(),
    ensures
        normalized_each(f).len() == f.len(),
        normalized_each(f)[m] == if is_text(f[m]) {
            f[m]
        } else {
            normalized(f[m])
        },
    decreases m,
{
    lemma_each_front(f);
    if m > 0 {
        lemma_each_at(f.skip(1), m - 1);
        assert(normalized_each(f).skip(1)[m - 1] == normalized_each(f)[m]);
        assert(f.skip(1)[m - 1] == f[m]);
    }
}

/// Merging leaves a tidy list. What is no text node in it stood in the
/// list before, and a list that begins with a node that is no text node
/// still begins with it.
pub proof fn lemma_merged(f: Seq<TreeModel>)
    ensures
        tidy(merged(f)),
        forall|j: int|
            0 <= j < merged(f).len() && !is_text(#[trigger] merged(f)[j]) ==> f.contains(
                merged(f)[j],
            ),
        f.len() > 0 && !is_text(f[0]) ==> merged(f).len() > 0 && merged(f)[0] == f[0],
    decreases f.len(),
{
    if f.len() == 0 {
    } else if is_text(f[0]) && f.len() > 1 && is_text(f[1]) {
        let g = seq![absorbed(f[0], f[1])] + f.skip(2);
        lemma_merged(g);
        assert forall|j: int| 0 <= j < merged(f).len() && !is_text(
            #[trigger] merged(f)[j],
        ) implies f.contains(merged(f)[j]) by {
            let w = merged(f)[j];
            assert(g.contains(w));
            let q = g.index_of(w);
            assert(q != 0);
            assert(g[q] == f[q + 1]);
        }
    } else if is_text(f[0]) && text_of(f[0]).len() == 0 {
        let g = f.skip(1);
        lemma_merged(g);
        assert forall|j: int| 0 <= j < merged(f).len() && !is_text(
            #[trigger] merged(f)[j],
        ) implies f.contains(merged(f)[j]) by {
            let w = merged(f)[j];
            assert(g.contains(w));
            let q = g.index_of(w);
            assert(g[q] == f[q + 1]);
        }
    } else {
        let g = f.skip(1);
        lemma_merged(g);
        let out = merged(f);
        assert(out == seq![f[0]] + merged(g));
        if g.len() > 0 {
            assert(g[0] == f[1]);
        }
        assert forall|j: int| 0 <= j < out.len() && !is_text(#[trigger] out[j]) implies f.contains(
            out[j],
        ) by {
            if j == 0 {
                assert(f[0] == out[0]);
            } else {
                let w = merged(g)[j - 1];
                assert(out[j] == w);
                assert(g.contains(w));
                let q = g.index_of(w);
                assert(g[q] == f[q + 1]);
            }
        }
        assert forall|j: int| 0 <= j < out.len() && is_text(#[trigger] out[j]) implies text_of(
            out[j],
        ).len() > 0 by {
            if j > 0 {
                assert(out[j] == merged(g)[j - 1]);
            }
        }
        assert forall|j: int| 0 <= j < out.len() - 1 implies !(is_text(#[trigger] out[j])
            && is_text(out[j + 1])) by {
            if j > 0 {
                assert(out[j] == merged(g)[j - 1]);
                assert(out[j + 1] == merged(g)[j]);
            } else {
                assert(out[1] == merged(g)[0]);
            }
        }
    }
}

/// Merging leaves a tidy list as it is.
pub proof fn lemma_merged_tidy_same(f: Seq<TreeModel>)
    requires
        tidy(f),
    ensures
        merged(f) == f,
    decreases f.len(),
{
    if f.len() > 0 {
        let g = f.skip(1);
        assert forall|j: int| 0 <= j < g.len() && is_text(#[trigger] g[j]) implies text_of(
            g[j],
        ).len() > 0 by {
            assert(g[j] == f[j + 1]);
        }
        assert forall|j: int| 0 <= j < g.len() - 1 implies !(is_text(#[trigger] g[j]) && is_text(
            g[j + 1],
        )) by {
            assert(g[j] == f[j + 1]);
            assert(g[j + 1] == f[j + 2]);
        }
        lemma_merged_tidy_same(g);
        assert(is_text(f[0]) ==> text_of(f[0]).len() > 0);
        if f.len() > 1 {
            assert(!(is_text(f[0]) && is_text(f[1])));
        }
        assert(merged(f) == seq![f[0]] + merged(g));
        assert(seq![f[0]] + g =~= f);
    }
}

/// In a subtree in normal form no text node is empty and no two text nodes
/// stand side by side, at any node that is reached without passing a text
/// node.
pub proof fn lemma_normalized_is_tidy(t: TreeModel)
    ensures
        deeply_tidy(normalized(t)),
    decreases t,
{
    let e = normalized_each(t.children);
    let g = merged(e);
    lemma_merged(e);
    assert(normalized(t).children == g);
    assert forall|j: int| 0 <= j < g.len() implies is_text(#[trigger] g[j]) || deeply_tidy(
        g[j],
    ) by {
        if !is_text(g[j]) {
            assert(e.contains(g[j]));
            let m = e.index_of(g[j]);
            if t.children.len() > 0 {
                lemma_each_front(t.children);
            }
            lemma_each_at(t.children, m);
            if is_text(t.children[m]) {
                assert(e[m] == t.children[m]);
            } else {
                lemma_normalized_is_tidy(t.children[m]);
            }
        }
    }
}

/// Putting a subtree in normal form a second time changes nothing.
pub proof fn lemma_normalized_twice(t: TreeModel)
    ensures
        normalized(normalized(t)) == normalized(t),
    decreases t,
{
    let e = normalized_each(t.children);
    let g = merged(e);
    lemma_merged(e);
    assert(normalized(t).children == g);
    let e2 = normalized_each(g);
    assert forall|j: int| 0 <= j < g.len() implies #[trigger] e2[j] == g[j] by {
        lemma_each_at(g, j);
        if !is_text(g[j]) {
            assert(e.contains(g[j]));
            let m = e.index_of(g[j]);
            if t.children.len() > 0 {
                lemma_each_front(t.children);
            }
            lemma_each_at(t.children, m);
            if !is_text(t.children[m]) {
                lemma_normalized_twice(t.children[m]);
            }
        }
    }
    if g.len() > 0 {
        lemma_each_at(g, 0);
    } else {
        assert(e2.len() == 0);
    }
    assert(e2 =~= g);
    lemma_merged_tidy_same(g);
}

/// The text below the top of a subtree: the contents of a text node; for
/// an element or a document, the texts of its children's subtrees, one after
/// the other; nothing for any other node.
pub open spec fn tree_text(t: TreeModel) -> Seq<char>
    decreases t,
{
    match t.data {
        NodeDataView::Text { contents } => contents,
        NodeDataView::Element { name, attrs } => forest_text(t.children),
        NodeDataView::Document => forest_text(t.children),
        _ => Seq::empty(),
    }
}

/// The texts of the subtrees, one after the other.
pub open spec fn forest_text(f: Seq<TreeModel>) -> Seq<char>
    decreases f,
{
    if f.len() == 0 {
        Seq::empty()
    } else {
        tree_text(f[0]) + forest_text(f.skip(1))
    }
}

/// The text of a list with one more subtree at its end.
pub proof fn lemma_forest_text_push(f: Seq<TreeModel>, t: TreeModel)
    ensures
        forest_text(f.push(t)) == forest_text(f) + tree_text(t),
    decreases f.len(),
{
    let g = f.push(t);
    assert(g.len() > 0);
    if f.len() == 0 {
        assert(g[0] == t);
        assert(g.skip(1).len() == 0);
        assert(forest_text(g.skip(1)) =~= Seq::<char>::empty());
        assert(forest_text(g) =~= tree_text(t));
        assert(forest_text(f) + tree_text(t) =~= tree_text(t));
    } else {
        lemma_forest_text_push(f.skip(1), t);
        assert(g.skip(1) =~= f.skip(1).push(t));
        assert(g[0] == f[0]);
        assert(tree_text(f[0]) + (forest_text(f.skip(1)) + tree_text(t)) =~= (tree_text(f[0])
            + forest_text(f.skip(1))) + tree_text(t));
    }
}

/// The text below a node of a store is the text of its subtree.
pub proof fn lemma_text_of_subtree(s: Shape, datas: Seq<NodeDataView>, x: DomNode)
    requires
        s.wf(),
        s.has(x),
    ensures
        text_below(s, datas, x) == tree_text(subtree(s, datas, x)),
    decreases s.room(x), s.children_of(x).len() + 1,
{
    lemma_text_of_forest(s, datas, x, s.children_of(x).len());
}

/// The texts below the first `k` children are the text of their subtrees.
pub proof fn lemma_text_of_forest(s: Shape, datas: Seq<NodeDataView>, x: DomNode, k: nat)
    requires
        s.wf(),
        s.has(x),
        k <= s.children_of(x).len(),
    ensures
        text_first(s, datas, x, k) == forest_text(forest(s, datas, x, k)),
    decreases s.room(x), k,
{
    if k > 0 {
        lemma_child_room(s, x, k - 1);
        lemma_text_of_forest(s, datas, x, (k - 1) as nat);
        lemma_text_of_subtree(s, datas, s.children_of(x)[k - 1]);
        lemma_forest_text_push(
            forest(s, datas, x, (k - 1) as nat),
            subtree(s, datas, s.children_of(x)[k - 1]),
        );
    }
}

/// Merging keeps the text.
pub proof fn lemma_merged_text(f: Seq<TreeModel>)
    ensures
        forest_text(merged(f)) == forest_text(f),
    decreases f.len(),
{
    if f.len() == 0 {
    } else if is_text(f[0]) && f.len() > 1 && is_text(f[1]) {
        let g = seq![absorbed(f[0], f[1])] + f.skip(2);
        lemma_merged_text(g);
        assert(g[0] == absorbed(f[0], f[1]));
        assert(g.skip(1) =~= f.skip(2));
        assert(f.skip(1)[0] == f[1]);
        assert(f.skip(1).skip(1) =~= f.skip(2));
        assert(forest_text(f.skip(1)) == tree_text(f[1]) + forest_text(f.skip(2)));
        assert(tree_text(g[0]) =~= tree_text(f[0]) + tree_text(f[1]));
        assert((tree_text(f[0]) + tree_text(f[1])) + forest_text(f.skip(2)) =~= tree_text(f[0]) + (
        tree_text(f[1]) + forest_text(f.skip(2))));
    } else if is_text(f[0]) && text_of(f[0]).len() == 0 {
        lemma_merged_text(f.skip(1));
        assert(tree_text(f[0]) =~= Seq::<char>::empty());
        assert(tree_text(f[0]) + forest_text(f.skip(1)) =~= forest_text(f.skip(1)));
    } else {
        let g = f.skip(1);
        lemma_merged_text(g);
        let out = seq![f[0]] + merged(g);
        assert(merged(f) == out);
        assert(out[0] == f[0]);
        assert(out.skip(1) =~= merged(g));
    }
}

/// Putting a subtree in normal form keeps its text.
pub proof fn lemma_normalized_text(t: TreeModel)
    ensures
        tree_text(normalized(t)) == tree_text(t),
    decreases t,
{
    lemma_each_text(t.children);
    lemma_merged_text(normalized_each(t.children));
}

/// Putting each subtree in normal form keeps the text.
pub proof fn lemma_each_text(f: Seq<TreeModel>)
    ensures
        forest_text(normalized_each(f)) == forest_text(f),
    decreases f,
{
    if f.len() > 0 {
        lemma_each_front(f);
        lemma_each_text(f.skip(1));
        if !is_text(f[0]) {
            lemma_normalized_text(f[0]);
        }
    }
}

/// The subtrees of the children of `x`, in order.
pub open spec fn kid_models(d: &Dom, x: DomNode) -> Seq<TreeModel> {
    forest(d.shape(), d.datas(), x, d.children_of(x).len())
}

/// Whether a parent link is as it was or has been taken away.
pub open spec fn kept_or_cut(now: Option<DomNode>, before: Option<DomNode>) -> bool {
    now == before || now is None
}

/// Whether the nodes of `new` are nodes of `old`, in the order in which
/// they stand there: `new` is `old` without some of its nodes.
pub open spec fn embedded(new: Seq<DomNode>, old: Seq<DomNode>) -> bool {
    &&& forall|j: int| 0 <= j < new.len() ==> old.contains(#[trigger] new[j])
    &&& forall|j: int, k: int|
        0 <= j < k < new.len() ==> old.index_of(#[trigger] new[j]) < old.index_of(
            #[trigger] new[k],
        )
}

/// Whether `y` is in `after` what it was in `before`, but for what putting
/// text in normal form does. A node that is no text node holds what it held
/// and has the parent it had. A text node is a text node still, and has the
/// parent it had or none. The child list is the old one without some nodes.
pub open spec fn gently_changed(after: &Dom, before: &Dom, y: DomNode) -> bool {
    &&& if before.data_of(y) is Text {
        after.data_of(y) is Text && kept_or_cut(after.parent_of(y), before.parent_of(y))
    } else {
        after.data_of(y) == before.data_of(y) && after.parent_of(y) == before.parent_of(y)
    }
    &&& embedded(after.children_of(y), before.children_of(y))
}

/// Whether the nodes at the indices `q - 1` and `q` of the list were text
/// nodes in `before`.
pub open spec fn text_pair(before: &Dom, list: Seq<DomNode>, q: int) -> bool {
    1 <= q < list.len() && before.data_of(list[q - 1]) is Text && before.data_of(list[q]) is Text
}

/// Whether, of two text nodes that stood side by side among the children
/// of `y`, the second is a child of `y` still only where the first is: of a
/// run of text nodes the first is the one that stays.
pub open spec fn first_stays(after: &Dom, before: &Dom, y: DomNode) -> bool {
    forall|q: int| #[trigger]
        text_pair(before, before.children_of(y), q) && after.parent_of(before.children_of(y)[q])
            == Some(y) ==> after.parent_of(before.children_of(y)[q - 1]) == Some(y)
}

/// Whether, of every two text nodes that stood side by side among the
/// children of `y`, the second has no parent now.
pub open spec fn seconds_gone(after: &Dom, before: &Dom, y: DomNode) -> bool {
    forall|q: int| #[trigger]
        text_pair(before, before.children_of(y), q) ==> after.parent_of(before.children_of(y)[q])
            is None
}

/// Where the scan of the children of `x` stands. The child at index `i`
/// is the old child at index `a`; the old children between `a` and `b` were
/// text nodes and have gone into it; what follows is the old list from `b`
/// on. Before `a`, the second of every two text nodes side by side has gone.
/// Once the scan is over, that holds of the whole list.
pub open spec fn scanning(dom: &Dom, d0: &Dom, x: DomNode, i: int, a: int, b: int) -> bool {
    let k0 = d0.children_of(x);
    let k = dom.children_of(x);
    if i < k.len() {
        &&& 0 <= a < b <= k0.len()
        &&& k[i] == k0[a]
        &&& k.skip(i + 1) == k0.skip(b)
        &&& forall|q: int|
            a < q < b ==> d0.data_of(#[trigger] k0[q]) is Text && dom.parent_of(k0[q]) is None
        &&& (b > a + 1 ==> d0.data_of(k0[a]) is Text)
        &&& forall|q: int| q < a && #[trigger] text_pair(d0, k0, q) ==> dom.parent_of(k0[q]) is None
        &&& !text_pair(d0, k0, a)
    } else {
        forall|q: int| #[trigger] text_pair(d0, k0, q) ==> dom.parent_of(k0[q]) is None
    }
}

/// The scan begins at the first child.
proof fn lemma_scan_begins(d0: &Dom, x: DomNode)
    ensures
        scanning(d0, d0, x, 0, 0, 1),
{
}

/// The scan after the child at index `i + 1`, a text node, has gone into
/// the child at index `i`.
proof fn lemma_scan_merged(d1: &Dom, d2: &Dom, d0: &Dom, x: DomNode, i: int, a: int, b: int)
    requires
        scanning(d1, d0, x, i, a, b),
        0 <= i,
        i + 1 < d1.children_of(x).len(),
        d2.children_of(x) == d1.children_of(x).remove(i + 1),
        d0.data_of(d1.children_of(x)[i]) is Text,
        d0.data_of(d1.children_of(x)[i + 1]) is Text,
        d2.parent_of(d1.children_of(x)[i + 1]) is None,
        d0.wf(),
        d0.has(x),
        forall|z: DomNode|
            d0.has(z) && d1.parent_of(z) is None ==> #[trigger] d2.parent_of(z) is None,
    ensures
        scanning(d2, d0, x, i, a, b + 1),
{
    assert forall|q: int| 0 <= q < d0.children_of(x).len() implies d0.has(
        #[trigger] d0.children_of(x)[q],
    ) by {
        lemma_child_room(d0.shape(), x, q);
    }
    let k0 = d0.children_of(x);
    let k1 = d1.children_of(x);
    let k2 = d2.children_of(x);
    k1.remove_ensures(i + 1);
    assert(k1.skip(i + 1)[0] == k1[i + 1]);
    assert(k0.skip(b).len() > 0);
    assert(k0.skip(b)[0] == k0[b]);
    assert(k2.skip(i + 1) =~= k1.skip(i + 1).skip(1));
    assert(k0.skip(b + 1) =~= k0.skip(b).skip(1));
    assert(k2[i] == k1[i]);
    assert forall|q: int| a < q < b + 1 implies d0.data_of(#[trigger] k0[q]) is Text
        && d2.parent_of(k0[q]) is None by {
        if q < b {
            assert(d1.parent_of(k0[q]) is None);
        }
    }
    assert forall|q: int| q < a && #[trigger] text_pair(d0, k0, q) implies d2.parent_of(k0[q])
        is None by {
        assert(d1.parent_of(k0[q]) is None);
    }
}

/// The scan after the child at index `i`, a text node with no text node
/// after it, has been taken out.
proof fn lemma_scan_dropped(d1: &Dom, d2: &Dom, d0: &Dom, x: DomNode, i: int, a: int, b: int)
    requires
        scanning(d1, d0, x, i, a, b),
        0 <= i < d1.children_of(x).len(),
        d2.children_of(x) == d1.children_of(x).remove(i),
        i + 1 < d1.children_of(x).len() ==> !(d0.data_of(d1.children_of(x)[i + 1]) is Text),
        d2.parent_of(d1.children_of(x)[i]) is None,
        d0.wf(),
        d0.has(x),
        forall|z: DomNode|
            d0.has(z) && d1.parent_of(z) is None ==> #[trigger] d2.parent_of(z) is None,
    ensures
        scanning(d2, d0, x, i, b, b + 1),
{
    assert forall|q: int| 0 <= q < d0.children_of(x).len() implies d0.has(
        #[trigger] d0.children_of(x)[q],
    ) by {
        lemma_child_room(d0.shape(), x, q);
    }
    let k0 = d0.children_of(x);
    let k1 = d1.children_of(x);
    let k2 = d2.children_of(x);
    k1.remove_ensures(i);
    if i + 1 < k1.len() {
        assert(k1.skip(i + 1)[0] == k1[i + 1]);
        assert(k0.skip(b).len() > 0);
        assert(k0.skip(b)[0] == k0[b]);
        assert(k2[i] == k1[i + 1]);
        assert(k2.skip(i + 1) =~= k1.skip(i + 1).skip(1));
        assert(k0.skip(b + 1) =~= k0.skip(b).skip(1));
        assert forall|q: int| q < b && #[trigger] text_pair(d0, k0, q) implies d2.parent_of(
            k0[q],
        ) is None by {
            if q < a {
                assert(d1.parent_of(k0[q]) is None);
            } else if q > a {
                assert(d1.parent_of(k0[q]) is None);
            }
        }
    } else {
        assert(k1.skip(i + 1).len() == 0);
        assert(k0.skip(b).len() == 0);
        assert forall|q: int| #[trigger] text_pair(d0, k0, q) implies d2.parent_of(k0[q])
            is None by {
            if q < a {
                assert(d1.parent_of(k0[q]) is None);
            } else if q > a {
                assert(d1.parent_of(k0[q]) is None);
            }
        }
    }
}

/// The scan after it has gone past the child at index `i`, which is no
/// text node or has no text node after it.
proof fn lemma_scan_stepped(d1: &Dom, d2: &Dom, d0: &Dom, x: DomNode, i: int, a: int, b: int)
    requires
        scanning(d1, d0, x, i, a, b),
        0 <= i < d1.children_of(x).len(),
        d2.children_of(x) == d1.children_of(x),
        i + 1 < d1.children_of(x).len() ==> !(d0.data_of(d1.children_of(x)[i + 1]) is Text) || !(
        d0.data_of(d1.children_of(x)[i]) is Text),
        d0.wf(),
        d0.has(x),
        forall|z: DomNode|
            d0.has(z) && d1.parent_of(z) is None ==> #[trigger] d2.parent_of(z) is None,
    ensures
        scanning(d2, d0, x, i + 1, b, b + 1),
{
    assert forall|q: int| 0 <= q < d0.children_of(x).len() implies d0.has(
        #[trigger] d0.children_of(x)[q],
    ) by {
        lemma_child_room(d0.shape(), x, q);
    }
    let k0 = d0.children_of(x);
    let k1 = d1.children_of(x);
    if i + 1 < k1.len() {
        assert(k1.skip(i + 1)[0] == k1[i + 1]);
        assert(k0.skip(b).len() > 0);
        assert(k0.skip(b)[0] == k0[b]);
        assert(k1.skip(i + 2) =~= k1.skip(i + 1).skip(1));
        assert(k0.skip(b + 1) =~= k0.skip(b).skip(1));
        assert forall|q: int| q < b && #[trigger] text_pair(d0, k0, q) implies d2.parent_of(
            k0[q],
        ) is None by {
            if q < a {
                assert(d1.parent_of(k0[q]) is None);
            } else if q > a {
                assert(d1.parent_of(k0[q]) is None);
            }
        }
    } else {
        assert(k1.skip(i + 1).len() == 0);
        assert(k0.skip(b).len() == 0);
        assert forall|q: int| #[trigger] text_pair(d0, k0, q) implies d2.parent_of(k0[q])
            is None by {
            if q < a {
                assert(d1.parent_of(k0[q]) is None);
            } else if q > a {
                assert(d1.parent_of(k0[q]) is None);
            }
        }
    }
}

/// Where the first of a run stays through one change and through the
/// next, it stays through both.
pub proof fn lemma_first_stays_twice(a2: &Dom, a1: &Dom, a0: &Dom, y: DomNode)
    requires
        a0.wf(),
        a1.wf(),
        a2.wf(),
        a0.has(y),
        a1.count() == a0.count(),
        forall|z: DomNode| a0.has(z) ==> #[trigger] gently_changed(a1, a0, z),
        forall|z: DomNode| a0.has(z) ==> kept_or_cut(#[trigger] a2.parent_of(z), a1.parent_of(z)),
        first_stays(a1, a0, y),
        first_stays(a2, a1, y),
    ensures
        first_stays(a2, a0, y),
{
    let l0 = a0.children_of(y);
    let l1 = a1.children_of(y);
    assert forall|q: int| #[trigger]
        text_pair(a0, l0, q) && a2.parent_of(l0[q]) == Some(y) implies a2.parent_of(l0[q - 1])
        == Some(y) by {
        let u = l0[q - 1];
        let v = l0[q];
        lemma_child_room(a0.shape(), y, q);
        lemma_child_room(a0.shape(), y, q - 1);
        assert(a0.shape().node_ok(y));
        assert(kept_or_cut(a2.parent_of(v), a1.parent_of(v)));
        assert(a1.parent_of(v) == Some(y));
        assert(text_pair(a0, l0, q));
        assert(a1.parent_of(u) == Some(y));
        a1.shape().lemma_index_of(y, u);
        a1.shape().lemma_index_of(y, v);
        let m1 = l1.index_of(u);
        let m = l1.index_of(v);
        assert(gently_changed(a1, a0, y));
        assert(gently_changed(a1, a0, u));
        assert(gently_changed(a1, a0, v));
        assert(l0.contains(u) && l0.contains(v));
        assert(l0.index_of(u) == q - 1);
        assert(l0.index_of(v) == q);
        assert(l1[m1] == u && l1[m] == v);
        if m < m1 {
            assert(l0.index_of(l1[m]) < l0.index_of(l1[m1]));
        }
        if m > m1 + 1 {
            let w = l1[m1 + 1];
            assert(l0.index_of(l1[m1]) < l0.index_of(l1[m1 + 1]));
            assert(l0.index_of(l1[m1 + 1]) < l0.index_of(l1[m]));
        }
        assert(m == m1 + 1);
        assert(text_pair(a1, l1, m));
    }
}

/// A list without duplicates is itself without none of its nodes.
pub proof fn lemma_embedded_same(list: Seq<DomNode>)
    requires
        list.no_duplicates(),
    ensures
        embedded(list, list),
{
    assert forall|j: int| 0 <= j < list.len() implies list.contains(#[trigger] list[j])
        && list.index_of(list[j]) == j by {
        assert(list.contains(list[j]));
    }
}

/// Taking a node out of a list that is an old list without some nodes
/// leaves such a list.
pub proof fn lemma_embedded_less(new: Seq<DomNode>, old: Seq<DomNode>, m: int)
    requires
        embedded(new, old),
        0 <= m < new.len(),
    ensures
        embedded(new.remove(m), old),
{
    let less = new.remove(m);
    new.remove_ensures(m);
    assert forall|j: int| 0 <= j < less.len() implies old.contains(#[trigger] less[j]) by {
        let oj = if j < m { j } else { j + 1 };
        assert(less[j] == new[oj]);
    }
    assert forall|j: int, k: int| 0 <= j < k < less.len() implies old.index_of(
        #[trigger] less[j],
    ) < old.index_of(#[trigger] less[k]) by {
        let oj = if j < m { j } else { j + 1 };
        let ok = if k < m { k } else { k + 1 };
        assert(less[j] == new[oj]);
        assert(less[k] == new[ok]);
    }
}

/// Taking nodes out twice is taking nodes out.
pub proof fn lemma_embedded_twice(a: Seq<DomNode>, b: Seq<DomNode>, c: Seq<DomNode>)
    requires
        embedded(a, b),
        embedded(b, c),
    ensures
        embedded(a, c),
{
    assert forall|j: int| 0 <= j < a.len() implies c.contains(#[trigger] a[j]) by {
        let p = b.index_of(a[j]);
        assert(b.contains(a[j]));
        assert(b[p] == a[j]);
    }
    assert forall|j: int, k: int| 0 <= j < k < a.len() implies c.index_of(#[trigger] a[j])
        < c.index_of(#[trigger] a[k]) by {
        let p = b.index_of(a[j]);
        let q = b.index_of(a[k]);
        assert(b.contains(a[j]) && b.contains(a[k]));
        assert(b[p] == a[j] && b[q] == a[k]);
    }
}

/// Two gentle changes, one after the other, are a gentle change.
pub proof fn lemma_gently_twice(a: &Dom, b: &Dom, c: &Dom, y: DomNode)
    requires
        gently_changed(a, b, y),
        gently_changed(b, c, y),
    ensures
        gently_changed(a, c, y),
{
    lemma_embedded_twice(a.children_of(y), b.children_of(y), c.children_of(y));
}

impl Shape {
    /// A node does not stand below its own child.
    pub proof fn lemma_not_below_child(self, x: DomNode, k: int)
        requires
            self.wf(),
            self.has(x),
            0 <= k < self.children_of(x).len(),
        ensures
            !self.is_ancestor(self.children_of(x)[k], x),
            self.children_of(x)[k] != x,
    {
        lemma_child_room(self, x, k);
        let c = self.children_of(x)[k];
        assert(self.node_ok(c));
        if self.is_ancestor(c, x) {
            self.lemma_ancestor_rank(c, x);
        }
    }

    /// Nothing stands below two different children of one node.
    pub proof fn lemma_siblings_apart(self, x: DomNode, i: int, j: int, y: DomNode)
        requires
            self.wf(),
            self.has(x),
            self.has(y),
            0 <= i < self.children_of(x).len(),
            0 <= j < self.children_of(x).len(),
            i != j,
            self.is_ancestor(self.children_of(x)[i], y),
        ensures
            !self.is_ancestor(self.children_of(x)[j], y),
            y != x,
        decreases self.rank_of(y),
    {
        let a = self.children_of(x)[i];
        let b = self.children_of(x)[j];
        lemma_child_room(self, x, i);
        lemma_child_room(self, x, j);
        assert(self.node_ok(x));
        assert(a != b);
        self.lemma_not_below_child(x, i);
        self.lemma_not_below_child(x, j);
        assert(self.node_ok(y));
        if y == a {
            if self.is_ancestor(b, a) {
                assert(self.is_ancestor(b, x));
            }
        } else if y == b {
            assert(self.is_ancestor(a, x));
        } else {
            match self.parent_of(y) {
                Some(p) => {
                    self.lemma_siblings_apart(x, i, j, p);
                },
                None => {},
            }
        }
    }

    /// Where links have only been taken away, nothing has come to stand
    /// above anything.
    pub proof fn lemma_fewer_links(self, before: Shape, a: DomNode, y: DomNode)
        requires
            self.wf(),
            before.wf(),
            self.parents.len() == before.parents.len(),
            self.has(y),
            forall|z: DomNode|
                self.has(z) ==> kept_or_cut(#[trigger] self.parent_of(z), before.parent_of(z)),
            self.is_ancestor(a, y),
        ensures
            before.is_ancestor(a, y),
        decreases self.rank_of(y),
    {
        assert(self.node_ok(y));
        if y != a {
            let p = self.parent_of(y).unwrap();
            assert(kept_or_cut(self.parent_of(y), before.parent_of(y)));
            self.lemma_fewer_links(before, a, p);
        }
    }
}

/// The subtree of a child of `x` is the same in two stores that differ
/// only at `x` and at or below another child `c` of `x`.
pub proof fn lemma_kid_kept(d1: &Dom, d2: &Dom, x: DomNode, j1: int, j2: int, ic: int)
    requires
        d1.wf(),
        d2.wf(),
        d1.has(x),
        d2.has(x),
        0 <= j1 < d1.children_of(x).len(),
        0 <= j2 < d2.children_of(x).len(),
        0 <= ic < d1.children_of(x).len(),
        ic != j1,
        d1.children_of(x)[j1] == d2.children_of(x)[j2],
        forall|y: DomNode|
            d1.has(y) && y != x && !d1.is_ancestor(d1.children_of(x)[ic], y) ==> #[trigger] d2.has(
                y,
            ) && d2.children_of(y) == d1.children_of(y) && d2.data_of(y) == d1.data_of(y),
    ensures
        kid_models(d2, x)[j2] == kid_models(d1, x)[j1],
{
    let r = d1.children_of(x)[j1];
    lemma_child_room(d1.shape(), x, j1);
    lemma_forest_len(d1.shape(), d1.datas(), x, d1.children_of(x).len());
    lemma_forest_len(d2.shape(), d2.datas(), x, d2.children_of(x).len());
    assert forall|y: DomNode| d1.shape().has(y) && #[trigger] d1.shape().is_ancestor(
        r,
        y,
    ) implies d2.shape().has(y) && d2.shape().children_of(y) == d1.shape().children_of(y)
        && d2.datas()[y.id as int] == d1.datas()[y.id as int] by {
        d1.shape().lemma_siblings_apart(x, j1, ic, y);
        assert(d2.has(y));
    }
    lemma_subtree_frame(d1.shape(), d1.datas(), d2.shape(), d2.datas(), r);
}

/// The subtrees of the children of `x` after the child at index `i + 1`
/// has been merged into the child at index `i`.
proof fn lemma_models_after_merge(d1: &Dom, d2: &Dom, x: DomNode, i: int)
    requires
        d1.wf(),
        d2.wf(),
        d1.has(x),
        d2.count() == d1.count(),
        0 <= i,
        i + 1 < d1.children_of(x).len(),
        d1.data_of(d1.children_of(x)[i]) is Text,
        d1.data_of(d1.children_of(x)[i + 1]) is Text,
        d2.children_of(x) == d1.children_of(x).remove(i + 1),
        d2.data_of(d1.children_of(x)[i]) == (NodeDataView::Text {
            contents: d1.data_of(d1.children_of(x)[i])->Text_contents + d1.data_of(
                d1.children_of(x)[i + 1],
            )->Text_contents,
        }),
        forall|y: DomNode|
            d1.has(y) && y != x ==> #[trigger] d2.children_of(y) == d1.children_of(y),
        forall|y: DomNode|
            d1.has(y) && y != d1.children_of(x)[i] ==> #[trigger] d2.data_of(y) == d1.data_of(y),
    ensures
        kid_models(d2, x) == kid_models(d1, x).take(i) + seq![
            absorbed(kid_models(d1, x)[i], kid_models(d1, x)[i + 1]),
        ] + kid_models(d1, x).skip(i + 2),
        kid_models(d1, x).len() == d1.children_of(x).len(),
        is_text(kid_models(d1, x)[i]),
        is_text(kid_models(d1, x)[i + 1]),
{
    let k1 = d1.children_of(x);
    let k2 = d2.children_of(x);
    let f1 = kid_models(d1, x);
    let f2 = kid_models(d2, x);
    let c = k1[i];
    k1.remove_ensures(i + 1);
    lemma_forest_len(d1.shape(), d1.datas(), x, k1.len());
    lemma_forest_len(d2.shape(), d2.datas(), x, k2.len());
    lemma_child_room(d1.shape(), x, i);
    lemma_child_room(d1.shape(), x, i + 1);
    d1.shape().lemma_not_below_child(x, i);
    let want = f1.take(i) + seq![absorbed(f1[i], f1[i + 1])] + f1.skip(i + 2);
    assert(d1.shape().is_ancestor(c, c));
    assert forall|j: int| 0 <= j < f2.len() implies f2[j] == want[j] by {
        if j < i {
            assert(k2[j] == k1[j]);
            assert forall|y: DomNode|
                d1.has(y) && y != x && !d1.is_ancestor(k1[i], y) implies #[trigger] d2.has(y)
                && d2.children_of(y) == d1.children_of(y) && d2.data_of(y) == d1.data_of(y) by {}
            lemma_kid_kept(d1, d2, x, j, j, i);
        } else if j > i {
            assert(k2[j] == k1[j + 1]);
            assert forall|y: DomNode|
                d1.has(y) && y != x && !d1.is_ancestor(k1[i], y) implies #[trigger] d2.has(y)
                && d2.children_of(y) == d1.children_of(y) && d2.data_of(y) == d1.data_of(y) by {}
            lemma_kid_kept(d1, d2, x, j + 1, j, i);
            assert(want[j] == f1[j + 1]);
        } else {
            assert(k2[i] == c);
            assert(d2.children_of(c) == d1.children_of(c));
            assert forall|y: DomNode|
                d1.shape().has(y) && y != c && #[trigger] d1.shape().is_ancestor(
                    c,
                    y,
                ) implies d2.shape().has(y) && d2.shape().children_of(y)
                == d1.shape().children_of(y) && d2.datas()[y.id as int]
                == d1.datas()[y.id as int] by {
                assert(d2.children_of(y) == d1.children_of(y));
                assert(d2.data_of(y) == d1.data_of(y));
            }
            lemma_forest_frame(
                d1.shape(),
                d1.datas(),
                d2.shape(),
                d2.datas(),
                c,
                d1.children_of(c).len(),
            );
            assert(f2[i] == subtree(d2.shape(), d2.datas(), c));
            assert(f1[i] == subtree(d1.shape(), d1.datas(), c));
            assert(want[i] == absorbed(f1[i], f1[i + 1]));
        }
    }
    assert(f2 =~= want);
}

/// The subtrees of the children of `x` after the child at index `i` has
/// been taken out.
proof fn lemma_models_after_drop(d1: &Dom, d2: &Dom, x: DomNode, i: int)
    requires
        d1.wf(),
        d2.wf(),
        d1.has(x),
        d2.count() == d1.count(),
        0 <= i < d1.children_of(x).len(),
        d2.children_of(x) == d1.children_of(x).remove(i),
        forall|y: DomNode|
            d1.has(y) && y != x ==> #[trigger] d2.children_of(y) == d1.children_of(y),
        forall|y: DomNode| d1.has(y) ==> #[trigger] d2.data_of(y) == d1.data_of(y),
    ensures
        kid_models(d2, x) == kid_models(d1, x).take(i) + kid_models(d1, x).skip(i + 1),
        kid_models(d1, x).len() == d1.children_of(x).len(),
{
    let k1 = d1.children_of(x);
    let k2 = d2.children_of(x);
    let f1 = kid_models(d1, x);
    let f2 = kid_models(d2, x);
    k1.remove_ensures(i);
    lemma_forest_len(d1.shape(), d1.datas(), x, k1.len());
    lemma_forest_len(d2.shape(), d2.datas(), x, k2.len());
    let want = f1.take(i) + f1.skip(i + 1);
    assert forall|j: int| 0 <= j < f2.len() implies f2[j] == want[j] by {
        assert forall|y: DomNode|
            d1.has(y) && y != x && !d1.is_ancestor(k1[i], y) implies #[trigger] d2.has(y)
            && d2.children_of(y) == d1.children_of(y) && d2.data_of(y) == d1.data_of(y) by {}
        if j < i {
            assert(k2[j] == k1[j]);
            lemma_kid_kept(d1, d2, x, j, j, i);
        } else {
            assert(k2[j] == k1[j + 1]);
            lemma_kid_kept(d1, d2, x, j + 1, j, i);
            assert(want[j] == f1[j + 1]);
        }
    }
    assert(f2 =~= want);
}

/// The subtrees of the children of `x` after the subtree of the child at
/// index `i` has been put in normal form.
proof fn lemma_models_after_inner(d1: &Dom, d2: &Dom, x: DomNode, i: int)
    requires
        d1.wf(),
        d2.wf(),
        d1.has(x),
        d2.count() == d1.count(),
        0 <= i < d1.children_of(x).len(),
        d2.subtree_of(d1.children_of(x)[i]) == normalized(d1.subtree_of(d1.children_of(x)[i])),
        forall|y: DomNode|
            d1.has(y) && !d1.is_ancestor(d1.children_of(x)[i], y) ==> #[trigger] d2.children_of(y)
                == d1.children_of(y) && d2.data_of(y) == d1.data_of(y),
    ensures
        d2.children_of(x) == d1.children_of(x),
        kid_models(d2, x) == kid_models(d1, x).update(i, normalized(kid_models(d1, x)[i])),
        kid_models(d1, x).len() == d1.children_of(x).len(),
{
    let k1 = d1.children_of(x);
    let f1 = kid_models(d1, x);
    let f2 = kid_models(d2, x);
    d1.shape().lemma_not_below_child(x, i);
    assert(d2.children_of(x) == k1);
    lemma_forest_len(d1.shape(), d1.datas(), x, k1.len());
    lemma_forest_len(d2.shape(), d2.datas(), x, k1.len());
    let want = f1.update(i, normalized(f1[i]));
    assert forall|j: int| 0 <= j < f2.len() implies f2[j] == want[j] by {
        if j != i {
            assert forall|y: DomNode|
                d1.has(y) && y != x && !d1.is_ancestor(k1[i], y) implies #[trigger] d2.has(y)
                && d2.children_of(y) == d1.children_of(y) && d2.data_of(y) == d1.data_of(y) by {}
            lemma_kid_kept(d1, d2, x, j, j, i);
        }
    }
    assert(f2 =~= want);
}

/// Puts what is below `x` in normal form.
fn normalize_below(dom: &mut Dom, x: DomNode)
    requires
        old(dom).wf(),
        old(dom).has(x),
    ensures
        final(dom).wf(),
        final(dom).count() == old(dom).count(),
        final(dom).shape().rank == old(dom).shape().rank,
        final(dom).shape().bound == old(dom).shape().bound,
        final(dom).subtree_of(x) == normalized(old(dom).subtree_of(x)),
        final(dom).data_of(x) == old(dom).data_of(x),
        final(dom).parent_of(x) == old(dom).parent_of(x),
        forall|y: DomNode|
            old(dom).has(y) ==> kept_or_cut(
                #[trigger] final(dom).parent_of(y),
                old(dom).parent_of(y),
            ),
        forall|y: DomNode| old(dom).has(y) ==> #[trigger] gently_changed(final(dom), old(dom), y),
        forall|y: DomNode| old(dom).has(y) ==> #[trigger] first_stays(final(dom), old(dom), y),
        seconds_gone(final(dom), old(dom), x),
        forall|y: DomNode|
            old(dom).has(y) && !#[trigger] old(dom).is_ancestor(x, y) ==> final(dom).children_of(y)
                == old(dom).children_of(y) && final(dom).data_of(y) == old(dom).data_of(y)
                && final(dom).parent_of(y) == old(dom).parent_of(y),
    decreases old(dom).shape().room(x),
{
    let ghost d0 = *dom;
    let ghost target = merged(normalized_each(kid_models(&d0, x)));
    let mut i: usize = 0;
    let ghost mut a: int = 0;
    let ghost mut b: int = 1;
    proof {
        lemma_scan_begins(&d0, x);
        assert forall|y: DomNode| d0.has(y) && y != x implies #[trigger] first_stays(
            &d0,
            &d0,
            y,
        ) by {
            assert forall|q: int| #[trigger]
                text_pair(&d0, d0.children_of(y), q) implies d0.parent_of(d0.children_of(y)[q - 1])
                == Some(y) by {
                lemma_child_room(d0.shape(), y, q - 1);
            }
        }
        let f = kid_models(&d0, x);
        assert(f.take(0) =~= Seq::<TreeModel>::empty());
        assert(f.skip(0) =~= f);
        assert(d0.shape().is_ancestor(x, x));
        assert forall|y: DomNode| d0.has(y) implies #[trigger] gently_changed(&d0, &d0, y) by {
            assert(d0.shape().node_ok(y));
            lemma_embedded_same(d0.children_of(y));
        }
    }
    loop
        invariant
            d0 == *old(dom),
            d0.wf(),
            d0.has(x),
            target == merged(normalized_each(kid_models(&d0, x))),
            dom.wf(),
            dom.has(x),
            dom.count() == d0.count(),
            dom.shape().rank == d0.shape().rank,
            dom.shape().bound == d0.shape().bound,
            i <= dom.children_of(x).len(),
            target == kid_models(dom, x).take(i as int) + merged(
                normalized_each(kid_models(dom, x).skip(i as int)),
            ),
            dom.data_of(x) == d0.data_of(x),
            dom.parent_of(x) == d0.parent_of(x),
            forall|y: DomNode|
                d0.has(y) ==> kept_or_cut(#[trigger] dom.parent_of(y), d0.parent_of(y)),
            forall|y: DomNode| d0.has(y) ==> #[trigger] gently_changed(dom, &d0, y),
            forall|y: DomNode| d0.has(y) && y != x ==> #[trigger] first_stays(dom, &d0, y),
            scanning(dom, &d0, x, i as int, a, b),
            forall|y: DomNode|
                d0.has(y) && !#[trigger] d0.is_ancestor(x, y) ==> dom.children_of(y)
                    == d0.children_of(y) && dom.data_of(y) == d0.data_of(y) && dom.parent_of(y)
                    == d0.parent_of(y),
        ensures
            i == dom.children_of(x).len(),
        decreases 2 * dom.children_of(x).len() - i,
    {
        let n = dom.child_count(x);
        if i >= n {
            break ;
        }
        let ghost d1 = *dom;
        let ghost f1 = kid_models(&d1, x);
        let c = dom.child_at(x, i);
        proof {
            lemma_child_room(d1.shape(), x, i as int);
            lemma_forest_len(d1.shape(), d1.datas(), x, n as nat);
            d1.shape().lemma_not_below_child(x, i as int);
            assert(f1[i as int] == subtree(d1.shape(), d1.datas(), c));
            assert(f1.skip(i as int)[0] == f1[i as int]);
            assert(f1.skip(i as int).skip(1) =~= f1.skip(i + 1));
            assert(f1.take(i + 1) =~= f1.take(i as int) + seq![f1[i as int]]);
            // what stands at or below the child stood below `x` from the start
            assert(d1.parent_of(c) == Some(x));
            assert(kept_or_cut(d1.parent_of(c), d0.parent_of(c)));
            assert(d0.parent_of(c) == Some(x));
            assert(d0.shape().node_ok(c));
            assert(d0.is_ancestor(x, x));
            assert(d0.is_ancestor(x, c));
        }
        let c_text: Option<bool> = match dom.data(c) {
            NodeData::Text { contents } => Some(contents.as_str().unicode_len() == 0),
            _ => None,
        };
        match c_text {
            Some(c_empty) => {
                let next_text: Option<String> = if i + 1 < n {
                    let d = dom.child_at(x, i + 1);
                    proof {
                        lemma_child_room(d1.shape(), x, i + 1);
                    }
                    match dom.data(d) {
                        NodeData::Text { contents } => Some(contents.clone()),
                        _ => None,
                    }
                } else {
                    None
                };
                match next_text {
                    Some(t) => {
                        let d = dom.child_at(x, i + 1);
                        proof {
                            lemma_child_room(d1.shape(), x, i + 1);
                            d1.shape().lemma_index_of(x, d);
                            assert(c != d) by {
                                assert(d1.shape().node_ok(x));
                            }
                            assert(d1.parent_of(d) == Some(x));
                            assert(kept_or_cut(d1.parent_of(d), d0.parent_of(d)));
                            assert(d0.parent_of(d) == Some(x));
                            assert(d0.shape().node_ok(d));
                            assert(d0.is_ancestor(x, d));
                        }
                        c.append_data(dom, t);
                        dom.detach(d);
                        proof {
                            assert(c != x && d != x);
                            assert(dom.data_of(x) == d1.data_of(x));
                            assert(dom.parent_of(x) == d1.parent_of(x));
                            assert(dom.children_of(x) == d1.children_of(x).remove(i + 1));
                            lemma_models_after_merge(&d1, dom, x, i as int);
                            let f2 = kid_models(dom, x);
                            let r = f1.skip(i as int);
                            assert(r[1] == f1[i + 1]);
                            assert(r.skip(2) =~= f1.skip(i + 2));
                            lemma_front_merges(r);
                            assert(f2.take(i as int) =~= f1.take(i as int));
                            assert(f2.skip(i as int) =~= seq![absorbed(r[0], r[1])] + r.skip(2));
                            d1.children_of(x).remove_ensures(i + 1);
                            assert forall|y: DomNode| d0.has(y) implies kept_or_cut(
                                #[trigger] dom.parent_of(y),
                                d0.parent_of(y),
                            ) by {
                                assert(kept_or_cut(d1.parent_of(y), d0.parent_of(y)));
                            }
                            assert forall|y: DomNode| d0.has(y) implies #[trigger] gently_changed(
                                dom,
                                &d0,
                                y,
                            ) by {
                                assert(gently_changed(&d1, &d0, y));
                                assert(gently_changed(&d1, &d0, c));
                                assert(gently_changed(&d1, &d0, d));
                                if y == x {
                                    lemma_embedded_less(d1.children_of(x), d0.children_of(x), i + 1);
                                } else {
                                    assert(dom.children_of(y) == d1.children_of(y));
                                }
                            }
                            assert(gently_changed(&d1, &d0, c));
                            assert(gently_changed(&d1, &d0, d));
                            assert forall|z: DomNode|
                                d0.has(z) && d1.parent_of(z) is None implies #[trigger] dom.parent_of(
                                z,
                            ) is None by {
                                assert(kept_or_cut(dom.parent_of(z), d0.parent_of(z)));
                            }
                            lemma_scan_merged(&d1, dom, &d0, x, i as int, a, b);
                            b = b + 1;
                            assert forall|y: DomNode|
                                d0.has(y) && y != x implies #[trigger] first_stays(dom, &d0, y) by {
                                assert(first_stays(&d1, &d0, y));
                                assert forall|q: int| #[trigger]
                                    text_pair(&d0, d0.children_of(y), q) && dom.parent_of(
                                        d0.children_of(y)[q],
                                    ) == Some(y) implies dom.parent_of(d0.children_of(y)[q - 1])
                                    == Some(y) by {
                                    lemma_child_room(d0.shape(), y, q - 1);
                                    lemma_child_room(d0.shape(), y, q);
                                    assert(text_pair(&d0, d0.children_of(y), q));
                                }
                            }
                        }
                    },
                    None => {
                        proof {
                            if i + 1 < n {
                                assert(f1[i + 1] == subtree(
                                    d1.shape(),
                                    d1.datas(),
                                    d1.children_of(x)[i + 1],
                                ));
                                assert(f1.skip(i as int)[1] == f1[i + 1]);
                            }
                        }
                        if c_empty {
                            proof {
                                d1.shape().lemma_index_of(x, c);
                            }
                            dom.detach(c);
                            proof {
                                assert(c != x);
                                assert(dom.data_of(x) == d1.data_of(x));
                                assert(dom.parent_of(x) == d1.parent_of(x));
                                assert(dom.children_of(x) == d1.children_of(x).remove(i as int));
                                lemma_models_after_drop(&d1, dom, x, i as int);
                                let f2 = kid_models(dom, x);
                                lemma_front_drops(f1.skip(i as int));
                                assert(f2.take(i as int) =~= f1.take(i as int));
                                assert(f2.skip(i as int) =~= f1.skip(i + 1));
                                d1.children_of(x).remove_ensures(i as int);
                                assert forall|y: DomNode| d0.has(y) implies kept_or_cut(
                                    #[trigger] dom.parent_of(y),
                                    d0.parent_of(y),
                                ) by {
                                    assert(kept_or_cut(d1.parent_of(y), d0.parent_of(y)));
                                }
                                assert forall|y: DomNode|
                                    d0.has(y) implies #[trigger] gently_changed(dom, &d0, y) by {
                                    assert(gently_changed(&d1, &d0, y));
                                    assert(gently_changed(&d1, &d0, c));
                                    if y == x {
                                        lemma_embedded_less(
                                            d1.children_of(x),
                                            d0.children_of(x),
                                            i as int,
                                        );
                                    } else {
                                        assert(dom.children_of(y) == d1.children_of(y));
                                    }
                                }
                                if i + 1 < n {
                                    lemma_child_room(d1.shape(), x, i + 1);
                                    assert(gently_changed(&d1, &d0, d1.children_of(x)[i + 1]));
                                }
                                assert forall|z: DomNode|
                                    d0.has(z) && d1.parent_of(z)
                                        is None implies #[trigger] dom.parent_of(z) is None by {
                                    assert(kept_or_cut(dom.parent_of(z), d0.parent_of(z)));
                                }
                                lemma_scan_dropped(&d1, dom, &d0, x, i as int, a, b);
                                a = b;
                                b = b + 1;
                                assert forall|y: DomNode|
                                    d0.has(y) && y != x implies #[trigger] first_stays(
                                    dom,
                                    &d0,
                                    y,
                                ) by {
                                    assert(first_stays(&d1, &d0, y));
                                    assert forall|q: int| #[trigger]
                                        text_pair(&d0, d0.children_of(y), q) && dom.parent_of(
                                            d0.children_of(y)[q],
                                        ) == Some(y) implies dom.parent_of(
                                        d0.children_of(y)[q - 1],
                                    ) == Some(y) by {
                                        lemma_child_room(d0.shape(), y, q - 1);
                                        lemma_child_room(d0.shape(), y, q);
                                        assert(text_pair(&d0, d0.children_of(y), q));
                                    }
                                }
                            }
                        } else {
                            proof {
                                lemma_front_stays(f1.skip(i as int));
                                assert(f1.take(i as int) + (seq![f1[i as int]] + merged(
                                    normalized_each(f1.skip(i + 1)),
                                )) =~= f1.take(i + 1) + merged(normalized_each(f1.skip(i + 1))));
                                if i + 1 < n {
                                    lemma_child_room(d1.shape(), x, i + 1);
                                    assert(gently_changed(&d1, &d0, d1.children_of(x)[i + 1]));
                                }
                                lemma_scan_stepped(&d1, dom, &d0, x, i as int, a, b);
                                a = b;
                                b = b + 1;
                            }
                            i += 1;
                        }
                    },
                }
            },
            None => {
                normalize_below(dom, c);
                proof {
                    assert(!d1.is_ancestor(c, x));
                    assert(dom.data_of(x) == d1.data_of(x));
                    assert(dom.parent_of(x) == d1.parent_of(x));
                    lemma_models_after_inner(&d1, dom, x, i as int);
                    let f2 = kid_models(dom, x);
                    lemma_front_stays(f1.skip(i as int));
                    assert(f2.take(i + 1) =~= f1.take(i as int) + seq![normalized(f1[i as int])]);
                    assert(f2.skip(i + 1) =~= f1.skip(i + 1));
                    assert(f1.take(i as int) + (seq![normalized(f1[i as int])] + merged(
                        normalized_each(f1.skip(i + 1)),
                    )) =~= f2.take(i + 1) + merged(normalized_each(f2.skip(i + 1))));
                    assert forall|y: DomNode|
                        d0.has(y) && !#[trigger] d0.is_ancestor(x, y) implies dom.children_of(y)
                        == d0.children_of(y) && dom.data_of(y) == d0.data_of(y) && dom.parent_of(y)
                        == d0.parent_of(y) by {
                        if d1.is_ancestor(c, y) {
                            assert forall|z: DomNode| d1.shape().has(z) implies kept_or_cut(
                                #[trigger] d1.shape().parent_of(z),
                                d0.shape().parent_of(z),
                            ) by {
                                assert(kept_or_cut(d1.parent_of(z), d0.parent_of(z)));
                            }
                            d1.shape().lemma_fewer_links(d0.shape(), c, y);
                            d0.shape().lemma_ancestor_transitive(x, c, y);
                        }
                    }
                    assert forall|y: DomNode| d0.has(y) implies kept_or_cut(
                        #[trigger] dom.parent_of(y),
                        d0.parent_of(y),
                    ) by {
                        assert(kept_or_cut(d1.parent_of(y), d0.parent_of(y)));
                    }
                    assert forall|y: DomNode| d0.has(y) implies #[trigger] gently_changed(
                        dom,
                        &d0,
                        y,
                    ) by {
                        assert(gently_changed(&d1, &d0, y));
                        assert(gently_changed(dom, &d1, y));
                        lemma_gently_twice(dom, &d1, &d0, y);
                    }
                    assert forall|y: DomNode|
                        d0.has(y) && y != x implies #[trigger] first_stays(dom, &d0, y) by {
                        assert(first_stays(&d1, &d0, y));
                        assert(first_stays(dom, &d1, y));
                        lemma_first_stays_twice(dom, &d1, &d0, y);
                    }
                    // a child that is no text node has nothing gone into it
                    assert(gently_changed(&d1, &d0, c));
                    if i + 1 < n {
                        lemma_child_room(d1.shape(), x, i + 1);
                        assert(gently_changed(&d1, &d0, d1.children_of(x)[i + 1]));
                    }
                    assert forall|z: DomNode|
                        d0.has(z) && d1.parent_of(z) is None implies #[trigger] dom.parent_of(z)
                        is None by {
                        assert(kept_or_cut(dom.parent_of(z), d1.parent_of(z)));
                    }
                    lemma_scan_stepped(&d1, dom, &d0, x, i as int, a, b);
                    a = b;
                    b = b + 1;
                }
                i += 1;
            },
        }
    }
    proof {
        assert(seconds_gone(dom, &d0, x));
        assert(first_stays(dom, &d0, x));
        let f = kid_models(dom, x);
        lemma_forest_len(dom.shape(), dom.datas(), x, dom.children_of(x).len());
        assert(f.take(i as int) =~= f);
        assert(f.skip(i as int) =~= Seq::<TreeModel>::empty());
        assert(target =~= f);
    }
}

impl DomNode {
    /// Puts what is below this node in normal form: among the children of
    /// this node, and of every node below it that is no text node, each run
    /// of text nodes becomes one node that holds their contents, and a text
    /// node without contents goes. Of a run the first node is the one that
    /// stays and takes the contents. The nodes that go are left without a
    /// parent. Every node that is no text node keeps what it holds and where
    /// it stands, and nothing outside this node's subtree changes.
    pub fn normalize(&self, dom: &mut Dom)
        requires
            old(dom).wf(),
            old(dom).has(*self),
        ensures
            final(dom).wf(),
            final(dom).count() == old(dom).count(),
            final(dom).subtree_of(*self) == normalized(old(dom).subtree_of(*self)),
            deeply_tidy(final(dom).subtree_of(*self)),
            text_below(final(dom).shape(), final(dom).datas(), *self) == text_below(
                old(dom).shape(),
                old(dom).datas(),
                *self,
            ),
            final(dom).data_of(*self) == old(dom).data_of(*self),
            final(dom).parent_of(*self) == old(dom).parent_of(*self),
            forall|y: DomNode| old(dom).has(y) ==> #[trigger] gently_changed(final(dom), old(dom), y),
            forall|y: DomNode| old(dom).has(y) ==> #[trigger] first_stays(final(dom), old(dom), y),
            seconds_gone(final(dom), old(dom), *self),
            forall|y: DomNode|
                old(dom).has(y) ==> kept_or_cut(
                    #[trigger] final(dom).parent_of(y),
                    old(dom).parent_of(y),
                ),
            forall|y: DomNode, k: int|
                old(dom).has(y) && 0 <= k < old(dom).children_of(y).len() && !(old(dom).data_of(
                    #[trigger] old(dom).children_of(y)[k],
                ) is Text) ==> final(dom).children_of(y).contains(old(dom).children_of(y)[k]),
            forall|y: DomNode|
                old(dom).has(y) && !#[trigger] old(dom).is_ancestor(*self, y) ==> final(dom).children_of(y) == old(dom).children_of(y) && final(dom).data_of(y) == old(
                    dom,
                ).data_of(y) && final(dom).parent_of(y) == old(dom).parent_of(y),
    {
        normalize_below(dom, *self);
        proof {
            lemma_normalized_is_tidy(old(dom).subtree_of(*self));
            lemma_normalized_text(old(dom).subtree_of(*self));
            lemma_text_of_subtree(old(dom).shape(), old(dom).datas(), *self);
            lemma_text_of_subtree(dom.shape(), dom.datas(), *self);
            assert forall|y: DomNode, k: int|
                old(dom).has(y) && 0 <= k < old(dom).children_of(y).len() && !(old(dom).data_of(
                    #[trigger] old(dom).children_of(y)[k],
                ) is Text) implies dom.children_of(y).contains(old(dom).children_of(y)[k]) by {
                let c = old(dom).children_of(y)[k];
                lemma_child_room(old(dom).shape(), y, k);
                assert(gently_changed(dom, old(dom), c));
                dom.shape().lemma_index_of(y, c);
            }
        }
    }
}

} // verus!
