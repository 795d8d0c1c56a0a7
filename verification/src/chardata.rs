//! Editing the text of a node. Offsets and counts are numbers of
//! characters, and any that reach past the end of the text stop at the end.

use crate::node::{Dom, NodeData, NodeDataView};
use crate::shape::{DomNode, Shape};
use crate::modify::placed_after;
use vstd::prelude::*;

verus! {

/// `i`, or `len` where `i` is beyond it.
pub open spec fn clamped(i: int, len: int) -> int {
    if i > len {
        len
    } else {
        i
    }
}

/// The `count` characters of `text` from `offset` on, as far as they exist.
pub open spec fn substring_of(text: Seq<char>, offset: int, count: int) -> Seq<char> {
    text.subrange(clamped(offset, text.len() as int), clamped(offset + count, text.len() as int))
}

/// `text` with `data` put in at `offset`, or at the end where `offset` is
/// beyond it.
pub open spec fn with_inserted(text: Seq<char>, offset: int, data: Seq<char>) -> Seq<char> {
    text.subrange(0, clamped(offset, text.len() as int)) + data + text.subrange(
        clamped(offset, text.len() as int),
        text.len() as int,
    )
}

/// `text` without the `count` characters from `offset` on, as far as they
/// exist.
pub open spec fn with_deleted(text: Seq<char>, offset: int, count: int) -> Seq<char> {
    text.subrange(0, clamped(offset, text.len() as int)) + text.subrange(
        clamped(offset + count, text.len() as int),
        text.len() as int,
    )
}

/// The text that a node carries as its value: that of a text node, a
/// comment or a processing instruction.
pub open spec fn value_of(d: NodeDataView) -> Option<Seq<char>> {
    match d {
        NodeDataView::Text { contents } => Some(contents),
        NodeDataView::Comment { contents } => Some(contents),
        NodeDataView::ProcessingInstruction { target, contents } => Some(contents),
        _ => None,
    }
}

/// The data with `text` as its contents where it is a text node's; any
/// other data as it is.
pub open spec fn with_text(d: NodeDataView, text: Seq<char>) -> NodeDataView {
    match d {
        NodeDataView::Text { contents } => NodeDataView::Text { contents: text },
        _ => d,
    }
}

/// The characters of `text` from index `from` up to index `to`.
fn slice_chars(text: &str, from: usize, to: usize) -> (r: String)
    requires
        from <= to <= text@.len(),
    ensures
        r@ == text@.subrange(from as int, to as int),
{
    text.substring_char(from, to).to_owned()
}

impl DomNode {
    /// The text of a text node, a comment or a processing instruction.
    pub fn node_value(&self, dom: &Dom) -> (r: Option<String>)
        requires
            dom.has(*self),
        ensures
            opt_seq(r) == value_of(dom.data_of(*self)),
    {
        match dom.data(*self) {
            NodeData::Text { contents } => Some(contents.clone()),
            NodeData::Comment { contents } => Some(contents.clone()),
            NodeData::ProcessingInstruction { target, contents } => Some(contents.clone()),
            _ => None,
        }
    }

    /// Gives a text node new contents. Nothing happens for another kind of
    /// node, or where no value is given.
    pub fn set_node_value(&self, dom: &mut Dom, value: Option<String>)
        requires
            old(dom).has(*self),
        ensures
            final(dom).shape() == old(dom).shape(),
            final(dom).datas() == match value {
                Some(v) => old(dom).datas().update(
                    self.id as int,
                    with_text(old(dom).data_of(*self), v@),
                ),
                None => old(dom).datas(),
            },
    {
        match value {
            Some(v) => {
                let is_text = match dom.data(*self) {
                    NodeData::Text { .. } => true,
                    _ => false,
                };
                if is_text {
                    dom.put_data(*self, NodeData::Text { contents: v });
                } else {
                    proof {
                        assert(dom.datas() =~= dom.datas().update(
                            self.id as int,
                            dom.data_of(*self),
                        ));
                    }
                }
            },
            None => {},
        }
    }

    /// The same as `node_value`.
    pub fn data(&self, dom: &Dom) -> (r: Option<String>)
        requires
            dom.has(*self),
        ensures
            opt_seq(r) == value_of(dom.data_of(*self)),
    {
        self.node_value(dom)
    }

    /// Gives a text node new contents; nothing happens for another kind of node.
    pub fn set_data(&self, dom: &mut Dom, value: String)
        requires
            old(dom).has(*self),
        ensures
            final(dom).shape() == old(dom).shape(),
            final(dom).datas() == old(dom).datas().update(
                self.id as int,
                with_text(old(dom).data_of(*self), value@),
            ),
    {
        self.set_node_value(dom, Some(value));
    }

    /// The number of characters of a text node, cut to 32 bits; zero for any
    /// other kind of node.
    pub fn length(&self, dom: &Dom) -> (r: u32)
        requires
            dom.has(*self),
        ensures
            r == match dom.data_of(*self) {
                NodeDataView::Text { contents } => contents.len() as u32,
                _ => 0u32,
            },
    {
        match dom.data(*self) {
            NodeData::Text { contents } => {
                let n = contents.as_str().unicode_len();
                #[verifier::truncate]
                (n as u32)
            },
            _ => 0,
        }
    }

    /// The `count` characters from `offset` on of the node's value, as far as
    /// they exist; the empty string where the node has no value.
    pub fn substring_data(&self, dom: &Dom, offset: u32, count: u32) -> (r: String)
        requires
            dom.has(*self),
        ensures
            r@ == match value_of(dom.data_of(*self)) {
                Some(text) => substring_of(text, offset as int, count as int),
                None => Seq::<char>::empty(),
            },
    {
        match self.node_value(dom) {
            Some(text) => {
                let len = text.as_str().unicode_len();
                let start = offset as usize;
                if start >= len {
                    proof {
                        assert(substring_of(text@, offset as int, count as int) =~= Seq::<
                            char,
                        >::empty());
                    }
                    return String::new();
                }
                let end = if count as usize > len - start {
                    len
                } else {
                    start + count as usize
                };
                slice_chars(text.as_str(), start, end)
            },
            None => String::new(),
        }
    }

    /// Adds `data` to the end of a text node's contents.
    pub fn append_data(&self, dom: &mut Dom, data: String)
        requires
            old(dom).has(*self),
        ensures
            final(dom).shape() == old(dom).shape(),
            final(dom).datas() == match old(dom).data_of(*self) {
                NodeDataView::Text { contents } => old(dom).datas().update(
                    self.id as int,
                    NodeDataView::Text { contents: contents + data@ },
                ),
                _ => old(dom).datas(),
            },
    {
        let joined = match dom.data(*self) {
            NodeData::Text { contents } => {
                let mut t = contents.clone();
                t.append(data.as_str());
                Some(t)
            },
            _ => None,
        };
        self.set_node_value(dom, joined);
    }

    /// Puts `data` into a text node's contents at `offset`, or at the end
    /// where `offset` is beyond it.
    pub fn insert_data(&self, dom: &mut Dom, offset: u32, data: String)
        requires
            old(dom).has(*self),
        ensures
            final(dom).shape() == old(dom).shape(),
            final(dom).datas() == match old(dom).data_of(*self) {
                NodeDataView::Text { contents } => old(dom).datas().update(
                    self.id as int,
                    NodeDataView::Text { contents: with_inserted(contents, offset as int, data@) },
                ),
                _ => old(dom).datas(),
            },
    {
        let edited = match dom.data(*self) {
            NodeData::Text { contents } => {
                let text = contents.as_str();
                let len = text.unicode_len();
                let start = if offset as usize > len {
                    len
                } else {
                    offset as usize
                };
                let mut t = slice_chars(text, 0, start);
                t.append(data.as_str());
                t.append(text.substring_char(start, len));
                Some(t)
            },
            _ => None,
        };
        self.set_node_value(dom, edited);
    }

    /// Takes the `count` characters from `offset` on out of a text node's
    /// contents, as far as they exist.
    pub fn delete_data(&self, dom: &mut Dom, offset: u32, count: u32)
        requires
            old(dom).has(*self),
        ensures
            final(dom).shape() == old(dom).shape(),
            final(dom).datas() == match old(dom).data_of(*self) {
                NodeDataView::Text { contents } => old(dom).datas().update(
                    self.id as int,
                    NodeDataView::Text {
                        contents: with_deleted(contents, offset as int, count as int),
                    },
                ),
                _ => old(dom).datas(),
            },
    {
        let edited = match dom.data(*self) {
            NodeData::Text { contents } => {
                let text = contents.as_str();
                let len = text.unicode_len();
                let start = offset as usize;
                if start < len {
                    let end = if count as usize > len - start {
                        len
                    } else {
                        start + count as usize
                    };
                    let mut t = slice_chars(text, 0, start);
                    t.append(text.substring_char(end, len));
                    Some(t)
                } else {
                    proof {
                        assert(with_deleted(contents@, offset as int, count as int)
                            =~= contents@);
                        assert(dom.datas() =~= dom.datas().update(
                            self.id as int,
                            dom.data_of(*self),
                        ));
                    }
                    None
                }
            },
            _ => None,
        };
        self.set_node_value(dom, edited);
    }

    /// Takes `count` characters out at `offset`, then puts `data` in at the
    /// same offset.
    pub fn replace_data(&self, dom: &mut Dom, offset: u32, count: u32, data: String)
        requires
            old(dom).has(*self),
        ensures
            final(dom).shape() == old(dom).shape(),
            final(dom).datas() == match old(dom).data_of(*self) {
                NodeDataView::Text { contents } => old(dom).datas().update(
                    self.id as int,
                    NodeDataView::Text {
                        contents: with_inserted(
                            with_deleted(contents, offset as int, count as int),
                            offset as int,
                            data@,
                        ),
                    },
                ),
                _ => old(dom).datas(),
            },
    {
        self.delete_data(dom, offset, count);
        self.insert_data(dom, offset, data);
        proof {
            if old(dom).data_of(*self) is Text {
                let contents = old(dom).data_of(*self)->Text_contents;
                let mid = NodeDataView::Text {
                    contents: with_deleted(contents, offset as int, count as int),
                };
                let last = NodeDataView::Text {
                    contents: with_inserted(
                        with_deleted(contents, offset as int, count as int),
                        offset as int,
                        data@,
                    ),
                };
                assert(old(dom).datas().update(self.id as int, mid).update(self.id as int, last)
                    =~= old(dom).datas().update(self.id as int, last));
            }
        }
    }

    /// Cuts a text node in two at `offset`: the node keeps what stands before
    /// it, and a new text node gets the rest. Where the node has a parent,
    /// the new node becomes its next sibling. Another kind of node is left
    /// alone, and nothing is returned.
    pub fn split_text(&self, dom: &mut Dom, offset: u32) -> (r: Option<DomNode>)
        requires
            old(dom).wf(),
            old(dom).has(*self),
        ensures
            final(dom).wf(),
            match old(dom).data_of(*self) {
                NodeDataView::Text { contents } => {
                    let cut = clamped(offset as int, contents.len() as int);
                    let rest = DomNode { id: old(dom).count() as usize };
                    &&& r == Some(rest)
                    &&& final(dom).datas() == old(dom).datas().update(
                        self.id as int,
                        NodeDataView::Text { contents: contents.subrange(0, cut) },
                    ).push(
                        NodeDataView::Text {
                            contents: contents.subrange(cut, contents.len() as int),
                        },
                    )
                    &&& final(dom).shape().same_links(
                        placed_after(old(dom).shape().grown(), *self, rest),
                    )
                    &&& final(dom).children_of(rest).len() == 0
                    &&& old(dom).parent_of(*self) is Some ==> {
                        let p = old(dom).parent_of(*self).unwrap();
                        let k = final(dom).children_of(p).index_of(*self);
                        &&& final(dom).shape().placed(p, rest)
                        &&& 0 <= k < k + 1 < final(dom).children_of(p).len()
                        &&& final(dom).children_of(p)[k] == *self
                        &&& final(dom).children_of(p)[k + 1] == rest
                    }
                },
                _ => r is None && final(dom).shape() == old(dom).shape() && final(dom).datas()
                    == old(dom).datas(),
            },
    {
        let parts = match dom.data(*self) {
            NodeData::Text { contents } => {
                let text = contents.as_str();
                let len = text.unicode_len();
                let cut = if offset as usize > len {
                    len
                } else {
                    offset as usize
                };
                Some((slice_chars(text, 0, cut), slice_chars(text, cut, len)))
            },
            _ => None,
        };
        match parts {
            Some((head, tail)) => {
                dom.put_data(*self, NodeData::Text { contents: head });
                let rest = dom.create(NodeData::Text { contents: tail });
                proof {
                    assert(dom.shape() == old(dom).shape().grown());
                    assert(dom.children_of(rest) =~= Seq::empty());
                    assert(dom.shape().is_ancestor(rest, *self) ==> false) by {
                        lemma_fresh_is_apart(old(dom).shape(), rest, *self);
                    }
                }
                self.after(dom, &rest);
                proof {
                    let g = old(dom).shape().grown();
                    assert(g.parent_of(rest) is None);
                    assert(g.detached(rest) == g);
                    assert(old(dom).shape().node_ok(*self));
                    assert(g.parent_of(*self) == old(dom).parent_of(*self));
                    if old(dom).parent_of(*self) is Some {
                        let p = old(dom).parent_of(*self).unwrap();
                        assert(p != rest);
                        dom.shape().lemma_index_of(p, *self);
                    }
                    assert(dom.children_of(rest) == g.children_of(rest));
                }
                Some(rest)
            },
            None => None,
        }
    }
}

/// A node just added to a store stands above none of the others.
pub proof fn lemma_fresh_is_apart(s: Shape, fresh: DomNode, y: DomNode)
    requires
        s.wf(),
        s.has(y),
        fresh.id == s.parents.len(),
        s.parents.len() < usize::MAX,
    ensures
        s.grown().wf(),
        !s.grown().is_ancestor(fresh, y),
    decreases s.rank_of(y),
{
    s.lemma_grown_wf();
    let g = s.grown();
    assert(g.has(y));
    assert(s.node_ok(y));
    assert(g.rank_of(y) == s.rank_of(y));
    match s.parent_of(y) {
        Some(p) => {
            lemma_fresh_is_apart(s, fresh, p);
        },
        None => {},
    }
}

/// The characters of an optional string.
pub open spec fn opt_seq(s: Option<String>) -> Option<Seq<char>> {
    match s {
        Some(t) => Some(t@),
        None => None,
    }
}

} // verus!
