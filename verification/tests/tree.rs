use domparser::{parse, Dom, DomError, DomNode, NodeData};

fn doc(dom: &mut Dom) -> DomNode {
    dom.create(NodeData::Document)
}

fn el(dom: &mut Dom, tag: &str) -> DomNode {
    let d = doc(dom);
    d.create_element(dom, tag.to_string())
}

fn text(dom: &mut Dom, s: &str) -> DomNode {
    dom.create(NodeData::Text { contents: s.to_string() })
}

fn kids(dom: &Dom, n: DomNode) -> Vec<DomNode> {
    n.child_nodes(dom)
}

#[test]
fn a_new_store_is_empty() {
    let dom = Dom::new();
    assert_eq!(dom.len(), 0);
    assert!(!dom.contains_node(&DomNode { id: 0 }));
}

#[test]
fn append_moves_between_parents() {
    let mut dom = Dom::new();
    let a = el(&mut dom, "div");
    let b = el(&mut dom, "p");
    let t = text(&mut dom, "x");
    a.append(&mut dom, &t);
    assert_eq!(t.parent_node(&dom), Some(a));
    assert_eq!(kids(&dom, a), vec![t]);
    b.append(&mut dom, &t);
    assert_eq!(t.parent_node(&dom), Some(b));
    assert_eq!(kids(&dom, a), vec![]);
    assert_eq!(kids(&dom, b), vec![t]);
}

#[test]
fn append_again_moves_to_the_end() {
    let mut dom = Dom::new();
    let a = el(&mut dom, "div");
    let x = text(&mut dom, "x");
    let y = text(&mut dom, "y");
    a.append(&mut dom, &x);
    a.append(&mut dom, &y);
    a.append(&mut dom, &x);
    assert_eq!(kids(&dom, a), vec![y, x]);
}

#[test]
fn append_child_returns_the_child() {
    let mut dom = Dom::new();
    let a = el(&mut dom, "div");
    let x = text(&mut dom, "x");
    assert_eq!(a.append_child(&mut dom, &x), x);
    assert_eq!(x.parent_node(&dom), Some(a));
}

#[test]
fn prepend_puts_first() {
    let mut dom = Dom::new();
    let a = el(&mut dom, "div");
    let x = text(&mut dom, "x");
    let y = text(&mut dom, "y");
    a.append(&mut dom, &x);
    a.prepend(&mut dom, &y);
    assert_eq!(kids(&dom, a), vec![y, x]);
    assert_eq!(y.parent_node(&dom), Some(a));
}

#[test]
fn a_node_is_not_put_below_itself() {
    let mut dom = Dom::new();
    let a = el(&mut dom, "div");
    let b = el(&mut dom, "p");
    let c = el(&mut dom, "span");
    a.append(&mut dom, &b);
    b.append(&mut dom, &c);
    c.append(&mut dom, &a);
    assert_eq!(a.parent_node(&dom), None);
    assert_eq!(kids(&dom, c), vec![]);
    a.append(&mut dom, &a);
    assert_eq!(a.parent_node(&dom), None);
    assert_eq!(kids(&dom, a), vec![b]);
    a.prepend(&mut dom, &a);
    assert_eq!(kids(&dom, a), vec![b]);
    assert_eq!(c.insert_before_node(&mut dom, &a, None), Err(DomError::WouldCycle));
    assert_eq!(c.get_root_node(&dom), a);
}

#[test]
fn after_and_before_place_siblings() {
    let mut dom = Dom::new();
    let p = el(&mut dom, "div");
    let x = text(&mut dom, "x");
    let y = text(&mut dom, "y");
    let z = text(&mut dom, "z");
    p.append(&mut dom, &x);
    x.after(&mut dom, &y);
    assert_eq!(kids(&dom, p), vec![x, y]);
    x.before(&mut dom, &z);
    assert_eq!(kids(&dom, p), vec![z, x, y]);
    x.after(&mut dom, &z);
    assert_eq!(kids(&dom, p), vec![x, z, y]);
    assert_eq!(z.parent_node(&dom), Some(p));
}

#[test]
fn after_without_a_parent_changes_nothing() {
    let mut dom = Dom::new();
    let p = el(&mut dom, "div");
    let lone = el(&mut dom, "p");
    let inside = text(&mut dom, "i");
    let x = text(&mut dom, "x");
    lone.append(&mut dom, &inside);
    p.append(&mut dom, &x);
    lone.after(&mut dom, &x);
    assert_eq!(x.parent_node(&dom), Some(p));
    assert_eq!(kids(&dom, p), vec![x]);
    assert_eq!(lone.parent_node(&dom), None);
    assert_eq!(kids(&dom, lone), vec![inside]);
    lone.before(&mut dom, &x);
    assert_eq!(x.parent_node(&dom), Some(p));
    assert_eq!(kids(&dom, p), vec![x]);
    assert_eq!(lone.parent_node(&dom), None);
}

#[test]
fn after_itself_changes_nothing() {
    let mut dom = Dom::new();
    let p = el(&mut dom, "div");
    let x = text(&mut dom, "x");
    let y = text(&mut dom, "y");
    p.append(&mut dom, &x);
    p.append(&mut dom, &y);
    x.after(&mut dom, &x);
    x.before(&mut dom, &x);
    assert_eq!(x.parent_node(&dom), Some(p));
    assert_eq!(kids(&dom, p), vec![x, y]);
}

#[test]
fn after_an_ancestor_changes_nothing() {
    let mut dom = Dom::new();
    let a = el(&mut dom, "div");
    let b = el(&mut dom, "p");
    let c = el(&mut dom, "span");
    a.append(&mut dom, &b);
    b.append(&mut dom, &c);
    c.after(&mut dom, &a);
    assert_eq!(kids(&dom, b), vec![c]);
    assert_eq!(a.parent_node(&dom), None);
    c.before(&mut dom, &b);
    assert_eq!(kids(&dom, a), vec![b]);
    assert_eq!(kids(&dom, b), vec![c]);
}

#[test]
fn insert_before_places_before_the_reference() {
    let mut dom = Dom::new();
    let div = el(&mut dom, "div");
    let x = text(&mut dom, "x");
    let y = text(&mut dom, "y");
    let span = el(&mut dom, "span");
    div.append(&mut dom, &x);
    div.append(&mut dom, &y);
    assert_eq!(div.insert_before_node(&mut dom, &span, Some(&y)), Ok(span));
    assert_eq!(kids(&dom, div), vec![x, span, y]);
    assert_eq!(span.parent_node(&dom), Some(div));
    assert_eq!(div.insert_before_node(&mut dom, &span, Some(&x)), Ok(span));
    assert_eq!(kids(&dom, div), vec![span, x, y]);
}

#[test]
fn insert_before_without_reference_appends() {
    let mut dom = Dom::new();
    let div = el(&mut dom, "div");
    let x = text(&mut dom, "x");
    let span = el(&mut dom, "span");
    div.append(&mut dom, &x);
    assert_eq!(div.insert_before_node(&mut dom, &span, None), Ok(span));
    assert_eq!(kids(&dom, div), vec![x, span]);
}

#[test]
fn insert_before_rejects_foreign_reference() {
    let mut dom = Dom::new();
    let div = el(&mut dom, "div");
    let other = el(&mut dom, "div");
    let inner = text(&mut dom, "inner");
    let stray = text(&mut dom, "stray");
    let span = el(&mut dom, "span");
    div.append(&mut dom, &inner);
    other.append(&mut dom, &stray);
    let r = div.insert_before_node(&mut dom, &span, Some(&stray));
    assert_eq!(r, Err(DomError::ReferenceNotChild));
    assert_eq!(kids(&dom, div), vec![inner]);
    assert_eq!(kids(&dom, other), vec![stray]);
    assert_eq!(span.parent_node(&dom), None);
    let lone = text(&mut dom, "lone");
    assert_eq!(
        div.insert_before_node(&mut dom, &span, Some(&lone)),
        Err(DomError::ReferenceNotChild)
    );
    assert_eq!(kids(&dom, div), vec![inner]);
}

#[test]
fn insert_before_itself_changes_nothing() {
    let mut dom = Dom::new();
    let div = el(&mut dom, "div");
    let x = text(&mut dom, "x");
    let y = text(&mut dom, "y");
    div.append(&mut dom, &x);
    div.append(&mut dom, &y);
    assert_eq!(div.insert_before_node(&mut dom, &x, Some(&x)), Ok(x));
    assert_eq!(x.parent_node(&dom), Some(div));
    assert_eq!(kids(&dom, div), vec![x, y]);
    assert_eq!(div.insert_before_node(&mut dom, &y, Some(&y)), Ok(y));
    assert_eq!(kids(&dom, div), vec![x, y]);
}

#[test]
fn error_messages() {
    assert_eq!(
        DomError::ReferenceNotChild.message(),
        "The node before which the new node is to be inserted is not a child of this node."
    );
    assert_eq!(
        DomError::ReplacedNotChild.message(),
        "The node to be replaced is not a child of this node."
    );
    assert_eq!(DomError::WouldCycle.message(), "The new child contains the parent.");
}

#[test]
fn replace_child_swaps_in_place() {
    let mut dom = Dom::new();
    let div = el(&mut dom, "div");
    let x = text(&mut dom, "x");
    let y = text(&mut dom, "y");
    let z = text(&mut dom, "z");
    let n = el(&mut dom, "b");
    div.append(&mut dom, &x);
    div.append(&mut dom, &y);
    div.append(&mut dom, &z);
    assert_eq!(div.replace_child(&mut dom, &n, &y), Ok(y));
    assert_eq!(kids(&dom, div), vec![x, n, z]);
    assert_eq!(y.parent_node(&dom), None);
    assert_eq!(n.parent_node(&dom), Some(div));
    assert_eq!(div.replace_child(&mut dom, &z, &x), Ok(x));
    assert_eq!(kids(&dom, div), vec![z, n]);
}

#[test]
fn replace_child_rejects_a_stranger() {
    let mut dom = Dom::new();
    let div = el(&mut dom, "div");
    let other = el(&mut dom, "p");
    let x = text(&mut dom, "x");
    let y = text(&mut dom, "y");
    let n = el(&mut dom, "b");
    div.append(&mut dom, &x);
    other.append(&mut dom, &y);
    assert_eq!(div.replace_child(&mut dom, &n, &y), Err(DomError::ReplacedNotChild));
    assert_eq!(kids(&dom, div), vec![x]);
    assert_eq!(kids(&dom, other), vec![y]);
    assert_eq!(n.parent_node(&dom), None);
    let top = el(&mut dom, "section");
    top.append(&mut dom, &div);
    assert_eq!(div.replace_child(&mut dom, &top, &x), Err(DomError::WouldCycle));
    assert_eq!(kids(&dom, top), vec![div]);
    assert_eq!(kids(&dom, div), vec![x]);
}

#[test]
fn replace_child_by_itself_changes_nothing() {
    let mut dom = Dom::new();
    let div = el(&mut dom, "div");
    let x = text(&mut dom, "x");
    let y = text(&mut dom, "y");
    div.append(&mut dom, &x);
    div.append(&mut dom, &y);
    assert_eq!(div.replace_child(&mut dom, &x, &x), Ok(x));
    assert_eq!(x.parent_node(&dom), Some(div));
    assert_eq!(kids(&dom, div), vec![x, y]);
    y.replace_with(&mut dom, &y);
    assert_eq!(kids(&dom, div), vec![x, y]);
}

#[test]
fn replace_with_swaps_the_node() {
    let mut dom = Dom::new();
    let div = el(&mut dom, "div");
    let x = text(&mut dom, "x");
    let y = text(&mut dom, "y");
    let n = el(&mut dom, "b");
    div.append(&mut dom, &x);
    div.append(&mut dom, &y);
    x.replace_with(&mut dom, &n);
    assert_eq!(kids(&dom, div), vec![n, y]);
    assert_eq!(x.parent_node(&dom), None);
    x.replace_with(&mut dom, &y);
    assert_eq!(kids(&dom, div), vec![n, y]);
    n.replace_with(&mut dom, &div);
    assert_eq!(kids(&dom, div), vec![n, y]);
}

#[test]
fn remove_and_adopt_detach() {
    let mut dom = Dom::new();
    let div = el(&mut dom, "div");
    let x = text(&mut dom, "x");
    let y = text(&mut dom, "y");
    let z = text(&mut dom, "z");
    div.append(&mut dom, &x);
    div.append(&mut dom, &y);
    div.append(&mut dom, &z);
    y.remove(&mut dom);
    assert_eq!(kids(&dom, div), vec![x, z]);
    assert_eq!(y.parent_node(&dom), None);
    y.remove(&mut dom);
    assert_eq!(y.parent_node(&dom), None);
    assert_eq!(div.remove_child(&mut dom, &x), x);
    assert_eq!(kids(&dom, div), vec![z]);
    assert_eq!(div.adopt_node(&mut dom, &z), z);
    assert_eq!(kids(&dom, div), vec![]);
    assert_eq!(z.parent_node(&dom), None);
}

#[test]
fn shallow_clone_has_no_children() {
    let mut dom = Dom::new();
    let div = el(&mut dom, "div");
    div.set_attribute(&mut dom, "id".to_string(), "a".to_string());
    let x = text(&mut dom, "x");
    div.append(&mut dom, &x);
    let c = div.clone_node(&mut dom, None);
    assert!(!c.is_same_node(&div));
    assert_eq!(kids(&dom, c), vec![]);
    assert_eq!(c.parent_node(&dom), None);
    assert_eq!(c.node_name(&dom), "DIV");
    assert_eq!(c.get_attribute(&dom, "id".to_string()), Some("a".to_string()));
    let c2 = div.clone_node(&mut dom, Some(false));
    assert_eq!(kids(&dom, c2), vec![]);
    let c3 = div.clone_self_only(&mut dom);
    assert_eq!(kids(&dom, c3), vec![]);
    assert_eq!(kids(&dom, div), vec![x]);
}

#[test]
fn deep_clone_copies_the_subtree() {
    let mut dom = Dom::new();
    let div = el(&mut dom, "div");
    div.set_attribute(&mut dom, "class".to_string(), "k".to_string());
    let p = el(&mut dom, "p");
    let t = text(&mut dom, "hi");
    let c = div.create_comment(&mut dom, "note".to_string());
    div.append(&mut dom, &p);
    p.append(&mut dom, &t);
    div.append(&mut dom, &c);
    let before = dom.len();
    let copy = div.clone_node(&mut dom, Some(true));
    assert_eq!(dom.len(), before + 4);
    assert!(copy.id >= before);
    assert_eq!(copy.parent_node(&dom), None);
    let ck = kids(&dom, copy);
    assert_eq!(ck.len(), 2);
    assert!(ck[0].id >= before && ck[1].id >= before);
    assert_eq!(ck[0].node_name(&dom), "P");
    assert_eq!(ck[1].node_type(&dom), 8);
    assert_eq!(ck[1].node_value(&dom), Some("note".to_string()));
    let ct = kids(&dom, ck[0]);
    assert_eq!(ct.len(), 1);
    assert_eq!(ct[0].node_value(&dom), Some("hi".to_string()));
    assert_eq!(copy.get_attribute(&dom, "class".to_string()), Some("k".to_string()));
    assert_eq!(copy.outer_html(&dom), div.outer_html(&dom));
    assert!(copy.is_equal_node(&dom, &div));
    // the copy is independent of what it was made from
    ct[0].set_data(&mut dom, "changed".to_string());
    assert_eq!(t.node_value(&dom), Some("hi".to_string()));
    assert_eq!(kids(&dom, div), vec![p, c]);
    let again = div.clone_recursive(&mut dom);
    assert_eq!(kids(&dom, again).len(), 2);
    let imported = doc(&mut dom).import_node(&mut dom, &div, Some(true));
    assert_eq!(kids(&dom, imported).len(), 2);
    let bare = div.import_node(&mut dom, &div, None);
    assert_eq!(kids(&dom, bare).len(), 0);
}

#[test]
fn document_position_bits() {
    let mut dom = Dom::new();
    let root = doc(&mut dom);
    let a = el(&mut dom, "a");
    let b = el(&mut dom, "b");
    let a1 = el(&mut dom, "i");
    let a2 = el(&mut dom, "u");
    let b1 = el(&mut dom, "s");
    let far = el(&mut dom, "q");
    root.append(&mut dom, &a);
    root.append(&mut dom, &b);
    a.append(&mut dom, &a1);
    a.append(&mut dom, &a2);
    b.append(&mut dom, &b1);
    assert_eq!(a.compare_document_position(&dom, &a), 0);
    assert_eq!(a.compare_document_position(&dom, &far), 33);
    assert_eq!(far.compare_document_position(&dom, &a), 33);
    assert_eq!(a.compare_document_position(&dom, &a2), 20);
    assert_eq!(a2.compare_document_position(&dom, &a), 10);
    assert_eq!(root.compare_document_position(&dom, &b1), 20);
    assert_eq!(b1.compare_document_position(&dom, &root), 10);
    assert_eq!(a.compare_document_position(&dom, &b), 2);
    assert_eq!(b.compare_document_position(&dom, &a), 4);
    assert_eq!(a1.compare_document_position(&dom, &a2), 2);
    assert_eq!(a2.compare_document_position(&dom, &a1), 4);
    assert_eq!(a2.compare_document_position(&dom, &b1), 2);
    assert_eq!(b1.compare_document_position(&dom, &a2), 4);
    assert_eq!(b.compare_document_position(&dom, &a1), 4);
}

#[test]
fn document_position_is_mirrored() {
    let mut dom = Dom::new();
    let root = doc(&mut dom);
    let mut all = vec![root];
    for i in 0..3 {
        let c = el(&mut dom, "c");
        root.append(&mut dom, &c);
        all.push(c);
        for _ in 0..=i {
            let g = text(&mut dom, "g");
            c.append(&mut dom, &g);
            all.push(g);
        }
    }
    for &a in &all {
        for &b in &all {
            if a == b {
                continue;
            }
            let ab = a.compare_document_position(&dom, &b);
            let ba = b.compare_document_position(&dom, &a);
            assert_eq!(ab & 2 != 0, ba & 4 != 0);
            assert_eq!(ab & 4 != 0, ba & 2 != 0);
            assert_eq!(ab & 8 != 0, ba & 16 != 0);
            assert_eq!(ab & 16 != 0, ba & 8 != 0);
            assert_ne!(ab & 2 != 0, ab & 4 != 0);
        }
    }
}

#[test]
fn contains_is_inclusive() {
    let mut dom = Dom::new();
    let a = el(&mut dom, "a");
    let b = el(&mut dom, "b");
    let c = el(&mut dom, "c");
    let d = el(&mut dom, "d");
    a.append(&mut dom, &b);
    b.append(&mut dom, &c);
    assert!(a.contains(&dom, &a));
    assert!(a.contains(&dom, &b));
    assert!(a.contains(&dom, &c));
    assert!(!c.contains(&dom, &a));
    assert!(!a.contains(&dom, &d));
    assert!(a.is_same_node(&a));
    assert!(!a.is_same_node(&b));
}

#[test]
fn roots_and_owner_document() {
    let mut dom = Dom::new();
    let root = doc(&mut dom);
    let a = el(&mut dom, "a");
    let b = el(&mut dom, "b");
    let lone = el(&mut dom, "c");
    let under = el(&mut dom, "d");
    root.append(&mut dom, &a);
    a.append(&mut dom, &b);
    lone.append(&mut dom, &under);
    assert_eq!(b.get_root_node(&dom), root);
    assert_eq!(root.get_root_node(&dom), root);
    assert_eq!(b.owner_document(&dom), Some(root));
    assert_eq!(root.owner_document(&dom), Some(root));
    assert_eq!(under.get_root_node(&dom), lone);
    assert_eq!(under.owner_document(&dom), None);
}

#[test]
fn navigation() {
    let mut dom = Dom::new();
    let root = doc(&mut dom);
    let p = el(&mut dom, "div");
    let t1 = text(&mut dom, "1");
    let e1 = el(&mut dom, "a");
    let t2 = text(&mut dom, "2");
    let e2 = el(&mut dom, "b");
    let t3 = text(&mut dom, "3");
    root.append(&mut dom, &p);
    for n in [t1, e1, t2, e2, t3] {
        p.append(&mut dom, &n);
    }
    assert_eq!(p.first_child(&dom), Some(t1));
    assert_eq!(p.last_child(&dom), Some(t3));
    assert_eq!(t1.first_child(&dom), None);
    assert_eq!(t1.last_child(&dom), None);
    assert_eq!(p.first_element_child(&dom), Some(e1));
    assert_eq!(p.last_element_child(&dom), Some(e2));
    assert_eq!(t1.first_element_child(&dom), None);
    assert_eq!(t1.previous_sibling(&dom), None);
    assert_eq!(e1.previous_sibling(&dom), Some(t1));
    assert_eq!(e1.next_sibling(&dom), Some(t2));
    assert_eq!(t3.next_sibling(&dom), None);
    assert_eq!(root.next_sibling(&dom), None);
    assert_eq!(t3.previous_element_sibling(&dom), Some(e2));
    assert_eq!(e2.previous_element_sibling(&dom), Some(e1));
    assert_eq!(e1.previous_element_sibling(&dom), None);
    assert_eq!(t1.next_element_sibling(&dom), Some(e1));
    assert_eq!(e1.next_element_sibling(&dom), Some(e2));
    assert_eq!(e2.next_element_sibling(&dom), None);
    assert_eq!(p.children(&dom), vec![e1, e2]);
    assert_eq!(p.child_element_count(&dom), 2);
    assert_eq!(p.child_nodes(&dom), vec![t1, e1, t2, e2, t3]);
    assert!(p.has_child_nodes(&dom));
    assert!(!t1.has_child_nodes(&dom));
    assert_eq!(e1.parent_element(&dom), Some(p));
    assert_eq!(p.parent_element(&dom), None);
    assert_eq!(p.parent_node(&dom), Some(root));
    assert_eq!(root.parent_node(&dom), None);
}

#[test]
fn normalize_merges_and_drops_text() {
    let mut dom = Dom::new();
    let p = el(&mut dom, "div");
    let a = text(&mut dom, "a");
    let b = text(&mut dom, "b");
    let x = el(&mut dom, "x");
    let e = text(&mut dom, "");
    let c = text(&mut dom, "c");
    for n in [a, b, x, e, c] {
        p.append(&mut dom, &n);
    }
    let x1 = text(&mut dom, "");
    let x2 = text(&mut dom, "in");
    let x3 = text(&mut dom, "ner");
    for n in [x1, x2, x3] {
        x.append(&mut dom, &n);
    }
    p.normalize(&mut dom);
    assert_eq!(kids(&dom, p), vec![a, x, e]);
    assert_eq!(a.node_value(&dom), Some("ab".to_string()));
    assert_eq!(e.node_value(&dom), Some("c".to_string()));
    assert_eq!(b.parent_node(&dom), None);
    assert_eq!(c.parent_node(&dom), None);
    assert_eq!(kids(&dom, x), vec![x1]);
    assert_eq!(x1.node_value(&dom), Some("inner".to_string()));
    assert_eq!(p.outer_html(&dom), "<div>ab<x>inner</x>c</div>");
}

#[test]
fn normalize_drops_a_lone_empty_text() {
    let mut dom = Dom::new();
    let p = el(&mut dom, "div");
    let e1 = text(&mut dom, "");
    let e2 = text(&mut dom, "");
    let s = el(&mut dom, "span");
    let e3 = text(&mut dom, "");
    for n in [e1, e2, s, e3] {
        p.append(&mut dom, &n);
    }
    p.normalize(&mut dom);
    assert_eq!(kids(&dom, p), vec![s]);
    assert_eq!(s.parent_node(&dom), Some(p));
    assert_eq!(s.node_name(&dom), "SPAN");
    for gone in [e1, e2, e3] {
        assert_eq!(gone.parent_node(&dom), None);
        assert_eq!(gone.node_type(&dom), 3);
    }
    p.normalize(&mut dom);
    assert_eq!(kids(&dom, p), vec![s]);
}

#[test]
fn normalize_reaches_below_elements_only() {
    let mut dom = Dom::new();
    let p = el(&mut dom, "div");
    let e = el(&mut dom, "span");
    let a = text(&mut dom, "a");
    let b = text(&mut dom, "");
    let c = text(&mut dom, "b");
    p.append(&mut dom, &e);
    for n in [a, b, c] {
        e.append(&mut dom, &n);
    }
    // what hangs below a text node is left as it is
    let u = text(&mut dom, "");
    let v = text(&mut dom, "");
    a.append(&mut dom, &u);
    a.append(&mut dom, &v);
    p.normalize(&mut dom);
    assert_eq!(kids(&dom, p), vec![e]);
    assert_eq!(kids(&dom, e), vec![a]);
    assert_eq!(a.node_value(&dom), Some("ab".to_string()));
    assert_eq!(kids(&dom, a), vec![u, v]);
    assert_eq!(p.text_content_getter(&dom), "ab");
}

#[test]
fn set_text_content_replaces_children() {
    let mut dom = Dom::new();
    let p = el(&mut dom, "div");
    let a = el(&mut dom, "a");
    let b = text(&mut dom, "b");
    p.append(&mut dom, &a);
    p.append(&mut dom, &b);
    p.set_text_content(&mut dom, "new".to_string());
    let k = kids(&dom, p);
    assert_eq!(k.len(), 1);
    assert_eq!(k[0].node_type(&dom), 3);
    assert_eq!(k[0].node_value(&dom), Some("new".to_string()));
    assert_eq!(a.parent_node(&dom), None);
    assert_eq!(b.parent_node(&dom), None);
    assert_eq!(p.text_content_getter(&dom), "new");
}

#[test]
fn text_content_collects_text() {
    let mut dom = Dom::new();
    let p = el(&mut dom, "div");
    let a = text(&mut dom, "a");
    let s = el(&mut dom, "span");
    let b = text(&mut dom, "b");
    let c = p.create_comment(&mut dom, "no".to_string());
    let d = text(&mut dom, "d");
    p.append(&mut dom, &a);
    p.append(&mut dom, &s);
    s.append(&mut dom, &b);
    p.append(&mut dom, &c);
    p.append(&mut dom, &d);
    assert_eq!(p.text_content_getter(&dom), "abd");
    assert_eq!(p.text(&dom), "abd");
    assert_eq!(a.text(&dom), "a");
    assert_eq!(c.text(&dom), "");
}

#[test]
fn parsed_documents_have_an_html_element() {
    let (dom, root) = parse("<p>hi</p>".to_string());
    assert_eq!(root.node_type(&dom), 9);
    let html = root.document_element(&dom).unwrap();
    assert_eq!(html.node_name(&dom), "HTML");
    assert_eq!(root.parent_node(&dom), None);
}
