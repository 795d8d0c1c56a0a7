use domparser::{Dom, DomNode, NodeData};

fn text(dom: &mut Dom, s: &str) -> DomNode {
    dom.create(NodeData::Text { contents: s.to_string() })
}

fn element(dom: &mut Dom, tag: &str) -> DomNode {
    let d = dom.create(NodeData::Document);
    d.create_element(dom, tag.to_string())
}

#[test]
fn split_text_hello() {
    let mut dom = Dom::new();
    let p = element(&mut dom, "p");
    let t = text(&mut dom, "hello");
    let tail = text(&mut dom, "!");
    p.append(&mut dom, &t);
    p.append(&mut dom, &tail);
    let rest = t.split_text(&mut dom, 3).unwrap();
    assert_eq!(t.node_value(&dom), Some("hel".to_string()));
    assert_eq!(rest.node_value(&dom), Some("lo".to_string()));
    assert_eq!(p.child_nodes(&dom), vec![t, rest, tail]);
    assert_eq!(rest.previous_sibling(&dom), Some(t));
    assert_eq!(t.next_sibling(&dom), Some(rest));
    assert_eq!(rest.parent_node(&dom), Some(p));
}

#[test]
fn split_text_without_parent_and_beyond_the_end() {
    let mut dom = Dom::new();
    let t = text(&mut dom, "héllo");
    let rest = t.split_text(&mut dom, 2).unwrap();
    assert_eq!(t.node_value(&dom), Some("hé".to_string()));
    assert_eq!(rest.node_value(&dom), Some("llo".to_string()));
    assert_eq!(rest.parent_node(&dom), None);
    let none = rest.split_text(&mut dom, 99).unwrap();
    assert_eq!(rest.node_value(&dom), Some("llo".to_string()));
    assert_eq!(none.node_value(&dom), Some("".to_string()));
    let e = element(&mut dom, "p");
    let before = dom.len();
    assert_eq!(e.split_text(&mut dom, 1), None);
    assert_eq!(dom.len(), before);
}

#[test]
fn substring_counts_characters() {
    let mut dom = Dom::new();
    let t = text(&mut dom, "aé😀bc");
    assert_eq!(t.substring_data(&dom, 1, 2), "é😀");
    assert_eq!(t.substring_data(&dom, 0, 0), "");
    assert_eq!(t.substring_data(&dom, 3, 100), "bc");
    assert_eq!(t.substring_data(&dom, 5, 1), "");
    assert_eq!(t.substring_data(&dom, 9, 1), "");
    assert_eq!(t.substring_data(&dom, 0, u32::MAX), "aé😀bc");
    assert_eq!(t.substring_data(&dom, u32::MAX, u32::MAX), "");
    assert_eq!(t.length(&dom), 5);
    let c = t.create_comment(&mut dom, "note".to_string());
    assert_eq!(c.substring_data(&dom, 1, 2), "ot");
    assert_eq!(c.length(&dom), 0);
    let e = element(&mut dom, "p");
    assert_eq!(e.substring_data(&dom, 0, 5), "");
    assert_eq!(e.length(&dom), 0);
}

#[test]
fn append_insert_delete_replace() {
    let mut dom = Dom::new();
    let t = text(&mut dom, "héllo");
    t.append_data(&mut dom, " world".to_string());
    assert_eq!(t.data(&dom), Some("héllo world".to_string()));
    t.insert_data(&mut dom, 2, "XY".to_string());
    assert_eq!(t.data(&dom), Some("héXYllo world".to_string()));
    t.insert_data(&mut dom, 100, "!".to_string());
    assert_eq!(t.data(&dom), Some("héXYllo world!".to_string()));
    t.insert_data(&mut dom, 0, ">".to_string());
    assert_eq!(t.data(&dom), Some(">héXYllo world!".to_string()));
    t.delete_data(&mut dom, 0, 1);
    assert_eq!(t.data(&dom), Some("héXYllo world!".to_string()));
    t.delete_data(&mut dom, 2, 2);
    assert_eq!(t.data(&dom), Some("héllo world!".to_string()));
    t.delete_data(&mut dom, 5, 100);
    assert_eq!(t.data(&dom), Some("héllo".to_string()));
    t.delete_data(&mut dom, 5, 1);
    assert_eq!(t.data(&dom), Some("héllo".to_string()));
    t.delete_data(&mut dom, 77, 1);
    assert_eq!(t.data(&dom), Some("héllo".to_string()));
    t.replace_data(&mut dom, 1, 3, "ipp".to_string());
    assert_eq!(t.data(&dom), Some("hippo".to_string()));
    t.replace_data(&mut dom, 3, 100, "!".to_string());
    assert_eq!(t.data(&dom), Some("hip!".to_string()));
    t.replace_data(&mut dom, 50, 1, "?".to_string());
    assert_eq!(t.data(&dom), Some("hip!?".to_string()));
}

#[test]
fn only_text_nodes_take_a_new_value() {
    let mut dom = Dom::new();
    let t = text(&mut dom, "a");
    let c = t.create_comment(&mut dom, "c".to_string());
    let pi = t.create_processing_instruction(&mut dom, "xml".to_string(), "v".to_string());
    let e = element(&mut dom, "p");
    t.set_node_value(&mut dom, Some("b".to_string()));
    assert_eq!(t.node_value(&dom), Some("b".to_string()));
    t.set_node_value(&mut dom, None);
    assert_eq!(t.node_value(&dom), Some("b".to_string()));
    t.set_data(&mut dom, "z".to_string());
    assert_eq!(t.data(&dom), Some("z".to_string()));
    c.set_node_value(&mut dom, Some("x".to_string()));
    assert_eq!(c.node_value(&dom), Some("c".to_string()));
    c.append_data(&mut dom, "x".to_string());
    c.insert_data(&mut dom, 0, "x".to_string());
    c.delete_data(&mut dom, 0, 1);
    assert_eq!(c.node_value(&dom), Some("c".to_string()));
    assert_eq!(pi.node_value(&dom), Some("v".to_string()));
    assert_eq!(pi.target(&dom), Some("xml".to_string()));
    e.set_node_value(&mut dom, Some("x".to_string()));
    assert_eq!(e.node_value(&dom), None);
    assert_eq!(e.data(&dom), None);
}
