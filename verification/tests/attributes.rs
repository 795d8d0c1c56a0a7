use domparser::{parse, Dom, DomNode, NodeData};

fn element(dom: &mut Dom, tag: &str) -> DomNode {
    let d = dom.create(NodeData::Document);
    d.create_element(dom, tag.to_string())
}

fn s(x: &str) -> String {
    x.to_string()
}

#[test]
fn plain_setter_overwrites_a_namespaced_attribute_of_that_local_name() {
    let mut dom = Dom::new();
    let e = element(&mut dom, "div");
    e.set_attribute_ns(&mut dom, Some(s("urn:x")), s("p:foo"), s("1"));
    e.set_attribute(&mut dom, s("foo"), s("2"));
    // the plain setter finds the attribute by its local name alone
    assert_eq!(e.get_attribute_ns(&dom, Some(s("urn:x")), s("foo")), Some(s("2")));
    assert_eq!(e.get_attribute(&dom, s("foo")), Some(s("2")));
    assert_eq!(e.get_attribute_names(&dom), vec![s("p:foo")]);
}

#[test]
fn two_attributes_with_one_local_name() {
    let mut dom = Dom::new();
    let e = element(&mut dom, "div");
    e.set_attribute(&mut dom, s("foo"), s("2"));
    e.set_attribute_ns(&mut dom, Some(s("urn:x")), s("p:foo"), s("1"));
    assert_eq!(e.get_attribute_ns(&dom, Some(s("urn:x")), s("foo")), Some(s("1")));
    assert_eq!(e.get_attribute(&dom, s("foo")), Some(s("2")));
    assert_eq!(e.get_attribute(&dom, s("p:foo")), Some(s("1")));
    assert_eq!(e.get_attribute_ns(&dom, None, s("foo")), Some(s("2")));
    assert_eq!(e.get_attribute_names(&dom), vec![s("foo"), s("p:foo")]);
    assert!(e.has_attribute_ns(&dom, Some(s("urn:x")), s("foo")));
    assert!(!e.has_attribute_ns(&dom, Some(s("urn:y")), s("foo")));
    e.set_attribute_ns(&mut dom, Some(s("urn:x")), s("p:foo"), s("3"));
    assert_eq!(e.get_attribute_ns(&dom, Some(s("urn:x")), s("foo")), Some(s("3")));
    assert_eq!(e.get_attribute_names(&dom).len(), 2);
    e.set_attribute_ns(&mut dom, Some(s("urn:x")), s("q:foo"), s("4"));
    assert_eq!(e.get_attribute_names(&dom), vec![s("foo"), s("p:foo"), s("q:foo")]);
    e.remove_attribute_ns(&mut dom, Some(s("urn:x")), s("foo"));
    assert_eq!(e.get_attribute_names(&dom), vec![s("foo"), s("q:foo")]);
    e.remove_attribute_ns(&mut dom, None, s("foo"));
    assert_eq!(e.get_attribute_names(&dom), vec![s("q:foo")]);
    assert_eq!(e.get_attribute(&dom, s("q:foo")), Some(s("4")));
    assert_eq!(e.get_attribute(&dom, s("foo")), Some(s("4")));
}

#[test]
fn qualified_names_are_a_fallback() {
    let mut dom = Dom::new();
    let e = element(&mut dom, "div");
    e.set_attribute_ns(&mut dom, Some(s("urn:x")), s("p:foo"), s("1"));
    assert_eq!(e.get_attribute(&dom, s("p:foo")), Some(s("1")));
    assert_eq!(e.get_attribute(&dom, s("foo")), Some(s("1")));
    assert_eq!(e.get_attribute(&dom, s("q:foo")), None);
    assert!(e.has_attribute(&dom, s("p:foo")));
    assert!(!e.has_attribute(&dom, s("bar")));
    e.set_attribute_ns(&mut dom, None, s("a:b:c"), s("v"));
    assert_eq!(e.get_attribute_ns(&dom, None, s("b:c")), Some(s("v")));
    assert_eq!(e.get_attribute(&dom, s("a:b:c")), Some(s("v")));
}

#[test]
fn set_get_remove() {
    let mut dom = Dom::new();
    let e = element(&mut dom, "div");
    assert!(!e.has_attributes(&dom));
    assert_eq!(e.get_attribute(&dom, s("a")), None);
    e.set_attribute(&mut dom, s("a"), s("1"));
    e.set_attribute(&mut dom, s("b"), s("2"));
    e.set_attribute(&mut dom, s("a"), s("3"));
    assert!(e.has_attributes(&dom));
    assert_eq!(e.get_attribute(&dom, s("a")), Some(s("3")));
    assert_eq!(e.get_attribute_names(&dom), vec![s("a"), s("b")]);
    e.remove_attribute(&mut dom, s("a"));
    assert_eq!(e.get_attribute(&dom, s("a")), None);
    assert_eq!(e.get_attribute_names(&dom), vec![s("b")]);
    e.remove_attribute(&mut dom, s("zz"));
    assert_eq!(e.get_attribute_names(&dom), vec![s("b")]);
    let t = dom.create(NodeData::Text { contents: s("t") });
    t.set_attribute(&mut dom, s("a"), s("1"));
    assert_eq!(t.get_attribute(&dom, s("a")), None);
    assert!(!t.has_attributes(&dom));
    assert_eq!(t.get_attribute_names(&dom), Vec::<String>::new());
    assert!(!t.toggle_attribute(&mut dom, s("a"), Some(true)));
}

#[test]
fn toggle() {
    let mut dom = Dom::new();
    let e = element(&mut dom, "input");
    assert!(e.toggle_attribute(&mut dom, s("hidden"), None));
    assert_eq!(e.get_attribute(&dom, s("hidden")), Some(s("")));
    assert!(!e.toggle_attribute(&mut dom, s("hidden"), None));
    assert_eq!(e.get_attribute(&dom, s("hidden")), None);
    assert!(!e.toggle_attribute(&mut dom, s("hidden"), Some(false)));
    assert!(e.toggle_attribute(&mut dom, s("hidden"), Some(true)));
    e.set_attribute(&mut dom, s("hidden"), s("x"));
    assert!(e.toggle_attribute(&mut dom, s("hidden"), Some(true)));
    assert_eq!(e.get_attribute(&dom, s("hidden")), Some(s("x")));
    assert!(!e.toggle_attribute(&mut dom, s("hidden"), Some(false)));
    assert!(!e.has_attribute(&dom, s("hidden")));
}

#[test]
fn id_and_class() {
    let mut dom = Dom::new();
    let e = element(&mut dom, "div");
    assert_eq!(e.id(&dom), "");
    assert_eq!(e.class_name(&dom), "");
    e.set_id(&mut dom, s("main"));
    e.set_class_name(&mut dom, s("a b"));
    assert_eq!(e.id(&dom), "main");
    assert_eq!(e.class_name(&dom), "a b");
    assert_eq!(e.get_attribute(&dom, s("id")), Some(s("main")));
    assert_eq!(e.outer_html(&dom), "<div id=\"main\" class=\"a b\"></div>");
}

#[test]
fn class_list() {
    let mut dom = Dom::new();
    let e = element(&mut dom, "div");
    e.set_class_name(&mut dom, s("  a\tb \n a  "));
    assert!(e._class_list_contains(&dom, s("a")));
    assert!(e._class_list_contains(&dom, s("b")));
    assert!(!e._class_list_contains(&dom, s("c")));
    assert!(!e._class_list_contains(&dom, s("")));
    e._class_list_add(&mut dom, s("a"));
    assert_eq!(e.class_name(&dom), "  a\tb \n a  ");
    e._class_list_add(&mut dom, s("c"));
    assert_eq!(e.class_name(&dom), "a b a c");
    e._class_list_remove(&mut dom, s("a"));
    assert_eq!(e.class_name(&dom), "b c");
    e._class_list_remove(&mut dom, s("zz"));
    assert_eq!(e.class_name(&dom), "b c");
    assert!(e._class_list_toggle(&mut dom, s("d"), None));
    assert_eq!(e.class_name(&dom), "b c d");
    assert!(!e._class_list_toggle(&mut dom, s("d"), None));
    assert_eq!(e.class_name(&dom), "b c");
    assert!(e._class_list_toggle(&mut dom, s("b"), Some(true)));
    assert_eq!(e.class_name(&dom), "b c");
    assert!(!e._class_list_toggle(&mut dom, s("x"), Some(false)));
    assert_eq!(e.class_name(&dom), "b c");
    assert!(!e._class_list_toggle(&mut dom, s("b"), Some(false)));
    assert_eq!(e.class_name(&dom), "c");
    let bare = element(&mut dom, "p");
    bare._class_list_remove(&mut dom, s("x"));
    assert_eq!(bare.get_attribute(&dom, s("class")), Some(s("")));
    let other = element(&mut dom, "p");
    other._class_list_add(&mut dom, s("x"));
    assert_eq!(other.class_name(&dom), "x");
}

#[test]
fn dataset() {
    let mut dom = Dom::new();
    let e = element(&mut dom, "div");
    e.set_attribute(&mut dom, s("data-user-id"), s("7"));
    e.set_attribute(&mut dom, s("title"), s("t"));
    e.set_attribute(&mut dom, s("data-x"), s("1"));
    e.set_attribute(&mut dom, s("data-"), s("empty"));
    e.set_attribute(&mut dom, s("data"), s("no"));
    assert_eq!(
        e._dataset_get(&dom),
        vec![(s("userId"), s("7")), (s("x"), s("1")), (s(""), s("empty"))]
    );
    e._dataset_set(&mut dom, s("userId"), s("8"));
    assert_eq!(e.get_attribute(&dom, s("data-user-id")), Some(s("8")));
    e._dataset_set(&mut dom, s("fooBarBaz"), s("v"));
    assert_eq!(e.get_attribute(&dom, s("data-foo-bar-baz")), Some(s("v")));
    e._dataset_remove(&mut dom, s("userId"));
    assert_eq!(e.get_attribute(&dom, s("data-user-id")), None);
    e._dataset_remove(&mut dom, s("nothing"));
    assert_eq!(e._dataset_get(&dom).len(), 3);
}

#[test]
fn dataset_keys_come_once() {
    let mut dom = Dom::new();
    let e = element(&mut dom, "div");
    e.set_attribute(&mut dom, s("data-a-b"), s("1"));
    e.set_attribute(&mut dom, s("data-x"), s("2"));
    e.set_attribute(&mut dom, s("data-a--b"), s("3"));
    assert_eq!(e._dataset_get(&dom), vec![(s("aB"), s("3")), (s("x"), s("2"))]);
}

#[test]
fn namespace_lookup_walks_up() {
    let mut dom = Dom::new();
    let top = element(&mut dom, "svg");
    let mid = element(&mut dom, "g");
    let leaf = dom.create(NodeData::Text { contents: s("t") });
    top.append(&mut dom, &mid);
    mid.append(&mut dom, &leaf);
    top.set_attribute_ns(&mut dom, None, s("xmlns:x"), s("urn:x"));
    top.set_attribute(&mut dom, s("xmlns"), s("urn:default"));
    mid.set_attribute_ns(&mut dom, None, s("xmlns:y"), s("urn:y"));
    mid.set_attribute_ns(&mut dom, None, s("xmlns:x2"), s("urn:x"));
    assert_eq!(leaf.lookup_namespace_uri(&dom, Some(s("x"))), Some(s("urn:x")));
    assert_eq!(leaf.lookup_namespace_uri(&dom, Some(s("y"))), Some(s("urn:y")));
    assert_eq!(top.lookup_namespace_uri(&dom, Some(s("y"))), None);
    assert_eq!(leaf.lookup_namespace_uri(&dom, None), Some(s("urn:default")));
    assert_eq!(leaf.lookup_namespace_uri(&dom, Some(s("zz"))), None);
    assert_eq!(leaf.lookup_prefix(&dom, s("urn:x")), Some(s("x2")));
    assert_eq!(top.lookup_prefix(&dom, s("urn:x")), Some(s("x")));
    assert_eq!(leaf.lookup_prefix(&dom, s("urn:default")), None);
    assert!(!leaf.is_default_namespace(Some(s("urn:default"))));
}

#[test]
fn parsed_attributes_are_read() {
    let (dom, root) = parse(s("<div id=\"a\" class=\"k  m\" data-n=\"1\">x</div>"));
    let div = root.get_element_by_id(&dom, s("a")).unwrap();
    assert_eq!(div.get_attribute_names(&dom), vec![s("id"), s("class"), s("data-n")]);
    assert_eq!(div.class_name(&dom), "k  m");
    assert_eq!(div._dataset_get(&dom), vec![(s("n"), s("1"))]);
    assert_eq!(div.namespace_uri(&dom), Some(s("http://www.w3.org/1999/xhtml")));
    assert_eq!(div.prefix(&dom), None);
    assert_eq!(div.local_name(&dom), Some(s("div")));
    assert_eq!(div.tag_name(&dom), Some(s("DIV")));
}
