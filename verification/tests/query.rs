use domparser::{parse, Dom, DomNode, NodeData};

fn s(x: &str) -> String {
    x.to_string()
}

const PAGE: &str = "<!DOCTYPE html><html><head><title>The <b>title</b> &amp; more</title></head>\
<body><div id=\"top\" class=\"box big\"><p class=\"big\">one</p><span id=\"in\" class=\"big box\">two</span></div>\
<p id=\"second\" class=\"box\">three<em>four</em></p><!--c--></body></html>";

fn page() -> (Dom, DomNode) {
    parse(s(PAGE))
}

fn ids(dom: &Dom, nodes: &[DomNode]) -> Vec<String> {
    nodes.iter().map(|n| n.id(dom)).collect()
}

fn names(dom: &Dom, nodes: &[DomNode]) -> Vec<String> {
    nodes.iter().map(|n| n.node_name(dom)).collect()
}

#[test]
fn by_id() {
    let (dom, root) = page();
    let top = root.get_element_by_id(&dom, s("top")).unwrap();
    assert_eq!(top.node_name(&dom), "DIV");
    assert_eq!(root.get_element_by_id(&dom, s("nope")), None);
    // the search leaves out the node that it starts from
    assert_eq!(top.get_element_by_id(&dom, s("top")), None);
    assert_eq!(top.get_element_by_id(&dom, s("in")).unwrap().node_name(&dom), "SPAN");
    assert_eq!(top.get_element_by_id(&dom, s("second")), None);
}

#[test]
fn by_class() {
    let (dom, root) = page();
    let big = root.get_elements_by_class_name(&dom, s("big"));
    assert_eq!(names(&dom, &big), vec!["DIV", "P", "SPAN"]);
    let both = root.get_elements_by_class_name(&dom, s(" box  big "));
    assert_eq!(ids(&dom, &both), vec!["top", "in"]);
    assert_eq!(root.get_elements_by_class_name(&dom, s("")).len(), 0);
    assert_eq!(root.get_elements_by_class_name(&dom, s("  ")).len(), 0);
    assert_eq!(root.get_elements_by_class_name(&dom, s("bi")).len(), 0);
    let top = big[0];
    assert_eq!(names(&dom, &top.get_elements_by_class_name(&dom, s("big"))), vec!["P", "SPAN"]);
}

#[test]
fn by_tag() {
    let (dom, root) = page();
    let ps = root.get_elements_by_tag_name(&dom, s("p"));
    assert_eq!(ps.len(), 2);
    assert_eq!(ps[1].id(&dom), "second");
    assert_eq!(root.get_elements_by_tag_name(&dom, s("P")).len(), 2);
    assert_eq!(root.get_elements_by_tag_name(&dom, s("nothing")).len(), 0);
    let all = root.get_elements_by_tag_name(&dom, s("*"));
    assert_eq!(
        names(&dom, &all),
        vec!["HTML", "HEAD", "TITLE", "BODY", "DIV", "P", "SPAN", "P", "EM"]
    );
}

#[test]
fn matches_chains() {
    let (dom, root) = page();
    let span = root.get_element_by_id(&dom, s("in")).unwrap();
    assert!(span.matches(&dom, s("span")));
    assert!(span.matches(&dom, s("SPAN")));
    assert!(span.matches(&dom, s("#in")));
    assert!(span.matches(&dom, s(".big")));
    assert!(span.matches(&dom, s("*")));
    assert!(!span.matches(&dom, s("p")));
    assert!(!span.matches(&dom, s("")));
    assert!(!span.matches(&dom, s("   ")));
    assert!(span.matches(&dom, s("div span")));
    assert!(span.matches(&dom, s("  body   .box   #in ")));
    assert!(span.matches(&dom, s("html body div span")));
    assert!(span.matches(&dom, s("html span")));
    assert!(span.matches(&dom, s("* span")));
    assert!(!span.matches(&dom, s("span span")));
    assert!(!span.matches(&dom, s("p span")));
    assert!(!span.matches(&dom, s("div body span")));
    assert!(!span.matches(&dom, s("head span")));
    assert!(!root.matches(&dom, s("*")));
    let text = span.first_child(&dom).unwrap();
    assert!(!text.matches(&dom, s("*")));
    assert!(!text.matches(&dom, s("span")));
}

#[test]
fn closest_walks_up() {
    let (dom, root) = page();
    let span = root.get_element_by_id(&dom, s("in")).unwrap();
    let text = span.first_child(&dom).unwrap();
    assert_eq!(text.closest(&dom, s("span")), Some(span));
    assert_eq!(span.closest(&dom, s(".big")), Some(span));
    assert_eq!(span.closest(&dom, s("div")).unwrap().id(&dom), "top");
    assert_eq!(span.closest(&dom, s("body div")).unwrap().id(&dom), "top");
    assert_eq!(span.closest(&dom, s("html")).unwrap().node_name(&dom), "HTML");
    assert_eq!(span.closest(&dom, s("p")), None);
    assert_eq!(span.closest(&dom, s("")), None);
}

#[test]
fn query_selector_dispatch() {
    let (dom, root) = page();
    assert_eq!(root.query_selector(&dom, s(" #in ")).unwrap().node_name(&dom), "SPAN");
    assert_eq!(root.query_selector(&dom, s(".box")).unwrap().id(&dom), "top");
    assert_eq!(root.query_selector(&dom, s("p")).unwrap().class_name(&dom), "big");
    assert_eq!(root.query_selector(&dom, s("#zz")), None);
    assert_eq!(root.query_selector(&dom, s(".zz")), None);
    assert_eq!(root.query_selector(&dom, s("zz")), None);
    assert_eq!(root.query_selector(&dom, s("")), None);
    assert_eq!(root.query_selector(&dom, s("div p")).unwrap().class_name(&dom), "big");
    assert_eq!(root.query_selector(&dom, s("body>*")), None);
    assert_eq!(ids(&dom, &root.query_selector_all(&dom, s("#in"))), vec!["in"]);
    assert_eq!(root.query_selector_all(&dom, s("#zz")).len(), 0);
    assert_eq!(ids(&dom, &root.query_selector_all(&dom, s(".box"))), vec!["top", "in", "second"]);
    assert_eq!(root.query_selector_all(&dom, s("p")).len(), 2);
    assert_eq!(ids(&dom, &root.query_selector_all(&dom, s("body p"))), vec!["", "second"]);
    assert_eq!(ids(&dom, &root.query_selector_all(&dom, s("div .big"))), vec!["", "in"]);
    assert_eq!(ids(&dom, &root.query_selector_all(&dom, s(" body>* "))), vec!["top", "second"]);
    let top = root.get_element_by_id(&dom, s("top")).unwrap();
    assert_eq!(top.query_selector_all(&dom, s("body>*")).len(), 0);
    assert_eq!(root.select(s("p")), None);
    assert_eq!(root.select_all(s("p")).len(), 0);
}

#[test]
fn document_parts() {
    let (dom, root) = page();
    assert_eq!(root.head(&dom).unwrap().node_name(&dom), "HEAD");
    assert_eq!(root.body(&dom).unwrap().node_name(&dom), "BODY");
    assert_eq!(root.title(&dom), "The <b>title</b> & more");
    assert_eq!(root.document_element(&dom).unwrap().node_name(&dom), "HTML");
    let doctype = root.doctype(&dom).unwrap();
    assert_eq!(doctype.node_type(&dom), 10);
    assert_eq!(doctype.name(&dom), Some(s("html")));
    assert_eq!(doctype.node_name(&dom), "html");
    assert_eq!(doctype.public_id(&dom), Some(s("")));
    assert_eq!(doctype.system_id(&dom), Some(s("")));
    let body = root.body(&dom).unwrap();
    assert_eq!(body.head(&dom), None);
    assert_eq!(body.body(&dom), None);
    assert_eq!(body.title(&dom), "");
    assert_eq!(body.doctype(&dom), None);
    assert_eq!(body.document_element(&dom), None);
    assert_eq!(body.name(&dom), None);
    assert_eq!(body.last_child(&dom).unwrap().node_name(&dom), "#comment");
    assert_eq!(root.node_name(&dom), "#document");
    assert_eq!(body.text(&dom), "onetwothreefour");
}

#[test]
fn kinds_and_names() {
    let mut dom = Dom::new();
    let d = dom.create(NodeData::Document);
    let e = d.create_element(&mut dom, s("DiV"));
    let t = d.create_text_node(&mut dom, s("t"));
    let c = d.create_comment(&mut dom, s("c"));
    let f = d.create_document_fragment(&mut dom);
    let pi = d.create_processing_instruction(&mut dom, s("xml-stylesheet"), s("href"));
    assert_eq!(d.node_type(&dom), 9);
    assert_eq!(e.node_type(&dom), 1);
    assert_eq!(t.node_type(&dom), 3);
    assert_eq!(c.node_type(&dom), 8);
    assert_eq!(f.node_type(&dom), 11);
    assert_eq!(pi.node_type(&dom), 7);
    assert_eq!(e.node_name(&dom), "DIV");
    assert_eq!(e.local_name(&dom), Some(s("div")));
    assert_eq!(e.tag_name(&dom), Some(s("DIV")));
    assert_eq!(e.namespace_uri(&dom), Some(s("http://www.w3.org/1999/xhtml")));
    assert_eq!(t.node_name(&dom), "#text");
    assert_eq!(c.node_name(&dom), "#comment");
    assert_eq!(f.node_name(&dom), "#document-fragment");
    assert_eq!(f.namespace_uri(&dom), Some(s("")));
    assert_eq!(pi.node_name(&dom), "xml-stylesheet");
    assert_eq!(pi.target(&dom), Some(s("xml-stylesheet")));
    assert_eq!(t.tag_name(&dom), None);
    assert_eq!(t.local_name(&dom), None);
    assert_eq!(t.prefix(&dom), None);
    assert_eq!(t.namespace_uri(&dom), None);
    assert_eq!(e.target(&dom), None);
    assert_eq!(e.public_id(&dom), None);
    assert_eq!(e.system_id(&dom), None);
    for n in [d, e, t, c, f, pi] {
        assert_eq!(n.parent_node(&dom), None);
        assert!(!n.has_child_nodes(&dom));
    }
}
