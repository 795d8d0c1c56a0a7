use domparser::markup::{data_from_parts, ensure_html_root, fits_in_parser, serialize_node, MAX_MARKUP_BYTES};
use domparser::fragment::unwrap_fragment;
use domparser::{parse, parse_into, Attribute, Dom, DomNode, NodeData, Place, QualName};

fn s(x: &str) -> String {
    x.to_string()
}

fn body_of(html: &str) -> (Dom, DomNode, DomNode) {
    let (dom, root) = parse(s(html));
    let body = root.body(&dom).unwrap();
    (dom, root, body)
}

#[test]
fn round_trip() {
    for src in [
        "<p>hi</p>",
        "<!DOCTYPE html><html><head><title>t</title></head><body class=\"a\"><div id=\"x\">a &amp; b &lt; c<br><img src=\"i.png\"></div><!-- note --></body></html>",
        "plain text only",
        "<ul><li>1<li>2</ul><script>if (a < b) { c(); }</script>",
        "",
    ] {
        let (dom, root) = parse(s(src));
        let once = root.outer_html(&dom);
        let (dom2, root2) = parse(once.clone());
        assert_eq!(root2.outer_html(&dom2), once);
        let html = root.document_element(&dom).unwrap();
        let html2 = root2.document_element(&dom2).unwrap();
        assert_eq!(html2.outer_html(&dom2), html.outer_html(&dom));
    }
}

#[test]
fn serialization() {
    let (dom, root, body) = body_of("<div id=\"a\">x &amp; y<br><i>z</i></div><!--c-->");
    assert_eq!(
        root.outer_html(&dom),
        "<html><head></head><body><div id=\"a\">x &amp; y<br><i>z</i></div><!--c--></body></html>"
    );
    assert_eq!(root.inner_html(&dom), root.outer_html(&dom));
    assert_eq!(body.inner_html(&dom), "<div id=\"a\">x &amp; y<br><i>z</i></div><!--c-->");
    assert_eq!(
        body.outer_html(&dom),
        "<body><div id=\"a\">x &amp; y<br><i>z</i></div><!--c--></body>"
    );
    let div = body.first_child(&dom).unwrap();
    assert_eq!(div.inner_html(&dom), "x &amp; y<br><i>z</i>");
    assert_eq!(div.outer_html_getter(&dom), "<div id=\"a\">x &amp; y<br><i>z</i></div>");
    assert_eq!(div.inner_html_getter(&dom), "x &amp; y<br><i>z</i>");
    assert_eq!(div.to_string_js(&dom), div.outer_html_getter(&dom));
    assert_eq!(root.outer_html_getter(&dom), root.outer_html(&dom));
    let text = div.first_child(&dom).unwrap();
    assert_eq!(text.outer_html(&dom), "x &amp; y");
    assert_eq!(text.inner_html(&dom), "");
    assert_eq!(serialize_node(&dom, div, true, false), "x &amp; y<br><i>z</i>");
}

#[test]
fn serialization_of_made_nodes() {
    let mut dom = Dom::new();
    let d = dom.create(NodeData::Document);
    let e = d.create_element(&mut dom, s("P"));
    let t = d.create_text_node(&mut dom, s("a<b>\"&\u{a0}"));
    let c = d.create_comment(&mut dom, s(" c "));
    let pi = d.create_processing_instruction(&mut dom, s("xml"), s("version=\"1.0\""));
    let dt = dom.create(NodeData::Doctype { name: s("html"), public_id: s(""), system_id: s("") });
    e.set_attribute(&mut dom, s("title"), s("a<b>\"&"));
    for n in [t, c, pi] {
        e.append(&mut dom, &n);
    }
    d.append(&mut dom, &dt);
    d.append(&mut dom, &e);
    assert_eq!(
        d.outer_html(&dom),
        "<!DOCTYPE html><p title=\"a<b>&quot;&amp;\">a&lt;b&gt;\"&amp;&nbsp;<!-- c --><?xml version=\"1.0\"></p>"
    );
    assert_eq!(t.outer_html(&dom), "a&lt;b&gt;\"&amp;&nbsp;");
    assert_eq!(c.outer_html(&dom), "<!-- c -->");
    assert_eq!(dt.outer_html(&dom), "<!DOCTYPE html>");
    // what hangs below a text node is not written
    let stray = d.create_element(&mut dom, s("b"));
    t.append(&mut dom, &stray);
    assert_eq!(t.outer_html(&dom), "a&lt;b&gt;\"&amp;&nbsp;");
    assert_eq!(t.inner_html(&dom), "<b></b>");
    // a document further down is written as its children
    let inner = dom.create(NodeData::Document);
    let it = d.create_text_node(&mut dom, s("in"));
    inner.append(&mut dom, &it);
    let holder = d.create_element(&mut dom, s("div"));
    holder.append(&mut dom, &inner);
    assert_eq!(holder.outer_html(&dom), "<div>in</div>");
}

#[test]
fn scripting_changes_noscript_text() {
    let mut dom = Dom::new();
    let d = dom.create(NodeData::Document);
    let e = d.create_element(&mut dom, s("noscript"));
    let t = d.create_text_node(&mut dom, s("<p>"));
    e.append(&mut dom, &t);
    assert_eq!(e.outer_html(&dom), "<noscript><p></noscript>");
    assert_eq!(e.outer_html_getter(&dom), "<noscript>&lt;p&gt;</noscript>");
    // without the element itself the serializer does not know what the text stands in
    assert_eq!(e.inner_html(&dom), "&lt;p&gt;");
    assert_eq!(e.inner_html_getter(&dom), "&lt;p&gt;");
}

#[test]
fn equal_nodes() {
    let (dom, _, body) = body_of("<p class=\"a\">x</p><p class=\"a\">x</p><p class=\"b\">x</p>");
    let ps = body.children(&dom);
    assert!(ps[0].is_equal_node(&dom, &ps[1]));
    assert!(!ps[0].is_equal_node(&dom, &ps[2]));
    assert!(ps[0].is_equal_node(&dom, &ps[0]));
}

#[test]
fn a_document_without_html_gets_one() {
    let mut dom = Dom::new();
    let d = dom.create(NodeData::Document);
    let dt = dom.create(NodeData::Doctype { name: s("html"), public_id: s(""), system_id: s("") });
    let p = d.create_element(&mut dom, s("p"));
    let t = d.create_text_node(&mut dom, s("t"));
    for n in [dt, p, t] {
        d.append(&mut dom, &n);
    }
    let before = dom.len();
    ensure_html_root(&mut dom, d);
    assert_eq!(dom.len(), before + 1);
    let kids = d.child_nodes(&dom);
    assert_eq!(kids.len(), 1);
    let html = kids[0];
    assert_eq!(html.id, before);
    assert_eq!(html.local_name(&dom), Some(s("html")));
    assert_eq!(html.namespace_uri(&dom), Some(s("http://www.w3.org/1999/xhtml")));
    assert_eq!(html.child_nodes(&dom), vec![dt, p, t]);
    assert_eq!(p.parent_node(&dom), Some(html));
    assert_eq!(html.parent_node(&dom), Some(d));
    ensure_html_root(&mut dom, d);
    assert_eq!(dom.len(), before + 1);
    assert_eq!(d.child_nodes(&dom), vec![html]);
    let empty = dom.create(NodeData::Document);
    ensure_html_root(&mut dom, empty);
    assert_eq!(empty.child_nodes(&dom).len(), 1);
    assert_eq!(empty.outer_html(&dom), "<html></html>");
}

#[test]
fn set_inner_html_replaces_children() {
    let (mut dom, root, body) = body_of("<div id=\"a\"><i>old</i></div><p>keep</p>");
    let div = root.get_element_by_id(&dom, s("a")).unwrap();
    let old = div.first_child(&dom).unwrap();
    div.set_inner_html(&mut dom, s("<b>new</b> text<!--c-->"));
    assert_eq!(div.inner_html(&dom), "<b>new</b> text<!--c-->");
    assert_eq!(old.parent_node(&dom), None);
    assert_eq!(div.child_nodes(&dom).len(), 3);
    for k in div.child_nodes(&dom) {
        assert_eq!(k.parent_node(&dom), Some(div));
    }
    assert_eq!(
        body.inner_html(&dom),
        "<div id=\"a\"><b>new</b> text<!--c--></div><p>keep</p>"
    );
    div.set_inner_html(&mut dom, s(""));
    assert_eq!(div.child_nodes(&dom).len(), 0);
    body.set_inner_html(&mut dom, s("<span>foo</span>"));
    assert_eq!(body.inner_html(&dom), "<span>foo</span>");
    assert_eq!(root.outer_html(&dom), "<html><head></head><body><span>foo</span></body></html>");
    let text = body.first_child(&dom).unwrap().first_child(&dom).unwrap();
    text.set_inner_html(&mut dom, s("<u>x</u>"));
    assert_eq!(text.inner_html(&dom), "<u>x</u>");
}

#[test]
fn set_inner_html_respects_the_context() {
    let (mut dom, root, _) = body_of("<table id=\"t\"></table><select id=\"s\"></select>");
    let table = root.get_element_by_id(&dom, s("t")).unwrap();
    table.set_inner_html(&mut dom, s("<tr><td>1</td></tr>"));
    assert_eq!(table.inner_html(&dom), "<tbody><tr><td>1</td></tr></tbody>");
    let select = root.get_element_by_id(&dom, s("s")).unwrap();
    select.set_inner_html(&mut dom, s("<option>a</option><div>no</div>"));
    assert_eq!(select.inner_html(&dom), "<option>a</option>no");
}

#[test]
fn set_outer_html_replaces_the_node() {
    let (mut dom, root, body) = body_of("<p>a</p><div id=\"x\">old</div><p>b</p>");
    let div = root.get_element_by_id(&dom, s("x")).unwrap();
    div.set_outer_html(&mut dom, s("<i>1</i>two<b>3</b>"));
    assert_eq!(body.inner_html(&dom), "<p>a</p><i>1</i>two<b>3</b><p>b</p>");
    assert_eq!(div.parent_node(&dom), None);
    assert_eq!(div.outer_html(&dom), "<div id=\"x\">old</div>");
    let before = dom.len();
    div.set_outer_html(&mut dom, s("<i>again</i>"));
    assert_eq!(dom.len(), before);
    assert_eq!(div.outer_html(&dom), "<div id=\"x\">old</div>");
}

#[test]
fn insert_adjacent_html_places() {
    let (mut dom, root, body) = body_of("<div id=\"x\"><p>mid</p></div>");
    let div = root.get_element_by_id(&dom, s("x")).unwrap();
    div.insert_adjacent_html(&mut dom, s("beforebegin"), s("<i>1</i><i>2</i>"));
    div.insert_adjacent_html(&mut dom, s("AfterBegin"), s("<b>3</b><b>4</b>"));
    div.insert_adjacent_html(&mut dom, s("beforeend"), s("<u>5</u><u>6</u>"));
    div.insert_adjacent_html(&mut dom, s("AFTEREND"), s("<s>7</s><s>8</s>"));
    assert_eq!(
        body.inner_html(&dom),
        "<i>1</i><i>2</i><div id=\"x\"><b>3</b><b>4</b><p>mid</p><u>5</u><u>6</u></div><s>7</s><s>8</s>"
    );
    let before = body.inner_html(&dom);
    div.insert_adjacent_html(&mut dom, s("inside"), s("<i>no</i>"));
    assert_eq!(body.inner_html(&dom), before);
    let lone = root.create_element(&mut dom, s("p"));
    lone.insert_adjacent_html(&mut dom, s("beforebegin"), s("<i>x</i>"));
    lone.insert_adjacent_html(&mut dom, s("afterend"), s("<i>x</i>"));
    assert_eq!(lone.parent_node(&dom), None);
    lone.insert_adjacent_html(&mut dom, s("beforeend"), s("<i>x</i>"));
    assert_eq!(lone.outer_html(&dom), "<p><i>x</i></p>");
}

#[test]
fn insert_adjacent_text_and_element() {
    let (mut dom, root, body) = body_of("<div id=\"x\"><p>mid</p></div>");
    let div = root.get_element_by_id(&dom, s("x")).unwrap();
    div.insert_adjacent_text(&mut dom, s("beforebegin"), s("1"));
    div.insert_adjacent_text(&mut dom, s("afterbegin"), s("2"));
    div.insert_adjacent_text(&mut dom, s("beforeend"), s("3"));
    div.insert_adjacent_text(&mut dom, s("afterend"), s("<4>"));
    div.insert_adjacent_text(&mut dom, s("nowhere"), s("5"));
    assert_eq!(body.inner_html(&dom), "1<div id=\"x\">2<p>mid</p>3</div>&lt;4&gt;");
    let p = div.first_element_child(&dom).unwrap();
    div.insert_adjacent_element(&mut dom, s("afterend"), &p);
    assert_eq!(body.inner_html(&dom), "1<div id=\"x\">23</div><p>mid</p>&lt;4&gt;");
    div.insert_adjacent_element(&mut dom, s("BeforeBegin"), &p);
    assert_eq!(body.inner_html(&dom), "1<p>mid</p><div id=\"x\">23</div>&lt;4&gt;");
    div.insert_adjacent_element(&mut dom, s("afterbegin"), &p);
    assert_eq!(body.inner_html(&dom), "1<div id=\"x\"><p>mid</p>23</div>&lt;4&gt;");
    div.insert_adjacent_element(&mut dom, s("beforeend"), &p);
    assert_eq!(body.inner_html(&dom), "1<div id=\"x\">23<p>mid</p></div>&lt;4&gt;");
    div.insert_adjacent_element(&mut dom, s("sideways"), &p);
    assert_eq!(body.inner_html(&dom), "1<div id=\"x\">23<p>mid</p></div>&lt;4&gt;");
    p.insert_adjacent_element(&mut dom, s("beforeend"), &div);
    assert_eq!(body.inner_html(&dom), "1<div id=\"x\">23<p>mid</p></div>&lt;4&gt;");
}

#[test]
fn insert_adjacent_nodes_keeps_the_order() {
    let mut dom = Dom::new();
    let d = dom.create(NodeData::Document);
    let p = d.create_element(&mut dom, s("p"));
    let me = d.create_element(&mut dom, s("me"));
    let mid = d.create_text_node(&mut dom, s("-"));
    p.append(&mut dom, &me);
    me.append(&mut dom, &mid);
    for (place, tag) in [
        (Place::BeforeBegin, "a"),
        (Place::AfterBegin, "b"),
        (Place::BeforeEnd, "c"),
        (Place::AfterEnd, "d"),
    ] {
        let one = d.create_element(&mut dom, format!("{}1", tag));
        let two = d.create_element(&mut dom, format!("{}2", tag));
        let three = d.create_element(&mut dom, format!("{}3", tag));
        me.insert_adjacent_nodes(&mut dom, place, &vec![one, two, three]);
    }
    assert_eq!(
        p.inner_html(&dom),
        "<a1></a1><a2></a2><a3></a3><me><b1></b1><b2></b2><b3></b3>-<c1></c1><c2></c2><c3></c3></me><d1></d1><d2></d2><d3></d3>"
    );
    let x = d.create_element(&mut dom, s("x"));
    me.insert_adjacent(&mut dom, Place::AfterBegin, &x);
    assert_eq!(me.first_child(&dom), Some(x));
}

#[test]
fn unwrapping_a_fragment() {
    let mut dom = Dom::new();
    let d = dom.create(NodeData::Document);
    let top = dom.create(NodeData::Document);
    let html = d.create_element(&mut dom, s("html"));
    let head = d.create_element(&mut dom, s("head"));
    let body = d.create_element(&mut dom, s("body"));
    let a = d.create_text_node(&mut dom, s("a"));
    let b = d.create_element(&mut dom, s("b"));
    top.append(&mut dom, &html);
    html.append(&mut dom, &head);
    html.append(&mut dom, &body);
    body.append(&mut dom, &a);
    body.append(&mut dom, &b);
    assert_eq!(unwrap_fragment(&dom, "div", top), vec![head, body]);
    assert_eq!(unwrap_fragment(&dom, "body", top), vec![a, b]);
    assert_eq!(unwrap_fragment(&dom, "body", html), vec![a, b]);
    assert_eq!(unwrap_fragment(&dom, "div", html), vec![head, body]);
    assert_eq!(unwrap_fragment(&dom, "body", body), vec![a, b]);
    assert_eq!(unwrap_fragment(&dom, "body", head), Vec::<DomNode>::new());
    let extra = d.create_comment(&mut dom, s("x"));
    top.append(&mut dom, &extra);
    assert_eq!(unwrap_fragment(&dom, "body", top), vec![html, extra]);
    assert_eq!(unwrap_fragment(&dom, "p", top), vec![html, extra]);
}

#[test]
fn splicing_a_fragment() {
    let mut dom = Dom::new();
    let d = dom.create(NodeData::Document);
    let host = d.create_element(&mut dom, s("div"));
    let me = d.create_element(&mut dom, s("p"));
    let old = d.create_text_node(&mut dom, s("old"));
    host.append(&mut dom, &me);
    me.append(&mut dom, &old);
    let top = dom.create(NodeData::Document);
    let html = d.create_element(&mut dom, s("html"));
    let a = d.create_text_node(&mut dom, s("a"));
    let b = d.create_element(&mut dom, s("b"));
    top.append(&mut dom, &html);
    html.append(&mut dom, &a);
    html.append(&mut dom, &b);
    me.splice_inner(&mut dom, "p", top);
    assert_eq!(me.child_nodes(&dom), vec![a, b]);
    assert_eq!(old.parent_node(&dom), None);
    assert_eq!(html.child_nodes(&dom).len(), 0);
    let top2 = dom.create(NodeData::Document);
    let c = d.create_text_node(&mut dom, s("c"));
    let e = d.create_element(&mut dom, s("e"));
    top2.append(&mut dom, &c);
    top2.append(&mut dom, &e);
    me.splice_outer(&mut dom, "div", top2);
    assert_eq!(host.child_nodes(&dom), vec![c, e]);
    assert_eq!(me.parent_node(&dom), None);
    assert_eq!(me.child_nodes(&dom), vec![a, b]);
}

#[test]
fn parsing_builds_the_tree_in_order() {
    let (dom, root) = parse(s("<ul><li>1</li><li>2<b>x</b></li><li>3</li></ul>tail"));
    let ul = root.query_selector(&dom, s("ul")).unwrap();
    let items = ul.child_nodes(&dom);
    assert_eq!(items.len(), 3);
    assert_eq!(items[0].text(&dom), "1");
    assert_eq!(items[1].text(&dom), "2x");
    assert_eq!(items[2].text(&dom), "3");
    assert_eq!(ul.next_sibling(&dom).unwrap().node_value(&dom), Some(s("tail")));
    assert_eq!(root.id, 0);
    for i in 0..dom.len() {
        let n = DomNode { id: i };
        for k in n.child_nodes(&dom) {
            assert_eq!(k.parent_node(&dom), Some(n));
        }
    }
}

#[test]
fn parsing_into_a_store_leaves_the_rest_alone() {
    let (mut dom, root) = parse(s("<p>one</p>"));
    let before = root.outer_html(&dom);
    let count = dom.len();
    let second = parse_into(&mut dom, s("<i>two</i>"));
    assert_eq!(second.id, count);
    assert_eq!(second.node_type(&dom), 9);
    assert_eq!(second.parent_node(&dom), None);
    assert_eq!(second.outer_html(&dom), "<html><head></head><body><i>two</i></body></html>");
    assert_eq!(root.outer_html(&dom), before);
    // nodes of the two documents live in one store and can change places
    let i = second.query_selector(&dom, s("i")).unwrap();
    let p = root.query_selector(&dom, s("p")).unwrap();
    p.append(&mut dom, &i);
    assert_eq!(root.outer_html(&dom), "<html><head></head><body><p>one<i>two</i></p></body></html>");
    assert_eq!(second.outer_html(&dom), "<html><head></head><body></body></html>");
    assert_eq!(i.owner_document(&dom), Some(root));
    assert_eq!(second.compare_document_position(&dom, &root), 33);
}

#[test]
fn data_from_what_was_read() {
    let name = || QualName { prefix: None, ns: s("urn:n"), local: s("div") };
    let attrs = || vec![Attribute { name: QualName { prefix: Some(s("p")), ns: s(""), local: s("a") }, value: s("1") }];
    let mut dom = Dom::new();
    let leaf = dom.create(data_from_parts(Some(NodeData::Text { contents: s("t") }), Some(name()), attrs()));
    assert_eq!(leaf.node_type(&dom), 3);
    assert_eq!(leaf.node_value(&dom), Some(s("t")));
    assert!(!leaf.has_attributes(&dom));
    let element = dom.create(data_from_parts(None, Some(name()), attrs()));
    assert_eq!(element.node_type(&dom), 1);
    assert_eq!(element.local_name(&dom), Some(s("div")));
    assert_eq!(element.namespace_uri(&dom), Some(s("urn:n")));
    assert_eq!(element.get_attribute_names(&dom), vec![s("p:a")]);
    assert_eq!(element.get_attribute(&dom, s("a")), Some(s("1")));
    let neither = dom.create(data_from_parts(None, None, attrs()));
    assert_eq!(neither.node_type(&dom), 9);
    assert!(!neither.has_attributes(&dom));
}

#[test]
fn the_parser_takes_texts_up_to_a_bound() {
    assert!(fits_in_parser(""));
    assert!(fits_in_parser("<p>é</p>"));
    assert_eq!(MAX_MARKUP_BYTES, 512 * 1024 * 1024);
    let (dom, root) = parse("x".repeat(70_000));
    assert_eq!(root.body(&dom).unwrap().text(&dom).len(), 70_000);
}
