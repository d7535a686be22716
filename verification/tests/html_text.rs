use domparser::parse;
use domparser::Dom;
use domparser::DomError;
use domparser::NodeData;
use domparser::NodeRepr;

fn s(text: &str) -> String {
    text.to_string()
}

fn new_document() -> (Dom, NodeRepr) {
    let mut dom = Dom::new();
    let doc = dom.new_document();
    (dom, doc)
}

#[test]
fn parse_reads_kinds_names_and_attributes() {
    let (dom, doc) = parse(s("<!DOCTYPE html><!--top--><html lang=en><body><p id=\"x\" class='a b'>t</p><br></body></html>")).unwrap();
    let top = doc.child_nodes(&dom);
    assert_eq!(top.len(), 3);
    assert_eq!(top[0].node_type(&dom), 10);
    assert_eq!(top[0].node_name(&dom), "html");
    assert_eq!(top[1].node_type(&dom), 8);
    assert_eq!(top[1].node_name(&dom), "#comment");
    assert_eq!(top[1].data(&dom), Some(s("top")));
    assert_eq!(top[2].node_type(&dom), 1);
    assert_eq!(top[2].get_attribute(&dom, s("lang")), Some(s("en")));
    let p = doc.get_element_by_id(&dom, s("x")).unwrap();
    assert_eq!(p.get_attribute_names(&dom), vec![s("id"), s("class")]);
    assert_eq!(p.class_name(&dom), "a b");
    assert_eq!(p.namespace_uri(&dom), Some(s("http://www.w3.org/1999/xhtml")));
    assert_eq!(p.prefix(&dom), None);
    assert_eq!(p.local_name(&dom), Some(s("p")));
    assert_eq!(p.node_name(&dom), "P");
    let t = p.first_child(&dom).unwrap();
    assert_eq!(t.node_type(&dom), 3);
    assert_eq!(t.node_name(&dom), "#text");
    assert_eq!(t.data(&dom), Some(s("t")));
    assert_eq!(t.tag_name(&dom), None);
    assert_eq!(t.local_name(&dom), None);
    assert_eq!(t.namespace_uri(&dom), None);
    assert_eq!(doc.node_name(&dom), "#document");
    assert_eq!(doc.parent_node(&dom), None);
}

#[test]
fn parse_of_nothing_still_has_the_landmarks() {
    let (dom, doc) = parse(s("")).unwrap();
    assert_eq!(doc.outer_html(&dom).unwrap(), "<html><head></head><body></body></html>");
    assert_eq!(doc.document_element(&dom).unwrap().children(&dom).len(), 2);
    assert_eq!(doc.body(&dom).unwrap().has_child_nodes(&dom), false);
}

#[test]
fn ensure_html_root_gathers_the_top_level_nodes() {
    let (mut dom, doc) = new_document();
    let doctype = dom.create(NodeData::Doctype {
        name: s("html"),
        public_id: s(""),
        system_id: s(""),
    });
    let p = doc.create_element(&mut dom, s("p"));
    let second = dom.create(NodeData::Doctype {
        name: s("other"),
        public_id: s("pub"),
        system_id: s("sys"),
    });
    let c = doc.create_comment(&mut dom, s("c"));
    doc.append(&mut dom, &p).unwrap();
    doc.append(&mut dom, &doctype).unwrap();
    doc.append(&mut dom, &c).unwrap();
    doc.append(&mut dom, &second).unwrap();
    let count = dom.len();
    dom.ensure_html_root(doc);
    assert_eq!(dom.len(), count + 1);
    let html = NodeRepr(count);
    assert_eq!(doc.child_nodes(&dom), vec![doctype, second, html]);
    assert_eq!(html.child_nodes(&dom), vec![p, c]);
    assert_eq!(html.tag_name(&dom), Some(s("HTML")));
    assert_eq!(html.namespace_uri(&dom), Some(s("http://www.w3.org/1999/xhtml")));
    assert_eq!(p.parent_node(&dom), Some(html));
    assert_eq!(doc.document_element(&dom), Some(html));
    assert_eq!(second.public_id(&dom), Some(s("pub")));
    assert_eq!(second.system_id(&dom), Some(s("sys")));
    assert_eq!(doc.outer_html(&dom).unwrap(), "<!DOCTYPE html><!DOCTYPE other><html><p></p><!--c--></html>");
    dom.ensure_html_root(doc);
    assert_eq!(dom.len(), count + 1);
    assert_eq!(doc.child_nodes(&dom), vec![doctype, second, html]);
    dom.ensure_html_root(p);
    assert_eq!(dom.len(), count + 1);
}

#[test]
fn serialization_follows_the_html_rules() {
    let (mut dom, doc) = new_document();
    let div = doc.create_element(&mut dom, s("div"));
    div.set_attribute(&mut dom, s("title"), s("a \"q\" & <b>"));
    let br = doc.create_element(&mut dom, s("br"));
    let text = doc.create_text_node(&mut dom, s("1 < 2 & 3 > 2"));
    let comment = doc.create_comment(&mut dom, s(" note "));
    let pi = doc.create_processing_instruction(&mut dom, s("php"), s("echo"));
    let script = doc.create_element(&mut dom, s("script"));
    let code = doc.create_text_node(&mut dom, s("if (a < b && c) {}"));
    script.append(&mut dom, &code).unwrap();
    div.append(&mut dom, &text).unwrap();
    div.append(&mut dom, &br).unwrap();
    div.append(&mut dom, &comment).unwrap();
    div.append(&mut dom, &pi).unwrap();
    div.append(&mut dom, &script).unwrap();
    assert_eq!(
        div.outer_html(&dom).unwrap(),
        "<div title=\"a &quot;q&quot; &amp; &lt;b&gt;\">1 &lt; 2 &amp; 3 &gt; 2<br><!-- note --><?php echo><script>if (a < b && c) {}</script></div>"
    );
    assert_eq!(
        div.inner_html(&dom).unwrap(),
        "1 &lt; 2 &amp; 3 &gt; 2<br><!-- note --><?php echo><script>if (a < b && c) {}</script>"
    );
    assert_eq!(script.inner_html(&dom).unwrap(), "if (a < b && c) {}");
    assert_eq!(script.outer_html_getter(&dom).unwrap(), "<script>if (a < b && c) {}</script>");
    assert_eq!(text.outer_html(&dom).unwrap(), "1 &lt; 2 &amp; 3 &gt; 2");
    assert_eq!(text.inner_html(&dom).unwrap(), "");
    assert_eq!(comment.outer_html(&dom).unwrap(), "<!-- note -->");
    assert_eq!(pi.outer_html(&dom).unwrap(), "<?php echo>");
    assert_eq!(br.outer_html(&dom).unwrap(), "<br>");
    assert_eq!(div.inner_html_getter(&dom).unwrap(), div.inner_html(&dom).unwrap());
    assert_eq!(div.to_string_js(&dom).unwrap(), div.outer_html(&dom).unwrap());
}

#[test]
fn documents_and_fragments_serialize_their_children() {
    let (mut dom, doc) = parse(s("<!DOCTYPE html><p>a</p>")).unwrap();
    assert_eq!(doc.outer_html(&dom).unwrap(), "<!DOCTYPE html><html><head></head><body><p>a</p></body></html>");
    assert_eq!(doc.inner_html(&dom).unwrap(), doc.outer_html(&dom).unwrap());
    let frag = doc.create_document_fragment(&mut dom);
    let b = doc.create_element(&mut dom, s("b"));
    let t = doc.create_text_node(&mut dom, s("x"));
    frag.append(&mut dom, &b).unwrap();
    frag.append(&mut dom, &t).unwrap();
    assert_eq!(frag.node_type(&dom), 11);
    assert_eq!(frag.node_name(&dom), "#document-fragment");
    assert_eq!(frag.outer_html(&dom).unwrap(), "<b></b>x");
    assert_eq!(frag.inner_html(&dom).unwrap(), "<b></b>x");
}

#[test]
fn outer_html_parses_back_to_an_equal_document() {
    let source = "<!DOCTYPE html><html><head><title>t</title></head><body><div id=\"a\" class=\"x\"><p>one &amp; two</p><br><!-- c --></div></body></html>";
    let (dom, doc) = parse(s(source)).unwrap();
    let written = doc.outer_html(&dom).unwrap();
    assert_eq!(written, source);
    let (again, again_doc) = parse(written.clone()).unwrap();
    assert_eq!(again_doc.outer_html(&again).unwrap(), written);
    assert_eq!(again.len(), dom.len());
}

#[test]
fn set_inner_html_replaces_the_children() {
    let (mut dom, doc) = parse(s("<div id=d><p>old</p>text</div>")).unwrap();
    let d = doc.get_element_by_id(&dom, s("d")).unwrap();
    let old = d.child_nodes(&dom);
    assert_eq!(d.set_inner_html(&mut dom, s("<b>1</b>two<i>3</i>")), Ok(()));
    assert_eq!(d.inner_html(&dom).unwrap(), "<b>1</b>two<i>3</i>");
    assert_eq!(d.child_nodes(&dom).len(), 3);
    assert_eq!(old[0].parent_node(&dom), None);
    assert_eq!(old[1].parent_node(&dom), None);
    assert_eq!(old[0].outer_html(&dom).unwrap(), "<p>old</p>");
    assert_eq!(d.parent_node(&dom), doc.body(&dom));
    assert_eq!(d.set_inner_html(&mut dom, s("")), Ok(()));
    assert_eq!(d.has_child_nodes(&dom), false);
    let t = doc.create_text_node(&mut dom, s("t"));
    assert_eq!(t.set_inner_html(&mut dom, s("<b></b>")), Err(DomError::InvalidState));
    assert_eq!(t.data(&dom), Some(s("t")));
}

#[test]
fn set_outer_html_replaces_the_node() {
    let (mut dom, doc) = parse(s("<div id=d><p id=a>a</p><p id=b>b</p><p id=c>c</p></div>")).unwrap();
    let d = doc.get_element_by_id(&dom, s("d")).unwrap();
    let b = doc.get_element_by_id(&dom, s("b")).unwrap();
    assert_eq!(b.set_outer_html(&mut dom, s("<i>x</i><u>y</u>")), Ok(()));
    assert_eq!(d.inner_html(&dom).unwrap(), "<p id=\"a\">a</p><i>x</i><u>y</u><p id=\"c\">c</p>");
    assert_eq!(b.parent_node(&dom), None);
    assert_eq!(b.outer_html(&dom).unwrap(), "<p id=\"b\">b</p>");
    assert_eq!(b.set_outer_html(&mut dom, s("<s></s>")), Ok(()));
    assert_eq!(b.outer_html(&dom).unwrap(), "<p id=\"b\">b</p>");
    assert_eq!(d.child_nodes(&dom).len(), 4);
}

#[test]
fn set_text_content_replaces_children_or_data() {
    let (mut dom, doc) = parse(s("<div id=d><p>a</p>b</div>")).unwrap();
    let d = doc.get_element_by_id(&dom, s("d")).unwrap();
    let old = d.child_nodes(&dom);
    d.set_text_content(&mut dom, s("x < y"));
    assert_eq!(d.child_nodes(&dom).len(), 1);
    assert_eq!(d.first_child(&dom).unwrap().node_type(&dom), 3);
    assert_eq!(d.text(&dom), "x < y");
    assert_eq!(d.inner_html(&dom).unwrap(), "x &lt; y");
    assert_eq!(old[0].parent_node(&dom), None);
    d.set_text_content(&mut dom, s(""));
    assert_eq!(d.has_child_nodes(&dom), false);
    let t = doc.create_text_node(&mut dom, s("t"));
    t.set_text_content(&mut dom, s("u"));
    assert_eq!(t.data(&dom), Some(s("u")));
    let before = doc.outer_html(&dom).unwrap();
    doc.set_text_content(&mut dom, s("ignored"));
    assert_eq!(doc.outer_html(&dom).unwrap(), before);
}

#[test]
fn insert_adjacent_html_at_every_place() {
    let (mut dom, doc) = parse(s("<div id=d><p id=p>x</p></div>")).unwrap();
    let d = doc.get_element_by_id(&dom, s("d")).unwrap();
    let p = doc.get_element_by_id(&dom, s("p")).unwrap();
    assert_eq!(p.insert_adjacent_html(&mut dom, s("afterbegin"), s("<a>1</a><b>2</b>")), Ok(()));
    assert_eq!(p.inner_html(&dom).unwrap(), "<a>1</a><b>2</b>x");
    assert_eq!(p.insert_adjacent_html(&mut dom, s("BeforeEnd"), s("<c>3</c>z")), Ok(()));
    assert_eq!(p.inner_html(&dom).unwrap(), "<a>1</a><b>2</b>x<c>3</c>z");
    assert_eq!(p.insert_adjacent_html(&mut dom, s("BEFOREBEGIN"), s("<u>u</u><i>i</i>")), Ok(()));
    assert_eq!(p.insert_adjacent_html(&mut dom, s("afterend"), s("<s>s</s>t")), Ok(()));
    assert_eq!(
        d.inner_html(&dom).unwrap(),
        "<u>u</u><i>i</i><p id=\"p\"><a>1</a><b>2</b>x<c>3</c>z</p><s>s</s>t"
    );
    let before = doc.outer_html(&dom).unwrap();
    assert_eq!(
        p.insert_adjacent_html(&mut dom, s("inside"), s("<b></b>")),
        Err(DomError::Syntax)
    );
    assert_eq!(doc.outer_html(&dom).unwrap(), before);
    let lone = doc.create_element(&mut dom, s("div"));
    assert_eq!(lone.insert_adjacent_html(&mut dom, s("beforebegin"), s("<b></b>")), Ok(()));
    assert_eq!(lone.insert_adjacent_html(&mut dom, s("afterend"), s("<b></b>")), Ok(()));
    assert_eq!(lone.parent_node(&dom), None);
    let t = doc.create_text_node(&mut dom, s("t"));
    assert_eq!(
        t.insert_adjacent_html(&mut dom, s("afterbegin"), s("<b></b>")),
        Err(DomError::HierarchyRequest)
    );
}

#[test]
fn insert_adjacent_text_and_element() {
    let (mut dom, doc) = parse(s("<div id=d><p id=p>x</p></div>")).unwrap();
    let d = doc.get_element_by_id(&dom, s("d")).unwrap();
    let p = doc.get_element_by_id(&dom, s("p")).unwrap();
    assert_eq!(p.insert_adjacent_text(&mut dom, s("beforebegin"), s("a<")), Ok(()));
    assert_eq!(p.insert_adjacent_text(&mut dom, s("afterbegin"), s("b")), Ok(()));
    assert_eq!(p.insert_adjacent_text(&mut dom, s("beforeend"), s("c")), Ok(()));
    assert_eq!(p.insert_adjacent_text(&mut dom, s("afterend"), s("d")), Ok(()));
    assert_eq!(d.inner_html(&dom).unwrap(), "a&lt;<p id=\"p\">bxc</p>d");
    assert_eq!(p.insert_adjacent_text(&mut dom, s("nowhere"), s("e")), Err(DomError::Syntax));
    let i = doc.create_element(&mut dom, s("i"));
    let b = doc.create_element(&mut dom, s("b"));
    assert_eq!(p.insert_adjacent_element(&mut dom, s("afterEnd"), &i), Ok(()));
    assert_eq!(p.insert_adjacent_element(&mut dom, s("afterbegin"), &b), Ok(()));
    assert_eq!(d.inner_html(&dom).unwrap(), "a&lt;<p id=\"p\"><b></b>bxc</p><i></i>d");
    assert_eq!(p.insert_adjacent_element(&mut dom, s("beforeend"), &i), Ok(()));
    assert_eq!(p.insert_adjacent_element(&mut dom, s("beforebegin"), &b), Ok(()));
    assert_eq!(d.inner_html(&dom).unwrap(), "a&lt;<b></b><p id=\"p\">bxc<i></i></p>d");
    assert_eq!(
        p.insert_adjacent_element(&mut dom, s("beforeend"), &d),
        Err(DomError::HierarchyRequest)
    );
    assert_eq!(p.insert_adjacent_element(&mut dom, s("x"), &i), Err(DomError::Syntax));
    let lone = doc.create_element(&mut dom, s("div"));
    assert_eq!(lone.insert_adjacent_element(&mut dom, s("beforebegin"), &i), Ok(()));
    assert_eq!(lone.insert_adjacent_text(&mut dom, s("afterend"), s("t")), Ok(()));
    assert_eq!(i.parent_node(&dom), Some(p));
}

#[test]
fn error_kinds_have_names_and_messages() {
    let all = [
        (DomError::NotFound, "NotFoundError"),
        (DomError::HierarchyRequest, "HierarchyRequestError"),
        (DomError::Syntax, "SyntaxError"),
        (DomError::IndexSize, "IndexSizeError"),
        (DomError::InvalidState, "InvalidStateError"),
        (DomError::Internal, "InternalError"),
    ];
    for (error, name) in all {
        assert_eq!(error.name(), name);
        assert!(!error.message().is_empty());
    }
}

#[test]
fn namespaces_are_looked_up_along_the_ancestors() {
    let (mut dom, doc) = parse(s("<div id=d><svg id=s><circle id=c></circle></svg></div>")).unwrap();
    let d = doc.get_element_by_id(&dom, s("d")).unwrap();
    let c = doc.get_element_by_id(&dom, s("c")).unwrap();
    let html_ns = "http://www.w3.org/1999/xhtml";
    let svg_ns = "http://www.w3.org/2000/svg";
    assert_eq!(c.namespace_uri(&dom), Some(s(svg_ns)));
    assert_eq!(c.tag_name(&dom), Some(s("CIRCLE")));
    assert_eq!(d.lookup_namespace_uri(&dom, None), Some(s(html_ns)));
    assert_eq!(d.lookup_namespace_uri(&dom, Some(s(""))), Some(s(html_ns)));
    assert_eq!(c.lookup_namespace_uri(&dom, None), Some(s(svg_ns)));
    assert_eq!(c.lookup_namespace_uri(&dom, Some(s("x"))), None);
    assert!(d.is_default_namespace(&dom, Some(s(html_ns))));
    assert!(!d.is_default_namespace(&dom, Some(s(svg_ns))));
    assert!(!d.is_default_namespace(&dom, None));
    assert!(c.is_default_namespace(&dom, Some(s(svg_ns))));
    assert!(doc.is_default_namespace(&dom, None));
    assert!(doc.is_default_namespace(&dom, Some(s(""))));
    assert_eq!(c.lookup_prefix(&dom, s(svg_ns)), None);
    let text = doc.create_text_node(&mut dom, s("t"));
    c.append(&mut dom, &text).unwrap();
    assert_eq!(text.lookup_namespace_uri(&dom, None), Some(s(svg_ns)));
}

#[test]
fn deep_nesting_is_walked_without_recursion() {
    let depth = 10_000;
    let mut source = String::new();
    for _ in 0..depth {
        source.push_str("<div>");
    }
    source.push_str("x<!--c-->y");
    for _ in 0..depth {
        source.push_str("</div>");
    }
    let (mut dom, doc) = parse(source.clone()).unwrap();
    let body = doc.body(&dom).unwrap();
    assert_eq!(body.text(&dom), "xy");
    assert_eq!(body.inner_html(&dom).unwrap(), source);
    assert_eq!(doc.get_elements_by_tag_name(&dom, s("div")).len(), depth);
    let copy = body.clone_node(&mut dom, true);
    assert_eq!(copy.inner_html(&dom).unwrap(), source);
    assert!(copy.is_equal_node(&dom, &body).unwrap());
    copy.normalize(&mut dom);
    assert_eq!(copy.text(&dom), "xy");
    let innermost = doc.get_elements_by_tag_name(&dom, s("div"))[depth - 1];
    assert_eq!(innermost.get_root_node(&dom), doc);
    assert!(body.contains(&dom, &innermost));
    assert_eq!(innermost.append(&mut dom, &body), Err(DomError::HierarchyRequest));
}

#[test]
fn wide_nodes_are_filled_and_emptied_at_once() {
    let width = 50_000;
    let mut source = String::new();
    for i in 0..width {
        source.push_str(if i % 2 == 0 { "<b></b>" } else { "<i></i>" });
    }
    let (mut dom, doc) = parse(s("<div id=t><p>old</p></div>")).unwrap();
    let target = doc.get_element_by_id(&dom, s("t")).unwrap();
    assert_eq!(target.set_inner_html(&mut dom, source.clone()), Ok(()));
    assert_eq!(target.child_element_count(&dom), width as u32);
    assert_eq!(target.inner_html(&dom).unwrap(), source);
    let frag = doc.create_document_fragment(&mut dom);
    for child in target.child_nodes(&dom).into_iter().rev().take(10) {
        frag.prepend(&mut dom, &child).unwrap();
    }
    assert_eq!(target.child_nodes(&dom).len(), width - 10);
    assert_eq!(target.insert_before_node(&mut dom, &frag, None), Ok(frag));
    assert_eq!(target.inner_html(&dom).unwrap(), source);
    let held = target.first_child(&dom).unwrap();
    target.set_text_content(&mut dom, s(""));
    assert!(!target.has_child_nodes(&dom));
    assert_eq!(held.parent_node(&dom), None);
}

#[test]
fn a_text_beyond_the_limit_is_turned_away() {
    let long = "a".repeat(domparser::html::TEXT_LIMIT + 1);
    let mut dom = Dom::new();
    assert_eq!(dom.parse_into(&long).err(), Some(DomError::Internal));
    assert_eq!(dom.len(), 0);
    assert_eq!(parse(long.clone()).err(), Some(DomError::Internal));
    let doc = dom.new_document();
    let p = doc.create_element(&mut dom, "p".to_string());
    assert_eq!(p.set_inner_html(&mut dom, long.clone()), Err(DomError::Internal));
    assert_eq!(p.insert_adjacent_html(&mut dom, s("beforeend"), long), Err(DomError::Internal));
    assert!(!p.has_child_nodes(&dom));
    let t = doc.create_text_node(&mut dom, "a".repeat(domparser::html::TEXT_LIMIT + 1));
    assert_eq!(t.outer_html(&dom), Err(DomError::Internal));
    p.append(&mut dom, &t).unwrap();
    assert_eq!(p.inner_html(&dom), Err(DomError::Internal));
    assert_eq!(p.outer_html(&dom), Err(DomError::Internal));
    assert_eq!(p.is_equal_node(&dom, &p), Err(DomError::Internal));
    assert_eq!(doc.is_equal_node(&dom, &p), Err(DomError::Internal));
    t.set_data(&mut dom, "short".to_string());
    assert_eq!(p.outer_html(&dom).unwrap(), "<p>short</p>");
    assert_eq!(p.is_equal_node(&dom, &p), Ok(true));
}

#[test]
fn template_contents_are_kept_apart_from_the_tree() {
    let (mut dom, doc) = parse(s("<body><template id=t><p>in</p><template><b>deep</b></template></template><p>out</p>")).unwrap();
    let t = doc.get_element_by_id(&dom, s("t")).unwrap();
    assert!(!t.has_child_nodes(&dom));
    assert_eq!(t.outer_html(&dom).unwrap(), "<template id=\"t\"></template>");
    let contents = t.template_contents(&dom).unwrap();
    assert_eq!(contents.parent_node(&dom), None);
    assert_eq!(contents.inner_html(&dom).unwrap(), "<p>in</p><template></template>");
    let inner = contents.child_nodes(&dom)[1];
    let deep = inner.template_contents(&dom).unwrap();
    assert_eq!(deep.inner_html(&dom).unwrap(), "<b>deep</b>");
    assert_eq!(doc.body(&dom).unwrap().template_contents(&dom), None);
    assert_eq!(contents.template_contents(&dom), None);
    let copy = t.clone_node(&mut dom, true);
    assert_eq!(copy.template_contents(&dom), None);
    dom.set_template_contents(copy, Some(contents));
    assert_eq!(copy.template_contents(&dom), Some(contents));
    dom.set_template_contents(copy, None);
    assert_eq!(copy.template_contents(&dom), None);
    assert_eq!(t.template_contents(&dom), Some(contents));
}

#[test]
fn the_integration_flag_of_an_element_is_read() {
    let (dom, doc) = parse(s("<math><annotation-xml encoding=\"text/html\" id=a><p id=p>x</p></annotation-xml><annotation-xml id=b></annotation-xml></math>")).unwrap();
    let flag = |id: &str| match dom.data_of(doc.get_element_by_id(&dom, s(id)).unwrap()) {
        NodeData::Element { mathml_integration_point, .. } => Some(*mathml_integration_point),
        _ => None,
    };
    assert_eq!(flag("a"), Some(true));
    assert_eq!(flag("b"), Some(false));
    assert_eq!(flag("p"), Some(false));
}

#[test]
fn template_contents_come_with_parsed_fragments() {
    let (mut dom, doc) = new_document();
    let div = doc.create_element(&mut dom, s("div"));
    div.set_inner_html(&mut dom, s("<p></p><template><i>x</i></template>")).unwrap();
    let kids = div.child_nodes(&dom);
    assert_eq!(kids.len(), 2);
    let contents = kids[1].template_contents(&dom).unwrap();
    assert_eq!(contents.inner_html(&dom).unwrap(), "<i>x</i>");
    assert_eq!(kids[0].template_contents(&dom), None);
    assert_eq!(div.inner_html(&dom).unwrap(), "<p></p><template></template>");
}

#[test]
fn a_parsed_document_is_a_document_with_an_html_element() {
    for text in ["", "plain", "<!DOCTYPE html><p>x</p>", "<html><body></body></html>"] {
        let (dom, doc) = parse(s(text)).unwrap();
        assert_eq!(doc.node_type(&dom), 9);
        let top = doc.document_element(&dom).unwrap();
        assert_eq!(top.tag_name(&dom), Some(s("HTML")));
        assert_eq!(top.parent_node(&dom), Some(doc));
    }
}
