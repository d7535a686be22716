use domparser::parse;
use domparser::Dom;
use domparser::NodeRepr;

fn s(text: &str) -> String {
    text.to_string()
}

fn sample() -> (Dom, NodeRepr) {
    parse(s("<!DOCTYPE html><html><head><title>T</title></head><body>a<p id=one>x</p><!--c--><p id=two>y</p>z</body></html>")).unwrap()
}

#[test]
fn children_lists_only_elements() {
    let (dom, doc) = sample();
    let body = doc.body(&dom).unwrap();
    let one = doc.get_element_by_id(&dom, s("one")).unwrap();
    let two = doc.get_element_by_id(&dom, s("two")).unwrap();
    assert_eq!(body.child_nodes(&dom).len(), 5);
    assert_eq!(body.children(&dom), vec![one, two]);
    assert_eq!(body.child_element_count(&dom), 2);
    assert_eq!(body.first_element_child(&dom), Some(one));
    assert_eq!(body.last_element_child(&dom), Some(two));
    assert_eq!(one.first_element_child(&dom), None);
    assert_eq!(one.last_element_child(&dom), None);
    assert_eq!(one.child_element_count(&dom), 0);
    assert!(body.has_child_nodes(&dom));
}

#[test]
fn siblings_are_found_in_both_directions() {
    let (dom, doc) = sample();
    let body = doc.body(&dom).unwrap();
    let kids = body.child_nodes(&dom);
    let one = kids[1];
    let two = kids[3];
    assert_eq!(kids[0].previous_sibling(&dom), None);
    assert_eq!(kids[0].next_sibling(&dom), Some(one));
    assert_eq!(one.previous_sibling(&dom), Some(kids[0]));
    assert_eq!(one.next_sibling(&dom), Some(kids[2]));
    assert_eq!(kids[4].next_sibling(&dom), None);
    assert_eq!(body.first_child(&dom), Some(kids[0]));
    assert_eq!(body.last_child(&dom), Some(kids[4]));
    assert_eq!(one.next_element_sibling(&dom), Some(two));
    assert_eq!(two.previous_element_sibling(&dom), Some(one));
    assert_eq!(one.previous_element_sibling(&dom), None);
    assert_eq!(two.next_element_sibling(&dom), None);
    assert_eq!(kids[4].previous_element_sibling(&dom), Some(two));
    assert_eq!(doc.next_sibling(&dom), None);
    assert_eq!(doc.previous_element_sibling(&dom), None);
}

#[test]
fn parents_and_roots() {
    let (mut dom, doc) = sample();
    let html = doc.document_element(&dom).unwrap();
    let body = doc.body(&dom).unwrap();
    let one = doc.get_element_by_id(&dom, s("one")).unwrap();
    assert_eq!(one.parent_node(&dom), Some(body));
    assert_eq!(one.parent_element(&dom), Some(body));
    assert_eq!(html.parent_node(&dom), Some(doc));
    assert_eq!(html.parent_element(&dom), None);
    assert_eq!(doc.parent_node(&dom), None);
    assert_eq!(one.get_root_node(&dom), doc);
    assert_eq!(doc.get_root_node(&dom), doc);
    assert_eq!(one.owner_document(&dom), Some(doc));
    assert_eq!(doc.owner_document(&dom), Some(doc));
    assert!(one.is_connected(&dom));
    let lone = doc.create_element(&mut dom, s("div"));
    let inner = doc.create_element(&mut dom, s("span"));
    lone.append(&mut dom, &inner).unwrap();
    assert_eq!(inner.get_root_node(&dom), lone);
    assert_eq!(inner.owner_document(&dom), None);
    assert_eq!(lone.owner_document(&dom), None);
    assert!(!inner.is_connected(&dom));
}

#[test]
fn contains_is_reflexive_and_follows_ancestry() {
    let (dom, doc) = sample();
    let body = doc.body(&dom).unwrap();
    let head = doc.head(&dom).unwrap();
    let one = doc.get_element_by_id(&dom, s("one")).unwrap();
    let text = one.first_child(&dom).unwrap();
    assert!(one.contains(&dom, &one));
    assert!(body.contains(&dom, &one));
    assert!(doc.contains(&dom, &text));
    assert!(body.contains(&dom, &text));
    assert!(!one.contains(&dom, &body));
    assert!(!head.contains(&dom, &one));
    assert!(!text.contains(&dom, &one));
}

#[test]
fn same_node_is_identity_not_likeness() {
    let (mut dom, doc) = sample();
    let a = doc.create_element(&mut dom, s("p"));
    let b = doc.create_element(&mut dom, s("p"));
    assert!(a.is_same_node(&a));
    assert!(!a.is_same_node(&b));
    assert!(a.is_equal_node(&dom, &b).unwrap());
    b.set_attribute(&mut dom, s("id"), s("x"));
    assert!(!a.is_equal_node(&dom, &b).unwrap());
    assert_eq!(a.is_equal_node(&dom, &b).unwrap(), a.outer_html(&dom).unwrap() == b.outer_html(&dom).unwrap());
}

#[test]
fn compare_document_position_reports_the_bit_mask() {
    let (mut dom, doc) = sample();
    let body = doc.body(&dom).unwrap();
    let head = doc.head(&dom).unwrap();
    let one = doc.get_element_by_id(&dom, s("one")).unwrap();
    let two = doc.get_element_by_id(&dom, s("two")).unwrap();
    assert_eq!(one.compare_document_position(&dom, &one), 0);
    assert_eq!(one.compare_document_position(&dom, &two), 4);
    assert_eq!(two.compare_document_position(&dom, &one), 2);
    assert_eq!(one.compare_document_position(&dom, &body), 10);
    assert_eq!(body.compare_document_position(&dom, &one), 20);
    assert_eq!(one.compare_document_position(&dom, &head), 2);
    assert_eq!(head.compare_document_position(&dom, &two), 4);
    let lone = doc.create_element(&mut dom, s("div"));
    assert_eq!(one.compare_document_position(&dom, &lone), 37);
    assert_eq!(lone.compare_document_position(&dom, &one), 35);
}

#[test]
fn document_landmarks() {
    let (dom, doc) = sample();
    let doctype = doc.doctype(&dom).unwrap();
    assert_eq!(doctype.node_type(&dom), 10);
    assert_eq!(doctype.name(&dom), Some(s("html")));
    assert_eq!(doctype.public_id(&dom), Some(s("")));
    assert_eq!(doctype.system_id(&dom), Some(s("")));
    let html = doc.document_element(&dom).unwrap();
    assert_eq!(html.local_name(&dom), Some(s("html")));
    assert_eq!(doc.head(&dom).unwrap().tag_name(&dom), Some(s("HEAD")));
    assert_eq!(doc.body(&dom).unwrap().tag_name(&dom), Some(s("BODY")));
    assert_eq!(doc.title(&dom), "T");
    assert_eq!(html.head(&dom), None);
    assert_eq!(html.body(&dom), None);
    assert_eq!(html.doctype(&dom), None);
    assert_eq!(html.document_element(&dom), None);
    assert_eq!(html.title(&dom), "");
    let (plain, plain_doc) = parse(s("<p>no title</p>")).unwrap();
    assert_eq!(plain_doc.title(&plain), "");
    assert_eq!(plain_doc.doctype(&plain), None);
}
