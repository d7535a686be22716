use domparser::parse;
use domparser::Dom;
use domparser::DomError;
use domparser::NodeRepr;

fn s(text: &str) -> String {
    text.to_string()
}

fn new_document() -> (Dom, NodeRepr) {
    let mut dom = Dom::new();
    let doc = dom.new_document();
    (dom, doc)
}

#[test]
fn parse_gives_html_root_and_body() {
    let (dom, doc) = parse(s("<p>hi</p>")).unwrap();
    assert_eq!(doc.node_type(&dom), 9);
    let html = doc.document_element(&dom).unwrap();
    assert_eq!(html.tag_name(&dom), Some(s("HTML")));
    let body = doc.body(&dom).unwrap();
    let p = body.first_element_child(&dom).unwrap();
    assert_eq!(p.tag_name(&dom), Some(s("P")));
    assert_eq!(p.text(&dom), "hi");
}

#[test]
fn get_element_by_id_finds_nested_element() {
    let (dom, doc) = parse(s("<div id=a><div id=b></div></div>")).unwrap();
    let b = doc.get_element_by_id(&dom, s("b")).unwrap();
    assert_eq!(b.tag_name(&dom), Some(s("DIV")));
    let a = b.parent_node(&dom).unwrap();
    assert_eq!(a.id(&dom), "a");
}

fn list_of_two(dom: &mut Dom, doc: NodeRepr) -> (NodeRepr, NodeRepr, NodeRepr) {
    let ul = doc.create_element(dom, s("ul"));
    let one = doc.create_element(dom, s("li"));
    let two = doc.create_element(dom, s("li"));
    let t1 = doc.create_text_node(dom, s("1"));
    let t2 = doc.create_text_node(dom, s("2"));
    one.append(dom, &t1).unwrap();
    two.append(dom, &t2).unwrap();
    ul.append(dom, &one).unwrap();
    ul.append(dom, &two).unwrap();
    (ul, one, two)
}

#[test]
fn after_moves_an_existing_sibling() {
    let (mut dom, doc) = new_document();
    let (ul, _, _) = list_of_two(&mut dom, doc);
    assert_eq!(ul.inner_html(&dom).unwrap(), "<li>1</li><li>2</li>");
    let kids = ul.children(&dom);
    kids[1].after(&mut dom, &kids[0]).unwrap();
    assert_eq!(ul.inner_html(&dom).unwrap(), "<li>2</li><li>1</li>");
    assert_eq!(ul.children(&dom), vec![kids[1], kids[0]]);
}

#[test]
fn after_with_the_next_sibling_keeps_the_order() {
    let (mut dom, doc) = new_document();
    let (ul, one, two) = list_of_two(&mut dom, doc);
    one.after(&mut dom, &two).unwrap();
    assert_eq!(ul.inner_html(&dom).unwrap(), "<li>1</li><li>2</li>");
    one.before(&mut dom, &two).unwrap();
    assert_eq!(ul.inner_html(&dom).unwrap(), "<li>2</li><li>1</li>");
}

#[test]
fn split_text_then_normalize_restores_the_text() {
    let (mut dom, doc) = new_document();
    let div = doc.create_element(&mut dom, s("div"));
    let t = doc.create_text_node(&mut dom, s("hello"));
    div.append(&mut dom, &t).unwrap();
    let rest = t.split_text(&mut dom, 2).unwrap();
    assert_eq!(t.data(&dom), Some(s("he")));
    assert_eq!(t.next_sibling(&dom), Some(rest));
    assert_eq!(rest.data(&dom), Some(s("llo")));
    div.normalize(&mut dom);
    assert_eq!(div.child_nodes(&dom), vec![t]);
    assert_eq!(t.data(&dom), Some(s("hello")));
    assert_eq!(rest.parent_node(&dom), None);
}

#[test]
fn class_list_toggle_removes_and_adds() {
    let (mut dom, doc) = new_document();
    let el = doc.create_element(&mut dom, s("div"));
    el.set_attribute(&mut dom, s("class"), s("a b"));
    assert_eq!(el._class_list_toggle(&mut dom, s("b"), None), false);
    assert_eq!(el.class_name(&dom), "a");
    assert_eq!(el._class_list_toggle(&mut dom, s("c"), Some(true)), true);
    assert_eq!(el.class_name(&dom), "a c");
}

#[test]
fn dataset_set_writes_a_data_attribute() {
    let (mut dom, doc) = new_document();
    let el = doc.create_element(&mut dom, s("div"));
    el._dataset_set(&mut dom, s("fooBar"), s("x"));
    assert_eq!(el.get_attribute(&dom, s("data-foo-bar")), Some(s("x")));
    assert_eq!(el._dataset_get(&dom), vec![(s("fooBar"), s("x"))]);
}

#[test]
fn insert_adjacent_html_beforeend_keeps_order() {
    let (mut dom, doc) = parse(s("<div id=t><span>0</span></div>")).unwrap();
    let target = doc.get_element_by_id(&dom, s("t")).unwrap();
    target.insert_adjacent_html(&mut dom, s("beforeend"), s("<b>1</b><i>2</i>")).unwrap();
    let kids = target.children(&dom);
    assert_eq!(kids.len(), 3);
    assert_eq!(kids[1].tag_name(&dom), Some(s("B")));
    assert_eq!(kids[2].tag_name(&dom), Some(s("I")));
    assert_eq!(target.inner_html(&dom).unwrap(), "<span>0</span><b>1</b><i>2</i>");
}

#[test]
fn remove_child_of_a_stranger_is_not_found() {
    let (mut dom, doc) = new_document();
    let p = doc.create_element(&mut dom, s("p"));
    let q = doc.create_element(&mut dom, s("q"));
    let kept = doc.create_element(&mut dom, s("b"));
    let c = doc.create_element(&mut dom, s("i"));
    p.append(&mut dom, &kept).unwrap();
    q.append(&mut dom, &c).unwrap();
    assert_eq!(p.remove_child(&mut dom, &c), Err(DomError::NotFound));
    assert_eq!(p.child_nodes(&dom), vec![kept]);
    assert_eq!(c.parent_node(&dom), Some(q));
    assert_eq!(DomError::NotFound.name(), "NotFoundError");
}
