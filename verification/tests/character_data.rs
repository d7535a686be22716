use domparser::Dom;
use domparser::DomError;
use domparser::NodeRepr;

fn s(text: &str) -> String {
    text.to_string()
}

fn text_node(data: &str) -> (Dom, NodeRepr, NodeRepr) {
    let mut dom = Dom::new();
    let doc = dom.new_document();
    let t = doc.create_text_node(&mut dom, s(data));
    (dom, doc, t)
}

#[test]
fn length_counts_code_units() {
    let (mut dom, doc, t) = text_node("héllo");
    assert_eq!(t.length(&dom), 5);
    let c = doc.create_comment(&mut dom, s(""));
    assert_eq!(c.length(&dom), 0);
    let el = doc.create_element(&mut dom, s("p"));
    assert_eq!(el.length(&dom), 0);
}

#[test]
fn data_and_node_value() {
    let (mut dom, doc, t) = text_node("abc");
    assert_eq!(t.data(&dom), Some(s("abc")));
    assert_eq!(t.node_value(&dom), Some(s("abc")));
    t.set_data(&mut dom, s("xyz"));
    assert_eq!(t.data(&dom), Some(s("xyz")));
    t.set_node_value(&mut dom, Some(s("v")));
    assert_eq!(t.node_value(&dom), Some(s("v")));
    t.set_node_value(&mut dom, None);
    assert_eq!(t.node_value(&dom), Some(s("")));
    let pi = doc.create_processing_instruction(&mut dom, s("target"), s("d"));
    assert_eq!(pi.data(&dom), Some(s("d")));
    assert_eq!(pi.target(&dom), Some(s("target")));
    pi.set_data(&mut dom, s("e"));
    assert_eq!(pi.data(&dom), Some(s("e")));
    assert_eq!(pi.target(&dom), Some(s("target")));
    let el = doc.create_element(&mut dom, s("p"));
    el.set_data(&mut dom, s("ignored"));
    el.set_node_value(&mut dom, Some(s("ignored")));
    assert_eq!(el.data(&dom), None);
    assert_eq!(el.node_value(&dom), None);
    assert_eq!(el.outer_html(&dom).unwrap(), "<p></p>");
}

#[test]
fn substring_data_is_cut_at_the_end() {
    let (mut dom, doc, t) = text_node("hello");
    assert_eq!(t.substring_data(&dom, 1, 3), Ok(s("ell")));
    assert_eq!(t.substring_data(&dom, 3, 100), Ok(s("lo")));
    assert_eq!(t.substring_data(&dom, 5, 1), Ok(s("")));
    assert_eq!(t.substring_data(&dom, 0, 0), Ok(s("")));
    assert_eq!(t.substring_data(&dom, 2, u32::MAX), Ok(s("llo")));
    assert_eq!(t.substring_data(&dom, 6, 1), Err(DomError::IndexSize));
    let el = doc.create_element(&mut dom, s("p"));
    assert_eq!(el.substring_data(&dom, 0, 1), Err(DomError::InvalidState));
}

#[test]
fn append_insert_delete_replace() {
    let (mut dom, doc, t) = text_node("hello");
    assert_eq!(t.append_data(&mut dom, s(" world")), Ok(()));
    assert_eq!(t.data(&dom), Some(s("hello world")));
    assert_eq!(t.insert_data(&mut dom, 5, s(",")), Ok(()));
    assert_eq!(t.data(&dom), Some(s("hello, world")));
    assert_eq!(t.insert_data(&mut dom, 12, s("!")), Ok(()));
    assert_eq!(t.data(&dom), Some(s("hello, world!")));
    assert_eq!(t.insert_data(&mut dom, 14, s("?")), Err(DomError::IndexSize));
    assert_eq!(t.delete_data(&mut dom, 5, 1), Ok(()));
    assert_eq!(t.data(&dom), Some(s("hello world!")));
    assert_eq!(t.delete_data(&mut dom, 5, 100), Ok(()));
    assert_eq!(t.data(&dom), Some(s("hello")));
    assert_eq!(t.delete_data(&mut dom, 6, 1), Err(DomError::IndexSize));
    assert_eq!(t.replace_data(&mut dom, 1, 3, s("ipp")), Ok(()));
    assert_eq!(t.data(&dom), Some(s("hippo")));
    assert_eq!(t.replace_data(&mut dom, 3, 100, s("s")), Ok(()));
    assert_eq!(t.data(&dom), Some(s("hips")));
    assert_eq!(t.replace_data(&mut dom, 4, 0, s("ter")), Ok(()));
    assert_eq!(t.data(&dom), Some(s("hipster")));
    assert_eq!(t.replace_data(&mut dom, 8, 0, s("x")), Err(DomError::IndexSize));
    assert_eq!(t.data(&dom), Some(s("hipster")));
    let el = doc.create_element(&mut dom, s("p"));
    assert_eq!(el.append_data(&mut dom, s("x")), Err(DomError::InvalidState));
    assert_eq!(el.insert_data(&mut dom, 0, s("x")), Err(DomError::InvalidState));
    assert_eq!(el.delete_data(&mut dom, 0, 1), Err(DomError::InvalidState));
    assert_eq!(el.replace_data(&mut dom, 0, 1, s("x")), Err(DomError::InvalidState));
}

#[test]
fn split_text_errors_and_detached_split() {
    let (mut dom, doc, t) = text_node("hello");
    assert_eq!(t.split_text(&mut dom, 6), Err(DomError::IndexSize));
    let rest = t.split_text(&mut dom, 5).unwrap();
    assert_eq!(t.data(&dom), Some(s("hello")));
    assert_eq!(rest.data(&dom), Some(s("")));
    assert_eq!(rest.parent_node(&dom), None);
    assert_eq!(t.next_sibling(&dom), None);
    let c = doc.create_comment(&mut dom, s("c"));
    assert_eq!(c.split_text(&mut dom, 0), Err(DomError::InvalidState));
    let el = doc.create_element(&mut dom, s("p"));
    assert_eq!(el.split_text(&mut dom, 0), Err(DomError::InvalidState));
}

#[test]
fn split_text_puts_the_rest_right_after() {
    let (mut dom, doc, t) = text_node("abcd");
    let p = doc.create_element(&mut dom, s("p"));
    let b = doc.create_element(&mut dom, s("b"));
    p.append(&mut dom, &t).unwrap();
    p.append(&mut dom, &b).unwrap();
    let rest = t.split_text(&mut dom, 1).unwrap();
    assert_eq!(p.child_nodes(&dom), vec![t, rest, b]);
    assert_eq!(p.inner_html(&dom).unwrap(), "abcd<b></b>");
    assert_eq!(rest.data(&dom), Some(s("bcd")));
}

#[test]
fn normalize_merges_runs_and_drops_empties() {
    let (mut dom, doc, a) = text_node("a");
    let root = doc.create_element(&mut dom, s("div"));
    let inner = doc.create_element(&mut dom, s("p"));
    let empty = doc.create_text_node(&mut dom, s(""));
    let b = doc.create_text_node(&mut dom, s("b"));
    let c = doc.create_text_node(&mut dom, s("c"));
    let d = doc.create_text_node(&mut dom, s("d"));
    let e = doc.create_text_node(&mut dom, s(""));
    let f = doc.create_text_node(&mut dom, s("f"));
    let comment = doc.create_comment(&mut dom, s("x"));
    root.append(&mut dom, &empty).unwrap();
    root.append(&mut dom, &a).unwrap();
    root.append(&mut dom, &b).unwrap();
    root.append(&mut dom, &inner).unwrap();
    root.append(&mut dom, &c).unwrap();
    root.append(&mut dom, &comment).unwrap();
    root.append(&mut dom, &d).unwrap();
    inner.append(&mut dom, &e).unwrap();
    inner.append(&mut dom, &f).unwrap();
    let text_before = root.text(&dom);
    let html_before = root.outer_html(&dom).unwrap();
    assert_eq!(text_before, "abfcd");
    root.normalize(&mut dom);
    assert_eq!(root.child_nodes(&dom), vec![a, inner, c, comment, d]);
    assert_eq!(inner.child_nodes(&dom), vec![f]);
    assert_eq!(a.data(&dom), Some(s("ab")));
    assert_eq!(b.parent_node(&dom), None);
    assert_eq!(empty.parent_node(&dom), None);
    assert_eq!(root.text(&dom), text_before);
    assert_eq!(root.outer_html(&dom).unwrap(), html_before);
    let once = root.outer_html(&dom).unwrap();
    let kids_once = root.child_nodes(&dom);
    root.normalize(&mut dom);
    assert_eq!(root.outer_html(&dom).unwrap(), once);
    assert_eq!(root.child_nodes(&dom), kids_once);
}

#[test]
fn normalize_leaves_the_receiver_and_its_siblings_alone() {
    let (mut dom, doc, a) = text_node("a");
    let p = doc.create_element(&mut dom, s("p"));
    let b = doc.create_text_node(&mut dom, s("b"));
    p.append(&mut dom, &a).unwrap();
    p.append(&mut dom, &b).unwrap();
    b.normalize(&mut dom);
    assert_eq!(p.child_nodes(&dom), vec![a, b]);
}

#[test]
fn characters_beyond_the_basic_plane_count_twice() {
    let (dom, _doc, t) = text_node("a\u{1F600}b");
    assert_eq!(t.length(&dom), 4);
    assert_eq!(t.substring_data(&dom, 0, 1), Ok(s("a")));
    assert_eq!(t.substring_data(&dom, 1, 2), Ok(s("\u{1F600}")));
    assert_eq!(t.substring_data(&dom, 3, 1), Ok(s("b")));
    assert_eq!(t.substring_data(&dom, 3, 9), Ok(s("b")));
    assert_eq!(t.substring_data(&dom, 4, 1), Ok(s("")));
    assert_eq!(t.substring_data(&dom, 5, 1), Err(DomError::IndexSize));
}

#[test]
fn offsets_count_code_units_in_every_change() {
    let (mut dom, _doc, t) = text_node("\u{1F600}xy");
    assert_eq!(t.insert_data(&mut dom, 2, s("-")), Ok(()));
    assert_eq!(t.data(&dom), Some(s("\u{1F600}-xy")));
    assert_eq!(t.delete_data(&mut dom, 0, 2), Ok(()));
    assert_eq!(t.data(&dom), Some(s("-xy")));
    assert_eq!(t.replace_data(&mut dom, 1, 1, s("\u{10000}")), Ok(()));
    assert_eq!(t.data(&dom), Some(s("-\u{10000}y")));
    assert_eq!(t.length(&dom), 4);
    assert_eq!(t.insert_data(&mut dom, 5, s("z")), Err(DomError::IndexSize));
    let rest = t.split_text(&mut dom, 3).unwrap();
    assert_eq!(t.data(&dom), Some(s("-\u{10000}")));
    assert_eq!(rest.data(&dom), Some(s("y")));
    assert_eq!(t.split_text(&mut dom, 4), Err(DomError::IndexSize));
}

#[test]
fn a_cut_inside_a_character_leaves_a_replacement_on_each_side() {
    let (mut dom, _doc, t) = text_node("a\u{1F600}b");
    assert_eq!(t.substring_data(&dom, 0, 2), Ok(s("a\u{FFFD}")));
    assert_eq!(t.substring_data(&dom, 2, 2), Ok(s("\u{FFFD}b")));
    let rest = t.split_text(&mut dom, 2).unwrap();
    assert_eq!(t.data(&dom), Some(s("a\u{FFFD}")));
    assert_eq!(rest.data(&dom), Some(s("\u{FFFD}b")));
    assert_eq!(t.length(&dom), 2);
    assert_eq!(rest.length(&dom), 2);
}

#[test]
fn the_last_character_of_the_basic_plane_counts_once() {
    let (dom, _doc, t) = text_node("\u{FFFF}\u{10000}");
    assert_eq!(t.length(&dom), 3);
    assert_eq!(t.substring_data(&dom, 1, 2), Ok(s("\u{10000}")));
}
