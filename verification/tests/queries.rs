use domparser::parse;
use domparser::Dom;
use domparser::NodeRepr;

fn s(text: &str) -> String {
    text.to_string()
}

fn sample() -> (Dom, NodeRepr) {
    parse(s(concat_sample())).unwrap()
}

fn concat_sample() -> &'static str {
    "<html><head><title>Q</title></head><body><div id=a class=\"box big\"><p class=box>one</p><span id=s class=\"big box red\">two</span></div><section><P id=dup>three</P><p id=dup class=red>four</p></section></body></html>"
}

fn ids(dom: &Dom, nodes: &Vec<NodeRepr>) -> Vec<String> {
    nodes.iter().map(|n| n.text(dom)).collect()
}

#[test]
fn get_element_by_id_takes_the_first_in_tree_order() {
    let (dom, doc) = sample();
    let dup = doc.get_element_by_id(&dom, s("dup")).unwrap();
    assert_eq!(dup.text(&dom), "three");
    assert_eq!(doc.get_element_by_id(&dom, s("missing")), None);
    let a = doc.get_element_by_id(&dom, s("a")).unwrap();
    assert_eq!(a.get_element_by_id(&dom, s("a")), None);
    assert_eq!(a.get_element_by_id(&dom, s("s")).unwrap().text(&dom), "two");
}

#[test]
fn get_elements_by_tag_name_ignores_letter_case_and_the_receiver() {
    let (dom, doc) = sample();
    let ps = doc.get_elements_by_tag_name(&dom, s("P"));
    assert_eq!(ids(&dom, &ps), vec![s("one"), s("three"), s("four")]);
    assert_eq!(doc.get_elements_by_tag_name(&dom, s("p")), ps);
    let a = doc.get_element_by_id(&dom, s("a")).unwrap();
    assert_eq!(a.get_elements_by_tag_name(&dom, s("div")), vec![]);
    assert_eq!(a.get_elements_by_tag_name(&dom, s("*")).len(), 2);
    assert_eq!(doc.get_elements_by_tag_name(&dom, s("*")).len(), 10);
    assert_eq!(doc.get_elements_by_tag_name(&dom, s("table")), vec![]);
}

#[test]
fn get_elements_by_class_name_needs_every_token() {
    let (dom, doc) = sample();
    let boxes = doc.get_elements_by_class_name(&dom, s("box"));
    assert_eq!(boxes.len(), 3);
    let big_boxes = doc.get_elements_by_class_name(&dom, s(" box  big "));
    assert_eq!(big_boxes.len(), 2);
    let red = doc.get_elements_by_class_name(&dom, s("red"));
    assert_eq!(ids(&dom, &red), vec![s("two"), s("four")]);
    assert_eq!(doc.get_elements_by_class_name(&dom, s("box missing")), vec![]);
}

#[test]
fn query_selector_reads_the_first_character() {
    let (dom, doc) = sample();
    assert_eq!(doc.query_selector(&dom, s("#s")).unwrap().text(&dom), "two");
    assert_eq!(doc.query_selector_all(&dom, s("#dup")).len(), 1);
    assert_eq!(doc.query_selector_all(&dom, s("#none")), vec![]);
    assert_eq!(doc.query_selector(&dom, s("#none")), None);
    assert_eq!(doc.query_selector_all(&dom, s(".box")).len(), 3);
    assert_eq!(doc.query_selector(&dom, s(".red")).unwrap().text(&dom), "two");
    assert_eq!(ids(&dom, &doc.query_selector_all(&dom, s("p"))), vec![s("one"), s("three"), s("four")]);
    assert_eq!(doc.query_selector(&dom, s("span")).unwrap().id(&dom), "s");
    assert_eq!(doc.query_selector(&dom, s("table")), None);
    let body_children = doc.query_selector_all(&dom, s("body>*"));
    assert_eq!(body_children, doc.body(&dom).unwrap().children(&dom));
    assert_eq!(body_children.len(), 2);
    assert_eq!(doc.select_all(&dom, s(".box")), doc.query_selector_all(&dom, s(".box")));
    assert_eq!(doc.select(&dom, s("#s")), doc.query_selector(&dom, s("#s")));
}

#[test]
fn matches_walks_the_ancestors_in_order() {
    let (dom, doc) = sample();
    let span = doc.get_element_by_id(&dom, s("s")).unwrap();
    assert!(span.matches(&dom, s("span")));
    assert!(span.matches(&dom, s("SPAN")));
    assert!(span.matches(&dom, s("#s")));
    assert!(span.matches(&dom, s(".red")));
    assert!(span.matches(&dom, s("*")));
    assert!(span.matches(&dom, s("div span")));
    assert!(span.matches(&dom, s("body   #a .big")));
    assert!(span.matches(&dom, s("html body div span")));
    assert!(span.matches(&dom, s("html span")));
    assert!(!span.matches(&dom, s("p")));
    assert!(!span.matches(&dom, s("section span")));
    assert!(!span.matches(&dom, s("div body span")));
    assert!(!span.matches(&dom, s("span span")));
    assert!(!span.matches(&dom, s("")));
    assert!(!span.matches(&dom, s("   ")));
    let text = span.first_child(&dom).unwrap();
    assert!(!text.matches(&dom, s("*")));
}

#[test]
fn closest_finds_the_nearest_match() {
    let (dom, doc) = sample();
    let span = doc.get_element_by_id(&dom, s("s")).unwrap();
    let a = doc.get_element_by_id(&dom, s("a")).unwrap();
    let body = doc.body(&dom).unwrap();
    assert_eq!(span.closest(&dom, s("span")), Some(span));
    assert_eq!(span.closest(&dom, s(".box")), Some(span));
    assert_eq!(span.closest(&dom, s("div")), Some(a));
    assert_eq!(span.closest(&dom, s("body")), Some(body));
    assert_eq!(span.closest(&dom, s("html div")), Some(a));
    assert_eq!(span.closest(&dom, s("section")), None);
    let text = span.first_child(&dom).unwrap();
    assert_eq!(text.closest(&dom, s(".big")), Some(span));
}

#[test]
fn text_skips_markup_and_comments() {
    let (dom, doc) = parse(s("<div id=d>a<b>b<!--no--><i>c</i></b>d<script>e</script></div>")).unwrap();
    let d = doc.get_element_by_id(&dom, s("d")).unwrap();
    assert_eq!(d.text(&dom), "abcde");
    assert_eq!(d.text_content_getter(&dom), "abcde");
    let t = d.first_child(&dom).unwrap();
    assert_eq!(t.text(&dom), "a");
    let comment = doc.query_selector(&dom, s("b")).unwrap().child_nodes(&dom)[1];
    assert_eq!(comment.node_type(&dom), 8);
    assert_eq!(comment.text(&dom), "");
}
