use domparser::parse;
use domparser::Dom;
use domparser::NodeRepr;

fn s(text: &str) -> String {
    text.to_string()
}

fn element() -> (Dom, NodeRepr) {
    let mut dom = Dom::new();
    let doc = dom.new_document();
    let el = doc.create_element(&mut dom, s("div"));
    (dom, el)
}

#[test]
fn set_get_remove_attribute() {
    let (mut dom, el) = element();
    assert_eq!(el.get_attribute(&dom, s("title")), None);
    assert!(!el.has_attribute(&dom, s("title")));
    assert!(!el.has_attributes(&dom));
    el.set_attribute(&mut dom, s("title"), s("one"));
    el.set_attribute(&mut dom, s("lang"), s("en"));
    el.set_attribute(&mut dom, s("title"), s("two"));
    assert_eq!(el.get_attribute(&dom, s("title")), Some(s("two")));
    assert!(el.has_attribute(&dom, s("lang")));
    assert!(el.has_attributes(&dom));
    assert_eq!(el.get_attribute_names(&dom), vec![s("title"), s("lang")]);
    assert_eq!(el.outer_html(&dom).unwrap(), "<div title=\"two\" lang=\"en\"></div>");
    el.remove_attribute(&mut dom, s("title"));
    el.remove_attribute(&mut dom, s("missing"));
    assert_eq!(el.get_attribute_names(&dom), vec![s("lang")]);
    assert_eq!(el.get_attribute(&dom, s("title")), None);
}

#[test]
fn toggle_attribute_follows_force() {
    let (mut dom, el) = element();
    assert_eq!(el.toggle_attribute(&mut dom, s("hidden"), None), true);
    assert_eq!(el.get_attribute(&dom, s("hidden")), Some(s("")));
    assert_eq!(el.toggle_attribute(&mut dom, s("hidden"), None), false);
    assert_eq!(el.get_attribute(&dom, s("hidden")), None);
    assert_eq!(el.toggle_attribute(&mut dom, s("hidden"), Some(false)), false);
    assert!(!el.has_attribute(&dom, s("hidden")));
    assert_eq!(el.toggle_attribute(&mut dom, s("hidden"), Some(true)), true);
    el.set_attribute(&mut dom, s("hidden"), s("until-found"));
    assert_eq!(el.toggle_attribute(&mut dom, s("hidden"), Some(true)), true);
    assert_eq!(el.get_attribute(&dom, s("hidden")), Some(s("until-found")));
    assert_eq!(el.toggle_attribute(&mut dom, s("hidden"), Some(false)), false);
    assert!(!el.has_attributes(&dom));
}

#[test]
fn namespaced_attributes_are_matched_by_namespace_and_local_name() {
    let (mut dom, el) = element();
    let xlink = "http://www.w3.org/1999/xlink";
    el.set_attribute_ns(&mut dom, Some(s(xlink)), s("xlink:href"), s("#a"));
    el.set_attribute_ns(&mut dom, None, s("href"), s("#b"));
    assert_eq!(el.get_attribute_ns(&dom, Some(s(xlink)), s("href")), Some(s("#a")));
    assert_eq!(el.get_attribute_ns(&dom, None, s("href")), Some(s("#b")));
    assert_eq!(el.get_attribute_ns(&dom, Some(s("")), s("href")), Some(s("#b")));
    assert_eq!(el.get_attribute_ns(&dom, Some(s("other")), s("href")), None);
    assert!(el.has_attribute_ns(&dom, Some(s(xlink)), s("href")));
    assert!(!el.has_attribute_ns(&dom, Some(s(xlink)), s("xlink:href")));
    assert_eq!(el.get_attribute_names(&dom), vec![s("xlink:href"), s("href")]);
    assert_eq!(el.get_attribute(&dom, s("href")), Some(s("#a")));
    assert_eq!(el.get_attribute(&dom, s("xlink:href")), Some(s("#a")));
    el.set_attribute_ns(&mut dom, Some(s(xlink)), s("x:href"), s("#c"));
    assert_eq!(el.get_attribute_ns(&dom, Some(s(xlink)), s("href")), Some(s("#c")));
    assert_eq!(el.get_attribute_names(&dom), vec![s("xlink:href"), s("href")]);
    assert_eq!(el.outer_html(&dom).unwrap(), "<div xlink:href=\"#c\" href=\"#b\"></div>");
    el.remove_attribute_ns(&mut dom, Some(s(xlink)), s("href"));
    assert_eq!(el.get_attribute_names(&dom), vec![s("href")]);
    el.remove_attribute_ns(&mut dom, None, s("href"));
    assert!(!el.has_attributes(&dom));
}

#[test]
fn id_and_class_name_read_and_write_attributes() {
    let (mut dom, el) = element();
    assert_eq!(el.id(&dom), "");
    assert_eq!(el.class_name(&dom), "");
    el.set_id(&mut dom, s("main"));
    el.set_class_name(&mut dom, s("a  b"));
    assert_eq!(el.id(&dom), "main");
    assert_eq!(el.class_name(&dom), "a  b");
    assert_eq!(el.get_attribute(&dom, s("id")), Some(s("main")));
    assert_eq!(el.get_attribute(&dom, s("class")), Some(s("a  b")));
}

#[test]
fn class_list_is_a_set_in_insertion_order() {
    let (mut dom, el) = element();
    assert!(!el._class_list_contains(&dom, s("a")));
    el._class_list_add(&mut dom, s("a"));
    assert_eq!(el.get_attribute(&dom, s("class")), Some(s("a")));
    el._class_list_add(&mut dom, s("b"));
    el._class_list_add(&mut dom, s("a"));
    assert_eq!(el.class_name(&dom), "a b");
    assert!(el._class_list_contains(&dom, s("b")));
    assert!(!el._class_list_contains(&dom, s("a b")));
    el.set_class_name(&mut dom, s(" x\ty\nx  z "));
    assert!(el._class_list_contains(&dom, s("y")));
    el._class_list_remove(&mut dom, s("x"));
    assert_eq!(el.class_name(&dom), "y z");
    el._class_list_remove(&mut dom, s("missing"));
    assert_eq!(el.class_name(&dom), "y z");
    el._class_list_remove(&mut dom, s("y"));
    el._class_list_remove(&mut dom, s("z"));
    assert_eq!(el.get_attribute(&dom, s("class")), Some(s("")));
    assert_eq!(el._class_list_toggle(&mut dom, s("k"), Some(false)), false);
    assert_eq!(el._class_list_toggle(&mut dom, s("k"), None), true);
    assert_eq!(el._class_list_toggle(&mut dom, s("k"), Some(true)), true);
    assert_eq!(el.class_name(&dom), "k");
}

#[test]
fn dataset_maps_names_both_ways() {
    let (mut dom, doc) = parse(s("<div id=d data-foo-bar=1 title=t data-x=2 data-a-b-c=3 data--y=4 data-9-z=5></div>")).unwrap();
    let el = doc.get_element_by_id(&dom, s("d")).unwrap();
    assert_eq!(
        el._dataset_get(&dom),
        vec![
            (s("fooBar"), s("1")),
            (s("x"), s("2")),
            (s("aBC"), s("3")),
            (s("Y"), s("4")),
            (s("9Z"), s("5")),
        ]
    );
    el._dataset_set(&mut dom, s("fooBarBaz"), s("v"));
    assert_eq!(el.get_attribute(&dom, s("data-foo-bar-baz")), Some(s("v")));
    el._dataset_set(&mut dom, s("x"), s("w"));
    assert_eq!(el.get_attribute(&dom, s("data-x")), Some(s("w")));
    el._dataset_remove(&mut dom, s("fooBar"));
    assert_eq!(el.get_attribute(&dom, s("data-foo-bar")), None);
    el._dataset_remove(&mut dom, s("missing"));
    assert_eq!(el._dataset_get(&dom).len(), 5);
}

#[test]
fn nodes_that_are_no_elements_have_no_attributes() {
    let (mut dom, el) = element();
    let text = el.create_text_node(&mut dom, s("t"));
    text.set_attribute(&mut dom, s("a"), s("b"));
    text.set_id(&mut dom, s("x"));
    text._class_list_add(&mut dom, s("c"));
    text._dataset_set(&mut dom, s("k"), s("v"));
    text.set_attribute_ns(&mut dom, None, s("a"), s("b"));
    assert_eq!(text.toggle_attribute(&mut dom, s("a"), None), false);
    assert_eq!(text.toggle_attribute(&mut dom, s("a"), Some(true)), false);
    assert_eq!(text._class_list_toggle(&mut dom, s("c"), None), false);
    assert_eq!(text._class_list_toggle(&mut dom, s("c"), Some(true)), false);
    assert_eq!(text.get_attribute(&dom, s("a")), None);
    assert!(!text.has_attribute(&dom, s("a")));
    assert!(!text.has_attributes(&dom));
    assert_eq!(text.get_attribute_names(&dom), Vec::<String>::new());
    assert_eq!(text.id(&dom), "");
    assert_eq!(text.class_name(&dom), "");
    assert_eq!(text._dataset_get(&dom), vec![]);
    assert_eq!(text.outer_html(&dom).unwrap(), "t");
}

#[test]
fn toggle_hands_back_what_is_there_in_the_end() {
    let (mut dom, el) = element();
    el.set_attribute_ns(&mut dom, Some(s("urn:one")), s("a:flag"), s("1"));
    el.set_attribute_ns(&mut dom, Some(s("urn:two")), s("b:flag"), s("2"));
    assert_eq!(el.toggle_attribute(&mut dom, s("flag"), None), true);
    assert_eq!(el.get_attribute_names(&dom), vec![s("b:flag")]);
    assert_eq!(el.toggle_attribute(&mut dom, s("flag"), Some(false)), false);
    assert!(!el.has_attributes(&dom));
    assert_eq!(el.toggle_attribute(&mut dom, s("flag"), Some(true)), true);
    assert_eq!(el.get_attribute(&dom, s("flag")), Some(s("")));
}

#[test]
fn toggling_what_is_no_token_leaves_it_absent() {
    let (mut dom, el) = element();
    el.set_class_name(&mut dom, s("a b"));
    assert_eq!(el._class_list_toggle(&mut dom, s(""), Some(true)), false);
    assert!(!el._class_list_contains(&dom, s("")));
    assert_eq!(el._class_list_toggle(&mut dom, s("a b"), None), false);
    assert!(!el._class_list_contains(&dom, s("a b")));
    el._class_list_add(&mut dom, s("b\tc"));
    el._class_list_add(&mut dom, s(""));
    assert_eq!(el.class_name(&dom), "a b");
    assert!(el._class_list_contains(&dom, s("a")));
    assert!(el._class_list_contains(&dom, s("b")));
    assert_eq!(el._class_list_toggle(&mut dom, s("c"), None), true);
    assert!(el._class_list_contains(&dom, s("c")));
}
