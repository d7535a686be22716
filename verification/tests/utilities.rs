use domparser::attrs::find_attr;
use domparser::attrs::AttrKey;
use domparser::content::parse_adjacent;
use domparser::content::Adjacent;
use domparser::navigate::to_count_u32;
use domparser::node::Attribute;
use domparser::node::QualName;
use domparser::query::selector_chain_of;
use domparser::query::Criterion;
use domparser::text::chars_of;
use domparser::text::find_char;
use domparser::text::has_prefix;
use domparser::text::join_words;
use domparser::text::same_text;
use domparser::text::slice_chars;
use domparser::text::string_of;
use domparser::text::to_camel;
use domparser::text::to_kebab;
use domparser::text::to_lower;
use domparser::text::to_upper;
use domparser::text::tokens_of;
use domparser::Dom;
use domparser::NodeData;
use domparser::NodeKind;
use domparser::NodeRepr;

fn s(text: &str) -> String {
    text.to_string()
}

fn chars(text: &str) -> Vec<char> {
    text.chars().collect()
}

#[test]
fn strings_and_characters_convert_both_ways() {
    assert_eq!(chars_of("a€b"), vec!['a', '€', 'b']);
    assert_eq!(string_of(&vec!['x', 'ÿ', 'z']), "xÿz");
    assert_eq!(string_of(&chars_of("")), "");
    assert!(same_text("abc", "abc"));
    assert!(!same_text("abc", "abd"));
    assert!(!same_text("abc", "ab"));
}

#[test]
fn letter_case_changes_ascii_letters_only() {
    assert_eq!(to_upper("aZ-09_é{`"), "AZ-09_é{`");
    assert_eq!(to_lower("Az-09_É[@"), "az-09_É[@");
    assert_eq!(to_upper(""), "");
}

#[test]
fn tokens_are_runs_between_white_space() {
    let words: Vec<String> = tokens_of(" a\tbc\n\x0C d \r").iter().map(string_of).collect();
    assert_eq!(words, vec![s("a"), s("bc"), s("d")]);
    assert_eq!(tokens_of("").len(), 0);
    assert_eq!(tokens_of(" \t ").len(), 0);
    assert_eq!(tokens_of("one").len(), 1);
    assert_eq!(string_of(&join_words(&tokens_of("  x   y  "))), "x y");
    assert_eq!(join_words(&Vec::new()), Vec::<char>::new());
    assert_eq!(string_of(&join_words(&vec![chars("only")])), "only");
}

#[test]
fn names_map_between_camel_case_and_hyphens() {
    assert_eq!(string_of(&to_kebab(&chars("fooBarBaz"))), "foo-bar-baz");
    assert_eq!(string_of(&to_kebab(&chars("X"))), "-x");
    assert_eq!(string_of(&to_kebab(&chars("a1É"))), "a1É");
    assert_eq!(string_of(&to_camel(&chars("foo-bar-baz"))), "fooBarBaz");
    assert_eq!(string_of(&to_camel(&chars("a--b"))), "a-B");
    assert_eq!(string_of(&to_camel(&chars("a-B-"))), "a-B-");
    assert_eq!(string_of(&to_camel(&chars("-"))), "-");
    assert_eq!(string_of(&to_camel(&to_kebab(&chars("someLongName")))), "someLongName");
}

#[test]
fn searching_and_slicing_characters() {
    let v = chars("ab:cd:e");
    assert_eq!(find_char(&v, ':'), 2);
    assert_eq!(find_char(&v, '!'), 7);
    assert_eq!(slice_chars(&v, 3, 5), chars("cd"));
    assert_eq!(slice_chars(&v, 7, 7), chars(""));
    assert!(has_prefix(&v, &chars("ab:")));
    assert!(has_prefix(&v, &chars("")));
    assert!(!has_prefix(&v, &chars("b")));
    assert!(!has_prefix(&chars("ab"), &chars("abc")));
}

#[test]
fn counts_fit_or_saturate() {
    assert_eq!(to_count_u32(0), 0);
    assert_eq!(to_count_u32(17), 17);
    assert_eq!(to_count_u32(u32::MAX as usize), u32::MAX);
    if usize::BITS > 32 {
        assert_eq!(to_count_u32((u32::MAX as usize).saturating_add(1)), u32::MAX);
        assert_eq!(to_count_u32(usize::MAX), u32::MAX);
    }
}

#[test]
fn adjacent_places_are_named_in_any_letter_case() {
    assert_eq!(parse_adjacent("beforebegin"), Some(Adjacent::BeforeBegin));
    assert_eq!(parse_adjacent("AfterBegin"), Some(Adjacent::AfterBegin));
    assert_eq!(parse_adjacent("BEFOREEND"), Some(Adjacent::BeforeEnd));
    assert_eq!(parse_adjacent("afterEnd"), Some(Adjacent::AfterEnd));
    assert_eq!(parse_adjacent(" afterend"), None);
    assert_eq!(parse_adjacent(""), None);
}

#[test]
fn attributes_are_found_by_each_kind_of_key() {
    let attr = |ns: &str, prefix: Option<&str>, local: &str| Attribute {
        name: QualName { ns: s(ns), prefix: prefix.map(s), local: s(local) },
        value: s("v"),
    };
    let list = vec![
        attr("", None, "id"),
        attr("urn:x", Some("x"), "href"),
        attr("", None, "href"),
    ];
    assert_eq!(find_attr(&list, &AttrKey::Local("href")), 1);
    assert_eq!(find_attr(&list, &AttrKey::Local("x:href")), 3);
    assert_eq!(find_attr(&list, &AttrKey::Qualified("x:href")), 1);
    assert_eq!(find_attr(&list, &AttrKey::Qualified("href")), 3);
    assert_eq!(find_attr(&list, &AttrKey::Expanded("", "href")), 2);
    assert_eq!(find_attr(&list, &AttrKey::Expanded("urn:x", "href")), 1);
    assert_eq!(find_attr(&list, &AttrKey::Expanded("urn:y", "href")), 3);
    assert_eq!(find_attr(&Vec::new(), &AttrKey::Local("id")), 0);
}

#[test]
fn selectors_are_read_token_by_token() {
    let chain = selector_chain_of("  div  #main .big * ");
    assert_eq!(chain.len(), 4);
    assert!(matches!(&chain[0], Criterion::Tag(t) if *t == chars("DIV")));
    assert!(matches!(&chain[1], Criterion::Id(i) if *i == chars("main")));
    assert!(matches!(&chain[2], Criterion::Classes(c) if *c == vec![chars("big")]));
    assert!(matches!(&chain[3], Criterion::AnyElement));
    assert_eq!(selector_chain_of("").len(), 0);
}

#[test]
fn kinds_know_what_they_may_hold() {
    let containers = [NodeKind::Document, NodeKind::Element, NodeKind::DocumentFragment];
    let leaves = [
        NodeKind::Doctype,
        NodeKind::Text,
        NodeKind::Comment,
        NodeKind::ProcessingInstruction,
    ];
    for kind in containers {
        assert!(kind.can_have_children());
        assert!(!kind.has_character_data());
    }
    for kind in leaves {
        assert!(!kind.can_have_children());
    }
    assert!(NodeKind::Text.has_character_data());
    assert!(NodeKind::Comment.has_character_data());
    assert!(NodeKind::ProcessingInstruction.has_character_data());
    assert!(!NodeKind::Doctype.has_character_data());
}

#[test]
fn the_arena_keeps_every_node() {
    let mut dom = Dom::new();
    assert_eq!(dom.len(), 0);
    assert!(!dom.has(NodeRepr(0)));
    let doc = dom.new_document();
    let other = doc.create_element(&mut dom, s("p"));
    assert_eq!(doc, NodeRepr(0));
    assert_eq!(other, NodeRepr(1));
    assert_eq!(dom.len(), 2);
    assert!(dom.has(other));
    assert!(!dom.has(NodeRepr(2)));
    assert_eq!(dom.kind_of(doc), NodeKind::Document);
    assert_eq!(dom.kind_of(other), NodeKind::Element);
    doc.append(&mut dom, &other).unwrap();
    other.remove(&mut dom);
    assert_eq!(dom.len(), 2);
    assert!(dom.has(other));
    assert!(dom.is_ancestor_or_self(other, other));
    assert!(!dom.is_ancestor_or_self(doc, other));
}

#[test]
fn several_documents_share_one_arena() {
    let mut dom = Dom::new();
    let first = dom.parse_into("<p id=a>one</p>").unwrap();
    let second = dom.parse_into("<div id=b></div>").unwrap();
    assert_ne!(first, second);
    assert_eq!(first.outer_html(&dom).unwrap(), "<html><head></head><body><p id=\"a\">one</p></body></html>");
    let p = first.get_element_by_id(&dom, s("a")).unwrap();
    let div = second.get_element_by_id(&dom, s("b")).unwrap();
    assert_eq!(second.get_element_by_id(&dom, s("a")), None);
    assert_eq!(p.owner_document(&dom), Some(first));
    div.append(&mut dom, &p).unwrap();
    assert_eq!(p.owner_document(&dom), Some(second));
    assert_eq!(first.body(&dom).unwrap().has_child_nodes(&dom), false);
    assert_eq!(div.outer_html(&dom).unwrap(), "<div id=\"b\"><p id=\"a\">one</p></div>");
    assert_eq!(first.compare_document_position(&dom, &second), 37);
}

#[test]
fn prefixes_are_looked_up_along_the_ancestors() {
    let mut dom = Dom::new();
    let outer = dom.create(NodeData::Element {
        qname: QualName { ns: s("urn:shelf"), prefix: Some(s("sh")), local: s("shelf") },
        attrs: Vec::new(),
        mathml_integration_point: false,
    });
    let inner = dom.create(NodeData::Element {
        qname: QualName { ns: s("urn:book"), prefix: None, local: s("book") },
        attrs: Vec::new(),
        mathml_integration_point: false,
    });
    let text = outer.create_text_node(&mut dom, s("t"));
    outer.append(&mut dom, &inner).unwrap();
    inner.append(&mut dom, &text).unwrap();
    assert_eq!(outer.tag_name(&dom), Some(s("SH:SHELF")));
    assert_eq!(outer.node_name(&dom), "SH:SHELF");
    assert_eq!(outer.prefix(&dom), Some(s("sh")));
    assert_eq!(outer.local_name(&dom), Some(s("shelf")));
    assert_eq!(outer.outer_html(&dom).unwrap(), "<shelf><book>t</book></shelf>");
    assert_eq!(text.lookup_prefix(&dom, s("urn:shelf")), Some(s("sh")));
    assert_eq!(text.lookup_prefix(&dom, s("urn:book")), None);
    assert_eq!(outer.lookup_prefix(&dom, s("urn:none")), None);
    assert_eq!(text.lookup_namespace_uri(&dom, Some(s("sh"))), Some(s("urn:shelf")));
    assert_eq!(text.lookup_namespace_uri(&dom, None), Some(s("urn:book")));
    assert_eq!(outer.lookup_namespace_uri(&dom, None), None);
    assert!(inner.is_default_namespace(&dom, Some(s("urn:book"))));
    assert!(outer.is_default_namespace(&dom, None));
}
