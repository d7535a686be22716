use domparser::parse;
use domparser::Dom;
use domparser::DomError;
use domparser::NodeData;
use domparser::NodeRepr;

fn s(text: &str) -> String {
    text.to_string()
}

fn new_document() -> (Dom, NodeRepr) {
    let mut dom = Dom::new();
    let doc = dom.new_document();
    (dom, doc)
}

fn element(dom: &mut Dom, doc: NodeRepr, tag: &str) -> NodeRepr {
    doc.create_element(dom, s(tag))
}

/// Every node lists its parent once, and every child names its parent.
fn links_agree(dom: &Dom) -> bool {
    let mut ok = true;
    for i in 0..dom.len() {
        let n = NodeRepr(i);
        if let Some(p) = dom.parent_of(n) {
            ok = ok && dom.children_of(p).iter().filter(|c| **c == n).count() == 1;
        }
        for c in dom.children_of(n) {
            ok = ok && dom.parent_of(*c) == Some(n);
        }
        ok = ok && (dom.parent_of(n).is_none() || n.get_root_node(dom) != n);
    }
    ok
}

#[test]
fn append_moves_a_child_to_the_end() {
    let (mut dom, doc) = new_document();
    let ul = element(&mut dom, doc, "ul");
    let a = element(&mut dom, doc, "li");
    let b = element(&mut dom, doc, "li");
    assert_eq!(ul.append(&mut dom, &a), Ok(()));
    assert_eq!(ul.append(&mut dom, &b), Ok(()));
    assert_eq!(ul.append(&mut dom, &a), Ok(()));
    assert_eq!(ul.child_nodes(&dom), vec![b, a]);
    assert_eq!(a.parent_node(&dom), Some(ul));
    assert!(links_agree(&dom));
}

#[test]
fn append_child_hands_the_child_back() {
    let (mut dom, doc) = new_document();
    let p = element(&mut dom, doc, "p");
    let c = element(&mut dom, doc, "b");
    assert_eq!(p.append_child(&mut dom, &c), Ok(c));
    assert_eq!(p.first_child(&dom), Some(c));
}

#[test]
fn insertion_takes_the_node_out_of_its_old_parent() {
    let (mut dom, doc) = new_document();
    let p = element(&mut dom, doc, "p");
    let q = element(&mut dom, doc, "q");
    let c = element(&mut dom, doc, "b");
    p.append(&mut dom, &c).unwrap();
    q.append(&mut dom, &c).unwrap();
    assert_eq!(p.child_nodes(&dom), vec![]);
    assert_eq!(q.child_nodes(&dom), vec![c]);
    assert_eq!(c.parent_node(&dom), Some(q));
    assert!(links_agree(&dom));
}

#[test]
fn append_then_remove_leaves_the_child_without_parent() {
    let (mut dom, doc) = new_document();
    let p = element(&mut dom, doc, "p");
    let q = element(&mut dom, doc, "q");
    let fresh = element(&mut dom, doc, "b");
    let owned = element(&mut dom, doc, "i");
    q.append(&mut dom, &owned).unwrap();
    p.append_child(&mut dom, &fresh).unwrap();
    p.remove_child(&mut dom, &fresh).unwrap();
    assert_eq!(fresh.parent_node(&dom), None);
    p.append_child(&mut dom, &owned).unwrap();
    p.remove_child(&mut dom, &owned).unwrap();
    assert_eq!(owned.parent_node(&dom), None);
    assert_eq!(q.child_nodes(&dom), vec![]);
}

#[test]
fn prepend_puts_the_child_first() {
    let (mut dom, doc) = new_document();
    let p = element(&mut dom, doc, "p");
    let a = element(&mut dom, doc, "a");
    let b = element(&mut dom, doc, "b");
    p.append(&mut dom, &a).unwrap();
    p.prepend(&mut dom, &b).unwrap();
    assert_eq!(p.child_nodes(&dom), vec![b, a]);
    p.prepend(&mut dom, &a).unwrap();
    assert_eq!(p.child_nodes(&dom), vec![a, b]);
}

#[test]
fn inserting_an_ancestor_is_refused() {
    let (mut dom, doc) = new_document();
    let outer = element(&mut dom, doc, "div");
    let inner = element(&mut dom, doc, "span");
    outer.append(&mut dom, &inner).unwrap();
    assert_eq!(inner.append(&mut dom, &outer), Err(DomError::HierarchyRequest));
    assert_eq!(inner.append(&mut dom, &inner), Err(DomError::HierarchyRequest));
    assert_eq!(inner.prepend(&mut dom, &outer), Err(DomError::HierarchyRequest));
    assert_eq!(inner.append_child(&mut dom, &outer), Err(DomError::HierarchyRequest));
    assert_eq!(outer.child_nodes(&dom), vec![inner]);
    assert_eq!(outer.parent_node(&dom), None);
    assert!(links_agree(&dom));
}

#[test]
fn inserting_a_document_is_refused() {
    let (mut dom, doc) = new_document();
    let other = dom.create(NodeData::Document);
    let div = element(&mut dom, doc, "div");
    assert_eq!(div.append(&mut dom, &other), Err(DomError::HierarchyRequest));
    assert_eq!(doc.append(&mut dom, &other), Err(DomError::HierarchyRequest));
    assert_eq!(other.parent_node(&dom), None);
}

#[test]
fn a_text_node_takes_no_children() {
    let (mut dom, doc) = new_document();
    let t = doc.create_text_node(&mut dom, s("t"));
    let c = doc.create_comment(&mut dom, s("c"));
    let pi = doc.create_processing_instruction(&mut dom, s("x"), s("y"));
    let el = element(&mut dom, doc, "b");
    assert_eq!(t.append(&mut dom, &el), Err(DomError::HierarchyRequest));
    assert_eq!(c.append(&mut dom, &el), Err(DomError::HierarchyRequest));
    assert_eq!(pi.append(&mut dom, &el), Err(DomError::HierarchyRequest));
    assert_eq!(el.parent_node(&dom), None);
}

#[test]
fn a_fragment_hands_over_its_children_in_order() {
    let (mut dom, doc) = new_document();
    let ul = element(&mut dom, doc, "ul");
    let first = element(&mut dom, doc, "li");
    let last = element(&mut dom, doc, "li");
    ul.append(&mut dom, &first).unwrap();
    ul.append(&mut dom, &last).unwrap();
    let frag = doc.create_document_fragment(&mut dom);
    let a = element(&mut dom, doc, "a");
    let b = element(&mut dom, doc, "b");
    let c = element(&mut dom, doc, "c");
    frag.append(&mut dom, &a).unwrap();
    frag.append(&mut dom, &b).unwrap();
    frag.append(&mut dom, &c).unwrap();
    assert_eq!(ul.insert_before_node(&mut dom, &frag, Some(&last)), Ok(frag));
    assert_eq!(ul.child_nodes(&dom), vec![first, a, b, c, last]);
    assert_eq!(frag.child_nodes(&dom), vec![]);
    assert_eq!(frag.parent_node(&dom), None);
    assert_eq!(b.parent_node(&dom), Some(ul));
    assert!(links_agree(&dom));
}

#[test]
fn an_empty_fragment_changes_nothing() {
    let (mut dom, doc) = new_document();
    let ul = element(&mut dom, doc, "ul");
    let li = element(&mut dom, doc, "li");
    ul.append(&mut dom, &li).unwrap();
    let frag = doc.create_document_fragment(&mut dom);
    ul.append(&mut dom, &frag).unwrap();
    ul.prepend(&mut dom, &frag).unwrap();
    assert_eq!(ul.child_nodes(&dom), vec![li]);
}

#[test]
fn insert_before_node_without_reference_appends() {
    let (mut dom, doc) = new_document();
    let p = element(&mut dom, doc, "p");
    let a = element(&mut dom, doc, "a");
    let b = element(&mut dom, doc, "b");
    assert_eq!(p.insert_before_node(&mut dom, &a, None), Ok(a));
    assert_eq!(p.insert_before_node(&mut dom, &b, None), Ok(b));
    assert_eq!(p.child_nodes(&dom), vec![a, b]);
}

#[test]
fn insert_before_node_puts_the_node_before_the_reference() {
    let (mut dom, doc) = new_document();
    let p = element(&mut dom, doc, "p");
    let a = element(&mut dom, doc, "a");
    let b = element(&mut dom, doc, "b");
    let c = element(&mut dom, doc, "c");
    p.append(&mut dom, &a).unwrap();
    p.append(&mut dom, &b).unwrap();
    assert_eq!(p.insert_before_node(&mut dom, &c, Some(&b)), Ok(c));
    assert_eq!(p.child_nodes(&dom), vec![a, c, b]);
    assert_eq!(p.insert_before_node(&mut dom, &a, Some(&b)), Ok(a));
    assert_eq!(p.child_nodes(&dom), vec![c, a, b]);
    assert_eq!(p.insert_before_node(&mut dom, &b, Some(&b)), Ok(b));
    assert_eq!(p.child_nodes(&dom), vec![c, a, b]);
}

#[test]
fn insert_before_node_with_a_foreign_reference_is_not_found() {
    let (mut dom, doc) = new_document();
    let p = element(&mut dom, doc, "p");
    let q = element(&mut dom, doc, "q");
    let a = element(&mut dom, doc, "a");
    let b = element(&mut dom, doc, "b");
    q.append(&mut dom, &b).unwrap();
    assert_eq!(p.insert_before_node(&mut dom, &a, Some(&b)), Err(DomError::NotFound));
    assert_eq!(p.child_nodes(&dom), vec![]);
    assert_eq!(a.parent_node(&dom), None);
    p.append(&mut dom, &a).unwrap();
    assert_eq!(
        a.insert_before_node(&mut dom, &p, Some(&a)),
        Err(DomError::NotFound)
    );
    let inner = element(&mut dom, doc, "i");
    a.append(&mut dom, &inner).unwrap();
    assert_eq!(
        a.insert_before_node(&mut dom, &p, Some(&inner)),
        Err(DomError::HierarchyRequest)
    );
}

#[test]
fn before_and_after_do_nothing_on_a_detached_node() {
    let (mut dom, doc) = new_document();
    let lone = element(&mut dom, doc, "p");
    let other = element(&mut dom, doc, "q");
    let holder = element(&mut dom, doc, "div");
    holder.append(&mut dom, &other).unwrap();
    assert_eq!(lone.after(&mut dom, &other), Ok(()));
    assert_eq!(lone.before(&mut dom, &other), Ok(()));
    assert_eq!(lone.replace_with(&mut dom, &other), Ok(()));
    assert_eq!(other.parent_node(&dom), Some(holder));
    assert_eq!(lone.parent_node(&dom), None);
}

#[test]
fn after_and_before_place_a_new_sibling() {
    let (mut dom, doc) = new_document();
    let p = element(&mut dom, doc, "p");
    let a = element(&mut dom, doc, "a");
    let b = element(&mut dom, doc, "b");
    let c = element(&mut dom, doc, "c");
    p.append(&mut dom, &a).unwrap();
    a.after(&mut dom, &b).unwrap();
    a.before(&mut dom, &c).unwrap();
    assert_eq!(p.child_nodes(&dom), vec![c, a, b]);
    a.after(&mut dom, &a).unwrap();
    assert_eq!(p.child_nodes(&dom), vec![c, a, b]);
    assert_eq!(a.after(&mut dom, &p), Err(DomError::HierarchyRequest));
    assert_eq!(a.before(&mut dom, &p), Err(DomError::HierarchyRequest));
}

#[test]
fn replace_child_puts_the_new_node_in_place() {
    let (mut dom, doc) = new_document();
    let p = element(&mut dom, doc, "p");
    let a = element(&mut dom, doc, "a");
    let b = element(&mut dom, doc, "b");
    let c = element(&mut dom, doc, "c");
    let n = element(&mut dom, doc, "n");
    p.append(&mut dom, &a).unwrap();
    p.append(&mut dom, &b).unwrap();
    p.append(&mut dom, &c).unwrap();
    assert_eq!(p.replace_child(&mut dom, &n, &b), Ok(b));
    assert_eq!(p.child_nodes(&dom), vec![a, n, c]);
    assert_eq!(b.parent_node(&dom), None);
    assert_eq!(p.replace_child(&mut dom, &a, &c), Ok(c));
    assert_eq!(p.child_nodes(&dom), vec![n, a]);
    assert_eq!(p.replace_child(&mut dom, &a, &a), Ok(a));
    assert_eq!(p.child_nodes(&dom), vec![n, a]);
    assert_eq!(p.replace_child(&mut dom, &b, &c), Err(DomError::NotFound));
    assert_eq!(p.replace_child(&mut dom, &p, &a), Err(DomError::HierarchyRequest));
    assert_eq!(p.child_nodes(&dom), vec![n, a]);
    assert!(links_agree(&dom));
}

#[test]
fn replace_child_with_a_fragment_puts_its_children_in_place() {
    let (mut dom, doc) = new_document();
    let p = element(&mut dom, doc, "p");
    let a = element(&mut dom, doc, "a");
    let b = element(&mut dom, doc, "b");
    p.append(&mut dom, &a).unwrap();
    p.append(&mut dom, &b).unwrap();
    let frag = doc.create_document_fragment(&mut dom);
    let x = element(&mut dom, doc, "x");
    let y = element(&mut dom, doc, "y");
    frag.append(&mut dom, &x).unwrap();
    frag.append(&mut dom, &y).unwrap();
    assert_eq!(p.replace_child(&mut dom, &frag, &a), Ok(a));
    assert_eq!(p.child_nodes(&dom), vec![x, y, b]);
    assert_eq!(frag.has_child_nodes(&dom), false);
}

#[test]
fn replace_with_and_remove_detach_the_receiver() {
    let (mut dom, doc) = new_document();
    let p = element(&mut dom, doc, "p");
    let a = element(&mut dom, doc, "a");
    let b = element(&mut dom, doc, "b");
    p.append(&mut dom, &a).unwrap();
    assert_eq!(a.replace_with(&mut dom, &b), Ok(()));
    assert_eq!(p.child_nodes(&dom), vec![b]);
    assert_eq!(a.parent_node(&dom), None);
    b.remove(&mut dom);
    assert_eq!(p.child_nodes(&dom), vec![]);
    b.remove(&mut dom);
    assert_eq!(b.parent_node(&dom), None);
}

#[test]
fn adopt_node_detaches_and_hands_back() {
    let (mut dom, doc) = new_document();
    let p = element(&mut dom, doc, "p");
    let a = element(&mut dom, doc, "a");
    p.append(&mut dom, &a).unwrap();
    assert_eq!(doc.adopt_node(&mut dom, &a), a);
    assert_eq!(a.parent_node(&dom), None);
    assert_eq!(p.child_nodes(&dom), vec![]);
}

#[test]
fn import_node_copies_without_sharing() {
    let (mut dom, doc) = parse(s("<div id=a class=\"x y\"><p>one</p><!--c--><p>two</p></div>")).unwrap();
    let div = doc.get_element_by_id(&dom, s("a")).unwrap();
    let deep = doc.import_node(&mut dom, &div, Some(true));
    assert_ne!(deep, div);
    assert_eq!(deep.parent_node(&dom), None);
    assert_eq!(deep.outer_html(&dom).unwrap(), div.outer_html(&dom).unwrap());
    assert!(deep.is_equal_node(&dom, &div).unwrap());
    for copy in deep.child_nodes(&dom) {
        assert!(!div.contains(&dom, &copy));
    }
    let shallow = doc.import_node(&mut dom, &div, None);
    assert_eq!(shallow.outer_html(&dom).unwrap(), "<div id=\"a\" class=\"x y\"></div>");
    assert_eq!(shallow.child_nodes(&dom), vec![]);
    let also_shallow = div.clone_node(&mut dom, false);
    assert!(also_shallow.is_equal_node(&dom, &shallow).unwrap());
    assert!(!also_shallow.is_equal_node(&dom, &div).unwrap());
    deep.set_attribute(&mut dom, s("id"), s("b"));
    assert_eq!(div.id(&dom), "a");
    assert!(links_agree(&dom));
}

#[test]
fn links_agree_after_many_moves() {
    let (mut dom, doc) = parse(s("<ul><li>1</li><li>2</li><li>3</li></ul><ol></ol>")).unwrap();
    let ul = doc.query_selector(&dom, s("ul")).unwrap();
    let ol = doc.query_selector(&dom, s("ol")).unwrap();
    for li in ul.children(&dom) {
        ol.prepend(&mut dom, &li).unwrap();
        assert!(links_agree(&dom));
    }
    assert_eq!(ol.inner_html(&dom).unwrap(), "<li>3</li><li>2</li><li>1</li>");
    assert_eq!(ul.has_child_nodes(&dom), false);
    assert_eq!(ul.append(&mut dom, &ol), Ok(()));
    assert_eq!(ol.append(&mut dom, &ul), Err(DomError::HierarchyRequest));
    assert!(links_agree(&dom));
}

/// A small generator of numbers that look random and are the same on
/// every run.
struct Dice(u64);

impl Dice {
    fn roll(&mut self, sides: usize) -> usize {
        self.0 = self.0.wrapping_mul(6364136223846793005).wrapping_add(1442695040888963407);
        ((self.0 >> 33) as usize) % sides
    }
}

#[test]
fn links_agree_after_random_operations() {
    let (mut dom, doc) = new_document();
    let mut nodes = vec![doc];
    for i in 0..12 {
        nodes.push(element(&mut dom, doc, if i % 2 == 0 { "div" } else { "span" }));
    }
    for _ in 0..3 {
        nodes.push(doc.create_document_fragment(&mut dom));
        nodes.push(doc.create_text_node(&mut dom, s("t")));
        nodes.push(doc.create_comment(&mut dom, s("c")));
    }
    let mut dice = Dice(7);
    let mut done = 0;
    let mut refused = 0;
    for _ in 0..4000 {
        let a = nodes[dice.roll(nodes.len())];
        let b = nodes[dice.roll(nodes.len())];
        let c = nodes[dice.roll(nodes.len())];
        let before = dom.parent_of(b);
        let outcome = match dice.roll(8) {
            0 => a.append(&mut dom, &b),
            1 => a.prepend(&mut dom, &b),
            2 => a.insert_before_node(&mut dom, &b, Some(&c)).map(|_| ()),
            3 => a.replace_child(&mut dom, &b, &c).map(|_| ()),
            4 => a.remove_child(&mut dom, &b).map(|_| ()),
            5 => a.after(&mut dom, &b),
            6 => a.before(&mut dom, &b),
            _ => {
                a.remove(&mut dom);
                Ok(())
            },
        };
        match outcome {
            Ok(()) => done += 1,
            Err(DomError::HierarchyRequest) => {
                refused += 1;
                assert_eq!(dom.parent_of(b), before);
            },
            Err(DomError::NotFound) => {
                refused += 1;
                assert_eq!(dom.parent_of(b), before);
            },
            Err(other) => panic!("unexpected error {:?}", other),
        }
        assert!(links_agree(&dom));
        for n in &nodes {
            let root = n.get_root_node(&dom);
            assert_eq!(dom.parent_of(root), None);
            assert!(root.contains(&dom, n));
        }
    }
    assert!(done > 100);
    assert!(refused > 100);
}
