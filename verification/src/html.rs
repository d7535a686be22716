//! HTML text in and out: parsing into the arena and serializing out of
//! it. Both are the work of `html5ever`, which reads and writes the
//! reference-counted tree of `markup5ever_rcdom`; this module carries
//! trees between that form and the arena.
//!
//! What the parser builds and what the serializer writes is not proved
//! here. Each has a name, and the contracts of this library say what
//! they do to those named results. The functions marked
//! `external_body` are the only places where the outside tree is
//! touched; what their contracts say of it is taken on trust.
//!
//! A tree of the outside form is only ever read after it was built, and
//! never changed after it was handed on; that is what makes a node's
//! tree a value. The tree of a node holds what is below the node, and
//! so not the contents of a `template` element, which the parser keeps
//! apart. Handles to such trees never leave this module: they come from
//! the parser or are built here, node above finished nodes, so none of
//! them leads back to itself. The contracts say so with `rc_finite`,
//! and what walks a tree asks for it.
//!
//! A node of `markup5ever_rcdom` that is dropped empties every node
//! below it, also one that another handle still holds. So what the
//! contracts say of a handle holds for as long as the root above it
//! lives, and the functions here see to that: a parsed document is kept
//! until all of it, template contents included, has been copied into
//! the arena, and a tree that is built for the serializer is read only
//! through its root.
//!
//! The strings of `html5ever` count their bytes in 32 bits. One that is
//! copied panics beyond `u32::MAX` bytes; one that grows takes room by
//! powers of two and panics where it would need more than 2^31 bytes,
//! and on a machine of 32 bits where it would need 2^31. A character
//! takes up to four bytes, and the parser puts no more characters into
//! a string than it has read, where it may turn one byte into three. So
//! a text of at most `TEXT_LIMIT` characters keeps every string within
//! 2^30 bytes; longer ones are turned away here, before anything is
//! handed on.

use vstd::prelude::*;
use std::rc::Rc;
use std::cell::RefCell;
use markup5ever_rcdom::Node as RcNode;
use markup5ever_rcdom::NodeData as RcData;
use markup5ever_rcdom::RcDom;
use markup5ever_rcdom::SerializableHandle;
use html5ever::tendril::TendrilSink;
use html5ever::serialize::SerializeOpts;
use html5ever::serialize::TraversalScope;
use html5ever::LocalName;
use html5ever::Namespace;
use html5ever::Prefix;
use crate::node::NodeKind;
use crate::node::NodeData;
use crate::node::NodeDataView;
use crate::node::QualName;
use crate::node::Attribute;
use crate::node::AttributeView;
use crate::node::attrs_view;
use crate::model::NodeRepr;
use crate::model::DomView;
use crate::dom::Dom;
use crate::error::DomError;
use crate::tree::DomTree;
use crate::tree::work_left;
use crate::tree::admissible;
use crate::fill::Filling;
use crate::fill::filling_ok;
use crate::fill::lemma_filling_starts;
use crate::fill::lemma_filling_checks;
use crate::fill::lemma_filling_descends;
use crate::fill::lemma_filling_ascends;
use crate::fill::lemma_filling_ends;
use crate::attrs::strings_view;

verus! {

/// `markup5ever_rcdom::Node`, taken as it is: the proofs see nothing of
/// what is inside a node but what the functions below say of it.
#[verifier::external_type_specification]
#[verifier::external_body]
pub struct ExRcNode(markup5ever_rcdom::Node);

/// The tree that a node of `markup5ever_rcdom` holds: its payload and the
/// trees of its children, in order.
pub uninterp spec fn rc_tree(node: RcNode) -> DomTree;

/// Whether what a node of `markup5ever_rcdom` leads to, through
/// children and template contents, is a finite tree: no node in it is
/// met again below itself.
pub uninterp spec fn rc_finite(node: RcNode) -> bool;

/// The document tree that `html5ever::parse_document` builds from a text.
pub uninterp spec fn parsed_document(html: Seq<char>) -> DomTree;

/// The text that `html5ever::serialize` writes for a tree: for the whole
/// tree, or for the children of its root only.
pub uninterp spec fn serialized(tree: DomTree, children_only: bool) -> Seq<char>;

/// The tree that a handle to a node of `markup5ever_rcdom` leads to.
pub open spec fn held(h: &Rc<RcNode>) -> DomTree {
    rc_tree(**h)
}

/// Whether every node of the list leads to a finite tree.
pub open spec fn all_finite(list: Seq<Rc<RcNode>>) -> bool {
    forall|i: int| 0 <= i < list.len() ==> rc_finite(*#[trigger] list[i])
}

/// The trees that a list of nodes of `markup5ever_rcdom` holds.
pub open spec fn rc_trees(list: Seq<Rc<RcNode>>) -> Seq<DomTree> {
    Seq::new(list.len(), |i: int| rc_tree(*list[i]))
}

/// The most characters that a text handed to `html5ever` may hold: at
/// four bytes each they stay within 2^30 bytes.
pub const TEXT_LIMIT: usize = 0x0fff_ffff;

/// Whether a text is short enough for `html5ever`.
pub open spec fn fits(s: Seq<char>) -> bool {
    s.len() <= TEXT_LIMIT
}

/// Whether the value of every attribute is short enough.
pub open spec fn values_fit(attrs: Seq<AttributeView>) -> bool {
    forall|i: int| 0 <= i < attrs.len() ==> fits(#[trigger] attrs[i].value)
}

/// Whether every text of a payload is short enough. Names of elements
/// and attributes are kept as interned strings, which have no limit.
pub open spec fn payload_fits(d: NodeDataView) -> bool {
    match d {
        NodeDataView::Element { attrs, .. } => values_fit(attrs),
        NodeDataView::Doctype { name, public_id, system_id } => fits(name) && fits(public_id)
            && fits(system_id),
        NodeDataView::Text { contents } => fits(contents),
        NodeDataView::Comment { contents } => fits(contents),
        NodeDataView::ProcessingInstruction { target, contents } => fits(target) && fits(
            contents,
        ),
        _ => true,
    }
}

/// Whether every text in a tree is short enough, so that the tree can
/// be written as HTML.
pub open spec fn writable(t: DomTree) -> bool
    decreases t,
{
    payload_fits(t.data) && forall|i: int|
        0 <= i < t.children.len() ==> writable(#[trigger] t.children[i])
}

/// Whether a text can be read as HTML into the arena: it is short
/// enough, and the arena can hold the tree that the parser builds.
pub open spec fn readable(html: Seq<char>) -> bool {
    fits(html) && admissible(parsed_document(html))
}

/// The texts of a payload, in the order of its fields; none for
/// documents, fragments and elements.
pub open spec fn string_fields(d: NodeDataView) -> Seq<Seq<char>> {
    match d {
        NodeDataView::Doctype { name, public_id, system_id } => seq![name, public_id, system_id],
        NodeDataView::Text { contents } => seq![contents],
        NodeDataView::Comment { contents } => seq![contents],
        NodeDataView::ProcessingInstruction { target, contents } => seq![target, contents],
        _ => Seq::empty(),
    }
}

/// The payload of a childless node of the given kind with the given
/// texts.
pub open spec fn leaf_data(kind: NodeKind, a: Seq<char>, b: Seq<char>, c: Seq<char>) -> NodeDataView {
    match kind {
        NodeKind::Doctype => NodeDataView::Doctype { name: a, public_id: b, system_id: c },
        NodeKind::Comment => NodeDataView::Comment { contents: a },
        NodeKind::ProcessingInstruction => NodeDataView::ProcessingInstruction {
            target: a,
            contents: b,
        },
        _ => NodeDataView::Text { contents: a },
    }
}

/// No node below the root of the tree is a document.
pub open spec fn no_document_below(t: DomTree) -> bool
    decreases t,
{
    forall|i: int|
        0 <= i < t.children.len() ==> !(#[trigger] t.children[i].data is Document)
            && no_document_below(t.children[i])
}

/// The tree as `html5ever` is given it: a fragment at the root stands as
/// a document.
pub open spec fn as_outside(t: DomTree) -> DomTree {
    if t.data is DocumentFragment {
        DomTree { data: NodeDataView::Document, children: t.children }
    } else {
        t
    }
}

/// The HTML text of a tree: of a document or a fragment the text of its
/// children, of any other node the text of the node and what is below.
pub open spec fn outer_html_of(t: DomTree) -> Seq<char> {
    serialized(as_outside(t), as_outside(t).data is Document)
}

/// The HTML text of what is below the root of a tree.
pub open spec fn inner_html_of(t: DomTree) -> Seq<char> {
    serialized(as_outside(t), true)
}

/// `html5ever::parse_document` with `markup5ever_rcdom::RcDom` as its
/// sink, fed the whole text at once: hands back the document node of the
/// tree that the parser builds. The contract claims of that tree that
/// it is the one named `parsed_document` of the text, that is, that the
/// same text always gives the same tree; that its root is a document,
/// which the sink makes before anything is parsed; and that it is
/// finite, as the parser hangs a node only below a node that is not
/// below it. The parser keeps text in strings that take room by powers
/// of two as they grow and panic where that passes 2^31 bytes. It puts
/// no more characters into one than it has read, at up to four bytes
/// each, so the contract asks for a text within the limit, under which
/// none needs more than 2^30 bytes.
#[verifier::external_body]
fn rc_parse(html: &str) -> (h: Rc<RcNode>)
    requires
        fits(html@),
    ensures
        rc_tree(*h) == parsed_document(html@),
        rc_tree(*h).data is Document,
        rc_finite(*h),
{
    html5ever::parse_document(RcDom::default(), Default::default()).one(html).document
}

/// `html5ever::serialize` on a node of `markup5ever_rcdom`, with the
/// default options but for the scope, written into memory: the node and
/// what is below it, or its children only (then with the name of the
/// node, if it is an element, as the context). The serializer of
/// `markup5ever_rcdom` panics where it is to open a document node, so
/// the contract asks that none stands where nodes are opened; it walks
/// all that is below the node, so the contract asks that this is
/// finite. It claims nothing of the text but that it is the one named
/// `serialized` of the tree and the scope.
#[verifier::external_body]
fn rc_serialize(h: &Rc<RcNode>, children_only: bool) -> (s: String)
    requires
        rc_finite(**h),
        no_document_below(rc_tree(**h)),
        !children_only ==> !(rc_tree(**h).data is Document),
    ensures
        s@ == serialized(rc_tree(**h), children_only),
{
    let inner = match &h.data {
        RcData::Element { name, .. } => Some(name.clone()),
        _ => None,
    };
    let traversal_scope = if children_only { TraversalScope::ChildrenOnly(inner) } else { TraversalScope::IncludeNode };
    let opts = SerializeOpts { traversal_scope, ..Default::default() };
    let mut out: Vec<u8> = Vec::new();
    let _ = html5ever::serialize(&mut out, &SerializableHandle::from(h.clone()), opts);
    String::from_utf8_lossy(&out).into_owned()
}

/// Which variant of `markup5ever_rcdom::NodeData` the `data` field of the
/// node holds. The contract claims that this is the kind of the payload
/// of the node's tree.
#[verifier::external_body]
fn rc_kind(h: &Rc<RcNode>) -> (k: NodeKind)
    ensures
        k == rc_tree(**h).data.kind(),
{
    match &h.data {
        RcData::Document => NodeKind::Document,
        RcData::Doctype { .. } => NodeKind::Doctype,
        RcData::Text { .. } => NodeKind::Text,
        RcData::Comment { .. } => NodeKind::Comment,
        RcData::Element { .. } => NodeKind::Element,
        RcData::ProcessingInstruction { .. } => NodeKind::ProcessingInstruction,
    }
}

/// The text fields of the `data` field of a node of
/// `markup5ever_rcdom`, copied in the order in which the variant
/// declares them; none for a document or an element. The contract claims
/// that these are the texts of the payload of the node's tree.
#[verifier::external_body]
fn rc_strings(h: &Rc<RcNode>) -> (list: Vec<String>)
    ensures
        strings_view(list@) == string_fields(rc_tree(**h).data),
{
    match &h.data {
        RcData::Doctype { name, public_id, system_id } => vec![name.to_string(), public_id.to_string(), system_id.to_string()],
        RcData::Text { contents } => vec![contents.borrow().to_string()],
        RcData::Comment { contents } => vec![contents.to_string()],
        RcData::ProcessingInstruction { target, contents } => vec![target.to_string(), contents.to_string()],
        _ => Vec::new(),
    }
}

/// The `name` field of `markup5ever_rcdom::NodeData::Element`, copied
/// part by part; none for a node that is no element. The contract claims
/// that this is the name in the payload of the node's tree.
#[verifier::external_body]
fn rc_name(h: &Rc<RcNode>) -> (q: Option<QualName>)
    ensures
        q is Some <==> rc_tree(**h).data is Element,
        q is Some ==> q->0@ == rc_tree(**h).data->qname,
{
    let text = |p: &Prefix| p.to_string();
    match &h.data {
        RcData::Element { name, .. } => Some(QualName { ns: name.ns.to_string(), prefix: name.prefix.as_ref().map(text), local: name.local.to_string() }),
        _ => None,
    }
}

/// The `mathml_annotation_xml_integration_point` field of
/// `markup5ever_rcdom::NodeData::Element`; false for a node that is no
/// element. The contract claims that this is the flag in the payload of
/// the node's tree.
#[verifier::external_body]
fn rc_flag(h: &Rc<RcNode>) -> (b: bool)
    ensures
        b == (rc_tree(**h).data is Element && rc_tree(**h).data->mathml_integration_point),
{
    match &h.data {
        RcData::Element { mathml_annotation_xml_integration_point, .. } => *mathml_annotation_xml_integration_point,
        _ => false,
    }
}

/// The `attrs` field of `markup5ever_rcdom::NodeData::Element`, copied
/// entry by entry in order; empty for a node that is no element. The
/// contract claims that these are the attributes in the payload of the
/// node's tree.
#[verifier::external_body]
fn rc_attrs(h: &Rc<RcNode>) -> (list: Vec<Attribute>)
    ensures
        attrs_view(list@) == rc_tree(**h).data.attributes(),
{
    let text = |p: &Prefix| p.to_string();
    let name_of = |q: &html5ever::QualName| QualName { ns: q.ns.to_string(), prefix: q.prefix.as_ref().map(text), local: q.local.to_string() };
    match &h.data {
        RcData::Element { attrs, .. } => attrs.borrow().iter().map(|a| Attribute { name: name_of(&a.name), value: a.value.to_string() }).collect(),
        _ => Vec::new(),
    }
}

/// The `template_contents` field of
/// `markup5ever_rcdom::NodeData::Element`: a handle to the node under
/// which the parser keeps the contents of a `template` element; none
/// for a node that is no element. The contract claims of it only that a
/// node with template contents is an element, and that they are finite
/// where the node leads to what is finite.
#[verifier::external_body]
fn rc_template(h: &Rc<RcNode>) -> (t: Option<Rc<RcNode>>)
    requires
        rc_finite(**h),
    ensures
        t is Some ==> rc_tree(**h).data is Element && rc_finite(*t->0),
{
    match &h.data {
        RcData::Element { template_contents, .. } => template_contents.borrow().clone(),
        _ => None,
    }
}

/// The `children` field of a node of `markup5ever_rcdom`: handles to the
/// children, in order. The contract claims that their trees are the
/// trees below the root of the node's tree, and that they are finite.
/// A node that is met again below itself has no such tree, so the
/// contract asks for a node that leads to what is finite.
#[verifier::external_body]
fn rc_children(h: &Rc<RcNode>) -> (list: Vec<Rc<RcNode>>)
    requires
        rc_finite(**h),
    ensures
        rc_trees(list@) == rc_tree(**h).children,
        all_finite(list@),
{
    h.children.borrow().clone()
}

/// `markup5ever_rcdom::Node::new` for a document node, whose `children`
/// field is then filled with the given handles. The contract claims that
/// the tree of the new node is a document above the trees given, and
/// finite as they are.
#[verifier::external_body]
fn rc_document(children: Vec<Rc<RcNode>>) -> (h: Rc<RcNode>)
    requires
        all_finite(children@),
    ensures
        rc_tree(*h) == (DomTree { data: NodeDataView::Document, children: rc_trees(children@) }),
        rc_finite(*h),
{
    let node = RcNode::new(RcData::Document);
    *node.children.borrow_mut() = children;
    node
}

/// `markup5ever_rcdom::Node::new` for an element with the given name,
/// attributes and flag, without template contents, whose `children`
/// field is then filled with the given handles. The contract claims that the tree of
/// the new node is that element above the trees given, and finite as
/// they are. The values of the attributes are copied into strings of
/// `html5ever`, which panics on more than `u32::MAX` bytes, so the
/// contract asks for values within the limit.
#[verifier::external_body]
fn rc_element(qname: &QualName, attrs: &Vec<Attribute>, flag: bool, children: Vec<Rc<RcNode>>) -> (h: Rc<RcNode>)
    requires
        values_fit(attrs_view(attrs@)),
        all_finite(children@),
    ensures
        rc_tree(*h) == (DomTree {
            data: NodeDataView::Element {
                qname: qname@,
                attrs: attrs_view(attrs@),
                mathml_integration_point: flag,
            },
            children: rc_trees(children@),
        }),
        rc_finite(*h),
{
    let name_of = |q: &QualName| html5ever::QualName::new(q.prefix.as_deref().map(Prefix::from), Namespace::from(q.ns.as_str()), LocalName::from(q.local.as_str()));
    let list = attrs.iter().map(|a| html5ever::Attribute { name: name_of(&a.name), value: a.value.as_str().into() }).collect();
    let data = RcData::Element { name: name_of(qname), attrs: RefCell::new(list), template_contents: RefCell::new(None), mathml_annotation_xml_integration_point: flag };
    let node = RcNode::new(data);
    *node.children.borrow_mut() = children;
    node
}

/// `markup5ever_rcdom::Node::new` for a doctype, a text, a comment or a
/// processing instruction with the given texts as its fields, in the
/// order in which the variant declares them. The contract claims that
/// the tree of the new node is that payload without children. The
/// texts are copied into strings of `html5ever`, which panics on more
/// than `u32::MAX` bytes, so the contract asks for texts within the
/// limit.
#[verifier::external_body]
fn rc_leaf(kind: NodeKind, a: &str, b: &str, c: &str) -> (h: Rc<RcNode>)
    requires
        kind is Doctype || kind is Text || kind is Comment || kind is ProcessingInstruction,
        fits(a@),
        fits(b@),
        fits(c@),
    ensures
        rc_tree(*h) == (DomTree { data: leaf_data(kind, a@, b@, c@), children: Seq::empty() }),
        rc_finite(*h),
{
    RcNode::new(match kind {
        NodeKind::Doctype => RcData::Doctype { name: a.into(), public_id: b.into(), system_id: c.into() },
        NodeKind::Comment => RcData::Comment { contents: a.into() },
        NodeKind::ProcessingInstruction => RcData::ProcessingInstruction { target: a.into(), contents: b.into() },
        _ => RcData::Text { contents: RefCell::new(a.into()) },
    })
}

/// Whether the text is short enough for `html5ever`.
fn fits_in(s: &str) -> (b: bool)
    ensures
        b == fits(s@),
{
    s.unicode_len() <= TEXT_LIMIT
}

/// Whether the value of every attribute is short enough for
/// `html5ever`.
fn values_fit_in(attrs: &Vec<Attribute>) -> (b: bool)
    ensures
        b == values_fit(attrs_view(attrs@)),
{
    let mut i: usize = 0;
    while i < attrs.len()
        invariant
            i <= attrs.len(),
            forall|j: int| 0 <= j < i ==> fits(#[trigger] attrs_view(attrs@)[j].value),
        decreases attrs.len() - i,
    {
        assert(attrs_view(attrs@)[i as int].value == attrs[i as int].value@);
        if !fits_in(attrs[i].value.as_str()) {
            return false;
        }
        i += 1;
    }
    true
}

/// Whether every text of the payload is short enough for `html5ever`.
fn payload_fits_in(d: &NodeData) -> (b: bool)
    ensures
        b == payload_fits(d@),
{
    match d {
        NodeData::Element { attrs, .. } => values_fit_in(attrs),
        NodeData::Doctype { name, public_id, system_id } => fits_in(name.as_str()) && fits_in(
            public_id.as_str(),
        ) && fits_in(system_id.as_str()),
        NodeData::Text { contents } => fits_in(contents.as_str()),
        NodeData::Comment { contents } => fits_in(contents.as_str()),
        NodeData::ProcessingInstruction { target, contents } => fits_in(target.as_str())
            && fits_in(contents.as_str()),
        _ => true,
    }
}

/// The payload of a node of the outside tree, put together from its
/// kind and its fields. The arms that hand back a document where the
/// kind says otherwise are never taken.
fn read_data(h: &Rc<RcNode>) -> (d: NodeData)
    ensures
        d@ == rc_tree(**h).data,
{
    let kind = rc_kind(h);
    let mut texts = rc_strings(h);
    let ghost fields = strings_view(texts@);
    let ghost data = held(h).data;
    assert(data.kind() == kind);
    assert(fields.len() == texts@.len());
    match kind {
        NodeKind::Document => NodeData::Document,
        NodeKind::DocumentFragment => NodeData::DocumentFragment,
        NodeKind::Element => {
            let attrs = rc_attrs(h);
            match rc_name(h) {
                Some(qname) => NodeData::Element {
                    qname,
                    attrs,
                    mathml_integration_point: rc_flag(h),
                },
                None => NodeData::Document,
            }
        },
        NodeKind::Text => {
            assert(data is Text);
            assert(fields.len() == 1);
            assert(fields[0] == texts@[0]@);
            match texts.pop() {
                Some(contents) => NodeData::Text { contents },
                None => NodeData::Document,
            }
        },
        NodeKind::Comment => {
            assert(data is Comment);
            assert(fields.len() == 1);
            assert(fields[0] == texts@[0]@);
            match texts.pop() {
                Some(contents) => NodeData::Comment { contents },
                None => NodeData::Document,
            }
        },
        NodeKind::ProcessingInstruction => {
            assert(data is ProcessingInstruction);
            assert(fields.len() == 2);
            assert(fields[0] == texts@[0]@);
            assert(fields[1] == texts@[1]@);
            let second = texts.pop();
            let first = texts.pop();
            match (first, second) {
                (Some(target), Some(contents)) => NodeData::ProcessingInstruction {
                    target,
                    contents,
                },
                _ => NodeData::Document,
            }
        },
        NodeKind::Doctype => {
            assert(data is Doctype);
            assert(fields.len() == 3);
            assert(fields[0] == texts@[0]@);
            assert(fields[1] == texts@[1]@);
            assert(fields[2] == texts@[2]@);
            let third = texts.pop();
            let second = texts.pop();
            let first = texts.pop();
            match (first, second, third) {
                (Some(name), Some(public_id), Some(system_id)) => NodeData::Doctype {
                    name,
                    public_id,
                    system_id,
                },
                _ => NodeData::Document,
            }
        },
    }
}

/// A node of the arena that is being filled from a node of the outside
/// form: `kids` are the children there, and those before `index` have
/// their copies here.
struct Reading {
    node: NodeRepr,
    kids: Vec<Rc<RcNode>>,
    index: usize,
}

/// What a stack of readings says of the filling of the arena.
spec fn reading_view(stack: Seq<Reading>) -> Seq<Filling> {
    Seq::new(
        stack.len(),
        |i: int| Filling { node: stack[i].node, index: stack[i].index, trees: rc_trees(stack[i].kids@) },
    )
}

/// Template contents of the outside form that wait to be copied, and
/// the element of the arena that they belong to.
struct Awaited {
    owner: NodeRepr,
    contents: Rc<RcNode>,
}

/// Every entry from `from` on waits for an element that the arena
/// `v` holds and `old` did not.
spec fn awaited_ok(old: DomView, v: DomView, pending: Seq<Awaited>, from: int) -> bool {
    forall|i: int|
        from <= i < pending.len() ==> v.has((#[trigger] pending[i]).owner) && !old.has(
            pending[i].owner,
        ) && v.kind(pending[i].owner) is Element
}

/// Everything that waits to be copied is finite.
spec fn awaited_finite(pending: Seq<Awaited>) -> bool {
    forall|i: int| 0 <= i < pending.len() ==> rc_finite(*(#[trigger] pending[i]).contents)
}

/// Everything that waits to be read is finite.
spec fn reading_finite(stack: Seq<Reading>) -> bool {
    forall|i: int| 0 <= i < stack.len() ==> all_finite((#[trigger] stack[i]).kids@)
}

/// A node whose tree is being built in the outside form: the children
/// up to `index` are built or in the making, and `built` holds those
/// that are done.
struct Building {
    node: NodeRepr,
    index: usize,
    built: Vec<Rc<RcNode>>,
}

/// Where the walk stands: the nodes in the making and the positions
/// reached among their children.
spec fn walk_of(stack: Seq<Building>) -> Seq<(NodeRepr, usize)> {
    Seq::new(stack.len(), |i: int| (stack[i].node, stack[i].index))
}

/// Whether entry `i` waits for the child that the entry after it builds.
spec fn builds_below(v: DomView, stack: Seq<Building>, i: int) -> bool {
    stack[i].index > 0 && stack[i + 1].node == v.children(stack[i].node)[stack[i].index - 1]
        && stack[i].built.len() == stack[i].index - 1
}

/// The stack of a walk that builds the tree of `n` is in order: every
/// entry but the last waits for the child that the next entry builds,
/// and what is built are the trees of the children, in order, each of
/// them writable. If the tree of `n` is writable, so is the tree of
/// every node on the stack.
spec fn building_ok(v: DomView, n: NodeRepr, stack: Seq<Building>) -> bool {
    &&& stack.len() > 0
    &&& stack[0].node == n
    &&& forall|i: int|
        0 <= i < stack.len() ==> v.has((#[trigger] stack[i]).node) && stack[i].index <= v.children(
            stack[i].node,
        ).len()
    &&& forall|i: int| 0 <= i < stack.len() - 1 ==> #[trigger] builds_below(v, stack, i)
    &&& stack[stack.len() - 1].built.len() == stack[stack.len() - 1].index
    &&& forall|i: int, j: int|
        0 <= i < stack.len() && 0 <= j < stack[i].built.len() ==> rc_tree(
            *#[trigger] stack[i].built[j],
        ) == v.tree(v.children(stack[i].node)[j]) && writable(
            v.tree(v.children(stack[i].node)[j]),
        ) && rc_finite(*stack[i].built[j])
    &&& writable(v.tree(n)) ==> forall|i: int|
        0 <= i < stack.len() ==> writable(v.tree((#[trigger] stack[i]).node))
}

/// A step down: the walk goes on to the next child of the node that it
/// is at.
proof fn lemma_building_descends(v: DomView, n: NodeRepr, before: Seq<Building>, after: Seq<Building>)
    requires
        v.wf(),
        building_ok(v, n, before),
        before.last().index < v.children(before.last().node).len(),
        after.len() == before.len() + 1,
        forall|i: int| 0 <= i < before.len() - 1 ==> after[i] == before[i],
        after[before.len() - 1].node == before.last().node,
        after[before.len() - 1].index == before.last().index + 1,
        after[before.len() - 1].built == before.last().built,
        after.last().node == v.children(before.last().node)[before.last().index as int],
        after.last().index == 0,
        after.last().built.len() == 0,
    ensures
        building_ok(v, n, after),
        work_left(v, walk_of(after)) < work_left(v, walk_of(before)),
{
    let top = before.len() - 1;
    let m = before[top].node;
    let k = before[top].index;
    let c = v.children(m)[k as int];
    let walk = walk_of(before);
    let next = walk_of(after);
    v.lemma_child_is_lower(m, k as int);
    let mid = walk.drop_last().push((m, (k + 1) as usize));
    assert(walk.last() == (m, k));
    assert(next =~= mid.push((c, 0usize)));
    assert(next.drop_last() =~= mid);
    assert(mid.drop_last() =~= walk.drop_last());
    let below = v.descendants_from(c, 0);
    let rest = v.descendants_from(m, k + 1);
    assert(v.descendants_from(m, k as int) == seq![c] + below + rest);
    assert((seq![c] + below + rest).len() == 1 + below.len() + rest.len());
    assert(work_left(v, mid) == 2 * rest.len() + 1 + work_left(v, walk.drop_last()));
    assert(work_left(v, next) == 2 * below.len() + 1 + work_left(v, mid));
    assert(work_left(v, walk) == 2 * (seq![c] + below + rest).len() + 1 + work_left(
        v,
        walk.drop_last(),
    ));
    assert forall|i: int| 0 <= i < after.len() implies v.has((#[trigger] after[i]).node)
        && after[i].index <= v.children(after[i].node).len() by {
        if i < top {
            assert(after[i] == before[i]);
        }
    }
    assert forall|i: int| 0 <= i < after.len() - 1 implies #[trigger] builds_below(v, after, i) by {
        if i < top {
            assert(builds_below(v, before, i));
            assert(after[i] == before[i]);
            if i + 1 < top {
                assert(after[i + 1] == before[i + 1]);
            }
        }
    }
    assert forall|i: int, j: int|
        0 <= i < after.len() && 0 <= j < after[i].built.len() implies rc_tree(
        *#[trigger] after[i].built[j],
    ) == v.tree(v.children(after[i].node)[j]) && writable(
        v.tree(v.children(after[i].node)[j]),
    ) && rc_finite(*after[i].built[j]) by {
        if i < top {
            assert(after[i] == before[i]);
        } else if i == top {
            assert(after[i].built[j] == before[i].built[j]);
        }
    }
    if top > 0 {
        assert(after[0] == before[0]);
    }
    if writable(v.tree(n)) {
        assert forall|i: int| 0 <= i < after.len() implies writable(
            v.tree((#[trigger] after[i]).node),
        ) by {
            if i < top {
                assert(after[i] == before[i]);
            } else if i == top {
                assert(after[i].node == before[top].node);
            } else {
                v.lemma_ranked();
                v.lemma_tree_children(m);
                assert(writable(v.tree(m)));
                assert(v.tree(m).children[k as int] == v.tree(c));
            }
        }
    }
}

/// At the end of the children of a node, what is built are the trees of
/// all its children.
proof fn lemma_building_done(v: DomView, n: NodeRepr, before: Seq<Building>)
    requires
        v.wf(),
        building_ok(v, n, before),
        before.last().index >= v.children(before.last().node).len(),
    ensures
        rc_trees(before.last().built@) == v.tree(before.last().node).children,
        before.len() > 1 ==> as_outside(v.tree(before.last().node)) == v.tree(before.last().node),
        before.len() == 1 ==> before.last().node == n,
        writable(v.tree(before.last().node)) <==> payload_fits(v.data(before.last().node)),
        all_finite(before.last().built@),
        !writable(v.tree(before.last().node)) ==> !writable(v.tree(n)),
{
    let top = before.len() - 1;
    let m = before[top].node;
    let built = before[top].built;
    v.lemma_ranked();
    v.lemma_tree_children(m);
    assert forall|j: int| 0 <= j < built.len() implies rc_trees(built@)[j] == v.tree(m).children[j]
        && writable(#[trigger] v.tree(m).children[j]) by {
        assert(rc_tree(*before[top].built[j]) == v.tree(v.children(m)[j]));
    }
    assert(rc_trees(built@) =~= v.tree(m).children);
    assert forall|j: int| 0 <= j < built.len() implies rc_finite(*#[trigger] built@[j]) by {
        assert(rc_finite(*before[top].built[j]));
    }
    assert(v.tree(m).data == v.data(m));
    assert(before[top].node == m);
    if top > 0 {
        let up = before[top - 1];
        assert(builds_below(v, before, top - 1));
        assert(v.children(up.node)[up.index - 1] == m);
        assert(v.parent(m) == Some(up.node));
        assert(v.kind(m).may_be_child());
        assert(v.tree(m).data == v.data(m));
    }
}

/// A step up: the tree of a node is done and goes to what is built for
/// its parent.
proof fn lemma_building_ascends(
    v: DomView,
    n: NodeRepr,
    before: Seq<Building>,
    after: Seq<Building>,
    h: Rc<RcNode>,
)
    requires
        v.wf(),
        building_ok(v, n, before),
        before.len() > 1,
        before.last().index >= v.children(before.last().node).len(),
        rc_tree(*h) == v.tree(before.last().node),
        rc_finite(*h),
        writable(v.tree(before.last().node)),
        after.len() == before.len() - 1,
        forall|i: int| 0 <= i < after.len() - 1 ==> after[i] == before[i],
        after.last().node == before[before.len() - 2].node,
        after.last().index == before[before.len() - 2].index,
        after.last().built@ == before[before.len() - 2].built@.push(h),
    ensures
        building_ok(v, n, after),
        work_left(v, walk_of(after)) < work_left(v, walk_of(before)),
{
    let top = before.len() - 1;
    let above = top - 1;
    let m = before[top].node;
    let k = before[top].index;
    let walk = walk_of(before);
    let next = walk_of(after);
    assert(walk.last() == (m, k));
    assert(next =~= walk.drop_last());
    assert(v.descendants_from(m, k as int) =~= Seq::<NodeRepr>::empty());
    assert(work_left(v, walk) == 1 + work_left(v, walk.drop_last()));
    assert forall|i: int| 0 <= i < after.len() implies v.has((#[trigger] after[i]).node)
        && after[i].index <= v.children(after[i].node).len() by {
        if i < above {
            assert(after[i] == before[i]);
        }
    }
    assert(builds_below(v, before, above));
    assert forall|i: int| 0 <= i < after.len() - 1 implies #[trigger] builds_below(v, after, i) by {
        assert(builds_below(v, before, i));
        assert(after[i] == before[i]);
        if i + 1 < above {
            assert(after[i + 1] == before[i + 1]);
        }
    }
    assert forall|i: int, j: int|
        0 <= i < after.len() && 0 <= j < after[i].built.len() implies rc_tree(
        *#[trigger] after[i].built[j],
    ) == v.tree(v.children(after[i].node)[j]) && writable(
        v.tree(v.children(after[i].node)[j]),
    ) && rc_finite(*after[i].built[j]) by {
        if i < above {
            assert(after[i] == before[i]);
            assert(rc_tree(*before[i].built[j]) == v.tree(v.children(before[i].node)[j]));
        } else if j < before[above].built.len() {
            assert(i == above);
            assert(after[i].node == before[above].node);
            assert(after[i].built@[j] == before[above].built@[j]);
            assert(rc_tree(*before[above].built[j]) == v.tree(v.children(before[above].node)[j]));
        } else {
            assert(i == above);
            assert(after[i].node == before[above].node);
            assert(builds_below(v, before, above));
            assert(v.has(before[above].node) && before[above].index <= v.children(
                before[above].node,
            ).len());
            assert(after[i].built@.len() == before[above].built@.len() + 1);
            assert(j == before[above].index - 1);
            assert(after[i].built@[j] == h);
            assert(v.children(before[above].node)[before[above].index - 1] == m);
        }
    }
    if above > 0 {
        assert(after[0] == before[0]);
    }
    if writable(v.tree(n)) {
        assert forall|i: int| 0 <= i < after.len() implies writable(
            v.tree((#[trigger] after[i]).node),
        ) by {
            if i < above {
                assert(after[i] == before[i]);
            } else {
                assert(writable(v.tree(before[above].node)));
            }
        }
    }
}

impl DomView {
    /// The tree below a node of a well-formed arena holds no document,
    /// and no fragment that `html5ever` would not know.
    pub proof fn lemma_tree_is_admissible(self, n: NodeRepr)
        requires
            self.wf(),
            self.has(n),
        ensures
            admissible(self.tree(n)),
            no_document_below(self.tree(n)),
            no_document_below(as_outside(self.tree(n))),
        decreases self.down(n),
    {
        self.lemma_ranked();
        self.lemma_tree_children(n);
        let t = self.tree(n);
        assert forall|i: int| 0 <= i < t.children.len() implies (#[trigger] t.children[i]).data.kind().may_be_child()
            && admissible(t.children[i]) && !(t.children[i].data is Document) && no_document_below(
            t.children[i],
        ) by {
            let c = self.children(n)[i];
            self.lemma_child_is_lower(n, i);
            self.lemma_tree_is_admissible(c);
            assert(t.children[i] == self.tree(c));
            assert(self.parent(c) is Some);
            assert(self.kind(c).may_be_child());
        }
        assert(self.children(n).len() > 0 ==> self.kind(n).is_container());
    }
}

impl Dom {
    /// Copies a tree of `markup5ever_rcdom` into the arena, as a tree of
    /// its own. A tree that the arena cannot hold is refused; nodes made
    /// before that was found are left behind, apart from what was there.
    /// The template contents met on the way are put on `pending`, each
    /// with the new element that it belongs to.
    fn import_tree(&mut self, h: &Rc<RcNode>, pending: &mut Vec<Awaited>) -> (res: Result<
        NodeRepr,
        DomError,
    >)
        requires
            old(self).wf(),
            rc_finite(**h),
            awaited_finite(old(pending)@),
        ensures
            final(self).wf(),
            final(self)@.extends(old(self)@),
            final(self)@.new_nodes_are_bare(old(self)@),
            awaited_finite(final(pending)@),
            final(pending)@.len() >= old(pending)@.len(),
            final(pending)@.take(old(pending)@.len() as int) == old(pending)@,
            awaited_ok(old(self)@, final(self)@, final(pending)@, old(pending)@.len() as int),
            final(pending)@.len() - old(pending)@.len() <= final(self)@.nodes.len() - old(
                self,
            )@.nodes.len(),
            res is Ok <==> admissible(held(h)),
            res is Err ==> res == Err::<NodeRepr, DomError>(DomError::Internal),
            res is Ok ==> {
                &&& !old(self)@.has(res->Ok_0)
                &&& final(self)@.has(res->Ok_0)
                &&& final(self)@.parent(res->Ok_0) is None
                &&& final(self)@.tree(res->Ok_0) == held(h)
            },
    {
        let ghost v0 = self@;
        let ghost t = held(h);
        let data = read_data(h);
        let kids = rc_children(h);
        assert(kids@.len() == t.children.len()) by {
            assert(rc_trees(kids@).len() == kids@.len());
        }
        if kids.len() > 0 && !data.kind().can_have_children() {
            return Err(DomError::Internal);
        }
        assert(pending@.take(pending@.len() as int) =~= pending@);
        let root = self.create(data);
        match rc_template(h) {
            Some(contents) => {
                pending.push(Awaited { owner: root, contents });
            },
            None => {},
        }
        let ghost mut source: Map<NodeRepr, DomTree> = Map::empty().insert(root, t);
        let mut stack: Vec<Reading> = Vec::new();
        stack.push(Reading { node: root, kids, index: 0 });
        proof {
            lemma_filling_starts(v0, self@, root, t, reading_view(stack@));
            assert(pending@.take(old(pending)@.len() as int) =~= old(pending)@);
        }
        while stack.len() > 0
            invariant
                v0 == old(self)@,
                t == held(h),
                filling_ok(v0, self@, root, t, source, reading_view(stack@)),
                self.wf(),
                v0.nodes.len() <= self@.nodes.len(),
                pending@.len() >= old(pending)@.len(),
                pending@.take(old(pending)@.len() as int) == old(pending)@,
                awaited_ok(v0, self@, pending@, old(pending)@.len() as int),
                pending@.len() - old(pending)@.len() <= self@.nodes.len() - v0.nodes.len(),
                awaited_finite(pending@),
                reading_finite(stack@),
                self@.new_nodes_are_bare(v0),
            decreases usize::MAX - self@.nodes.len(), stack.len(),
        {
            let ghost before = stack@;
            let ghost state = self@;
            let top = stack.len() - 1;
            let k = stack[top].index;
            let n = stack[top].node;
            proof {
                assert(reading_view(before).last() == reading_view(before)[top as int]);
                assert(rc_trees(before[top as int].kids@).len() == before[top as int].kids@.len());
            }
            if k >= stack[top].kids.len() {
                stack.pop();
                proof {
                    assert forall|i: int| 0 <= i < stack@.len() implies all_finite(
                        (#[trigger] stack@[i]).kids@,
                    ) by {
                        assert(stack@[i] == before[i]);
                    }
                    assert(reading_view(stack@) =~= reading_view(before).drop_last());
                    lemma_filling_ascends(
                        v0,
                        state,
                        root,
                        t,
                        source,
                        reading_view(before),
                        reading_view(stack@),
                    );
                }
            } else {
                let kid = &stack[top].kids[k];
                let ghost kid_tree = held(kid);
                assert(all_finite(before[top as int].kids@));
                let child_data = read_data(kid);
                let child_kind = child_data.kind();
                let grandkids = rc_children(kid);
                proof {
                    assert(rc_trees(before[top as int].kids@)[k as int] == kid_tree);
                    assert(rc_trees(grandkids@).len() == grandkids@.len());
                    lemma_filling_checks(v0, state, root, t, source, reading_view(before));
                }
                if child_kind == NodeKind::Document || child_kind == NodeKind::DocumentFragment {
                    return Err(DomError::Internal);
                }
                if grandkids.len() > 0 && !child_kind.can_have_children() {
                    return Err(DomError::Internal);
                }
                let c = self.create(child_data);
                let ghost waiting = pending@;
                match rc_template(kid) {
                    Some(contents) => {
                        pending.push(Awaited { owner: c, contents });
                    },
                    None => {},
                }
                proof {
                    assert(pending@.take(old(pending)@.len() as int) =~= waiting.take(
                        old(pending)@.len() as int,
                    ));
                    assert forall|i: int|
                        old(pending)@.len() <= i < pending@.len() implies self@.has(
                        (#[trigger] pending@[i]).owner,
                    ) && !v0.has(pending@[i].owner) && self@.kind(pending@[i].owner) is Element by {
                        if i < waiting.len() {
                            assert(pending@[i] == waiting[i]);
                            assert(state.has(waiting[i].owner));
                            assert(self@.node(waiting[i].owner) == state.node(waiting[i].owner));
                        }
                    }
                    assert forall|i: int| 0 <= i < pending@.len() implies rc_finite(
                        *(#[trigger] pending@[i]).contents,
                    ) by {
                        if i < waiting.len() {
                            assert(pending@[i] == waiting[i]);
                        }
                    }
                }
                let ghost made = self@;
                proof {
                    self@.lemma_ranked();
                    assert(!self@.is_ancestor_or_self(c, n)) by {
                        if self@.is_ancestor_or_self(c, n) {
                            crate::chardata::lemma_leaf_above(self@, c, n);
                        }
                    }
                    assert(self@.node(n) == state.node(n));
                }
                self.insert(n, k, c);
                stack[top].index = k + 1;
                stack.push(Reading { node: c, kids: grandkids, index: 0 });
                proof {
                    made.lemma_insert(n, k as int, c);
                    assert forall|x: NodeRepr| self@.has(x) && !v0.has(x) implies (
                    #[trigger] self@.template_contents(x)) is None by {
                        assert(made.has(x));
                        assert(self@.template_contents(x) == made.template_contents(x));
                        if x != c {
                            assert(state.has(x));
                            assert(made.node(x) == state.node(x));
                            assert(state.template_contents(x) is None);
                        }
                    }
                    assert forall|i: int| 0 <= i < stack@.len() implies all_finite(
                        (#[trigger] stack@[i]).kids@,
                    ) by {
                        if i < top {
                            assert(stack@[i] == before[i]);
                        } else if i == top {
                            assert(stack@[i].kids == before[i].kids);
                        }
                    }
                    assert forall|i: int|
                        old(pending)@.len() <= i < pending@.len() implies self@.has(
                        (#[trigger] pending@[i]).owner,
                    ) && !v0.has(pending@[i].owner) && self@.kind(pending@[i].owner) is Element by {
                        assert(made.has(pending@[i].owner));
                        assert(self@.data(pending@[i].owner) == made.data(pending@[i].owner));
                    }
                    let grown = source.insert(c, kid_tree);
                    let was = reading_view(before);
                    let now = reading_view(stack@);
                    assert forall|i: int| 0 <= i < was.len() - 1 implies now[i] == was[i] by {
                        assert(stack@[i] == before[i]);
                    }
                    assert(stack@[top as int].kids == before[top as int].kids);
                    lemma_filling_descends(
                        v0,
                        state,
                        self@,
                        root,
                        t,
                        source,
                        grown,
                        was,
                        now,
                        kid_tree,
                    );
                    source = grown;
                }
            }
        }
        proof {
            lemma_filling_ends(v0, self@, root, t, source, reading_view(stack@), root);
        }
        Ok(root)
    }

    /// Parses a text with `html5ever` and copies the document that it
    /// builds into the arena, as a tree of its own. A text that is too
    /// long, or whose tree the arena cannot hold, is refused. The
    /// contents of each `template` element, which the parser keeps apart
    /// from the tree, are copied as trees of their own and become the
    /// template contents of the copy of that element; contents that the
    /// arena cannot hold are left out.
    pub(crate) fn parse_tree(&mut self, html: &str) -> (res: Result<NodeRepr, DomError>)
        requires
            old(self).wf(),
        ensures
            final(self).wf(),
            final(self)@.extends(old(self)@),
            res is Ok <==> readable(html@),
            res is Err ==> res == Err::<NodeRepr, DomError>(DomError::Internal),
            res is Ok ==> {
                &&& !old(self)@.has(res->Ok_0)
                &&& final(self)@.has(res->Ok_0)
                &&& final(self)@.parent(res->Ok_0) is None
                &&& final(self)@.tree(res->Ok_0) == parsed_document(html@)
                &&& final(self)@.kind(res->Ok_0) is Document
            },
            final(self)@.new_contents_stand_alone(old(self)@),
    {
        if html.unicode_len() > TEXT_LIMIT {
            return Err(DomError::Internal);
        }
        let ghost v0 = self@;
        let h = rc_parse(html);
        let mut pending: Vec<Awaited> = Vec::new();
        let root = match self.import_tree(&h, &mut pending) {
            Ok(root) => root,
            Err(e) => {
                return Err(e);
            },
        };
        while pending.len() > 0
            invariant
                self.wf(),
                self@.extends(v0),
                self@.has(root),
                !v0.has(root),
                self@.parent(root) is None,
                self@.tree(root) == parsed_document(html@),
                parsed_document(html@).data is Document,
                self@.new_contents_stand_alone(v0),
                awaited_ok(v0, self@, pending@, 0),
                awaited_finite(pending@),
            decreases usize::MAX - self@.nodes.len(), pending.len(),
        {
            let ghost before = self@;
            let ghost waiting = pending@;
            let item = match pending.pop() {
                Some(item) => item,
                None => {
                    return Ok(root);
                },
            };
            let ghost rest = pending@;
            proof {
                assert forall|i: int| 0 <= i < rest.len() implies rc_finite(
                    *(#[trigger] rest[i]).contents,
                ) by {
                    assert(rest[i] == waiting[i]);
                }
            }
            let copied = self.import_tree(&item.contents, &mut pending);
            let ghost mid = self@;
            proof {
                assert forall|x: NodeRepr|
                    mid.has(x) && !v0.has(x) && (#[trigger] mid.template_contents(x)) is Some implies mid.has(
                    mid.template_contents(x)->0,
                ) && !v0.has(mid.template_contents(x)->0) && mid.parent(
                    mid.template_contents(x)->0,
                ) is None by {
                    if before.has(x) {
                        assert(mid.node(x) == before.node(x));
                        let c = before.template_contents(x)->0;
                        assert(before.has(c));
                        assert(mid.node(c) == before.node(c));
                    }
                }
                assert(waiting[waiting.len() - 1] == item);
                mid.lemma_extends_keeps_tree(before, root);
                assert(mid.node(root) == before.node(root));
                assert(mid.node(item.owner) == before.node(item.owner));
                assert forall|i: int| 0 <= i < pending@.len() implies mid.has(
                    (#[trigger] pending@[i]).owner,
                ) && !v0.has(pending@[i].owner) && mid.kind(pending@[i].owner) is Element by {
                    if i < rest.len() {
                        assert(pending@.take(rest.len() as int)[i] == rest[i]);
                        assert(rest[i] == waiting[i]);
                        assert(before.has(waiting[i].owner));
                        assert(mid.node(waiting[i].owner) == before.node(waiting[i].owner));
                    } else {
                        assert(!before.has(pending@[i].owner));
                        if v0.has(pending@[i].owner) {
                            assert(pending@[i].owner.0 < v0.nodes.len());
                        }
                    }
                }
            }
            match copied {
                Ok(contents) => {
                    proof {
                        mid.lemma_with_template_contents_keeps_tree(
                            item.owner,
                            Some(contents),
                            root,
                        );
                    }
                    self.set_template_contents(item.owner, Some(contents));
                    proof {
                        assert forall|x: NodeRepr|
                            self@.has(x) && !v0.has(x) && (#[trigger] self@.template_contents(
                                x,
                            )) is Some implies self@.has(self@.template_contents(x)->0) && !v0.has(
                            self@.template_contents(x)->0,
                        ) && self@.parent(self@.template_contents(x)->0) is None by {
                            let now = mid.with_template_contents(item.owner, Some(contents));
                            assert(self@ == now);
                            assert(mid.has(x));
                            if x == item.owner {
                                assert(now.template_contents(x) == Some(contents));
                                assert(!before.has(contents));
                                assert(v0.nodes.len() <= before.nodes.len());
                                assert(now.parent(contents) == mid.parent(contents));
                            } else {
                                assert(now.node(x) == mid.node(x));
                                assert(mid.template_contents(x) is Some);
                                let c = mid.template_contents(x)->0;
                                assert(mid.has(c));
                                assert(now.parent(c) == mid.parent(c));
                            }
                        }
                        assert forall|x: NodeRepr| v0.has(x) implies #[trigger] self@.node(x)
                            == v0.node(x) by {
                            assert(before.node(x) == v0.node(x));
                            assert(mid.node(x) == before.node(x));
                            assert(x != item.owner);
                        }
                        assert forall|i: int| 0 <= i < pending@.len() implies self@.has(
                            (#[trigger] pending@[i]).owner,
                        ) && !v0.has(pending@[i].owner) && self@.kind(pending@[i].owner) is Element by {
                            assert(mid.has(pending@[i].owner));
                            assert(self@.data(pending@[i].owner) == mid.data(pending@[i].owner));
                        }
                    }
                },
                Err(_) => {},
            }
        }
        Ok(root)
    }

    /// The node `m` as a node of `markup5ever_rcdom` above the given
    /// children, unless one of its texts is too long. A fragment stands
    /// as a document.
    fn export_node(&self, m: NodeRepr, built: Vec<Rc<RcNode>>) -> (res: Option<Rc<RcNode>>)
        requires
            self.wf(),
            self@.has(m),
            rc_trees(built@) == self@.tree(m).children,
            all_finite(built@),
        ensures
            res is Some <==> payload_fits(self@.data(m)),
            res is Some ==> rc_tree(*res->0) == as_outside(self@.tree(m)) && rc_finite(*res->0),
    {
        proof {
            self@.lemma_ranked();
            self@.lemma_tree_children(m);
            reveal_strlit("");
        }
        let data = self.data_of(m);
        if !payload_fits_in(data) {
            return None;
        }
        Some(
            match data {
                NodeData::Document => rc_document(built),
                NodeData::DocumentFragment => rc_document(built),
                NodeData::Element { qname, attrs, mathml_integration_point } => rc_element(
                    qname,
                    attrs,
                    *mathml_integration_point,
                    built,
                ),
                NodeData::Text { contents } => rc_leaf(NodeKind::Text, contents.as_str(), "", ""),
                NodeData::Comment { contents } => rc_leaf(
                    NodeKind::Comment,
                    contents.as_str(),
                    "",
                    "",
                ),
                NodeData::ProcessingInstruction { target, contents } => rc_leaf(
                    NodeKind::ProcessingInstruction,
                    target.as_str(),
                    contents.as_str(),
                    "",
                ),
                NodeData::Doctype { name, public_id, system_id } => rc_leaf(
                    NodeKind::Doctype,
                    name.as_str(),
                    public_id.as_str(),
                    system_id.as_str(),
                ),
            },
        )
    }

    /// The tree below and including `n`, as a tree of
    /// `markup5ever_rcdom`, unless a text in it is too long. A fragment
    /// stands as a document.
    fn export_tree(&self, n: NodeRepr) -> (res: Option<Rc<RcNode>>)
        requires
            self.wf(),
            self@.has(n),
        ensures
            res is Some <==> writable(self@.tree(n)),
            res is Some ==> rc_tree(*res->0) == as_outside(self@.tree(n)) && rc_finite(*res->0),
    {
        let mut stack: Vec<Building> = Vec::new();
        stack.push(Building { node: n, index: 0, built: Vec::new() });
        loop
            invariant
                self.wf(),
                building_ok(self@, n, stack@),
            decreases work_left(self@, walk_of(stack@)),
        {
            let ghost before = stack@;
            let top = stack.len() - 1;
            let m = stack[top].node;
            let k = stack[top].index;
            let kids = self.children_of(m);
            if k < kids.len() {
                let c = kids[k];
                stack[top].index = k + 1;
                stack.push(Building { node: c, index: 0, built: Vec::new() });
                proof {
                    lemma_building_descends(self@, n, before, stack@);
                }
            } else {
                let done = stack.pop();
                let built = match done {
                    Some(frame) => frame.built,
                    None => Vec::new(),
                };
                proof {
                    lemma_building_done(self@, n, before);
                    assert(built@ == before[top as int].built@);
                }
                let h = match self.export_node(m, built) {
                    Some(h) => h,
                    None => {
                        return None;
                    },
                };
                if stack.len() == 0 {
                    return Some(h);
                }
                let above = stack.len() - 1;
                stack[above].built.push(h);
                proof {
                    lemma_building_ascends(self@, n, before, stack@, h);
                }
            }
        }
    }

    /// The HTML text of `n`: of a document or a fragment the text of its
    /// children, of any other node the text of the node and what is
    /// below. A tree with a text in it that is too long for the
    /// serializer is refused.
    pub fn outer_html_of(&self, n: NodeRepr) -> (res: Result<String, DomError>)
        requires
            self.wf(),
            self@.has(n),
        ensures
            res is Ok <==> writable(self@.tree(n)),
            res is Ok ==> res->Ok_0@ == outer_html_of(self@.tree(n)),
            res is Err ==> res->Err_0 == DomError::Internal,
    {
        let h = match self.export_tree(n) {
            Some(h) => h,
            None => {
                return Err(DomError::Internal);
            },
        };
        proof {
            self@.lemma_tree_is_admissible(n);
        }
        let root_only = match self.kind_of(n) {
            NodeKind::Document => true,
            NodeKind::DocumentFragment => true,
            _ => false,
        };
        Ok(rc_serialize(&h, root_only))
    }

    /// The HTML text of what is below `n`. A tree with a text in it that
    /// is too long for the serializer is refused.
    pub fn inner_html_of(&self, n: NodeRepr) -> (res: Result<String, DomError>)
        requires
            self.wf(),
            self@.has(n),
        ensures
            res is Ok <==> writable(self@.tree(n)),
            res is Ok ==> res->Ok_0@ == inner_html_of(self@.tree(n)),
            res is Err ==> res->Err_0 == DomError::Internal,
    {
        let h = match self.export_tree(n) {
            Some(h) => h,
            None => {
                return Err(DomError::Internal);
            },
        };
        proof {
            self@.lemma_tree_is_admissible(n);
        }
        Ok(rc_serialize(&h, true))
    }
}

impl NodeRepr {
    /// The HTML text of this node and what is below it.
    pub fn outer_html(&self, dom: &Dom) -> (res: Result<String, DomError>)
        requires
            dom.wf(),
            dom@.has(*self),
        ensures
            res is Ok <==> writable(dom@.tree(*self)),
            res is Ok ==> res->Ok_0@ == outer_html_of(dom@.tree(*self)),
            res is Err ==> res->Err_0 == DomError::Internal,
    {
        dom.outer_html_of(*self)
    }

    /// The HTML text of what is below this node.
    pub fn inner_html(&self, dom: &Dom) -> (res: Result<String, DomError>)
        requires
            dom.wf(),
            dom@.has(*self),
        ensures
            res is Ok <==> writable(dom@.tree(*self)),
            res is Ok ==> res->Ok_0@ == inner_html_of(dom@.tree(*self)),
            res is Err ==> res->Err_0 == DomError::Internal,
    {
        dom.inner_html_of(*self)
    }

    /// The HTML text of this node and what is below it.
    pub fn outer_html_getter(&self, dom: &Dom) -> (res: Result<String, DomError>)
        requires
            dom.wf(),
            dom@.has(*self),
        ensures
            res is Ok <==> writable(dom@.tree(*self)),
            res is Ok ==> res->Ok_0@ == outer_html_of(dom@.tree(*self)),
            res is Err ==> res->Err_0 == DomError::Internal,
    {
        dom.outer_html_of(*self)
    }

    /// The HTML text of what is below this node.
    pub fn inner_html_getter(&self, dom: &Dom) -> (res: Result<String, DomError>)
        requires
            dom.wf(),
            dom@.has(*self),
        ensures
            res is Ok <==> writable(dom@.tree(*self)),
            res is Ok ==> res->Ok_0@ == inner_html_of(dom@.tree(*self)),
            res is Err ==> res->Err_0 == DomError::Internal,
    {
        dom.inner_html_of(*self)
    }

    /// This node as a text: its HTML text.
    pub fn to_string_js(&self, dom: &Dom) -> (res: Result<String, DomError>)
        requires
            dom.wf(),
            dom@.has(*self),
        ensures
            res is Ok <==> writable(dom@.tree(*self)),
            res is Ok ==> res->Ok_0@ == outer_html_of(dom@.tree(*self)),
            res is Err ==> res->Err_0 == DomError::Internal,
    {
        dom.outer_html_of(*self)
    }

    /// Whether both nodes have the same HTML text. Where the text of
    /// either cannot be written, there is no answer.
    pub fn is_equal_node(&self, dom: &Dom, other_node: &NodeRepr) -> (res: Result<bool, DomError>)
        requires
            dom.wf(),
            dom@.has(*self),
            dom@.has(*other_node),
        ensures
            res is Ok <==> writable(dom@.tree(*self)) && writable(dom@.tree(*other_node)),
            res is Ok ==> res->Ok_0 == (outer_html_of(dom@.tree(*self)) == outer_html_of(
                dom@.tree(*other_node),
            )),
            res is Err ==> res->Err_0 == DomError::Internal,
    {
        let a = match dom.outer_html_of(*self) {
            Ok(a) => a,
            Err(e) => {
                return Err(e);
            },
        };
        let b = match dom.outer_html_of(*other_node) {
            Ok(b) => b,
            Err(e) => {
                return Err(e);
            },
        };
        Ok(a == b)
    }
}

} // verus!
