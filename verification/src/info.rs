//! What a node is: its type code, its names and its identifiers.

use vstd::prelude::*;
use vstd::string::StringExecFns;
use crate::node::NodeKind;
use crate::node::NodeData;
use crate::node::NodeDataView;
use crate::node::QualNameView;
use crate::node::opt_view;
use crate::model::NodeRepr;
use crate::model::DomView;
use crate::dom::Dom;
use crate::text::chars_of;
use crate::text::string_of;
use crate::text::upper;
use crate::text::to_upper;
use crate::text::extend_chars;
use crate::text::same_text;
use crate::attrs::written_name;

verus! {

/// The type code of a node kind.
pub open spec fn type_code(kind: NodeKind) -> i32 {
    match kind {
        NodeKind::Element => 1,
        NodeKind::Text => 3,
        NodeKind::ProcessingInstruction => 7,
        NodeKind::Comment => 8,
        NodeKind::Document => 9,
        NodeKind::Doctype => 10,
        NodeKind::DocumentFragment => 11,
    }
}

/// The name of a node: of an element its written name in upper case, of
/// a doctype its name, of a processing instruction its target, of every
/// other node a fixed word for its kind.
pub open spec fn node_name_of(d: NodeDataView) -> Seq<char> {
    match d {
        NodeDataView::Element { qname, .. } => upper(written_name(qname)),
        NodeDataView::Text { .. } => "#text"@,
        NodeDataView::Comment { .. } => "#comment"@,
        NodeDataView::Document => "#document"@,
        NodeDataView::DocumentFragment => "#document-fragment"@,
        NodeDataView::Doctype { name, .. } => name,
        NodeDataView::ProcessingInstruction { target, .. } => target,
    }
}

/// The qualified name of an element payload.
pub open spec fn qname_of(d: NodeDataView) -> Option<QualNameView> {
    match d {
        NodeDataView::Element { qname, .. } => Some(qname),
        _ => None,
    }
}

/// The tag name of an element: its written name in upper case.
pub open spec fn tag_name_of(d: NodeDataView) -> Option<Seq<char>> {
    match d {
        NodeDataView::Element { qname, .. } => Some(upper(written_name(qname))),
        _ => None,
    }
}

/// The namespace of an element, unless it is the empty one.
pub open spec fn namespace_of(d: NodeDataView) -> Option<Seq<char>> {
    match d {
        NodeDataView::Element { qname, .. } => if qname.ns.len() > 0 {
            Some(qname.ns)
        } else {
            None
        },
        _ => None,
    }
}

/// The prefix of an element.
pub open spec fn prefix_of(d: NodeDataView) -> Option<Seq<char>> {
    match d {
        NodeDataView::Element { qname, .. } => qname.prefix,
        _ => None,
    }
}

/// The local name of an element.
pub open spec fn local_of(d: NodeDataView) -> Option<Seq<char>> {
    match d {
        NodeDataView::Element { qname, .. } => Some(qname.local),
        _ => None,
    }
}

/// The target of a processing instruction.
pub open spec fn target_of(d: NodeDataView) -> Option<Seq<char>> {
    match d {
        NodeDataView::ProcessingInstruction { target, .. } => Some(target),
        _ => None,
    }
}

/// The name of a doctype.
pub open spec fn doctype_name_of(d: NodeDataView) -> Option<Seq<char>> {
    match d {
        NodeDataView::Doctype { name, .. } => Some(name),
        _ => None,
    }
}

/// The public identifier of a doctype.
pub open spec fn public_id_of(d: NodeDataView) -> Option<Seq<char>> {
    match d {
        NodeDataView::Doctype { public_id, .. } => Some(public_id),
        _ => None,
    }
}

/// The system identifier of a doctype.
pub open spec fn system_id_of(d: NodeDataView) -> Option<Seq<char>> {
    match d {
        NodeDataView::Doctype { system_id, .. } => Some(system_id),
        _ => None,
    }
}

/// A prefix as it counts in a lookup: the empty prefix is no prefix.
pub open spec fn effective(prefix: Option<Seq<char>>) -> Option<Seq<char>> {
    if prefix is Some && prefix->0.len() == 0 {
        None
    } else {
        prefix
    }
}

impl DomView {
    /// Whether the element `n` declares a namespace for `prefix` by its
    /// own name: it has a namespace, and its prefix is `prefix`.
    pub open spec fn binds_prefix(self, n: NodeRepr, prefix: Option<Seq<char>>) -> bool {
        self.is_element(n) && namespace_of(self.data(n)) is Some && effective(
            prefix_of(self.data(n)),
        ) == effective(prefix)
    }

    /// The namespace that stands for `prefix` at `n`: that of the nearest
    /// of `n` and its ancestors that is an element with this prefix and
    /// with a namespace.
    pub open spec fn namespace_for(self, n: NodeRepr, prefix: Option<Seq<char>>) -> Option<Seq<char>>
        decreases self.up(n),
        when self.wf() && self.has(n)
    {
        if self.binds_prefix(n, prefix) {
            namespace_of(self.data(n))
        } else if self.parent(n) is Some {
            self.namespace_for(self.parent(n)->0, prefix)
        } else {
            None
        }
    }

    /// Whether the element `n` gives `namespace` a prefix by its own
    /// name.
    pub open spec fn binds_namespace(self, n: NodeRepr, namespace: Seq<char>) -> bool {
        self.is_element(n) && namespace_of(self.data(n)) == Some(namespace) && effective(
            prefix_of(self.data(n)),
        ) is Some
    }

    /// The prefix that stands for `namespace` at `n`: that of the nearest
    /// of `n` and its ancestors that is an element in this namespace and
    /// has a prefix.
    pub open spec fn prefix_for(self, n: NodeRepr, namespace: Seq<char>) -> Option<Seq<char>>
        decreases self.up(n),
        when self.wf() && self.has(n)
    {
        if self.binds_namespace(n, namespace) {
            prefix_of(self.data(n))
        } else if self.parent(n) is Some {
            self.prefix_for(self.parent(n)->0, namespace)
        } else {
            None
        }
    }
}

/// The view of an optional argument, the empty text counted as none.
pub open spec fn effective_arg(arg: Option<String>) -> Option<Seq<char>> {
    effective(opt_view(arg))
}

impl Dom {
    /// The written name of the element `n`: prefix, colon and local name,
    /// or the local name alone where there is no prefix.
    fn written_name_of(&self, n: NodeRepr) -> (res: Option<String>)
        requires
            self@.has(n),
        ensures
            res is Some <==> self@.is_element(n),
            res is Some ==> res->0@ == written_name(qname_of(self@.data(n))->0),
    {
        match self.data_of(n) {
            NodeData::Element { qname, .. } => {
                match &qname.prefix {
                    Some(p) => {
                        let pc = chars_of(p.as_str());
                        if pc.len() > 0 {
                            let mut full = pc;
                            full.push(':');
                            let local = chars_of(qname.local.as_str());
                            extend_chars(&mut full, &local);
                            assert(full@ =~= p@ + seq![':'] + qname.local@);
                            Some(string_of(&full))
                        } else {
                            Some(qname.local.clone())
                        }
                    },
                    None => Some(qname.local.clone()),
                }
            },
            _ => None,
        }
    }
}

impl NodeRepr {
    /// The type code of this node.
    pub fn node_type(&self, dom: &Dom) -> (res: i32)
        requires
            dom@.has(*self),
        ensures
            res == type_code(dom@.kind(*self)),
    {
        match dom.kind_of(*self) {
            NodeKind::Element => 1,
            NodeKind::Text => 3,
            NodeKind::ProcessingInstruction => 7,
            NodeKind::Comment => 8,
            NodeKind::Document => 9,
            NodeKind::Doctype => 10,
            NodeKind::DocumentFragment => 11,
        }
    }

    /// The name of this node.
    pub fn node_name(&self, dom: &Dom) -> (res: String)
        requires
            dom@.has(*self),
        ensures
            res@ == node_name_of(dom@.data(*self)),
    {
        match dom.data_of(*self) {
            NodeData::Element { .. } => {
                match dom.written_name_of(*self) {
                    Some(w) => to_upper(w.as_str()),
                    None => String::new(),
                }
            },
            NodeData::Text { .. } => String::from_str("#text"),
            NodeData::Comment { .. } => String::from_str("#comment"),
            NodeData::Document => String::from_str("#document"),
            NodeData::DocumentFragment => String::from_str("#document-fragment"),
            NodeData::Doctype { name, .. } => name.clone(),
            NodeData::ProcessingInstruction { target, .. } => target.clone(),
        }
    }

    /// The tag name of this element.
    pub fn tag_name(&self, dom: &Dom) -> (res: Option<String>)
        requires
            dom@.has(*self),
        ensures
            opt_view(res) == tag_name_of(dom@.data(*self)),
    {
        match dom.written_name_of(*self) {
            Some(w) => Some(to_upper(w.as_str())),
            None => None,
        }
    }

    /// The namespace of this element, unless it is the empty one.
    pub fn namespace_uri(&self, dom: &Dom) -> (res: Option<String>)
        requires
            dom@.has(*self),
        ensures
            opt_view(res) == namespace_of(dom@.data(*self)),
    {
        match dom.data_of(*self) {
            NodeData::Element { qname, .. } => {
                if qname.ns.as_str().unicode_len() > 0 {
                    Some(qname.ns.clone())
                } else {
                    None
                }
            },
            _ => None,
        }
    }

    /// The prefix of this element.
    pub fn prefix(&self, dom: &Dom) -> (res: Option<String>)
        requires
            dom@.has(*self),
        ensures
            opt_view(res) == prefix_of(dom@.data(*self)),
    {
        match dom.data_of(*self) {
            NodeData::Element { qname, .. } => {
                match &qname.prefix {
                    Some(p) => Some(p.clone()),
                    None => None,
                }
            },
            _ => None,
        }
    }

    /// The local name of this element.
    pub fn local_name(&self, dom: &Dom) -> (res: Option<String>)
        requires
            dom@.has(*self),
        ensures
            opt_view(res) == local_of(dom@.data(*self)),
    {
        match dom.data_of(*self) {
            NodeData::Element { qname, .. } => Some(qname.local.clone()),
            _ => None,
        }
    }

    /// The target of this processing instruction.
    pub fn target(&self, dom: &Dom) -> (res: Option<String>)
        requires
            dom@.has(*self),
        ensures
            opt_view(res) == target_of(dom@.data(*self)),
    {
        match dom.data_of(*self) {
            NodeData::ProcessingInstruction { target, .. } => Some(target.clone()),
            _ => None,
        }
    }

    /// The name of this doctype.
    pub fn name(&self, dom: &Dom) -> (res: Option<String>)
        requires
            dom@.has(*self),
        ensures
            opt_view(res) == doctype_name_of(dom@.data(*self)),
    {
        match dom.data_of(*self) {
            NodeData::Doctype { name, .. } => Some(name.clone()),
            _ => None,
        }
    }

    /// The public identifier of this doctype.
    pub fn public_id(&self, dom: &Dom) -> (res: Option<String>)
        requires
            dom@.has(*self),
        ensures
            opt_view(res) == public_id_of(dom@.data(*self)),
    {
        match dom.data_of(*self) {
            NodeData::Doctype { public_id, .. } => Some(public_id.clone()),
            _ => None,
        }
    }

    /// The system identifier of this doctype.
    pub fn system_id(&self, dom: &Dom) -> (res: Option<String>)
        requires
            dom@.has(*self),
        ensures
            opt_view(res) == system_id_of(dom@.data(*self)),
    {
        match dom.data_of(*self) {
            NodeData::Doctype { system_id, .. } => Some(system_id.clone()),
            _ => None,
        }
    }

    /// The namespace that stands for `prefix` here: that of the nearest
    /// of this node and its ancestors that is an element with this
    /// prefix and with a namespace. The empty prefix counts as none.
    pub fn lookup_namespace_uri(&self, dom: &Dom, prefix: Option<String>) -> (res: Option<String>)
        requires
            dom.wf(),
            dom@.has(*self),
        ensures
            opt_view(res) == dom@.namespace_for(*self, effective_arg(prefix)),
    {
        let wanted: Option<String> = match prefix {
            Some(p) => if p.as_str().unicode_len() > 0 {
                Some(p)
            } else {
                None
            },
            None => None,
        };
        assert(effective(opt_view(wanted)) == effective_arg(prefix));
        assert(opt_view(wanted) == effective_arg(prefix));
        let mut cur = *self;
        loop
            invariant
                dom.wf(),
                dom@.has(cur),
                opt_view(wanted) == effective_arg(prefix),
                dom@.namespace_for(*self, effective_arg(prefix)) == dom@.namespace_for(
                    cur,
                    effective_arg(prefix),
                ),
            decreases dom@.up(cur),
        {
            proof {
                dom@.lemma_ranked();
            }
            match dom.data_of(cur) {
                NodeData::Element { qname, .. } => {
                    let own: Option<&String> = match &qname.prefix {
                        Some(p) => if p.as_str().unicode_len() > 0 {
                            Some(p)
                        } else {
                            None
                        },
                        None => None,
                    };
                    let same = match (own, &wanted) {
                        (Some(a), Some(b)) => same_text(a.as_str(), b.as_str()),
                        (None, None) => true,
                        _ => false,
                    };
                    if qname.ns.as_str().unicode_len() > 0 && same {
                        return Some(qname.ns.clone());
                    }
                },
                _ => {},
            }
            match dom.parent_of(cur) {
                Some(p) => {
                    cur = p;
                },
                None => {
                    return None;
                },
            }
        }
    }

    /// The prefix that stands for `namespace` here: that of the nearest
    /// of this node and its ancestors that is an element in this
    /// namespace and has a prefix that is not empty.
    pub fn lookup_prefix(&self, dom: &Dom, namespace: String) -> (res: Option<String>)
        requires
            dom.wf(),
            dom@.has(*self),
        ensures
            opt_view(res) == dom@.prefix_for(*self, namespace@),
    {
        let mut cur = *self;
        loop
            invariant
                dom.wf(),
                dom@.has(cur),
                dom@.prefix_for(*self, namespace@) == dom@.prefix_for(cur, namespace@),
            decreases dom@.up(cur),
        {
            proof {
                dom@.lemma_ranked();
            }
            match dom.data_of(cur) {
                NodeData::Element { qname, .. } => {
                    match &qname.prefix {
                        Some(p) => {
                            if p.as_str().unicode_len() > 0 && qname.ns.as_str().unicode_len() > 0
                                && same_text(qname.ns.as_str(), namespace.as_str()) {
                                return Some(p.clone());
                            }
                        },
                        None => {},
                    }
                },
                _ => {},
            }
            match dom.parent_of(cur) {
                Some(p) => {
                    cur = p;
                },
                None => {
                    return None;
                },
            }
        }
    }

    /// Whether `namespace` is what stands for no prefix here. The empty
    /// namespace counts as none.
    pub fn is_default_namespace(&self, dom: &Dom, namespace: Option<String>) -> (res: bool)
        requires
            dom.wf(),
            dom@.has(*self),
        ensures
            res == (dom@.namespace_for(*self, None) == effective_arg(namespace)),
    {
        let found = self.lookup_namespace_uri(dom, None);
        match namespace {
            Some(b) => {
                if b.as_str().unicode_len() == 0 {
                    found.is_none()
                } else {
                    match found {
                        Some(a) => same_text(a.as_str(), b.as_str()),
                        None => false,
                    }
                }
            },
            None => found.is_none(),
        }
    }
}

impl NodeRepr {
    /// The template contents of this node: the node under which a
    /// `template` element keeps what is not part of the tree. Only parsed
    /// `template` elements have any, unless they were given some.
    pub fn template_contents(&self, dom: &Dom) -> (res: Option<NodeRepr>)
        requires
            dom.wf(),
            dom@.has(*self),
        ensures
            res == dom@.template_contents(*self),
            res is Some ==> dom@.has(res->0) && dom@.kind(*self) is Element,
    {
        dom.template_contents_of(*self)
    }
}

} // verus!
