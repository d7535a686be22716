//! Node payloads: the seven node kinds and what each of them carries.

use vstd::prelude::*;

verus! {

/// The kind of a node.
#[derive(Clone, Copy, Debug, PartialEq, Eq, Structural)]
pub enum NodeKind {
    Document,
    Doctype,
    Element,
    Text,
    Comment,
    ProcessingInstruction,
    DocumentFragment,
}

impl NodeKind {
    /// Only documents, elements and fragments may have children.
    pub open spec fn is_container(self) -> bool {
        self is Document || self is Element || self is DocumentFragment
    }

    /// Text, comments and processing instructions carry mutable character data.
    pub open spec fn is_character_data(self) -> bool {
        self is Text || self is Comment || self is ProcessingInstruction
    }

    /// A node of this kind may have a parent.
    pub open spec fn may_be_child(self) -> bool {
        !(self is Document) && !(self is DocumentFragment)
    }

    /// Whether a node of this kind may have children.
    pub fn can_have_children(self) -> (b: bool)
        ensures
            b == self.is_container(),
    {
        match self {
            NodeKind::Document | NodeKind::Element | NodeKind::DocumentFragment => true,
            _ => false,
        }
    }

    /// Whether a node of this kind carries character data.
    pub fn has_character_data(self) -> (b: bool)
        ensures
            b == self.is_character_data(),
    {
        match self {
            NodeKind::Text | NodeKind::Comment | NodeKind::ProcessingInstruction => true,
            _ => false,
        }
    }
}

/// A qualified name: namespace, optional prefix and local name.
/// The empty namespace stands for "no namespace".
pub struct QualName {
    pub ns: String,
    pub prefix: Option<String>,
    pub local: String,
}

/// The mathematical value of a [`QualName`].
pub struct QualNameView {
    pub ns: Seq<char>,
    pub prefix: Option<Seq<char>>,
    pub local: Seq<char>,
}

/// The view of an optional string.
pub open spec fn opt_view(s: Option<String>) -> Option<Seq<char>> {
    match s {
        Some(p) => Some(p@),
        None => None,
    }
}

impl View for QualName {
    type V = QualNameView;

    open spec fn view(&self) -> QualNameView {
        QualNameView { ns: self.ns@, prefix: opt_view(self.prefix), local: self.local@ }
    }
}

impl Clone for QualName {
    fn clone(&self) -> (res: Self)
        ensures
            res@ == self@,
    {
        let prefix = match &self.prefix {
            Some(p) => Some(p.clone()),
            None => None,
        };
        QualName { ns: self.ns.clone(), prefix, local: self.local.clone() }
    }
}

/// One entry of an element's attribute list.
pub struct Attribute {
    pub name: QualName,
    pub value: String,
}

/// The mathematical value of an [`Attribute`].
pub struct AttributeView {
    pub name: QualNameView,
    pub value: Seq<char>,
}

impl View for Attribute {
    type V = AttributeView;

    open spec fn view(&self) -> AttributeView {
        AttributeView { name: self.name@, value: self.value@ }
    }
}

impl Clone for Attribute {
    fn clone(&self) -> (res: Self)
        ensures
            res@ == self@,
    {
        Attribute { name: self.name.clone(), value: self.value.clone() }
    }
}

/// The views of a list of attributes, in order.
pub open spec fn attrs_view(attrs: Seq<Attribute>) -> Seq<AttributeView> {
    Seq::new(attrs.len(), |i: int| attrs[i]@)
}

/// What a node carries besides its links. The template contents of an
/// element are a node of their own and so a link: the arena keeps them
/// beside the payload.
pub enum NodeData {
    Document,
    Doctype { name: String, public_id: String, system_id: String },
    /// An element: its name, its attributes in order, and whether it is a
    /// MathML `annotation-xml` element at which HTML begins.
    Element { qname: QualName, attrs: Vec<Attribute>, mathml_integration_point: bool },
    Text { contents: String },
    Comment { contents: String },
    ProcessingInstruction { target: String, contents: String },
    DocumentFragment,
}

/// The mathematical value of a [`NodeData`].
pub enum NodeDataView {
    Document,
    Doctype { name: Seq<char>, public_id: Seq<char>, system_id: Seq<char> },
    Element { qname: QualNameView, attrs: Seq<AttributeView>, mathml_integration_point: bool },
    Text { contents: Seq<char> },
    Comment { contents: Seq<char> },
    ProcessingInstruction { target: Seq<char>, contents: Seq<char> },
    DocumentFragment,
}

impl NodeDataView {
    /// The kind of node that carries this payload.
    pub open spec fn kind(self) -> NodeKind {
        match self {
            NodeDataView::Document => NodeKind::Document,
            NodeDataView::Doctype { .. } => NodeKind::Doctype,
            NodeDataView::Element { .. } => NodeKind::Element,
            NodeDataView::Text { .. } => NodeKind::Text,
            NodeDataView::Comment { .. } => NodeKind::Comment,
            NodeDataView::ProcessingInstruction { .. } => NodeKind::ProcessingInstruction,
            NodeDataView::DocumentFragment => NodeKind::DocumentFragment,
        }
    }

    /// The character data of a text, comment or processing-instruction payload.
    pub open spec fn character_data(self) -> Option<Seq<char>> {
        match self {
            NodeDataView::Text { contents } => Some(contents),
            NodeDataView::Comment { contents } => Some(contents),
            NodeDataView::ProcessingInstruction { contents, .. } => Some(contents),
            _ => None,
        }
    }

    /// The payload with its character data replaced; other payloads are unchanged.
    pub open spec fn with_character_data(self, s: Seq<char>) -> NodeDataView {
        match self {
            NodeDataView::Text { .. } => NodeDataView::Text { contents: s },
            NodeDataView::Comment { .. } => NodeDataView::Comment { contents: s },
            NodeDataView::ProcessingInstruction { target, .. } => NodeDataView::ProcessingInstruction {
                target,
                contents: s,
            },
            other => other,
        }
    }

    /// The attribute list of an element payload; empty for every other payload.
    pub open spec fn attributes(self) -> Seq<AttributeView> {
        match self {
            NodeDataView::Element { attrs, .. } => attrs,
            _ => Seq::empty(),
        }
    }

    /// The payload with its attribute list replaced; non-element payloads are unchanged.
    pub open spec fn with_attributes(self, a: Seq<AttributeView>) -> NodeDataView {
        match self {
            NodeDataView::Element {
                qname,
                mathml_integration_point,
                ..
            } => NodeDataView::Element { qname, attrs: a, mathml_integration_point },
            other => other,
        }
    }
}

impl View for NodeData {
    type V = NodeDataView;

    open spec fn view(&self) -> NodeDataView {
        match *self {
            NodeData::Document => NodeDataView::Document,
            NodeData::Doctype { name, public_id, system_id } => NodeDataView::Doctype {
                name: name@,
                public_id: public_id@,
                system_id: system_id@,
            },
            NodeData::Element { qname, attrs, mathml_integration_point } => NodeDataView::Element {
                qname: qname@,
                attrs: attrs_view(attrs@),
                mathml_integration_point,
            },
            NodeData::Text { contents } => NodeDataView::Text { contents: contents@ },
            NodeData::Comment { contents } => NodeDataView::Comment { contents: contents@ },
            NodeData::ProcessingInstruction { target, contents } => NodeDataView::ProcessingInstruction {
                target: target@,
                contents: contents@,
            },
            NodeData::DocumentFragment => NodeDataView::DocumentFragment,
        }
    }
}

impl NodeData {
    /// The kind of node that carries this payload.
    pub fn kind(&self) -> (k: NodeKind)
        ensures
            k == self@.kind(),
    {
        match self {
            NodeData::Document => NodeKind::Document,
            NodeData::Doctype { .. } => NodeKind::Doctype,
            NodeData::Element { .. } => NodeKind::Element,
            NodeData::Text { .. } => NodeKind::Text,
            NodeData::Comment { .. } => NodeKind::Comment,
            NodeData::ProcessingInstruction { .. } => NodeKind::ProcessingInstruction,
            NodeData::DocumentFragment => NodeKind::DocumentFragment,
        }
    }
}

/// Copies a list of attributes, entry by entry.
pub fn clone_attrs(attrs: &Vec<Attribute>) -> (res: Vec<Attribute>)
    ensures
        attrs_view(res@) == attrs_view(attrs@),
{
    let mut res: Vec<Attribute> = Vec::new();
    let mut i: usize = 0;
    while i < attrs.len()
        invariant
            i <= attrs.len(),
            res.len() == i,
            forall|j: int| 0 <= j < i ==> res[j]@ == attrs[j]@,
        decreases attrs.len() - i,
    {
        res.push(attrs[i].clone());
        i = i + 1;
    }
    assert(attrs_view(res@) =~= attrs_view(attrs@));
    res
}

impl Clone for NodeData {
    fn clone(&self) -> (res: Self)
        ensures
            res@ == self@,
    {
        match self {
            NodeData::Document => NodeData::Document,
            NodeData::Doctype { name, public_id, system_id } => NodeData::Doctype {
                name: name.clone(),
                public_id: public_id.clone(),
                system_id: system_id.clone(),
            },
            NodeData::Element { qname, attrs, mathml_integration_point } => NodeData::Element {
                qname: qname.clone(),
                attrs: clone_attrs(attrs),
                mathml_integration_point: *mathml_integration_point,
            },
            NodeData::Text { contents } => NodeData::Text { contents: contents.clone() },
            NodeData::Comment { contents } => NodeData::Comment { contents: contents.clone() },
            NodeData::ProcessingInstruction { target, contents } => NodeData::ProcessingInstruction {
                target: target.clone(),
                contents: contents.clone(),
            },
            NodeData::DocumentFragment => NodeData::DocumentFragment,
        }
    }
}

} // verus!
