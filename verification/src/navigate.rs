//! Read-only traversal: parents, siblings, children and roots.

use vstd::prelude::*;
use crate::node::NodeKind;
use crate::model::NodeRepr;
use crate::model::DomView;
use crate::dom::Dom;
use crate::dom::index_in;

verus! {

/// The two nodes are not in the same tree.
pub const DOCUMENT_POSITION_DISCONNECTED: u32 = 1;

/// The other node comes before this one in tree order.
pub const DOCUMENT_POSITION_PRECEDING: u32 = 2;

/// The other node comes after this one in tree order.
pub const DOCUMENT_POSITION_FOLLOWING: u32 = 4;

/// The other node is an ancestor of this one.
pub const DOCUMENT_POSITION_CONTAINS: u32 = 8;

/// The other node is a descendant of this one.
pub const DOCUMENT_POSITION_CONTAINED_BY: u32 = 16;

/// The order reported is a choice of this library.
pub const DOCUMENT_POSITION_IMPLEMENTATION_SPECIFIC: u32 = 32;

/// A count as a 32-bit number; a count that does not fit is reported as
/// the largest 32-bit number.
pub open spec fn count_u32(n: nat) -> u32 {
    if n <= u32::MAX {
        n as u32
    } else {
        u32::MAX
    }
}

/// A count as a 32-bit number, the largest one where it does not fit.
pub fn to_count_u32(n: usize) -> (r: u32)
    ensures
        r == count_u32(n as nat),
{
    if n <= u32::MAX as usize {
        n as u32
    } else {
        u32::MAX
    }
}

/// `a` occurs somewhere before an occurrence of `b` in the list.
pub open spec fn occurs_before(list: Seq<NodeRepr>, a: NodeRepr, b: NodeRepr) -> bool {
    exists|i: int, j: int| 0 <= i < j < list.len() && list[i] == a && list[j] == b
}

impl DomView {
    /// Whether `n` is an element.
    pub open spec fn is_element(self, n: NodeRepr) -> bool {
        self.kind(n) is Element
    }

    /// The test "is an element of this arena", as a value.
    pub open spec fn element_pred(self) -> spec_fn(NodeRepr) -> bool {
        |c: NodeRepr| self.is_element(c)
    }

    /// The first child of `n`, if it has children.
    pub open spec fn first_child(self, n: NodeRepr) -> Option<NodeRepr> {
        if self.children(n).len() > 0 {
            Some(self.children(n).first())
        } else {
            None
        }
    }

    /// The last child of `n`, if it has children.
    pub open spec fn last_child(self, n: NodeRepr) -> Option<NodeRepr> {
        if self.children(n).len() > 0 {
            Some(self.children(n).last())
        } else {
            None
        }
    }

    /// The children of the parent of `n` that come before `n`.
    pub open spec fn siblings_before(self, n: NodeRepr) -> Seq<NodeRepr> {
        match self.parent(n) {
            Some(p) => self.children(p).take(self.position(p, n)),
            None => Seq::empty(),
        }
    }

    /// The children of the parent of `n` that come after `n`.
    pub open spec fn siblings_after(self, n: NodeRepr) -> Seq<NodeRepr> {
        match self.parent(n) {
            Some(p) => self.children(p).skip(self.position(p, n) + 1),
            None => Seq::empty(),
        }
    }

    /// The sibling just before `n`, if there is one.
    pub open spec fn previous_sibling(self, n: NodeRepr) -> Option<NodeRepr> {
        if self.siblings_before(n).len() > 0 {
            Some(self.siblings_before(n).last())
        } else {
            None
        }
    }

    /// The sibling just after `n`, if there is one.
    pub open spec fn next_sibling(self, n: NodeRepr) -> Option<NodeRepr> {
        if self.siblings_after(n).len() > 0 {
            Some(self.siblings_after(n).first())
        } else {
            None
        }
    }

    /// The children of `n` that are elements, in order.
    pub open spec fn element_children(self, n: NodeRepr) -> Seq<NodeRepr> {
        self.children(n).filter(self.element_pred())
    }

    /// The parent of `n`, if it is an element.
    pub open spec fn parent_element(self, n: NodeRepr) -> Option<NodeRepr> {
        match self.parent(n) {
            Some(p) => if self.is_element(p) {
                Some(p)
            } else {
                None
            },
            None => None,
        }
    }

    /// The first entry of a list, if it has one.
    pub open spec fn first_of(list: Seq<NodeRepr>) -> Option<NodeRepr> {
        if list.len() > 0 {
            Some(list.first())
        } else {
            None
        }
    }

    /// The last entry of a list, if it has one.
    pub open spec fn last_of(list: Seq<NodeRepr>) -> Option<NodeRepr> {
        if list.len() > 0 {
            Some(list.last())
        } else {
            None
        }
    }

    /// The root of the tree of `n`, if that root is a document.
    pub open spec fn owner_document(self, n: NodeRepr) -> Option<NodeRepr> {
        if self.kind(self.root_of(n)) is Document {
            Some(self.root_of(n))
        } else {
            None
        }
    }

    /// How `other` lies relative to `n`, as the bit mask that
    /// `compareDocumentPosition` reports: nothing for the node itself;
    /// for a node of another tree "disconnected" and "implementation
    /// specific" with an order by handles; for a node above `n`
    /// "contains" and "preceding"; for a node below `n` "contained by"
    /// and "following"; for any other node of the same tree "preceding"
    /// or "following" by tree order.
    pub open spec fn document_position(self, n: NodeRepr, other: NodeRepr) -> u32 {
        if n == other {
            0
        } else if self.root_of(n) != self.root_of(other) {
            if other.0 < n.0 {
                (DOCUMENT_POSITION_DISCONNECTED + DOCUMENT_POSITION_IMPLEMENTATION_SPECIFIC
                    + DOCUMENT_POSITION_PRECEDING) as u32
            } else {
                (DOCUMENT_POSITION_DISCONNECTED + DOCUMENT_POSITION_IMPLEMENTATION_SPECIFIC
                    + DOCUMENT_POSITION_FOLLOWING) as u32
            }
        } else if self.is_ancestor_or_self(other, n) {
            (DOCUMENT_POSITION_CONTAINS + DOCUMENT_POSITION_PRECEDING) as u32
        } else if self.is_ancestor_or_self(n, other) {
            (DOCUMENT_POSITION_CONTAINED_BY + DOCUMENT_POSITION_FOLLOWING) as u32
        } else if occurs_before(self.subtree(self.root_of(n)), other, n) {
            DOCUMENT_POSITION_PRECEDING
        } else {
            DOCUMENT_POSITION_FOLLOWING
        }
    }

    /// The root of a node is a node without a parent.
    pub proof fn lemma_root(self, n: NodeRepr)
        requires
            self.wf(),
            self.has(n),
        ensures
            self.has(self.root_of(n)),
            self.parent(self.root_of(n)) is None,
            self.is_ancestor_or_self(self.root_of(n), n),
        decreases self.up(n),
    {
        self.lemma_ranked();
        if self.parent(n) is Some {
            self.lemma_root(self.parent(n)->0);
        }
    }
}

impl Dom {
    /// The entries of `list` between `from` and `to` that are elements.
    pub(crate) fn elements_between(&self, list: &Vec<NodeRepr>, from: usize, to: usize) -> (res: Vec<
        NodeRepr,
    >)
        requires
            from <= to <= list.len(),
            forall|i: int| 0 <= i < list.len() ==> self@.has(#[trigger] list[i]),
        ensures
            res@ == list@.subrange(from as int, to as int).filter(self@.element_pred()),
    {
        let mut res: Vec<NodeRepr> = Vec::new();
        let mut i: usize = from;
        proof {
            reveal(Seq::filter);
            assert(list@.subrange(from as int, from as int) =~= Seq::<NodeRepr>::empty());
        }
        while i < to
            invariant
                from <= i <= to <= list.len(),
                forall|i: int| 0 <= i < list.len() ==> self@.has(#[trigger] list[i]),
                res@ == list@.subrange(from as int, i as int).filter(self@.element_pred()),
            decreases to - i,
        {
            let c = list[i];
            proof {
                let part = list@.subrange(from as int, i as int);
                assert(list@.subrange(from as int, i + 1) =~= part.push(c));
                part.lemma_filter_push(c, self@.element_pred());
            }
            if self.kind_of(c) == NodeKind::Element {
                res.push(c);
            }
            i = i + 1;
        }
        res
    }

    /// The root of the tree that `n` is in.
    pub fn root_of(&self, n: NodeRepr) -> (r: NodeRepr)
        requires
            self.wf(),
            self@.has(n),
        ensures
            r == self@.root_of(n),
            self@.has(r),
    {
        let mut cur = n;
        loop
            invariant
                self.wf(),
                self@.has(cur),
                self@.root_of(cur) == self@.root_of(n),
            decreases self@.up(cur),
        {
            proof {
                self@.lemma_ranked();
            }
            match self.parent_of(cur) {
                Some(p) => {
                    cur = p;
                },
                None => {
                    return cur;
                },
            }
        }
    }
}

impl NodeRepr {
    /// The parent of this node.
    pub fn parent_node(&self, dom: &Dom) -> (res: Option<NodeRepr>)
        requires
            dom@.has(*self),
        ensures
            res == dom@.parent(*self),
    {
        dom.parent_of(*self)
    }

    /// The parent of this node, if it is an element.
    pub fn parent_element(&self, dom: &Dom) -> (res: Option<NodeRepr>)
        requires
            dom.wf(),
            dom@.has(*self),
        ensures
            res == dom@.parent_element(*self),
    {
        proof {
            dom@.lemma_ranked();
        }
        match dom.parent_of(*self) {
            Some(p) => {
                if dom.kind_of(p) == NodeKind::Element {
                    Some(p)
                } else {
                    None
                }
            },
            None => None,
        }
    }

    /// The first child of this node.
    pub fn first_child(&self, dom: &Dom) -> (res: Option<NodeRepr>)
        requires
            dom@.has(*self),
        ensures
            res == dom@.first_child(*self),
    {
        let kids = dom.children_of(*self);
        if kids.len() > 0 {
            Some(kids[0])
        } else {
            None
        }
    }

    /// The last child of this node.
    pub fn last_child(&self, dom: &Dom) -> (res: Option<NodeRepr>)
        requires
            dom@.has(*self),
        ensures
            res == dom@.last_child(*self),
    {
        let kids = dom.children_of(*self);
        if kids.len() > 0 {
            Some(kids[kids.len() - 1])
        } else {
            None
        }
    }

    /// The sibling just before this node.
    pub fn previous_sibling(&self, dom: &Dom) -> (res: Option<NodeRepr>)
        requires
            dom.wf(),
            dom@.has(*self),
        ensures
            res == dom@.previous_sibling(*self),
    {
        proof {
            dom@.lemma_ranked();
        }
        match dom.parent_of(*self) {
            None => None,
            Some(p) => {
                let kids = dom.children_of(p);
                let k = index_in(kids, *self);
                if k > 0 {
                    Some(kids[k - 1])
                } else {
                    None
                }
            },
        }
    }

    /// The sibling just after this node.
    pub fn next_sibling(&self, dom: &Dom) -> (res: Option<NodeRepr>)
        requires
            dom.wf(),
            dom@.has(*self),
        ensures
            res == dom@.next_sibling(*self),
    {
        proof {
            dom@.lemma_ranked();
        }
        match dom.parent_of(*self) {
            None => None,
            Some(p) => {
                let kids = dom.children_of(p);
                let k = index_in(kids, *self);
                if k + 1 < kids.len() {
                    Some(kids[k + 1])
                } else {
                    None
                }
            },
        }
    }

    /// All children of this node, as they are now.
    pub fn child_nodes(&self, dom: &Dom) -> (res: Vec<NodeRepr>)
        requires
            dom@.has(*self),
        ensures
            res@ == dom@.children(*self),
    {
        let kids = dom.children_of(*self);
        let mut res: Vec<NodeRepr> = Vec::new();
        let mut i: usize = 0;
        while i < kids.len()
            invariant
                i <= kids.len(),
                res@ == kids@.take(i as int),
            decreases kids.len() - i,
        {
            res.push(kids[i]);
            assert(kids@.take(i + 1) =~= kids@.take(i as int).push(kids@[i as int]));
            i = i + 1;
        }
        assert(kids@.take(kids.len() as int) =~= kids@);
        res
    }

    /// Whether this node has any child.
    pub fn has_child_nodes(&self, dom: &Dom) -> (res: bool)
        requires
            dom@.has(*self),
        ensures
            res == (dom@.children(*self).len() > 0),
    {
        dom.children_of(*self).len() > 0
    }

    /// The children of this node that are elements, as they are now.
    pub fn children(&self, dom: &Dom) -> (res: Vec<NodeRepr>)
        requires
            dom.wf(),
            dom@.has(*self),
        ensures
            res@ == dom@.element_children(*self),
    {
        let kids = dom.children_of(*self);
        assert(kids@.subrange(0, kids.len() as int) =~= kids@);
        dom.elements_between(kids, 0, kids.len())
    }

    /// The number of children of this node that are elements.
    pub fn child_element_count(&self, dom: &Dom) -> (res: u32)
        requires
            dom.wf(),
            dom@.has(*self),
        ensures
            res == count_u32(dom@.element_children(*self).len()),
    {
        to_count_u32(self.children(dom).len())
    }

    /// The first child of this node that is an element.
    pub fn first_element_child(&self, dom: &Dom) -> (res: Option<NodeRepr>)
        requires
            dom.wf(),
            dom@.has(*self),
        ensures
            res == DomView::first_of(dom@.element_children(*self)),
    {
        let list = self.children(dom);
        if list.len() > 0 {
            Some(list[0])
        } else {
            None
        }
    }

    /// The last child of this node that is an element.
    pub fn last_element_child(&self, dom: &Dom) -> (res: Option<NodeRepr>)
        requires
            dom.wf(),
            dom@.has(*self),
        ensures
            res == DomView::last_of(dom@.element_children(*self)),
    {
        let list = self.children(dom);
        if list.len() > 0 {
            Some(list[list.len() - 1])
        } else {
            None
        }
    }

    /// The nearest sibling before this node that is an element.
    pub fn previous_element_sibling(&self, dom: &Dom) -> (res: Option<NodeRepr>)
        requires
            dom.wf(),
            dom@.has(*self),
        ensures
            res == DomView::last_of(dom@.siblings_before(*self).filter(dom@.element_pred())),
    {
        proof {
            dom@.lemma_ranked();
            reveal(Seq::filter);
        }
        match dom.parent_of(*self) {
            None => None,
            Some(p) => {
                let kids = dom.children_of(p);
                let k = index_in(kids, *self);
                let list = dom.elements_between(kids, 0, k);
                if list.len() > 0 {
                    Some(list[list.len() - 1])
                } else {
                    None
                }
            },
        }
    }

    /// The nearest sibling after this node that is an element.
    pub fn next_element_sibling(&self, dom: &Dom) -> (res: Option<NodeRepr>)
        requires
            dom.wf(),
            dom@.has(*self),
        ensures
            res == DomView::first_of(dom@.siblings_after(*self).filter(dom@.element_pred())),
    {
        proof {
            dom@.lemma_ranked();
            reveal(Seq::filter);
        }
        match dom.parent_of(*self) {
            None => None,
            Some(p) => {
                let kids = dom.children_of(p);
                let k = index_in(kids, *self);
                let list = dom.elements_between(kids, k + 1, kids.len());
                if list.len() > 0 {
                    Some(list[0])
                } else {
                    None
                }
            },
        }
    }

    /// The root of the tree that this node is in; the node itself when it
    /// has no parent.
    pub fn get_root_node(&self, dom: &Dom) -> (res: NodeRepr)
        requires
            dom.wf(),
            dom@.has(*self),
        ensures
            res == dom@.root_of(*self),
            dom@.has(res),
    {
        dom.root_of(*self)
    }

    /// The root of the tree that this node is in, if that root is a
    /// document.
    pub fn owner_document(&self, dom: &Dom) -> (res: Option<NodeRepr>)
        requires
            dom.wf(),
            dom@.has(*self),
        ensures
            res == dom@.owner_document(*self),
    {
        let r = dom.root_of(*self);
        if dom.kind_of(r) == NodeKind::Document {
            Some(r)
        } else {
            None
        }
    }

    /// Whether this node is in a tree whose root is a document.
    pub fn is_connected(&self, dom: &Dom) -> (res: bool)
        requires
            dom.wf(),
            dom@.has(*self),
        ensures
            res == (dom@.kind(dom@.root_of(*self)) is Document),
    {
        let r = dom.root_of(*self);
        dom.kind_of(r) == NodeKind::Document
    }

    /// Whether both handles name the same node.
    pub fn is_same_node(&self, other_node: &NodeRepr) -> (res: bool)
        ensures
            res == (*self == *other_node),
    {
        *self == *other_node
    }

    /// Whether `other_node` is this node or lies below it.
    pub fn contains(&self, dom: &Dom, other_node: &NodeRepr) -> (res: bool)
        requires
            dom.wf(),
            dom@.has(*self),
            dom@.has(*other_node),
        ensures
            res == dom@.is_ancestor_or_self(*self, *other_node),
    {
        dom.is_ancestor_or_self(*self, *other_node)
    }

    /// How `other` lies relative to this node, as a bit mask.
    pub fn compare_document_position(&self, dom: &Dom, other: &NodeRepr) -> (res: u32)
        requires
            dom.wf(),
            dom@.has(*self),
            dom@.has(*other),
        ensures
            res == dom@.document_position(*self, *other),
    {
        if *self == *other {
            return 0;
        }
        let root = dom.root_of(*self);
        if root != dom.root_of(*other) {
            let apart = DOCUMENT_POSITION_DISCONNECTED + DOCUMENT_POSITION_IMPLEMENTATION_SPECIFIC;
            if other.0 < self.0 {
                return apart + DOCUMENT_POSITION_PRECEDING;
            } else {
                return apart + DOCUMENT_POSITION_FOLLOWING;
            }
        }
        if dom.is_ancestor_or_self(*other, *self) {
            return DOCUMENT_POSITION_CONTAINS + DOCUMENT_POSITION_PRECEDING;
        }
        if dom.is_ancestor_or_self(*self, *other) {
            return DOCUMENT_POSITION_CONTAINED_BY + DOCUMENT_POSITION_FOLLOWING;
        }
        let mut order: Vec<NodeRepr> = Vec::new();
        order.push(root);
        dom.collect_descendants(root, &mut order);
        assert(order@ == dom@.subtree(root));
        let mut seen_other = false;
        let mut found = false;
        let mut j: usize = 0;
        while j < order.len()
            invariant
                j <= order.len(),
                *self != *other,
                seen_other == (exists|i: int| 0 <= i < j && order[i] == *other),
                found == (exists|a: int, b: int|
                    0 <= a < b < j && order[a] == *other && order[b] == *self),
            decreases order.len() - j,
        {
            if order[j] == *self && seen_other {
                proof {
                    let i = choose|i: int| 0 <= i < j && order[i] == *other;
                    assert(0 <= i < j < j + 1 && order[i] == *other && order[j as int] == *self);
                }
                found = true;
            }
            if order[j] == *other {
                seen_other = true;
            }
            j = j + 1;
        }
        if found {
            DOCUMENT_POSITION_PRECEDING
        } else {
            DOCUMENT_POSITION_FOLLOWING
        }
    }
}

} // verus!
