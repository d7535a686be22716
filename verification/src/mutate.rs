//! Insertion, removal and replacement of nodes.
//!
//! Every insertion first takes the incoming node out of the place where
//! it was. A fragment is never inserted itself: its children move, in
//! order, and the fragment is left empty. An operation that is refused
//! leaves the arena as it was.

use vstd::prelude::*;
use crate::node::NodeKind;
use crate::model::NodeRepr;
use crate::model::DomView;
use crate::dom::Dom;
use crate::dom::index_in;
use crate::error::DomError;

verus! {

impl DomView {
    /// A node lies at least as deep as each of its ancestors.
    pub proof fn lemma_ancestor_rank(self, a: NodeRepr, n: NodeRepr)
        requires
            self.wf(),
            self.has(n),
            self.is_ancestor_or_self(a, n),
        ensures
            self.has(a),
            self.ranking().of(a) <= self.ranking().of(n),
        decreases self.up(n),
    {
        self.lemma_ranked();
        if a != n {
            self.lemma_ancestor_rank(a, self.parent(n)->0);
        }
    }

    /// A child is never above its parent.
    pub proof fn lemma_child_not_above(self, p: NodeRepr, c: NodeRepr)
        requires
            self.wf(),
            self.has(c),
            self.parent(c) == Some(p),
        ensures
            !self.is_ancestor_or_self(c, p),
            self.has(p),
            self.children(p).contains(c),
    {
        self.lemma_ranked();
        if self.is_ancestor_or_self(c, p) {
            self.lemma_ancestor_rank(c, p);
        }
    }

    /// A parent that loses a child has one child less.
    pub proof fn lemma_remove_shrinks(self, p: NodeRepr, c: NodeRepr)
        requires
            self.wf(),
            self.has(c),
            self.parent(c) == Some(p),
        ensures
            self.position(p, c) < self.children(p).len(),
            self.position(p, c) <= self.detach(c).children(p).len(),
            self.detach(c).children(p).len() + 1 == self.children(p).len(),
    {
        self.lemma_ranked();
        self.lemma_detach(c);
        assert(self.children(p).contains(c));
    }

    /// The arena after `c` has become the last child of `p`.
    pub open spec fn append(self, p: NodeRepr, c: NodeRepr) -> DomView {
        self.place(p, self.detach(c).children(p).len() as int, c)
    }

    /// The arena after `c` has become the first child of `p`.
    pub open spec fn prepend(self, p: NodeRepr, c: NodeRepr) -> DomView {
        self.place(p, 0, c)
    }

    /// The arena after `c` has been put among the children of `p` just
    /// before `r`. Putting a node before itself changes nothing.
    pub open spec fn insert_before(self, p: NodeRepr, c: NodeRepr, r: NodeRepr) -> DomView {
        if c == r {
            self
        } else {
            self.place(p, self.detach(c).position(p, r), c)
        }
    }

    /// The arena after `c` has been put among the children of `p` just
    /// after `r`. Putting a node after itself changes nothing.
    pub open spec fn insert_after(self, p: NodeRepr, c: NodeRepr, r: NodeRepr) -> DomView {
        if c == r {
            self
        } else {
            self.place(p, self.detach(c).position(p, r) + 1, c)
        }
    }

    /// The arena after `c` has taken the place of `r` among the children
    /// of `p`, and `r` has lost its parent. Replacing a node by itself
    /// changes nothing.
    pub open spec fn replace(self, p: NodeRepr, c: NodeRepr, r: NodeRepr) -> DomView {
        if c == r {
            self
        } else {
            self.detach(c).detach(r).place(p, self.detach(c).position(p, r), c)
        }
    }
}

impl Dom {
    /// Whether `c` may become a child of `p`.
    pub fn can_place(&self, p: NodeRepr, c: NodeRepr) -> (b: bool)
        requires
            self.wf(),
            self@.has(p),
            self@.has(c),
        ensures
            b == self@.can_place(p, c),
    {
        self.kind_of(p).can_have_children() && self.kind_of(c) != NodeKind::Document
            && !self.is_ancestor_or_self(c, p)
    }

    /// Puts `c` among the children of `p` at position `i`, counted once `c`
    /// has left its parent.
    pub(crate) fn place(&mut self, p: NodeRepr, i: usize, c: NodeRepr)
        requires
            old(self).wf(),
            old(self)@.has(p),
            old(self)@.has(c),
            old(self)@.can_place(p, c),
            i <= old(self)@.detach(c).children(p).len(),
        ensures
            final(self).wf(),
            final(self)@ == old(self)@.place(p, i as int, c),
            final(self)@.same_payloads(old(self)@),
    {
        let ghost v0 = self@;
        proof {
            v0.lemma_ranked();
            v0.lemma_detach(c);
            v0.lemma_detach_keeps_subtree(c, p);
        }
        if self.kind_of(c) == NodeKind::DocumentFragment {
            assert(v0.detach(c) == v0);
            self.splice(p, i, c);
        } else {
            self.detach(c);
            proof {
                v0.detach(c).lemma_insert(p, i as int, c);
            }
            self.insert(p, i, c);
        }
    }
}

impl NodeRepr {
    /// Makes `new_child` the last child of this node.
    pub fn append(&self, dom: &mut Dom, new_child: &NodeRepr) -> (res: Result<(), DomError>)
        requires
            old(dom).wf(),
            old(dom)@.has(*self),
            old(dom)@.has(*new_child),
        ensures
            final(dom).wf(),
            res is Ok <==> old(dom)@.can_place(*self, *new_child),
            res is Ok ==> final(dom)@ == old(dom)@.append(*self, *new_child),
            res is Err ==> res == Err::<(), DomError>(DomError::HierarchyRequest) && final(dom)@ == old(dom)@,
    {
        if !dom.can_place(*self, *new_child) {
            return Err(DomError::HierarchyRequest);
        }
        proof {
            dom@.lemma_detach(*new_child);
            dom@.lemma_detach_keeps_subtree(*new_child, *self);
        }
        dom.detach(*new_child);
        let end = dom.children_of(*self).len();
        dom.place(*self, end, *new_child);
        Ok(())
    }
}

impl NodeRepr {
    /// Makes `new_child` the last child of this node and hands it back.
    pub fn append_child(&self, dom: &mut Dom, new_child: &NodeRepr) -> (res: Result<
        NodeRepr,
        DomError,
    >)
        requires
            old(dom).wf(),
            old(dom)@.has(*self),
            old(dom)@.has(*new_child),
        ensures
            final(dom).wf(),
            res is Ok <==> old(dom)@.can_place(*self, *new_child),
            res is Ok ==> res == Ok::<NodeRepr, DomError>(*new_child) && final(dom)@ == old(dom)@.append(*self, *new_child),
            res is Err ==> res == Err::<NodeRepr, DomError>(DomError::HierarchyRequest) && final(dom)@ == old(dom)@,
    {
        match self.append(dom, new_child) {
            Ok(()) => Ok(*new_child),
            Err(e) => Err(e),
        }
    }

    /// Makes `new_child` the first child of this node.
    pub fn prepend(&self, dom: &mut Dom, new_child: &NodeRepr) -> (res: Result<(), DomError>)
        requires
            old(dom).wf(),
            old(dom)@.has(*self),
            old(dom)@.has(*new_child),
        ensures
            final(dom).wf(),
            res is Ok <==> old(dom)@.can_place(*self, *new_child),
            res is Ok ==> final(dom)@ == old(dom)@.prepend(*self, *new_child),
            res is Err ==> res == Err::<(), DomError>(DomError::HierarchyRequest) && final(dom)@ == old(dom)@,
    {
        if !dom.can_place(*self, *new_child) {
            return Err(DomError::HierarchyRequest);
        }
        dom.place(*self, 0, *new_child);
        Ok(())
    }

    /// Takes this node out of its parent's children. A node without a
    /// parent stays as it is.
    pub fn remove(&self, dom: &mut Dom)
        requires
            old(dom).wf(),
            old(dom)@.has(*self),
        ensures
            final(dom).wf(),
            final(dom)@ == old(dom)@.detach(*self),
    {
        dom.detach(*self);
    }

    /// Takes `external_node` out of the tree it is in and hands it back.
    pub fn adopt_node(&self, dom: &mut Dom, external_node: &NodeRepr) -> (res: NodeRepr)
        requires
            old(dom).wf(),
            old(dom)@.has(*external_node),
        ensures
            final(dom).wf(),
            final(dom)@ == old(dom)@.detach(*external_node),
            res == *external_node,
    {
        dom.detach(*external_node);
        *external_node
    }

    /// Takes `child` out of the children of this node and hands it back.
    pub fn remove_child(&self, dom: &mut Dom, child: &NodeRepr) -> (res: Result<NodeRepr, DomError>)
        requires
            old(dom).wf(),
            old(dom)@.has(*self),
            old(dom)@.has(*child),
        ensures
            final(dom).wf(),
            res is Ok <==> old(dom)@.parent(*child) == Some(*self),
            res is Ok ==> res == Ok::<NodeRepr, DomError>(*child) && final(dom)@ == old(dom)@.detach(
                *child,
            ),
            res is Err ==> res == Err::<NodeRepr, DomError>(DomError::NotFound) && final(dom)@ == old(dom)@,
    {
        if dom.parent_of(*child) != Some(*self) {
            return Err(DomError::NotFound);
        }
        dom.detach(*child);
        Ok(*child)
    }

    /// Puts `new_node` among the children of this node just before
    /// `ref_node`, or at the end when there is no `ref_node`.
    pub fn insert_before_node(
        &self,
        dom: &mut Dom,
        new_node: &NodeRepr,
        ref_node: Option<&NodeRepr>,
    ) -> (res: Result<NodeRepr, DomError>)
        requires
            old(dom).wf(),
            old(dom)@.has(*self),
            old(dom)@.has(*new_node),
            ref_node is Some ==> old(dom)@.has(*ref_node->0),
        ensures
            final(dom).wf(),
            res is Err ==> final(dom)@ == old(dom)@,
            ref_node is Some && old(dom)@.parent(*ref_node->0) != Some(*self) ==> res == Err::<
                NodeRepr,
                DomError,
            >(DomError::NotFound),
            !(ref_node is Some && old(dom)@.parent(*ref_node->0) != Some(*self)) && !old(
                dom)@.can_place(*self, *new_node) ==> res == Err::<NodeRepr, DomError>(
                DomError::HierarchyRequest,
            ),
            !(ref_node is Some && old(dom)@.parent(*ref_node->0) != Some(*self)) && old(
                dom)@.can_place(*self, *new_node) ==> res == Ok::<NodeRepr, DomError>(*new_node),
            res is Ok && ref_node is None ==> final(dom)@ == old(dom)@.append(*self, *new_node),
            res is Ok && ref_node is Some ==> final(dom)@ == old(dom)@.insert_before(
                *self,
                *new_node,
                *ref_node->0,
            ),
    {
        match ref_node {
            None => self.append_child(dom, new_node),
            Some(r) => {
                if dom.parent_of(*r) != Some(*self) {
                    return Err(DomError::NotFound);
                }
                if !dom.can_place(*self, *new_node) {
                    return Err(DomError::HierarchyRequest);
                }
                if *new_node == *r {
                    return Ok(*new_node);
                }
                proof {
                    dom@.lemma_ranked();
                    dom@.lemma_detach(*new_node);
                    dom@.lemma_detach_keeps_subtree(*new_node, *self);
                }
                dom.detach(*new_node);
                proof {
                    dom@.lemma_child_not_above(*self, *r);
                }
                let k = index_in(dom.children_of(*self), *r);
                dom.place(*self, k, *new_node);
                Ok(*new_node)
            },
        }
    }

    /// Puts `new_sibling` into this node's parent, just after this node.
    /// Nothing happens when this node has no parent.
    pub fn after(&self, dom: &mut Dom, new_sibling: &NodeRepr) -> (res: Result<(), DomError>)
        requires
            old(dom).wf(),
            old(dom)@.has(*self),
            old(dom)@.has(*new_sibling),
        ensures
            final(dom).wf(),
            res is Err ==> res == Err::<(), DomError>(DomError::HierarchyRequest) && final(dom)@ == old(dom)@,
            res is Err <==> (old(dom)@.parent(*self) is Some && !old(dom)@.can_place(
                old(dom)@.parent(*self)->0,
                *new_sibling,
            )),
            res is Ok && old(dom)@.parent(*self) is None ==> final(dom)@ == old(dom)@,
            res is Ok && old(dom)@.parent(*self) is Some ==> final(dom)@ == old(dom)@.insert_after(
                old(dom)@.parent(*self)->0,
                *new_sibling,
                *self,
            ),
    {
        proof {
            dom@.lemma_ranked();
        }
        match dom.parent_of(*self) {
            None => Ok(()),
            Some(p) => {
                if !dom.can_place(p, *new_sibling) {
                    return Err(DomError::HierarchyRequest);
                }
                if *new_sibling == *self {
                    return Ok(());
                }
                proof {
                    dom@.lemma_detach(*new_sibling);
                    dom@.lemma_detach_keeps_subtree(*new_sibling, p);
                }
                dom.detach(*new_sibling);
                proof {
                    dom@.lemma_child_not_above(p, *self);
                }
                let k = index_in(dom.children_of(p), *self);
                dom.place(p, k + 1, *new_sibling);
                Ok(())
            },
        }
    }

    /// Puts `new_sibling` into this node's parent, just before this node.
    /// Nothing happens when this node has no parent.
    pub fn before(&self, dom: &mut Dom, new_sibling: &NodeRepr) -> (res: Result<(), DomError>)
        requires
            old(dom).wf(),
            old(dom)@.has(*self),
            old(dom)@.has(*new_sibling),
        ensures
            final(dom).wf(),
            res is Err ==> res == Err::<(), DomError>(DomError::HierarchyRequest) && final(dom)@ == old(dom)@,
            res is Err <==> (old(dom)@.parent(*self) is Some && !old(dom)@.can_place(
                old(dom)@.parent(*self)->0,
                *new_sibling,
            )),
            res is Ok && old(dom)@.parent(*self) is None ==> final(dom)@ == old(dom)@,
            res is Ok && old(dom)@.parent(*self) is Some ==> final(dom)@ == old(dom)@.insert_before(
                old(dom)@.parent(*self)->0,
                *new_sibling,
                *self,
            ),
    {
        proof {
            dom@.lemma_ranked();
        }
        match dom.parent_of(*self) {
            None => Ok(()),
            Some(p) => {
                if !dom.can_place(p, *new_sibling) {
                    return Err(DomError::HierarchyRequest);
                }
                if *new_sibling == *self {
                    return Ok(());
                }
                proof {
                    dom@.lemma_detach(*new_sibling);
                    dom@.lemma_detach_keeps_subtree(*new_sibling, p);
                }
                dom.detach(*new_sibling);
                proof {
                    dom@.lemma_child_not_above(p, *self);
                }
                let k = index_in(dom.children_of(p), *self);
                dom.place(p, k, *new_sibling);
                Ok(())
            },
        }
    }

    /// Puts `new_child` in the place of `old_child` among the children of
    /// this node, and hands `old_child` back without a parent.
    pub fn replace_child(&self, dom: &mut Dom, new_child: &NodeRepr, old_child: &NodeRepr) -> (res:
        Result<NodeRepr, DomError>)
        requires
            old(dom).wf(),
            old(dom)@.has(*self),
            old(dom)@.has(*new_child),
            old(dom)@.has(*old_child),
        ensures
            final(dom).wf(),
            res is Err ==> final(dom)@ == old(dom)@,
            old(dom)@.parent(*old_child) != Some(*self) ==> res == Err::<NodeRepr, DomError>(
                DomError::NotFound,
            ),
            old(dom)@.parent(*old_child) == Some(*self) && !old(dom)@.can_place(*self, *new_child)
                ==> res == Err::<NodeRepr, DomError>(DomError::HierarchyRequest),
            old(dom)@.parent(*old_child) == Some(*self) && old(dom)@.can_place(*self, *new_child)
                ==> res == Ok::<NodeRepr, DomError>(*old_child),
            res is Ok ==> final(dom)@ == old(dom)@.replace(*self, *new_child, *old_child),
    {
        if dom.parent_of(*old_child) != Some(*self) {
            return Err(DomError::NotFound);
        }
        if !dom.can_place(*self, *new_child) {
            return Err(DomError::HierarchyRequest);
        }
        if *new_child == *old_child {
            return Ok(*old_child);
        }
        let ghost v0 = dom@;
        proof {
            v0.lemma_ranked();
            v0.lemma_detach(*new_child);
            v0.lemma_detach_keeps_subtree(*new_child, *self);
        }
        dom.detach(*new_child);
        let ghost v1 = dom@;
        proof {
            v1.lemma_child_not_above(*self, *old_child);
            v1.lemma_detach(*old_child);
            v1.lemma_detach_keeps_chain(*old_child, *new_child, *self);
            v1.lemma_remove_shrinks(*self, *old_child);
        }
        let k = index_in(dom.children_of(*self), *old_child);
        dom.detach(*old_child);
        proof {
            dom@.lemma_detach(*new_child);
        }
        dom.place(*self, k, *new_child);
        Ok(*old_child)
    }

    /// Puts `new_node` in the place of this node in its parent, and leaves
    /// this node without a parent. Nothing happens when this node has no
    /// parent.
    pub fn replace_with(&self, dom: &mut Dom, new_node: &NodeRepr) -> (res: Result<(), DomError>)
        requires
            old(dom).wf(),
            old(dom)@.has(*self),
            old(dom)@.has(*new_node),
        ensures
            final(dom).wf(),
            res is Err ==> res == Err::<(), DomError>(DomError::HierarchyRequest) && final(dom)@ == old(dom)@,
            res is Err <==> (old(dom)@.parent(*self) is Some && !old(dom)@.can_place(
                old(dom)@.parent(*self)->0,
                *new_node,
            )),
            res is Ok && old(dom)@.parent(*self) is None ==> final(dom)@ == old(dom)@,
            res is Ok && old(dom)@.parent(*self) is Some ==> final(dom)@ == old(dom)@.replace(
                old(dom)@.parent(*self)->0,
                *new_node,
                *self,
            ),
    {
        proof {
            dom@.lemma_ranked();
        }
        match dom.parent_of(*self) {
            None => Ok(()),
            Some(p) => {
                match p.replace_child(dom, new_node, self) {
                    Ok(_) => Ok(()),
                    Err(e) => Err(e),
                }
            },
        }
    }
}

} // verus!
