//! Normalizing text: no empty text nodes, and no text node right after
//! another.

use vstd::prelude::*;
use vstd::string::StringExecFns;
use crate::node::NodeKind;
use crate::model::NodeRepr;
use crate::model::DomView;
use crate::dom::Dom;
use crate::normal_form::normalize_tree;

verus! {

impl DomView {
    /// Whether the text node `c` comes right after another text node in
    /// its parent.
    pub open spec fn follows_text(self, c: NodeRepr) -> bool {
        self.previous_sibling(c) is Some && self.kind(self.previous_sibling(c)->0) is Text
    }

    /// The arena after one node has been seen to: a text node that is
    /// empty leaves its parent; a text node that comes right after
    /// another text node hands its data over to that node, which gets it
    /// at its end, and leaves its parent; any other node stays.
    pub open spec fn normalize_step(self, c: NodeRepr) -> DomView {
        if !(self.kind(c) is Text) {
            self
        } else if self.text_data(c).len() == 0 {
            self.detach(c)
        } else if self.follows_text(c) {
            self.with_text(
                self.previous_sibling(c)->0,
                self.text_data(self.previous_sibling(c)->0) + self.text_data(c),
            ).detach(c)
        } else {
            self
        }
    }

    /// The arena after the nodes of `list` have been seen to, one after
    /// the other.
    pub open spec fn normalize_list(self, list: Seq<NodeRepr>) -> DomView
        decreases list.len(),
    {
        if list.len() == 0 {
            self
        } else {
            self.normalize_list(list.drop_last()).normalize_step(list.last())
        }
    }

    /// The arena after the tree below `n` has been normalized: the nodes
    /// below `n`, as they stand in tree order, are seen to one after the
    /// other. In the end no text node below `n` is empty, and none comes
    /// right after another.
    pub open spec fn normalized(self, n: NodeRepr) -> DomView {
        self.normalize_list(self.descendants(n))
    }

    /// Seeing to a node keeps the arena well formed and its nodes in
    /// place.
    pub proof fn lemma_normalize_step(self, c: NodeRepr)
        requires
            self.wf(),
            self.has(c),
        ensures
            self.normalize_step(c).wf(),
            self.normalize_step(c).nodes.len() == self.nodes.len(),
    {
        self.lemma_ranked();
        if self.kind(c) is Text {
            if self.text_data(c).len() == 0 {
                self.lemma_detach(c);
            } else if self.follows_text(c) {
                let p = self.previous_sibling(c)->0;
                let joined = self.text_data(p) + self.text_data(c);
                self.lemma_previous_sibling(c);
                self.lemma_with_data(p, self.data(p).with_character_data(joined));
                self.with_text(p, joined).lemma_detach(c);
            }
        }
    }

    /// The sibling before a node is a node of the same parent.
    pub proof fn lemma_previous_sibling(self, c: NodeRepr)
        requires
            self.wf(),
            self.has(c),
            self.previous_sibling(c) is Some,
        ensures
            self.has(self.previous_sibling(c)->0),
            self.parent(self.previous_sibling(c)->0) == self.parent(c),
            self.previous_sibling(c)->0 != c,
    {
        self.lemma_ranked();
        let p = self.parent(c)->0;
        let k = self.position(p, c);
        assert(self.children(p).contains(c));
        let before = self.children(p).take(k);
        assert(before.last() == self.children(p)[k - 1]);
        assert(self.has(self.children(p)[k - 1]));
        assert(self.children(p).no_duplicates());
    }
}

impl Dom {
    /// Sees to one node: an empty text node leaves its parent, and a
    /// text node right after another hands its data over to it and
    /// leaves.
    pub fn normalize_step(&mut self, c: NodeRepr)
        requires
            old(self).wf(),
            old(self)@.has(c),
        ensures
            final(self).wf(),
            final(self)@ == old(self)@.normalize_step(c),
            final(self)@.nodes.len() == old(self)@.nodes.len(),
    {
        proof {
            self@.lemma_normalize_step(c);
        }
        if self.kind_of(c) != NodeKind::Text {
            return ;
        }
        let own = match self.text_of(c) {
            Some(s) => s.clone(),
            None => String::new(),
        };
        if own.as_str().unicode_len() == 0 {
            self.detach(c);
            return ;
        }
        let before = c.previous_sibling(self);
        match before {
            Some(p) => {
                proof {
                    self@.lemma_previous_sibling(c);
                }
                if self.kind_of(p) == NodeKind::Text {
                    let mut joined = match self.text_of(p) {
                        Some(s) => s.clone(),
                        None => String::new(),
                    };
                    joined.append(own.as_str());
                    self.set_text(p, joined);
                    self.detach(c);
                }
            },
            None => {},
        }
    }
}

impl NodeRepr {
    /// Normalizes the tree below this node: empty text nodes leave the
    /// tree, and text nodes that stand side by side become one, the
    /// first of them, which holds their data in order. The tree of this
    /// node is then in its normal form. Nodes that are no text nodes
    /// stay as and where they are.
    pub fn normalize(&self, dom: &mut Dom)
        requires
            old(dom).wf(),
            old(dom)@.has(*self),
        ensures
            final(dom).wf(),
            final(dom)@ == old(dom)@.normalized(*self),
            final(dom)@.tree(*self) == normalize_tree(old(dom)@.tree(*self)),
            old(dom)@.same_but_texts(final(dom)@),
    {
        let list = dom.descendants_of(*self);
        let ghost v0 = dom@;
        proof {
            v0.lemma_normalized(*self);
            v0.lemma_descendants_below(*self, 0);
            v0.lemma_list_keeps(v0.descendants(*self));
        }
        let mut i: usize = 0;
        assert(list@.take(0) =~= Seq::<NodeRepr>::empty());
        while i < list.len()
            invariant
                i <= list.len(),
                dom.wf(),
                dom@.nodes.len() == v0.nodes.len(),
                forall|j: int| 0 <= j < list.len() ==> v0.has(#[trigger] list[j]),
                dom@ == v0.normalize_list(list@.take(i as int)),
            decreases list.len() - i,
        {
            proof {
                let t = list@.take(i + 1);
                assert(t.drop_last() =~= list@.take(i as int));
                assert(t.last() == list@[i as int]);
                assert(v0.has(list[i as int]));
            }
            dom.normalize_step(list[i]);
            i = i + 1;
        }
        assert(list@.take(list.len() as int) =~= list@);
    }
}

} // verus!
