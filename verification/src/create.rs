//! Making nodes: the factory operations and copies of existing nodes.

use vstd::prelude::*;
use vstd::string::StringExecFns;
use crate::node::NodeData;
use crate::node::NodeDataView;
use crate::node::QualName;
use crate::node::QualNameView;
use crate::model::NodeRepr;
use crate::dom::Dom;
use crate::tree::DomTree;
use crate::model::DomView;
use crate::fill::Filling;
use crate::fill::filling_ok;
use crate::fill::lemma_filling_starts;
use crate::fill::lemma_filling_checks;
use crate::fill::lemma_filling_descends;
use crate::fill::lemma_filling_ascends;
use crate::fill::lemma_filling_ends;

verus! {

/// The payload of a new element with the given tag name: it is in the
/// HTML namespace, has neither prefix nor attributes, and is no
/// integration point.
pub open spec fn html_element(tag_name: Seq<char>) -> NodeDataView {
    NodeDataView::Element {
        qname: QualNameView {
            ns: "http://www.w3.org/1999/xhtml"@,
            prefix: None,
            local: tag_name,
        },
        attrs: Seq::empty(),
        mathml_integration_point: false,
    }
}

/// The payload of a new element with the given tag name.
pub fn new_html_element(tag_name: String) -> (d: NodeData)
    ensures
        d@ == html_element(tag_name@),
{
    let d = NodeData::Element {
        qname: QualName {
            ns: String::from_str("http://www.w3.org/1999/xhtml"),
            prefix: None,
            local: tag_name,
        },
        attrs: Vec::new(),
        mathml_integration_point: false,
    };
    assert(d@->attrs =~= Seq::empty());
    d
}

/// A node that is being copied: `to` is the copy of `from`, and the
/// children of `from` before `index` have their copies below `to`.
pub struct Copying {
    pub from: NodeRepr,
    pub to: NodeRepr,
    pub index: usize,
}

/// What a stack of copyings says of the filling of the arena.
pub open spec fn copying_view(v: DomView, stack: Seq<Copying>) -> Seq<Filling> {
    Seq::new(
        stack.len(),
        |i: int|
            Filling { node: stack[i].to, index: stack[i].index, trees: v.tree(stack[i].from).children },
    )
}

impl Dom {
    /// Makes an empty document.
    pub fn new_document(&mut self) -> (doc: NodeRepr)
        requires
            old(self).wf(),
        ensures
            final(self).wf(),
            final(self)@ == old(self)@.create(NodeDataView::Document),
            doc.0 == old(self)@.nodes.len(),
    {
        self.create(NodeData::Document)
    }

    /// Makes a copy of `n` alone: a new node with the same payload,
    /// without parent, children or template contents.
    pub fn clone_shallow(&mut self, n: NodeRepr) -> (c: NodeRepr)
        requires
            old(self).wf(),
            old(self)@.has(n),
        ensures
            final(self).wf(),
            final(self)@ == old(self)@.create(old(self)@.data(n)),
            c.0 == old(self)@.nodes.len(),
    {
        let data = self.data_of(n).clone();
        self.create(data)
    }

    /// Makes a copy of `n` and of all that is below it: a new tree of
    /// the same shape and with the same payloads, whose root has no
    /// parent.
    pub fn clone_deep(&mut self, n: NodeRepr) -> (c: NodeRepr)
        requires
            old(self).wf(),
            old(self)@.has(n),
        ensures
            final(self).wf(),
            final(self)@.extends(old(self)@),
            !old(self)@.has(c),
            final(self)@.has(c),
            final(self)@.parent(c) is None,
            final(self)@.tree(c) == old(self)@.tree(n),
    {
        let ghost v0 = self@;
        let ghost t = v0.tree(n);
        proof {
            v0.lemma_ranked();
            v0.lemma_tree_children(n);
        }
        let root = self.clone_shallow(n);
        let ghost mut source: Map<NodeRepr, DomTree> = Map::empty().insert(root, t);
        let mut stack: Vec<Copying> = Vec::new();
        stack.push(Copying { from: n, to: root, index: 0 });
        proof {
            lemma_filling_starts(v0, self@, root, t, copying_view(v0, stack@));
        }
        while stack.len() > 0
            invariant
                v0 == old(self)@,
                t == v0.tree(n),
                forall|i: int| 0 <= i < stack.len() ==> v0.has((#[trigger] stack[i]).from),
                filling_ok(v0, self@, root, t, source, copying_view(v0, stack@)),
            decreases usize::MAX - self@.nodes.len(), stack.len(),
        {
            let ghost before = stack@;
            let ghost state = self@;
            let top = stack.len() - 1;
            let k = stack[top].index;
            let from = stack[top].from;
            let to = stack[top].to;
            proof {
                v0.lemma_tree_children(from);
                assert(state.node(from) == v0.node(from));
                assert(copying_view(v0, before).last() == copying_view(v0, before)[top as int]);
            }
            let total = self.children_of(from).len();
            if k >= total {
                stack.pop();
                proof {
                    assert(copying_view(v0, stack@) =~= copying_view(v0, before).drop_last());
                    lemma_filling_ascends(
                        v0,
                        state,
                        root,
                        t,
                        source,
                        copying_view(v0, before),
                        copying_view(v0, stack@),
                    );
                }
            } else {
                let kid = self.children_of(from)[k];
                let ghost kid_tree = v0.tree(kid);
                proof {
                    v0.lemma_child_is_lower(from, k as int);
                    v0.lemma_tree_children(kid);
                    assert(v0.children(from)[k as int] == kid);
                    assert(v0.parent(kid) == Some(from));
                    assert(state.node(kid) == v0.node(kid));
                    assert(kid_tree.data == v0.data(kid));
                    lemma_filling_checks(v0, state, root, t, source, copying_view(v0, before));
                }
                let c = self.clone_shallow(kid);
                proof {
                    self@.lemma_ranked();
                    assert(!self@.is_ancestor_or_self(c, to)) by {
                        if self@.is_ancestor_or_self(c, to) {
                            crate::chardata::lemma_leaf_above(self@, c, to);
                        }
                    }
                    assert(self@.node(to) == state.node(to));
                }
                self.insert(to, k, c);
                stack[top].index = k + 1;
                stack.push(Copying { from: kid, to: c, index: 0 });
                proof {
                    let grown = source.insert(c, kid_tree);
                    let was = copying_view(v0, before);
                    let now = copying_view(v0, stack@);
                    assert forall|i: int| 0 <= i < was.len() - 1 implies now[i] == was[i] by {
                        assert(stack@[i] == before[i]);
                    }
                    assert(stack@[top as int].from == before[top as int].from);
                    lemma_filling_descends(
                        v0,
                        state,
                        self@,
                        root,
                        t,
                        source,
                        grown,
                        was,
                        now,
                        kid_tree,
                    );
                    source = grown;
                    assert forall|i: int| 0 <= i < stack.len() implies v0.has(
                        (#[trigger] stack[i]).from,
                    ) by {
                        if i < top {
                            assert(stack@[i] == before[i]);
                        }
                    }
                }
            }
        }
        proof {
            lemma_filling_ends(v0, self@, root, t, source, copying_view(v0, stack@), root);
        }
        root
    }

    /// Makes a copy of `n`: of `n` alone, or with all that is below it
    /// when `deep` says so. The copy is a new node without a parent.
    pub fn clone_node(&mut self, n: NodeRepr, deep: bool) -> (c: NodeRepr)
        requires
            old(self).wf(),
            old(self)@.has(n),
        ensures
            final(self).wf(),
            final(self)@.extends(old(self)@),
            !old(self)@.has(c),
            final(self)@.has(c),
            final(self)@.parent(c) is None,
            deep ==> final(self)@.tree(c) == old(self)@.tree(n),
            !deep ==> final(self)@.tree(c) == (DomTree {
                data: old(self)@.data(n),
                children: Seq::empty(),
            }),
    {
        if deep {
            self.clone_deep(n)
        } else {
            let c = self.clone_shallow(n);
            proof {
                self@.lemma_tree_children(c);
                assert(self@.tree(c).children =~= Seq::<DomTree>::empty());
            }
            c
        }
    }
}

impl NodeRepr {
    /// Makes an element with the given tag name, in the HTML namespace.
    pub fn create_element(&self, dom: &mut Dom, tag_name: String) -> (res: NodeRepr)
        requires
            old(dom).wf(),
        ensures
            final(dom).wf(),
            final(dom)@ == old(dom)@.create(html_element(tag_name@)),
            res.0 == old(dom)@.nodes.len(),
    {
        dom.create(new_html_element(tag_name))
    }

    /// Makes a text node with the given data.
    pub fn create_text_node(&self, dom: &mut Dom, data: String) -> (res: NodeRepr)
        requires
            old(dom).wf(),
        ensures
            final(dom).wf(),
            final(dom)@ == old(dom)@.create(NodeDataView::Text { contents: data@ }),
            res.0 == old(dom)@.nodes.len(),
    {
        dom.create(NodeData::Text { contents: data })
    }

    /// Makes a comment with the given data.
    pub fn create_comment(&self, dom: &mut Dom, data: String) -> (res: NodeRepr)
        requires
            old(dom).wf(),
        ensures
            final(dom).wf(),
            final(dom)@ == old(dom)@.create(NodeDataView::Comment { contents: data@ }),
            res.0 == old(dom)@.nodes.len(),
    {
        dom.create(NodeData::Comment { contents: data })
    }

    /// Makes an empty fragment.
    pub fn create_document_fragment(&self, dom: &mut Dom) -> (res: NodeRepr)
        requires
            old(dom).wf(),
        ensures
            final(dom).wf(),
            final(dom)@ == old(dom)@.create(NodeDataView::DocumentFragment),
            res.0 == old(dom)@.nodes.len(),
    {
        dom.create(NodeData::DocumentFragment)
    }

    /// Makes a processing instruction with the given target and data.
    pub fn create_processing_instruction(&self, dom: &mut Dom, target: String, data: String) -> (res:
        NodeRepr)
        requires
            old(dom).wf(),
        ensures
            final(dom).wf(),
            final(dom)@ == old(dom)@.create(
                NodeDataView::ProcessingInstruction { target: target@, contents: data@ },
            ),
            res.0 == old(dom)@.nodes.len(),
    {
        dom.create(NodeData::ProcessingInstruction { target, contents: data })
    }

    /// Makes a copy of this node: of the node alone, or with all that is
    /// below it when `deep` says so. The copy has no parent.
    pub fn clone_node(&self, dom: &mut Dom, deep: bool) -> (res: NodeRepr)
        requires
            old(dom).wf(),
            old(dom)@.has(*self),
        ensures
            final(dom).wf(),
            final(dom)@.extends(old(dom)@),
            !old(dom)@.has(res),
            final(dom)@.has(res),
            final(dom)@.parent(res) is None,
            deep ==> final(dom)@.tree(res) == old(dom)@.tree(*self),
            !deep ==> final(dom)@.tree(res) == (DomTree {
                data: old(dom)@.data(*self),
                children: Seq::empty(),
            }),
    {
        dom.clone_node(*self, deep)
    }

    /// Makes a copy of `external_node`: of the node alone, or with all
    /// that is below it when `deep` says so. The copy has no parent.
    pub fn import_node(&self, dom: &mut Dom, external_node: &NodeRepr, deep: Option<bool>) -> (res:
        NodeRepr)
        requires
            old(dom).wf(),
            old(dom)@.has(*external_node),
        ensures
            final(dom).wf(),
            final(dom)@.extends(old(dom)@),
            !old(dom)@.has(res),
            final(dom)@.has(res),
            final(dom)@.parent(res) is None,
            deep == Some(true) ==> final(dom)@.tree(res) == old(dom)@.tree(*external_node),
            deep != Some(true) ==> final(dom)@.tree(res) == (DomTree {
                data: old(dom)@.data(*external_node),
                children: Seq::empty(),
            }),
    {
        let deep = match deep {
            Some(d) => d,
            None => false,
        };
        dom.clone_node(*external_node, deep)
    }
}

} // verus!
