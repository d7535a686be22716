//! Replacing what a node holds: its text, and its children as HTML text.

use vstd::prelude::*;
use crate::node::NodeKind;
use crate::node::NodeData;
use crate::node::NodeDataView;
use crate::model::NodeRepr;
use crate::model::NodeView;
use crate::model::DomView;
use crate::dom::Dom;
use crate::tree::DomTree;
use crate::error::DomError;
use crate::query::is_named;
use crate::html::parsed_document;
use crate::html::readable;
use crate::html::held;
use crate::dom::index_in;
use crate::text::lower;
use crate::text::to_lower;
use crate::text::same_text;

verus! {

impl DomView {
    /// The slot of `x` after the first `j` children of `n` have left it.
    pub open spec fn cleared_node(self, n: NodeRepr, j: int, x: NodeRepr) -> NodeView {
        let gone = self.children(n).subrange(0, j);
        if x == n {
            NodeView {
                children: self.children(n).subrange(j, self.children(n).len() as int),
                ..self.node(x)
            }
        } else if gone.contains(x) {
            NodeView { parent: None, ..self.node(x) }
        } else {
            self.node(x)
        }
    }

    /// The arena after the first `j` children of `n` have left it.
    pub open spec fn cleared_upto(self, n: NodeRepr, j: int) -> DomView {
        DomView {
            nodes: Seq::new(self.nodes.len(), |k: int| self.cleared_node(n, j, NodeRepr(k as usize))),
        }
    }

    /// The arena after all children of `n` have left it: `n` has no
    /// children, and its former children have no parent.
    pub open spec fn cleared(self, n: NodeRepr) -> DomView {
        self.cleared_upto(n, self.children(n).len() as int)
    }

    /// The slots of the arena after the first `j` children of `n` have left.
    pub proof fn lemma_cleared_nodes(self, n: NodeRepr, j: int)
        requires
            self.nodes.len() <= usize::MAX,
        ensures
            self.cleared_upto(n, j).nodes.len() == self.nodes.len(),
            forall|x: NodeRepr|
                self.has(x) ==> #[trigger] self.cleared_upto(n, j).node(x) == self.cleared_node(
                    n,
                    j,
                    x,
                ),
    {
        assert forall|x: NodeRepr| self.has(x) implies #[trigger] self.cleared_upto(n, j).node(x)
            == self.cleared_node(n, j, x) by {
            assert(NodeRepr(x.0 as int as usize) == x);
        }
    }

    /// Taking the children of `n` away one by one empties it, and every
    /// state on the way is well formed.
    pub proof fn lemma_cleared_upto(self, n: NodeRepr, j: int)
        requires
            self.wf(),
            self.has(n),
            0 <= j <= self.children(n).len(),
        ensures
            self.cleared_upto(n, j).wf(),
            self.cleared_upto(n, j).same_payloads(self),
            self.cleared_upto(n, 0) == self,
            self.cleared_upto(n, j).children(n) == self.children(n).subrange(
                j,
                self.children(n).len() as int,
            ),
            j < self.children(n).len() ==> {
                let s = self.cleared_upto(n, j);
                let c = self.children(n)[j];
                &&& s.has(c)
                &&& s.children(n)[0] == c
                &&& s.detach(c) == self.cleared_upto(n, j + 1)
            },
        decreases j,
    {
        self.lemma_ranked();
        let kids = self.children(n);
        self.lemma_cleared_nodes(n, j);
        self.lemma_cleared_nodes(n, 0);
        self.lemma_cleared_nodes(n, j + 1);
        assert(self.cleared_upto(n, 0) == self) by {
            assert(kids.subrange(0, kids.len() as int) =~= kids);
            assert(kids.subrange(0, 0) =~= Seq::<NodeRepr>::empty());
            assert forall|k: int| 0 <= k < self.nodes.len() implies self.cleared_upto(n, 0).nodes[k]
                == self.nodes[k] by {
                let x = NodeRepr(k as usize);
                assert(self.has(x));
                assert(self.node(x) == self.nodes[k]);
                assert(self.cleared_node(n, 0, x) == self.node(x));
            }
            assert(self.cleared_upto(n, 0).nodes =~= self.nodes);
        }
        if j > 0 {
            self.lemma_cleared_upto(n, j - 1);
            self.cleared_upto(n, j - 1).lemma_detach(kids[j - 1]);
        }
        let s = self.cleared_upto(n, j);
        assert(s.same_payloads(self)) by {
            assert forall|x: NodeRepr| s.has(x) implies #[trigger] s.data(x) == self.data(x) by {
                assert(s.node(x) == self.cleared_node(n, j, x));
            }
        }
        assert(s.node(n) == self.cleared_node(n, j, n));
        if j < kids.len() {
            let c = kids[j];
            let t = self.cleared_upto(n, j + 1);
            let g0 = kids.subrange(0, j);
            let g1 = kids.subrange(0, j + 1);
            assert(self.children(n)[j] == c);
            assert(self.parent(c) == Some(n));
            assert(c != n);
            assert(!g0.contains(c)) by {
                if g0.contains(c) {
                    let w = choose|w: int| 0 <= w < g0.len() && g0[w] == c;
                    assert(kids[w] == c);
                }
            }
            assert(s.node(c) == self.cleared_node(n, j, c));
            assert(s.node(c) == self.node(c));
            assert(s.children(n) == kids.subrange(j, kids.len() as int));
            assert(s.children(n)[0] == c);
            assert(s.position(n, c) == 0) by {
                assert(s.children(n).no_duplicates());
                assert(s.children(n).contains(c));
            }
            assert(s.children(n).remove(0) =~= kids.subrange(j + 1, kids.len() as int));
            let u = s.detach(c);
            assert forall|x: NodeRepr| g1.contains(x) <==> (g0.contains(x) || x == c) by {
                if g0.contains(x) {
                    let w = choose|w: int| 0 <= w < g0.len() && g0[w] == x;
                    assert(g1[w] == x);
                }
                if x == c {
                    assert(g1[j] == x);
                }
                if g1.contains(x) {
                    let w = choose|w: int| 0 <= w < g1.len() && g1[w] == x;
                    if w < j {
                        assert(g0[w] == x);
                    }
                }
            }
            assert forall|k: int| 0 <= k < self.nodes.len() implies u.nodes[k] == t.nodes[k] by {
                let x = NodeRepr(k as usize);
                assert(self.has(x));
                assert(t.nodes[k] == self.cleared_node(n, j + 1, x));
                assert(s.node(x) == self.cleared_node(n, j, x));
                assert(u.nodes[k] == u.node(x));
            }
            assert(u.nodes =~= t.nodes);
        }
    }
}

/// The position of the first tree from `k` on whose root is an element
/// with the local name `name`; the length of the list when there is none.
pub open spec fn tree_named_from(ts: Seq<DomTree>, name: Seq<char>, k: int) -> int
    decreases ts.len() - k,
{
    if k < 0 || k >= ts.len() {
        ts.len() as int
    } else if is_named(ts[k].data, name) {
        k
    } else {
        tree_named_from(ts, name, k + 1)
    }
}

/// The first tree below the root of `t` whose root is an element with
/// the local name `name`.
pub open spec fn tree_child_named(t: DomTree, name: Seq<char>) -> Option<DomTree> {
    if tree_named_from(t.children, name, 0) < t.children.len() {
        Some(t.children[tree_named_from(t.children, name, 0)])
    } else {
        None
    }
}

/// The body of a document tree: the first `body` child of its first
/// `html` child.
pub open spec fn tree_body(t: DomTree) -> Option<DomTree> {
    if t.data is Document && tree_child_named(t, "html"@) is Some {
        tree_child_named(tree_child_named(t, "html"@)->0, "body"@)
    } else {
        None
    }
}

/// What a parsed text yields as a fragment: the trees below the body of
/// the parsed document, or below the document itself when it has no
/// body.
pub open spec fn fragment_trees(t: DomTree) -> Seq<DomTree> {
    if tree_body(t) is Some {
        tree_body(t)->0.children
    } else {
        t.children
    }
}

impl DomView {
    /// The first child with a given name is found in the tree of a node
    /// where it is found among its children.
    pub proof fn lemma_named_tree(self, n: NodeRepr, name: Seq<char>, k: int)
        requires
            self.wf(),
            self.has(n),
            0 <= k,
        ensures
            self.named_from(n, name, k) == tree_named_from(self.tree(n).children, name, k),
        decreases self.children(n).len() - k,
    {
        self.lemma_tree_children(n);
        if k < self.children(n).len() {
            assert(self.tree(n).children[k] == self.tree(self.children(n)[k]));
            if !is_named(self.data(self.children(n)[k]), name) {
                self.lemma_named_tree(n, name, k + 1);
            }
        }
    }

    /// The child with a given name, as a node and as a tree.
    pub proof fn lemma_child_named_tree(self, n: NodeRepr, name: Seq<char>)
        requires
            self.wf(),
            self.has(n),
        ensures
            self.child_named(n, name) is Some <==> tree_child_named(self.tree(n), name) is Some,
            self.child_named(n, name) is Some ==> self.has(self.child_named(n, name)->0)
                && self.parent(self.child_named(n, name)->0) == Some(n) && self.tree(
                self.child_named(n, name)->0,
            ) == tree_child_named(self.tree(n), name)->0,
    {
        self.lemma_ranked();
        self.lemma_named_tree(n, name, 0);
        self.lemma_tree_children(n);
        let k = self.named_from(n, name, 0);
        if k < self.children(n).len() {
            self.lemma_named_bounds(n, name, 0);
            assert(self.tree(n).children[k] == self.tree(self.children(n)[k]));
            self.lemma_child_is_lower(n, k);
        }
    }

    /// A search among the children stays among the children.
    pub proof fn lemma_named_bounds(self, n: NodeRepr, name: Seq<char>, k: int)
        requires
            0 <= k,
        ensures
            self.named_from(n, name, k) >= k || self.named_from(n, name, k) == self.children(n).len(),
            self.named_from(n, name, k) <= self.children(n).len() || k > self.children(n).len(),
            self.named_from(n, name, k) >= 0,
        decreases self.children(n).len() - k,
    {
        if k < self.children(n).len() && !is_named(self.data(self.children(n)[k]), name) {
            self.lemma_named_bounds(n, name, k + 1);
        }
    }

    /// After a splice, the children of `p` hold the trees that they held
    /// with the trees of the children of `f` put in at `i`, as long as
    /// `f` is not below `p`.
    pub proof fn lemma_splice_tree(self, p: NodeRepr, i: int, f: NodeRepr)
        requires
            self.wf(),
            self.has(p),
            self.has(f),
            self.kind(p).is_container(),
            !self.is_ancestor_or_self(f, p),
            !self.is_ancestor_or_self(p, f),
            0 <= i <= self.children(p).len(),
        ensures
            self.splice(p, i, f).wf(),
            self.splice(p, i, f).tree(p).children == self.tree(p).children.subrange(0, i) + self.tree(
                f,
            ).children + self.tree(p).children.subrange(i, self.children(p).len() as int),
            self.splice(p, i, f).tree(p).data == self.tree(p).data,
    {
        let s = self.splice(p, i, f);
        let kept = self.children(p);
        let moved = self.children(f);
        self.lemma_ranked();
        self.lemma_splice_upto(p, i, f, moved.len() as int);
        self.lemma_splice_nodes(p, i, f, moved.len() as int);
        self.lemma_tree_children(p);
        self.lemma_tree_children(f);
        s.lemma_tree_children(p);
        assert(moved.subrange(0, moved.len() as int) =~= moved);
        assert(s.node(p) == self.splice_node(p, i, f, moved.len() as int, p));
        let now = kept.subrange(0, i) + moved + kept.subrange(i, kept.len() as int);
        assert(s.children(p) == now);
        let want = self.tree(p).children.subrange(0, i) + self.tree(f).children + self.tree(
            p,
        ).children.subrange(i, kept.len() as int);
        assert forall|j: int| 0 <= j < now.len() implies s.tree(p).children[j] == want[j] by {
            let c = now[j];
            assert(s.tree(p).children[j] == s.tree(c));
            if j < i {
                assert(c == kept[j]);
                assert(self.children(p)[j] == c);
                self.lemma_splice_child_tree(p, i, f, c, p);
                assert(want[j] == self.tree(p).children[j]);
            } else if j < i + moved.len() {
                assert(c == moved[j - i]);
                assert(self.children(f)[j - i] == c);
                self.lemma_splice_child_tree(p, i, f, c, f);
                assert(want[j] == self.tree(f).children[j - i]);
            } else {
                assert(c == kept[j - moved.len()]);
                assert(self.children(p)[j - moved.len()] == c);
                self.lemma_splice_child_tree(p, i, f, c, p);
                assert(want[j] == self.tree(p).children[j - moved.len()]);
            }
        }
        assert(s.tree(p).children =~= want);
    }

    /// A splice changes nothing below a child of `p` or of `f`, as long
    /// as `f` is not below `p`.
    pub proof fn lemma_splice_child_tree(self, p: NodeRepr, i: int, f: NodeRepr, c: NodeRepr, q: NodeRepr)
        requires
            self.wf(),
            self.has(p),
            self.has(f),
            self.kind(p).is_container(),
            !self.is_ancestor_or_self(f, p),
            !self.is_ancestor_or_self(p, f),
            0 <= i <= self.children(p).len(),
            q == p || q == f,
            self.has(c),
            self.parent(c) == Some(q),
        ensures
            self.splice(p, i, f).tree(c) == self.tree(c),
    {
        let s = self.splice(p, i, f);
        let moved = self.children(f);
        self.lemma_ranked();
        self.lemma_splice_upto(p, i, f, moved.len() as int);
        self.lemma_splice_nodes(p, i, f, moved.len() as int);
        assert forall|x: NodeRepr|
            self.has(x) && #[trigger] self.is_ancestor_or_self(c, x) implies s.has(x)
            && s.children(x) == self.children(x) && s.data(x) == self.data(x) by {
            assert(s.node(x) == self.splice_node(p, i, f, moved.len() as int, x));
            self.lemma_child_not_above(q, c);
            self.lemma_parent_is_ancestor(c);
            if x == p {
                if q == f {
                    self.lemma_ancestor_trans(f, c, p);
                }
            }
            if x == f {
                if q == p {
                    self.lemma_ancestor_trans(p, c, f);
                }
            }
        }
        self.lemma_tree_frame(s, c);
    }

    /// What clearing a node changes: the node loses its children, and
    /// they lose their parent.
    pub proof fn lemma_cleared(self, n: NodeRepr)
        requires
            self.wf(),
            self.has(n),
        ensures
            self.cleared(n).wf(),
            self.cleared(n).same_payloads(self),
            self.cleared(n).children(n).len() == 0,
            self.cleared(n).parent(n) == self.parent(n),
            forall|x: NodeRepr|
                self.has(x) && x != n ==> #[trigger] self.cleared(n).children(x) == self.children(x),
            forall|x: NodeRepr|
                self.has(x) && self.parent(x) != Some(n) ==> #[trigger] self.cleared(n).parent(x)
                    == self.parent(x),
            forall|x: NodeRepr|
                self.has(x) && self.parent(x) == Some(n) ==> #[trigger] self.cleared(n).parent(x)
                    is None,
    {
        let kids = self.children(n);
        self.lemma_ranked();
        self.lemma_cleared_upto(n, kids.len() as int);
        self.lemma_cleared_nodes(n, kids.len() as int);
        let s = self.cleared(n);
        assert(kids.subrange(0, kids.len() as int) =~= kids);
        assert forall|x: NodeRepr| self.has(x) implies #[trigger] s.node(x) == self.cleared_node(
            n,
            kids.len() as int,
            x,
        ) by {}
        assert forall|x: NodeRepr|
            self.has(x) && self.parent(x) != Some(n) implies #[trigger] s.parent(x) == self.parent(
            x,
        ) by {
            assert(s.node(x) == self.cleared_node(n, kids.len() as int, x));
            if kids.contains(x) {
                let w = choose|w: int| 0 <= w < kids.len() && kids[w] == x;
                assert(self.children(n)[w] == x);
            }
        }
        assert forall|x: NodeRepr|
            self.has(x) && self.parent(x) == Some(n) implies #[trigger] s.parent(x) is None by {
            assert(s.node(x) == self.cleared_node(n, kids.len() as int, x));
            assert(self.children(n).contains(x));
        }
        assert forall|x: NodeRepr| self.has(x) && x != n implies #[trigger] s.children(x)
            == self.children(x) by {
            assert(s.node(x) == self.cleared_node(n, kids.len() as int, x));
        }
        assert(s.node(n) == self.cleared_node(n, kids.len() as int, n));
    }
}

impl DomView {
    /// New nodes are neither above nor below the nodes that were there,
    /// as long as their root is new.
    pub proof fn lemma_new_tree_apart(self, old: DomView, f: NodeRepr, p: NodeRepr)
        requires
            self.wf(),
            old.wf(),
            self.extends(old),
            old.has(p),
            self.has(f),
            !old.has(self.root_of(f)),
        ensures
            !self.is_ancestor_or_self(f, p),
            !self.is_ancestor_or_self(p, f),
    {
        old.lemma_ranked();
        self.lemma_ranked();
        assert forall|m: NodeRepr|
            old.has(m) && #[trigger] old.is_ancestor_or_self(m, p) implies self.has(m)
            && self.parent(m) == old.parent(m) by {
            assert(self.node(m) == old.node(m));
        }
        old.lemma_same_chain(self, f, p);
        old.lemma_same_chain(self, self.root_of(f), p);
        if old.is_ancestor_or_self(f, p) {
            old.lemma_ancestor_rank(f, p);
            self.lemma_root(f);
            self.lemma_ancestor_trans(self.root_of(f), f, p);
            old.lemma_ancestor_rank(self.root_of(f), p);
        }
        if self.is_ancestor_or_self(p, f) {
            self.lemma_old_root(old, p, f);
        }
    }

    /// A node that has an old node above it has an old root.
    pub proof fn lemma_old_root(self, old: DomView, p: NodeRepr, n: NodeRepr)
        requires
            self.wf(),
            old.wf(),
            self.extends(old),
            old.has(p),
            self.has(n),
            self.is_ancestor_or_self(p, n),
        ensures
            old.has(self.root_of(n)),
        decreases self.up(n),
    {
        self.lemma_ranked();
        old.lemma_ranked();
        if n == p {
            self.lemma_root_of_old(old, p);
        } else {
            self.lemma_old_root(old, p, self.parent(n)->0);
        }
    }

    /// The root of an old node is old.
    pub proof fn lemma_root_of_old(self, old: DomView, p: NodeRepr)
        requires
            self.wf(),
            old.wf(),
            self.extends(old),
            old.has(p),
        ensures
            old.has(self.root_of(p)),
        decreases old.up(p),
    {
        self.lemma_ranked();
        old.lemma_ranked();
        assert(self.node(p) == old.node(p));
        if old.parent(p) is Some {
            self.lemma_root_of_old(old, old.parent(p)->0);
        }
    }

    /// The arena after the text of `n` has been replaced: character data
    /// is set; an element or a fragment loses its children and gets one
    /// text node, or none for an empty text; any other node stays as it
    /// is.
    pub open spec fn set_text_content(self, n: NodeRepr, s: Seq<char>) -> DomView {
        if self.kind(n).is_character_data() {
            self.with_text(n, s)
        } else if self.kind(n) is Element || self.kind(n) is DocumentFragment {
            if s.len() == 0 {
                self.cleared(n)
            } else {
                self.cleared(n).create(NodeDataView::Text { contents: s }).insert(
                    n,
                    0,
                    NodeRepr(self.nodes.len() as usize),
                )
            }
        } else {
            self
        }
    }
}

impl Dom {
    /// Parses a text as a fragment: the nodes that it yields are the
    /// children of the node handed back, which is the body of a newly
    /// parsed document, or that document itself when it has no body.
    pub fn parse_fragment(&mut self, html: &str) -> (res: Result<NodeRepr, DomError>)
        requires
            old(self).wf(),
        ensures
            final(self).wf(),
            final(self)@.extends(old(self)@),
            res is Ok <==> readable(html@),
            res is Err ==> res == Err::<NodeRepr, DomError>(DomError::Internal),
            res is Ok ==> {
                &&& final(self)@.has(res->Ok_0)
                &&& !old(self)@.has(final(self)@.root_of(res->Ok_0))
                &&& final(self)@.tree(res->Ok_0).children == fragment_trees(parsed_document(html@))
            },
    {
        let root = match self.parse_tree(html) {
            Ok(r) => r,
            Err(e) => {
                return Err(e);
            },
        };
        proof {
            self@.lemma_ranked();
            self@.lemma_child_named_tree(root, "html"@);
            assert(self@.root_of(root) == root);
        }
        match self.landmark(root, "body") {
            Some(body) => {
                proof {
                    let html_node = self@.child_named(root, "html"@)->0;
                    self@.lemma_child_named_tree(html_node, "body"@);
                    assert(self@.parent(body) == Some(html_node));
                    assert(self@.parent(html_node) == Some(root));
                    assert(self@.root_of(body) == self@.root_of(html_node));
                    assert(self@.root_of(html_node) == self@.root_of(root));
                    assert(self@.tree(root).data == self@.data(root));
                }
                Ok(body)
            },
            None => {
                proof {
                    if self@.kind(root) is Document && self@.child_named(root, "html"@) is Some {
                        let html_node = self@.child_named(root, "html"@)->0;
                        self@.lemma_child_named_tree(html_node, "body"@);
                    }
                    assert(self@.tree(root).data == self@.data(root));
                }
                Ok(root)
            },
        }
    }
}

impl NodeRepr {
    /// Replaces the text of this node: character data is set; an element
    /// or a fragment loses its children and gets one new text node, or
    /// none for an empty text; any other node stays as it is.
    pub fn set_text_content(&self, dom: &mut Dom, text: String)
        requires
            old(dom).wf(),
            old(dom)@.has(*self),
        ensures
            final(dom).wf(),
            final(dom)@ == old(dom)@.set_text_content(*self, text@),
    {
        let kind = dom.kind_of(*self);
        if kind.has_character_data() {
            dom.set_text(*self, text);
        } else if kind == NodeKind::Element || kind == NodeKind::DocumentFragment {
            let ghost v0 = dom@;
            dom.clear_children(*self);
            if text.as_str().unicode_len() > 0 {
                let fresh = dom.create(NodeData::Text { contents: text });
                proof {
                    dom@.lemma_ranked();
                    assert(!dom@.is_ancestor_or_self(fresh, *self)) by {
                        if dom@.is_ancestor_or_self(fresh, *self) {
                            crate::chardata::lemma_leaf_above(dom@, fresh, *self);
                        }
                    }
                }
                dom.insert(*self, 0, fresh);
            }
        }
    }
}

/// A place next to a node or at an end of its children.
#[derive(Clone, Copy, Debug, PartialEq, Eq, Structural)]
pub enum Adjacent {
    /// Before the node, in its parent.
    BeforeBegin,
    /// At the start of the children of the node.
    AfterBegin,
    /// At the end of the children of the node.
    BeforeEnd,
    /// After the node, in its parent.
    AfterEnd,
}

/// The place that a word names, letter case apart.
pub open spec fn adjacent_of(position: Seq<char>) -> Option<Adjacent> {
    if lower(position) == "beforebegin"@ {
        Some(Adjacent::BeforeBegin)
    } else if lower(position) == "afterbegin"@ {
        Some(Adjacent::AfterBegin)
    } else if lower(position) == "beforeend"@ {
        Some(Adjacent::BeforeEnd)
    } else if lower(position) == "afterend"@ {
        Some(Adjacent::AfterEnd)
    } else {
        None
    }
}

/// The place that a word names, letter case apart.
pub fn parse_adjacent(position: &str) -> (res: Option<Adjacent>)
    ensures
        res == adjacent_of(position@),
{
    let low = to_lower(position);
    if same_text(low.as_str(), "beforebegin") {
        Some(Adjacent::BeforeBegin)
    } else if same_text(low.as_str(), "afterbegin") {
        Some(Adjacent::AfterBegin)
    } else if same_text(low.as_str(), "beforeend") {
        Some(Adjacent::BeforeEnd)
    } else if same_text(low.as_str(), "afterend") {
        Some(Adjacent::AfterEnd)
    } else {
        None
    }
}

impl DomView {
    /// The parent and the position at which something put at the place
    /// `a` of `n` goes. There is none before or after a node without a
    /// parent.
    pub open spec fn adjacent_slot(self, n: NodeRepr, a: Adjacent) -> Option<(NodeRepr, int)> {
        match a {
            Adjacent::AfterBegin => Some((n, 0)),
            Adjacent::BeforeEnd => Some((n, self.children(n).len() as int)),
            Adjacent::BeforeBegin => if self.parent(n) is Some {
                Some((self.parent(n)->0, self.position(self.parent(n)->0, n)))
            } else {
                None
            },
            Adjacent::AfterEnd => if self.parent(n) is Some {
                Some((self.parent(n)->0, self.position(self.parent(n)->0, n) + 1))
            } else {
                None
            },
        }
    }

    /// The arena after `c` has been put at the place `a` of `n`.
    pub open spec fn put_adjacent(self, n: NodeRepr, a: Adjacent, c: NodeRepr) -> DomView {
        match a {
            Adjacent::AfterBegin => self.prepend(n, c),
            Adjacent::BeforeEnd => self.append(n, c),
            Adjacent::BeforeBegin => self.insert_before(self.parent(n)->0, c, n),
            Adjacent::AfterEnd => self.insert_after(self.parent(n)->0, c, n),
        }
    }

    /// This arena is `old` with new trees put among the children of `p`
    /// at `i`: the nodes that were there are as they were, but for the
    /// children of `p`, which now hold `trees` between those that were
    /// before `i` and those that were from `i + gap` on.
    pub open spec fn holds_trees_in(self, old: DomView, p: NodeRepr, i: int, gap: int, trees: Seq<DomTree>) -> bool {
        &&& old.nodes.len() <= self.nodes.len()
        &&& self.parent(p) == old.parent(p)
        &&& self.data(p) == old.data(p)
        &&& self.tree(p).children == old.tree(p).children.subrange(0, i) + trees + old.tree(
            p,
        ).children.subrange(i + gap, old.children(p).len() as int)
    }

    /// Clearing `n` changes neither the ancestors of a node that is not
    /// below `n`, nor the tree of a node that `n` is not in.
    pub proof fn lemma_cleared_keeps(self, n: NodeRepr, r: NodeRepr, a: NodeRepr)
        requires
            self.wf(),
            self.has(n),
            self.has(r),
            r == n || !self.is_ancestor_or_self(n, r),
        ensures
            self.cleared(n).is_ancestor_or_self(a, r) == self.is_ancestor_or_self(a, r),
            self.cleared(n).root_of(r) == self.root_of(r),
            !self.is_ancestor_or_self(r, n) ==> self.cleared(n).tree(r) == self.tree(r),
    {
        self.lemma_ranked();
        self.lemma_cleared(n);
        let s = self.cleared(n);
        assert forall|m: NodeRepr|
            self.has(m) && #[trigger] self.is_ancestor_or_self(m, r) implies s.has(m) && s.parent(
            m,
        ) == self.parent(m) by {
            if self.parent(m) == Some(n) {
                self.lemma_parent_is_ancestor(m);
                self.lemma_ancestor_trans(n, m, r);
                self.lemma_child_not_above(n, m);
            }
        }
        self.lemma_same_chain(s, a, r);
        if !self.is_ancestor_or_self(r, n) {
            assert forall|x: NodeRepr|
                self.has(x) && #[trigger] self.is_ancestor_or_self(r, x) implies s.has(x)
                && s.children(x) == self.children(x) && s.data(x) == self.data(x) by {
                assert(x != n);
                assert(s.data(x) == self.data(x));
            }
            self.lemma_tree_frame(s, r);
        }
    }
}

impl Dom {
    /// Parses a text as a fragment and puts the nodes that it yields
    /// among the children of `p` at position `i`.
    pub(crate) fn insert_fragment(&mut self, p: NodeRepr, i: usize, html: &str) -> (res: Result<(), DomError>)
        requires
            old(self).wf(),
            old(self)@.has(p),
            old(self)@.kind(p).is_container(),
            i <= old(self)@.children(p).len(),
        ensures
            final(self).wf(),
            res is Ok <==> readable(html@),
            res is Err ==> res == Err::<(), DomError>(DomError::Internal) && final(self)@.extends(
                old(self)@,
            ),
            res is Ok ==> final(self)@.holds_trees_in(
                old(self)@,
                p,
                i as int,
                0,
                fragment_trees(parsed_document(html@)),
            ),
            res is Ok ==> forall|x: NodeRepr|
                old(self)@.has(x) && x != p ==> #[trigger] final(self)@.node(x) == old(self)@.node(x),
            res is Ok ==> final(self)@.children(p).len() == old(self)@.children(p).len()
                + fragment_trees(parsed_document(html@)).len(),
            res is Ok ==> forall|k: int|
                0 <= k < i ==> #[trigger] final(self)@.children(p)[k] == old(self)@.children(p)[k],
            res is Ok ==> forall|k: int|
                i <= k < old(self)@.children(p).len() ==> final(self)@.children(p)[k
                    + fragment_trees(parsed_document(html@)).len()] == #[trigger] old(self)@.children(p)[k],
    {
        let ghost v0 = self@;
        let f = match self.parse_fragment(html) {
            Ok(f) => f,
            Err(e) => {
                return Err(e);
            },
        };
        let ghost v1 = self@;
        proof {
            v0.lemma_ranked();
            v1.lemma_ranked();
            v1.lemma_new_tree_apart(v0, f, p);
            assert(v1.node(p) == v0.node(p));
            v1.lemma_extends_keeps_tree(v0, p);
            v1.lemma_splice_tree(p, i as int, f);
            v1.lemma_splice_nodes(p, i as int, f, v1.children(f).len() as int);
            v1.lemma_tree_children(f);
        }
        self.splice(p, i, f);
        proof {
            let v2 = self@;
            let moved = v1.children(f);
            assert(moved.subrange(0, moved.len() as int) =~= moved);
            assert(v2.node(p) == v1.splice_node(p, i as int, f, moved.len() as int, p));
            assert forall|x: NodeRepr| v0.has(x) && x != p implies #[trigger] v2.node(x) == v0.node(
                x,
            ) by {
                assert(v1.node(x) == v0.node(x));
                assert(v2.node(x) == v1.splice_node(p, i as int, f, moved.len() as int, x));
                assert(x != f) by {
                    if x == f {
                        v1.lemma_root(f);
                        v1.lemma_root_of_old(v0, f);
                    }
                }
                if moved.contains(x) {
                    let w = choose|w: int| 0 <= w < moved.len() && moved[w] == x;
                    assert(v1.children(f)[w] == x);
                    assert(v1.parent(x) == Some(f));
                    assert(v0.parent(x) == Some(f));
                    assert(v0.has(f));
                    v1.lemma_root(f);
                    v1.lemma_root_of_old(v0, f);
                }
            }
            let kept = v0.children(p);
            assert(v2.children(p) == kept.subrange(0, i as int) + moved + kept.subrange(
                i as int,
                kept.len() as int,
            ));
        }
        Ok(())
    }
}

impl NodeRepr {
    /// Replaces the children of this node by the nodes that the text
    /// yields when it is parsed as a fragment. The former children are
    /// left without a parent.
    pub fn set_inner_html(&self, dom: &mut Dom, html: String) -> (res: Result<(), DomError>)
        requires
            old(dom).wf(),
            old(dom)@.has(*self),
        ensures
            final(dom).wf(),
            !old(dom)@.kind(*self).is_container() ==> res == Err::<(), DomError>(
                DomError::InvalidState,
            ) && final(dom)@ == old(dom)@,
            old(dom)@.kind(*self).is_container() && !readable(html@) ==> res
                == Err::<(), DomError>(DomError::Internal),
            old(dom)@.kind(*self).is_container() && readable(html@) ==> res
                is Ok,
            res is Err ==> final(dom)@.extends(old(dom)@),
            res is Ok ==> final(dom)@.holds_trees_in(
                old(dom)@,
                *self,
                0,
                old(dom)@.children(*self).len() as int,
                fragment_trees(parsed_document(html@)),
            ),
            res is Ok ==> forall|x: NodeRepr|
                old(dom)@.has(x) && x != *self ==> #[trigger] final(dom)@.node(x) == old(dom)@.cleared(*self).node(x),
    {
        if !dom.kind_of(*self).can_have_children() {
            return Err(DomError::InvalidState);
        }
        let ghost v0 = dom@;
        let p = *self;
        let f = match dom.parse_fragment(html.as_str()) {
            Ok(f) => f,
            Err(e) => {
                return Err(e);
            },
        };
        let ghost v1 = dom@;
        proof {
            v0.lemma_ranked();
            v1.lemma_ranked();
            v1.lemma_new_tree_apart(v0, f, p);
            assert(v1.node(p) == v0.node(p));
            v1.lemma_cleared(p);
            v1.lemma_cleared_keeps(p, f, f);
            v1.lemma_cleared_keeps(p, f, p);
            v1.lemma_cleared_keeps(p, p, f);
            v1.lemma_cleared_keeps(p, p, p);
        }
        dom.clear_children(p);
        let ghost v2 = dom@;
        proof {
            v2.lemma_ranked();
            v2.lemma_splice_tree(p, 0, f);
            v2.lemma_splice_nodes(p, 0, f, v2.children(f).len() as int);
            v2.lemma_tree_children(p);
            assert(v2.tree(p).children =~= Seq::<DomTree>::empty());
        }
        dom.splice(p, 0, f);
        proof {
            let v3 = dom@;
            let moved = v2.children(f);
            v0.lemma_cleared(p);
            v0.lemma_cleared_nodes(p, v0.children(p).len() as int);
            v1.lemma_cleared_nodes(p, v1.children(p).len() as int);
            assert(moved.subrange(0, moved.len() as int) =~= moved);
            assert(v3.node(p) == v2.splice_node(p, 0, f, moved.len() as int, p));
            assert(v3.tree(p).children =~= fragment_trees(parsed_document(html@)));
            let t0 = v0.tree(p).children;
            v0.lemma_tree_children(p);
            assert(t0.subrange(0, 0) + fragment_trees(parsed_document(html@)) + t0.subrange(
                v0.children(p).len() as int,
                v0.children(p).len() as int,
            ) =~= fragment_trees(parsed_document(html@)));
            assert forall|x: NodeRepr| v0.has(x) && x != p implies #[trigger] v3.node(x)
                == v0.cleared(p).node(x) by {
                assert(v1.node(x) == v0.node(x));
                assert(v2.node(x) == v1.cleared_node(p, v1.children(p).len() as int, x));
                assert(v0.cleared(p).node(x) == v0.cleared_node(p, v0.children(p).len() as int, x));
                assert(v3.node(x) == v2.splice_node(p, 0, f, moved.len() as int, x));
                assert(x != f) by {
                    if x == f {
                        v1.lemma_root(f);
                        v1.lemma_root_of_old(v0, f);
                    }
                }
                if moved.contains(x) {
                    let w = choose|w: int| 0 <= w < moved.len() && moved[w] == x;
                    assert(v2.children(f)[w] == x);
                    assert(v1.children(f)[w] == x);
                    assert(v1.parent(x) == Some(f));
                    assert(v0.parent(x) == Some(f));
                    assert(v0.has(f));
                    v1.lemma_root(f);
                    v1.lemma_root_of_old(v0, f);
                }
            }
        }
        Ok(())
    }

    /// Parses the text as a fragment and puts the nodes that it yields
    /// at the named place: `beforebegin`, `afterbegin`, `beforeend` or
    /// `afterend`, letter case apart. Before or after a node without a
    /// parent nothing happens.
    pub fn insert_adjacent_html(&self, dom: &mut Dom, position: String, html: String) -> (res: Result<
        (),
        DomError,
    >)
        requires
            old(dom).wf(),
            old(dom)@.has(*self),
        ensures
            final(dom).wf(),
            adjacent_of(position@) is None ==> res == Err::<(), DomError>(DomError::Syntax) && final(dom)@ == old(dom)@,
            adjacent_of(position@) is Some && old(dom)@.adjacent_slot(
                *self,
                adjacent_of(position@)->0,
            ) is None ==> res is Ok && final(dom)@ == old(dom)@,
            adjacent_of(position@) is Some && old(dom)@.adjacent_slot(
                *self,
                adjacent_of(position@)->0,
            ) is Some ==> {
                let (p, i) = old(dom)@.adjacent_slot(*self, adjacent_of(position@)->0)->0;
                let trees = fragment_trees(parsed_document(html@));
                &&& !old(dom)@.kind(p).is_container() ==> res == Err::<(), DomError>(
                    DomError::HierarchyRequest,
                ) && final(dom)@ == old(dom)@
                &&& old(dom)@.kind(p).is_container() ==> (res is Ok <==> readable(html@))
                &&& old(dom)@.kind(p).is_container() && res is Err ==> res == Err::<(), DomError>(
                    DomError::Internal,
                ) && final(dom)@.extends(old(dom)@)
                &&& res is Ok ==> final(dom)@.holds_trees_in(old(dom)@, p, i, 0, trees)
                &&& res is Ok ==> forall|x: NodeRepr|
                    old(dom)@.has(x) && x != p ==> #[trigger] final(dom)@.node(x) == old(dom)@.node(
                        x,
                    )
            },
    {
        proof {
            dom@.lemma_ranked();
        }
        let place = match parse_adjacent(position.as_str()) {
            Some(a) => a,
            None => {
                return Err(DomError::Syntax);
            },
        };
        let (p, i) = match place {
            Adjacent::AfterBegin => (*self, 0),
            Adjacent::BeforeEnd => (*self, dom.children_of(*self).len()),
            Adjacent::BeforeBegin => {
                match dom.parent_of(*self) {
                    Some(p) => (p, index_in(dom.children_of(p), *self)),
                    None => {
                        return Ok(());
                    },
                }
            },
            Adjacent::AfterEnd => {
                match dom.parent_of(*self) {
                    Some(p) => (p, index_in(dom.children_of(p), *self) + 1),
                    None => {
                        return Ok(());
                    },
                }
            },
        };
        if !dom.kind_of(p).can_have_children() {
            return Err(DomError::HierarchyRequest);
        }
        dom.insert_fragment(p, i, html.as_str())
    }
}

impl NodeRepr {
    /// Puts the nodes that the text yields, parsed as a fragment, in the
    /// place of this node in its parent, and leaves this node without a
    /// parent. Nothing happens when this node has no parent.
    pub fn set_outer_html(&self, dom: &mut Dom, html: String) -> (res: Result<(), DomError>)
        requires
            old(dom).wf(),
            old(dom)@.has(*self),
        ensures
            final(dom).wf(),
            old(dom)@.parent(*self) is None ==> res is Ok && final(dom)@ == old(dom)@,
            old(dom)@.parent(*self) is Some ==> (res is Ok <==> readable(html@)),
            res is Err ==> res == Err::<(), DomError>(DomError::Internal) && final(dom)@.extends(
                old(dom)@,
            ),
            res is Ok && old(dom)@.parent(*self) is Some ==> {
                let p = old(dom)@.parent(*self)->0;
                &&& final(dom)@.holds_trees_in(
                    old(dom)@,
                    p,
                    old(dom)@.position(p, *self),
                    1,
                    fragment_trees(parsed_document(html@)),
                )
                &&& final(dom)@.node(*self) == (NodeView { parent: None, ..old(dom)@.node(*self) })
                &&& forall|x: NodeRepr|
                    old(dom)@.has(x) && x != p && x != *self ==> #[trigger] final(dom)@.node(x)
                        == old(dom)@.node(x)
            },
    {
        let ghost v0 = dom@;
        proof {
            v0.lemma_ranked();
        }
        let p = match dom.parent_of(*self) {
            Some(p) => p,
            None => {
                return Ok(());
            },
        };
        let k = index_in(dom.children_of(p), *self);
        match dom.insert_fragment(p, k, html.as_str()) {
            Ok(()) => {},
            Err(e) => {
                return Err(e);
            },
        }
        let ghost v1 = dom@;
        let ghost trees = fragment_trees(parsed_document(html@));
        proof {
            v1.lemma_ranked();
            v0.lemma_tree_children(p);
            v1.lemma_tree_children(p);
            assert(v1.children(p)[k + trees.len()] == v0.children(p)[k as int]);
            assert(v1.node(*self) == v0.node(*self));
            assert(v1.children(p).contains(*self));
            assert(v1.position(p, *self) == k + trees.len());
            v1.lemma_detach(*self);
            crate::model::lemma_remove_entry(v1.children(p), k + trees.len());
        }
        dom.detach(*self);
        proof {
            let v2 = dom@;
            v2.lemma_tree_children(p);
            let t0 = v0.tree(p).children;
            let t1 = v1.tree(p).children;
            let want = t0.subrange(0, k as int) + trees + t0.subrange(k + 1, v0.children(p).len() as int);
            assert(v2.children(p) == v1.children(p).remove(k + trees.len()));
            assert forall|j: int| 0 <= j < v2.children(p).len() implies v2.tree(p).children[j]
                == want[j] by {
                let c = v2.children(p)[j];
                let j1 = if j < k + trees.len() {
                    j
                } else {
                    j + 1
                };
                assert(v1.children(p)[j1] == c);
                assert(v1.parent(c) == Some(p));
                v1.lemma_child_not_above(p, c);
                v1.lemma_detach_keeps_tree(*self, c);
                assert(v2.tree(c) == v1.tree(c));
                assert(t1[j1] == v1.tree(c));
            }
            assert(v2.tree(p).children =~= want);
            assert forall|x: NodeRepr| v0.has(x) && x != p && x != *self implies #[trigger] v2.node(
                x,
            ) == v0.node(x) by {
                assert(v1.node(x) == v0.node(x));
                assert(v2.parent(x) == v1.parent(x));
                assert(v2.children(x) == v1.children(x));
                assert(v2.data(x) == v1.data(x));
            }
            assert(v2.data(*self) == v1.data(*self));
            assert(v2.data(p) == v1.data(p));
            assert(p != *self);
        }
        Ok(())
    }

    /// Makes a text node with the given text and puts it at the named
    /// place: `beforebegin`, `afterbegin`, `beforeend` or `afterend`,
    /// letter case apart. Before or after a node without a parent
    /// nothing happens.
    pub fn insert_adjacent_text(&self, dom: &mut Dom, position: String, text: String) -> (res: Result<
        (),
        DomError,
    >)
        requires
            old(dom).wf(),
            old(dom)@.has(*self),
        ensures
            final(dom).wf(),
            res is Err ==> final(dom)@ == old(dom)@,
            adjacent_of(position@) is None ==> res == Err::<(), DomError>(DomError::Syntax),
            adjacent_of(position@) is Some && old(dom)@.adjacent_slot(
                *self,
                adjacent_of(position@)->0,
            ) is None ==> res is Ok && final(dom)@ == old(dom)@,
            adjacent_of(position@) is Some && old(dom)@.adjacent_slot(
                *self,
                adjacent_of(position@)->0,
            ) is Some ==> {
                let (p, i) = old(dom)@.adjacent_slot(*self, adjacent_of(position@)->0)->0;
                &&& !old(dom)@.kind(p).is_container() ==> res == Err::<(), DomError>(
                    DomError::HierarchyRequest,
                )
                &&& old(dom)@.kind(p).is_container() ==> res is Ok && final(dom)@ == old(
                    dom)@.create(NodeDataView::Text { contents: text@ }).insert(
                    p,
                    i,
                    NodeRepr(old(dom)@.nodes.len() as usize),
                )
            },
    {
        proof {
            dom@.lemma_ranked();
        }
        let place = match parse_adjacent(position.as_str()) {
            Some(a) => a,
            None => {
                return Err(DomError::Syntax);
            },
        };
        let (p, i) = match place {
            Adjacent::AfterBegin => (*self, 0),
            Adjacent::BeforeEnd => (*self, dom.children_of(*self).len()),
            Adjacent::BeforeBegin => {
                match dom.parent_of(*self) {
                    Some(p) => (p, index_in(dom.children_of(p), *self)),
                    None => {
                        return Ok(());
                    },
                }
            },
            Adjacent::AfterEnd => {
                match dom.parent_of(*self) {
                    Some(p) => (p, index_in(dom.children_of(p), *self) + 1),
                    None => {
                        return Ok(());
                    },
                }
            },
        };
        if !dom.kind_of(p).can_have_children() {
            return Err(DomError::HierarchyRequest);
        }
        let fresh = dom.create(NodeData::Text { contents: text });
        proof {
            dom@.lemma_ranked();
            assert(!dom@.is_ancestor_or_self(fresh, p)) by {
                if dom@.is_ancestor_or_self(fresh, p) {
                    crate::chardata::lemma_leaf_above(dom@, fresh, p);
                }
            }
        }
        dom.insert(p, i, fresh);
        Ok(())
    }

    /// Puts `element` at the named place: `beforebegin`, `afterbegin`,
    /// `beforeend` or `afterend`, letter case apart. Before or after a
    /// node without a parent nothing happens.
    pub fn insert_adjacent_element(&self, dom: &mut Dom, position: String, element: &NodeRepr) -> (res:
        Result<(), DomError>)
        requires
            old(dom).wf(),
            old(dom)@.has(*self),
            old(dom)@.has(*element),
        ensures
            final(dom).wf(),
            res is Err ==> final(dom)@ == old(dom)@,
            adjacent_of(position@) is None ==> res == Err::<(), DomError>(DomError::Syntax),
            adjacent_of(position@) is Some && old(dom)@.adjacent_slot(
                *self,
                adjacent_of(position@)->0,
            ) is None ==> res is Ok && final(dom)@ == old(dom)@,
            adjacent_of(position@) is Some && old(dom)@.adjacent_slot(
                *self,
                adjacent_of(position@)->0,
            ) is Some ==> {
                let (p, i) = old(dom)@.adjacent_slot(*self, adjacent_of(position@)->0)->0;
                &&& !old(dom)@.can_place(p, *element) ==> res == Err::<(), DomError>(
                    DomError::HierarchyRequest,
                )
                &&& old(dom)@.can_place(p, *element) ==> res is Ok && final(dom)@ == old(
                    dom)@.put_adjacent(*self, adjacent_of(position@)->0, *element)
            },
    {
        let place = match parse_adjacent(position.as_str()) {
            Some(a) => a,
            None => {
                return Err(DomError::Syntax);
            },
        };
        match place {
            Adjacent::AfterBegin => self.prepend(dom, element),
            Adjacent::BeforeEnd => self.append(dom, element),
            Adjacent::BeforeBegin => self.before(dom, element),
            Adjacent::AfterEnd => self.after(dom, element),
        }
    }
}

} // verus!
