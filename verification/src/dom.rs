//! The node arena and its primitive operations.

use vstd::prelude::*;
use crate::node::NodeKind;
use crate::node::NodeData;
use crate::node::Attribute;
use crate::node::attrs_view;
use crate::model::NodeRepr;
use crate::model::NodeView;
use crate::model::DomView;

verus! {

/// One arena slot.
pub struct Slot {
    parent: Option<NodeRepr>,
    children: Vec<NodeRepr>,
    data: NodeData,
    template_contents: Option<NodeRepr>,
}

impl View for Slot {
    type V = NodeView;

    closed spec fn view(&self) -> NodeView {
        NodeView {
            parent: self.parent,
            children: self.children@,
            data: self.data@,
            template_contents: self.template_contents,
        }
    }
}

/// An arena of nodes. Trees live in it as parent and child links between
/// slots; a slot, once made, stays, so a handle never dangles.
pub struct Dom {
    nodes: Vec<Slot>,
}

impl View for Dom {
    type V = DomView;

    closed spec fn view(&self) -> DomView {
        DomView { nodes: Seq::new(self.nodes@.len(), |i: int| self.nodes@[i]@) }
    }
}

/// The index of `c` in a list that holds it once.
pub(crate) fn index_in(list: &Vec<NodeRepr>, c: NodeRepr) -> (k: usize)
    requires
        list@.contains(c),
        list@.no_duplicates(),
    ensures
        k < list.len(),
        list[k as int] == c,
        k == list@.index_of(c),
{
    let mut k: usize = 0;
    while list[k] != c
        invariant
            k < list.len(),
            list@.contains(c),
            forall|j: int| 0 <= j < k ==> list[j] != c,
        decreases list.len() - k,
    {
        proof {
            let w = choose|j: int| 0 <= j < list@.len() && list@[j] == c;
            assert(w > k);
        }
        k = k + 1;
    }
    k
}

impl Dom {
    /// The arena is well formed.
    pub open spec fn wf(&self) -> bool {
        self@.wf()
    }

    /// An empty arena.
    pub fn new() -> (dom: Dom)
        ensures
            dom.wf(),
            dom@.nodes.len() == 0,
    {
        let dom = Dom { nodes: Vec::new() };
        proof {
            let r = crate::model::Ranking { depth: Seq::empty(), cap: 0 };
            assert(dom@.ranked_by(r));
        }
        dom
    }

    /// The number of nodes ever made in this arena.
    pub fn len(&self) -> (n: usize)
        ensures
            n == self@.nodes.len(),
    {
        self.nodes.len()
    }

    /// Whether the handle names a node of this arena.
    pub fn has(&self, n: NodeRepr) -> (b: bool)
        ensures
            b == self@.has(n),
    {
        n.0 < self.nodes.len()
    }

    /// Makes a node with the given payload, without parent or children.
    pub fn create(&mut self, data: NodeData) -> (n: NodeRepr)
        requires
            old(self).wf(),
        ensures
            final(self).wf(),
            final(self)@ == old(self)@.create(data@),
            n.0 == old(self)@.nodes.len(),
            final(self)@.has(n),
            !old(self)@.has(n),
    {
        let ghost payload = data@;
        self.nodes.push(Slot { parent: None, children: Vec::new(), data, template_contents: None });
        let size = self.nodes.len();
        proof {
            assert(size == old(self)@.nodes.len() + 1);
            old(self)@.lemma_create(payload);
            assert(self@.nodes =~= old(self)@.create(payload).nodes);
        }
        NodeRepr(size - 1)
    }

    /// The parent of `n`.
    pub fn parent_of(&self, n: NodeRepr) -> (p: Option<NodeRepr>)
        requires
            self@.has(n),
        ensures
            p == self@.parent(n),
    {
        self.nodes[n.0].parent
    }

    /// The children of `n`, in order.
    pub fn children_of(&self, n: NodeRepr) -> (c: &Vec<NodeRepr>)
        requires
            self@.has(n),
        ensures
            c@ == self@.children(n),
    {
        &self.nodes[n.0].children
    }

    /// The payload of `n`.
    pub fn data_of(&self, n: NodeRepr) -> (d: &NodeData)
        requires
            self@.has(n),
        ensures
            d@ == self@.data(n),
    {
        &self.nodes[n.0].data
    }

    /// The kind of `n`.
    pub fn kind_of(&self, n: NodeRepr) -> (k: NodeKind)
        requires
            self@.has(n),
        ensures
            k == self@.kind(n),
    {
        self.nodes[n.0].data.kind()
    }

    /// Whether `a` is `n` or one of its ancestors.
    pub fn is_ancestor_or_self(&self, a: NodeRepr, n: NodeRepr) -> (b: bool)
        requires
            self.wf(),
            self@.has(n),
        ensures
            b == self@.is_ancestor_or_self(a, n),
    {
        let mut cur = n;
        loop
            invariant
                self.wf(),
                self@.has(cur),
                self@.is_ancestor_or_self(a, n) == self@.is_ancestor_or_self(a, cur),
            decreases self@.up(cur),
        {
            proof {
                self@.lemma_ranked();
            }
            if cur == a {
                return true;
            }
            match self.nodes[cur.0].parent {
                Some(p) => {
                    cur = p;
                },
                None => {
                    return false;
                },
            }
        }
    }

    /// Takes `c` out of its parent's children, if it has a parent.
    pub fn detach(&mut self, c: NodeRepr)
        requires
            old(self).wf(),
            old(self)@.has(c),
        ensures
            final(self).wf(),
            final(self)@ == old(self)@.detach(c),
    {
        proof {
            self@.lemma_ranked();
            self@.lemma_detach(c);
        }
        match self.nodes[c.0].parent {
            None => {},
            Some(p) => {
                let k = index_in(&self.nodes[p.0].children, c);
                self.nodes[p.0].children.remove(k);
                self.nodes[c.0].parent = None;
                assert(self@.nodes =~= old(self)@.detach(c).nodes);
            },
        }
    }

    /// Makes the parentless node `c` the child of `p` at position `i`.
    pub(crate) fn insert(&mut self, p: NodeRepr, i: usize, c: NodeRepr)
        requires
            old(self).wf(),
            old(self)@.has(p),
            old(self)@.has(c),
            old(self)@.parent(c) is None,
            !old(self)@.is_ancestor_or_self(c, p),
            old(self)@.kind(p).is_container(),
            old(self)@.kind(c).may_be_child(),
            i <= old(self)@.children(p).len(),
        ensures
            final(self).wf(),
            final(self)@ == old(self)@.insert(p, i as int, c),
    {
        proof {
            self@.lemma_ranked();
            self@.lemma_insert(p, i as int, c);
        }
        self.nodes[p.0].children.insert(i, c);
        self.nodes[c.0].parent = Some(p);
        assert(self@.nodes =~= old(self)@.insert(p, i as int, c).nodes);
    }
}

impl Dom {
    /// Moves all children of `f`, in order, into the children of `p` from
    /// position `i` on, all at once.
    pub(crate) fn splice(&mut self, p: NodeRepr, i: usize, f: NodeRepr)
        requires
            old(self).wf(),
            old(self)@.has(p),
            old(self)@.has(f),
            old(self)@.kind(p).is_container(),
            !old(self)@.is_ancestor_or_self(f, p),
            i <= old(self)@.children(p).len(),
        ensures
            final(self).wf(),
            final(self)@ == old(self)@.splice(p, i as int, f),
            final(self)@.same_payloads(old(self)@),
    {
        let ghost v0 = self@;
        let ghost kept = v0.children(p);
        let ghost gone = v0.children(f);
        proof {
            v0.lemma_ranked();
            v0.lemma_splice_upto(p, i as int, f, gone.len() as int);
            v0.lemma_splice_nodes(p, i as int, f, gone.len() as int);
            assert(v0.is_ancestor_or_self(p, p));
            assert(p != f);
            assert(!gone.contains(p)) by {
                if gone.contains(p) {
                    let w = choose|w: int| 0 <= w < gone.len() && gone[w] == p;
                    assert(v0.children(f)[w] == p);
                    v0.lemma_parent_is_ancestor(p);
                }
            }
            assert(!gone.contains(f)) by {
                if gone.contains(f) {
                    let w = choose|w: int| 0 <= w < gone.len() && gone[w] == f;
                    assert(v0.children(f)[w] == f);
                }
            }
        }
        let mut moved = self.nodes[f.0].children.split_off(0);
        let mut tail = self.nodes[p.0].children.split_off(i);
        proof {
            assert(moved@ =~= gone);
            assert(tail@ =~= kept.subrange(i as int, kept.len() as int));
            assert(self.nodes[f.0 as int].children@ =~= Seq::<NodeRepr>::empty());
            assert(self.nodes[p.0 as int].children@ =~= kept.subrange(0, i as int));
            assert(gone.subrange(0, 0) =~= Seq::<NodeRepr>::empty());
            assert forall|x: NodeRepr| v0.has(x) && x != p && x != f implies (
            #[trigger] self.nodes[x.0 as int])@ == v0.node(x) by {
                assert(self.nodes[x.0 as int] == old(self).nodes[x.0 as int]);
            }
        }
        let mut t: usize = 0;
        while t < moved.len()
            invariant
                v0 == old(self)@,
                v0.wf(),
                v0.has(p),
                v0.has(f),
                p != f,
                i <= v0.children(p).len(),
                moved@ == v0.children(f),
                !moved@.contains(p),
                !moved@.contains(f),
                t <= moved.len(),
                self.nodes.len() == v0.nodes.len(),
                self.nodes[f.0 as int]@ == (NodeView { children: Seq::empty(), ..v0.node(f) }),
                self.nodes[p.0 as int]@ == (NodeView {
                    children: v0.children(p).subrange(0, i as int),
                    ..v0.node(p)
                }),
                forall|x: NodeRepr|
                    v0.has(x) && x != p && x != f ==> (#[trigger] self.nodes[x.0 as int])@ == (
                    if moved@.subrange(0, t as int).contains(x) {
                        NodeView { parent: Some(p), ..v0.node(x) }
                    } else {
                        v0.node(x)
                    }),
            decreases moved.len() - t,
        {
            let c = moved[t];
            proof {
                v0.lemma_ranked();
                assert(v0.children(f)[t as int] == c);
                assert(v0.has(c));
                assert(moved@.contains(c));
                let done = moved@.subrange(0, t as int);
                let more = moved@.subrange(0, t + 1);
                assert(moved@.no_duplicates());
                assert(!done.contains(c)) by {
                    if done.contains(c) {
                        let w = choose|w: int| 0 <= w < done.len() && done[w] == c;
                        assert(moved@[w] == c);
                    }
                }
                assert forall|x: NodeRepr| more.contains(x) <==> (done.contains(x) || x == c) by {
                    if done.contains(x) {
                        let w = choose|w: int| 0 <= w < done.len() && done[w] == x;
                        assert(more[w] == x);
                    }
                    if x == c {
                        assert(more[t as int] == x);
                    }
                    if more.contains(x) {
                        let w = choose|w: int| 0 <= w < more.len() && more[w] == x;
                        if w < t {
                            assert(done[w] == x);
                        }
                    }
                }
            }
            self.nodes[c.0].parent = Some(p);
            t = t + 1;
        }
        self.nodes[p.0].children.append(&mut moved);
        self.nodes[p.0].children.append(&mut tail);
        proof {
            let want = v0.splice(p, i as int, f);
            assert(gone.subrange(0, gone.len() as int) =~= gone);
            assert forall|k: int| 0 <= k < v0.nodes.len() implies self@.nodes[k] == want.nodes[k] by {
                let x = NodeRepr(k as usize);
                assert(v0.has(x));
                assert(want.node(x) == v0.splice_node(p, i as int, f, gone.len() as int, x));
                if x == p {
                    assert(self.nodes[p.0 as int].children@ =~= kept.subrange(0, i as int) + gone
                        + kept.subrange(i as int, kept.len() as int));
                } else if x == f {
                    assert(gone.subrange(gone.len() as int, gone.len() as int)
                        =~= Seq::<NodeRepr>::empty());
                } else {
                    assert(self.nodes[x.0 as int]@ == (if gone.contains(x) {
                        NodeView { parent: Some(p), ..v0.node(x) }
                    } else {
                        v0.node(x)
                    }));
                }
            }
            assert(self@.nodes =~= want.nodes);
        }
    }

    /// Takes all children of `n` away from it, all at once.
    pub fn clear_children(&mut self, n: NodeRepr)
        requires
            old(self).wf(),
            old(self)@.has(n),
        ensures
            final(self).wf(),
            final(self)@ == old(self)@.cleared(n),
            final(self)@.same_payloads(old(self)@),
            final(self)@.children(n).len() == 0,
    {
        let ghost v0 = self@;
        let ghost gone = v0.children(n);
        proof {
            v0.lemma_ranked();
            v0.lemma_cleared_upto(n, gone.len() as int);
            v0.lemma_cleared_nodes(n, gone.len() as int);
            assert(!gone.contains(n)) by {
                if gone.contains(n) {
                    let w = choose|w: int| 0 <= w < gone.len() && gone[w] == n;
                    assert(v0.children(n)[w] == n);
                }
            }
        }
        let moved = self.nodes[n.0].children.split_off(0);
        proof {
            assert(moved@ =~= gone);
            assert(self.nodes[n.0 as int].children@ =~= Seq::<NodeRepr>::empty());
            assert(gone.subrange(0, 0) =~= Seq::<NodeRepr>::empty());
            assert forall|x: NodeRepr| v0.has(x) && x != n implies (
            #[trigger] self.nodes[x.0 as int])@ == v0.node(x) by {
                assert(self.nodes[x.0 as int] == old(self).nodes[x.0 as int]);
            }
        }
        let mut t: usize = 0;
        while t < moved.len()
            invariant
                v0 == old(self)@,
                v0.wf(),
                v0.has(n),
                moved@ == v0.children(n),
                !moved@.contains(n),
                t <= moved.len(),
                self.nodes.len() == v0.nodes.len(),
                self.nodes[n.0 as int]@ == (NodeView { children: Seq::empty(), ..v0.node(n) }),
                forall|x: NodeRepr|
                    v0.has(x) && x != n ==> (#[trigger] self.nodes[x.0 as int])@ == (
                    if moved@.subrange(0, t as int).contains(x) {
                        NodeView { parent: None, ..v0.node(x) }
                    } else {
                        v0.node(x)
                    }),
            decreases moved.len() - t,
        {
            let c = moved[t];
            proof {
                v0.lemma_ranked();
                assert(v0.children(n)[t as int] == c);
                assert(v0.has(c));
                assert(moved@.contains(c));
                let done = moved@.subrange(0, t as int);
                let more = moved@.subrange(0, t + 1);
                assert forall|x: NodeRepr| more.contains(x) <==> (done.contains(x) || x == c) by {
                    if done.contains(x) {
                        let w = choose|w: int| 0 <= w < done.len() && done[w] == x;
                        assert(more[w] == x);
                    }
                    if x == c {
                        assert(more[t as int] == x);
                    }
                    if more.contains(x) {
                        let w = choose|w: int| 0 <= w < more.len() && more[w] == x;
                        if w < t {
                            assert(done[w] == x);
                        }
                    }
                }
            }
            self.nodes[c.0].parent = None;
            t = t + 1;
        }
        proof {
            let want = v0.cleared(n);
            assert(gone.subrange(0, gone.len() as int) =~= gone);
            assert(gone.subrange(gone.len() as int, gone.len() as int) =~= Seq::<NodeRepr>::empty());
            assert forall|k: int| 0 <= k < v0.nodes.len() implies self@.nodes[k] == want.nodes[k] by {
                let x = NodeRepr(k as usize);
                assert(v0.has(x));
                assert(want.node(x) == v0.cleared_node(n, gone.len() as int, x));
            }
            assert(self@.nodes =~= want.nodes);
        }
    }

    /// The attribute list of `n`; `None` when `n` is not an element.
    pub fn attrs_of(&self, n: NodeRepr) -> (res: Option<&Vec<Attribute>>)
        requires
            self@.has(n),
        ensures
            res is Some <==> self@.kind(n) is Element,
            res is Some ==> attrs_view(res->0@) == self@.data(n).attributes(),
    {
        match &self.nodes[n.0].data {
            NodeData::Element { attrs, .. } => Some(attrs),
            _ => None,
        }
    }

    /// Gives the element `n` a new attribute list and hands back the old
    /// one. A node that is not an element keeps what it has, and the list
    /// handed back is empty.
    pub fn swap_attrs(&mut self, n: NodeRepr, attrs: Vec<Attribute>) -> (res: Vec<Attribute>)
        requires
            old(self).wf(),
            old(self)@.has(n),
        ensures
            final(self).wf(),
            final(self)@ == old(self)@.with_data(
                n,
                old(self)@.data(n).with_attributes(attrs_view(attrs@)),
            ),
            attrs_view(res@) == old(self)@.data(n).attributes(),
    {
        let ghost new_view = attrs_view(attrs@);
        proof {
            self@.lemma_with_data(n, self@.data(n).with_attributes(new_view));
        }
        let mut held = attrs;
        match &mut self.nodes[n.0].data {
            NodeData::Element { attrs: slot, .. } => {
                core::mem::swap(slot, &mut held);
            },
            _ => {
                held = Vec::new();
            },
        }
        proof {
            assert(self@.nodes =~= old(self)@.with_data(
                n,
                old(self)@.data(n).with_attributes(new_view),
            ).nodes);
            assert(attrs_view(held@) =~= old(self)@.data(n).attributes());
        }
        held
    }

    /// The character data of `n`; `None` when `n` carries none.
    pub fn text_of(&self, n: NodeRepr) -> (res: Option<&String>)
        requires
            self@.has(n),
        ensures
            res is Some <==> self@.kind(n).is_character_data(),
            res is Some ==> Some(res->0@) == self@.data(n).character_data(),
            res is None ==> self@.data(n).character_data() is None,
    {
        match &self.nodes[n.0].data {
            NodeData::Text { contents } => Some(contents),
            NodeData::Comment { contents } => Some(contents),
            NodeData::ProcessingInstruction { contents, .. } => Some(contents),
            _ => None,
        }
    }

    /// Gives `n` new character data. A node that carries none stays as it
    /// is.
    pub fn set_text(&mut self, n: NodeRepr, text: String)
        requires
            old(self).wf(),
            old(self)@.has(n),
        ensures
            final(self).wf(),
            final(self)@ == old(self)@.with_data(n, old(self)@.data(n).with_character_data(text@)),
    {
        let ghost new_view = text@;
        proof {
            self@.lemma_with_data(n, self@.data(n).with_character_data(new_view));
        }
        match &mut self.nodes[n.0].data {
            NodeData::Text { contents } => {
                *contents = text;
            },
            NodeData::Comment { contents } => {
                *contents = text;
            },
            NodeData::ProcessingInstruction { contents, .. } => {
                *contents = text;
            },
            _ => {},
        }
        proof {
            assert(self@.nodes =~= old(self)@.with_data(
                n,
                old(self)@.data(n).with_character_data(new_view),
            ).nodes);
        }
    }

    /// The template contents of `n`: the node under which an element
    /// keeps what is not part of the tree, if it has any.
    pub fn template_contents_of(&self, n: NodeRepr) -> (res: Option<NodeRepr>)
        requires
            self@.has(n),
        ensures
            res == self@.template_contents(n),
    {
        self.nodes[n.0].template_contents
    }

    /// Gives the element `n` the node `t` as its template contents, or
    /// takes them away.
    pub fn set_template_contents(&mut self, n: NodeRepr, t: Option<NodeRepr>)
        requires
            old(self).wf(),
            old(self)@.has(n),
            t is Some ==> old(self)@.has(t->0) && old(self)@.kind(n) is Element,
        ensures
            final(self).wf(),
            final(self)@ == old(self)@.with_template_contents(n, t),
    {
        proof {
            self@.lemma_with_template_contents(n, t);
        }
        self.nodes[n.0].template_contents = t;
        proof {
            assert(self@.nodes =~= old(self)@.with_template_contents(n, t).nodes);
        }
    }
}

} // verus!
