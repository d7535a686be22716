//! Tree order: the nodes below a node, in the order in which a document
//! lists them.

use vstd::prelude::*;
use crate::node::NodeDataView;
use crate::model::NodeRepr;
use crate::model::DomView;
use crate::dom::Dom;

verus! {

impl DomView {
    /// The nodes below the children of `n` from position `k` on, each
    /// child followed by what lies below it.
    pub open spec fn descendants_from(self, n: NodeRepr, k: int) -> Seq<NodeRepr>
        decreases self.down(n), self.children(n).len() - k,
        when self.wf() && self.has(n) && 0 <= k
    {
        if k >= self.children(n).len() {
            Seq::empty()
        } else {
            seq![self.children(n)[k]] + self.descendants_from(self.children(n)[k], 0)
                + self.descendants_from(n, k + 1)
        }
    }

    /// The nodes below `n` in tree order: depth first, parents before
    /// their children. `n` itself is not among them.
    pub open spec fn descendants(self, n: NodeRepr) -> Seq<NodeRepr> {
        self.descendants_from(n, 0)
    }

    /// `n` followed by the nodes below it, in tree order.
    pub open spec fn subtree(self, n: NodeRepr) -> Seq<NodeRepr> {
        seq![n] + self.descendants(n)
    }

    /// A child lies strictly lower than its parent.
    pub proof fn lemma_child_is_lower(self, n: NodeRepr, k: int)
        requires
            self.wf(),
            self.has(n),
            0 <= k < self.children(n).len(),
        ensures
            self.has(self.children(n)[k]),
            self.parent(self.children(n)[k]) == Some(n),
            self.down(self.children(n)[k]) < self.down(n),
    {
        self.lemma_ranked();
        let c = self.children(n)[k];
        assert(self.parent(c) == Some(n));
        let r = self.ranking();
        assert(r.of(n) < r.of(c));
        assert(r.of(c) < r.cap);
    }

    /// Every node below `n` is a node of the arena and has `n` above it.
    pub proof fn lemma_descendants_below(self, n: NodeRepr, k: int)
        requires
            self.wf(),
            self.has(n),
            0 <= k,
        ensures
            forall|i: int|
                0 <= i < self.descendants_from(n, k).len() ==> self.has(
                    #[trigger] self.descendants_from(n, k)[i],
                ) && self.is_ancestor_or_self(n, self.descendants_from(n, k)[i])
                    && self.descendants_from(n, k)[i] != n,
        decreases self.down(n), self.children(n).len() - k,
    {
        self.lemma_ranked();
        if k < self.children(n).len() {
            let c = self.children(n)[k];
            self.lemma_child_is_lower(n, k);
            self.lemma_descendants_below(c, 0);
            self.lemma_descendants_below(n, k + 1);
            let a = seq![c];
            let b = self.descendants_from(c, 0);
            let d = self.descendants_from(n, k + 1);
            let all = self.descendants_from(n, k);
            assert(all == a + b + d);
            assert(self.is_ancestor_or_self(n, n));
            assert(self.is_ancestor_or_self(n, c));
            assert forall|i: int| 0 <= i < all.len() implies self.has(#[trigger] all[i])
                && self.is_ancestor_or_self(n, all[i]) && all[i] != n by {
                if i == 0 {
                    assert(all[i] == c);
                } else if i < 1 + b.len() {
                    assert(all[i] == b[i - 1]);
                    self.lemma_ancestor_trans(n, c, b[i - 1]);
                    if b[i - 1] == n {
                        self.lemma_ancestor_rank(c, n);
                    }
                } else {
                    assert(all[i] == d[i - 1 - b.len()]);
                }
            }
        }
    }
}

/// The nodes still to be listed when the walk stands as the stack says:
/// for each entry, from the last to the first, the nodes below the
/// children of its node from its position on.
pub open spec fn still_to_list(v: DomView, stack: Seq<(NodeRepr, usize)>) -> Seq<NodeRepr>
    decreases stack.len(),
{
    if stack.len() == 0 {
        Seq::empty()
    } else {
        v.descendants_from(stack.last().0, stack.last().1 as int) + still_to_list(
            v,
            stack.drop_last(),
        )
    }
}

/// A measure of the work that is left when the walk stands as the stack
/// says; it falls with every step of the walk.
pub open spec fn work_left(v: DomView, stack: Seq<(NodeRepr, usize)>) -> nat
    decreases stack.len(),
{
    if stack.len() == 0 {
        0
    } else {
        2 * v.descendants_from(stack.last().0, stack.last().1 as int).len() + 1 + work_left(
            v,
            stack.drop_last(),
        )
    }
}

impl Dom {
    /// Appends the nodes below `n`, in tree order, to `out`.
    pub fn collect_descendants(&self, n: NodeRepr, out: &mut Vec<NodeRepr>)
        requires
            self.wf(),
            self@.has(n),
        ensures
            final(out)@ == old(out)@ + self@.descendants(n),
    {
        let mut stack: Vec<(NodeRepr, usize)> = Vec::new();
        stack.push((n, 0));
        proof {
            assert(stack@.drop_last() =~= Seq::<(NodeRepr, usize)>::empty());
            assert(still_to_list(self@, Seq::<(NodeRepr, usize)>::empty()) =~= Seq::<NodeRepr>::empty());
            assert(still_to_list(self@, stack@) =~= self@.descendants(n));
        }
        while stack.len() > 0
            invariant
                self.wf(),
                forall|i: int| 0 <= i < stack.len() ==> self@.has((#[trigger] stack[i]).0),
                out@ + still_to_list(self@, stack@) == old(out)@ + self@.descendants(n),
            decreases work_left(self@, stack@),
        {
            let ghost before = stack@;
            let ghost listed = out@;
            let top = stack.len() - 1;
            let (m, k) = stack[top];
            let kids = self.children_of(m);
            assert(before.last() == (m, k));
            if k >= kids.len() {
                stack.pop();
                proof {
                    assert(stack@ =~= before.drop_last());
                    assert(self@.descendants_from(m, k as int) =~= Seq::<NodeRepr>::empty());
                    assert(Seq::<NodeRepr>::empty() + still_to_list(self@, before.drop_last())
                        =~= still_to_list(self@, before.drop_last()));
                    assert(work_left(self@, before) == 1 + work_left(self@, before.drop_last()));
                }
            } else {
                let c = kids[k];
                proof {
                    self@.lemma_child_is_lower(m, k as int);
                }
                out.push(c);
                stack.set(top, (m, k + 1));
                stack.push((c, 0));
                proof {
                    let mid = before.drop_last().push((m, (k + 1) as usize));
                    assert(stack@ =~= mid.push((c, 0usize)));
                    assert(stack@.drop_last() =~= mid);
                    assert(stack@.last() == (c, 0usize));
                    assert(mid.drop_last() =~= before.drop_last());
                    assert(mid.last() == (m, (k + 1) as usize));
                    let below = self@.descendants_from(c, 0);
                    let rest = self@.descendants_from(m, k + 1);
                    let others = still_to_list(self@, before.drop_last());
                    assert(self@.descendants_from(m, k as int) == seq![c] + below + rest);
                    assert(still_to_list(self@, mid) == rest + others);
                    assert(still_to_list(self@, stack@) == below + still_to_list(self@, mid));
                    assert(still_to_list(self@, before) == seq![c] + below + rest + others);
                    assert(work_left(self@, mid) == 2 * rest.len() + 1 + work_left(
                        self@,
                        before.drop_last(),
                    ));
                    assert(work_left(self@, stack@) == 2 * below.len() + 1 + work_left(self@, mid));
                    assert(work_left(self@, before) == 2 * (seq![c] + below + rest).len() + 1
                        + work_left(self@, before.drop_last()));
                    assert(out@ + (below + (rest + others)) =~= listed + (seq![c] + below + rest
                        + others));
                    assert((seq![c] + below + rest).len() == 1 + below.len() + rest.len());
                }
            }
        }
        proof {
            assert(still_to_list(self@, stack@) =~= Seq::<NodeRepr>::empty());
            assert(out@ + Seq::<NodeRepr>::empty() =~= out@);
        }
    }

    /// The nodes below `n`, in tree order.
    pub fn descendants_of(&self, n: NodeRepr) -> (list: Vec<NodeRepr>)
        requires
            self.wf(),
            self@.has(n),
        ensures
            list@ == self@.descendants(n),
            forall|i: int| 0 <= i < list.len() ==> self@.has(#[trigger] list[i]),
    {
        let mut list: Vec<NodeRepr> = Vec::new();
        self.collect_descendants(n, &mut list);
        proof {
            assert(Seq::<NodeRepr>::empty() + self@.descendants(n) =~= self@.descendants(n));
            self@.lemma_descendants_below(n, 0);
        }
        list
    }
}

/// A tree as a value: the payload of its root and the trees of the
/// root's children, in order. It says what a subtree holds and in what
/// shape, and nothing of where its nodes stand in an arena.
pub struct DomTree {
    pub data: NodeDataView,
    pub children: Seq<DomTree>,
}

/// A tree that the arena can hold: only documents, elements and
/// fragments have children, and no child is a document or a fragment.
pub open spec fn admissible(t: DomTree) -> bool
    decreases t,
{
    &&& t.children.len() > 0 ==> t.data.kind().is_container()
    &&& forall|i: int|
        0 <= i < t.children.len() ==> (#[trigger] t.children[i]).data.kind().may_be_child()
            && admissible(t.children[i])
}

impl DomView {
    /// The trees of the children of `n` from position `k` on.
    pub open spec fn trees_from(self, n: NodeRepr, k: int) -> Seq<DomTree>
        decreases self.down(n), self.children(n).len() - k,
        when self.wf() && self.has(n) && 0 <= k
    {
        if k >= self.children(n).len() {
            Seq::empty()
        } else {
            seq![
                DomTree {
                    data: self.data(self.children(n)[k]),
                    children: self.trees_from(self.children(n)[k], 0),
                },
            ] + self.trees_from(n, k + 1)
        }
    }

    /// The tree below and including `n`.
    pub open spec fn tree(self, n: NodeRepr) -> DomTree {
        DomTree { data: self.data(n), children: self.trees_from(n, 0) }
    }

    /// The trees of the children of `n` are the trees of its children.
    pub proof fn lemma_trees_from(self, n: NodeRepr, k: int)
        requires
            self.wf(),
            self.has(n),
            0 <= k <= self.children(n).len(),
        ensures
            self.trees_from(n, k).len() == self.children(n).len() - k,
            forall|j: int|
                k <= j < self.children(n).len() ==> #[trigger] self.trees_from(n, k)[j - k]
                    == self.tree(self.children(n)[j]),
        decreases self.children(n).len() - k,
    {
        if k < self.children(n).len() {
            self.lemma_trees_from(n, k + 1);
            let rest = self.trees_from(n, k + 1);
            let all = self.trees_from(n, k);
            assert(all == seq![self.tree(self.children(n)[k])] + rest);
            assert forall|j: int| k <= j < self.children(n).len() implies #[trigger] all[j - k]
                == self.tree(self.children(n)[j]) by {
                if j > k {
                    assert(all[j - k] == rest[j - (k + 1)]);
                }
            }
        }
    }

    /// The tree of a node lists the trees of its children, in order.
    pub proof fn lemma_tree_children(self, n: NodeRepr)
        requires
            self.wf(),
            self.has(n),
        ensures
            self.tree(n).data == self.data(n),
            self.tree(n).children.len() == self.children(n).len(),
            forall|j: int|
                0 <= j < self.children(n).len() ==> #[trigger] self.tree(n).children[j] == self.tree(
                    self.children(n)[j],
                ),
    {
        self.lemma_trees_from(n, 0);
        assert forall|j: int| 0 <= j < self.children(n).len() implies #[trigger] self.tree(
            n,
        ).children[j] == self.tree(self.children(n)[j]) by {
            assert(self.trees_from(n, 0)[j - 0] == self.tree(self.children(n)[j]));
        }
    }

    /// Two arenas that agree on the children and payloads of `n` and of
    /// all nodes below it hold the same tree at `n`.
    pub proof fn lemma_tree_frame(self, other: DomView, n: NodeRepr)
        requires
            self.wf(),
            other.wf(),
            self.has(n),
            forall|x: NodeRepr|
                self.has(x) && #[trigger] self.is_ancestor_or_self(n, x) ==> other.has(x)
                    && other.children(x) == self.children(x) && other.data(x) == self.data(x),
        ensures
            other.tree(n) == self.tree(n),
        decreases self.down(n),
    {
        self.lemma_ranked();
        assert(self.is_ancestor_or_self(n, n));
        self.lemma_tree_children(n);
        other.lemma_tree_children(n);
        assert forall|j: int| 0 <= j < self.children(n).len() implies other.tree(n).children[j]
            == self.tree(n).children[j] by {
            let c = self.children(n)[j];
            self.lemma_child_is_lower(n, j);
            assert forall|x: NodeRepr|
                self.has(x) && #[trigger] self.is_ancestor_or_self(c, x) implies other.has(x)
                && other.children(x) == self.children(x) && other.data(x) == self.data(x) by {
                self.lemma_parent_is_ancestor(c);
                self.lemma_ancestor_trans(n, c, x);
            }
            self.lemma_tree_frame(other, c);
        }
        assert(other.tree(n).children =~= self.tree(n).children);
    }
}

impl DomView {
    /// This arena holds every node of `old` as it was, and maybe more.
    pub open spec fn extends(self, old: DomView) -> bool {
        &&& old.nodes.len() <= self.nodes.len()
        &&& forall|x: NodeRepr| old.has(x) ==> #[trigger] self.node(x) == old.node(x)
    }

    /// The nodes that this arena has and `old` had not have no template
    /// contents.
    pub open spec fn new_nodes_are_bare(self, old: DomView) -> bool {
        forall|x: NodeRepr|
            self.has(x) && !old.has(x) ==> (#[trigger] self.template_contents(x)) is None
    }

    /// Of the nodes that this arena has and `old` had not, each that has
    /// template contents has them as a tree of their own that `old` had
    /// not either: under a node without a parent.
    pub open spec fn new_contents_stand_alone(self, old: DomView) -> bool {
        forall|x: NodeRepr|
            self.has(x) && !old.has(x) && (#[trigger] self.template_contents(x)) is Some
                ==> self.has(self.template_contents(x)->0) && !old.has(
                self.template_contents(x)->0,
            ) && self.parent(self.template_contents(x)->0) is None
    }

    /// Whatever node has template contents has them as a tree of their
    /// own: under a node without a parent.
    pub open spec fn contents_stand_alone(self) -> bool {
        forall|x: NodeRepr|
            self.has(x) && (#[trigger] self.template_contents(x)) is Some ==> self.has(
                self.template_contents(x)->0,
            ) && self.parent(self.template_contents(x)->0) is None
    }

    /// New nodes change no tree of the nodes that were there.
    pub proof fn lemma_extends_keeps_tree(self, old: DomView, r: NodeRepr)
        requires
            self.wf(),
            old.wf(),
            self.extends(old),
            old.has(r),
        ensures
            self.tree(r) == old.tree(r),
    {
        assert forall|x: NodeRepr|
            old.has(x) && #[trigger] old.is_ancestor_or_self(r, x) implies self.has(x)
            && self.children(x) == old.children(x) && self.data(x) == old.data(x) by {
            assert(self.node(x) == old.node(x));
        }
        old.lemma_tree_frame(self, r);
    }

    /// An insertion changes no tree that its place is not in.
    pub proof fn lemma_insert_keeps_tree(self, p: NodeRepr, i: int, c: NodeRepr, r: NodeRepr)
        requires
            self.wf(),
            self.has(p),
            self.has(c),
            self.parent(c) is None,
            !self.is_ancestor_or_self(c, p),
            self.kind(p).is_container(),
            self.kind(c).may_be_child(),
            0 <= i <= self.children(p).len(),
            self.has(r),
            !self.is_ancestor_or_self(r, p),
        ensures
            self.insert(p, i, c).tree(r) == self.tree(r),
    {
        self.lemma_insert(p, i, c);
        let other = self.insert(p, i, c);
        assert forall|x: NodeRepr|
            self.has(x) && #[trigger] self.is_ancestor_or_self(r, x) implies other.has(x)
            && other.children(x) == self.children(x) && other.data(x) == self.data(x) by {
            assert(x != p);
            assert(other.data(x) == self.data(x));
        }
        self.lemma_tree_frame(other, r);
    }

    /// A removal changes no tree that its place is not in.
    pub proof fn lemma_detach_keeps_tree(self, c: NodeRepr, r: NodeRepr)
        requires
            self.wf(),
            self.has(c),
            self.has(r),
            self.parent(c) is Some ==> !self.is_ancestor_or_self(r, self.parent(c)->0),
        ensures
            self.detach(c).tree(r) == self.tree(r),
    {
        self.lemma_detach(c);
        let other = self.detach(c);
        assert forall|x: NodeRepr|
            self.has(x) && #[trigger] self.is_ancestor_or_self(r, x) implies other.has(x)
            && other.children(x) == self.children(x) && other.data(x) == self.data(x) by {
            assert(self.parent(c) != Some(x));
            assert(other.data(x) == self.data(x));
        }
        self.lemma_tree_frame(other, r);
    }

    /// A new payload changes no tree that its node is not in.
    pub proof fn lemma_with_data_keeps_tree(self, n: NodeRepr, data: NodeDataView, r: NodeRepr)
        requires
            self.wf(),
            self.has(n),
            data.kind() == self.kind(n),
            self.has(r),
            !self.is_ancestor_or_self(r, n),
        ensures
            self.with_data(n, data).tree(r) == self.tree(r),
    {
        self.lemma_with_data(n, data);
        let other = self.with_data(n, data);
        assert forall|x: NodeRepr|
            self.has(x) && #[trigger] self.is_ancestor_or_self(r, x) implies other.has(x)
            && other.children(x) == self.children(x) && other.data(x) == self.data(x) by {
            assert(x != n);
            assert(other.node(x) == self.node(x));
        }
        self.lemma_tree_frame(other, r);
    }

    /// Template contents are no part of a tree: to give or take them
    /// changes none.
    pub proof fn lemma_with_template_contents_keeps_tree(
        self,
        n: NodeRepr,
        t: Option<NodeRepr>,
        r: NodeRepr,
    )
        requires
            self.wf(),
            self.has(n),
            t is Some ==> self.has(t->0) && self.kind(n) is Element,
            self.has(r),
        ensures
            self.with_template_contents(n, t).tree(r) == self.tree(r),
    {
        self.lemma_with_template_contents(n, t);
        let other = self.with_template_contents(n, t);
        assert forall|x: NodeRepr|
            self.has(x) && #[trigger] self.is_ancestor_or_self(r, x) implies other.has(x)
            && other.children(x) == self.children(x) && other.data(x) == self.data(x) by {
            if x != n {
                assert(other.node(x) == self.node(x));
            }
        }
        self.lemma_tree_frame(other, r);
    }
}

} // verus!
