//! Why normalizing an arena normalizes its trees: the nodes below a node,
//! seen to one after the other in tree order, end up as the normal form
//! of the tree says.

use vstd::prelude::*;
use crate::node::NodeDataView;
use crate::model::NodeRepr;
use crate::model::DomView;
use crate::tree::DomTree;
use crate::normal_form::own_text;
use crate::normal_form::tree_text;
use crate::normal_form::trees_text;
use crate::normal_form::lemma_text_concat;
use crate::normal_form::merge_into;
use crate::normal_form::normalize_tree;
use crate::normal_form::normalize_trees;
use crate::normal_form::texts_are_leaves;
use crate::normal_form::is_normal;

verus! {

impl DomView {
    /// The texts of two lists of nodes, one after the other.
    pub proof fn lemma_texts_of_concat(self, a: Seq<NodeRepr>, b: Seq<NodeRepr>)
        ensures
            self.texts_of(a + b) == self.texts_of(a) + self.texts_of(b),
        decreases b.len(),
    {
        if b.len() == 0 {
            assert(a + b =~= a);
            assert(self.texts_of(a) + Seq::<char>::empty() =~= self.texts_of(a));
        } else {
            let b0 = b.drop_last();
            self.lemma_texts_of_concat(a, b0);
            assert((a + b).drop_last() =~= a + b0);
            assert((a + b).last() == b.last());
            if self.kind(b.last()) is Text {
                assert(self.texts_of(a) + self.texts_of(b0) + self.text_data(b.last())
                    =~= self.texts_of(a) + (self.texts_of(b0) + self.text_data(b.last())));
            }
        }
    }

    /// The text of one node alone is what its payload contributes.
    pub proof fn lemma_texts_of_one(self, c: NodeRepr)
        ensures
            self.texts_of(seq![c]) == own_text(self.data(c)),
    {
        let one = seq![c];
        assert(one.drop_last() =~= Seq::<NodeRepr>::empty());
        assert(one.last() == c);
        assert(self.texts_of(Seq::<NodeRepr>::empty()) =~= Seq::<char>::empty());
        assert(Seq::<char>::empty() + self.text_data(c) =~= self.text_data(c));
    }

    /// The text of the nodes below the children of `n` from `k` on is the
    /// text of their trees.
    pub proof fn lemma_text_of_trees(self, n: NodeRepr, k: int)
        requires
            self.wf(),
            self.has(n),
            0 <= k,
        ensures
            self.texts_of(self.descendants_from(n, k)) == trees_text(self.trees_from(n, k)),
        decreases self.down(n), self.children(n).len() - k,
    {
        if k < self.children(n).len() {
            let c = self.children(n)[k];
            self.lemma_child_is_lower(n, k);
            self.lemma_text_of_trees(c, 0);
            self.lemma_text_of_trees(n, k + 1);
            let below = self.descendants_from(c, 0);
            let rest = self.descendants_from(n, k + 1);
            self.lemma_texts_of_one(c);
            self.lemma_texts_of_concat(seq![c], below);
            self.lemma_texts_of_concat(seq![c] + below, rest);
            let t = DomTree { data: self.data(c), children: self.trees_from(c, 0) };
            let others = self.trees_from(n, k + 1);
            lemma_text_concat(seq![t], others);
            assert(trees_text(seq![t]) == tree_text(t)) by {
                let one = seq![t];
                assert(one.subrange(0, one.len() - 1) =~= Seq::<DomTree>::empty());
                assert(trees_text(Seq::<DomTree>::empty()) =~= Seq::<char>::empty());
                assert(Seq::<char>::empty() + tree_text(t) =~= tree_text(t));
            }
        } else {
            assert(self.texts_of(Seq::<NodeRepr>::empty()) =~= Seq::<char>::empty());
            assert(trees_text(Seq::<DomTree>::empty()) =~= Seq::<char>::empty());
        }
    }

    /// The text of a node is the text of its tree.
    pub proof fn lemma_text_content_is_tree_text(self, n: NodeRepr)
        requires
            self.wf(),
            self.has(n),
        ensures
            self.text_content(n) == tree_text(self.tree(n)),
    {
        self.lemma_text_of_trees(n, 0);
        self.lemma_texts_of_one(n);
        self.lemma_texts_of_concat(seq![n], self.descendants(n));
    }

    /// Seeing to two lists of nodes, one after the other, is seeing to
    /// the first and then to the second.
    pub proof fn lemma_normalize_list_concat(self, a: Seq<NodeRepr>, b: Seq<NodeRepr>)
        ensures
            self.normalize_list(a + b) == self.normalize_list(a).normalize_list(b),
        decreases b.len(),
    {
        if b.len() == 0 {
            assert(a + b =~= a);
        } else {
            self.lemma_normalize_list_concat(a, b.drop_last());
            assert((a + b).drop_last() =~= a + b.drop_last());
            assert((a + b).last() == b.last());
        }
    }

    /// Seeing to one node alone.
    pub proof fn lemma_normalize_list_one(self, c: NodeRepr)
        ensures
            self.normalize_list(seq![c]) == self.normalize_step(c),
    {
        let one = seq![c];
        assert(one.drop_last() =~= Seq::<NodeRepr>::empty());
        assert(one.last() == c);
        assert(self.normalize_list(Seq::<NodeRepr>::empty()) == self);
    }

    /// Two nodes above the same node are above one another.
    pub proof fn lemma_chain_is_ordered(self, a: NodeRepr, b: NodeRepr, x: NodeRepr)
        requires
            self.wf(),
            self.has(x),
            self.is_ancestor_or_self(a, x),
            self.is_ancestor_or_self(b, x),
        ensures
            self.is_ancestor_or_self(a, b) || self.is_ancestor_or_self(b, a),
        decreases self.up(x),
    {
        self.lemma_ranked();
        self.lemma_ancestor_rank(a, x);
        self.lemma_ancestor_rank(b, x);
        if x == a || x == b {
        } else {
            self.lemma_chain_is_ordered(a, b, self.parent(x)->0);
        }
    }

    /// What lies below one child of a node does not lie below another.
    pub proof fn lemma_siblings_apart(self, a: NodeRepr, b: NodeRepr, x: NodeRepr)
        requires
            self.wf(),
            self.has(a),
            self.has(b),
            self.has(x),
            a != b,
            self.parent(a) is Some,
            self.parent(a) == self.parent(b),
            self.is_ancestor_or_self(a, x),
        ensures
            !self.is_ancestor_or_self(b, x),
    {
        self.lemma_ranked();
        if self.is_ancestor_or_self(b, x) {
            self.lemma_chain_is_ordered(a, b, x);
            let n = self.parent(a)->0;
            if self.is_ancestor_or_self(a, b) {
                self.lemma_child_not_above(n, a);
            } else {
                self.lemma_child_not_above(n, b);
            }
        }
    }

    /// A tree whose nodes are all as they are in another arena is the
    /// same tree there, with the same nodes below its root.
    pub proof fn lemma_untouched(self, other: DomView, r: NodeRepr, x: NodeRepr)
        requires
            self.wf(),
            other.wf(),
            self.has(r),
            forall|y: NodeRepr|
                self.has(y) && #[trigger] self.is_ancestor_or_self(r, y) ==> other.has(y)
                    && other.node(y) == self.node(y),
            self.has(x),
            self.is_ancestor_or_self(r, x),
        ensures
            other.is_ancestor_or_self(r, x),
            other.tree(r) == self.tree(r),
        decreases self.up(x),
    {
        self.lemma_ranked();
        other.lemma_ranked();
        assert(self.is_ancestor_or_self(r, r));
        assert(other.is_ancestor_or_self(r, r));
        if x != r {
            self.lemma_untouched(other, r, self.parent(x)->0);
            assert(other.node(x) == self.node(x));
        }
        self.lemma_tree_frame(other, r);
    }
}

/// The list `acc` after the normal forms of the trees from `k` on have
/// been taken into it, one after the other.
pub open spec fn merge_rest(acc: Seq<DomTree>, ts: Seq<DomTree>, k: int) -> Seq<DomTree>
    decreases ts.len() - k,
{
    if k < 0 || k >= ts.len() {
        acc
    } else {
        merge_rest(merge_into(acc, normalize_tree(ts[k])), ts, k + 1)
    }
}

/// Taking in the rest of the trees after the first `k` completes the
/// normal form of all of them.
pub proof fn lemma_merge_rest(ts: Seq<DomTree>, k: int)
    requires
        0 <= k <= ts.len(),
    ensures
        merge_rest(normalize_trees(ts.subrange(0, k)), ts, k) == normalize_trees(ts),
    decreases ts.len() - k,
{
    if k < ts.len() {
        let next = ts.subrange(0, k + 1);
        assert(next.subrange(0, next.len() - 1) =~= ts.subrange(0, k));
        assert(next[next.len() - 1] == ts[k]);
        lemma_merge_rest(ts, k + 1);
    } else {
        assert(ts.subrange(0, k) =~= ts);
    }
}

impl DomView {
    /// How many children of `n` have been settled when those of `old`
    /// from `k` on are still to be seen to.
    pub open spec fn settled(self, old: DomView, n: NodeRepr, k: int) -> int {
        self.children(n).len() - (old.children(n).len() - k)
    }

    /// This arena is `old` on the way of being normalized below `n`: the
    /// children of `n` from `k` on, and all below them, are as they were;
    /// before them stand the children that have been kept.
    pub open spec fn pending(self, old: DomView, n: NodeRepr, k: int) -> bool {
        &&& old.wf()
        &&& self.wf()
        &&& self.nodes.len() == old.nodes.len()
        &&& old.has(n)
        &&& 0 <= k <= old.children(n).len()
        &&& self.data(n) == old.data(n)
        &&& self.settled(old, n, k) >= 0
        &&& self.children(n).skip(self.settled(old, n, k)) == old.children(n).skip(k)
        &&& forall|j: int, x: NodeRepr|
            k <= j < old.children(n).len() && old.has(x) && #[trigger] old.is_ancestor_or_self(
                old.children(n)[j],
                x,
            ) ==> self.node(x) == old.node(x)
        &&& forall|i: int|
            0 <= i < self.settled(old, n, k) ==> old.parent(#[trigger] self.children(n)[i]) == Some(n)
    }

    /// Whether `x` is one of the children of `n` from `k` on, or below
    /// one of them.
    pub open spec fn below_rest(self, n: NodeRepr, k: int, x: NodeRepr) -> bool {
        exists|j: int|
            k <= j < self.children(n).len() && #[trigger] self.is_ancestor_or_self(
                self.children(n)[j],
                x,
            )
    }

    /// Whether `x` is the last of the first `a` children of `n`.
    pub open spec fn is_last_of(self, n: NodeRepr, a: int, x: NodeRepr) -> bool {
        a > 0 && x == self.children(n)[a - 1]
    }

    /// The arena `later` has come from this one, which was `old` on the
    /// way of being normalized below `n`, by seeing to the children of
    /// `n` from `k` on and to all below them.
    pub open spec fn advanced_to(self, old: DomView, later: DomView, n: NodeRepr, k: int) -> bool {
        let a = self.settled(old, n, k);
        &&& later.wf()
        &&& later.nodes.len() == self.nodes.len()
        &&& later.data(n) == self.data(n)
        &&& later.parent(n) == self.parent(n)
        &&& later.tree(n).children == merge_rest(
            self.tree(n).children.subrange(0, a),
            old.tree(n).children,
            k,
        )
        &&& forall|x: NodeRepr|
            self.has(x) && x != n && !old.below_rest(n, k, x) && !self.is_last_of(n, a, x)
                ==> #[trigger] later.node(x) == self.node(x)
        &&& a > 0 ==> later.parent(self.children(n)[a - 1]) == self.parent(self.children(n)[a - 1])
            && later.children(self.children(n)[a - 1]) == self.children(self.children(n)[a - 1])
            && later.kind(self.children(n)[a - 1]) == self.kind(self.children(n)[a - 1])
    }

    /// What is known of the next child to be seen to.
    pub proof fn lemma_pending_next(self, old: DomView, n: NodeRepr, k: int)
        requires
            self.pending(old, n, k),
            k < old.children(n).len(),
        ensures
            ({
                let a = self.settled(old, n, k);
                let c = old.children(n)[k];
                &&& old.has(c)
                &&& self.has(n)
                &&& old.parent(c) == Some(n)
                &&& self.node(c) == old.node(c)
                &&& a < self.children(n).len()
                &&& self.children(n)[a] == c
                &&& self.position(n, c) == a
                &&& self.siblings_before(c) == self.children(n).take(a)
                &&& self.previous_sibling(c) == (if a > 0 {
                    Some(self.children(n)[a - 1])
                } else {
                    None
                })
                &&& a > 0 ==> self.has(self.children(n)[a - 1]) && self.parent(self.children(n)[a - 1])
                    == Some(n) && self.children(n)[a - 1] != c
                &&& self.tree(c) == old.tree(c)
                &&& self.tree(n).children.len() == self.children(n).len()
                &&& old.tree(n).children.len() == old.children(n).len()
                &&& old.tree(n).children[k] == old.tree(c)
            }),
    {
        let a = self.settled(old, n, k);
        let c = old.children(n)[k];
        old.lemma_ranked();
        self.lemma_ranked();
        old.lemma_child_is_lower(n, k);
        assert(old.is_ancestor_or_self(c, c));
        assert(old.is_ancestor_or_self(old.children(n)[k], c));
        assert(self.node(c) == old.node(c));
        assert(self.children(n).skip(a)[0] == old.children(n).skip(k)[0]);
        assert(self.children(n).skip(a).len() == old.children(n).skip(k).len());
        assert(self.children(n)[a] == c);
        assert(self.children(n).contains(c));
        assert(self.children(n).no_duplicates());
        if a > 0 {
            assert(self.children(n).take(a).last() == self.children(n)[a - 1]);
            assert(self.has(self.children(n)[a - 1]));
        }
        assert forall|y: NodeRepr|
            old.has(y) && #[trigger] old.is_ancestor_or_self(c, y) implies self.has(y) && self.node(
            y,
        ) == old.node(y) by {
            assert(old.is_ancestor_or_self(old.children(n)[k], y));
        }
        old.lemma_untouched(self, c, c);
        self.lemma_tree_children(n);
        old.lemma_tree_children(n);
    }
}

impl DomView {
    /// The arena `next` has come from this one, which was `old` on the
    /// way of being normalized below `n`, by seeing to the child `k` of
    /// `n` and to all below it.
    pub open spec fn stepped_to(self, old: DomView, next: DomView, n: NodeRepr, k: int) -> bool {
        let a = self.settled(old, n, k);
        let b = next.settled(old, n, k + 1);
        &&& next.pending(old, n, k + 1)
        &&& next.tree(n).children.subrange(0, b) == merge_into(
            self.tree(n).children.subrange(0, a),
            normalize_tree(old.tree(n).children[k]),
        )
        &&& next.data(n) == self.data(n)
        &&& next.parent(n) == self.parent(n)
        &&& forall|x: NodeRepr|
            self.has(x) && x != n && !old.below_rest(n, k, x) && !self.is_last_of(n, a, x)
                ==> #[trigger] next.node(x) == self.node(x)
        &&& a > 0 ==> next.parent(self.children(n)[a - 1]) == self.parent(self.children(n)[a - 1])
            && next.children(self.children(n)[a - 1]) == self.children(self.children(n)[a - 1])
            && next.kind(self.children(n)[a - 1]) == self.kind(self.children(n)[a - 1])
        &&& b == a || b == a + 1
        &&& b == a && a > 0 ==> next.children(n)[a - 1] == self.children(n)[a - 1]
        &&& b == a + 1 ==> next.children(n)[a] == old.children(n)[k]
    }

    /// A step and what follows it, taken together.
    pub proof fn lemma_step_then_rest(self, old: DomView, next: DomView, later: DomView, n: NodeRepr, k: int)
        requires
            self.pending(old, n, k),
            k < old.children(n).len(),
            self.stepped_to(old, next, n, k),
            next.advanced_to(old, later, n, k + 1),
        ensures
            self.advanced_to(old, later, n, k),
    {
        let a = self.settled(old, n, k);
        let b = next.settled(old, n, k + 1);
        let c = old.children(n)[k];
        self.lemma_pending_next(old, n, k);
        old.lemma_ranked();
        self.lemma_ranked();
        assert(old.is_ancestor_or_self(c, c));
        assert forall|x: NodeRepr|
            self.has(x) && x != n && !old.below_rest(n, k, x) && !self.is_last_of(
                n,
                a,
                x,
            ) implies #[trigger] later.node(x) == self.node(x) by {
            assert(next.node(x) == self.node(x));
            assert(!old.below_rest(n, k + 1, x)) by {
                if old.below_rest(n, k + 1, x) {
                    let j = choose|j: int|
                        k + 1 <= j < old.children(n).len() && #[trigger] old.is_ancestor_or_self(
                            old.children(n)[j],
                            x,
                        );
                    assert(old.is_ancestor_or_self(old.children(n)[j], x));
                }
            }
            if b == a + 1 {
                if x == c {
                    assert(old.is_ancestor_or_self(old.children(n)[k], x));
                }
            }
            assert(!next.is_last_of(n, b, x));
        }
        if a > 0 {
            let p = self.children(n)[a - 1];
            if b == a + 1 {
                assert(p != c);
                assert(old.parent(p) == Some(n));
                assert(!old.below_rest(n, k + 1, p)) by {
                    if old.below_rest(n, k + 1, p) {
                        let j = choose|j: int|
                            k + 1 <= j < old.children(n).len() && #[trigger] old.is_ancestor_or_self(
                                old.children(n)[j],
                                p,
                            );
                        let q = old.children(n)[j];
                        assert(old.parent(q) == Some(n));
                        assert(self.children(n).skip(a)[j - k] == old.children(n).skip(k)[j - k]);
                        assert(self.children(n)[a + j - k] == q);
                        assert(self.children(n).no_duplicates());
                        assert(q != p);
                        assert(old.is_ancestor_or_self(q, q));
                        old.lemma_siblings_apart(p, q, p);
                    }
                }
                assert(later.node(p) == next.node(p));
            }
        }
    }
}

impl DomView {
    /// A child that is not above a node is not above its siblings
    /// either.
    pub proof fn lemma_sibling_not_above(self, n: NodeRepr, a: NodeRepr, b: NodeRepr)
        requires
            self.wf(),
            self.has(a),
            self.has(b),
            a != b,
            self.parent(a) == Some(n),
            self.parent(b) == Some(n),
        ensures
            !self.is_ancestor_or_self(a, b),
            !self.is_ancestor_or_self(a, n),
    {
        self.lemma_ranked();
        self.lemma_child_not_above(n, a);
    }

    /// An empty text node, when it is seen to, leaves, and nothing else
    /// changes.
    pub proof fn lemma_step_drop(self, old: DomView, n: NodeRepr, k: int)
        requires
            self.pending(old, n, k),
            k < old.children(n).len(),
            old.kind(old.children(n)[k]) is Text,
            old.text_data(old.children(n)[k]).len() == 0,
        ensures
            self.stepped_to(old, self.normalize_step(old.children(n)[k]), n, k),
    {
        let a = self.settled(old, n, k);
        let c = old.children(n)[k];
        let next = self.normalize_step(c);
        self.lemma_pending_next(old, n, k);
        old.lemma_ranked();
        self.lemma_ranked();
        self.lemma_detach(c);
        assert(next == self.detach(c));
        assert(next.children(n) == self.children(n).remove(a));
        assert(next.settled(old, n, k + 1) == a);
        assert(next.children(n).skip(a) =~= old.children(n).skip(k + 1)) by {
            assert(self.children(n).remove(a).skip(a) =~= self.children(n).skip(a).skip(1));
            assert(old.children(n).skip(k + 1) =~= old.children(n).skip(k).skip(1));
        }
        assert(next.children(n).take(a) =~= self.children(n).take(a));
        assert forall|j: int, x: NodeRepr|
            k + 1 <= j < old.children(n).len() && old.has(x) && #[trigger] old.is_ancestor_or_self(
                old.children(n)[j],
                x,
            ) implies next.node(x) == old.node(x) by {
            let q = old.children(n)[j];
            assert(self.node(x) == old.node(x));
            assert(old.parent(q) == Some(n));
            assert(old.children(n).no_duplicates());
            assert(q != c);
            assert(old.is_ancestor_or_self(q, x));
            old.lemma_siblings_apart(q, c, x);
            assert(old.is_ancestor_or_self(c, c));
            assert(x != c);
            if x == n {
                old.lemma_child_not_above(n, q);
            }
            assert(next.parent(x) == self.parent(x));
            assert(next.children(x) == self.children(x));
            assert(next.data(x) == self.data(x));
        }
        assert forall|i: int| 0 <= i < a implies old.parent(#[trigger] next.children(n)[i]) == Some(
            n,
        ) by {
            assert(next.children(n)[i] == self.children(n)[i]);
        }
        assert(next.data(n) == self.data(n));
        assert(next.pending(old, n, k + 1));
        next.lemma_tree_children(n);
        self.lemma_tree_children(n);
        assert forall|i: int| 0 <= i < a implies next.tree(n).children[i] == self.tree(
            n,
        ).children[i] by {
            let y = self.children(n)[i];
            assert(next.children(n)[i] == y);
            assert(self.parent(y) == Some(n));
            self.lemma_child_not_above(n, y);
            self.lemma_detach_keeps_tree(c, y);
            assert(next.tree(n).children[i] == next.tree(y));
            assert(self.tree(n).children[i] == self.tree(y));
        }
        assert(next.tree(n).children.subrange(0, a) =~= self.tree(n).children.subrange(0, a));
        let t = normalize_tree(old.tree(n).children[k]);
        assert(t.data == old.data(c));
        assert(own_text(t.data) == old.text_data(c));
        assert forall|x: NodeRepr|
            self.has(x) && x != n && !old.below_rest(n, k, x) && !self.is_last_of(
                n,
                a,
                x,
            ) implies #[trigger] next.node(x) == self.node(x) by {
            assert(old.is_ancestor_or_self(old.children(n)[k], c));
            assert(x != c);
            assert(next.parent(x) == self.parent(x));
            assert(next.children(x) == self.children(x));
            assert(next.data(x) == self.data(x));
        }
        if a > 0 {
            let p = self.children(n)[a - 1];
            assert(next.children(n)[a - 1] == p);
            assert(next.data(p) == self.data(p));
        }
    }
}

impl DomView {
    /// A text node that is not empty and does not come right after a
    /// text node, when it is seen to, stays.
    pub proof fn lemma_step_keep(self, old: DomView, n: NodeRepr, k: int)
        requires
            self.pending(old, n, k),
            k < old.children(n).len(),
            old.kind(old.children(n)[k]) is Text,
            old.text_data(old.children(n)[k]).len() > 0,
            !self.follows_text(old.children(n)[k]),
        ensures
            self.normalize_step(old.children(n)[k]) == self,
            self.stepped_to(old, self, n, k),
    {
        let a = self.settled(old, n, k);
        let c = old.children(n)[k];
        self.lemma_pending_next(old, n, k);
        old.lemma_ranked();
        self.lemma_ranked();
        self.lemma_tree_children(n);
        old.lemma_tree_children(c);
        assert(self.settled(old, n, k + 1) == a + 1);
        assert(self.children(n).skip(a + 1) =~= old.children(n).skip(k + 1)) by {
            assert(self.children(n).skip(a + 1) =~= self.children(n).skip(a).skip(1));
            assert(old.children(n).skip(k + 1) =~= old.children(n).skip(k).skip(1));
        }
        assert forall|j: int, x: NodeRepr|
            k + 1 <= j < old.children(n).len() && old.has(x) && #[trigger] old.is_ancestor_or_self(
                old.children(n)[j],
                x,
            ) implies self.node(x) == old.node(x) by {}
        assert(self.pending(old, n, k + 1));
        let t = old.tree(c);
        assert(old.children(c).len() == 0);
        assert(t.children =~= Seq::<DomTree>::empty());
        assert(normalize_trees(t.children) =~= Seq::<DomTree>::empty());
        assert(normalize_tree(t) == t);
        let acc = self.tree(n).children.subrange(0, a);
        if a > 0 {
            let p = self.children(n)[a - 1];
            assert(acc.last() == self.tree(n).children[a - 1]);
            assert(self.tree(n).children[a - 1] == self.tree(p));
            assert(self.tree(p).data == self.data(p));
        }
        assert(self.tree(n).children[a] == self.tree(c));
        assert(self.tree(n).children.subrange(0, a + 1) =~= acc.push(t));
    }

    /// A text node that is not empty and comes right after a text node,
    /// when it is seen to, hands its data over and leaves.
    pub proof fn lemma_step_join(self, old: DomView, n: NodeRepr, k: int)
        requires
            self.pending(old, n, k),
            k < old.children(n).len(),
            old.kind(old.children(n)[k]) is Text,
            old.text_data(old.children(n)[k]).len() > 0,
            self.follows_text(old.children(n)[k]),
        ensures
            self.stepped_to(old, self.normalize_step(old.children(n)[k]), n, k),
    {
        let a = self.settled(old, n, k);
        let c = old.children(n)[k];
        let next = self.normalize_step(c);
        self.lemma_pending_next(old, n, k);
        old.lemma_ranked();
        self.lemma_ranked();
        let p = self.children(n)[a - 1];
        let joined = self.text_data(p) + self.text_data(c);
        let fresh = self.data(p).with_character_data(joined);
        let mid = self.with_text(p, joined);
        self.lemma_with_data(p, fresh);
        mid.lemma_ranked();
        assert forall|x: NodeRepr| self.has(x) implies #[trigger] mid.node(x) == (if x == p {
            crate::model::NodeView { data: fresh, ..self.node(p) }
        } else {
            self.node(x)
        }) by {}
        assert(mid.children(n) == self.children(n));
        assert(mid.parent(c) == Some(n));
        assert(mid.position(n, c) == a);
        mid.lemma_detach(c);
        assert(next == mid.detach(c));
        assert(next.children(n) == self.children(n).remove(a));
        assert(next.settled(old, n, k + 1) == a);
        assert(next.children(n).skip(a) =~= old.children(n).skip(k + 1)) by {
            assert(self.children(n).remove(a).skip(a) =~= self.children(n).skip(a).skip(1));
            assert(old.children(n).skip(k + 1) =~= old.children(n).skip(k).skip(1));
        }
        assert(old.parent(p) == Some(n));
        assert(old.is_ancestor_or_self(p, p));
        assert(old.is_ancestor_or_self(c, c));
        assert forall|j: int, x: NodeRepr|
            k + 1 <= j < old.children(n).len() && old.has(x) && #[trigger] old.is_ancestor_or_self(
                old.children(n)[j],
                x,
            ) implies next.node(x) == old.node(x) by {
            let q = old.children(n)[j];
            assert(self.node(x) == old.node(x));
            assert(old.parent(q) == Some(n));
            assert(old.children(n).no_duplicates());
            assert(q != c);
            assert(self.children(n).skip(a)[j - k] == old.children(n).skip(k)[j - k]);
            assert(self.children(n)[a + j - k] == q);
            assert(self.children(n).no_duplicates());
            assert(q != p);
            old.lemma_siblings_apart(q, c, x);
            old.lemma_siblings_apart(q, p, x);
            if x == n {
                old.lemma_child_not_above(n, q);
            }
            assert(mid.node(x) == self.node(x));
            assert(next.parent(x) == mid.parent(x));
            assert(next.children(x) == mid.children(x));
            assert(next.data(x) == mid.data(x));
        }
        assert forall|i: int| 0 <= i < a implies old.parent(#[trigger] next.children(n)[i]) == Some(
            n,
        ) by {
            assert(next.children(n)[i] == self.children(n)[i]);
        }
        assert(next.data(n) == self.data(n)) by {
            assert(next.data(n) == mid.data(n));
        }
        assert(next.pending(old, n, k + 1));
        next.lemma_tree_children(n);
        self.lemma_tree_children(n);
        next.lemma_tree_children(p);
        self.lemma_tree_children(p);
        let acc = self.tree(n).children.subrange(0, a);
        let t = normalize_tree(old.tree(n).children[k]);
        assert(t.data == old.data(c));
        assert(own_text(t.data) == self.text_data(c));
        assert(acc.last() == self.tree(p));
        assert(self.tree(p).data == self.data(p));
        assert(own_text(self.data(p)) == self.text_data(p));
        assert(self.children(p).len() == 0);
        assert(next.children(p) == mid.children(p));
        assert(next.data(p) == fresh);
        assert(fresh == NodeDataView::Text { contents: joined });
        assert(next.tree(p).children =~= self.tree(p).children);
        let want = merge_into(acc, t);
        assert forall|i: int| 0 <= i < a implies next.tree(n).children[i] == want[i] by {
            let y = self.children(n)[i];
            assert(next.children(n)[i] == y);
            assert(next.tree(n).children[i] == next.tree(y));
            assert(self.tree(n).children[i] == self.tree(y));
            if i < a - 1 {
                assert(self.parent(y) == Some(n));
                assert(self.children(n).no_duplicates());
                assert(y != p);
                self.lemma_sibling_not_above(n, y, p);
                self.lemma_with_data_keeps_tree(p, fresh, y);
                assert(mid.parent(y) == Some(n));
                mid.lemma_child_not_above(n, y);
                mid.lemma_detach_keeps_tree(c, y);
                assert(want[i] == acc[i]);
            }
        }
        assert(next.tree(n).children.subrange(0, a) =~= want);
        assert forall|x: NodeRepr|
            self.has(x) && x != n && !old.below_rest(n, k, x) && !self.is_last_of(
                n,
                a,
                x,
            ) implies #[trigger] next.node(x) == self.node(x) by {
            assert(old.is_ancestor_or_self(old.children(n)[k], c));
            assert(x != c);
            assert(x != p);
            assert(mid.node(x) == self.node(x));
            assert(next.parent(x) == mid.parent(x));
            assert(next.children(x) == mid.children(x));
            assert(next.data(x) == mid.data(x));
        }
        assert(next.children(n)[a - 1] == p);
        assert(next.parent(p) == mid.parent(p));
    }
}

impl DomView {
    /// When the child `k` of `n` is still to be seen to, so are all its
    /// children.
    pub proof fn lemma_pending_child(self, old: DomView, n: NodeRepr, k: int)
        requires
            self.pending(old, n, k),
            k < old.children(n).len(),
        ensures
            self.pending(old, old.children(n)[k], 0),
    {
        let c = old.children(n)[k];
        self.lemma_pending_next(old, n, k);
        old.lemma_ranked();
        assert(self.children(c).skip(0) =~= old.children(c).skip(0));
        assert forall|j: int, x: NodeRepr|
            0 <= j < old.children(c).len() && old.has(x) && #[trigger] old.is_ancestor_or_self(
                old.children(c)[j],
                x,
            ) implies self.node(x) == old.node(x) by {
            let d = old.children(c)[j];
            assert(old.parent(d) == Some(c));
            old.lemma_parent_is_ancestor(d);
            old.lemma_ancestor_trans(c, d, x);
            assert(old.is_ancestor_or_self(old.children(n)[k], x));
        }
    }

    /// A node that is no text node stays when it is seen to, and what is
    /// below it is then normalized in its own right.
    pub proof fn lemma_step_other(self, old: DomView, next: DomView, n: NodeRepr, k: int)
        requires
            self.pending(old, n, k),
            k < old.children(n).len(),
            !(old.kind(old.children(n)[k]) is Text),
            self.pending(old, old.children(n)[k], 0),
            self.advanced_to(old, next, old.children(n)[k], 0),
        ensures
            self.stepped_to(old, next, n, k),
    {
        let a = self.settled(old, n, k);
        let c = old.children(n)[k];
        self.lemma_pending_next(old, n, k);
        old.lemma_ranked();
        self.lemma_ranked();
        next.lemma_ranked();
        assert(self.settled(old, c, 0) == 0);
        assert(old.is_ancestor_or_self(c, c));
        // What lies below a child of `c` lies below `c`.
        assert forall|x: NodeRepr| old.has(x) && old.below_rest(c, 0, x) implies old.is_ancestor_or_self(
            c,
            x,
        ) && x != c by {
            let j = choose|j: int|
                0 <= j < old.children(c).len() && #[trigger] old.is_ancestor_or_self(
                    old.children(c)[j],
                    x,
                );
            let d = old.children(c)[j];
            assert(old.parent(d) == Some(c));
            old.lemma_parent_is_ancestor(d);
            old.lemma_ancestor_trans(c, d, x);
            if x == c {
                old.lemma_child_not_above(c, d);
            }
        }
        assert(!old.below_rest(c, 0, n)) by {
            if old.below_rest(c, 0, n) {
                old.lemma_child_not_above(n, c);
            }
        }
        assert(next.node(n) == self.node(n));
        assert(next.settled(old, n, k + 1) == a + 1);
        assert(next.children(n).skip(a + 1) =~= old.children(n).skip(k + 1)) by {
            assert(self.children(n).skip(a + 1) =~= self.children(n).skip(a).skip(1));
            assert(old.children(n).skip(k + 1) =~= old.children(n).skip(k).skip(1));
        }
        assert forall|j: int, x: NodeRepr|
            k + 1 <= j < old.children(n).len() && old.has(x) && #[trigger] old.is_ancestor_or_self(
                old.children(n)[j],
                x,
            ) implies next.node(x) == old.node(x) by {
            let q = old.children(n)[j];
            assert(self.node(x) == old.node(x));
            assert(old.parent(q) == Some(n));
            assert(old.children(n).no_duplicates());
            assert(q != c);
            old.lemma_siblings_apart(q, c, x);
            assert(x != c);
            assert(!old.below_rest(c, 0, x));
            assert(next.node(x) == self.node(x));
        }
        assert forall|i: int| 0 <= i < a + 1 implies old.parent(#[trigger] next.children(n)[i])
            == Some(n) by {
            assert(next.children(n)[i] == self.children(n)[i]);
        }
        assert(next.pending(old, n, k + 1));
        // The tree of `c` is now the normal form of what it was.
        let ts = old.tree(c).children;
        lemma_merge_rest(ts, 0);
        assert(ts.subrange(0, 0) =~= Seq::<DomTree>::empty());
        assert(self.tree(c).children.subrange(0, 0) =~= Seq::<DomTree>::empty());
        assert(normalize_trees(Seq::<DomTree>::empty()) =~= Seq::<DomTree>::empty());
        assert(next.tree(c).children == normalize_trees(ts));
        assert(next.tree(c).data == next.data(c));
        assert(next.tree(c) == normalize_tree(old.tree(c)));
        // What lies below `c` as it was lies below `c` as it is.
        assert forall|y: NodeRepr|
            old.has(y) && #[trigger] old.is_ancestor_or_self(c, y) implies self.has(y) && self.node(
            y,
        ) == old.node(y) by {
            assert(old.is_ancestor_or_self(old.children(n)[k], y));
        }
        next.lemma_tree_children(n);
        self.lemma_tree_children(n);
        let acc = self.tree(n).children.subrange(0, a);
        let want = merge_into(acc, normalize_tree(old.tree(n).children[k]));
        assert(want == acc.push(normalize_tree(old.tree(c))));
        assert forall|i: int| 0 <= i < a + 1 implies next.tree(n).children[i] == want[i] by {
            let y = self.children(n)[i];
            assert(next.children(n)[i] == y);
            assert(next.tree(n).children[i] == next.tree(y));
            assert(self.tree(n).children[i] == self.tree(y));
            if i < a {
                assert(self.parent(y) == Some(n));
                assert(self.children(n).no_duplicates());
                assert(y != c);
                assert forall|x: NodeRepr|
                    self.has(x) && #[trigger] self.is_ancestor_or_self(y, x) implies next.has(x)
                    && next.children(x) == self.children(x) && next.data(x) == self.data(x) by {
                    self.lemma_siblings_apart(y, c, x);
                    assert(self.is_ancestor_or_self(c, c));
                    assert(x != c);
                    if old.below_rest(c, 0, x) {
                        old.lemma_untouched(self, c, x);
                    }
                    if x == n {
                        self.lemma_child_not_above(n, y);
                    }
                    assert(next.node(x) == self.node(x));
                }
                self.lemma_tree_frame(next, y);
                assert(want[i] == acc[i]);
            }
        }
        assert(next.tree(n).children.subrange(0, a + 1) =~= want);
        assert forall|x: NodeRepr|
            self.has(x) && x != n && !old.below_rest(n, k, x) && !self.is_last_of(
                n,
                a,
                x,
            ) implies #[trigger] next.node(x) == self.node(x) by {
            assert(old.is_ancestor_or_self(old.children(n)[k], c));
            assert(x != c);
            if old.below_rest(c, 0, x) {
                assert(old.is_ancestor_or_self(old.children(n)[k], x));
            }
        }
        if a > 0 {
            let p = self.children(n)[a - 1];
            assert(old.parent(p) == Some(n));
            assert(old.is_ancestor_or_self(p, p));
            if old.below_rest(c, 0, p) {
                old.lemma_siblings_apart(p, c, p);
            }
            assert(next.node(p) == self.node(p));
        }
    }

    /// Seeing to the children of `n` from `k` on, and to all below them,
    /// in tree order, takes their normal forms into the children that
    /// have been kept.
    pub proof fn lemma_normalize_rest(self, old: DomView, n: NodeRepr, k: int)
        requires
            self.pending(old, n, k),
        ensures
            self.advanced_to(old, self.normalize_list(old.descendants_from(n, k)), n, k),
        decreases old.down(n), old.children(n).len() - k,
    {
        old.lemma_ranked();
        self.lemma_tree_children(n);
        old.lemma_tree_children(n);
        if k >= old.children(n).len() {
            let a = self.settled(old, n, k);
            assert(old.descendants_from(n, k) =~= Seq::<NodeRepr>::empty());
            assert(self.normalize_list(Seq::<NodeRepr>::empty()) == self);
            assert(self.tree(n).children.subrange(0, a) =~= self.tree(n).children);
        } else {
            let c = old.children(n)[k];
            let below = old.descendants_from(c, 0);
            let rest = old.descendants_from(n, k + 1);
            self.lemma_pending_next(old, n, k);
            old.lemma_child_is_lower(n, k);
            self.lemma_normalize_list_one(c);
            self.lemma_normalize_list_concat(seq![c], below);
            self.lemma_normalize_list_concat(seq![c] + below, rest);
            let seen = self.normalize_step(c);
            let settled_below = seen.normalize_list(below);
            let w = settled_below.normalize_list(rest);
            assert(w == self.normalize_list(old.descendants_from(n, k)));
            if old.kind(c) is Text {
                assert(old.children(c).len() == 0);
                assert(below =~= Seq::<NodeRepr>::empty());
                assert(seen.normalize_list(Seq::<NodeRepr>::empty()) == seen);
                if old.text_data(c).len() == 0 {
                    self.lemma_step_drop(old, n, k);
                } else if self.follows_text(c) {
                    self.lemma_step_join(old, n, k);
                } else {
                    self.lemma_step_keep(old, n, k);
                }
            } else {
                assert(seen == self);
                self.lemma_pending_child(old, n, k);
                self.lemma_normalize_rest(old, c, 0);
                self.lemma_step_other(old, settled_below, n, k);
            }
            settled_below.lemma_normalize_rest(old, n, k + 1);
            self.lemma_step_then_rest(old, settled_below, w, n, k);
        }
    }
}

/// Lists of trees that agree in text, tree by tree, agree in text.
pub proof fn lemma_same_texts(a: Seq<DomTree>, b: Seq<DomTree>)
    requires
        a.len() == b.len(),
        forall|i: int| 0 <= i < a.len() ==> tree_text(#[trigger] a[i]) == tree_text(b[i]),
    ensures
        trees_text(a) == trees_text(b),
    decreases a.len(),
{
    if a.len() > 0 {
        let a0 = a.subrange(0, a.len() - 1);
        let b0 = b.subrange(0, b.len() - 1);
        assert forall|i: int| 0 <= i < a0.len() implies tree_text(#[trigger] a0[i]) == tree_text(
            b0[i],
        ) by {
            assert(a0[i] == a[i]);
            assert(b0[i] == b[i]);
        }
        lemma_same_texts(a0, b0);
        assert(tree_text(a[a.len() - 1]) == tree_text(b[b.len() - 1]));
    }
}

impl DomView {
    /// In a well-formed arena text nodes have no children.
    pub proof fn lemma_texts_are_leaves(self, n: NodeRepr)
        requires
            self.wf(),
            self.has(n),
        ensures
            texts_are_leaves(self.tree(n)),
        decreases self.down(n),
    {
        self.lemma_ranked();
        self.lemma_tree_children(n);
        let t = self.tree(n);
        assert forall|i: int| 0 <= i < t.children.len() implies texts_are_leaves(
            #[trigger] t.children[i],
        ) by {
            self.lemma_child_is_lower(n, i);
            self.lemma_texts_are_leaves(self.children(n)[i]);
        }
    }

    /// What normalizing does: the tree below `n` is in its normal form,
    /// and nothing has changed but below `n`.
    pub proof fn lemma_normalized(self, n: NodeRepr)
        requires
            self.wf(),
            self.has(n),
        ensures
            self.normalized(n).wf(),
            self.normalized(n).nodes.len() == self.nodes.len(),
            self.normalized(n).tree(n) == normalize_tree(self.tree(n)),
            self.normalized(n).data(n) == self.data(n),
            self.normalized(n).parent(n) == self.parent(n),
            forall|x: NodeRepr|
                self.has(x) && !(self.is_ancestor_or_self(n, x) && x != n)
                    ==> #[trigger] self.normalized(n).parent(x) == self.parent(x)
                    && self.normalized(n).data(x) == self.data(x),
            forall|x: NodeRepr|
                self.has(x) && !self.is_ancestor_or_self(n, x) ==> #[trigger] self.normalized(n).node(x)
                    == self.node(x),
    {
        let w = self.normalized(n);
        self.lemma_ranked();
        assert(self.children(n).skip(0) =~= self.children(n).skip(0));
        assert(self.pending(self, n, 0));
        self.lemma_normalize_rest(self, n, 0);
        let ts = self.tree(n).children;
        lemma_merge_rest(ts, 0);
        assert(ts.subrange(0, 0) =~= Seq::<DomTree>::empty());
        assert(normalize_trees(Seq::<DomTree>::empty()) =~= Seq::<DomTree>::empty());
        assert(w.tree(n).data == w.data(n));
        assert(self.is_ancestor_or_self(n, n));
        assert forall|x: NodeRepr| self.has(x) && self.below_rest(n, 0, x) implies self.is_ancestor_or_self(
            n,
            x,
        ) && x != n by {
            let j = choose|j: int|
                0 <= j < self.children(n).len() && #[trigger] self.is_ancestor_or_self(
                    self.children(n)[j],
                    x,
                );
            let d = self.children(n)[j];
            assert(self.parent(d) == Some(n));
            self.lemma_parent_is_ancestor(d);
            self.lemma_ancestor_trans(n, d, x);
            if x == n {
                self.lemma_child_not_above(n, d);
            }
        }
        assert forall|x: NodeRepr|
            self.has(x) && !(self.is_ancestor_or_self(n, x) && x != n) implies #[trigger] w.parent(
            x,
        ) == self.parent(x) && w.data(x) == self.data(x) by {
            if x != n {
                assert(w.node(x) == self.node(x));
            }
        }
        assert forall|x: NodeRepr|
            self.has(x) && !self.is_ancestor_or_self(n, x) implies #[trigger] w.node(x) == self.node(
            x,
        ) by {}
    }

    /// Where the tree below `n` has been replaced by one of the same
    /// text, and nothing else has changed, the text of every node above
    /// `n` is as it was.
    pub proof fn lemma_text_above(self, other: DomView, n: NodeRepr, r: NodeRepr)
        requires
            self.wf(),
            other.wf(),
            self.has(n),
            self.has(r),
            other.nodes.len() == self.nodes.len(),
            self.is_ancestor_or_self(r, n),
            tree_text(other.tree(n)) == tree_text(self.tree(n)),
            forall|x: NodeRepr|
                self.has(x) && !self.is_ancestor_or_self(n, x) ==> #[trigger] other.node(x)
                    == self.node(x),
        ensures
            tree_text(other.tree(r)) == tree_text(self.tree(r)),
        decreases self.down(r),
    {
        self.lemma_ranked();
        if r != n {
            assert(!self.is_ancestor_or_self(n, r)) by {
                if self.is_ancestor_or_self(n, r) {
                    self.lemma_ancestor_rank(n, r);
                    self.lemma_ancestor_rank(r, n);
                    self.lemma_ancestor_rank(r, self.parent(n)->0);
                }
            }
            assert(other.node(r) == self.node(r));
            self.lemma_tree_children(r);
            other.lemma_tree_children(r);
            let a = other.tree(r).children;
            let b = self.tree(r).children;
            assert forall|i: int| 0 <= i < a.len() implies tree_text(#[trigger] a[i]) == tree_text(
                b[i],
            ) by {
                let d = self.children(r)[i];
                self.lemma_child_is_lower(r, i);
                assert(a[i] == other.tree(d));
                assert(b[i] == self.tree(d));
                if self.is_ancestor_or_self(d, n) {
                    self.lemma_text_above(other, n, d);
                } else {
                    assert forall|y: NodeRepr|
                        self.has(y) && #[trigger] self.is_ancestor_or_self(d, y) implies other.has(
                        y,
                    ) && other.node(y) == self.node(y) by {
                        if self.is_ancestor_or_self(n, y) {
                            self.lemma_chain_is_ordered(d, n, y);
                            self.lemma_ancestor_rank(n, d);
                            if n != d {
                                self.lemma_ancestor_trans(n, self.parent(d)->0, r);
                                assert(self.is_ancestor_or_self(n, self.parent(d)->0));
                            }
                        }
                    }
                    self.lemma_untouched(other, d, d);
                }
            }
            lemma_same_texts(a, b);
        }
    }

    /// In a tree that is in normal form, seeing to the nodes below a
    /// node changes nothing.
    pub proof fn lemma_normal_stays(self, n: NodeRepr, k: int)
        requires
            self.wf(),
            self.has(n),
            0 <= k,
            is_normal(self.tree(n)),
        ensures
            self.normalize_list(self.descendants_from(n, k)) == self,
        decreases self.down(n), self.children(n).len() - k,
    {
        self.lemma_ranked();
        self.lemma_tree_children(n);
        if k >= self.children(n).len() {
            assert(self.descendants_from(n, k) =~= Seq::<NodeRepr>::empty());
            assert(self.normalize_list(Seq::<NodeRepr>::empty()) == self);
        } else {
            let c = self.children(n)[k];
            let below = self.descendants_from(c, 0);
            let rest = self.descendants_from(n, k + 1);
            self.lemma_child_is_lower(n, k);
            self.lemma_normalize_list_one(c);
            self.lemma_normalize_list_concat(seq![c], below);
            self.lemma_normalize_list_concat(seq![c] + below, rest);
            let t = self.tree(n);
            assert(t.children[k] == self.tree(c));
            assert(is_normal(t.children[k]));
            assert(self.tree(c).data == self.data(c));
            assert(self.normalize_step(c) == self) by {
                if self.kind(c) is Text {
                    assert(own_text(t.children[k].data) == self.text_data(c));
                    assert(self.children(n).contains(c));
                    assert(self.children(n).no_duplicates());
                    assert(self.position(n, c) == k);
                    if k > 0 {
                        let p = self.children(n)[k - 1];
                        assert(self.siblings_before(c).last() == p);
                        assert(t.children[k - 1] == self.tree(p));
                        assert(self.tree(p).data == self.data(p));
                    }
                }
            }
            self.lemma_normal_stays(c, 0);
            self.lemma_normal_stays(n, k + 1);
        }
    }
}

} // verus!
