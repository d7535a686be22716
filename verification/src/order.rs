//! Tree order: every node stands once in the list of the nodes of its
//! tree, and of two children of a node the earlier one stands first.

use vstd::prelude::*;
use crate::model::NodeRepr;
use crate::model::DomView;
use crate::navigate::occurs_before;

verus! {

/// In a list without repeats, of two entries only one stands before the
/// other.
pub proof fn lemma_one_order(list: Seq<NodeRepr>, a: NodeRepr, b: NodeRepr)
    requires
        list.no_duplicates(),
        occurs_before(list, a, b),
    ensures
        !occurs_before(list, b, a),
{
    if occurs_before(list, b, a) {
        let (i, j) = choose|i: int, j: int| 0 <= i < j < list.len() && list[i] == a && list[j] == b;
        let (x, y) = choose|x: int, y: int| 0 <= x < y < list.len() && list[x] == b && list[y] == a;
        assert(list[i] == list[y]);
        assert(list[j] == list[x]);
    }
}

/// What stands in order in a stretch of a list stands in order in the
/// list.
pub proof fn lemma_order_in_stretch(
    list: Seq<NodeRepr>,
    part: Seq<NodeRepr>,
    at: int,
    a: NodeRepr,
    b: NodeRepr,
)
    requires
        0 <= at,
        at + part.len() <= list.len(),
        forall|t: int| 0 <= t < part.len() ==> list[at + t] == #[trigger] part[t],
        occurs_before(part, a, b),
    ensures
        occurs_before(list, a, b),
{
    let (i, j) = choose|i: int, j: int| 0 <= i < j < part.len() && part[i] == a && part[j] == b;
    assert(list[at + i] == part[i]);
    assert(list[at + j] == part[j]);
    assert(0 <= at + i < at + j < list.len() && list[at + i] == a && list[at + j] == b);
}

impl DomView {
    /// Where the child `m` of `n` stands in the list of the nodes below
    /// the children of `n` from `k` on.
    pub open spec fn place_of_child(self, n: NodeRepr, k: int, m: int) -> int
        decreases m - k,
    {
        if k >= m {
            0
        } else {
            1 + self.descendants(self.children(n)[k]).len() + self.place_of_child(n, k + 1, m)
        }
    }

    /// The nodes below the children of `n` from `k` on hold, for a child
    /// at `m`, that child and all that is below it in one stretch.
    pub proof fn lemma_child_stretch(self, n: NodeRepr, k: int, m: int)
        requires
            self.wf(),
            self.has(n),
            0 <= k <= m < self.children(n).len(),
        ensures
            0 <= self.place_of_child(n, k, m),
            self.place_of_child(n, k, m) + self.subtree(self.children(n)[m]).len()
                <= self.descendants_from(n, k).len(),
            forall|t: int|
                0 <= t < self.subtree(self.children(n)[m]).len() ==> self.descendants_from(n, k)[self.place_of_child(
                    n,
                    k,
                    m,
                ) + t] == #[trigger] self.subtree(self.children(n)[m])[t],
        decreases m - k,
    {
        let c = self.children(n)[k];
        let below = self.descendants_from(c, 0);
        let rest = self.descendants_from(n, k + 1);
        let all = self.descendants_from(n, k);
        self.lemma_child_is_lower(n, k);
        assert(all == seq![c] + below + rest);
        if k < m {
            self.lemma_child_stretch(n, k + 1, m);
            let at = self.place_of_child(n, k + 1, m);
            let part = self.subtree(self.children(n)[m]);
            assert forall|t: int| 0 <= t < part.len() implies all[1 + below.len() + at + t]
                == #[trigger] part[t] by {
                assert(all[1 + below.len() + at + t] == rest[at + t]);
            }
        } else {
            let part = self.subtree(c);
            assert(part == seq![c] + below);
            assert forall|t: int| 0 <= t < part.len() implies all[t] == #[trigger] part[t] by {}
        }
    }

    /// Every node below the children of `n` from `k` on has one of those
    /// children above it, or is one of them.
    pub proof fn lemma_listed_under(self, n: NodeRepr, k: int, i: int) -> (j: int)
        requires
            self.wf(),
            self.has(n),
            0 <= k,
            0 <= i < self.descendants_from(n, k).len(),
        ensures
            k <= j < self.children(n).len(),
            self.is_ancestor_or_self(self.children(n)[j], self.descendants_from(n, k)[i]),
        decreases self.children(n).len() - k,
    {
        let c = self.children(n)[k];
        let below = self.descendants_from(c, 0);
        let rest = self.descendants_from(n, k + 1);
        let all = self.descendants_from(n, k);
        self.lemma_ranked();
        self.lemma_child_is_lower(n, k);
        assert(all == seq![c] + below + rest);
        if i == 0 {
            assert(all[i] == c);
            assert(self.is_ancestor_or_self(c, c));
            k
        } else if i < 1 + below.len() {
            assert(all[i] == below[i - 1]);
            self.lemma_descendants_below(c, 0);
            k
        } else {
            assert(all[i] == rest[i - 1 - below.len()]);
            self.lemma_listed_under(n, k + 1, i - 1 - below.len())
        }
    }

    /// No node stands twice among the nodes below the children of `n`
    /// from `k` on.
    pub proof fn lemma_listed_once(self, n: NodeRepr, k: int)
        requires
            self.wf(),
            self.has(n),
            0 <= k,
        ensures
            self.descendants_from(n, k).no_duplicates(),
        decreases self.down(n), self.children(n).len() - k,
    {
        self.lemma_ranked();
        if k < self.children(n).len() {
            let c = self.children(n)[k];
            let below = self.descendants_from(c, 0);
            let rest = self.descendants_from(n, k + 1);
            let all = self.descendants_from(n, k);
            self.lemma_child_is_lower(n, k);
            self.lemma_listed_once(c, 0);
            self.lemma_listed_once(n, k + 1);
            self.lemma_descendants_below(c, 0);
            self.lemma_descendants_below(n, k + 1);
            assert(all == seq![c] + below + rest);
            assert(self.is_ancestor_or_self(c, c));
            assert forall|x: int, y: int| 0 <= x < y < all.len() implies all[x] != all[y] by {
                if y < 1 + below.len() {
                    if x == 0 {
                        assert(all[y] == below[y - 1]);
                    } else {
                        assert(all[x] == below[x - 1]);
                        assert(all[y] == below[y - 1]);
                    }
                } else {
                    let t = y - 1 - below.len();
                    assert(all[y] == rest[t]);
                    if x >= 1 + below.len() {
                        assert(all[x] == rest[x - 1 - below.len()]);
                    } else {
                        let j = self.lemma_listed_under(n, k + 1, t);
                        let other = self.children(n)[j];
                        self.lemma_child_is_lower(n, j);
                        assert(self.children(n).no_duplicates());
                        assert(other != c);
                        if x == 0 {
                            assert(all[x] == c);
                        } else {
                            assert(all[x] == below[x - 1]);
                        }
                        assert(self.is_ancestor_or_self(c, all[x]));
                        assert(self.has(all[x]));
                        self.lemma_siblings_apart(c, other, all[x]);
                    }
                }
            }
        }
    }

    /// No node stands twice in the list of a node and the nodes below
    /// it.
    pub proof fn lemma_subtree_once(self, n: NodeRepr)
        requires
            self.wf(),
            self.has(n),
        ensures
            self.subtree(n).no_duplicates(),
    {
        let below = self.descendants(n);
        let all = self.subtree(n);
        self.lemma_listed_once(n, 0);
        self.lemma_descendants_below(n, 0);
        assert forall|x: int, y: int| 0 <= x < y < all.len() implies all[x] != all[y] by {
            assert(all[y] == below[y - 1]);
            if x > 0 {
                assert(all[x] == below[x - 1]);
            }
        }
    }

    /// Of two children of `n` the earlier one stands first among the
    /// nodes below `n`.
    pub proof fn lemma_children_in_order(self, n: NodeRepr, i: int, j: int)
        requires
            self.wf(),
            self.has(n),
            0 <= i < j < self.children(n).len(),
        ensures
            occurs_before(self.subtree(n), self.children(n)[i], self.children(n)[j]),
    {
        let all = self.subtree(n);
        let below = self.descendants(n);
        self.lemma_child_stretch(n, 0, i);
        self.lemma_child_stretch(n, 0, j);
        self.lemma_child_is_lower(n, i);
        self.lemma_child_is_lower(n, j);
        let x = self.place_of_child(n, 0, i);
        let y = self.place_of_child(n, 0, j);
        assert(self.subtree(self.children(n)[i])[0] == self.children(n)[i]);
        assert(self.subtree(self.children(n)[j])[0] == self.children(n)[j]);
        assert(below[x + 0] == self.children(n)[i]);
        assert(below[y + 0] == self.children(n)[j]);
        self.lemma_places_grow(n, 0, i, j);
        assert(all[1 + x] == below[x]);
        assert(all[1 + y] == below[y]);
        assert(0 <= 1 + x < 1 + y < all.len());
    }

    /// A later child stands at a later place.
    pub proof fn lemma_places_grow(self, n: NodeRepr, k: int, i: int, j: int)
        requires
            0 <= k <= i < j,
        ensures
            self.place_of_child(n, k, i) < self.place_of_child(n, k, j),
        decreases i - k,
    {
        if k < i {
            self.lemma_places_grow(n, k + 1, i, j);
        } else {
            assert(self.place_of_child(n, k, i) == 0);
            self.lemma_place_from_nought(n, k + 1, j);
        }
    }

    /// Places are counted from nought.
    pub proof fn lemma_place_from_nought(self, n: NodeRepr, k: int, j: int)
        ensures
            self.place_of_child(n, k, j) >= 0,
        decreases j - k,
    {
        if k < j {
            self.lemma_place_from_nought(n, k + 1, j);
        }
    }

    /// What stands in order among a node and the nodes below it stands
    /// in order in the list of the whole tree.
    pub proof fn lemma_order_in_tree(self, r: NodeRepr, a: NodeRepr, b: NodeRepr)
        requires
            self.wf(),
            self.has(r),
            occurs_before(self.subtree(r), a, b),
        ensures
            occurs_before(self.subtree(self.root_of(r)), a, b),
        decreases self.up(r),
    {
        self.lemma_ranked();
        if self.parent(r) is Some {
            let q = self.parent(r)->0;
            let m = self.position(q, r);
            assert(self.children(q).contains(r));
            assert(0 <= m < self.children(q).len() && self.children(q)[m] == r);
            self.lemma_child_stretch(q, 0, m);
            let at = self.place_of_child(q, 0, m);
            let part = self.subtree(r);
            let all = self.subtree(q);
            assert forall|t: int| 0 <= t < part.len() implies all[1 + at + t] == #[trigger] part[t] by {
                assert(all[1 + at + t] == self.descendants(q)[at + t]);
            }
            lemma_order_in_stretch(all, part, 1 + at, a, b);
            self.lemma_order_in_tree(q, a, b);
        }
    }
}

} // verus!
