//! The mathematical model of the node arena: what a well-formed arena is,
//! and the tree relations that the contracts of the library speak of.

use vstd::prelude::*;
use crate::node::NodeKind;
use crate::node::NodeDataView;

verus! {

/// A handle to a node: its index in the arena that created it.
/// Two handles are the same node exactly when they are equal.
#[derive(Clone, Copy, Debug, PartialEq, Eq, Structural)]
pub struct NodeRepr(pub usize);

/// The mathematical value of one arena slot.
pub struct NodeView {
    pub parent: Option<NodeRepr>,
    pub children: Seq<NodeRepr>,
    pub data: NodeDataView,
    pub template_contents: Option<NodeRepr>,
}

/// The mathematical value of an arena: its slots in allocation order.
pub struct DomView {
    pub nodes: Seq<NodeView>,
}

/// A witness that the parent links have no cycle: every node lies strictly
/// deeper than its parent, and all depths stay below `cap`.
pub struct Ranking {
    pub depth: Seq<nat>,
    pub cap: nat,
}

impl Ranking {
    /// The depth that the ranking gives to `n`.
    pub open spec fn of(self, n: NodeRepr) -> nat {
        self.depth[n.0 as int]
    }
}

impl DomView {
    /// The handle names a slot of this arena.
    pub open spec fn has(self, n: NodeRepr) -> bool {
        n.0 < self.nodes.len()
    }

    /// The slot of `n`.
    pub open spec fn node(self, n: NodeRepr) -> NodeView {
        self.nodes[n.0 as int]
    }

    /// The parent of `n`, if it has one.
    pub open spec fn parent(self, n: NodeRepr) -> Option<NodeRepr> {
        self.node(n).parent
    }

    /// The children of `n`, in order.
    pub open spec fn children(self, n: NodeRepr) -> Seq<NodeRepr> {
        self.node(n).children
    }

    /// The payload of `n`.
    pub open spec fn data(self, n: NodeRepr) -> NodeDataView {
        self.node(n).data
    }

    /// The kind of `n`.
    pub open spec fn kind(self, n: NodeRepr) -> NodeKind {
        self.node(n).data.kind()
    }

    /// Parent and child links agree, and no child is listed twice.
    pub open spec fn links_ok(self) -> bool {
        &&& forall|n: NodeRepr|
            #![trigger self.parent(n)]
            self.has(n) && self.parent(n) is Some ==> self.has(self.parent(n)->0)
                && self.children(self.parent(n)->0).contains(n)
        &&& forall|p: NodeRepr, i: int|
            #![trigger self.children(p)[i]]
            self.has(p) && 0 <= i < self.children(p).len() ==> self.has(self.children(p)[i])
                && self.parent(self.children(p)[i]) == Some(p)
        &&& forall|p: NodeRepr|
            #![trigger self.children(p)]
            self.has(p) ==> self.children(p).no_duplicates()
    }

    /// The template contents of `n`: the node under which an element
    /// keeps what is not part of the tree, if it has any.
    pub open spec fn template_contents(self, n: NodeRepr) -> Option<NodeRepr> {
        self.node(n).template_contents
    }

    /// Only elements have template contents, and those are nodes of the
    /// arena.
    pub open spec fn slots_ok(self) -> bool {
        forall|n: NodeRepr|
            #![trigger self.template_contents(n)]
            self.has(n) && self.template_contents(n) is Some ==> self.has(
                self.template_contents(n)->0,
            ) && self.kind(n) is Element
    }

    /// Documents and fragments are never children; only containers have children.
    pub open spec fn kinds_ok(self) -> bool {
        &&& forall|n: NodeRepr|
            #![trigger self.parent(n)]
            self.has(n) && self.parent(n) is Some ==> self.kind(n).may_be_child()
        &&& forall|n: NodeRepr|
            #![trigger self.children(n)]
            self.has(n) && self.children(n).len() > 0 ==> self.kind(n).is_container()
    }

    /// Whether `r` ranks this arena: it gives every node a depth below its
    /// cap, and every child a greater depth than its parent.
    pub open spec fn ranked_by(self, r: Ranking) -> bool {
        &&& r.depth.len() == self.nodes.len()
        &&& forall|n: NodeRepr| self.has(n) ==> #[trigger] r.of(n) < r.cap
        &&& forall|n: NodeRepr|
            #![trigger self.parent(n)]
            self.has(n) && self.parent(n) is Some ==> self.has(self.parent(n)->0) && r.of(
                self.parent(n)->0,
            ) < r.of(n)
    }

    /// Some ranking of this arena, if there is one.
    pub open spec fn ranking(self) -> Ranking {
        choose|r: Ranking| self.ranked_by(r)
    }

    /// The arena is well formed: links agree, kinds are admissible and no
    /// node is its own ancestor.
    pub open spec fn wf(self) -> bool {
        &&& self.nodes.len() <= usize::MAX
        &&& self.links_ok()
        &&& self.kinds_ok()
        &&& self.slots_ok()
        &&& exists|r: Ranking| self.ranked_by(r)
    }

    /// A measure that falls on every step from a node to its parent.
    pub open spec fn up(self, n: NodeRepr) -> nat {
        self.ranking().of(n)
    }

    /// A measure that falls on every step from a node to one of its children.
    pub open spec fn down(self, n: NodeRepr) -> nat {
        (self.ranking().cap - self.ranking().of(n)) as nat
    }

    /// `a` is `n` or one of its ancestors.
    pub open spec fn is_ancestor_or_self(self, a: NodeRepr, n: NodeRepr) -> bool
        decreases self.up(n),
        when self.wf() && self.has(n)
    {
        a == n || (self.parent(n) is Some && self.is_ancestor_or_self(a, self.parent(n)->0))
    }

    /// The topmost ancestor of `n`, which is `n` itself when it has no parent.
    pub open spec fn root_of(self, n: NodeRepr) -> NodeRepr
        decreases self.up(n),
        when self.wf() && self.has(n)
    {
        if self.parent(n) is Some {
            self.root_of(self.parent(n)->0)
        } else {
            n
        }
    }

    /// The position of `c` among the children of `p`.
    pub open spec fn position(self, p: NodeRepr, c: NodeRepr) -> int {
        self.children(p).index_of(c)
    }
}

/// Removing one entry from a list without repetitions.
pub proof fn lemma_remove_entry(s: Seq<NodeRepr>, k: int)
    requires
        s.no_duplicates(),
        0 <= k < s.len(),
    ensures
        s.remove(k).no_duplicates(),
        s.remove(k).len() == s.len() - 1,
        !s.remove(k).contains(s[k]),
        forall|x: NodeRepr| x != s[k] ==> (s.remove(k).contains(x) <==> s.contains(x)),
        forall|i: int| 0 <= i < s.len() - 1 ==> s.contains(#[trigger] s.remove(k)[i]),
{
    let t = s.remove(k);
    s.remove_ensures(k);
    assert forall|x: NodeRepr| x != s[k] && s.contains(x) implies t.contains(x) by {
        let i = choose|i: int| 0 <= i < s.len() && s[i] == x;
        if i < k {
            assert(t[i] == x);
        } else {
            assert(t[i - 1] == x);
        }
    }
    assert forall|i: int| 0 <= i < s.len() - 1 implies s.contains(#[trigger] t[i]) by {
        if i < k {
            assert(s[i] == t[i]);
        } else {
            assert(s[i + 1] == t[i]);
        }
    }
}

/// Adding a new entry to a list without repetitions.
pub proof fn lemma_insert_entry(s: Seq<NodeRepr>, k: int, x: NodeRepr)
    requires
        s.no_duplicates(),
        !s.contains(x),
        0 <= k <= s.len(),
    ensures
        s.insert(k, x).no_duplicates(),
        s.insert(k, x).len() == s.len() + 1,
        s.insert(k, x)[k] == x,
        s.insert(k, x).index_of(x) == k,
        s.insert(k, x).remove(k) == s,
        forall|y: NodeRepr| s.insert(k, x).contains(y) <==> (y == x || s.contains(y)),
{
    let t = s.insert(k, x);
    s.insert_ensures(k, x);
    assert forall|i: int, j: int| 0 <= i < t.len() && 0 <= j < t.len() && i != j implies t[i]
        != t[j] by {
        let a = if i < k { i } else { i - 1 };
        let b = if j < k { j } else { j - 1 };
        if i != k {
            assert(t[i] == s[a]);
        }
        if j != k {
            assert(t[j] == s[b]);
        }
    }
    assert(t.contains(x));
    assert(t.remove(k) =~= s);
    assert forall|y: NodeRepr| t.contains(y) <==> (y == x || s.contains(y)) by {
        if s.contains(y) {
            let i = choose|i: int| 0 <= i < s.len() && s[i] == y;
            if i < k {
                assert(t[i] == y);
            } else {
                assert(t[i + 1] == y);
            }
        }
        if t.contains(y) && y != x {
            let i = choose|i: int| 0 <= i < t.len() && t[i] == y;
            if i < k {
                assert(s[i] == y);
            } else {
                assert(s[i - 1] == y);
            }
        }
    }
}

impl DomView {
    /// The arena with one slot replaced.
    pub open spec fn with_node(self, n: NodeRepr, nv: NodeView) -> DomView {
        DomView { nodes: self.nodes.update(n.0 as int, nv) }
    }

    /// The arena after `c` has left its parent, if it had one.
    pub open spec fn detach(self, c: NodeRepr) -> DomView {
        if self.parent(c) is Some {
            let p = self.parent(c)->0;
            let v1 = self.with_node(
                p,
                NodeView { children: self.children(p).remove(self.position(p, c)), ..self.node(p) },
            );
            v1.with_node(c, NodeView { parent: None, ..v1.node(c) })
        } else {
            self
        }
    }

    /// The arena after the parentless node `c` has become the child of `p`
    /// at position `i`.
    pub open spec fn insert(self, p: NodeRepr, i: int, c: NodeRepr) -> DomView {
        let v1 = self.with_node(
            p,
            NodeView { children: self.children(p).insert(i, c), ..self.node(p) },
        );
        v1.with_node(c, NodeView { parent: Some(p), ..v1.node(c) })
    }

    /// Both arenas hold the same nodes with the same payloads and the
    /// same template contents.
    pub open spec fn same_payloads(self, other: DomView) -> bool {
        &&& self.nodes.len() == other.nodes.len()
        &&& forall|n: NodeRepr|
            self.has(n) ==> #[trigger] self.data(n) == other.data(n) && self.template_contents(n)
                == other.template_contents(n)
    }

    /// The ranking that the chosen one becomes when the subtree under `c`
    /// moves below `p`.
    pub open spec fn ranking_after_insert(self, p: NodeRepr, c: NodeRepr) -> Ranking {
        let r = self.ranking();
        Ranking {
            depth: Seq::new(
                self.nodes.len(),
                |i: int|
                    if self.is_ancestor_or_self(c, NodeRepr(i as usize)) {
                        r.depth[i] + r.of(p) + 1
                    } else {
                        r.depth[i]
                    },
            ),
            cap: r.cap + r.of(p) + 1,
        }
    }

    /// A node is never its own parent, and a well-formed arena is ranked by
    /// its chosen ranking.
    pub proof fn lemma_ranked(self)
        requires
            self.wf(),
        ensures
            self.ranked_by(self.ranking()),
            forall|n: NodeRepr| self.has(n) ==> #[trigger] self.parent(n) != Some(n),
    {
    }

    /// Detaching keeps the arena well formed and leaves `c` without a parent.
    pub proof fn lemma_detach(self, c: NodeRepr)
        requires
            self.wf(),
            self.has(c),
        ensures
            self.detach(c).wf(),
            self.detach(c).same_payloads(self),
            self.detach(c).parent(c) is None,
            self.detach(c).children(c) == self.children(c),
            forall|n: NodeRepr| self.has(n) && n != c ==> #[trigger] self.detach(c).parent(n) == self.parent(n),
            forall|n: NodeRepr|
                self.has(n) && self.parent(c) != Some(n) ==> #[trigger] self.detach(c).children(n)
                    == self.children(n),
            self.parent(c) is Some ==> self.detach(c).children(self.parent(c)->0)
                == self.children(self.parent(c)->0).remove(self.position(self.parent(c)->0, c)),
    {
        self.lemma_ranked();
        if self.parent(c) is Some {
            let p = self.parent(c)->0;
            let v = self.detach(c);
            let s = self.children(p);
            let k = self.position(p, c);
            assert(s.contains(c));
            assert(0 <= k < s.len() && s[k] == c);
            lemma_remove_entry(s, k);
            assert(p != c);
            assert(v.nodes.len() == self.nodes.len());
            assert forall|n: NodeRepr| self.has(n) implies #[trigger] v.node(n) == (if n == c {
                NodeView { parent: None, ..self.node(c) }
            } else if n == p {
                NodeView { children: s.remove(k), ..self.node(p) }
            } else {
                self.node(n)
            }) by {}
            assert(v.ranked_by(self.ranking())) by {
                assert forall|n: NodeRepr|
                    #![trigger v.parent(n)]
                    v.has(n) && v.parent(n) is Some implies v.has(v.parent(n)->0)
                    && self.ranking().of(v.parent(n)->0) < self.ranking().of(n) by {
                    assert(v.node(n).parent == self.parent(n));
                }
            }
            assert(v.links_ok()) by {
                assert forall|n: NodeRepr|
                    #![trigger v.parent(n)]
                    v.has(n) && v.parent(n) is Some implies v.has(v.parent(n)->0) && v.children(
                    v.parent(n)->0,
                ).contains(n) by {
                    let q = v.parent(n)->0;
                    assert(self.parent(n) == Some(q));
                    assert(self.children(q).contains(n));
                }
                assert forall|q: NodeRepr, i: int|
                    #![trigger v.children(q)[i]]
                    v.has(q) && 0 <= i < v.children(q).len() implies v.has(v.children(q)[i])
                    && v.parent(v.children(q)[i]) == Some(q) by {
                    let x = v.children(q)[i];
                    if q == p {
                        assert(s.contains(x));
                        let j = choose|j: int| 0 <= j < s.len() && s[j] == x;
                        assert(self.children(p)[j] == x);
                        assert(self.parent(x) == Some(p));
                    } else {
                        assert(self.children(q)[i] == x);
                        assert(self.parent(x) == Some(q));
                    }
                }
                assert forall|q: NodeRepr| #![trigger v.children(q)] v.has(q) implies v.children(
                    q,
                ).no_duplicates() by {
                    assert(self.children(q).no_duplicates());
                }
            }
            assert(v.kinds_ok()) by {
                assert forall|n: NodeRepr|
                    #![trigger v.parent(n)]
                    v.has(n) && v.parent(n) is Some implies v.kind(n).may_be_child() by {
                    assert(self.parent(n) is Some);
                }
                assert forall|n: NodeRepr|
                    #![trigger v.children(n)]
                    v.has(n) && v.children(n).len() > 0 implies v.kind(n).is_container() by {
                    assert(self.children(n).len() > 0);
                }
            }
            assert(v.slots_ok()) by {
                assert forall|n: NodeRepr|
                    #![trigger v.template_contents(n)]
                    v.has(n) && v.template_contents(n) is Some implies v.has(
                    v.template_contents(n)->0,
                ) && v.kind(n) is Element by {
                    assert(self.has(n));
                    assert(self.template_contents(n) == v.template_contents(n));
                    assert(self.kind(n) == v.kind(n));
                }
            }
        }
    }
}

impl DomView {
    /// Detaching `c` does not change which nodes lie below `c`.
    pub proof fn lemma_detach_keeps_subtree(self, c: NodeRepr, n: NodeRepr)
        requires
            self.wf(),
            self.has(c),
            self.has(n),
        ensures
            self.detach(c).is_ancestor_or_self(c, n) == self.is_ancestor_or_self(c, n),
        decreases self.up(n),
    {
        self.lemma_ranked();
        self.lemma_detach(c);
        if n != c && self.parent(n) is Some {
            self.lemma_detach_keeps_subtree(c, self.parent(n)->0);
        }
    }

    /// Inserting a parentless node that is not above `p` keeps the arena
    /// well formed.
    pub proof fn lemma_insert(self, p: NodeRepr, i: int, c: NodeRepr)
        requires
            self.wf(),
            self.has(p),
            self.has(c),
            self.parent(c) is None,
            !self.is_ancestor_or_self(c, p),
            self.kind(p).is_container(),
            self.kind(c).may_be_child(),
            0 <= i <= self.children(p).len(),
        ensures
            self.insert(p, i, c).wf(),
            self.insert(p, i, c).same_payloads(self),
            self.insert(p, i, c).parent(c) == Some(p),
            self.insert(p, i, c).children(p) == self.children(p).insert(i, c),
            self.insert(p, i, c).position(p, c) == i,
            !self.children(p).contains(c),
            forall|n: NodeRepr| self.has(n) && n != c ==> #[trigger] self.insert(p, i, c).parent(n) == self.parent(n),
            forall|n: NodeRepr|
                self.has(n) && n != p ==> #[trigger] self.insert(p, i, c).children(n) == self.children(n),
    {
        self.lemma_ranked();
        let v = self.insert(p, i, c);
        let s = self.children(p);
        let r = self.ranking();
        assert(p != c);
        assert(!s.contains(c)) by {
            if s.contains(c) {
                let j = choose|j: int| 0 <= j < s.len() && s[j] == c;
                assert(self.children(p)[j] == c);
                assert(self.parent(c) == Some(p));
            }
        }
        lemma_insert_entry(s, i, c);
        assert(v.nodes.len() == self.nodes.len());
        assert forall|n: NodeRepr| self.has(n) implies #[trigger] v.node(n) == (if n == c {
            NodeView { parent: Some(p), ..self.node(c) }
        } else if n == p {
            NodeView { children: s.insert(i, c), ..self.node(p) }
        } else {
            self.node(n)
        }) by {}
        let r2 = self.ranking_after_insert(p, c);
        assert(v.ranked_by(r2)) by {
            assert forall|n: NodeRepr| v.has(n) implies #[trigger] r2.of(n) < r2.cap by {
                assert(r.of(n) < r.cap);
                assert(NodeRepr(n.0 as int as usize) == n);
            }
            assert forall|n: NodeRepr|
                #![trigger v.parent(n)]
                v.has(n) && v.parent(n) is Some implies v.has(v.parent(n)->0) && r2.of(
                v.parent(n)->0,
            ) < r2.of(n) by {
                let q = v.parent(n)->0;
                assert(NodeRepr(n.0 as int as usize) == n);
                assert(NodeRepr(q.0 as int as usize) == q);
                if n == c {
                    assert(q == p);
                    assert(self.is_ancestor_or_self(c, c));
                } else {
                    assert(self.parent(n) == Some(q));
                    assert(r.of(q) < r.of(n));
                    assert(self.is_ancestor_or_self(c, n) == self.is_ancestor_or_self(c, q));
                }
            }
        }
        assert(v.links_ok()) by {
            assert forall|n: NodeRepr|
                #![trigger v.parent(n)]
                v.has(n) && v.parent(n) is Some implies v.has(v.parent(n)->0) && v.children(
                v.parent(n)->0,
            ).contains(n) by {
                let q = v.parent(n)->0;
                if n != c {
                    assert(self.parent(n) == Some(q));
                    assert(self.children(q).contains(n));
                }
            }
            assert forall|q: NodeRepr, j: int|
                #![trigger v.children(q)[j]]
                v.has(q) && 0 <= j < v.children(q).len() implies v.has(v.children(q)[j])
                && v.parent(v.children(q)[j]) == Some(q) by {
                let x = v.children(q)[j];
                if q == p {
                    if x != c {
                        assert(s.insert(i, c).contains(x));
                        assert(s.contains(x));
                        let k = choose|k: int| 0 <= k < s.len() && s[k] == x;
                        assert(self.children(p)[k] == x);
                        assert(self.parent(x) == Some(p));
                    }
                } else {
                    assert(self.children(q)[j] == x);
                    assert(self.parent(x) == Some(q));
                }
            }
            assert forall|q: NodeRepr| #![trigger v.children(q)] v.has(q) implies v.children(
                q,
            ).no_duplicates() by {
                assert(self.children(q).no_duplicates());
            }
        }
        assert(v.kinds_ok()) by {
            assert forall|n: NodeRepr|
                #![trigger v.parent(n)]
                v.has(n) && v.parent(n) is Some implies v.kind(n).may_be_child() by {
                if n != c {
                    assert(self.parent(n) is Some);
                }
            }
            assert forall|n: NodeRepr|
                #![trigger v.children(n)]
                v.has(n) && v.children(n).len() > 0 implies v.kind(n).is_container() by {
                if n != p {
                    assert(self.children(n).len() > 0);
                }
            }
        }
        assert(v.slots_ok()) by {
            assert forall|n: NodeRepr|
                #![trigger v.template_contents(n)]
                v.has(n) && v.template_contents(n) is Some implies v.has(
                v.template_contents(n)->0,
            ) && v.kind(n) is Element by {
                assert(self.has(n));
                assert(self.template_contents(n) == v.template_contents(n));
                assert(self.kind(n) == v.kind(n));
            }
        }
    }
}

impl DomView {
    /// The arena with one more node, which has neither parent nor children
    /// nor template contents.
    pub open spec fn create(self, data: NodeDataView) -> DomView {
        DomView {
            nodes: self.nodes.push(
                NodeView { parent: None, children: Seq::empty(), data, template_contents: None },
            ),
        }
    }

    /// The arena with the payload of `n` replaced.
    pub open spec fn with_data(self, n: NodeRepr, data: NodeDataView) -> DomView {
        self.with_node(n, NodeView { data, ..self.node(n) })
    }

    /// A fresh node keeps the arena well formed.
    pub proof fn lemma_create(self, data: NodeDataView)
        requires
            self.wf(),
            self.nodes.len() < usize::MAX,
        ensures
            self.create(data).wf(),
            forall|n: NodeRepr| self.has(n) ==> #[trigger] self.create(data).node(n) == self.node(n),
    {
        self.lemma_ranked();
        let v = self.create(data);
        let r = self.ranking();
        let r2 = Ranking { depth: r.depth.push(0), cap: r.cap + 1 };
        let fresh = NodeRepr(self.nodes.len() as usize);
        assert forall|n: NodeRepr| self.has(n) implies #[trigger] v.node(n) == self.node(n) by {}
        assert(v.ranked_by(r2)) by {
            assert forall|n: NodeRepr| v.has(n) implies #[trigger] r2.of(n) < r2.cap by {
                if self.has(n) {
                    assert(r.of(n) < r.cap);
                }
            }
            assert forall|n: NodeRepr|
                #![trigger v.parent(n)]
                v.has(n) && v.parent(n) is Some implies v.has(v.parent(n)->0) && r2.of(
                v.parent(n)->0,
            ) < r2.of(n) by {
                assert(self.has(n));
                assert(self.parent(n) == v.parent(n));
            }
        }
        assert(v.links_ok()) by {
            assert forall|n: NodeRepr|
                #![trigger v.parent(n)]
                v.has(n) && v.parent(n) is Some implies v.has(v.parent(n)->0) && v.children(
                v.parent(n)->0,
            ).contains(n) by {
                assert(self.has(n));
                assert(self.parent(n) == v.parent(n));
                assert(v.node(self.parent(n)->0) == self.node(self.parent(n)->0));
            }
            assert forall|q: NodeRepr, j: int|
                #![trigger v.children(q)[j]]
                v.has(q) && 0 <= j < v.children(q).len() implies v.has(v.children(q)[j])
                && v.parent(v.children(q)[j]) == Some(q) by {
                assert(self.has(q));
                assert(self.children(q)[j] == v.children(q)[j]);
                assert(v.node(self.children(q)[j]) == self.node(self.children(q)[j]));
            }
            assert forall|q: NodeRepr| #![trigger v.children(q)] v.has(q) implies v.children(
                q,
            ).no_duplicates() by {
                if self.has(q) {
                    assert(self.children(q).no_duplicates());
                }
            }
        }
        assert(v.kinds_ok()) by {
            assert forall|n: NodeRepr|
                #![trigger v.parent(n)]
                v.has(n) && v.parent(n) is Some implies v.kind(n).may_be_child() by {
                assert(self.has(n));
                assert(self.parent(n) is Some);
            }
            assert forall|n: NodeRepr|
                #![trigger v.children(n)]
                v.has(n) && v.children(n).len() > 0 implies v.kind(n).is_container() by {
                assert(self.has(n));
                assert(self.children(n).len() > 0);
            }
        }
        assert(v.slots_ok()) by {
            assert forall|n: NodeRepr|
                #![trigger v.template_contents(n)]
                v.has(n) && v.template_contents(n) is Some implies v.has(
                v.template_contents(n)->0,
            ) && v.kind(n) is Element by {
                assert(n != fresh);
                assert(self.has(n));
                assert(v.node(n) == self.node(n));
                assert(self.template_contents(n) == v.template_contents(n));
            }
        }
    }

    /// Replacing a payload by one of the same kind keeps the arena well formed.
    pub proof fn lemma_with_data(self, n: NodeRepr, data: NodeDataView)
        requires
            self.wf(),
            self.has(n),
            data.kind() == self.kind(n),
        ensures
            self.with_data(n, data).wf(),
    {
        self.lemma_ranked();
        let v = self.with_data(n, data);
        assert forall|m: NodeRepr| self.has(m) implies #[trigger] v.node(m) == (if m == n {
            NodeView { data, ..self.node(n) }
        } else {
            self.node(m)
        }) by {}
        assert(v.ranked_by(self.ranking())) by {
            assert forall|m: NodeRepr|
                #![trigger v.parent(m)]
                v.has(m) && v.parent(m) is Some implies v.has(v.parent(m)->0)
                && self.ranking().of(v.parent(m)->0) < self.ranking().of(m) by {
                assert(self.parent(m) == v.parent(m));
            }
        }
        assert(v.links_ok()) by {
            assert forall|m: NodeRepr|
                #![trigger v.parent(m)]
                v.has(m) && v.parent(m) is Some implies v.has(v.parent(m)->0) && v.children(
                v.parent(m)->0,
            ).contains(m) by {
                assert(self.parent(m) == v.parent(m));
                assert(v.children(self.parent(m)->0) == self.children(self.parent(m)->0));
            }
            assert forall|q: NodeRepr, j: int|
                #![trigger v.children(q)[j]]
                v.has(q) && 0 <= j < v.children(q).len() implies v.has(v.children(q)[j])
                && v.parent(v.children(q)[j]) == Some(q) by {
                assert(self.children(q)[j] == v.children(q)[j]);
                assert(v.parent(self.children(q)[j]) == self.parent(self.children(q)[j]));
            }
            assert forall|q: NodeRepr| #![trigger v.children(q)] v.has(q) implies v.children(
                q,
            ).no_duplicates() by {
                assert(self.children(q).no_duplicates());
            }
        }
        assert(v.kinds_ok()) by {
            assert forall|m: NodeRepr|
                #![trigger v.parent(m)]
                v.has(m) && v.parent(m) is Some implies v.kind(m).may_be_child() by {
                assert(self.parent(m) is Some);
            }
            assert forall|m: NodeRepr|
                #![trigger v.children(m)]
                v.has(m) && v.children(m).len() > 0 implies v.kind(m).is_container() by {
                assert(self.children(m).len() > 0);
            }
        }
        assert(v.slots_ok()) by {
            assert forall|m: NodeRepr|
                #![trigger v.template_contents(m)]
                v.has(m) && v.template_contents(m) is Some implies v.has(
                v.template_contents(m)->0,
            ) && v.kind(m) is Element by {
                assert(self.has(m));
                assert(self.template_contents(m) == v.template_contents(m));
                assert(self.kind(m) == v.kind(m));
            }
        }
    }

    /// The arena with the template contents of `n` replaced.
    pub open spec fn with_template_contents(self, n: NodeRepr, t: Option<NodeRepr>) -> DomView {
        self.with_node(n, NodeView { template_contents: t, ..self.node(n) })
    }

    /// Giving an element template contents that are a node of the arena,
    /// or taking them away, keeps the arena well formed.
    pub proof fn lemma_with_template_contents(self, n: NodeRepr, t: Option<NodeRepr>)
        requires
            self.wf(),
            self.has(n),
            t is Some ==> self.has(t->0) && self.kind(n) is Element,
        ensures
            self.with_template_contents(n, t).wf(),
    {
        self.lemma_ranked();
        let v = self.with_template_contents(n, t);
        assert forall|m: NodeRepr| self.has(m) implies #[trigger] v.node(m) == (if m == n {
            NodeView { template_contents: t, ..self.node(n) }
        } else {
            self.node(m)
        }) by {}
        assert(v.ranked_by(self.ranking())) by {
            assert forall|m: NodeRepr|
                #![trigger v.parent(m)]
                v.has(m) && v.parent(m) is Some implies v.has(v.parent(m)->0)
                && self.ranking().of(v.parent(m)->0) < self.ranking().of(m) by {
                assert(self.parent(m) == v.parent(m));
            }
        }
        assert(v.links_ok()) by {
            assert forall|m: NodeRepr|
                #![trigger v.parent(m)]
                v.has(m) && v.parent(m) is Some implies v.has(v.parent(m)->0) && v.children(
                v.parent(m)->0,
            ).contains(m) by {
                assert(self.parent(m) == v.parent(m));
                assert(v.children(self.parent(m)->0) == self.children(self.parent(m)->0));
            }
            assert forall|q: NodeRepr, j: int|
                #![trigger v.children(q)[j]]
                v.has(q) && 0 <= j < v.children(q).len() implies v.has(v.children(q)[j])
                && v.parent(v.children(q)[j]) == Some(q) by {
                assert(self.children(q)[j] == v.children(q)[j]);
                assert(v.parent(self.children(q)[j]) == self.parent(self.children(q)[j]));
            }
            assert forall|q: NodeRepr| #![trigger v.children(q)] v.has(q) implies v.children(
                q,
            ).no_duplicates() by {
                assert(self.children(q).no_duplicates());
            }
        }
        assert(v.kinds_ok()) by {
            assert forall|m: NodeRepr|
                #![trigger v.parent(m)]
                v.has(m) && v.parent(m) is Some implies v.kind(m).may_be_child() by {
                assert(self.parent(m) is Some);
                assert(self.kind(m) == v.kind(m));
            }
            assert forall|m: NodeRepr|
                #![trigger v.children(m)]
                v.has(m) && v.children(m).len() > 0 implies v.kind(m).is_container() by {
                assert(self.children(m).len() > 0);
                assert(self.kind(m) == v.kind(m));
            }
        }
        assert(v.slots_ok()) by {
            assert forall|m: NodeRepr|
                #![trigger v.template_contents(m)]
                v.has(m) && v.template_contents(m) is Some implies v.has(
                v.template_contents(m)->0,
            ) && v.kind(m) is Element by {
                assert(self.has(m));
                assert(self.kind(m) == v.kind(m));
                if m != n {
                    assert(self.template_contents(m) == v.template_contents(m));
                }
            }
        }
    }
}

impl DomView {
    /// Ancestry is transitive.
    pub proof fn lemma_ancestor_trans(self, a: NodeRepr, b: NodeRepr, n: NodeRepr)
        requires
            self.wf(),
            self.has(b),
            self.has(n),
            self.is_ancestor_or_self(a, b),
            self.is_ancestor_or_self(b, n),
        ensures
            self.is_ancestor_or_self(a, n),
        decreases self.up(n),
    {
        self.lemma_ranked();
        if n != b {
            self.lemma_ancestor_trans(a, b, self.parent(n)->0);
        }
    }

    /// The parent of a node is one of its ancestors.
    pub proof fn lemma_parent_is_ancestor(self, n: NodeRepr)
        requires
            self.wf(),
            self.has(n),
            self.parent(n) is Some,
        ensures
            self.is_ancestor_or_self(self.parent(n)->0, n),
            self.has(self.parent(n)->0),
            self.parent(n)->0 != n,
    {
        self.lemma_ranked();
        assert(self.is_ancestor_or_self(self.parent(n)->0, self.parent(n)->0));
    }

    /// Two arenas whose nodes above `n` have the same parents agree on the
    /// ancestors of `n`.
    pub proof fn lemma_same_chain(self, other: DomView, a: NodeRepr, n: NodeRepr)
        requires
            self.wf(),
            other.wf(),
            self.has(n),
            other.has(n),
            forall|m: NodeRepr|
                self.has(m) && #[trigger] self.is_ancestor_or_self(m, n) ==> other.has(m)
                    && other.parent(m) == self.parent(m),
        ensures
            other.is_ancestor_or_self(a, n) == self.is_ancestor_or_self(a, n),
            other.root_of(n) == self.root_of(n),
        decreases self.up(n),
    {
        self.lemma_ranked();
        assert(self.is_ancestor_or_self(n, n));
        if self.parent(n) is Some {
            let q = self.parent(n)->0;
            assert forall|m: NodeRepr|
                self.has(m) && #[trigger] self.is_ancestor_or_self(m, q) implies other.has(m)
                && other.parent(m) == self.parent(m) by {
                self.lemma_parent_is_ancestor(n);
                self.lemma_ancestor_trans(m, q, n);
            }
            self.lemma_same_chain(other, a, q);
        }
    }

    /// Detaching `c` changes no ancestry of a node that is not below `c`.
    pub proof fn lemma_detach_keeps_chain(self, c: NodeRepr, a: NodeRepr, n: NodeRepr)
        requires
            self.wf(),
            self.has(c),
            self.has(n),
            !self.is_ancestor_or_self(c, n),
        ensures
            self.detach(c).is_ancestor_or_self(a, n) == self.is_ancestor_or_self(a, n),
            self.detach(c).root_of(n) == self.root_of(n),
    {
        self.lemma_detach(c);
        let other = self.detach(c);
        assert forall|m: NodeRepr|
            self.has(m) && #[trigger] self.is_ancestor_or_self(m, n) implies other.has(m)
            && other.parent(m) == self.parent(m) by {
            assert(m != c);
        }
        self.lemma_same_chain(other, a, n);
    }

    /// Inserting `c` changes no ancestry of a node that is not below `c`.
    pub proof fn lemma_insert_keeps_chain(self, p: NodeRepr, i: int, c: NodeRepr, a: NodeRepr, n: NodeRepr)
        requires
            self.wf(),
            self.has(p),
            self.has(c),
            self.parent(c) is None,
            !self.is_ancestor_or_self(c, p),
            self.kind(p).is_container(),
            self.kind(c).may_be_child(),
            0 <= i <= self.children(p).len(),
            self.has(n),
            !self.is_ancestor_or_self(c, n),
        ensures
            self.insert(p, i, c).is_ancestor_or_self(a, n) == self.is_ancestor_or_self(a, n),
            self.insert(p, i, c).root_of(n) == self.root_of(n),
    {
        self.lemma_insert(p, i, c);
        let other = self.insert(p, i, c);
        assert forall|m: NodeRepr|
            self.has(m) && #[trigger] self.is_ancestor_or_self(m, n) implies other.has(m)
            && other.parent(m) == self.parent(m) by {
            assert(m != c);
        }
        self.lemma_same_chain(other, a, n);
    }
}

impl DomView {
    /// Whether `c` may become a child of `p`: `p` can hold children, `c` is
    /// no document, and `c` is neither `p` nor above it.
    pub open spec fn can_place(self, p: NodeRepr, c: NodeRepr) -> bool {
        &&& self.kind(p).is_container()
        &&& !(self.kind(c) is Document)
        &&& !self.is_ancestor_or_self(c, p)
    }

    /// The slot of `n` after the first `j` children of `f` have moved, in
    /// order, into the children of `p` from position `i` on.
    pub open spec fn splice_node(self, p: NodeRepr, i: int, f: NodeRepr, j: int, n: NodeRepr) -> NodeView {
        let moved = self.children(f);
        let kept = self.children(p);
        if n == p {
            NodeView {
                children: kept.subrange(0, i) + moved.subrange(0, j) + kept.subrange(
                    i,
                    kept.len() as int,
                ),
                ..self.node(n)
            }
        } else if n == f {
            NodeView { children: moved.subrange(j, moved.len() as int), ..self.node(n) }
        } else if moved.subrange(0, j).contains(n) {
            NodeView { parent: Some(p), ..self.node(n) }
        } else {
            self.node(n)
        }
    }

    /// The arena after the first `j` children of `f` have moved, in order,
    /// into the children of `p` from position `i` on.
    pub open spec fn splice_upto(self, p: NodeRepr, i: int, f: NodeRepr, j: int) -> DomView {
        DomView {
            nodes: Seq::new(
                self.nodes.len(),
                |k: int| self.splice_node(p, i, f, j, NodeRepr(k as usize)),
            ),
        }
    }

    /// The arena after all children of `f` have moved, in order, into the
    /// children of `p` from position `i` on. `f` is left without children.
    pub open spec fn splice(self, p: NodeRepr, i: int, f: NodeRepr) -> DomView {
        self.splice_upto(p, i, f, self.children(f).len() as int)
    }

    /// The arena after `c` has been put among the children of `p`: a
    /// fragment hands over its children, any other node leaves its parent
    /// and goes itself. `i` is the position in the children of `p` as they
    /// are once `c` has left.
    pub open spec fn place(self, p: NodeRepr, i: int, c: NodeRepr) -> DomView {
        if self.kind(c) is DocumentFragment {
            self.splice(p, i, c)
        } else {
            self.detach(c).insert(p, i, c)
        }
    }

    /// The slots of the arena after the first `j` children of `f` have moved.
    pub proof fn lemma_splice_nodes(self, p: NodeRepr, i: int, f: NodeRepr, j: int)
        requires
            self.nodes.len() <= usize::MAX,
        ensures
            self.splice_upto(p, i, f, j).nodes.len() == self.nodes.len(),
            forall|n: NodeRepr|
                self.has(n) ==> #[trigger] self.splice_upto(p, i, f, j).node(n) == self.splice_node(
                    p,
                    i,
                    f,
                    j,
                    n,
                ),
    {
        assert forall|n: NodeRepr| self.has(n) implies #[trigger] self.splice_upto(p, i, f, j).node(
            n,
        ) == self.splice_node(p, i, f, j, n) by {
            assert(NodeRepr(n.0 as int as usize) == n);
        }
    }

    /// Before anything has moved, the arena is as it was.
    pub proof fn lemma_splice_zero(self, p: NodeRepr, i: int, f: NodeRepr)
        requires
            self.nodes.len() <= usize::MAX,
            self.has(p),
            self.has(f),
            p != f,
            0 <= i <= self.children(p).len(),
        ensures
            self.splice_upto(p, i, f, 0) == self,
    {
        let moved = self.children(f);
        let kept = self.children(p);
        self.lemma_splice_nodes(p, i, f, 0);
        assert(kept.subrange(0, i) + moved.subrange(0, 0) + kept.subrange(i, kept.len() as int)
            =~= kept);
        assert(moved.subrange(0, moved.len() as int) =~= moved);
        assert(moved.subrange(0, 0) =~= Seq::<NodeRepr>::empty());
        assert forall|k: int| 0 <= k < self.nodes.len() implies self.splice_upto(p, i, f, 0).nodes[k]
            == self.nodes[k] by {
            let n = NodeRepr(k as usize);
            assert(self.has(n));
            assert(self.node(n) == self.nodes[k]);
            assert(self.splice_node(p, i, f, 0, n) == self.node(n));
        }
        assert(self.splice_upto(p, i, f, 0).nodes =~= self.nodes);
    }

    /// Moving the next child of `f` leads from one state of the splice to
    /// the next.
    pub proof fn lemma_splice_step(self, p: NodeRepr, i: int, f: NodeRepr, j: int)
        requires
            self.wf(),
            self.has(p),
            self.has(f),
            p != f,
            0 <= i <= self.children(p).len(),
            0 <= j < self.children(f).len(),
            self.splice_upto(p, i, f, j).wf(),
        ensures
            ({
                let s = self.splice_upto(p, i, f, j);
                let c = self.children(f)[j];
                &&& c != p ==> s.parent(c) == Some(f)
                &&& c != p ==> s.children(f)[0] == c
                &&& s.children(f).len() > 0
                &&& s.children(p).len() == self.children(p).len() + j
                &&& c != p ==> s.detach(c).insert(p, i + j, c) == self.splice_upto(p, i, f, j + 1)
            }),
    {
        self.lemma_ranked();
        let moved = self.children(f);
        let kept = self.children(p);
        let s = self.splice_upto(p, i, f, j);
        let t = self.splice_upto(p, i, f, j + 1);
        let c = moved[j];
        let m0 = moved.subrange(0, j);
        let m1 = moved.subrange(0, j + 1);
        self.lemma_splice_nodes(p, i, f, j);
        self.lemma_splice_nodes(p, i, f, j + 1);
        assert(self.children(f)[j] == c);
        assert(self.parent(c) == Some(f));
        assert(c != f);
        assert(s.node(p) == self.splice_node(p, i, f, j, p));
        assert(s.node(f) == self.splice_node(p, i, f, j, f));
        assert(s.children(f) == moved.subrange(j, moved.len() as int));
        if c != p {
            assert(!m0.contains(c)) by {
                if m0.contains(c) {
                    let w = choose|w: int| 0 <= w < m0.len() && m0[w] == c;
                    assert(moved[w] == c);
                }
            }
            assert(s.node(c) == self.splice_node(p, i, f, j, c));
            assert(s.node(c) == self.node(c));
            assert(s.children(f)[0] == c);
            assert(s.position(f, c) == 0) by {
                assert(s.children(f).no_duplicates());
                assert(s.children(f).contains(c));
            }
            s.lemma_detach(c);
            let d = s.detach(c);
            let sp = kept.subrange(0, i) + m0 + kept.subrange(i, kept.len() as int);
            assert(s.children(p) == sp);
            assert(d.children(p) == sp);
            assert(sp.insert(i + j, c) =~= kept.subrange(0, i) + m1 + kept.subrange(
                i,
                kept.len() as int,
            ));
            assert(s.children(f).remove(0) =~= moved.subrange(j + 1, moved.len() as int));
            let u = d.insert(p, i + j, c);
            assert forall|n: NodeRepr| m1.contains(n) <==> (m0.contains(n) || n == c) by {
                if m0.contains(n) {
                    let w = choose|w: int| 0 <= w < m0.len() && m0[w] == n;
                    assert(m1[w] == n);
                }
                if n == c {
                    assert(m1[j] == n);
                }
                if m1.contains(n) {
                    let w = choose|w: int| 0 <= w < m1.len() && m1[w] == n;
                    if w < j {
                        assert(m0[w] == n);
                    }
                }
            }
            assert forall|k: int| 0 <= k < self.nodes.len() implies u.nodes[k] == t.nodes[k] by {
                let n = NodeRepr(k as usize);
                assert(self.has(n));
                assert(t.nodes[k] == self.splice_node(p, i, f, j + 1, n));
                assert(s.node(n) == self.splice_node(p, i, f, j, n));
                assert(u.nodes[k] == u.node(n));
                if n == c {
                    assert(u.node(n) == NodeView { parent: Some(p), ..self.node(n) });
                } else if n == p {
                    assert(u.node(n) == NodeView { children: sp.insert(i + j, c), ..s.node(n) });
                } else if n == f {
                    assert(d.node(n) == NodeView { children: s.children(f).remove(0), ..s.node(n) });
                    assert(u.node(n) == d.node(n));
                } else {
                    assert(d.node(n) == s.node(n));
                    assert(u.node(n) == s.node(n));
                }
            }
            assert(u.nodes =~= t.nodes);
        }
    }

    /// Moving the children of `f` one by one is the splice, and every
    /// state on the way is well formed.
    pub proof fn lemma_splice_upto(self, p: NodeRepr, i: int, f: NodeRepr, j: int)
        requires
            self.wf(),
            self.has(p),
            self.has(f),
            self.kind(p).is_container(),
            !self.is_ancestor_or_self(f, p),
            0 <= i <= self.children(p).len(),
            0 <= j <= self.children(f).len(),
        ensures
            self.splice_upto(p, i, f, j).wf(),
            self.splice_upto(p, i, f, j).same_payloads(self),
            !self.splice_upto(p, i, f, j).is_ancestor_or_self(f, p),
            self.splice_upto(p, i, f, 0) == self,
            j < self.children(f).len() ==> {
                let s = self.splice_upto(p, i, f, j);
                let c = self.children(f)[j];
                &&& s.has(c)
                &&& s.parent(c) == Some(f)
                &&& s.children(f).len() > 0
                &&& s.children(f)[0] == c
                &&& i + j <= s.children(p).len()
                &&& s.detach(c).wf()
                &&& s.detach(c).parent(c) is None
                &&& !s.detach(c).is_ancestor_or_self(c, p)
                &&& s.detach(c).kind(c).may_be_child()
                &&& s.detach(c).kind(p).is_container()
                &&& s.detach(c).insert(p, i + j, c) == self.splice_upto(p, i, f, j + 1)
            },
        decreases j,
    {
        self.lemma_ranked();
        let moved = self.children(f);
        assert(self.is_ancestor_or_self(p, p));
        assert(p != f);
        self.lemma_splice_zero(p, i, f);
        self.lemma_splice_nodes(p, i, f, j);
        if j > 0 {
            self.lemma_splice_upto(p, i, f, j - 1);
            let prior = self.splice_upto(p, i, f, j - 1);
            let moved_last = moved[j - 1];
            prior.lemma_detach(moved_last);
            prior.lemma_detach_keeps_subtree(moved_last, p);
            prior.detach(moved_last).lemma_insert(p, i + j - 1, moved_last);
            prior.lemma_detach_keeps_chain(moved_last, f, p);
            prior.detach(moved_last).lemma_insert_keeps_chain(p, i + j - 1, moved_last, f, p);
        }
        let s = self.splice_upto(p, i, f, j);
        assert(s.same_payloads(self)) by {
            assert forall|n: NodeRepr| s.has(n) implies #[trigger] s.data(n) == self.data(n) by {
                assert(s.node(n) == self.splice_node(p, i, f, j, n));
            }
        }
        if j < moved.len() {
            let c = moved[j];
            assert(self.children(f)[j] == c);
            assert(self.parent(c) == Some(f));
            assert(c != p) by {
                if c == p {
                    self.lemma_parent_is_ancestor(c);
                }
            }
            self.lemma_splice_step(p, i, f, j);
            s.lemma_detach(c);
            s.lemma_detach_keeps_subtree(c, p);
            assert(!s.is_ancestor_or_self(c, p)) by {
                if s.is_ancestor_or_self(c, p) {
                    s.lemma_parent_is_ancestor(c);
                    s.lemma_ancestor_trans(f, c, p);
                }
            }
            assert(s.detach(c).kind(c) == self.kind(c));
            assert(self.kind(c).may_be_child());
        }
    }
}

} // verus!
