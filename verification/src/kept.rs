//! What normalizing leaves alone: every node that is no text node stays
//! where it is, with its payload, and the children of a node that are no
//! text nodes stay the same nodes in the same order.

use vstd::prelude::*;
use crate::model::NodeRepr;
use crate::model::DomView;

verus! {

/// A list without an entry that fails a test holds what the whole list
/// holds of those that pass it.
pub proof fn lemma_filter_without(s: Seq<NodeRepr>, k: int, pred: spec_fn(NodeRepr) -> bool)
    requires
        0 <= k < s.len(),
        !pred(s[k]),
    ensures
        s.remove(k).filter(pred) == s.filter(pred),
{
    let a = s.take(k);
    let one = seq![s[k]];
    let b = s.skip(k + 1);
    assert(s =~= a + one + b);
    assert(s.remove(k) =~= a + b);
    Seq::filter_distributes_over_add(a, b, pred);
    Seq::filter_distributes_over_add(a + one, b, pred);
    Seq::filter_distributes_over_add(a, one, pred);
    assert(one.filter(pred) =~= Seq::<NodeRepr>::empty()) by {
        let none = Seq::<NodeRepr>::empty();
        reveal(Seq::filter);
        assert(none.filter(pred) =~= none);
        none.lemma_filter_push(s[k], pred);
        assert(one =~= none.push(s[k]));
    }
    assert(a.filter(pred) + one.filter(pred) =~= a.filter(pred));
}

impl DomView {
    /// The test "is no text node", as a value.
    pub open spec fn not_text_pred(self) -> spec_fn(NodeRepr) -> bool {
        |c: NodeRepr| !(self.kind(c) is Text)
    }

    /// The children of `p` that are no text nodes, in order.
    pub open spec fn children_but_texts(self, p: NodeRepr) -> Seq<NodeRepr> {
        self.children(p).filter(self.not_text_pred())
    }

    /// Whether `w` is this arena but for its text nodes: the same nodes
    /// of the same kinds; every node that is no text node with the
    /// parent and the payload that it has here; and below every node
    /// the same nodes that are no text nodes, in the same order.
    pub open spec fn same_but_texts(self, w: DomView) -> bool {
        &&& w.nodes.len() == self.nodes.len()
        &&& forall|x: NodeRepr| self.has(x) ==> #[trigger] w.kind(x) == self.kind(x)
        &&& forall|x: NodeRepr|
            self.has(x) && !(self.kind(x) is Text) ==> #[trigger] w.parent(x) == self.parent(x)
                && w.data(x) == self.data(x)
        &&& forall|p: NodeRepr|
            self.has(p) ==> #[trigger] w.children(p).filter(self.not_text_pred())
                == self.children_but_texts(p)
    }

    /// Seeing to one node changes nothing but text nodes.
    pub proof fn lemma_step_keeps(self, v: DomView, c: NodeRepr)
        requires
            v.wf(),
            v.has(c),
            self.same_but_texts(v),
        ensures
            v.normalize_step(c).wf(),
            self.same_but_texts(v.normalize_step(c)),
    {
        let pred = self.not_text_pred();
        let w = v.normalize_step(c);
        v.lemma_ranked();
        v.lemma_normalize_step(c);
        if w != v {
            assert(v.kind(c) is Text);
            let u = if v.text_data(c).len() == 0 {
                v
            } else {
                v.with_text(
                    v.previous_sibling(c)->0,
                    v.text_data(v.previous_sibling(c)->0) + v.text_data(c),
                )
            };
            assert(w == u.detach(c));
            if v.text_data(c).len() != 0 {
                let q = v.previous_sibling(c)->0;
                let joined = v.text_data(q) + v.text_data(c);
                v.lemma_previous_sibling(c);
                v.lemma_with_data(q, v.data(q).with_character_data(joined));
                assert forall|x: NodeRepr| v.has(x) implies #[trigger] u.node(x) == (if x == q {
                    crate::model::NodeView {
                        data: v.data(q).with_character_data(joined),
                        ..v.node(q)
                    }
                } else {
                    v.node(x)
                }) by {}
            }
            assert(u.wf());
            assert(u.nodes.len() == v.nodes.len());
            assert forall|x: NodeRepr| v.has(x) implies #[trigger] u.kind(x) == v.kind(x)
                && u.parent(x) == v.parent(x) && u.children(x) == v.children(x) && (!(v.kind(x) is Text)
                ==> u.data(x) == v.data(x)) by {}
            u.lemma_detach(c);
            assert forall|x: NodeRepr| self.has(x) implies #[trigger] w.kind(x) == self.kind(x) by {
                assert(w.data(x) == u.data(x));
                assert(u.kind(x) == v.kind(x));
            }
            assert forall|x: NodeRepr|
                self.has(x) && !(self.kind(x) is Text) implies #[trigger] w.parent(x) == self.parent(
                x,
            ) && w.data(x) == self.data(x) by {
                assert(v.kind(x) == self.kind(x));
                assert(x != c);
                assert(w.data(x) == u.data(x));
                assert(w.parent(x) == u.parent(x));
                assert(u.parent(x) == v.parent(x));
            }
            assert forall|p: NodeRepr| self.has(p) implies #[trigger] w.children(p).filter(pred)
                == self.children_but_texts(p) by {
                assert(v.children(p).filter(pred) == self.children_but_texts(p));
                assert(u.children(p) == v.children(p));
                if u.parent(c) == Some(p) {
                    let s = u.children(p);
                    let k = u.position(p, c);
                    u.lemma_ranked();
                    assert(s.contains(c));
                    assert(0 <= k < s.len() && s[k] == c);
                    assert(self.kind(c) == v.kind(c));
                    assert(!pred(c));
                    lemma_filter_without(s, k, pred);
                    assert(w.children(p) == s.remove(k));
                } else {
                    assert(w.children(p) == u.children(p));
                }
            }
        }
    }

    /// Seeing to a list of nodes changes nothing but text nodes.
    pub proof fn lemma_list_keeps(self, list: Seq<NodeRepr>)
        requires
            self.wf(),
            forall|i: int| 0 <= i < list.len() ==> self.has(#[trigger] list[i]),
        ensures
            self.normalize_list(list).wf(),
            self.same_but_texts(self.normalize_list(list)),
        decreases list.len(),
    {
        if list.len() > 0 {
            let front = list.drop_last();
            assert forall|i: int| 0 <= i < front.len() implies self.has(#[trigger] front[i]) by {
                assert(front[i] == list[i]);
            }
            self.lemma_list_keeps(front);
            let v = self.normalize_list(front);
            assert(self.has(list[list.len() - 1]));
            self.lemma_step_keeps(v, list.last());
        }
    }
}

} // verus!
