//! What holds of every well-formed arena, and of the operations taken
//! together.
//!
//! Every operation that changes an arena asks for a well-formed arena
//! and leaves one behind, so what is proved here of well-formed arenas
//! holds after any sequence of operations.

use vstd::prelude::*;
use crate::model::NodeRepr;
use crate::model::DomView;
use crate::tree::DomTree;
use crate::html::outer_html_of;
use crate::html::inner_html_of;
use crate::normal_form::is_normal;
use crate::normal_form::lemma_normalize_text;
use crate::normal_form::lemma_normalized_is_normal;
use crate::navigate::DOCUMENT_POSITION_PRECEDING;
use crate::navigate::DOCUMENT_POSITION_FOLLOWING;
use crate::navigate::occurs_before;
use crate::order::lemma_one_order;
use crate::node::AttributeView;
use crate::attrs::find_from;
use crate::attrs::local_is;
use crate::attrs::plain;

verus! {

impl DomView {
    /// `a` is above `n`: it is the parent of `n` or above that parent.
    pub open spec fn is_ancestor(self, a: NodeRepr, n: NodeRepr) -> bool {
        self.parent(n) is Some && self.is_ancestor_or_self(a, self.parent(n)->0)
    }
}

/// A node names `p` as its parent exactly when `p` lists it as a child.
pub proof fn law_parent_lists_child(v: DomView, p: NodeRepr, c: NodeRepr)
    requires
        v.wf(),
        v.has(p),
        v.has(c),
    ensures
        v.parent(c) == Some(p) <==> v.children(p).contains(c),
{
    v.lemma_ranked();
    if v.children(p).contains(c) {
        let i = choose|i: int| 0 <= i < v.children(p).len() && v.children(p)[i] == c;
        assert(v.parent(v.children(p)[i]) == Some(p));
    }
}

/// A node stands among the children of its parent exactly once.
pub proof fn law_child_listed_once(v: DomView, c: NodeRepr)
    requires
        v.wf(),
        v.has(c),
        v.parent(c) is Some,
    ensures
        ({
            let list = v.children(v.parent(c)->0);
            let at = v.position(v.parent(c)->0, c);
            &&& 0 <= at < list.len()
            &&& list[at] == c
            &&& forall|j: int| 0 <= j < list.len() && j != at ==> list[j] != c
        }),
{
    v.lemma_ranked();
    let list = v.children(v.parent(c)->0);
    assert(list.contains(c));
    assert(list.no_duplicates());
}

/// No node is above itself.
pub proof fn law_no_node_above_itself(v: DomView, n: NodeRepr)
    requires
        v.wf(),
        v.has(n),
    ensures
        !v.is_ancestor(n, n),
{
    v.lemma_ranked();
    if v.is_ancestor(n, n) {
        v.lemma_ancestor_rank(n, v.parent(n)->0);
    }
}

/// A node that is appended to `p` and then removed from `p` has no
/// parent: it is back where it was exactly when it had no parent before.
pub proof fn law_append_then_remove(v: DomView, p: NodeRepr, c: NodeRepr)
    requires
        v.wf(),
        v.has(p),
        v.has(c),
        v.can_place(p, c),
        !(v.kind(c) is DocumentFragment),
    ensures
        v.append(p, c).wf(),
        v.append(p, c).parent(c) == Some(p),
        v.append(p, c).detach(c).wf(),
        v.append(p, c).detach(c).parent(c) is None,
        v.append(p, c).detach(c).parent(c) == v.parent(c) <==> v.parent(c) is None,
{
    v.lemma_ranked();
    v.lemma_detach(c);
    v.lemma_detach_keeps_subtree(c, p);
    let d = v.detach(c);
    d.lemma_insert(p, d.children(p).len() as int, c);
    v.append(p, c).lemma_detach(c);
}

/// Every node contains itself, and a node contains another exactly when
/// it is that node or contains its parent.
pub proof fn law_contains(v: DomView, a: NodeRepr, n: NodeRepr)
    requires
        v.wf(),
        v.has(a),
        v.has(n),
    ensures
        v.is_ancestor_or_self(n, n),
        v.is_ancestor_or_self(a, n) <==> (a == n || v.is_ancestor(a, n)),
        v.is_ancestor_or_self(a, n) && v.is_ancestor_or_self(n, a) ==> a == n,
{
    v.lemma_ranked();
    if v.is_ancestor_or_self(a, n) && v.is_ancestor_or_self(n, a) {
        v.lemma_ancestor_rank(a, n);
        v.lemma_ancestor_rank(n, a);
        if a != n {
            v.lemma_ancestor_rank(a, v.parent(n)->0);
        }
    }
}

/// Two nodes that hold the same tree have the same HTML text, outside
/// and inside, in whatever arenas they live.
pub proof fn law_same_tree_same_html(a: DomView, n: NodeRepr, b: DomView, m: NodeRepr)
    requires
        a.tree(n) == b.tree(m),
    ensures
        outer_html_of(a.tree(n)) == outer_html_of(b.tree(m)),
        inner_html_of(a.tree(n)) == inner_html_of(b.tree(m)),
{
}

/// A copy shares no node with what was there before: in an arena that
/// has grown, no old node stands below a new node without parent.
pub proof fn law_copy_is_apart(old: DomView, now: DomView, copy: NodeRepr, x: NodeRepr)
    requires
        old.wf(),
        now.wf(),
        now.extends(old),
        now.has(copy),
        !old.has(copy),
        now.parent(copy) is None,
        now.has(x),
        now.is_ancestor_or_self(copy, x),
    ensures
        !old.has(x),
{
    if old.has(x) {
        now.lemma_root_of_old(old, x);
        lemma_root_is_top(now, copy, x);
    }
}

/// A node without parent that is above `n` is the root of `n`.
pub proof fn lemma_root_is_top(v: DomView, top: NodeRepr, n: NodeRepr)
    requires
        v.wf(),
        v.has(top),
        v.has(n),
        v.parent(top) is None,
        v.is_ancestor_or_self(top, n),
    ensures
        v.root_of(n) == top,
    decreases v.up(n),
{
    v.lemma_ranked();
    if n != top {
        lemma_root_is_top(v, top, v.parent(n)->0);
    }
}

/// Trees that are put at the start of the children of a node stand
/// there in their order, before the children that were there.
pub proof fn law_trees_put_first_keep_order(old: DomView, now: DomView, p: NodeRepr, trees: Seq<DomTree>, k: int)
    requires
        old.wf(),
        old.has(p),
        now.holds_trees_in(old, p, 0, 0, trees),
        0 <= k < trees.len() + old.children(p).len(),
    ensures
        k < trees.len() ==> now.tree(p).children[k] == trees[k],
        k >= trees.len() ==> now.tree(p).children[k] == old.tree(p).children[k - trees.len()],
{
    old.lemma_tree_children(p);
}

/// Normalizing changes no text: the text of the node that is normalized,
/// and of every node above it, is as it was.
pub proof fn law_normalize_keeps_text(v: DomView, n: NodeRepr, r: NodeRepr)
    requires
        v.wf(),
        v.has(n),
        v.has(r),
        v.is_ancestor_or_self(r, n),
    ensures
        v.normalized(n).text_content(r) == v.text_content(r),
{
    let w = v.normalized(n);
    v.lemma_normalized(n);
    v.lemma_texts_are_leaves(n);
    lemma_normalize_text(v.tree(n));
    v.lemma_text_above(w, n, r);
    v.lemma_text_content_is_tree_text(r);
    w.lemma_text_content_is_tree_text(r);
}

/// Normalizing leaves a tree in normal form, and normalizing again
/// changes nothing.
pub proof fn law_normalize_twice(v: DomView, n: NodeRepr)
    requires
        v.wf(),
        v.has(n),
    ensures
        is_normal(v.normalized(n).tree(n)),
        v.normalized(n).normalized(n) == v.normalized(n),
{
    let w = v.normalized(n);
    v.lemma_normalized(n);
    lemma_normalized_is_normal(v.tree(n));
    w.lemma_normal_stays(n, 0);
}

/// Normalizing changes nothing but text nodes: they are the same nodes
/// of the same kinds afterwards, every node that is no text node has its
/// parent and its payload, and the children of every node that are no
/// text nodes are the same nodes in the same order.
pub proof fn law_normalize_keeps_other_nodes(v: DomView, n: NodeRepr)
    requires
        v.wf(),
        v.has(n),
    ensures
        v.same_but_texts(v.normalized(n)),
{
    v.lemma_descendants_below(n, 0);
    v.lemma_list_keeps(v.descendants(n));
}

/// Of two children of a node the later one follows the earlier one, and
/// the earlier one precedes the later one.
pub proof fn law_siblings_in_tree_order(v: DomView, p: NodeRepr, i: int, j: int)
    requires
        v.wf(),
        v.has(p),
        0 <= i < j < v.children(p).len(),
    ensures
        v.document_position(v.children(p)[i], v.children(p)[j]) == DOCUMENT_POSITION_FOLLOWING,
        v.document_position(v.children(p)[j], v.children(p)[i]) == DOCUMENT_POSITION_PRECEDING,
{
    let a = v.children(p)[i];
    let b = v.children(p)[j];
    let top = v.root_of(p);
    v.lemma_ranked();
    v.lemma_child_is_lower(p, i);
    v.lemma_child_is_lower(p, j);
    assert(v.children(p).no_duplicates());
    assert(a != b);
    assert(v.root_of(a) == top);
    assert(v.root_of(b) == top);
    assert(v.is_ancestor_or_self(a, a));
    assert(v.is_ancestor_or_self(b, b));
    v.lemma_siblings_apart(a, b, a);
    v.lemma_siblings_apart(b, a, b);
    v.lemma_children_in_order(p, i, j);
    v.lemma_order_in_tree(p, a, b);
    v.lemma_root(p);
    v.lemma_subtree_once(top);
    lemma_one_order(v.subtree(top), a, b);
}

/// A search finds an entry that passes the test, or one before it.
pub proof fn lemma_found(attrs: Seq<AttributeView>, pred: spec_fn(AttributeView) -> bool, k: int, j: int)
    requires
        0 <= k <= j < attrs.len(),
        pred(attrs[j]),
    ensures
        find_from(attrs, pred, k) <= j,
    decreases j - k,
{
    if k < j && !pred(attrs[k]) {
        lemma_found(attrs, pred, k + 1, j);
    }
}

/// An attribute that is toggled on is present on an element afterwards.
pub proof fn law_toggle_on_makes_present(v: DomView, n: NodeRepr, name: Seq<char>)
    requires
        v.wf(),
        v.has(n),
        v.kind(n) is Element,
    ensures
        v.toggle_attribute(n, name, true).has_local(n, name),
{
    if !v.has_local(n, name) {
        let attrs = v.attributes(n);
        let fresh = plain(name, Seq::empty());
        let w = v.set_attribute(n, name, Seq::empty());
        assert(w.attributes(n) == attrs.push(fresh));
        assert(local_is(name)(fresh));
        lemma_found(attrs.push(fresh), local_is(name), 0, attrs.len() as int);
    }
}

} // verus!
