//! Normal form of trees as values: what normalizing does to the shape
//! and the text of a tree.

use vstd::prelude::*;
use crate::node::NodeDataView;
use crate::tree::DomTree;

verus! {

/// The text that a payload contributes: the data of a text node, and
/// nothing for any other node.
pub open spec fn own_text(d: NodeDataView) -> Seq<char> {
    match d {
        NodeDataView::Text { contents } => contents,
        _ => Seq::empty(),
    }
}

/// The text of a tree: the data of its text nodes, in tree order.
pub open spec fn tree_text(t: DomTree) -> Seq<char>
    decreases t,
{
    own_text(t.data) + trees_text(t.children)
}

/// The text of a list of trees, one after the other.
pub open spec fn trees_text(ts: Seq<DomTree>) -> Seq<char>
    decreases ts,
{
    if ts.len() == 0 {
        Seq::empty()
    } else {
        trees_text(ts.subrange(0, ts.len() - 1)) + tree_text(ts[ts.len() - 1])
    }
}

/// A list of normalized trees with one more normalized tree taken in: an
/// empty text is dropped, a text after a text is joined to it, and any
/// other tree goes to the end.
pub open spec fn merge_into(acc: Seq<DomTree>, t: DomTree) -> Seq<DomTree> {
    if !(t.data is Text) {
        acc.push(t)
    } else if own_text(t.data).len() == 0 {
        acc
    } else if acc.len() > 0 && acc.last().data is Text {
        acc.update(
            acc.len() - 1,
            DomTree {
                data: NodeDataView::Text { contents: own_text(acc.last().data) + own_text(t.data) },
                children: acc.last().children,
            },
        )
    } else {
        acc.push(t)
    }
}

/// The tree in normal form: everywhere in it, empty text nodes are gone
/// and text nodes that stood side by side are one.
pub open spec fn normalize_tree(t: DomTree) -> DomTree
    decreases t,
{
    DomTree { data: t.data, children: normalize_trees(t.children) }
}

/// The trees in normal form, as the children of one node.
pub open spec fn normalize_trees(ts: Seq<DomTree>) -> Seq<DomTree>
    decreases ts,
{
    if ts.len() == 0 {
        Seq::empty()
    } else {
        merge_into(
            normalize_trees(ts.subrange(0, ts.len() - 1)),
            normalize_tree(ts[ts.len() - 1]),
        )
    }
}

/// Text nodes have no children, anywhere in the tree.
pub open spec fn texts_are_leaves(t: DomTree) -> bool
    decreases t,
{
    &&& t.data is Text ==> t.children.len() == 0
    &&& forall|i: int| 0 <= i < t.children.len() ==> texts_are_leaves(#[trigger] t.children[i])
}

/// Text nodes have no children, anywhere in the trees.
pub open spec fn all_texts_are_leaves(ts: Seq<DomTree>) -> bool {
    forall|i: int| 0 <= i < ts.len() ==> texts_are_leaves(#[trigger] ts[i])
}

/// The tree is in normal form: nowhere in it is a text node empty, and
/// nowhere does a text node stand right after another.
pub open spec fn is_normal(t: DomTree) -> bool
    decreases t,
{
    forall|i: int|
        0 <= i < t.children.len() ==> is_normal(#[trigger] t.children[i]) && (t.children[i].data
            is Text ==> own_text(t.children[i].data).len() > 0 && (i > 0 ==> !(t.children[i
            - 1].data is Text)))
}

/// The trees are in normal form, each in itself and as neighbours.
pub open spec fn are_normal(ts: Seq<DomTree>) -> bool {
    forall|i: int|
        0 <= i < ts.len() ==> is_normal(#[trigger] ts[i]) && (ts[i].data is Text ==> own_text(
            ts[i].data,
        ).len() > 0 && (i > 0 ==> !(ts[i - 1].data is Text)))
}

/// The text of a list with one more tree is the text of the list and
/// then that of the tree.
pub proof fn lemma_text_push(ts: Seq<DomTree>, t: DomTree)
    ensures
        trees_text(ts.push(t)) == trees_text(ts) + tree_text(t),
{
    let all = ts.push(t);
    assert(all.subrange(0, all.len() - 1) =~= ts);
    assert(all[all.len() - 1] == t);
}

/// The text of two lists, one after the other, is the text of the first
/// and then that of the second.
pub proof fn lemma_text_concat(a: Seq<DomTree>, b: Seq<DomTree>)
    ensures
        trees_text(a + b) == trees_text(a) + trees_text(b),
    decreases b.len(),
{
    if b.len() == 0 {
        assert(a + b =~= a);
        assert(trees_text(a) + Seq::<char>::empty() =~= trees_text(a));
    } else {
        let b0 = b.subrange(0, b.len() - 1);
        let last = b[b.len() - 1];
        lemma_text_concat(a, b0);
        assert((a + b).subrange(0, (a + b).len() - 1) =~= a + b0);
        assert((a + b)[(a + b).len() - 1] == last);
        assert(trees_text(a) + trees_text(b0) + tree_text(last) =~= trees_text(a) + (trees_text(b0)
            + tree_text(last)));
    }
}

/// Taking a tree into a list of trees adds its text to theirs.
pub proof fn lemma_merge_text(acc: Seq<DomTree>, t: DomTree)
    requires
        all_texts_are_leaves(acc),
        texts_are_leaves(t),
    ensures
        trees_text(merge_into(acc, t)) == trees_text(acc) + tree_text(t),
        all_texts_are_leaves(merge_into(acc, t)),
{
    let out = merge_into(acc, t);
    assert(trees_text(Seq::<DomTree>::empty()) =~= Seq::<char>::empty());
    if !(t.data is Text) {
        lemma_text_push(acc, t);
    } else {
        assert(t.children =~= Seq::<DomTree>::empty());
        assert(tree_text(t) =~= own_text(t.data));
        if own_text(t.data).len() == 0 {
            assert(trees_text(acc) + tree_text(t) =~= trees_text(acc));
        } else if acc.len() > 0 && acc.last().data is Text {
            let last = acc.last();
            let joined = DomTree {
                data: NodeDataView::Text { contents: own_text(last.data) + own_text(t.data) },
                children: last.children,
            };
            let front = acc.subrange(0, acc.len() - 1);
            assert(texts_are_leaves(acc[acc.len() - 1]));
            assert(last.children =~= Seq::<DomTree>::empty());
            assert(out.subrange(0, out.len() - 1) =~= front);
            assert(out[out.len() - 1] == joined);
            assert(tree_text(joined) =~= own_text(last.data) + own_text(t.data));
            assert(tree_text(last) =~= own_text(last.data));
            assert(trees_text(acc) == trees_text(front) + tree_text(last));
            assert(trees_text(out) == trees_text(front) + tree_text(joined));
            assert(trees_text(front) + (own_text(last.data) + own_text(t.data)) =~= trees_text(front)
                + own_text(last.data) + own_text(t.data));
            assert forall|i: int| 0 <= i < out.len() implies texts_are_leaves(#[trigger] out[i]) by {
                if i < out.len() - 1 {
                    assert(out[i] == acc[i]);
                }
            }
        } else {
            lemma_text_push(acc, t);
        }
    }
}

/// Normalizing keeps text nodes childless and changes no text.
pub proof fn lemma_normalize_text(t: DomTree)
    requires
        texts_are_leaves(t),
    ensures
        texts_are_leaves(normalize_tree(t)),
        tree_text(normalize_tree(t)) == tree_text(t),
    decreases t,
{
    lemma_normalize_texts(t.children);
    let n = normalize_tree(t);
    if t.data is Text {
        assert(t.children =~= Seq::<DomTree>::empty());
        assert(n.children =~= Seq::<DomTree>::empty());
    }
}

/// Normalizing keeps text nodes childless and changes no text, in
/// every tree of a list.
pub proof fn lemma_normalize_texts(ts: Seq<DomTree>)
    requires
        all_texts_are_leaves(ts),
    ensures
        all_texts_are_leaves(normalize_trees(ts)),
        trees_text(normalize_trees(ts)) == trees_text(ts),
    decreases ts,
{
    if ts.len() > 0 {
        let front = ts.subrange(0, ts.len() - 1);
        let last = ts[ts.len() - 1];
        assert forall|i: int| 0 <= i < front.len() implies texts_are_leaves(#[trigger] front[i]) by {
            assert(front[i] == ts[i]);
        }
        lemma_normalize_texts(front);
        lemma_normalize_text(last);
        lemma_merge_text(normalize_trees(front), normalize_tree(last));
    }
}

/// Taking a normal tree into a list of normal trees gives a list of
/// normal trees.
pub proof fn lemma_merge_normal(acc: Seq<DomTree>, t: DomTree)
    requires
        are_normal(acc),
        is_normal(t),
    ensures
        are_normal(merge_into(acc, t)),
{
    let out = merge_into(acc, t);
    if !(t.data is Text) || !(own_text(t.data).len() == 0 || (acc.len() > 0 && acc.last().data
        is Text)) {
        assert forall|i: int| 0 <= i < out.len() implies is_normal(#[trigger] out[i]) && (
        out[i].data is Text ==> own_text(out[i].data).len() > 0 && (i > 0 ==> !(out[i - 1].data
            is Text))) by {
            if i < acc.len() {
                assert(out[i] == acc[i]);
                if i > 0 {
                    assert(out[i - 1] == acc[i - 1]);
                }
            }
        }
    } else if own_text(t.data).len() > 0 {
        assert forall|i: int| 0 <= i < out.len() implies is_normal(#[trigger] out[i]) && (
        out[i].data is Text ==> own_text(out[i].data).len() > 0 && (i > 0 ==> !(out[i - 1].data
            is Text))) by {
            if i < acc.len() - 1 {
                assert(out[i] == acc[i]);
                if i > 0 {
                    assert(out[i - 1] == acc[i - 1]);
                }
            } else {
                assert(is_normal(acc[i]));
                assert(out[i].children == acc[i].children);
                if i > 0 {
                    assert(out[i - 1] == acc[i - 1]);
                }
            }
        }
    }
}

/// A normalized tree is in normal form.
pub proof fn lemma_normalized_is_normal(t: DomTree)
    ensures
        is_normal(normalize_tree(t)),
    decreases t,
{
    lemma_normalized_are_normal(t.children);
}

/// Normalized trees are in normal form.
pub proof fn lemma_normalized_are_normal(ts: Seq<DomTree>)
    ensures
        are_normal(normalize_trees(ts)),
    decreases ts,
{
    if ts.len() > 0 {
        let front = ts.subrange(0, ts.len() - 1);
        let last = ts[ts.len() - 1];
        lemma_normalized_are_normal(front);
        lemma_normalized_is_normal(last);
        lemma_merge_normal(normalize_trees(front), normalize_tree(last));
    }
}

/// Normalizing changes nothing in a tree that is in normal form.
pub proof fn lemma_normal_is_fixed(t: DomTree)
    requires
        is_normal(t),
    ensures
        normalize_tree(t) == t,
    decreases t,
{
    lemma_normal_are_fixed(t.children);
}

/// Normalizing changes nothing in trees that are in normal form.
pub proof fn lemma_normal_are_fixed(ts: Seq<DomTree>)
    requires
        are_normal(ts),
    ensures
        normalize_trees(ts) == ts,
    decreases ts,
{
    if ts.len() > 0 {
        let front = ts.subrange(0, ts.len() - 1);
        let last = ts[ts.len() - 1];
        assert forall|i: int| 0 <= i < front.len() implies is_normal(#[trigger] front[i]) && (
        front[i].data is Text ==> own_text(front[i].data).len() > 0 && (i > 0 ==> !(front[i
            - 1].data is Text))) by {
            assert(front[i] == ts[i]);
            if i > 0 {
                assert(front[i - 1] == ts[i - 1]);
            }
        }
        lemma_normal_are_fixed(front);
        assert(is_normal(ts[ts.len() - 1]));
        lemma_normal_is_fixed(last);
        if ts.len() > 1 {
            assert(front.last() == ts[ts.len() - 2]);
        }
        assert(merge_into(front, last) =~= ts);
    } else {
        assert(ts =~= Seq::<DomTree>::empty());
    }
}

/// Normalizing twice is normalizing once.
pub proof fn law_normalize_tree_twice(t: DomTree)
    ensures
        normalize_tree(normalize_tree(t)) == normalize_tree(t),
{
    lemma_normalized_is_normal(t);
    lemma_normal_is_fixed(normalize_tree(t));
}

} // verus!
