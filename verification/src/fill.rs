//! Filling the arena with a copy of a tree, node by node: what holds
//! while the copy is being made, and what holds when it is done.

use vstd::prelude::*;
use crate::model::NodeRepr;
use crate::model::DomView;
use crate::tree::DomTree;
use crate::tree::admissible;

verus! {

/// A node of the arena that is being filled with the copies of the
/// trees `trees`: those before `index` have their copies.
pub struct Filling {
    pub node: NodeRepr,
    pub index: usize,
    pub trees: Seq<DomTree>,
}

/// Whether `x` is one of the nodes that a filling has made.
pub open spec fn made(old: DomView, v: DomView, x: NodeRepr) -> bool {
    v.has(x) && !old.has(x)
}

/// Whether `x` is being filled.
pub open spec fn in_the_making(stack: Seq<Filling>, x: NodeRepr) -> bool {
    exists|i: int| 0 <= i < stack.len() && (#[trigger] stack[i]).node == x
}

/// Whether the entry after `i` is for a child of the node of entry `i`.
pub open spec fn fills_below(v: DomView, stack: Seq<Filling>, i: int) -> bool {
    v.parent(stack[i + 1].node) == Some(stack[i].node)
}

/// A filling of the tree `t` into the arena is in order: the arena has
/// grown by the nodes made, each of which stands for a tree (`source`
/// says which), carries that tree's payload and has as children the
/// copies of that tree's first children; a node that is no longer being
/// filled has them all.
pub open spec fn filling_ok(
    old: DomView,
    v: DomView,
    root: NodeRepr,
    t: DomTree,
    source: Map<NodeRepr, DomTree>,
    stack: Seq<Filling>,
) -> bool {
    &&& old.wf()
    &&& v.wf()
    &&& v.extends(old)
    &&& made(old, v, root)
    &&& v.parent(root) is None
    &&& source[root] == t
    &&& forall|x: NodeRepr| source.dom().contains(x) <==> made(old, v, x)
    &&& forall|x: NodeRepr|
        made(old, v, x) ==> (#[trigger] v.data(x)) == source[x].data && v.children(x).len()
            <= source[x].children.len()
    &&& forall|x: NodeRepr, j: int|
        made(old, v, x) && 0 <= j < v.children(x).len() ==> made(old, v, #[trigger] v.children(x)[j])
            && source[v.children(x)[j]] == source[x].children[j]
    &&& forall|x: NodeRepr|
        made(old, v, x) && !in_the_making(stack, x) ==> (#[trigger] v.children(x)).len()
            == source[x].children.len()
    &&& forall|i: int|
        0 <= i < stack.len() ==> made(old, v, (#[trigger] stack[i]).node) && stack[i].trees
            == source[stack[i].node].children && stack[i].index == v.children(stack[i].node).len()
    &&& forall|x: NodeRepr|
        made(old, v, x) ==> ((#[trigger] source[x]).children.len() > 0 ==> source[x].data.kind().is_container())
            && (x != root ==> source[x].data.kind().may_be_child())
    &&& forall|i: int| 0 <= i < stack.len() - 1 ==> #[trigger] fills_below(v, stack, i)
    &&& admissible(t) ==> forall|i: int|
        0 <= i < stack.len() ==> admissible(source[(#[trigger] stack[i]).node])
}

/// The nodes that are being filled stand one below the other, so none
/// of them stands on the stack twice.
pub proof fn lemma_filling_once(v: DomView, stack: Seq<Filling>, i: int, j: int)
    requires
        v.wf(),
        forall|i: int| 0 <= i < stack.len() ==> v.has((#[trigger] stack[i]).node),
        forall|i: int| 0 <= i < stack.len() - 1 ==> #[trigger] fills_below(v, stack, i),
        0 <= i < j < stack.len(),
    ensures
        v.ranking().of(stack[i].node) < v.ranking().of(stack[j].node),
        stack[i].node != stack[j].node,
    decreases j - i,
{
    v.lemma_ranked();
    assert(fills_below(v, stack, j - 1));
    assert(v.has(stack[j].node));
    if i < j - 1 {
        lemma_filling_once(v, stack, i, j - 1);
    }
}

/// A filling begins in order.
pub proof fn lemma_filling_starts(old: DomView, v: DomView, root: NodeRepr, t: DomTree, stack: Seq<Filling>)
    requires
        old.wf(),
        v.wf(),
        t.children.len() > 0 ==> t.data.kind().is_container(),
        v == old.create(t.data),
        root.0 == old.nodes.len(),
        stack.len() == 1,
        stack[0].node == root,
        stack[0].index == 0,
        stack[0].trees == t.children,
    ensures
        filling_ok(old, v, root, t, Map::<NodeRepr, DomTree>::empty().insert(root, t), stack),
{
    let source = Map::<NodeRepr, DomTree>::empty().insert(root, t);
    old.lemma_create(t.data);
    assert forall|x: NodeRepr| made(old, v, x) implies x == root by {}
    assert(in_the_making(stack, root)) by {
        assert(stack[0].node == root);
    }
    assert forall|x: NodeRepr| source.dom().contains(x) <==> made(old, v, x) by {}
}

/// What a filling knows when it is about to copy the next child: its
/// tree stands at the place that the child will take.
pub proof fn lemma_filling_checks(
    old: DomView,
    v: DomView,
    root: NodeRepr,
    t: DomTree,
    source: Map<NodeRepr, DomTree>,
    stack: Seq<Filling>,
)
    requires
        filling_ok(old, v, root, t, source, stack),
        stack.len() > 0,
        stack.last().index < stack.last().trees.len(),
    ensures
        ({
            let n = stack.last().node;
            let k = stack.last().index as int;
            let next = source[n].children[k];
            &&& v.has(n)
            &&& k == v.children(n).len()
            &&& k < source[n].children.len()
            &&& next == stack.last().trees[k]
            &&& source[n].children.len() > 0
            &&& v.kind(n).is_container()
            &&& !next.data.kind().may_be_child() ==> !admissible(t)
            &&& next.children.len() > 0 && !next.data.kind().is_container() ==> !admissible(t)
        }),
{
    let top = stack.len() - 1;
    let n = stack[top].node;
    let k = stack[top].index as int;
    assert(made(old, v, stack[top].node));
    let next = source[n].children[k];
    assert(v.data(n) == source[n].data);
    assert(source[n].children.len() > 0 ==> source[n].data.kind().is_container());
    if admissible(t) {
        assert(admissible(source[stack[top].node]));
        assert(next.data.kind().may_be_child() && admissible(next));
    }
}

/// A step down: the next child of the node that is being filled has
/// got its copy, which is now being filled.
pub proof fn lemma_filling_descends(
    old: DomView,
    v: DomView,
    w: DomView,
    root: NodeRepr,
    t: DomTree,
    source: Map<NodeRepr, DomTree>,
    grown: Map<NodeRepr, DomTree>,
    before: Seq<Filling>,
    after: Seq<Filling>,
    next: DomTree,
)
    requires
        filling_ok(old, v, root, t, source, before),
        before.len() > 0,
        before.last().index < before.last().trees.len(),
        next == before.last().trees[before.last().index as int],
        next.data.kind().may_be_child(),
        next.children.len() > 0 ==> next.data.kind().is_container(),
        v.nodes.len() < usize::MAX,
        w == v.create(next.data).insert(
            before.last().node,
            before.last().index as int,
            NodeRepr(v.nodes.len() as usize),
        ),
        w.wf(),
        grown == source.insert(NodeRepr(v.nodes.len() as usize), next),
        after.len() == before.len() + 1,
        forall|i: int| 0 <= i < before.len() - 1 ==> after[i] == before[i],
        after[before.len() - 1].node == before.last().node,
        after[before.len() - 1].index == before.last().index + 1,
        after[before.len() - 1].trees == before.last().trees,
        after.last().node == NodeRepr(v.nodes.len() as usize),
        after.last().index == 0,
        after.last().trees == next.children,
    ensures
        filling_ok(old, w, root, t, grown, after),
{
    let top = before.len() - 1;
    let n = before[top].node;
    let k = before[top].index as int;
    let c = NodeRepr(v.nodes.len() as usize);
    lemma_filling_checks(old, v, root, t, source, before);
    v.lemma_ranked();
    v.lemma_create(next.data);
    let mid = v.create(next.data);
    mid.lemma_ranked();
    assert(mid.node(n) == v.node(n));
    assert(mid.node(c) == (crate::model::NodeView {
        parent: None,
        children: Seq::empty(),
        data: next.data,
        template_contents: None,
    }));
    assert(!mid.is_ancestor_or_self(c, n)) by {
        if mid.is_ancestor_or_self(c, n) {
            crate::chardata::lemma_leaf_above(mid, c, n);
        }
    }
    mid.lemma_insert(n, k, c);
    assert(made(old, v, n));
    assert(n != c);
    assert forall|x: NodeRepr| v.has(x) && x != n implies #[trigger] w.node(x) == v.node(x) by {
        assert(mid.node(x) == v.node(x));
        assert(w.parent(x) == mid.parent(x));
        assert(w.children(x) == mid.children(x));
        assert(w.data(x) == mid.data(x));
    }
    assert(w.children(n) =~= v.children(n).push(c));
    assert(w.data(n) == v.data(n));
    assert(w.parent(n) == v.parent(n));
    assert(w.children(c) =~= Seq::<NodeRepr>::empty());
    assert(w.data(c) == next.data);
    assert forall|x: NodeRepr| made(old, w, x) <==> (made(old, v, x) || x == c) by {}
    assert forall|x: NodeRepr| old.has(x) implies #[trigger] w.node(x) == old.node(x) by {
        assert(v.node(x) == old.node(x));
    }
    assert forall|x: NodeRepr| grown.dom().contains(x) <==> made(old, w, x) by {}
    assert forall|x: NodeRepr| made(old, w, x) implies (#[trigger] w.data(x)) == grown[x].data
        && w.children(x).len() <= grown[x].children.len() by {
        if x != c {
            assert(v.data(x) == source[x].data);
        }
    }
    assert forall|x: NodeRepr, j: int|
        made(old, w, x) && 0 <= j < w.children(x).len() implies made(
        old,
        w,
        #[trigger] w.children(x)[j],
    ) && grown[w.children(x)[j]] == grown[x].children[j] by {
        if x == n && j == k {
        } else if x != c {
            assert(w.children(x)[j] == v.children(x)[j]);
            assert(made(old, v, v.children(x)[j]));
        }
    }
    assert(in_the_making(after, c)) by {
        assert(after[top + 1].node == c);
    }
    assert(in_the_making(after, n)) by {
        assert(after[top].node == n);
    }
    assert forall|x: NodeRepr|
        made(old, w, x) && !in_the_making(after, x) implies (#[trigger] w.children(x)).len()
        == grown[x].children.len() by {
        if in_the_making(before, x) {
            let i = choose|i: int| 0 <= i < before.len() && (#[trigger] before[i]).node == x;
            if i < top {
                assert(after[i].node == x);
            }
        }
        assert(v.children(x).len() == source[x].children.len());
    }
    assert forall|i: int| 0 <= i < after.len() implies made(old, w, (#[trigger] after[i]).node)
        && after[i].trees == grown[after[i].node].children && after[i].index
        == w.children(after[i].node).len() by {
        if i < top {
            assert(after[i] == before[i]);
            assert(made(old, v, before[i].node));
            assert forall|a: int| 0 <= a < before.len() implies v.has((#[trigger] before[a]).node) by {
                assert(made(old, v, before[a].node));
            }
            lemma_filling_once(v, before, i, top);
        } else if i == top {
            assert(made(old, v, before[top].node));
        }
    }
    assert forall|x: NodeRepr| made(old, w, x) implies ((#[trigger] grown[x]).children.len() > 0
        ==> grown[x].data.kind().is_container()) && (x != root ==> grown[x].data.kind().may_be_child()) by {
        if x != c {
            assert(made(old, v, x));
        }
    }
    assert forall|i: int| 0 <= i < after.len() - 1 implies #[trigger] fills_below(w, after, i) by {
        if i < top {
            assert(after[i] == before[i]);
            assert(fills_below(v, before, i));
            assert(made(old, v, before[i + 1].node));
            assert(after[i + 1].node == before[i + 1].node);
            assert(before[i + 1].node != c);
        }
    }
    if admissible(t) {
        assert forall|i: int| 0 <= i < after.len() implies admissible(
            grown[(#[trigger] after[i]).node],
        ) by {
            if i < top {
                assert(after[i] == before[i]);
                assert(admissible(source[before[i].node]));
                assert(made(old, v, before[i].node));
            } else {
                assert(admissible(source[before[top].node]));
                assert(admissible(source[n].children[k]));
            }
        }
    }
}

/// A step up: the node that was being filled has all its children.
pub proof fn lemma_filling_ascends(
    old: DomView,
    v: DomView,
    root: NodeRepr,
    t: DomTree,
    source: Map<NodeRepr, DomTree>,
    before: Seq<Filling>,
    after: Seq<Filling>,
)
    requires
        filling_ok(old, v, root, t, source, before),
        before.len() > 0,
        before.last().index >= before.last().trees.len(),
        after == before.drop_last(),
    ensures
        filling_ok(old, v, root, t, source, after),
{
    let top = before.len() - 1;
    let n = before[top].node;
    assert(v.children(n).len() == source[n].children.len()) by {
        assert(made(old, v, before[top].node));
        assert(before[top].index == v.children(n).len());
        assert(v.data(n) == source[n].data);
    }
    assert forall|x: NodeRepr|
        made(old, v, x) && !in_the_making(after, x) implies (#[trigger] v.children(x)).len()
        == source[x].children.len() by {
        if x != n {
            assert(!in_the_making(before, x)) by {
                if in_the_making(before, x) {
                    let i = choose|i: int| 0 <= i < before.len() && (#[trigger] before[i]).node == x;
                    assert(i < top);
                    assert(after[i].node == x);
                    assert(in_the_making(after, x));
                }
            }
        }
    }
    assert forall|i: int| 0 <= i < after.len() implies made(old, v, (#[trigger] after[i]).node)
        && after[i].trees == source[after[i].node].children && after[i].index
        == v.children(after[i].node).len() by {
        assert(after[i] == before[i]);
        assert(made(old, v, before[i].node));
    }
    assert forall|i: int| 0 <= i < after.len() - 1 implies #[trigger] fills_below(v, after, i) by {
        assert(after[i] == before[i]);
        assert(after[i + 1] == before[i + 1]);
        assert(fills_below(v, before, i));
    }
    assert(admissible(t) ==> forall|i: int|
        0 <= i < after.len() ==> admissible(source[(#[trigger] after[i]).node])) by {
        if admissible(t) {
            assert forall|i: int| 0 <= i < after.len() implies admissible(
                source[(#[trigger] after[i]).node],
            ) by {
                assert(after[i] == before[i]);
                assert(admissible(source[before[i].node]));
            }
        }
    }
}

/// When nothing is being filled any more, every node made holds the
/// tree that it stands for, and that tree is one that the arena can
/// hold.
pub proof fn lemma_filling_ends(
    old: DomView,
    v: DomView,
    root: NodeRepr,
    t: DomTree,
    source: Map<NodeRepr, DomTree>,
    stack: Seq<Filling>,
    x: NodeRepr,
)
    requires
        filling_ok(old, v, root, t, source, stack),
        stack.len() == 0,
        made(old, v, x),
    ensures
        v.tree(x) == source[x],
        admissible(source[x]),
    decreases v.down(x),
{
    v.lemma_ranked();
    v.lemma_tree_children(x);
    assert(!in_the_making(stack, x));
    assert(v.children(x).len() == source[x].children.len());
    assert(v.data(x) == source[x].data);
    assert forall|j: int| 0 <= j < v.children(x).len() implies v.tree(x).children[j]
        == source[x].children[j] && (#[trigger] source[x].children[j]).data.kind().may_be_child()
        && admissible(source[x].children[j]) by {
        let c = v.children(x)[j];
        v.lemma_child_is_lower(x, j);
        assert(made(old, v, v.children(x)[j]));
        lemma_filling_ends(old, v, root, t, source, stack, c);
        assert(c != root);
        assert(source[c].data.kind().may_be_child());
    }
    assert(v.tree(x).children =~= source[x].children);
    assert(source[x].children.len() > 0 ==> source[x].data.kind().is_container());
}


} // verus!
