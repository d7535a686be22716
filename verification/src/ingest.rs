//! From HTML text to a document in an arena.

use vstd::prelude::*;
use vstd::string::StringExecFns;
use crate::node::NodeKind;
use crate::model::NodeRepr;
use crate::model::DomView;
use crate::dom::Dom;
use crate::error::DomError;
use crate::tree::DomTree;
use crate::create::html_element;
use crate::create::new_html_element;
use crate::content::tree_child_named;
use crate::content::tree_named_from;
use crate::query::is_named;
use crate::html::parsed_document;
use crate::html::readable;

verus! {

/// The test "the root is a doctype", as a value.
pub open spec fn is_doctype_tree() -> spec_fn(DomTree) -> bool {
    |t: DomTree| t.data is Doctype
}

/// The test "the root is no doctype", as a value.
pub open spec fn not_doctype_tree() -> spec_fn(DomTree) -> bool {
    |t: DomTree| !(t.data is Doctype)
}

/// A document tree with an `html` element at its top: a document that
/// has none gets a new one, in the HTML namespace, after its doctypes,
/// and all that it held besides its doctypes goes below that element, in
/// order. Any other tree is as it was.
pub open spec fn with_html_root(t: DomTree) -> DomTree {
    if t.data is Document && tree_child_named(t, "html"@) is None {
        DomTree {
            data: t.data,
            children: t.children.filter(is_doctype_tree()).push(
                DomTree {
                    data: html_element("html"@),
                    children: t.children.filter(not_doctype_tree()),
                },
            ),
        }
    } else {
        t
    }
}

/// Where the tree at `j` is the first from `k` on whose root is an
/// element with the local name `name`, the search from `k` ends there.
pub proof fn lemma_named_found(ts: Seq<DomTree>, name: Seq<char>, k: int, j: int)
    requires
        0 <= k <= j < ts.len(),
        forall|i: int| k <= i < j ==> !is_named(#[trigger] ts[i].data, name),
        is_named(ts[j].data, name),
    ensures
        tree_named_from(ts, name, k) == j,
    decreases j - k,
{
    if k < j {
        lemma_named_found(ts, name, k + 1, j);
    }
}

/// A document tree with an `html` element at its top is a document and
/// has an `html` element among its children.
pub proof fn lemma_html_root_is_there(t: DomTree)
    requires
        t.data is Document,
    ensures
        with_html_root(t).data is Document,
        tree_child_named(with_html_root(t), "html"@) is Some,
{
    if tree_child_named(t, "html"@) is None {
        broadcast use vstd::seq_lib::group_filter_ensures;
        let docs = t.children.filter(is_doctype_tree());
        let top = DomTree {
            data: html_element("html"@),
            children: t.children.filter(not_doctype_tree()),
        };
        let all = docs.push(top);
        assert forall|i: int| 0 <= i < docs.len() implies !is_named(
            (#[trigger] all[i]).data,
            "html"@,
        ) by {
            assert(is_doctype_tree()(docs[i]));
        }
        assert(is_named(all[docs.len() as int].data, "html"@));
        lemma_named_found(all, "html"@, 0, docs.len() as int);
    }
}

impl DomView {
    /// Whether `doc` is a document with an `html` element among its
    /// children.
    pub open spec fn is_html_document(self, doc: NodeRepr) -> bool {
        self.kind(doc) is Document && self.child_named(doc, "html"@) is Some
    }

    /// The test "is no doctype", as a value.
    pub open spec fn not_doctype_pred(self) -> spec_fn(NodeRepr) -> bool {
        |c: NodeRepr| !(self.kind(c) is Doctype)
    }

    /// Whether `x` is one of the children of `doc` that are no doctypes.
    pub open spec fn is_gathered(self, doc: NodeRepr, x: NodeRepr) -> bool {
        self.parent(x) == Some(doc) && !(self.kind(x) is Doctype)
    }

    /// This arena is `old` after the children of `doc` that are no
    /// doctypes have gone, in order, below the childless node `e`.
    pub open spec fn gathered_from(self, old: DomView, doc: NodeRepr, e: NodeRepr) -> bool {
        &&& self.same_payloads(old)
        &&& self.children(doc) == old.children(doc).filter(old.doctype_pred())
        &&& self.children(e) == old.children(doc).filter(old.not_doctype_pred())
        &&& forall|x: NodeRepr|
            old.has(x) && x != doc && x != e ==> #[trigger] self.children(x) == old.children(x)
        &&& forall|x: NodeRepr|
            old.has(x) ==> #[trigger] self.parent(x) == (if old.is_gathered(doc, x) {
                Some(e)
            } else {
                old.parent(x)
            })
    }

    /// Picking nodes by a test on their payloads picks their trees.
    pub proof fn lemma_filter_trees(
        self,
        list: Seq<NodeRepr>,
        trees: Seq<DomTree>,
        pick: spec_fn(NodeRepr) -> bool,
        pick_tree: spec_fn(DomTree) -> bool,
    )
        requires
            list.len() == trees.len(),
            forall|j: int| 0 <= j < list.len() ==> #[trigger] trees[j] == self.tree(list[j]),
            forall|j: int| 0 <= j < list.len() ==> pick(#[trigger] list[j]) == pick_tree(trees[j]),
        ensures
            list.filter(pick).len() == trees.filter(pick_tree).len(),
            forall|m: int|
                0 <= m < list.filter(pick).len() ==> #[trigger] trees.filter(pick_tree)[m]
                    == self.tree(list.filter(pick)[m]),
        decreases list.len(),
    {
        reveal(Seq::filter);
        if list.len() > 0 {
            let l0 = list.drop_last();
            let t0 = trees.drop_last();
            assert forall|j: int| 0 <= j < l0.len() implies #[trigger] t0[j] == self.tree(l0[j]) by {
                assert(trees[j] == self.tree(list[j]));
            }
            assert forall|j: int| 0 <= j < l0.len() implies pick(#[trigger] l0[j]) == pick_tree(
                t0[j],
            ) by {
                assert(pick(list[j]) == pick_tree(trees[j]));
            }
            self.lemma_filter_trees(l0, t0, pick, pick_tree);
            let last = list.len() - 1;
            assert(pick(list[last]) == pick_tree(trees[last]));
            assert(trees[last] == self.tree(list[last]));
        }
    }
}

impl Dom {
    /// Moves the children of `doc` that are no doctypes, in order, below
    /// the childless node `e`, which stands alone.
    fn gather_under(&mut self, doc: NodeRepr, e: NodeRepr)
        requires
            old(self).wf(),
            old(self)@.has(doc),
            old(self)@.has(e),
            doc != e,
            old(self)@.parent(e) is None,
            old(self)@.children(e).len() == 0,
            old(self)@.kind(e) is Element,
        ensures
            final(self).wf(),
            final(self)@.gathered_from(old(self)@, doc, e),
            !final(self)@.is_ancestor_or_self(e, doc),
            forall|j: int|
                0 <= j < old(self)@.children(doc).len() ==> final(self)@.tree(
                    #[trigger] old(self)@.children(doc)[j],
                ) == old(self)@.tree(old(self)@.children(doc)[j]),
    {
        let ghost v0 = self@;
        let ghost kids = v0.children(doc);
        let ghost dp = v0.doctype_pred();
        let ghost np = v0.not_doctype_pred();
        let total = self.children_of(doc).len();
        let mut d: usize = 0;
        let mut i: usize = 0;
        proof {
            reveal(Seq::filter);
            v0.lemma_ranked();
            assert(kids.take(0) =~= Seq::<NodeRepr>::empty());
            assert(self@.children(doc).take(0) =~= Seq::<NodeRepr>::empty());
            assert(kids.skip(0) =~= kids);
            assert(self@.children(e) =~= Seq::<NodeRepr>::empty());
            assert(!v0.is_ancestor_or_self(e, doc)) by {
                if v0.is_ancestor_or_self(e, doc) {
                    crate::chardata::lemma_leaf_above(v0, e, doc);
                }
            }
        }
        while i < total
            invariant
                v0.wf(),
                v0.kind(e) is Element,
                !self@.is_ancestor_or_self(e, doc),
                self.wf(),
                v0.has(doc),
                v0.has(e),
                doc != e,
                kids == v0.children(doc),
                dp == v0.doctype_pred(),
                np == v0.not_doctype_pred(),
                total == kids.len(),
                i <= total,
                d <= i,
                self@.same_payloads(v0),
                self@.parent(e) is None,
                self@.children(doc).len() == d + (total - i),
                self@.children(doc).take(d as int) == kids.take(i as int).filter(dp),
                self@.children(doc).skip(d as int) == kids.skip(i as int),
                self@.children(e) == kids.take(i as int).filter(np),
                forall|x: NodeRepr|
                    v0.has(x) && x != doc && x != e ==> #[trigger] self@.children(x) == v0.children(x),
                forall|x: NodeRepr|
                    v0.has(x) ==> #[trigger] self@.parent(x) == (if v0.is_gathered(doc, x)
                        && kids.take(i as int).contains(x) {
                        Some(e)
                    } else {
                        v0.parent(x)
                    }),
                forall|j: int|
                    0 <= j < kids.len() ==> self@.tree(#[trigger] kids[j]) == v0.tree(kids[j]),
            decreases total - i,
        {
            let ghost before = self@;
            let c = self.children_of(doc)[d];
            proof {
                before.lemma_ranked();
                assert(before.children(doc).skip(d as int)[0] == c);
                assert(kids.skip(i as int)[0] == kids[i as int]);
                assert(c == kids[i as int]);
                assert(v0.children(doc)[i as int] == c);
                assert(v0.parent(c) == Some(doc));
                assert(before.kind(c) == v0.kind(c)) by {
                    assert(before.data(c) == v0.data(c));
                }
                assert(kids.take(i + 1) =~= kids.take(i as int).push(c));
                kids.take(i as int).lemma_filter_push(c, dp);
                kids.take(i as int).lemma_filter_push(c, np);
                let ghost k0 = kids.take(i as int);
                let ghost k1 = kids.take(i + 1);
                assert(!k0.contains(c)) by {
                    if k0.contains(c) {
                        let w = choose|w: int| 0 <= w < k0.len() && k0[w] == c;
                        assert(kids[w] == c);
                        assert(kids.no_duplicates());
                    }
                }
                assert(before.parent(c) == Some(doc));
                assert forall|x: NodeRepr| kids.take(i + 1).contains(x) <==> (kids.take(
                    i as int,
                ).contains(x) || x == c) by {
                    if k0.contains(x) {
                        let w = choose|w: int| 0 <= w < k0.len() && k0[w] == x;
                        assert(k1[w] == x);
                    }
                    if x == c {
                        assert(k1[i as int] == x);
                    }
                    if k1.contains(x) {
                        let w = choose|w: int| 0 <= w < k1.len() && k1[w] == x;
                        if w < i {
                            assert(k0[w] == x);
                        }
                    }
                }
            }
            if self.kind_of(c) == NodeKind::Doctype {
                proof {
                    assert(before.children(doc).take(d + 1) =~= before.children(doc).take(
                        d as int,
                    ).push(c));
                    assert(before.children(doc).skip(d + 1) =~= kids.skip(i + 1)) by {
                        assert(before.children(doc).skip(d + 1) =~= before.children(doc).skip(
                            d as int,
                        ).skip(1));
                        assert(kids.skip(i + 1) =~= kids.skip(i as int).skip(1));
                    }
                }
                d = d + 1;
            } else {
                proof {
                    before.lemma_detach(c);
                    before.lemma_child_not_above(doc, c);
                    assert(before.position(doc, c) == d) by {
                        assert(before.children(doc)[d as int] == c);
                        assert(before.children(doc).no_duplicates());
                        assert(before.children(doc).contains(c));
                    }
                    let mid = before.detach(c);
                    assert(!mid.is_ancestor_or_self(c, e)) by {
                        mid.lemma_ranked();
                        assert(mid.parent(e) == before.parent(e));
                    }
                    assert(mid.kind(c) == before.kind(c));
                    assert(mid.kind(e) == v0.kind(e)) by {
                        assert(before.data(e) == v0.data(e));
                    }
                    assert(before.kind(c).may_be_child());
                    mid.lemma_insert(e, mid.children(e).len() as int, c);
                    before.lemma_detach_keeps_chain(c, e, doc);
                    before.lemma_detach_keeps_chain(c, c, doc);
                    mid.lemma_insert_keeps_chain(e, mid.children(e).len() as int, c, e, doc);
                    assert forall|j: int| 0 <= j < kids.len() implies mid.insert(
                        e,
                        mid.children(e).len() as int,
                        c,
                    ).tree(#[trigger] kids[j]) == v0.tree(kids[j]) by {
                        let r = kids[j];
                        assert(v0.children(doc)[j] == r);
                        assert(v0.parent(r) == Some(doc));
                        assert(before.parent(r) == Some(doc) || before.parent(r) == Some(e));
                        if before.parent(r) == Some(doc) {
                            before.lemma_child_not_above(doc, r);
                        } else {
                            before.lemma_child_not_above(e, r);
                            assert(!before.is_ancestor_or_self(r, doc)) by {
                                if before.is_ancestor_or_self(r, doc) {
                                    before.lemma_parent_is_ancestor(r);
                                    before.lemma_ancestor_trans(e, r, doc);
                                }
                            }
                        }
                        before.lemma_detach_keeps_tree(c, r);
                        mid.lemma_ranked();
                        assert(!mid.is_ancestor_or_self(r, e)) by {
                            assert(mid.parent(e) is None);
                        }
                        mid.lemma_insert_keeps_tree(e, mid.children(e).len() as int, c, r);
                    }
                }
                self.detach(c);
                let end = self.children_of(e).len();
                self.insert(e, end, c);
                proof {
                    let after = self@;
                    let mid = before.detach(c);
                    assert(after.children(doc) =~= before.children(doc).remove(d as int));
                    assert(after.children(doc).take(d as int) =~= before.children(doc).take(d as int));
                    assert(after.children(doc).skip(d as int) =~= kids.skip(i + 1)) by {
                        assert(before.children(doc).remove(d as int).skip(d as int)
                            =~= before.children(doc).skip(d as int).skip(1));
                        assert(kids.skip(i + 1) =~= kids.skip(i as int).skip(1));
                    }
                    assert(after.children(e) =~= before.children(e).push(c));
                    assert(after.same_payloads(v0)) by {
                        assert forall|x: NodeRepr| after.has(x) implies #[trigger] after.data(x)
                            == v0.data(x) by {
                            assert(mid.data(x) == before.data(x));
                            assert(before.data(x) == v0.data(x));
                        }
                    }
                    assert forall|x: NodeRepr|
                        v0.has(x) && x != doc && x != e implies #[trigger] after.children(x)
                        == v0.children(x) by {
                        assert(mid.children(x) == before.children(x));
                        assert(before.children(x) == v0.children(x));
                    }
                    assert forall|x: NodeRepr| v0.has(x) implies #[trigger] after.parent(x) == (
                    if v0.is_gathered(doc, x) && kids.take(i + 1).contains(x) {
                        Some(e)
                    } else {
                        v0.parent(x)
                    }) by {
                        if x != c {
                            assert(mid.parent(x) == before.parent(x));
                        }
                    }
                }
            }
            i = i + 1;
        }
        proof {
            let fin = self@;
            assert(kids.take(total as int) =~= kids);
            assert(fin.children(doc).take(d as int) =~= fin.children(doc));
            assert forall|x: NodeRepr| v0.has(x) implies #[trigger] fin.parent(x) == (
            if v0.is_gathered(doc, x) {
                Some(e)
            } else {
                v0.parent(x)
            }) by {
                if v0.is_gathered(doc, x) {
                    assert(v0.children(doc).contains(x));
                }
            }
        }
    }
}

impl DomView {
    /// Whether the document `doc` lacks an `html` element among its
    /// children.
    pub open spec fn lacks_html(self, doc: NodeRepr) -> bool {
        self.kind(doc) is Document && self.child_named(doc, "html"@) is None
    }

    /// This arena is `old` after the document `doc`, which had no `html`
    /// element, has got one: a new element after its doctypes, below
    /// which the other children of `doc` stand, in order.
    pub open spec fn has_new_html_root(self, old: DomView, doc: NodeRepr) -> bool {
        let e = NodeRepr(old.nodes.len() as usize);
        &&& self.nodes.len() == old.nodes.len() + 1
        &&& self.node(e) == (crate::model::NodeView {
            parent: Some(doc),
            children: old.children(doc).filter(old.not_doctype_pred()),
            data: html_element("html"@),
            template_contents: None,
        })
        &&& self.children(doc) == old.children(doc).filter(old.doctype_pred()).push(e)
        &&& self.parent(doc) == old.parent(doc)
        &&& forall|x: NodeRepr|
            old.has(x) ==> #[trigger] self.data(x) == old.data(x) && self.template_contents(x)
                == old.template_contents(x)
        &&& forall|x: NodeRepr| old.has(x) && x != doc ==> #[trigger] self.children(x) == old.children(x)
        &&& forall|x: NodeRepr|
            old.has(x) ==> #[trigger] self.parent(x) == (if old.is_gathered(doc, x) {
                Some(e)
            } else {
                old.parent(x)
            })
    }
}

impl Dom {
    /// Gives the document `doc` an `html` element if it has none: a new
    /// element in the HTML namespace, which comes after the doctypes of
    /// the document and takes its other children below it, in order.
    /// Any other node, and a document with an `html` element, stays as
    /// it is.
    pub fn ensure_html_root(&mut self, doc: NodeRepr)
        requires
            old(self).wf(),
            old(self)@.has(doc),
        ensures
            final(self).wf(),
            final(self)@.tree(doc) == with_html_root(old(self)@.tree(doc)),
            !old(self)@.lacks_html(doc) ==> final(self)@ == old(self)@,
            old(self)@.lacks_html(doc) ==> final(self)@.has_new_html_root(old(self)@, doc),
    {
        let ghost v0 = self@;
        proof {
            v0.lemma_ranked();
            v0.lemma_child_named_tree(doc, "html"@);
            assert(v0.tree(doc).data == v0.data(doc));
        }
        if self.kind_of(doc) != NodeKind::Document {
            return ;
        }
        if self.child_named(doc, "html").is_some() {
            return ;
        }
        let e = self.create(new_html_element(String::from_str("html")));
        let ghost v1 = self@;
        proof {
            v1.lemma_ranked();
            assert(v1.node(doc) == v0.node(doc));
            assert(v1.children(e) =~= Seq::<NodeRepr>::empty());
        }
        self.gather_under(doc, e);
        let ghost v2 = self@;
        let end = self.children_of(doc).len();
        proof {
            v2.lemma_ranked();
            assert(v2.parent(e) == v1.parent(e));
            assert(v2.kind(doc) == v1.kind(doc)) by {
                assert(v2.data(doc) == v1.data(doc));
            }
            assert(v2.kind(e) == v1.kind(e)) by {
                assert(v2.data(e) == v1.data(e));
            }
            v2.lemma_insert(doc, end as int, e);
        }
        self.insert(doc, end, e);
        proof {
            let v3 = self@;
            let kids = v0.children(doc);
            let trees = v0.tree(doc).children;
            let dp = v0.doctype_pred();
            let np = v0.not_doctype_pred();
            broadcast use vstd::seq_lib::group_filter_ensures;
            v0.lemma_tree_children(doc);
            v2.lemma_tree_children(e);
            v3.lemma_tree_children(doc);
            assert(v1.children(doc) == kids);
            assert forall|j: int| 0 <= j < kids.len() implies v1.doctype_pred()(#[trigger] kids[j])
                == dp(kids[j]) && v1.not_doctype_pred()(kids[j]) == np(kids[j]) by {
                assert(v0.has(v0.children(doc)[j]));
                assert(v1.node(kids[j]) == v0.node(kids[j]));
            }
            lemma_filter_agree(kids, v1.doctype_pred(), dp);
            lemma_filter_agree(kids, v1.not_doctype_pred(), np);
            let docs = kids.filter(dp);
            let rest = kids.filter(np);
            assert(v2.children(doc) == docs);
            assert(v2.children(e) == rest);
            assert(v3.children(doc) =~= docs.push(e));
            assert(v3.children(e) == rest);
            assert forall|x: NodeRepr| v0.has(x) implies #[trigger] v3.data(x) == v0.data(x)
                && v3.template_contents(x) == v0.template_contents(x) by {
                assert(v1.node(x) == v0.node(x));
                assert(v2.data(x) == v1.data(x));
                assert(v3.data(x) == v2.data(x));
                assert(v2.template_contents(x) == v1.template_contents(x));
                assert(v3.template_contents(x) == v2.template_contents(x));
            }
            assert(v3.data(e) == html_element("html"@)) by {
                assert(v2.data(e) == v1.data(e));
                assert(v3.data(e) == v2.data(e));
            }
            assert forall|x: NodeRepr| v0.has(x) && x != doc implies #[trigger] v3.children(x)
                == v0.children(x) by {
                assert(v1.node(x) == v0.node(x));
                assert(v2.children(x) == v1.children(x));
            }
            assert forall|x: NodeRepr| v0.has(x) implies #[trigger] v3.parent(x) == (
            if v0.is_gathered(doc, x) {
                Some(e)
            } else {
                v0.parent(x)
            }) by {
                assert(v1.node(x) == v0.node(x));
                assert(v3.parent(x) == v2.parent(x));
            }
            assert(v3.has_new_html_root(v0, doc));
            assert forall|j: int| 0 <= j < kids.len() implies #[trigger] trees[j] == v0.tree(
                kids[j],
            ) && dp(kids[j]) == is_doctype_tree()(trees[j]) && np(kids[j]) == not_doctype_tree()(
                trees[j],
            ) by {
                assert(v0.tree(kids[j]).data == v0.data(kids[j]));
            }
            v0.lemma_filter_trees(kids, trees, dp, is_doctype_tree());
            v0.lemma_filter_trees(kids, trees, np, not_doctype_tree());
            let doc_trees = trees.filter(is_doctype_tree());
            let rest_trees = trees.filter(not_doctype_tree());
            assert forall|m: int| 0 <= m < rest.len() implies v2.tree(e).children[m]
                == rest_trees[m] by {
                let c = rest[m];
                kids.lemma_filter_contains_rev(np, c);
                let j = choose|j: int| 0 <= j < kids.len() && kids[j] == c;
                assert(v0.children(doc)[j] == c);
                assert(v2.tree(kids[j]) == v1.tree(kids[j]));
                v1.lemma_extends_keeps_tree(v0, c);
                assert(v2.tree(e).children[m] == v2.tree(c));
            }
            assert(v2.tree(e).children =~= rest_trees);
            assert(v2.tree(e).data == html_element("html"@));
            v2.lemma_insert_keeps_tree(doc, end as int, e, e);
            let top = DomTree { data: html_element("html"@), children: rest_trees };
            assert(v3.tree(e) == top);
            assert forall|m: int| 0 <= m < docs.len() + 1 implies v3.tree(doc).children[m]
                == doc_trees.push(top)[m] by {
                if m < docs.len() {
                    let c = docs[m];
                    kids.lemma_filter_contains_rev(dp, c);
                    let j = choose|j: int| 0 <= j < kids.len() && kids[j] == c;
                    assert(v0.children(doc)[j] == c);
                    assert(v2.tree(kids[j]) == v1.tree(kids[j]));
                    v1.lemma_extends_keeps_tree(v0, c);
                    assert(v2.children(doc)[m] == c);
                    assert(v2.parent(c) == Some(doc));
                    v2.lemma_child_not_above(doc, c);
                    v2.lemma_insert_keeps_tree(doc, end as int, e, c);
                    assert(v3.children(doc)[m] == c);
                    assert(v3.tree(doc).children[m] == v3.tree(c));
                } else {
                    assert(v3.children(doc)[m] == e);
                    assert(v3.tree(doc).children[m] == v3.tree(e));
                }
            }
            assert(v3.tree(doc).children =~= doc_trees.push(top));
            assert(v3.tree(doc).data == v0.tree(doc).data);
        }
    }

    /// Parses a text as an HTML document into this arena, beside what is
    /// in it, and hands back the document node. The document has an
    /// `html` element at its top. What the parser keeps as the contents
    /// of a `template` element stands in the arena as a tree of its own,
    /// which that element has as its template contents.
    pub fn parse_into(&mut self, html: &str) -> (res: Result<NodeRepr, DomError>)
        requires
            old(self).wf(),
        ensures
            final(self).wf(),
            final(self)@.extends(old(self)@),
            res is Ok <==> readable(html@),
            res is Err ==> res == Err::<NodeRepr, DomError>(DomError::Internal),
            res is Ok ==> {
                &&& final(self)@.has(res->Ok_0)
                &&& !old(self)@.has(res->Ok_0)
                &&& final(self)@.parent(res->Ok_0) is None
                &&& final(self)@.tree(res->Ok_0) == with_html_root(parsed_document(html@))
                &&& final(self)@.is_html_document(res->Ok_0)
            },
            final(self)@.new_contents_stand_alone(old(self)@),
    {
        let ghost v0 = self@;
        let doc = match self.parse_tree(html) {
            Ok(doc) => doc,
            Err(e) => {
                return Err(e);
            },
        };
        let ghost v1 = self@;
        self.ensure_html_root(doc);
        proof {
            let v2 = self@;
            v0.lemma_ranked();
            if v1.lacks_html(doc) {
                assert forall|x: NodeRepr| v0.has(x) implies #[trigger] v2.node(x) == v0.node(x) by {
                    assert(v1.node(x) == v0.node(x));
                    assert(x != doc);
                    assert(!v1.is_gathered(doc, x)) by {
                        if v1.parent(x) == Some(doc) {
                            assert(v0.parent(x) == Some(doc));
                        }
                    }
                    assert(v2.data(x) == v1.data(x));
                    assert(v2.children(x) == v1.children(x));
                    assert(v2.parent(x) == v1.parent(x));
                }
                assert(!v1.is_gathered(doc, doc));
            }
            assert forall|x: NodeRepr|
                v2.has(x) && !v0.has(x) && (#[trigger] v2.template_contents(x)) is Some implies v2.has(
                v2.template_contents(x)->0,
            ) && !v0.has(v2.template_contents(x)->0) && v2.parent(v2.template_contents(x)->0) is None by {
                if v1.lacks_html(doc) {
                    assert(v2.has_new_html_root(v1, doc));
                    if v1.has(x) {
                        assert(v2.data(x) == v1.data(x));
                        assert(v1.template_contents(x) == v2.template_contents(x));
                        let c = v1.template_contents(x)->0;
                        assert(v1.has(c));
                        assert(v1.parent(c) is None);
                        assert(!v1.is_gathered(doc, c));
                        assert(v2.parent(c) == v1.parent(c));
                    } else {
                        assert(x == NodeRepr(v1.nodes.len() as usize));
                    }
                }
            }
            assert(v1.tree(doc).data == v1.data(doc));
            lemma_html_root_is_there(parsed_document(html@));
            v2.lemma_child_named_tree(doc, "html"@);
            assert(v2.tree(doc).data == v2.data(doc));
        }
        Ok(doc)
    }

    /// Parses a text as an HTML document into a new arena, and hands
    /// back the arena and its document node. The document has an `html`
    /// element at its top.
    pub fn parse_document(html: &str) -> (res: Result<(Dom, NodeRepr), DomError>)
        ensures
            res is Ok <==> readable(html@),
            res is Err ==> res->Err_0 == DomError::Internal,
            res is Ok ==> {
                let (dom, doc) = res->Ok_0;
                &&& dom.wf()
                &&& dom@.has(doc)
                &&& dom@.parent(doc) is None
                &&& dom@.tree(doc) == with_html_root(parsed_document(html@))
                &&& dom@.is_html_document(doc)
                &&& dom@.contents_stand_alone()
            },
    {
        let mut dom = Dom::new();
        let ghost v0 = dom@;
        match dom.parse_into(html) {
            Ok(doc) => {
                assert forall|x: NodeRepr|
                    dom@.has(x) && (#[trigger] dom@.template_contents(x)) is Some implies dom@.has(
                    dom@.template_contents(x)->0,
                ) && dom@.parent(dom@.template_contents(x)->0) is None by {
                    assert(!v0.has(x));
                }
                Ok((dom, doc))
            },
            Err(e) => Err(e),
        }
    }
}

/// Two tests that agree on every entry of a list pick the same entries.
pub proof fn lemma_filter_agree(
    list: Seq<NodeRepr>,
    p: spec_fn(NodeRepr) -> bool,
    q: spec_fn(NodeRepr) -> bool,
)
    requires
        forall|j: int| 0 <= j < list.len() ==> p(#[trigger] list[j]) == q(list[j]),
    ensures
        list.filter(p) == list.filter(q),
    decreases list.len(),
{
    reveal(Seq::filter);
    if list.len() > 0 {
        let l0 = list.drop_last();
        assert forall|j: int| 0 <= j < l0.len() implies p(#[trigger] l0[j]) == q(l0[j]) by {
            assert(p(list[j]) == q(list[j]));
        }
        lemma_filter_agree(l0, p, q);
        assert(p(list[list.len() - 1]) == q(list[list.len() - 1]));
    }
}

/// Parses a text as an HTML document into a new arena, and hands back the
/// arena and its document node. The document has an `html` element at
/// its top: a parsed document that has none gets one, below which all
/// that it held besides its doctypes goes. What the parser keeps as the
/// contents of a `template` element stands in the arena as a tree of its
/// own, which that element has as its template contents.
pub fn parse(html: String) -> (res: Result<(Dom, NodeRepr), DomError>)
    ensures
        res is Ok <==> readable(html@),
        res is Err ==> res->Err_0 == DomError::Internal,
        res is Ok ==> {
            let (dom, doc) = res->Ok_0;
            &&& dom.wf()
            &&& dom@.has(doc)
            &&& dom@.parent(doc) is None
            &&& dom@.tree(doc) == with_html_root(parsed_document(html@))
            &&& dom@.is_html_document(doc)
            &&& dom@.contents_stand_alone()
        },
{
    Dom::parse_document(html.as_str())
}

} // verus!
