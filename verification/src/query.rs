//! Finding nodes: by id, tag name and class, and by the small selector
//! language.
//!
//! A selector is a list of simple selectors separated by white space.
//! A simple selector is `#id`, `.class` or a tag name; `*` stands for
//! any tag.

use vstd::prelude::*;
use vstd::string::StringExecFns;
use crate::node::NodeKind;
use crate::node::NodeData;
use crate::node::NodeDataView;
use crate::model::NodeRepr;
use crate::model::DomView;
use crate::dom::Dom;
use crate::text::chars_of;
use crate::text::string_of;
use crate::text::upper;
use crate::text::to_upper;
use crate::text::tokens;
use crate::text::tokens_of;
use crate::text::words_view;
use crate::text::slice_chars;
use crate::text::same_text;
use crate::attrs::same_chars;
use crate::attrs::has_word;

verus! {

/// What a simple selector asks of a node.
pub enum Criterion {
    /// The node is an element.
    AnyElement,
    /// The node is an element whose local name, in upper case, is this.
    Tag(Vec<char>),
    /// The node is an element whose `id` attribute is this.
    Id(Vec<char>),
    /// The node is an element whose class list holds all of these.
    Classes(Vec<Vec<char>>),
}

/// The mathematical value of a [`Criterion`].
pub enum CriterionView {
    AnyElement,
    Tag(Seq<char>),
    Id(Seq<char>),
    Classes(Seq<Seq<char>>),
}

impl View for Criterion {
    type V = CriterionView;

    open spec fn view(&self) -> CriterionView {
        match *self {
            Criterion::AnyElement => CriterionView::AnyElement,
            Criterion::Tag(t) => CriterionView::Tag(t@),
            Criterion::Id(i) => CriterionView::Id(i@),
            Criterion::Classes(c) => CriterionView::Classes(words_view(c@)),
        }
    }
}

/// Whether a payload is that of an element with the local name `name`.
pub open spec fn is_named(d: NodeDataView, name: Seq<char>) -> bool {
    d is Element && local_name_of(d) == name
}

/// The local name of an element payload; empty for any other payload.
pub open spec fn local_name_of(d: NodeDataView) -> Seq<char> {
    match d {
        NodeDataView::Element { qname, .. } => qname.local,
        _ => Seq::empty(),
    }
}

/// Whether every one of the `wanted` tokens is among those that are there.
pub open spec fn holds_all(there: Seq<Seq<char>>, wanted: Seq<Seq<char>>) -> bool {
    forall|k: int| 0 <= k < wanted.len() ==> there.contains(#[trigger] wanted[k])
}

impl CriterionView {
    /// Whether the node `n` is what the criterion asks for.
    pub open spec fn holds(self, v: DomView, n: NodeRepr) -> bool {
        v.is_element(n) && match self {
            CriterionView::AnyElement => true,
            CriterionView::Tag(t) => upper(local_name_of(v.data(n))) == t,
            CriterionView::Id(i) => v.attribute(n, "id"@) == Some(i),
            CriterionView::Classes(c) => holds_all(v.class_tokens(n), c),
        }
    }

    /// The test "is what the criterion asks for", as a value.
    pub open spec fn pred(self, v: DomView) -> spec_fn(NodeRepr) -> bool {
        |n: NodeRepr| self.holds(v, n)
    }
}

/// What a tag name asks for: `*` any element, any other name the
/// elements of that name, letter case apart.
pub open spec fn tag_criterion(name: Seq<char>) -> CriterionView {
    if name == seq!['*'] {
        CriterionView::AnyElement
    } else {
        CriterionView::Tag(upper(name))
    }
}

/// What a simple selector asks for.
pub open spec fn simple_selector(token: Seq<char>) -> CriterionView {
    if token.len() > 0 && token[0] == '#' {
        CriterionView::Id(token.skip(1))
    } else if token.len() > 0 && token[0] == '.' {
        CriterionView::Classes(seq![token.skip(1)])
    } else {
        tag_criterion(token)
    }
}

/// The simple selectors of a selector, in order.
pub open spec fn selector_chain(selectors: Seq<char>) -> Seq<CriterionView> {
    Seq::new(tokens(selectors).len(), |i: int| simple_selector(tokens(selectors)[i]))
}

/// The views of a list of criteria.
pub open spec fn chain_view(chain: Seq<Criterion>) -> Seq<CriterionView> {
    Seq::new(chain.len(), |i: int| chain[i]@)
}

impl DomView {
    /// The texts of the text nodes in a list of nodes, one after the
    /// other.
    pub open spec fn texts_of(self, list: Seq<NodeRepr>) -> Seq<char>
        decreases list.len(),
    {
        if list.len() == 0 {
            Seq::empty()
        } else if self.kind(list.last()) is Text {
            self.texts_of(list.drop_last()) + self.text_data(list.last())
        } else {
            self.texts_of(list.drop_last())
        }
    }

    /// The text of `n`: the data of every text node at or below `n`, in
    /// tree order.
    pub open spec fn text_content(self, n: NodeRepr) -> Seq<char> {
        self.texts_of(self.subtree(n))
    }

    /// The nodes below `n` that are what the criterion asks for, in tree
    /// order.
    pub open spec fn matching(self, n: NodeRepr, c: CriterionView) -> Seq<NodeRepr> {
        self.descendants(n).filter(c.pred(self))
    }

    /// Whether the first `k` selectors of the chain are met above `n`:
    /// on the way up from `n`, each ancestor that meets the last selector
    /// still open closes it.
    pub open spec fn met_above(self, n: NodeRepr, chain: Seq<CriterionView>, k: int) -> bool
        decreases self.up(n),
        when self.wf() && self.has(n)
    {
        if k <= 0 {
            true
        } else if self.parent(n) is Some {
            if chain[k - 1].holds(self, self.parent(n)->0) {
                self.met_above(self.parent(n)->0, chain, k - 1)
            } else {
                self.met_above(self.parent(n)->0, chain, k)
            }
        } else {
            false
        }
    }

    /// Whether `n` matches the chain: it meets the last selector, and the
    /// selectors before are met above it, in their order.
    pub open spec fn matches_chain(self, n: NodeRepr, chain: Seq<CriterionView>) -> bool {
        chain.len() > 0 && chain.last().holds(self, n) && self.met_above(n, chain, chain.len() - 1)
    }

    /// The nearest of `n` and its ancestors that matches the chain.
    pub open spec fn closest(self, n: NodeRepr, chain: Seq<CriterionView>) -> Option<NodeRepr>
        decreases self.up(n),
        when self.wf() && self.has(n)
    {
        if self.matches_chain(n, chain) {
            Some(n)
        } else if self.parent(n) is Some {
            self.closest(self.parent(n)->0, chain)
        } else {
            None
        }
    }

    /// The position of the first child of `n` from `k` on that is an
    /// element with the local name `name`; the number of children when
    /// there is none.
    pub open spec fn named_from(self, n: NodeRepr, name: Seq<char>, k: int) -> int
        decreases self.children(n).len() - k,
    {
        if k < 0 || k >= self.children(n).len() {
            self.children(n).len() as int
        } else if is_named(self.data(self.children(n)[k]), name) {
            k
        } else {
            self.named_from(n, name, k + 1)
        }
    }

    /// The first child of `n` that is an element with the local name
    /// `name`.
    pub open spec fn child_named(self, n: NodeRepr, name: Seq<char>) -> Option<NodeRepr> {
        if self.named_from(n, name, 0) < self.children(n).len() {
            Some(self.children(n)[self.named_from(n, name, 0)])
        } else {
            None
        }
    }

    /// The test "is a doctype", as a value.
    pub open spec fn doctype_pred(self) -> spec_fn(NodeRepr) -> bool {
        |c: NodeRepr| self.kind(c) is Doctype
    }

    /// The first element among the children of the document `n`.
    pub open spec fn document_element(self, n: NodeRepr) -> Option<NodeRepr> {
        if self.kind(n) is Document {
            DomView::first_of(self.element_children(n))
        } else {
            None
        }
    }

    /// The first doctype among the children of the document `n`.
    pub open spec fn doctype(self, n: NodeRepr) -> Option<NodeRepr> {
        if self.kind(n) is Document {
            DomView::first_of(self.children(n).filter(self.doctype_pred()))
        } else {
            None
        }
    }

    /// The first child named `name` of the first `html` child of the
    /// document `n`.
    pub open spec fn landmark(self, n: NodeRepr, name: Seq<char>) -> Option<NodeRepr> {
        if self.kind(n) is Document && self.child_named(n, "html"@) is Some {
            self.child_named(self.child_named(n, "html"@)->0, name)
        } else {
            None
        }
    }

    /// The text of the first `title` element below the head of the
    /// document `n`; empty when there is none.
    pub open spec fn title(self, n: NodeRepr) -> Seq<char> {
        if self.landmark(n, "head"@) is Some {
            let found = self.matching(self.landmark(n, "head"@)->0, tag_criterion("title"@));
            if found.len() > 0 {
                self.text_content(found[0])
            } else {
                Seq::empty()
            }
        } else {
            Seq::empty()
        }
    }

    /// What a selector finds below `n`. A selector that begins with `#`
    /// is looked up as an id, which finds the first element with that id
    /// and no other; one that begins with `.` finds the elements of that
    /// class; `body>*` the element children of the body of the document
    /// `n`; any other the elements of that tag name.
    pub open spec fn query(self, n: NodeRepr, selectors: Seq<char>) -> Seq<NodeRepr> {
        if selectors.len() > 0 && selectors[0] == '#' {
            let all = self.matching(n, CriterionView::Id(selectors.skip(1)));
            if all.len() > 0 {
                seq![all[0]]
            } else {
                Seq::empty()
            }
        } else if selectors.len() > 0 && selectors[0] == '.' {
            self.matching(n, CriterionView::Classes(tokens(selectors.skip(1))))
        } else if selectors == "body>*"@ {
            if self.landmark(n, "body"@) is Some {
                self.element_children(self.landmark(n, "body"@)->0)
            } else {
                Seq::empty()
            }
        } else {
            self.matching(n, tag_criterion(selectors))
        }
    }
}

/// What a tag name asks for.
pub fn tag_criterion_of(name: &str) -> (c: Criterion)
    ensures
        c@ == tag_criterion(name@),
{
    let v = chars_of(name);
    if v.len() == 1 && v[0] == '*' {
        assert(v@ =~= seq!['*']);
        Criterion::AnyElement
    } else {
        let up = to_upper(name);
        Criterion::Tag(chars_of(up.as_str()))
    }
}

/// What a simple selector, given by its characters, asks for.
pub fn simple_selector_of(token: &Vec<char>) -> (c: Criterion)
    ensures
        c@ == simple_selector(token@),
{
    if token.len() > 0 && token[0] == '#' {
        let rest = slice_chars(token, 1, token.len());
        assert(rest@ =~= token@.skip(1));
        Criterion::Id(rest)
    } else if token.len() > 0 && token[0] == '.' {
        let rest = slice_chars(token, 1, token.len());
        assert(rest@ =~= token@.skip(1));
        let mut list: Vec<Vec<char>> = Vec::new();
        list.push(rest);
        assert(words_view(list@) =~= seq![token@.skip(1)]);
        Criterion::Classes(list)
    } else {
        let text = string_of(token);
        tag_criterion_of(text.as_str())
    }
}

/// The simple selectors of a selector, in order.
pub fn selector_chain_of(selectors: &str) -> (chain: Vec<Criterion>)
    ensures
        chain_view(chain@) == selector_chain(selectors@),
{
    let words = tokens_of(selectors);
    let mut chain: Vec<Criterion> = Vec::new();
    let mut i: usize = 0;
    while i < words.len()
        invariant
            i <= words.len(),
            words_view(words@) == tokens(selectors@),
            chain.len() == i,
            forall|j: int| 0 <= j < i ==> chain[j]@ == simple_selector(tokens(selectors@)[j]),
        decreases words.len() - i,
    {
        assert(words_view(words@)[i as int] == words@[i as int]@);
        chain.push(simple_selector_of(&words[i]));
        i = i + 1;
    }
    assert(words_view(words@).len() == words@.len());
    assert(chain_view(chain@) =~= selector_chain(selectors@));
    chain
}

impl Dom {
    /// Whether the node `n` is what the criterion asks for.
    pub fn holds(&self, n: NodeRepr, c: &Criterion) -> (b: bool)
        requires
            self@.has(n),
        ensures
            b == c@.holds(self@, n),
    {
        match self.data_of(n) {
            NodeData::Element { qname, .. } => {
                match c {
                    Criterion::AnyElement => true,
                    Criterion::Tag(t) => {
                        let up = to_upper(qname.local.as_str());
                        let upv = chars_of(up.as_str());
                        same_chars(&upv, t)
                    },
                    Criterion::Id(i) => {
                        match self.attribute_of(n, "id") {
                            Some(value) => {
                                let vv = chars_of(value.as_str());
                                same_chars(&vv, i)
                            },
                            None => false,
                        }
                    },
                    Criterion::Classes(list) => {
                        let text = self.attribute_text_of(n, "class");
                        let have = tokens_of(text.as_str());
                        let mut k: usize = 0;
                        while k < list.len()
                            invariant
                                k <= list.len(),
                                self@.is_element(n),
                                c@ == CriterionView::Classes(words_view(list@)),
                                words_view(have@) == self@.class_tokens(n),
                                forall|j: int|
                                    0 <= j < k ==> self@.class_tokens(n).contains(
                                        #[trigger] words_view(list@)[j],
                                    ),
                            decreases list.len() - k,
                        {
                            assert(words_view(list@)[k as int] == list@[k as int]@);
                            if !has_word(&have, &list[k]) {
                                let ghost cs = words_view(list@);
                                assert(cs.len() == list@.len());
                                assert(0 <= k < cs.len() && !self@.class_tokens(n).contains(cs[k as int]));
                                return false;
                            }
                            k = k + 1;
                        }
                        true
                    },
                }
            },
            _ => false,
        }
    }

    /// The nodes of `list` that are what the criterion asks for, in
    /// order.
    pub(crate) fn select_from(&self, list: &Vec<NodeRepr>, c: &Criterion) -> (res: Vec<NodeRepr>)
        requires
            forall|i: int| 0 <= i < list.len() ==> self@.has(#[trigger] list[i]),
        ensures
            res@ == list@.filter(c@.pred(self@)),
    {
        let mut res: Vec<NodeRepr> = Vec::new();
        let mut i: usize = 0;
        proof {
            reveal(Seq::filter);
            assert(list@.take(0) =~= Seq::<NodeRepr>::empty());
        }
        while i < list.len()
            invariant
                i <= list.len(),
                forall|i: int| 0 <= i < list.len() ==> self@.has(#[trigger] list[i]),
                res@ == list@.take(i as int).filter(c@.pred(self@)),
            decreases list.len() - i,
        {
            let n = list[i];
            proof {
                assert(list@.take(i + 1) =~= list@.take(i as int).push(n));
                list@.take(i as int).lemma_filter_push(n, c@.pred(self@));
            }
            if self.holds(n, c) {
                res.push(n);
            }
            i = i + 1;
        }
        assert(list@.take(list.len() as int) =~= list@);
        res
    }

    /// The nodes below `n` that are what the criterion asks for, in tree
    /// order.
    pub fn matching(&self, n: NodeRepr, c: &Criterion) -> (res: Vec<NodeRepr>)
        requires
            self.wf(),
            self@.has(n),
        ensures
            res@ == self@.matching(n, c@),
            forall|i: int| 0 <= i < res.len() ==> self@.has(#[trigger] res[i]),
    {
        let all = self.descendants_of(n);
        let res = self.select_from(&all, c);
        proof {
            broadcast use vstd::seq_lib::group_filter_ensures;
            assert forall|i: int| 0 <= i < res.len() implies self@.has(#[trigger] res[i]) by {
                all@.lemma_filter_contains_rev(c@.pred(self@), res@[i]);
            }
        }
        res
    }

    /// The texts of the text nodes in `list`, one after the other.
    pub(crate) fn texts_in(&self, list: &Vec<NodeRepr>) -> (s: String)
        requires
            forall|j: int| 0 <= j < list.len() ==> self@.has(#[trigger] list[j]),
        ensures
            s@ == self@.texts_of(list@),
    {
        let mut out = String::new();
        let mut i: usize = 0;
        assert(list@.take(0) =~= Seq::<NodeRepr>::empty());
        while i < list.len()
            invariant
                i <= list.len(),
                forall|j: int| 0 <= j < list.len() ==> self@.has(#[trigger] list[j]),
                out@ == self@.texts_of(list@.take(i as int)),
            decreases list.len() - i,
        {
            let m = list[i];
            let ghost t = list@.take(i + 1);
            proof {
                assert(t.drop_last() =~= list@.take(i as int));
                assert(t.last() == m);
                assert(t.len() > 0);
            }
            if self.kind_of(m) == NodeKind::Text {
                match self.text_of(m) {
                    Some(contents) => {
                        out.append(contents.as_str());
                    },
                    None => {},
                }
                assert(out@ == self@.texts_of(t));
            } else {
                assert(out@ == self@.texts_of(t));
            }
            i = i + 1;
        }
        assert(list@.take(list.len() as int) =~= list@);
        out
    }

    /// The text of `n`: the data of every text node at or below `n`, in
    /// tree order.
    pub fn text_content_of(&self, n: NodeRepr) -> (s: String)
        requires
            self.wf(),
            self@.has(n),
        ensures
            s@ == self@.text_content(n),
    {
        let mut order: Vec<NodeRepr> = Vec::new();
        order.push(n);
        self.collect_descendants(n, &mut order);
        proof {
            self@.lemma_descendants_below(n, 0);
            assert(order@ =~= self@.subtree(n));
            assert forall|j: int| 0 <= j < order.len() implies self@.has(#[trigger] order[j]) by {
                if j > 0 {
                    assert(order[j] == self@.descendants_from(n, 0)[j - 1]);
                }
            }
        }
        self.texts_in(&order)
    }

    /// The first child of `n` that is an element with the local name
    /// `name`.
    pub fn child_named(&self, n: NodeRepr, name: &str) -> (res: Option<NodeRepr>)
        requires
            self.wf(),
            self@.has(n),
        ensures
            res == self@.child_named(n, name@),
            res is Some ==> self@.has(res->0) && self@.parent(res->0) == Some(n),
    {
        let kids = self.children_of(n);
        let mut i: usize = 0;
        proof {
            self@.lemma_ranked();
        }
        while i < kids.len()
            invariant
                self.wf(),
                self@.has(n),
                kids@ == self@.children(n),
                i <= kids.len(),
                self@.named_from(n, name@, 0) == self@.named_from(n, name@, i as int),
            decreases kids.len() - i,
        {
            let c = kids[i];
            proof {
                self@.lemma_child_is_lower(n, i as int);
            }
            let hit = match self.data_of(c) {
                NodeData::Element { qname, .. } => same_text(qname.local.as_str(), name),
                _ => false,
            };
            if hit {
                return Some(c);
            }
            i = i + 1;
        }
        None
    }
}

impl Dom {
    /// Whether the first `k` selectors of the chain are met above `n`.
    pub(crate) fn met_above(&self, n: NodeRepr, chain: &Vec<Criterion>, k: usize) -> (b: bool)
        requires
            self.wf(),
            self@.has(n),
            k <= chain.len(),
        ensures
            b == self@.met_above(n, chain_view(chain@), k as int),
    {
        let mut cur = n;
        let mut open = k;
        loop
            invariant
                self.wf(),
                self@.has(cur),
                open <= chain.len(),
                self@.met_above(n, chain_view(chain@), k as int) == self@.met_above(
                    cur,
                    chain_view(chain@),
                    open as int,
                ),
            decreases self@.up(cur),
        {
            proof {
                self@.lemma_ranked();
            }
            if open == 0 {
                return true;
            }
            match self.parent_of(cur) {
                None => {
                    return false;
                },
                Some(p) => {
                    assert(chain_view(chain@)[open - 1] == chain@[open - 1]@);
                    if self.holds(p, &chain[open - 1]) {
                        open = open - 1;
                    }
                    cur = p;
                },
            }
        }
    }

    /// Whether `n` matches the chain.
    pub fn matches_chain(&self, n: NodeRepr, chain: &Vec<Criterion>) -> (b: bool)
        requires
            self.wf(),
            self@.has(n),
        ensures
            b == self@.matches_chain(n, chain_view(chain@)),
    {
        if chain.len() == 0 {
            return false;
        }
        let last = chain.len() - 1;
        assert(chain_view(chain@).last() == chain@[last as int]@);
        self.holds(n, &chain[last]) && self.met_above(n, chain, last)
    }

    /// What a selector finds below `n`.
    pub fn query(&self, n: NodeRepr, selectors: &str) -> (res: Vec<NodeRepr>)
        requires
            self.wf(),
            self@.has(n),
        ensures
            res@ == self@.query(n, selectors@),
            forall|i: int| 0 <= i < res.len() ==> self@.has(#[trigger] res[i]),
    {
        let v = chars_of(selectors);
        if v.len() > 0 && v[0] == '#' {
            let rest = slice_chars(&v, 1, v.len());
            assert(rest@ =~= selectors@.skip(1));
            let all = self.matching(n, &Criterion::Id(rest));
            let mut res: Vec<NodeRepr> = Vec::new();
            if all.len() > 0 {
                res.push(all[0]);
                assert(res@ =~= seq![all@[0]]);
            }
            res
        } else if v.len() > 0 && v[0] == '.' {
            let rest = slice_chars(&v, 1, v.len());
            assert(rest@ =~= selectors@.skip(1));
            let text = string_of(&rest);
            let wanted = tokens_of(text.as_str());
            self.matching(n, &Criterion::Classes(wanted))
        } else if same_text(selectors, "body>*") {
            match self.landmark(n, "body") {
                Some(b) => {
                    let kids = self.children_of(b);
                    assert(kids@.subrange(0, kids.len() as int) =~= kids@);
                    proof {
                        self@.lemma_ranked();
                    }
                    let res = self.elements_between(kids, 0, kids.len());
                    proof {
                        broadcast use vstd::seq_lib::group_filter_ensures;
                        assert forall|i: int| 0 <= i < res.len() implies self@.has(
                            #[trigger] res[i],
                        ) by {
                            kids@.lemma_filter_contains_rev(self@.element_pred(), res@[i]);
                            let j = choose|j: int| 0 <= j < kids@.len() && kids@[j] == res@[i];
                            assert(self@.has(self@.children(b)[j]));
                        }
                    }
                    res
                },
                None => Vec::new(),
            }
        } else {
            self.matching(n, &tag_criterion_of(selectors))
        }
    }

    /// The first child named `name` of the first `html` child of the
    /// document `n`.
    pub fn landmark(&self, n: NodeRepr, name: &str) -> (res: Option<NodeRepr>)
        requires
            self.wf(),
            self@.has(n),
        ensures
            res == self@.landmark(n, name@),
            res is Some ==> self@.has(res->0),
    {
        if self.kind_of(n) != NodeKind::Document {
            return None;
        }
        match self.child_named(n, "html") {
            Some(html) => self.child_named(html, name),
            None => None,
        }
    }
}

impl NodeRepr {
    /// The first element below this node whose `id` attribute is `id`.
    pub fn get_element_by_id(&self, dom: &Dom, id: String) -> (res: Option<NodeRepr>)
        requires
            dom.wf(),
            dom@.has(*self),
        ensures
            res == DomView::first_of(dom@.matching(*self, CriterionView::Id(id@))),
    {
        let found = dom.matching(*self, &Criterion::Id(chars_of(id.as_str())));
        if found.len() > 0 {
            Some(found[0])
        } else {
            None
        }
    }

    /// The elements below this node with the given tag name, letter case
    /// apart, in tree order. `*` stands for any tag name. This node is
    /// not among them.
    pub fn get_elements_by_tag_name(&self, dom: &Dom, tag_name: String) -> (res: Vec<NodeRepr>)
        requires
            dom.wf(),
            dom@.has(*self),
        ensures
            res@ == dom@.matching(*self, tag_criterion(tag_name@)),
    {
        dom.matching(*self, &tag_criterion_of(tag_name.as_str()))
    }

    /// The elements below this node whose class list holds every token
    /// of `class_names`, in tree order.
    pub fn get_elements_by_class_name(&self, dom: &Dom, class_names: String) -> (res: Vec<NodeRepr>)
        requires
            dom.wf(),
            dom@.has(*self),
        ensures
            res@ == dom@.matching(*self, CriterionView::Classes(tokens(class_names@))),
    {
        dom.matching(*self, &Criterion::Classes(tokens_of(class_names.as_str())))
    }

    /// What the selector finds below this node, in document order; for
    /// an id, the first element that has it.
    pub fn query_selector_all(&self, dom: &Dom, selectors: String) -> (res: Vec<NodeRepr>)
        requires
            dom.wf(),
            dom@.has(*self),
        ensures
            res@ == dom@.query(*self, selectors@),
    {
        dom.query(*self, selectors.as_str())
    }

    /// The first node that the selector finds below this node.
    pub fn query_selector(&self, dom: &Dom, selectors: String) -> (res: Option<NodeRepr>)
        requires
            dom.wf(),
            dom@.has(*self),
        ensures
            res == DomView::first_of(dom@.query(*self, selectors@)),
    {
        let found = dom.query(*self, selectors.as_str());
        if found.len() > 0 {
            Some(found[0])
        } else {
            None
        }
    }

    /// What the selector finds below this node.
    pub fn select_all(&self, dom: &Dom, selectors: String) -> (res: Vec<NodeRepr>)
        requires
            dom.wf(),
            dom@.has(*self),
        ensures
            res@ == dom@.query(*self, selectors@),
    {
        dom.query(*self, selectors.as_str())
    }

    /// The first node that the selector finds below this node.
    pub fn select(&self, dom: &Dom, selectors: String) -> (res: Option<NodeRepr>)
        requires
            dom.wf(),
            dom@.has(*self),
        ensures
            res == DomView::first_of(dom@.query(*self, selectors@)),
    {
        self.query_selector(dom, selectors)
    }

    /// Whether this node matches the selector: it meets the last simple
    /// selector, and the ones before are met by ancestors, in their
    /// order.
    pub fn matches(&self, dom: &Dom, selectors: String) -> (res: bool)
        requires
            dom.wf(),
            dom@.has(*self),
        ensures
            res == dom@.matches_chain(*self, selector_chain(selectors@)),
    {
        let chain = selector_chain_of(selectors.as_str());
        dom.matches_chain(*self, &chain)
    }

    /// The nearest of this node and its ancestors that matches the
    /// selector.
    pub fn closest(&self, dom: &Dom, selectors: String) -> (res: Option<NodeRepr>)
        requires
            dom.wf(),
            dom@.has(*self),
        ensures
            res == dom@.closest(*self, selector_chain(selectors@)),
    {
        let chain = selector_chain_of(selectors.as_str());
        let mut cur = *self;
        loop
            invariant
                dom.wf(),
                dom@.has(cur),
                chain_view(chain@) == selector_chain(selectors@),
                dom@.closest(*self, selector_chain(selectors@)) == dom@.closest(
                    cur,
                    selector_chain(selectors@),
                ),
            decreases dom@.up(cur),
        {
            proof {
                dom@.lemma_ranked();
            }
            if dom.matches_chain(cur, &chain) {
                return Some(cur);
            }
            match dom.parent_of(cur) {
                Some(p) => {
                    cur = p;
                },
                None => {
                    return None;
                },
            }
        }
    }

    /// The text of this node: the data of every text node at or below
    /// it, in tree order.
    pub fn text(&self, dom: &Dom) -> (s: String)
        requires
            dom.wf(),
            dom@.has(*self),
        ensures
            s@ == dom@.text_content(*self),
    {
        dom.text_content_of(*self)
    }

    /// The text of this node: the data of every text node at or below
    /// it, in tree order.
    pub fn text_content_getter(&self, dom: &Dom) -> (s: String)
        requires
            dom.wf(),
            dom@.has(*self),
        ensures
            s@ == dom@.text_content(*self),
    {
        dom.text_content_of(*self)
    }

    /// The first element among the children of this document.
    pub fn document_element(&self, dom: &Dom) -> (res: Option<NodeRepr>)
        requires
            dom.wf(),
            dom@.has(*self),
        ensures
            res == dom@.document_element(*self),
    {
        if dom.kind_of(*self) != NodeKind::Document {
            return None;
        }
        self.first_element_child(dom)
    }

    /// The first doctype among the children of this document.
    pub fn doctype(&self, dom: &Dom) -> (res: Option<NodeRepr>)
        requires
            dom.wf(),
            dom@.has(*self),
        ensures
            res == dom@.doctype(*self),
    {
        if dom.kind_of(*self) != NodeKind::Document {
            return None;
        }
        let kids = dom.children_of(*self);
        let mut i: usize = 0;
        proof {
            reveal(Seq::filter);
            dom@.lemma_ranked();
            assert(kids@.take(0) =~= Seq::<NodeRepr>::empty());
        }
        while i < kids.len()
            invariant
                dom.wf(),
                dom@.has(*self),
                dom@.kind(*self) is Document,
                kids@ == dom@.children(*self),
                i <= kids.len(),
                kids@.take(i as int).filter(dom@.doctype_pred()).len() == 0,
            decreases kids.len() - i,
        {
            let c = kids[i];
            proof {
                dom@.lemma_child_is_lower(*self, i as int);
                assert(kids@.take(i + 1) =~= kids@.take(i as int).push(c));
                kids@.take(i as int).lemma_filter_push(c, dom@.doctype_pred());
            }
            if dom.kind_of(c) == NodeKind::Doctype {
                proof {
                    let pre = kids@.take(i + 1);
                    let post = kids@.skip(i + 1);
                    assert(kids@ =~= pre + post);
                    Seq::filter_distributes_over_add(pre, post, dom@.doctype_pred());
                    assert(pre.filter(dom@.doctype_pred()) =~= seq![c]);
                }
                return Some(c);
            }
            i = i + 1;
        }
        assert(kids@.take(kids.len() as int) =~= kids@);
        None
    }

    /// The first `head` child of the first `html` child of this document.
    pub fn head(&self, dom: &Dom) -> (res: Option<NodeRepr>)
        requires
            dom.wf(),
            dom@.has(*self),
        ensures
            res == dom@.landmark(*self, "head"@),
    {
        dom.landmark(*self, "head")
    }

    /// The first `body` child of the first `html` child of this document.
    pub fn body(&self, dom: &Dom) -> (res: Option<NodeRepr>)
        requires
            dom.wf(),
            dom@.has(*self),
        ensures
            res == dom@.landmark(*self, "body"@),
    {
        dom.landmark(*self, "body")
    }

    /// The text of the first `title` element below the head of this
    /// document; empty when there is none.
    pub fn title(&self, dom: &Dom) -> (s: String)
        requires
            dom.wf(),
            dom@.has(*self),
        ensures
            s@ == dom@.title(*self),
    {
        match dom.landmark(*self, "head") {
            Some(head) => {
                let found = dom.matching(head, &tag_criterion_of("title"));
                if found.len() > 0 {
                    dom.text_content_of(found[0])
                } else {
                    String::new()
                }
            },
            None => String::new(),
        }
    }
}

} // verus!
