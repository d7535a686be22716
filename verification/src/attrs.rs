//! Attributes of elements: lookup and change by name, the class list and
//! the data set.
//!
//! A node that is not an element has no attributes: every lookup on it
//! finds nothing, and every change leaves it as it is.

use vstd::prelude::*;
use vstd::string::StringExecFns;
use crate::node::NodeKind;
use crate::node::QualName;
use crate::node::QualNameView;
use crate::node::Attribute;
use crate::node::AttributeView;
use crate::node::attrs_view;
use crate::node::opt_view;
use crate::model::NodeRepr;
use crate::model::DomView;
use crate::dom::Dom;
use crate::text::chars_of;
use crate::text::string_of;
use crate::text::same_text;
use crate::text::tokens;
use crate::text::tokens_of;
use crate::text::words_view;
use crate::text::join;
use crate::text::join_words;
use crate::text::starts_with;
use crate::text::has_prefix;
use crate::text::first_at;
use crate::text::find_char;
use crate::text::slice_chars;
use crate::text::kebab;
use crate::text::to_kebab;
use crate::text::camel;
use crate::text::to_camel;
use crate::text::extend_chars;
use crate::text::is_space;
use crate::text::is_space_char;

verus! {

/// The test "the local name is `name`", as a value.
pub open spec fn local_is(name: Seq<char>) -> spec_fn(AttributeView) -> bool {
    |a: AttributeView| a.name.local == name
}

/// The test "prefix, colon and local name together are `name`", as a value.
pub open spec fn qualified_is(name: Seq<char>) -> spec_fn(AttributeView) -> bool {
    |a: AttributeView| a.name.prefix is Some && a.name.prefix->0 + seq![':'] + a.name.local == name
}

/// The test "namespace and local name are `ns` and `local`", as a value.
pub open spec fn expanded_is(ns: Seq<char>, local: Seq<char>) -> spec_fn(AttributeView) -> bool {
    |a: AttributeView| a.name.ns == ns && a.name.local == local
}

/// The position of the first entry from `k` on that passes the test; the
/// length of the list when none does.
pub open spec fn find_from(attrs: Seq<AttributeView>, pred: spec_fn(AttributeView) -> bool, k: int) -> int
    decreases attrs.len() - k,
{
    if k < 0 || k >= attrs.len() {
        attrs.len() as int
    } else if pred(attrs[k]) {
        k
    } else {
        find_from(attrs, pred, k + 1)
    }
}

/// The position of the first entry that passes the test; the length of
/// the list when none does.
pub open spec fn find(attrs: Seq<AttributeView>, pred: spec_fn(AttributeView) -> bool) -> int {
    find_from(attrs, pred, 0)
}

/// Where a name without namespace is found: at the first entry with that
/// local name, or else at the first entry whose prefix, colon and local
/// name spell it.
pub open spec fn lookup(attrs: Seq<AttributeView>, name: Seq<char>) -> int {
    if find(attrs, local_is(name)) < attrs.len() {
        find(attrs, local_is(name))
    } else {
        find(attrs, qualified_is(name))
    }
}

/// The value of the entry at a position, if the position is in the list.
pub open spec fn value_at(attrs: Seq<AttributeView>, i: int) -> Option<Seq<char>> {
    if 0 <= i < attrs.len() {
        Some(attrs[i].value)
    } else {
        None
    }
}

/// The list with the value of the first entry that passes the test
/// replaced by that of `fresh`, or with `fresh` added at the end when
/// none passes.
pub open spec fn upsert(
    attrs: Seq<AttributeView>,
    pred: spec_fn(AttributeView) -> bool,
    fresh: AttributeView,
) -> Seq<AttributeView> {
    let i = find(attrs, pred);
    if i < attrs.len() {
        attrs.update(i, AttributeView { value: fresh.value, ..attrs[i] })
    } else {
        attrs.push(fresh)
    }
}

/// The list without the first entry that passes the test.
pub open spec fn without_first(attrs: Seq<AttributeView>, pred: spec_fn(AttributeView) -> bool) -> Seq<
    AttributeView,
> {
    let i = find(attrs, pred);
    if i < attrs.len() {
        attrs.remove(i)
    } else {
        attrs
    }
}

/// An attribute without namespace or prefix.
pub open spec fn plain(name: Seq<char>, value: Seq<char>) -> AttributeView {
    AttributeView { name: QualNameView { ns: Seq::empty(), prefix: None, local: name }, value }
}

/// The name of an attribute as it is written: with its prefix and a
/// colon in front when the prefix is not empty.
pub open spec fn written_name(name: QualNameView) -> Seq<char> {
    if name.prefix is Some && name.prefix->0.len() > 0 {
        name.prefix->0 + seq![':'] + name.local
    } else {
        name.local
    }
}

/// A qualified name split at its first colon into prefix and local name.
/// A name without colon has no prefix.
pub open spec fn split_name(qname: Seq<char>) -> (Option<Seq<char>>, Seq<char>) {
    let k = first_at(qname, ':', 0);
    if k < qname.len() {
        (Some(qname.take(k)), qname.skip(k + 1))
    } else {
        (None, qname)
    }
}

/// The namespace that an optional argument names: none is the empty one.
pub open spec fn ns_of(namespace: Option<String>) -> Seq<char> {
    match namespace {
        Some(s) => s@,
        None => Seq::empty(),
    }
}

/// The entries of the data set, in the order of the attributes: for each
/// attribute whose local name begins with `data-`, the rest of that name
/// in camel case, and the value.
pub open spec fn dataset(attrs: Seq<AttributeView>) -> Seq<(Seq<char>, Seq<char>)>
    decreases attrs.len(),
{
    if attrs.len() == 0 {
        Seq::empty()
    } else {
        let a = attrs.last();
        if starts_with(a.name.local, "data-"@) {
            dataset(attrs.drop_last()).push(
                (camel(a.name.local.skip("data-"@.len() as int)), a.value),
            )
        } else {
            dataset(attrs.drop_last())
        }
    }
}

/// The name of the attribute that holds the data-set entry `key`.
pub open spec fn data_name(key: Seq<char>) -> Seq<char> {
    "data-"@ + kebab(key)
}

/// The texts that a list of pairs of strings holds.
pub open spec fn pairs_view(pairs: Seq<(String, String)>) -> Seq<(Seq<char>, Seq<char>)> {
    Seq::new(pairs.len(), |i: int| (pairs[i].0@, pairs[i].1@))
}

/// The texts that a list of strings holds.
pub open spec fn strings_view(list: Seq<String>) -> Seq<Seq<char>> {
    Seq::new(list.len(), |i: int| list[i]@)
}

/// What a search finds is the first entry that passes the test.
pub proof fn lemma_find(attrs: Seq<AttributeView>, pred: spec_fn(AttributeView) -> bool, k: int)
    requires
        0 <= k <= attrs.len(),
    ensures
        k <= find_from(attrs, pred, k) <= attrs.len(),
        find_from(attrs, pred, k) < attrs.len() ==> pred(attrs[find_from(attrs, pred, k)]),
        forall|j: int| k <= j < find_from(attrs, pred, k) ==> !pred(#[trigger] attrs[j]),
    decreases attrs.len() - k,
{
    if k < attrs.len() && !pred(attrs[k]) {
        lemma_find(attrs, pred, k + 1);
    }
}

/// By what an attribute is looked for.
pub enum AttrKey<'a> {
    /// By its local name.
    Local(&'a str),
    /// By prefix, colon and local name.
    Qualified(&'a str),
    /// By namespace and local name.
    Expanded(&'a str, &'a str),
}

impl<'a> AttrKey<'a> {
    /// The test that the key stands for, as a value.
    pub open spec fn pred(self) -> spec_fn(AttributeView) -> bool {
        match self {
            AttrKey::Local(name) => local_is(name@),
            AttrKey::Qualified(name) => qualified_is(name@),
            AttrKey::Expanded(ns, local) => expanded_is(ns@, local@),
        }
    }

    /// Whether the attribute is what this key looks for.
    pub fn matches(&self, a: &Attribute) -> (r: bool)
        ensures
            r == (self.pred())(a@),
    {
        match self {
            AttrKey::Local(name) => same_text(a.name.local.as_str(), name),
            AttrKey::Qualified(name) => {
                match &a.name.prefix {
                    Some(p) => {
                        let mut full = chars_of(p.as_str());
                        full.push(':');
                        let local = chars_of(a.name.local.as_str());
                        extend_chars(&mut full, &local);
                        assert(full@ =~= p@ + seq![':'] + a.name.local@);
                        let full_text = string_of(&full);
                        same_text(full_text.as_str(), name)
                    },
                    None => false,
                }
            },
            AttrKey::Expanded(ns, local) => same_text(a.name.ns.as_str(), ns) && same_text(
                a.name.local.as_str(),
                local,
            ),
        }
    }
}

/// The position of the first attribute that the key looks for; the
/// length of the list when there is none.
pub fn find_attr(attrs: &Vec<Attribute>, key: &AttrKey) -> (i: usize)
    ensures
        i == find(attrs_view(attrs@), key.pred()),
        i <= attrs.len(),
{
    let mut i: usize = 0;
    let ghost list = attrs_view(attrs@);
    while i < attrs.len()
        invariant
            i <= attrs.len(),
            list == attrs_view(attrs@),
            find(list, key.pred()) == find_from(list, key.pred(), i as int),
        decreases attrs.len() - i,
    {
        assert(list[i as int] == attrs@[i as int]@);
        if key.matches(&attrs[i]) {
            return i;
        }
        i = i + 1;
    }
    i
}

/// Where a name without namespace is found in the list.
pub fn lookup_attr(attrs: &Vec<Attribute>, name: &str) -> (i: usize)
    ensures
        i == lookup(attrs_view(attrs@), name@),
        i <= attrs.len(),
{
    let i = find_attr(attrs, &AttrKey::Local(name));
    if i < attrs.len() {
        i
    } else {
        find_attr(attrs, &AttrKey::Qualified(name))
    }
}

/// Replaces the value of the first attribute that the key looks for, or
/// adds `fresh` at the end when there is none.
pub fn upsert_attr(attrs: &mut Vec<Attribute>, key: &AttrKey, fresh: Attribute)
    ensures
        attrs_view(final(attrs)@) == upsert(attrs_view(old(attrs)@), key.pred(), fresh@),
{
    let i = find_attr(attrs, key);
    let ghost before = attrs_view(attrs@);
    if i < attrs.len() {
        attrs[i].value = fresh.value;
        assert(attrs_view(attrs@) =~= before.update(
            i as int,
            AttributeView { value: fresh@.value, ..before[i as int] },
        ));
    } else {
        attrs.push(fresh);
        assert(attrs_view(attrs@) =~= before.push(fresh@));
    }
}

/// Removes the first attribute that the key looks for, if there is one.
pub fn remove_attr(attrs: &mut Vec<Attribute>, key: &AttrKey)
    ensures
        attrs_view(final(attrs)@) == without_first(attrs_view(old(attrs)@), key.pred()),
{
    let i = find_attr(attrs, key);
    let ghost before = attrs_view(attrs@);
    if i < attrs.len() {
        attrs.remove(i);
        assert(attrs_view(attrs@) =~= before.remove(i as int));
    }
}

/// An attribute without namespace or prefix.
pub fn plain_attr(name: &str, value: String) -> (a: Attribute)
    ensures
        a@ == plain(name@, value@),
{
    Attribute {
        name: QualName { ns: String::new(), prefix: None, local: String::from_str(name) },
        value,
    }
}

impl DomView {
    /// The attributes of `n`; none for a node that is not an element.
    pub open spec fn attributes(self, n: NodeRepr) -> Seq<AttributeView> {
        self.data(n).attributes()
    }

    /// The arena with the attribute list of the element `n` replaced. A
    /// node that is not an element stays as it is.
    pub open spec fn with_attributes(self, n: NodeRepr, attrs: Seq<AttributeView>) -> DomView {
        self.with_data(n, self.data(n).with_attributes(attrs))
    }

    /// The value of the attribute that the name finds, if it finds one.
    pub open spec fn attribute(self, n: NodeRepr, name: Seq<char>) -> Option<Seq<char>> {
        value_at(self.attributes(n), lookup(self.attributes(n), name))
    }

    /// The value of the attribute that the name finds; empty when it
    /// finds none.
    pub open spec fn attribute_text(self, n: NodeRepr, name: Seq<char>) -> Seq<char> {
        match self.attribute(n, name) {
            Some(v) => v,
            None => Seq::empty(),
        }
    }

    /// The tokens of the `class` attribute of `n`.
    pub open spec fn class_tokens(self, n: NodeRepr) -> Seq<Seq<char>> {
        tokens(self.attribute_text(n, "class"@))
    }

    /// The arena after the attribute `name` of the element `n` has been
    /// set to `value`.
    pub open spec fn set_attribute(self, n: NodeRepr, name: Seq<char>, value: Seq<char>) -> DomView {
        self.with_attributes(n, upsert(self.attributes(n), local_is(name), plain(name, value)))
    }

    /// The arena after the element `n` has lost the first attribute with
    /// the local name `name`.
    pub open spec fn remove_attribute(self, n: NodeRepr, name: Seq<char>) -> DomView {
        self.with_attributes(n, without_first(self.attributes(n), local_is(name)))
    }

    /// Writing the attribute list back changes nothing.
    pub proof fn lemma_with_same_attributes(self, n: NodeRepr)
        requires
            self.has(n),
        ensures
            self.with_attributes(n, self.attributes(n)) == self,
            !(self.kind(n) is Element) ==> forall|a: Seq<AttributeView>|
                #[trigger] self.with_attributes(n, a) == self,
    {
        assert(self.with_attributes(n, self.attributes(n)).nodes =~= self.nodes);
        if !(self.kind(n) is Element) {
            assert forall|a: Seq<AttributeView>| #[trigger] self.with_attributes(n, a) == self by {
                assert(self.with_attributes(n, a).nodes =~= self.nodes);
            }
        }
    }
}

impl Dom {
    /// Takes the attribute list out of `n` and leaves an empty one.
    fn take_attrs(&mut self, n: NodeRepr) -> (res: Vec<Attribute>)
        requires
            old(self).wf(),
            old(self)@.has(n),
        ensures
            final(self).wf(),
            final(self)@ == old(self)@.with_attributes(n, Seq::empty()),
            attrs_view(res@) == old(self)@.attributes(n),
    {
        let empty: Vec<Attribute> = Vec::new();
        assert(attrs_view(empty@) =~= Seq::<AttributeView>::empty());
        self.swap_attrs(n, empty)
    }

    /// Puts `attrs` in the place of the attribute list of `n`, which was
    /// taken out before.
    fn put_attrs(&mut self, n: NodeRepr, attrs: Vec<Attribute>, Ghost(origin): Ghost<DomView>)
        requires
            old(self).wf(),
            old(self)@.has(n),
            origin.has(n),
            old(self)@ == origin.with_attributes(n, Seq::empty()),
        ensures
            final(self).wf(),
            final(self)@ == origin.with_attributes(n, attrs_view(attrs@)),
    {
        let ghost wanted = origin.with_attributes(n, attrs_view(attrs@));
        let _ = self.swap_attrs(n, attrs);
        assert(self@.nodes =~= wanted.nodes);
    }
}

impl Dom {
    /// The value of the attribute of `n` that `name` finds.
    pub fn attribute_of(&self, n: NodeRepr, name: &str) -> (res: Option<String>)
        requires
            self@.has(n),
        ensures
            opt_view(res) == self@.attribute(n, name@),
    {
        match self.attrs_of(n) {
            None => None,
            Some(attrs) => {
                let i = lookup_attr(attrs, name);
                if i < attrs.len() {
                    assert(attrs_view(attrs@)[i as int] == attrs@[i as int]@);
                    Some(attrs[i].value.clone())
                } else {
                    None
                }
            },
        }
    }

    /// The value of the attribute of `n` that `name` finds; empty when it
    /// finds none.
    pub fn attribute_text_of(&self, n: NodeRepr, name: &str) -> (res: String)
        requires
            self@.has(n),
        ensures
            res@ == self@.attribute_text(n, name@),
    {
        match self.attribute_of(n, name) {
            Some(v) => v,
            None => String::new(),
        }
    }

    /// Sets the attribute of `n` with the local name `name` to `value`.
    pub fn set_attribute_of(&mut self, n: NodeRepr, name: &str, value: String)
        requires
            old(self).wf(),
            old(self)@.has(n),
        ensures
            final(self).wf(),
            final(self)@ == old(self)@.set_attribute(n, name@, value@),
    {
        proof {
            self@.lemma_with_same_attributes(n);
        }
        if self.kind_of(n) != NodeKind::Element {
            return ;
        }
        let ghost origin = self@;
        let mut attrs = self.take_attrs(n);
        upsert_attr(&mut attrs, &AttrKey::Local(name), plain_attr(name, value));
        self.put_attrs(n, attrs, Ghost(origin));
    }

    /// Removes the first attribute of `n` with the local name `name`.
    pub fn remove_attribute_of(&mut self, n: NodeRepr, name: &str)
        requires
            old(self).wf(),
            old(self)@.has(n),
        ensures
            final(self).wf(),
            final(self)@ == old(self)@.remove_attribute(n, name@),
    {
        proof {
            self@.lemma_with_same_attributes(n);
        }
        if self.kind_of(n) != NodeKind::Element {
            return ;
        }
        let ghost origin = self@;
        let mut attrs = self.take_attrs(n);
        remove_attr(&mut attrs, &AttrKey::Local(name));
        self.put_attrs(n, attrs, Ghost(origin));
    }
}

impl NodeRepr {
    /// The value of the attribute that `name` finds.
    pub fn get_attribute(&self, dom: &Dom, name: String) -> (res: Option<String>)
        requires
            dom@.has(*self),
        ensures
            opt_view(res) == dom@.attribute(*self, name@),
    {
        dom.attribute_of(*self, name.as_str())
    }

    /// Whether `name` finds an attribute.
    pub fn has_attribute(&self, dom: &Dom, name: String) -> (res: bool)
        requires
            dom@.has(*self),
        ensures
            res == dom@.attribute(*self, name@) is Some,
    {
        match dom.attrs_of(*self) {
            None => false,
            Some(attrs) => {
                let i = lookup_attr(attrs, name.as_str());
                proof {
                    lemma_find(attrs_view(attrs@), local_is(name@), 0);
                    lemma_find(attrs_view(attrs@), qualified_is(name@), 0);
                }
                i < attrs.len()
            },
        }
    }

    /// Whether this node has any attribute.
    pub fn has_attributes(&self, dom: &Dom) -> (res: bool)
        requires
            dom@.has(*self),
        ensures
            res == (dom@.attributes(*self).len() > 0),
    {
        match dom.attrs_of(*self) {
            None => false,
            Some(attrs) => attrs.len() > 0,
        }
    }

    /// The names of the attributes as they are written, in the order of
    /// the attributes.
    pub fn get_attribute_names(&self, dom: &Dom) -> (res: Vec<String>)
        requires
            dom@.has(*self),
        ensures
            strings_view(res@) == Seq::new(
                dom@.attributes(*self).len(),
                |i: int| written_name(dom@.attributes(*self)[i].name),
            ),
    {
        let mut res: Vec<String> = Vec::new();
        match dom.attrs_of(*self) {
            None => {
                assert(strings_view(res@) =~= Seq::new(
                    dom@.attributes(*self).len(),
                    |i: int| written_name(dom@.attributes(*self)[i].name),
                ));
            },
            Some(attrs) => {
                let mut i: usize = 0;
                let ghost list = attrs_view(attrs@);
                while i < attrs.len()
                    invariant
                        i <= attrs.len(),
                        list == attrs_view(attrs@),
                        res.len() == i,
                        forall|j: int| 0 <= j < i ==> res[j]@ == written_name(list[j].name),
                    decreases attrs.len() - i,
                {
                    let a = &attrs[i];
                    assert(list[i as int] == a@);
                    let text = match &a.name.prefix {
                        Some(p) => {
                            let pc = chars_of(p.as_str());
                            if pc.len() > 0 {
                                let mut full = pc;
                                full.push(':');
                                let local = chars_of(a.name.local.as_str());
                                extend_chars(&mut full, &local);
                                string_of(&full)
                            } else {
                                a.name.local.clone()
                            }
                        },
                        None => a.name.local.clone(),
                    };
                    res.push(text);
                    i = i + 1;
                }
                assert(strings_view(res@) =~= Seq::new(
                    dom@.attributes(*self).len(),
                    |i: int| written_name(dom@.attributes(*self)[i].name),
                ));
            },
        }
        res
    }

    /// Sets the attribute with the local name `name` to `value`: the
    /// first such attribute gets the value, and when there is none, one
    /// without namespace is added at the end.
    pub fn set_attribute(&self, dom: &mut Dom, name: String, value: String)
        requires
            old(dom).wf(),
            old(dom)@.has(*self),
        ensures
            final(dom).wf(),
            final(dom)@ == old(dom)@.set_attribute(*self, name@, value@),
    {
        dom.set_attribute_of(*self, name.as_str(), value);
    }

    /// Removes the first attribute with the local name `name`.
    pub fn remove_attribute(&self, dom: &mut Dom, name: String)
        requires
            old(dom).wf(),
            old(dom)@.has(*self),
        ensures
            final(dom).wf(),
            final(dom)@ == old(dom)@.remove_attribute(*self, name@),
    {
        dom.remove_attribute_of(*self, name.as_str());
    }
}

/// The test "is not the token `token`", as a value.
pub open spec fn differs_from(token: Seq<char>) -> spec_fn(Seq<char>) -> bool {
    |w: Seq<char>| w != token
}

/// Whether a text is one token: not empty, and without white space.
pub open spec fn is_token(t: Seq<char>) -> bool {
    t.len() > 0 && forall|i: int| 0 <= i < t.len() ==> !is_space(#[trigger] t[i])
}

/// Whether the characters are one token.
pub fn is_one_token(word: &Vec<char>) -> (r: bool)
    ensures
        r == is_token(word@),
{
    if word.len() == 0 {
        return false;
    }
    let mut i: usize = 0;
    while i < word.len()
        invariant
            i <= word.len(),
            forall|j: int| 0 <= j < i ==> !is_space(#[trigger] word@[j]),
        decreases word.len() - i,
    {
        if is_space_char(word[i]) {
            return false;
        }
        i = i + 1;
    }
    true
}

/// Whether an attribute is wanted after a toggle: without `force` the
/// opposite of what is, with `force` what it says.
pub open spec fn wanted(present: bool, force: Option<bool>) -> bool {
    match force {
        Some(f) => f,
        None => !present,
    }
}

impl DomView {
    /// Whether the element `n` has an attribute with the local name `name`.
    pub open spec fn has_local(self, n: NodeRepr, name: Seq<char>) -> bool {
        find(self.attributes(n), local_is(name)) < self.attributes(n).len()
    }

    /// The arena after the attribute `name` of `n` has been made present
    /// (with an empty value, where it was absent) or absent, as wanted.
    pub open spec fn toggle_attribute(self, n: NodeRepr, name: Seq<char>, want: bool) -> DomView {
        if want && !self.has_local(n, name) {
            self.set_attribute(n, name, Seq::empty())
        } else if !want && self.has_local(n, name) {
            self.remove_attribute(n, name)
        } else {
            self
        }
    }

    /// The arena after the attribute with the namespace `ns` and the
    /// qualified name `qname` has been set to `value`.
    pub open spec fn set_attribute_ns(self, n: NodeRepr, ns: Seq<char>, qname: Seq<char>, value: Seq<char>) -> DomView {
        let (prefix, local) = split_name(qname);
        self.with_attributes(
            n,
            upsert(
                self.attributes(n),
                expanded_is(ns, local),
                AttributeView { name: QualNameView { ns, prefix, local }, value },
            ),
        )
    }

    /// The arena after the element `n` has lost the first attribute with
    /// the namespace `ns` and the local name `local`.
    pub open spec fn remove_attribute_ns(self, n: NodeRepr, ns: Seq<char>, local: Seq<char>) -> DomView {
        self.with_attributes(n, without_first(self.attributes(n), expanded_is(ns, local)))
    }

    /// The value of the attribute with the namespace `ns` and the local
    /// name `local`, if there is one.
    pub open spec fn attribute_ns(self, n: NodeRepr, ns: Seq<char>, local: Seq<char>) -> Option<Seq<char>> {
        value_at(self.attributes(n), find(self.attributes(n), expanded_is(ns, local)))
    }

    /// The arena after `token` has been added to the class list of `n`,
    /// unless it was there or is no token.
    pub open spec fn class_add(self, n: NodeRepr, token: Seq<char>) -> DomView {
        if self.class_tokens(n).contains(token) || !is_token(token) {
            self
        } else {
            self.set_attribute(n, "class"@, join(self.class_tokens(n).push(token)))
        }
    }

    /// The arena after every occurrence of `token` has left the class
    /// list of `n`.
    pub open spec fn class_remove(self, n: NodeRepr, token: Seq<char>) -> DomView {
        if self.class_tokens(n).contains(token) {
            self.set_attribute(n, "class"@, join(self.class_tokens(n).filter(differs_from(token))))
        } else {
            self
        }
    }
}

/// Whether two lists of characters are the same.
pub fn same_chars(a: &Vec<char>, b: &Vec<char>) -> (r: bool)
    ensures
        r == (a@ == b@),
{
    if a.len() != b.len() {
        return false;
    }
    let mut i: usize = 0;
    while i < a.len()
        invariant
            i <= a.len(),
            a.len() == b.len(),
            forall|j: int| 0 <= j < i ==> a[j] == b[j],
        decreases a.len() - i,
    {
        if a[i] != b[i] {
            return false;
        }
        i = i + 1;
    }
    assert(a@ =~= b@);
    true
}

/// Whether `word` is among `words`.
pub fn has_word(words: &Vec<Vec<char>>, word: &Vec<char>) -> (r: bool)
    ensures
        r == words_view(words@).contains(word@),
{
    let mut i: usize = 0;
    while i < words.len()
        invariant
            i <= words.len(),
            forall|j: int| 0 <= j < i ==> words_view(words@)[j] != word@,
        decreases words.len() - i,
    {
        if same_chars(&words[i], word) {
            assert(words_view(words@)[i as int] == word@);
            return true;
        }
        i = i + 1;
    }
    false
}

/// The words that are not `word`, in order.
pub fn words_without(words: &Vec<Vec<char>>, word: &Vec<char>) -> (res: Vec<Vec<char>>)
    ensures
        words_view(res@) == words_view(words@).filter(differs_from(word@)),
{
    let ghost all = words_view(words@);
    let mut i: usize = 0;
    let mut kept: Vec<Vec<char>> = Vec::new();
    proof {
        reveal(Seq::filter);
        assert(all.take(0) =~= Seq::<Seq<char>>::empty());
        assert(words_view(kept@) =~= Seq::<Seq<char>>::empty());
    }
    while i < words.len()
        invariant
            i <= words.len(),
            all == words_view(words@),
            words_view(kept@) == all.take(i as int).filter(differs_from(word@)),
        decreases words.len() - i,
    {
        let ghost before = words_view(kept@);
        proof {
            assert(all.take(i + 1) =~= all.take(i as int).push(all[i as int]));
            all.take(i as int).lemma_filter_push(all[i as int], differs_from(word@));
            assert(all[i as int] == words@[i as int]@);
        }
        if !same_chars(&words[i], word) {
            let w = slice_chars(&words[i], 0, words[i].len());
            assert(w@ =~= words@[i as int]@);
            kept.push(w);
            assert(words_view(kept@) =~= before.push(all[i as int]));
        }
        i = i + 1;
    }
    assert(all.take(words.len() as int) =~= all);
    kept
}

impl NodeRepr {
    /// Makes the attribute with the local name `name` present or absent:
    /// without `force` the opposite of what it is, with `force` what it
    /// says. An attribute that is added has the empty value. Hands back
    /// whether the attribute is present in the end: it is not where the
    /// node is no element, and it still is where a second attribute has
    /// the local name of the one that was taken away.
    pub fn toggle_attribute(&self, dom: &mut Dom, name: String, force: Option<bool>) -> (res: bool)
        requires
            old(dom).wf(),
            old(dom)@.has(*self),
        ensures
            final(dom).wf(),
            final(dom)@ == old(dom)@.toggle_attribute(
                *self,
                name@,
                wanted(old(dom)@.has_local(*self, name@), force),
            ),
            res == final(dom)@.has_local(*self, name@),
    {
        let present = self.has_attribute_named(dom, name.as_str());
        let want = match force {
            Some(f) => f,
            None => !present,
        };
        if want && !present {
            dom.set_attribute_of(*self, name.as_str(), String::new());
        } else if !want && present {
            dom.remove_attribute_of(*self, name.as_str());
        }
        self.has_attribute_named(dom, name.as_str())
    }

    /// Whether this node has an attribute with the local name `name`.
    fn has_attribute_named(&self, dom: &Dom, name: &str) -> (res: bool)
        requires
            dom@.has(*self),
        ensures
            res == dom@.has_local(*self, name@),
    {
        match dom.attrs_of(*self) {
            None => {
                proof {
                    lemma_find(dom@.attributes(*self), local_is(name@), 0);
                }
                false
            },
            Some(attrs) => find_attr(attrs, &AttrKey::Local(name)) < attrs.len(),
        }
    }

    /// Sets the attribute with the given namespace and qualified name:
    /// the first attribute with that namespace and the local name gets
    /// the value, and when there is none, one is added at the end.
    pub fn set_attribute_ns(&self, dom: &mut Dom, namespace: Option<String>, name: String, value: String)
        requires
            old(dom).wf(),
            old(dom)@.has(*self),
        ensures
            final(dom).wf(),
            final(dom)@ == old(dom)@.set_attribute_ns(*self, ns_of(namespace), name@, value@),
    {
        proof {
            dom@.lemma_with_same_attributes(*self);
        }
        if dom.kind_of(*self) != NodeKind::Element {
            return ;
        }
        let ns = match namespace {
            Some(s) => s,
            None => String::new(),
        };
        let full = chars_of(name.as_str());
        let k = find_char(&full, ':');
        let (prefix, local) = if k < full.len() {
            let p = slice_chars(&full, 0, k);
            let l = slice_chars(&full, k + 1, full.len());
            (Some(string_of(&p)), string_of(&l))
        } else {
            (None, name)
        };
        let ghost origin = dom@;
        let mut attrs = dom.take_attrs(*self);
        let key_ns = ns.clone();
        let key_local = local.clone();
        let fresh = Attribute { name: QualName { ns, prefix, local }, value };
        upsert_attr(&mut attrs, &AttrKey::Expanded(key_ns.as_str(), key_local.as_str()), fresh);
        dom.put_attrs(*self, attrs, Ghost(origin));
    }

    /// Removes the first attribute with the given namespace and local
    /// name.
    pub fn remove_attribute_ns(&self, dom: &mut Dom, namespace: Option<String>, local_name: String)
        requires
            old(dom).wf(),
            old(dom)@.has(*self),
        ensures
            final(dom).wf(),
            final(dom)@ == old(dom)@.remove_attribute_ns(*self, ns_of(namespace), local_name@),
    {
        proof {
            dom@.lemma_with_same_attributes(*self);
        }
        if dom.kind_of(*self) != NodeKind::Element {
            return ;
        }
        let ns = match namespace {
            Some(s) => s,
            None => String::new(),
        };
        let ghost origin = dom@;
        let mut attrs = dom.take_attrs(*self);
        remove_attr(&mut attrs, &AttrKey::Expanded(ns.as_str(), local_name.as_str()));
        dom.put_attrs(*self, attrs, Ghost(origin));
    }

    /// The value of the attribute with the given namespace and local name.
    pub fn get_attribute_ns(&self, dom: &Dom, namespace: Option<String>, local_name: String) -> (res:
        Option<String>)
        requires
            dom@.has(*self),
        ensures
            opt_view(res) == dom@.attribute_ns(*self, ns_of(namespace), local_name@),
    {
        match dom.attrs_of(*self) {
            None => None,
            Some(attrs) => {
                let ns = match namespace {
                    Some(s) => s,
                    None => String::new(),
                };
                let i = find_attr(attrs, &AttrKey::Expanded(ns.as_str(), local_name.as_str()));
                if i < attrs.len() {
                    assert(attrs_view(attrs@)[i as int] == attrs@[i as int]@);
                    Some(attrs[i].value.clone())
                } else {
                    None
                }
            },
        }
    }

    /// Whether there is an attribute with the given namespace and local
    /// name.
    pub fn has_attribute_ns(&self, dom: &Dom, namespace: Option<String>, local_name: String) -> (res:
        bool)
        requires
            dom@.has(*self),
        ensures
            res == dom@.attribute_ns(*self, ns_of(namespace), local_name@) is Some,
    {
        proof {
            lemma_find(dom@.attributes(*self), expanded_is(ns_of(namespace), local_name@), 0);
        }
        self.get_attribute_ns(dom, namespace, local_name).is_some()
    }

    /// The value of the `id` attribute; empty when there is none.
    pub fn id(&self, dom: &Dom) -> (res: String)
        requires
            dom@.has(*self),
        ensures
            res@ == dom@.attribute_text(*self, "id"@),
    {
        dom.attribute_text_of(*self, "id")
    }

    /// Sets the `id` attribute.
    pub fn set_id(&self, dom: &mut Dom, id: String)
        requires
            old(dom).wf(),
            old(dom)@.has(*self),
        ensures
            final(dom).wf(),
            final(dom)@ == old(dom)@.set_attribute(*self, "id"@, id@),
    {
        dom.set_attribute_of(*self, "id", id);
    }

    /// The value of the `class` attribute; empty when there is none.
    pub fn class_name(&self, dom: &Dom) -> (res: String)
        requires
            dom@.has(*self),
        ensures
            res@ == dom@.attribute_text(*self, "class"@),
    {
        dom.attribute_text_of(*self, "class")
    }

    /// Sets the `class` attribute.
    pub fn set_class_name(&self, dom: &mut Dom, class_name: String)
        requires
            old(dom).wf(),
            old(dom)@.has(*self),
        ensures
            final(dom).wf(),
            final(dom)@ == old(dom)@.set_attribute(*self, "class"@, class_name@),
    {
        dom.set_attribute_of(*self, "class", class_name);
    }

    /// Whether `token` is in the class list.
    pub fn _class_list_contains(&self, dom: &Dom, token: String) -> (res: bool)
        requires
            dom@.has(*self),
        ensures
            res == dom@.class_tokens(*self).contains(token@),
    {
        let text = dom.attribute_text_of(*self, "class");
        let words = tokens_of(text.as_str());
        let word = chars_of(token.as_str());
        has_word(&words, &word)
    }

    /// Adds `token` to the class list, unless it is there or is no token,
    /// being empty or holding white space. The `class` attribute then
    /// holds the tokens separated by single spaces.
    pub fn _class_list_add(&self, dom: &mut Dom, token: String)
        requires
            old(dom).wf(),
            old(dom)@.has(*self),
        ensures
            final(dom).wf(),
            final(dom)@ == old(dom)@.class_add(*self, token@),
    {
        let text = dom.attribute_text_of(*self, "class");
        let mut words = tokens_of(text.as_str());
        let word = chars_of(token.as_str());
        if has_word(&words, &word) || !is_one_token(&word) {
            return ;
        }
        let ghost before = words_view(words@);
        words.push(word);
        assert(words_view(words@) =~= before.push(token@));
        let joined = join_words(&words);
        dom.set_attribute_of(*self, "class", string_of(&joined));
    }

    /// Takes every occurrence of `token` out of the class list. The
    /// `class` attribute then holds the tokens that are left, separated
    /// by single spaces.
    pub fn _class_list_remove(&self, dom: &mut Dom, token: String)
        requires
            old(dom).wf(),
            old(dom)@.has(*self),
        ensures
            final(dom).wf(),
            final(dom)@ == old(dom)@.class_remove(*self, token@),
    {
        let text = dom.attribute_text_of(*self, "class");
        let words = tokens_of(text.as_str());
        let word = chars_of(token.as_str());
        if !has_word(&words, &word) {
            return ;
        }
        let left = words_without(&words, &word);
        let joined = join_words(&left);
        dom.set_attribute_of(*self, "class", string_of(&joined));
    }

    /// Makes `token` present in the class list or absent from it: without
    /// `force` the opposite of what it is, with `force` what it says.
    /// Hands back whether the token is present in the end: it is not
    /// where the node is no element, nor where `token` is no token, being
    /// empty or holding white space.
    pub fn _class_list_toggle(&self, dom: &mut Dom, token: String, force: Option<bool>) -> (res: bool)
        requires
            old(dom).wf(),
            old(dom)@.has(*self),
        ensures
            final(dom).wf(),
            final(dom)@ == (if wanted(old(dom)@.class_tokens(*self).contains(token@), force) {
                old(dom)@.class_add(*self, token@)
            } else {
                old(dom)@.class_remove(*self, token@)
            }),
            res == final(dom)@.class_tokens(*self).contains(token@),
    {
        let present = self._class_list_contains(dom, token.clone());
        let want = match force {
            Some(f) => f,
            None => !present,
        };
        if want {
            self._class_list_add(dom, token.clone());
        } else {
            self._class_list_remove(dom, token.clone());
        }
        self._class_list_contains(dom, token)
    }

    /// The entries of the data set, in the order of the attributes.
    pub fn _dataset_get(&self, dom: &Dom) -> (res: Vec<(String, String)>)
        requires
            dom@.has(*self),
        ensures
            pairs_view(res@) == dataset(dom@.attributes(*self)),
    {
        let mut res: Vec<(String, String)> = Vec::new();
        match dom.attrs_of(*self) {
            None => {
                assert(pairs_view(res@) =~= dataset(dom@.attributes(*self)));
            },
            Some(attrs) => {
                let marker = chars_of("data-");
                let ghost list = attrs_view(attrs@);
                let mut i: usize = 0;
                assert(list.take(0) =~= Seq::<AttributeView>::empty());
                assert(pairs_view(res@) =~= dataset(list.take(0)));
                while i < attrs.len()
                    invariant
                        i <= attrs.len(),
                        list == attrs_view(attrs@),
                        marker@ == "data-"@,
                        pairs_view(res@) == dataset(list.take(i as int)),
                    decreases attrs.len() - i,
                {
                    let a = &attrs[i];
                    let ghost before = pairs_view(res@);
                    proof {
                        let t = list.take(i + 1);
                        assert(t.drop_last() =~= list.take(i as int));
                        assert(t.last() == a@);
                    }
                    let local = chars_of(a.name.local.as_str());
                    if has_prefix(&local, &marker) {
                        let rest = slice_chars(&local, marker.len(), local.len());
                        assert(rest@ =~= a@.name.local.skip("data-"@.len() as int));
                        let key = to_camel(&rest);
                        res.push((string_of(&key), a.value.clone()));
                        assert(pairs_view(res@) =~= before.push((key@, a@.value)));
                    }
                    i = i + 1;
                }
                assert(list.take(attrs.len() as int) =~= list);
            },
        }
        res
    }

    /// Sets the entry `key` of the data set: the attribute whose name is
    /// `data-` followed by the key in hyphenated form.
    pub fn _dataset_set(&self, dom: &mut Dom, key: String, value: String)
        requires
            old(dom).wf(),
            old(dom)@.has(*self),
        ensures
            final(dom).wf(),
            final(dom)@ == old(dom)@.set_attribute(*self, data_name(key@), value@),
    {
        let mut name = chars_of("data-");
        let tail = to_kebab(&chars_of(key.as_str()));
        extend_chars(&mut name, &tail);
        let name_text = string_of(&name);
        dom.set_attribute_of(*self, name_text.as_str(), value);
    }

    /// Removes the entry `key` of the data set.
    pub fn _dataset_remove(&self, dom: &mut Dom, key: String)
        requires
            old(dom).wf(),
            old(dom)@.has(*self),
        ensures
            final(dom).wf(),
            final(dom)@ == old(dom)@.remove_attribute(*self, data_name(key@)),
    {
        let mut name = chars_of("data-");
        let tail = to_kebab(&chars_of(key.as_str()));
        extend_chars(&mut name, &tail);
        let name_text = string_of(&name);
        dom.remove_attribute_of(*self, name_text.as_str());
    }
}

} // verus!
