//! Character data: the text that text nodes, comments and processing
//! instructions carry. Lengths and offsets count 16-bit code units, as
//! the DOM does: a character beyond the basic plane counts as two. The
//! texts themselves hold whole characters only, so where a cut falls
//! between the two units of a character, each side of the cut gets
//! `REPLACEMENT` for its half.

use vstd::prelude::*;
use crate::node::NodeKind;
use crate::node::NodeData;
use crate::node::NodeDataView;
use crate::node::opt_view;
use crate::model::NodeRepr;
use crate::model::DomView;
use crate::dom::Dom;
use crate::dom::index_in;
use crate::error::DomError;
use crate::navigate::count_u32;
use crate::text::chars_of;
use crate::text::string_of;
use crate::text::slice_chars;
use crate::text::extend_chars;

verus! {

/// The character that stands where a cut has left half a character.
pub const REPLACEMENT: char = '\u{FFFD}';

/// The number of 16-bit code units that a character takes: two beyond
/// the basic plane, one within it.
pub open spec fn units_of(c: char) -> nat {
    if c >= '\u{10000}' {
        2
    } else {
        1
    }
}

/// The length of a text in 16-bit code units.
pub open spec fn unit_len(s: Seq<char>) -> nat
    decreases s.len(),
{
    if s.len() == 0 {
        0
    } else {
        units_of(s[0]) + unit_len(s.skip(1))
    }
}

/// The first `k` code units of a text, or all of it where it has fewer.
/// Where the cut falls inside a character, `REPLACEMENT` stands for the
/// half that is kept.
pub open spec fn units_head(s: Seq<char>, k: int) -> Seq<char>
    decreases s.len(),
{
    if k <= 0 || s.len() == 0 {
        Seq::empty()
    } else if units_of(s[0]) <= k {
        seq![s[0]] + units_head(s.skip(1), k - units_of(s[0]))
    } else {
        seq![REPLACEMENT]
    }
}

/// A text without its first `k` code units; empty where it has fewer.
/// Where the cut falls inside a character, `REPLACEMENT` stands for the
/// half that is kept.
pub open spec fn units_tail(s: Seq<char>, k: int) -> Seq<char>
    decreases s.len(),
{
    if k <= 0 || s.len() == 0 {
        s
    } else if units_of(s[0]) <= k {
        units_tail(s.skip(1), k - units_of(s[0]))
    } else {
        seq![REPLACEMENT] + s.skip(1)
    }
}

/// The `count` code units of a text that follow the first `offset`, or
/// fewer where the text ends before.
pub open spec fn units_between(data: Seq<char>, offset: int, count: int) -> Seq<char> {
    units_head(units_tail(data, offset), count)
}

/// A text with the `count` code units that follow the first `offset`
/// replaced by `s`. The range is cut at the end of the text.
pub open spec fn spliced_text(data: Seq<char>, offset: int, count: int, s: Seq<char>) -> Seq<char> {
    units_head(data, offset) + s + units_tail(data, offset + count)
}

/// The number of 16-bit code units that the character takes.
fn units_in(c: char) -> (n: u64)
    ensures
        n == units_of(c),
{
    if c >= '\u{10000}' {
        2
    } else {
        1
    }
}

/// The length of the text in 16-bit code units; the largest 32-bit
/// number where it does not fit.
fn unit_count(v: &Vec<char>) -> (n: u32)
    ensures
        n == count_u32(unit_len(v@)),
{
    let mut n: u32 = 0;
    let mut i: usize = 0;
    let ghost mut seen: nat = 0;
    assert(v@.skip(0) =~= v@);
    while i < v.len()
        invariant
            i <= v.len(),
            unit_len(v@) == seen + unit_len(v@.skip(i as int)),
            n == count_u32(seen),
        decreases v.len() - i,
    {
        let u = units_in(v[i]);
        proof {
            assert(v@.skip(i as int).skip(1) =~= v@.skip(i + 1));
            assert(v@.skip(i as int)[0] == v@[i as int]);
            seen = seen + units_of(v@[i as int]);
        }
        n = if u > (u32::MAX - n) as u64 {
            u32::MAX
        } else {
            n + u as u32
        };
        i += 1;
    }
    n
}

/// The text cut after its first `k` code units: what stands before the
/// cut and what stands after it.
fn cut_units(v: &Vec<char>, k: u64) -> (res: (Vec<char>, Vec<char>))
    ensures
        res.0@ == units_head(v@, k as int),
        res.1@ == units_tail(v@, k as int),
{
    let mut head: Vec<char> = Vec::new();
    let mut i: usize = 0;
    let mut left: u64 = k;
    assert(v@.skip(0) =~= v@);
    while i < v.len() && left > 0
        invariant
            i <= v.len(),
            units_head(v@, k as int) == head@ + units_head(v@.skip(i as int), left as int),
            units_tail(v@, k as int) == units_tail(v@.skip(i as int), left as int),
        decreases v.len() - i,
    {
        let c = v[i];
        let u = units_in(c);
        proof {
            assert(v@.skip(i as int).skip(1) =~= v@.skip(i + 1));
            assert(v@.skip(i as int)[0] == c);
        }
        if u <= left {
            let ghost before = head@;
            head.push(c);
            left = left - u;
            i += 1;
            assert(before + (seq![c] + units_head(v@.skip(i as int), left as int)) =~= head@
                + units_head(v@.skip(i as int), left as int));
        } else {
            let ghost before = head@;
            head.push(REPLACEMENT);
            let mut tail: Vec<char> = Vec::new();
            tail.push(REPLACEMENT);
            let rest = slice_chars(v, i + 1, v.len());
            extend_chars(&mut tail, &rest);
            assert(head@ =~= before + seq![REPLACEMENT]);
            assert(tail@ =~= seq![REPLACEMENT] + v@.skip(i as int).skip(1));
            return (head, tail);
        }
    }
    let tail = slice_chars(v, i, v.len());
    assert(tail@ =~= v@.skip(i as int));
    assert(head@ + Seq::<char>::empty() =~= head@);
    (head, tail)
}

impl DomView {
    /// The character data of `n`, if it carries any.
    pub open spec fn character_data(self, n: NodeRepr) -> Option<Seq<char>> {
        self.data(n).character_data()
    }

    /// The character data of `n`; empty when it carries none.
    pub open spec fn text_data(self, n: NodeRepr) -> Seq<char> {
        match self.character_data(n) {
            Some(s) => s,
            None => Seq::empty(),
        }
    }

    /// The arena with the character data of `n` replaced. A node that
    /// carries none stays as it is.
    pub open spec fn with_text(self, n: NodeRepr, s: Seq<char>) -> DomView {
        self.with_data(n, self.data(n).with_character_data(s))
    }

    /// The error that a character-data operation at `offset` reports on
    /// `n`, if it reports one: the node carries no character data, or the
    /// offset lies past the end.
    pub open spec fn data_error(self, n: NodeRepr, offset: int) -> Option<DomError> {
        if !self.kind(n).is_character_data() {
            Some(DomError::InvalidState)
        } else if offset > unit_len(self.text_data(n)) {
            Some(DomError::IndexSize)
        } else {
            None
        }
    }

    /// The arena after the text node `n` has been split after `offset`
    /// code units: `n` keeps the text before, and a new text node with
    /// the rest stands just after it in the same parent.
    pub open spec fn split_text(self, n: NodeRepr, offset: int) -> DomView {
        let made = self.create(
            NodeDataView::Text { contents: units_tail(self.text_data(n), offset) },
        );
        let cut = made.with_text(n, units_head(self.text_data(n), offset));
        let fresh = NodeRepr(self.nodes.len() as usize);
        match self.parent(n) {
            Some(p) => cut.insert(p, self.position(p, n) + 1, fresh),
            None => cut,
        }
    }
}

impl Dom {
    /// Checks that `n` carries character data and that `offset` is in it,
    /// and hands the characters out.
    fn data_at(&self, n: NodeRepr, offset: u32) -> (res: Result<Vec<char>, DomError>)
        requires
            self@.has(n),
        ensures
            res is Err <==> self@.data_error(n, offset as int) is Some,
            res is Err ==> Some(res->Err_0) == self@.data_error(n, offset as int),
            res is Ok ==> res->Ok_0@ == self@.text_data(n),
    {
        match self.text_of(n) {
            None => Err(DomError::InvalidState),
            Some(s) => {
                let v = chars_of(s.as_str());
                if offset > unit_count(&v) {
                    Err(DomError::IndexSize)
                } else {
                    Ok(v)
                }
            },
        }
    }
}

/// The text with the `count` code units that follow the first `offset`
/// replaced by `s`.
fn splice_units(v: &Vec<char>, offset: u32, count: u32, s: &Vec<char>) -> (res: Vec<char>)
    ensures
        res@ == spliced_text(v@, offset as int, count as int, s@),
{
    let (head, _) = cut_units(v, offset as u64);
    let (_, tail) = cut_units(v, offset as u64 + count as u64);
    let mut out = head;
    extend_chars(&mut out, s);
    extend_chars(&mut out, &tail);
    out
}

impl NodeRepr {
    /// The character data of this node.
    pub fn data(&self, dom: &Dom) -> (res: Option<String>)
        requires
            dom@.has(*self),
        ensures
            opt_view(res) == dom@.character_data(*self),
    {
        match dom.text_of(*self) {
            Some(s) => Some(s.clone()),
            None => None,
        }
    }

    /// Gives this node new character data. A node that carries none
    /// stays as it is.
    pub fn set_data(&self, dom: &mut Dom, value: String)
        requires
            old(dom).wf(),
            old(dom)@.has(*self),
        ensures
            final(dom).wf(),
            final(dom)@ == old(dom)@.with_text(*self, value@),
    {
        dom.set_text(*self, value);
    }

    /// The value of this node: its character data.
    pub fn node_value(&self, dom: &Dom) -> (res: Option<String>)
        requires
            dom@.has(*self),
        ensures
            opt_view(res) == dom@.character_data(*self),
    {
        self.data(dom)
    }

    /// Gives this node a new value: its character data becomes `value`,
    /// or empty when there is no `value`. A node that carries no
    /// character data stays as it is.
    pub fn set_node_value(&self, dom: &mut Dom, value: Option<String>)
        requires
            old(dom).wf(),
            old(dom)@.has(*self),
        ensures
            final(dom).wf(),
            final(dom)@ == old(dom)@.with_text(
                *self,
                match value {
                    Some(s) => s@,
                    None => Seq::empty(),
                },
            ),
    {
        match value {
            Some(s) => dom.set_text(*self, s),
            None => dom.set_text(*self, String::new()),
        }
    }

    /// The length of the character data in code units; zero for a node
    /// that carries none.
    pub fn length(&self, dom: &Dom) -> (res: u32)
        requires
            dom@.has(*self),
        ensures
            res == count_u32(unit_len(dom@.text_data(*self))),
    {
        match dom.text_of(*self) {
            Some(s) => unit_count(&chars_of(s.as_str())),
            None => 0,
        }
    }

    /// The part of the character data that begins after `offset` code
    /// units and has `count` of them, or fewer where the data ends
    /// before.
    pub fn substring_data(&self, dom: &Dom, offset: u32, count: u32) -> (res: Result<String, DomError>)
        requires
            dom@.has(*self),
        ensures
            res is Err <==> dom@.data_error(*self, offset as int) is Some,
            res is Err ==> Some(res->Err_0) == dom@.data_error(*self, offset as int),
            res is Ok ==> res->Ok_0@ == units_between(
                dom@.text_data(*self),
                offset as int,
                count as int,
            ),
    {
        match dom.data_at(*self, offset) {
            Err(e) => Err(e),
            Ok(v) => {
                let (_, rest) = cut_units(&v, offset as u64);
                let (part, _) = cut_units(&rest, count as u64);
                Ok(string_of(&part))
            },
        }
    }

    /// Adds `data` at the end of the character data.
    pub fn append_data(&self, dom: &mut Dom, data: String) -> (res: Result<(), DomError>)
        requires
            old(dom).wf(),
            old(dom)@.has(*self),
        ensures
            final(dom).wf(),
            res is Err <==> !old(dom)@.kind(*self).is_character_data(),
            res is Err ==> res == Err::<(), DomError>(DomError::InvalidState) && final(dom)@ == old(
                dom)@,
            res is Ok ==> final(dom)@ == old(dom)@.with_text(
                *self,
                old(dom)@.text_data(*self) + data@,
            ),
    {
        match dom.data_at(*self, 0) {
            Err(e) => Err(e),
            Ok(v) => {
                let mut out = v;
                let tail = chars_of(data.as_str());
                extend_chars(&mut out, &tail);
                dom.set_text(*self, string_of(&out));
                Ok(())
            },
        }
    }

    /// Puts `data` into the character data after `offset` code units.
    pub fn insert_data(&self, dom: &mut Dom, offset: u32, data: String) -> (res: Result<(), DomError>)
        requires
            old(dom).wf(),
            old(dom)@.has(*self),
        ensures
            final(dom).wf(),
            res is Err <==> old(dom)@.data_error(*self, offset as int) is Some,
            res is Err ==> Some(res->Err_0) == old(dom)@.data_error(*self, offset as int) && final(
                dom)@ == old(dom)@,
            res is Ok ==> final(dom)@ == old(dom)@.with_text(
                *self,
                spliced_text(old(dom)@.text_data(*self), offset as int, 0, data@),
            ),
    {
        match dom.data_at(*self, offset) {
            Err(e) => Err(e),
            Ok(v) => {
                let s = chars_of(data.as_str());
                let out = splice_units(&v, offset, 0, &s);
                dom.set_text(*self, string_of(&out));
                Ok(())
            },
        }
    }

    /// Takes the `count` code units that follow the first `offset` out
    /// of the character data, or fewer where the data ends before.
    pub fn delete_data(&self, dom: &mut Dom, offset: u32, count: u32) -> (res: Result<(), DomError>)
        requires
            old(dom).wf(),
            old(dom)@.has(*self),
        ensures
            final(dom).wf(),
            res is Err <==> old(dom)@.data_error(*self, offset as int) is Some,
            res is Err ==> Some(res->Err_0) == old(dom)@.data_error(*self, offset as int) && final(
                dom)@ == old(dom)@,
            res is Ok ==> final(dom)@ == old(dom)@.with_text(
                *self,
                spliced_text(old(dom)@.text_data(*self), offset as int, count as int, Seq::empty()),
            ),
    {
        match dom.data_at(*self, offset) {
            Err(e) => Err(e),
            Ok(v) => {
                let nothing: Vec<char> = Vec::new();
                let out = splice_units(&v, offset, count, &nothing);
                dom.set_text(*self, string_of(&out));
                Ok(())
            },
        }
    }

    /// Puts `data` in the place of the `count` code units that follow
    /// the first `offset` of the character data, or of fewer where the
    /// data ends before.
    pub fn replace_data(&self, dom: &mut Dom, offset: u32, count: u32, data: String) -> (res: Result<
        (),
        DomError,
    >)
        requires
            old(dom).wf(),
            old(dom)@.has(*self),
        ensures
            final(dom).wf(),
            res is Err <==> old(dom)@.data_error(*self, offset as int) is Some,
            res is Err ==> Some(res->Err_0) == old(dom)@.data_error(*self, offset as int) && final(
                dom)@ == old(dom)@,
            res is Ok ==> final(dom)@ == old(dom)@.with_text(
                *self,
                spliced_text(old(dom)@.text_data(*self), offset as int, count as int, data@),
            ),
    {
        match dom.data_at(*self, offset) {
            Err(e) => Err(e),
            Ok(v) => {
                let s = chars_of(data.as_str());
                let out = splice_units(&v, offset, count, &s);
                dom.set_text(*self, string_of(&out));
                Ok(())
            },
        }
    }

    /// Splits this text node after `offset` code units: it keeps the
    /// text before, and a new text node with the rest, which is handed
    /// back, stands just after it in the same parent.
    pub fn split_text(&self, dom: &mut Dom, offset: u32) -> (res: Result<NodeRepr, DomError>)
        requires
            old(dom).wf(),
            old(dom)@.has(*self),
        ensures
            final(dom).wf(),
            !(old(dom)@.kind(*self) is Text) ==> res == Err::<NodeRepr, DomError>(
                DomError::InvalidState,
            ),
            old(dom)@.kind(*self) is Text && offset > unit_len(old(dom)@.text_data(*self)) ==> res
                == Err::<NodeRepr, DomError>(DomError::IndexSize),
            old(dom)@.kind(*self) is Text && offset <= unit_len(old(dom)@.text_data(*self)) ==> res
                == Ok::<NodeRepr, DomError>(NodeRepr(old(dom)@.nodes.len() as usize)),
            res is Err ==> final(dom)@ == old(dom)@,
            res is Ok ==> final(dom)@ == old(dom)@.split_text(*self, offset as int),
    {
        if dom.kind_of(*self) != NodeKind::Text {
            return Err(DomError::InvalidState);
        }
        let v = match dom.data_at(*self, offset) {
            Err(e) => {
                return Err(e);
            },
            Ok(v) => v,
        };
        let ghost v0 = dom@;
        let (head, tail) = cut_units(&v, offset as u64);
        let fresh = dom.create(NodeData::Text { contents: string_of(&tail) });
        dom.set_text(*self, string_of(&head));
        proof {
            v0.lemma_ranked();
        }
        match dom.parent_of(*self) {
            None => {},
            Some(p) => {
                let k = index_in(dom.children_of(p), *self);
                proof {
                    assert(dom@.is_ancestor_or_self(fresh, p) == false) by {
                        if dom@.is_ancestor_or_self(fresh, p) {
                            lemma_leaf_above(dom@, fresh, p);
                        }
                    }
                }
                dom.insert(p, k + 1, fresh);
            },
        }
        Ok(fresh)
    }
}

/// A node without children is above no other node.
pub proof fn lemma_leaf_above(v: DomView, a: NodeRepr, n: NodeRepr)
    requires
        v.wf(),
        v.has(a),
        v.has(n),
        v.children(a).len() == 0,
        v.is_ancestor_or_self(a, n),
    ensures
        a == n,
    decreases v.up(n),
{
    v.lemma_ranked();
    if a != n {
        let q = v.parent(n)->0;
        if q == a {
            assert(v.children(a).contains(n));
        } else {
            lemma_leaf_above(v, a, q);
        }
    }
}

} // verus!
