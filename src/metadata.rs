//! Attribute sets and qualifier predicates attached to a requested or
//! produced type.
//!
//! An attribute is a pair `(tag, value)`: `tag` identifies the attribute's
//! own type and `value` identifies the attribute value, both as integers
//! handed over by the host's reflection layer. A set holds at most one value
//! per tag.
use vstd::prelude::*;

use crate::common::copy_vec;

verus! {

/// Whether `s` holds the attribute `(tag, value)`.
pub open spec fn has_entry(s: Seq<(isize, isize)>, tag: isize, value: isize) -> bool {
    exists|i: int| 0 <= i < s.len() && s[i] == (tag, value)
}

/// Whether `s` holds some value under `tag`.
pub open spec fn has_tag(s: Seq<(isize, isize)>, tag: isize) -> bool {
    exists|i: int| 0 <= i < s.len() && s[i].0 == tag
}

/// No tag occurs twice.
pub open spec fn unique_tags(s: Seq<(isize, isize)>) -> bool {
    forall|i: int, j: int| 0 <= i < j < s.len() ==> s[i].0 != s[j].0
}

/// Every attribute of `a` occurs, with an equal value, in `b`.
pub open spec fn attrs_subset(a: Seq<(isize, isize)>, b: Seq<(isize, isize)>) -> bool {
    forall|i: int| 0 <= i < a.len() ==> has_entry(b, a[i].0, a[i].1)
}

/// Two attribute sets hold the same attributes, in whatever order.
pub open spec fn same_attrs(a: Seq<(isize, isize)>, b: Seq<(isize, isize)>) -> bool {
    attrs_subset(a, b) && attrs_subset(b, a)
}

/// The value that the last item under `tag` gives, if any: a later value of
/// the same tag replaces an earlier one.
pub open spec fn last_value(items: Seq<(isize, isize)>, tag: isize) -> Option<isize>
    decreases items.len(),
{
    if items.len() == 0 {
        None
    } else if items.last().0 == tag {
        Some(items.last().1)
    } else {
        last_value(items.drop_last(), tag)
    }
}

/// The first position holding `tag`.
fn position_of_tag(v: &Vec<(isize, isize)>, tag: isize) -> (r: Option<usize>)
    ensures
        match r {
            Some(j) => j < v@.len() && v@[j as int].0 == tag && forall|k: int|
                0 <= k < j ==> v@[k].0 != tag,
            None => forall|k: int| 0 <= k < v@.len() ==> v@[k].0 != tag,
        },
{
    let mut j: usize = 0;
    while j < v.len()
        invariant
            j <= v@.len(),
            forall|k: int| 0 <= k < j ==> v@[k].0 != tag,
        decreases v@.len() - j,
    {
        if v[j].0 == tag {
            return Some(j);
        }
        j += 1;
    }
    None
}

/// Whether `v` holds the pair `e`.
fn contains_entry(v: &Vec<(isize, isize)>, e: (isize, isize)) -> (r: bool)
    ensures
        r == has_entry(v@, e.0, e.1),
{
    let mut j: usize = 0;
    while j < v.len()
        invariant
            j <= v@.len(),
            forall|k: int| 0 <= k < j ==> v@[k] != e,
        decreases v@.len() - j,
    {
        if v[j].0 == e.0 && v[j].1 == e.1 {
            proof {
                assert(v@[j as int] == e);
            }
            return true;
        }
        j += 1;
    }
    false
}

/// A set of attributes, at most one value per tag.
#[derive(Debug)]
pub struct MetadataSet {
    entries: Vec<(isize, isize)>,
}

impl View for MetadataSet {
    type V = Seq<(isize, isize)>;

    closed spec fn view(&self) -> Seq<(isize, isize)> {
        self.entries@
    }
}

impl MetadataSet {
    /// No tag occurs twice.
    #[verifier::type_invariant]
    spec fn tags_are_unique(&self) -> bool {
        unique_tags(self.entries@)
    }

    /// Builds the set from `(tag, value)` items; a later item replaces an
    /// earlier one of the same tag.
    pub fn new(items: Vec<(isize, isize)>) -> (r: MetadataSet)
        ensures
            unique_tags(r@),
            forall|t: isize, v: isize| has_entry(r@, t, v) <==> last_value(items@, t) == Some(v),
    {
        let mut entries: Vec<(isize, isize)> = Vec::new();
        let mut i: usize = 0;
        while i < items.len()
            invariant
                i <= items@.len(),
                unique_tags(entries@),
                forall|t: isize, v: isize|
                    has_entry(entries@, t, v) <==> last_value(items@.take(i as int), t) == Some(v),
            decreases items@.len() - i,
        {
            let (tag, value) = items[i];
            let pos = position_of_tag(&entries, tag);
            let found = pos.is_some();
            let j: usize = match pos {
                Some(j) => j,
                None => entries.len(),
            };
            let ghost before = entries@;
            if found {
                entries.set(j, (tag, value));
            } else {
                entries.push((tag, value));
            }
            proof {
                let prefix = items@.take(i + 1);
                assert(prefix.drop_last() =~= items@.take(i as int));
                assert(prefix.last() == (tag, value));
                assert forall|t: isize, v: isize|
                    has_entry(entries@, t, v) <==> last_value(prefix, t) == Some(v) by {
                    if t == tag {
                        if has_entry(entries@, t, v) {
                            let k = choose|k: int| 0 <= k < entries@.len() && entries@[k] == (t, v);
                            if k != j {
                                assert(before[k] == entries@[k]);
                                if found {
                                    assert(before[j as int].0 == tag);
                                } else {
                                    assert(k < j);
                                }
                            }
                        }
                        if v == value {
                            assert(entries@[j as int] == (tag, value));
                        }
                    } else {
                        if has_entry(entries@, t, v) {
                            let k = choose|k: int| 0 <= k < entries@.len() && entries@[k] == (t, v);
                            assert(k != j);
                            assert(before[k] == (t, v));
                        }
                        if has_entry(before, t, v) {
                            let k = choose|k: int| 0 <= k < before.len() && before[k] == (t, v);
                            assert(entries@[k] == (t, v));
                        }
                    }
                }
                assert forall|a: int, b: int| 0 <= a < b < entries@.len() implies entries@[a].0
                    != entries@[b].0 by {
                    if found {
                        if a == j {
                            assert(before[b].0 != before[j as int].0);
                        } else if b == j {
                            assert(before[a].0 != before[j as int].0);
                        }
                    } else if b == j {
                        assert(a < j);
                    }
                }
            }
            i += 1;
        }
        proof {
            assert(items@.take(items@.len() as int) =~= items@);
        }
        MetadataSet { entries }
    }

    /// The value held under `tag`.
    pub fn get(&self, tag: isize) -> (r: Option<isize>)
        ensures
            unique_tags(self@),
            forall|v: isize| r == Some(v) <==> has_entry(self@, tag, v),
            r is None <==> !has_tag(self@, tag),
    {
        proof {
            use_type_invariant(self);
        }
        let mut i: usize = 0;
        while i < self.entries.len()
            invariant
                i <= self@.len(),
                unique_tags(self@),
                forall|k: int| 0 <= k < i ==> self@[k].0 != tag,
            decreases self@.len() - i,
        {
            if self.entries[i].0 == tag {
                let v = self.entries[i].1;
                proof {
                    assert(self@[i as int] == (tag, v));
                    assert forall|w: isize| has_entry(self@, tag, w) implies w == v by {
                        let k = choose|k: int| 0 <= k < self@.len() && self@[k] == (tag, w);
                        if k != i {
                            assert(self@[k].0 == self@[i as int].0);
                        }
                    }
                }
                return Some(v);
            }
            i += 1;
        }
        None
    }

    /// Every attribute of this set occurs, with an equal value, in `metadata`.
    pub fn issubset(&self, metadata: &MetadataSet) -> (r: bool)
        ensures
            r == attrs_subset(self@, metadata@),
    {
        let mut i: usize = 0;
        while i < self.entries.len()
            invariant
                i <= self@.len(),
                forall|k: int| 0 <= k < i ==> has_entry(metadata@, self@[k].0, self@[k].1),
            decreases self@.len() - i,
        {
            let e = self.entries[i];
            if !contains_entry(&metadata.entries, e) {
                proof {
                    assert(self@[i as int] == e);
                }
                return false;
            }
            i += 1;
        }
        true
    }

    /// Every attribute of `metadata` occurs, with an equal value, in this set.
    pub fn issuperset(&self, metadata: &MetadataSet) -> (r: bool)
        ensures
            r == attrs_subset(metadata@, self@),
    {
        metadata.issubset(self)
    }

    /// Both sets hold the same attributes.
    pub fn same(&self, metadata: &MetadataSet) -> (r: bool)
        ensures
            r == same_attrs(self@, metadata@),
    {
        self.issubset(metadata) && metadata.issubset(self)
    }

    pub fn is_empty(&self) -> (r: bool)
        ensures
            r == (self@.len() == 0),
    {
        self.entries.len() == 0
    }

    /// The attributes, as `(tag, value)` pairs.
    pub fn items(&self) -> (r: Vec<(isize, isize)>)
        ensures
            r@ == self@,
            unique_tags(r@),
    {
        proof {
            use_type_invariant(self);
        }
        copy_vec(&self.entries)
    }
}

impl Clone for MetadataSet {
    fn clone(&self) -> (r: Self)
        ensures
            r@ == self@,
    {
        proof {
            use_type_invariant(self);
        }
        MetadataSet { entries: copy_vec(&self.entries) }
    }
}

impl Default for MetadataSet {
    fn default() -> (r: Self)
        ensures
            r@.len() == 0,
    {
        MetadataSet { entries: Vec::new() }
    }
}

/// A predicate over attribute sets, identified by the integer the host
/// layer gives it. What it answers on a set is for the caller's evaluator to
/// say (see `qualifier_accepts`).
#[derive(Clone, Copy, Debug, PartialEq, Eq, Structural, Hash)]
pub struct Qualifier {
    pub id: isize,
}

/// The evaluator `f` answers `true` for qualifier `q` on `attrs`.
pub open spec fn qualifier_accepts<F: Fn(&Qualifier, &MetadataSet) -> bool>(
    f: F,
    q: Qualifier,
    attrs: MetadataSet,
) -> bool {
    f.ensures((&q, &attrs), true)
}

/// The evaluator can be called on every qualifier and attribute set, and
/// gives one answer for one pair of arguments.
pub open spec fn is_qualifier_predicate<F: Fn(&Qualifier, &MetadataSet) -> bool>(f: F) -> bool {
    &&& forall|q: &Qualifier, a: &MetadataSet| #[trigger] f.requires((q, a))
    &&& forall|q: &Qualifier, a: &MetadataSet, x: bool, y: bool|
        #[trigger] f.ensures((q, a), x) && #[trigger] f.ensures((q, a), y) ==> x == y
}

/// The answers of the evaluator `f`, as a predicate.
pub open spec fn acceptance<F: Fn(&Qualifier, &MetadataSet) -> bool>(f: F) -> spec_fn(
    Qualifier,
    MetadataSet,
) -> bool {
    |q: Qualifier, attrs: MetadataSet| qualifier_accepts(f, q, attrs)
}

/// Every qualifier of `qs` accepts `attrs`.
pub open spec fn all_accept(
    acc: spec_fn(Qualifier, MetadataSet) -> bool,
    qs: Seq<Qualifier>,
    attrs: MetadataSet,
) -> bool {
    forall|k: int| 0 <= k < qs.len() ==> #[trigger] acc(qs[k], attrs)
}

impl Qualifier {
    pub fn new(id: isize) -> (r: Qualifier)
        ensures
            r.id == id,
    {
        Qualifier { id }
    }

    /// Asks the evaluator whether this qualifier accepts `attrs`.
    pub fn qualify<F: Fn(&Qualifier, &MetadataSet) -> bool>(&self, attrs: &MetadataSet, f: &F) -> (r:
        bool)
        requires
            is_qualifier_predicate(*f),
        ensures
            r == qualifier_accepts(*f, *self, *attrs),
    {
        let r = f(self, attrs);
        proof {
            if !r {
                assert(f.ensures((self, attrs), false));
                if f.ensures((self, attrs), true) {
                    assert(false);
                }
            }
        }
        r
    }
}

/// An ordered list of qualifiers; all must accept.
#[derive(Debug)]
pub struct Qualifiers {
    qualifiers: Vec<Qualifier>,
}

impl View for Qualifiers {
    type V = Seq<Qualifier>;

    closed spec fn view(&self) -> Seq<Qualifier> {
        self.qualifiers@
    }
}

impl Qualifiers {
    pub fn new(items: Vec<Qualifier>) -> (r: Qualifiers)
        ensures
            r@ == items@,
    {
        Qualifiers { qualifiers: items }
    }

    /// Whether every qualifier accepts `attrs`; stops at the first refusal.
    pub fn qualify<F: Fn(&Qualifier, &MetadataSet) -> bool>(&self, attrs: &MetadataSet, f: &F) -> (r:
        bool)
        requires
            is_qualifier_predicate(*f),
        ensures
            r == all_accept(acceptance(*f), self@, *attrs),
    {
        let mut i: usize = 0;
        while i < self.qualifiers.len()
            invariant
                is_qualifier_predicate(*f),
                i <= self@.len(),
                forall|k: int| 0 <= k < i ==> #[trigger] acceptance(*f)(self@[k], *attrs),
            decreases self@.len() - i,
        {
            if !self.qualifiers[i].qualify(attrs, f) {
                proof {
                    assert(!acceptance(*f)(self@[i as int], *attrs));
                }
                return false;
            }
            i += 1;
        }
        true
    }

    pub fn is_empty(&self) -> (r: bool)
        ensures
            r == (self@.len() == 0),
    {
        self.qualifiers.len() == 0
    }

    /// Whether both lists hold the same qualifiers in the same order.
    pub fn same(&self, other: &Qualifiers) -> (r: bool)
        ensures
            r == (self@ == other@),
    {
        if self.qualifiers.len() != other.qualifiers.len() {
            return false;
        }
        let mut i: usize = 0;
        while i < self.qualifiers.len()
            invariant
                i <= self@.len(),
                self@.len() == other@.len(),
                forall|k: int| 0 <= k < i ==> self@[k] == other@[k],
            decreases self@.len() - i,
        {
            if self.qualifiers[i] != other.qualifiers[i] {
                return false;
            }
            i += 1;
        }
        proof {
            assert(self@ =~= other@);
        }
        true
    }

    /// The qualifiers in order.
    pub fn items(&self) -> (r: Vec<Qualifier>)
        ensures
            r@ == self@,
    {
        copy_vec(&self.qualifiers)
    }
}

impl Clone for Qualifiers {
    fn clone(&self) -> (r: Self)
        ensures
            r@ == self@,
    {
        Qualifiers { qualifiers: copy_vec(&self.qualifiers) }
    }
}

impl Default for Qualifiers {
    fn default() -> (r: Self)
        ensures
            r@.len() == 0,
    {
        Qualifiers { qualifiers: Vec::new() }
    }
}

} // verus!
