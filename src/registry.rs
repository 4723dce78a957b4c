//! The rule registry: rules indexed by the identity of their output type,
//! the ancestor/descendant index over registered types, and the lookup that
//! honours specificity, attributes and qualifiers.
use vstd::prelude::*;
use std::collections::HashMap;
use std::sync::Arc;

use crate::common::copy_vec;
use crate::metadata::{acceptance, all_accept, attrs_subset, is_qualifier_predicate, MetadataSet, Qualifier, Qualifiers};
use crate::rules::{has_duplicate_name, Rule};
use crate::solve_parameters::SolveSpecificity;
use crate::type_info::{TypeInfo, TypeInfoView};

verus! {

broadcast use vstd::std_specs::hash::group_hash_axioms;

/// The identity of a type, as the host gives it.
pub type TypeHash = isize;

/// `s` with `x` appended unless already present.
pub open spec fn push_unique(s: Seq<isize>, x: isize) -> Seq<isize> {
    if s.contains(x) {
        s
    } else {
        s.push(x)
    }
}

/// Ancestor and descendant closure over the registered output types.
#[derive(Debug)]
pub struct TypeRegistry {
    subclasses: HashMap<TypeHash, Vec<TypeHash>>,
    superclasses: HashMap<TypeHash, Vec<TypeHash>>,
}

impl TypeRegistry {
    /// The registered descendants of `t`, itself included once it is
    /// registered, in order of registration.
    pub closed spec fn subclasses_of(&self, t: TypeHash) -> Seq<TypeHash> {
        if self.subclasses@.contains_key(t) {
            self.subclasses@[t]@
        } else {
            Seq::empty()
        }
    }

    /// The ancestor chain recorded for `t`, itself included.
    pub closed spec fn superclasses_of(&self, t: TypeHash) -> Seq<TypeHash> {
        if self.superclasses@.contains_key(t) {
            self.superclasses@[t]@
        } else {
            Seq::empty()
        }
    }

    /// Whether `t` was registered as an output type.
    pub closed spec fn has_superclasses(&self, t: TypeHash) -> bool {
        self.superclasses@.contains_key(t)
    }

    /// Whether `t` is the ancestor of some registered type.
    pub closed spec fn has_subclasses(&self, t: TypeHash) -> bool {
        self.subclasses@.contains_key(t)
    }

    /// `self` is `prev` after recording type `t` with ancestor chain `bases`.
    pub open spec fn extends(&self, prev: TypeRegistry, t: TypeHash, bases: Seq<TypeHash>) -> bool {
        &&& forall|u: TypeHash| #[trigger]
            self.superclasses_of(u) == if u == t {
                bases
            } else {
                prev.superclasses_of(u)
            }
        &&& forall|u: TypeHash| #[trigger]
            self.subclasses_of(u) == if bases.contains(u) {
                push_unique(prev.subclasses_of(u), t)
            } else {
                prev.subclasses_of(u)
            }
        &&& forall|u: TypeHash| #[trigger]
            self.has_superclasses(u) == (u == t || prev.has_superclasses(u))
        &&& forall|u: TypeHash| #[trigger]
            self.has_subclasses(u) == (bases.contains(u) || prev.has_subclasses(u))
    }

    pub fn new() -> (r: TypeRegistry)
        ensures
            forall|t: TypeHash| !r.has_subclasses(t) && !r.has_superclasses(t),
    {
        TypeRegistry { subclasses: HashMap::new(), superclasses: HashMap::new() }
    }

    fn add_subclass(&mut self, superclass: TypeHash, subclass: TypeHash)
        ensures
            forall|t: TypeHash| #[trigger]
                final(self).subclasses_of(t) == if t == superclass {
                    push_unique(old(self).subclasses_of(t), subclass)
                } else {
                    old(self).subclasses_of(t)
                },
            forall|t: TypeHash| #[trigger]
                final(self).has_subclasses(t) == (t == superclass || old(self).has_subclasses(t)),
            final(self).superclasses@ == old(self).superclasses@,
    {
        let mut list = match self.subclasses.remove(&superclass) {
            Some(v) => v,
            None => Vec::new(),
        };
        let ghost before = list@;
        let mut i: usize = 0;
        let mut present = false;
        while i < list.len()
            invariant
                i <= list@.len(),
                list@ == before,
                present ==> before.contains(subclass),
                !present ==> forall|k: int| 0 <= k < i ==> before[k] != subclass,
            decreases list@.len() - i,
        {
            if list[i] == subclass {
                present = true;
            }
            i += 1;
        }
        if !present {
            list.push(subclass);
        }
        proof {
            assert(list@ == push_unique(before, subclass));
        }
        self.subclasses.insert(superclass, list);
    }

    /// Records the ancestor chain of `typing` and links it as a descendant
    /// of every type of that chain.
    pub fn add(&mut self, typing: &TypeInfo)
        ensures
            final(self).extends(*old(self), typing.type_hash, typing.bases@),
    {
        let type_hash = typing.type_hash;
        let mut i: usize = 0;
        while i < typing.bases.len()
            invariant
                i <= typing.bases@.len(),
                self.superclasses@ == old(self).superclasses@,
                forall|t: TypeHash| #[trigger]
                    self.subclasses_of(t) == if typing.bases@.subrange(0, i as int).contains(t) {
                        push_unique(old(self).subclasses_of(t), type_hash)
                    } else {
                        old(self).subclasses_of(t)
                    },
                forall|t: TypeHash| #[trigger]
                    self.has_subclasses(t) == (typing.bases@.subrange(0, i as int).contains(t)
                        || old(self).has_subclasses(t)),
            decreases typing.bases@.len() - i,
        {
            let b = typing.bases[i];
            let ghost mid = *self;
            self.add_subclass(b, type_hash);
            proof {
                let s0 = typing.bases@.subrange(0, i as int);
                let s1 = typing.bases@.subrange(0, i + 1);
                assert(s1 =~= s0.push(b));
                assert forall|t: TypeHash| #[trigger] s1.contains(t) == (s0.contains(t) || t == b) by {
                    if s1.contains(t) {
                        let k = choose|k: int| 0 <= k < s1.len() && s1[k] == t;
                        if k < s0.len() {
                            assert(s0[k] == t);
                        }
                    }
                    if s0.contains(t) {
                        let k = choose|k: int| 0 <= k < s0.len() && s0[k] == t;
                        assert(s1[k] == t);
                    }
                    if t == b {
                        assert(s1[i as int] == t);
                    }
                }
                assert forall|t: TypeHash| #[trigger]
                    self.subclasses_of(t) == if s1.contains(t) {
                        push_unique(old(self).subclasses_of(t), type_hash)
                    } else {
                        old(self).subclasses_of(t)
                    } by {
                    assert(self.subclasses_of(t) == if t == b {
                        push_unique(mid.subclasses_of(t), type_hash)
                    } else {
                        mid.subclasses_of(t)
                    });
                    if t == b && s0.contains(t) {
                        let base = old(self).subclasses_of(t);
                        assert(push_unique(base, type_hash).contains(type_hash)) by {
                            if !base.contains(type_hash) {
                                assert(base.push(type_hash)[base.len() as int] == type_hash);
                            }
                        }
                    }
                }
            }
            i += 1;
        }
        proof {
            assert(typing.bases@.subrange(0, i as int) =~= typing.bases@);
        }
        let ghost looped = *self;
        self.superclasses.insert(type_hash, copy_vec(&typing.bases));
        proof {
            assert forall|t: TypeHash| #[trigger] self.subclasses_of(t) == looped.subclasses_of(t) by {}
            assert forall|t: TypeHash| #[trigger]
                self.has_subclasses(t) == (typing.bases@.contains(t) || old(self).has_subclasses(t))
                by {
                assert(looped.has_subclasses(t) == (typing.bases@.subrange(0, i as int).contains(t)
                    || old(self).has_subclasses(t)));
            }
        }
    }

    /// The registered descendants of `key`, if it is the ancestor of any
    /// registered type.
    pub fn get_subclasses(&self, key: TypeHash) -> (r: Option<&Vec<TypeHash>>)
        ensures
            match r {
                Some(v) => self.has_subclasses(key) && v@ == self.subclasses_of(key),
                None => !self.has_subclasses(key) && self.subclasses_of(key).len() == 0,
            },
    {
        self.subclasses.get(&key)
    }

    /// The ancestor chain of `key`, if it was registered.
    pub fn get_superclasses(&self, key: TypeHash) -> (r: Option<&Vec<TypeHash>>)
        ensures
            match r {
                Some(v) => self.has_superclasses(key) && v@ == self.superclasses_of(key),
                None => !self.has_superclasses(key) && self.superclasses_of(key).len() == 0,
            },
    {
        self.superclasses.get(&key)
    }
}

impl Clone for TypeRegistry {
    fn clone(&self) -> (r: Self)
        ensures
            forall|t: TypeHash| #[trigger] r.subclasses_of(t) == self.subclasses_of(t),
            forall|t: TypeHash| #[trigger] r.superclasses_of(t) == self.superclasses_of(t),
            forall|t: TypeHash| #[trigger] r.has_subclasses(t) == self.has_subclasses(t),
            forall|t: TypeHash| #[trigger] r.has_superclasses(t) == self.has_superclasses(t),
    {
        TypeRegistry { subclasses: self.subclasses.clone(), superclasses: self.superclasses.clone() }
    }
}

/// Why a rule could not be registered.
#[derive(Clone, Copy, Debug, PartialEq, Eq, Structural)]
pub enum RegistrationError {
    /// Two dependencies of the rule share a name.
    DuplicateDependencyName,
}

/// A rule satisfies a request for these attributes and qualifiers: the
/// requested attributes are a subset of the rule's output attributes, and
/// every qualifier accepts the rule's output attributes.
pub open spec fn rule_matches(
    r: Rule,
    attributes: Seq<(isize, isize)>,
    qualifiers: Seq<Qualifier>,
    acc: spec_fn(Qualifier, MetadataSet) -> bool,
) -> bool {
    attrs_subset(attributes, r.output_type.attributes@) && all_accept(
        acc,
        qualifiers,
        r.output_type.attributes,
    )
}

/// The rules of `rs` that match, in their order.
pub open spec fn matching(
    rs: Seq<Arc<Rule>>,
    attributes: Seq<(isize, isize)>,
    qualifiers: Seq<Qualifier>,
    acc: spec_fn(Qualifier, MetadataSet) -> bool,
) -> Seq<Arc<Rule>>
    decreases rs.len(),
{
    if rs.len() == 0 {
        Seq::empty()
    } else {
        let prev = matching(rs.drop_last(), attributes, qualifiers, acc);
        if rule_matches(*rs.last(), attributes, qualifiers, acc) {
            prev.push(rs.last())
        } else {
            prev
        }
    }
}

/// Rules are ordered from highest priority to lowest.
pub open spec fn priority_ordered(rs: Seq<Arc<Rule>>) -> bool {
    forall|i: int, j: int| 0 <= i < j < rs.len() ==> rs[i].priority >= rs[j].priority
}

/// `new` is `old` with `rule` inserted at `p`, after every rule of equal or
/// higher priority and before every rule of lower priority.
pub open spec fn inserted_at(new: Seq<Arc<Rule>>, old: Seq<Arc<Rule>>, p: int, rule: Rule) -> bool {
    &&& 0 <= p <= old.len()
    &&& new.len() == old.len() + 1
    &&& *new[p] == rule
    &&& forall|k: int| 0 <= k < p ==> old[k].priority >= rule.priority && #[trigger] new[k] == old[k]
    &&& forall|k: int|
        p < k < new.len() ==> old[k - 1].priority < rule.priority && #[trigger] new[k] == old[k - 1]
}

/// All rules, indexed by the identity of their output type, with the type
/// index over those output types.
#[derive(Debug)]
pub struct RuleRegistry {
    rules: HashMap<TypeHash, Vec<Arc<Rule>>>,
    types: TypeRegistry,
}

impl RuleRegistry {
    /// The rules registered for exactly `t`, highest priority first.
    pub closed spec fn rules_for(&self, t: TypeHash) -> Seq<Arc<Rule>> {
        if self.rules@.contains_key(t) {
            self.rules@[t]@
        } else {
            Seq::empty()
        }
    }

    /// The type index over the registered output types.
    pub closed spec fn type_index(&self) -> TypeRegistry {
        self.types
    }

    /// Whether some rule was registered for exactly `t`.
    pub closed spec fn has_rules_for(&self, t: TypeHash) -> bool {
        self.rules@.contains_key(t)
    }

    /// Every identity's rules are ordered by priority.
    pub open spec fn wf(&self) -> bool {
        forall|t: TypeHash| #[trigger] priority_ordered(self.rules_for(t))
    }

    /// The matching rules of every identity in `keys`, identity by identity.
    pub open spec fn gather(
        &self,
        keys: Seq<TypeHash>,
        attributes: Seq<(isize, isize)>,
        qualifiers: Seq<Qualifier>,
        acc: spec_fn(Qualifier, MetadataSet) -> bool,
    ) -> Seq<Arc<Rule>>
        decreases keys.len(),
    {
        if keys.len() == 0 {
            Seq::empty()
        } else {
            self.gather(keys.drop_last(), attributes, qualifiers, acc) + matching(
                self.rules_for(keys.last()),
                attributes,
                qualifiers,
                acc,
            )
        }
    }

    /// The candidate rules for a request, as its specificity widens it.
    pub open spec fn lookup(
        &self,
        target: TypeInfoView,
        acc: spec_fn(Qualifier, MetadataSet) -> bool,
    ) -> Seq<Arc<Rule>> {
        match target.solve_parameter.specificity {
            SolveSpecificity::Exact => matching(
                self.rules_for(target.type_hash),
                target.attributes,
                target.qualifiers,
                acc,
            ),
            SolveSpecificity::AllowSubclass => self.gather(
                self.type_index().subclasses_of(target.type_hash),
                target.attributes,
                target.qualifiers,
                acc,
            ),
            SolveSpecificity::AllowSuperclass => self.gather(
                self.type_index().superclasses_of(target.type_hash),
                target.attributes,
                target.qualifiers,
                acc,
            ),
        }
    }

    pub fn new() -> (r: RuleRegistry)
        ensures
            r.wf(),
            forall|t: TypeHash| #[trigger] r.rules_for(t).len() == 0 && !r.has_rules_for(t),
            forall|t: TypeHash|
                !r.type_index().has_subclasses(t) && !r.type_index().has_superclasses(t),
    {
        RuleRegistry { rules: HashMap::new(), types: TypeRegistry::new() }
    }

    /// `self` is `prev` with `rule` placed among the rules of its output
    /// type: after every rule of equal or higher priority, before every rule
    /// of lower priority. The other identities keep their rules.
    pub open spec fn inserts(&self, prev: RuleRegistry, rule: Rule) -> bool {
        let t = rule.output_type.type_hash;
        &&& forall|u: TypeHash| u != t ==> #[trigger] self.rules_for(u) == prev.rules_for(u)
        &&& forall|u: TypeHash| #[trigger]
            self.has_rules_for(u) == (u == t || prev.has_rules_for(u))
        &&& exists|p: int| #[trigger] inserted_at(self.rules_for(t), prev.rules_for(t), p, rule)
    }

    /// Places `rule` among the rules of its output type, keeping them
    /// ordered from highest priority to lowest; rules of equal priority keep
    /// the order they were added in.
    pub fn add(&mut self, rule: Rule)
        requires
            old(self).wf(),
        ensures
            final(self).wf(),
            final(self).type_index() == old(self).type_index(),
            final(self).inserts(*old(self), rule),
    {
        let ghost spec_rule = rule;
        let key = rule.output_type.type_hash;
        let priority = rule.priority;
        let mut list = match self.rules.remove(&key) {
            Some(v) => v,
            None => Vec::new(),
        };
        let ghost before = list@;
        proof {
            assert(before == old(self).rules_for(key));
            assert(priority_ordered(old(self).rules_for(key)));
        }
        let mut p: usize = 0;
        while p < list.len() && list[p].priority >= priority
            invariant
                p <= list@.len(),
                list@ == before,
                forall|k: int| 0 <= k < p ==> list@[k].priority >= priority,
            decreases list@.len() - p,
        {
            p += 1;
        }
        list.insert(p, Arc::new(rule));
        let ghost after = list@;
        self.rules.insert(key, list);
        proof {
            assert(self.rules_for(key) == after);
            assert forall|k: int| p < k < before.len() implies before[k].priority < priority by {
                assert(before[p as int].priority >= before[k].priority);
            }
            assert forall|i: int, j: int| 0 <= i < j < after.len() implies after[i].priority
                >= after[j].priority by {
                if j < p {
                } else if j == p {
                    assert(after[i] == before[i]);
                } else if i == p {
                    assert(after[j] == before[j - 1]);
                } else if i < p {
                    assert(after[i] == before[i] && after[j] == before[j - 1]);
                } else {
                    assert(after[i] == before[i - 1] && after[j] == before[j - 1]);
                }
            }
            assert(priority_ordered(self.rules_for(key)));
            assert forall|t: TypeHash| #[trigger] priority_ordered(self.rules_for(t)) by {
                if t != key {
                    assert(self.rules_for(t) == old(self).rules_for(t));
                }
            }
            assert(inserted_at(self.rules_for(key), old(self).rules_for(key), p as int, spec_rule));
        }
    }

    /// Registers `rule`: records its output type in the type index and
    /// places the rule by priority. A rule with two dependencies of one
    /// name is refused and nothing changes.
    pub fn add_rule(&mut self, rule: Rule) -> (r: Result<(), RegistrationError>)
        requires
            old(self).wf(),
        ensures
            final(self).wf(),
            r is Err <==> has_duplicate_name(rule.dependencies@),
            r is Err ==> *final(self) == *old(self),
            r is Ok ==> final(self).type_index().extends(
                old(self).type_index(),
                rule.output_type.type_hash,
                rule.output_type.bases@,
            ),
            r is Ok ==> final(self).inserts(*old(self), rule),
    {
        if rule.dependencies.has_duplicate_name() {
            return Err(RegistrationError::DuplicateDependencyName);
        }
        let ghost start = *self;
        self.types.add(&rule.output_type);
        let ghost mid = *self;
        proof {
            assert(mid.rules == start.rules);
            assert forall|t: TypeHash| #[trigger] priority_ordered(mid.rules_for(t)) by {
                assert(mid.rules_for(t) == start.rules_for(t));
            }
        }
        self.add(rule);
        proof {
            let t = rule.output_type.type_hash;
            assert(mid.rules_for(t) == start.rules_for(t));
            assert forall|u: TypeHash| u != t implies #[trigger] self.rules_for(u) == start.rules_for(u) by {
                assert(mid.rules_for(u) == start.rules_for(u));
            }
            assert forall|u: TypeHash| #[trigger] self.has_rules_for(u) == (u == t
                || start.has_rules_for(u)) by {
                assert(mid.has_rules_for(u) == start.has_rules_for(u));
            }
        }
        Ok(())
    }

    /// Registers each rule in turn, stopping at the first that is refused.
    pub fn add_rules(&mut self, rules: Vec<Rule>) -> (r: Result<(), RegistrationError>)
        requires
            old(self).wf(),
        ensures
            final(self).wf(),
            r is Ok <==> forall|i: int|
                0 <= i < rules@.len() ==> !has_duplicate_name(#[trigger] rules@[i].dependencies@),
            forall|i: int|
                0 <= i < rules@.len() && (forall|j: int|
                    0 <= j <= i ==> !has_duplicate_name(#[trigger] rules@[j].dependencies@))
                    ==> final(self).holds_rule(rules@[i]),
    {
        let ghost all = rules@;
        let n = rules.len();
        let mut rest = rules;
        let mut i: usize = 0;
        while rest.len() > 0
            invariant
                self.wf(),
                rest@ == all.subrange(i as int, all.len() as int),
                all == rules@,
                n == all.len(),
                i <= all.len(),
                forall|j: int| 0 <= j < i ==> !has_duplicate_name(#[trigger] all[j].dependencies@),
                forall|j: int| 0 <= j < i ==> self.holds_rule(#[trigger] all[j]),
            decreases all.len() - i,
        {
            let ghost at = i as int;
            proof {
                assert(rest@.len() == all.len() - i);
                assert(at < all.len());
            }
            let rule = rest.remove(0);
            proof {
                assert(rule == all[i as int]);
            }
            let ghost before = *self;
            match self.add_rule(rule) {
                Ok(()) => {},
                Err(e) => {
                    proof {
                        let i0 = i as int;
                        assert(has_duplicate_name(all[i0].dependencies@));
                        assert forall|k: int|
                            0 <= k < all.len() && (forall|j: int|
                                0 <= j <= k ==> !has_duplicate_name(#[trigger] all[j].dependencies@))
                                implies self.holds_rule(all[k]) by {
                            if k >= i0 {
                                assert(!has_duplicate_name(all[i0].dependencies@));
                            }
                        }
                    }
                    return Err(e);
                },
            }
            proof {
                assert forall|j: int| 0 <= j <= i implies self.holds_rule(#[trigger] all[j]) by {
                    if j < i {
                        before.lemma_inserts_keeps(*self, all[i as int], all[j]);
                    } else {
                        self.lemma_inserted_held(before, all[i as int]);
                    }
                }
                assert(rest@ =~= all.subrange(i + 1, all.len() as int));
                assert(i < all.len());
            }
            i += 1;
        }
        proof {
            assert(i == all.len());
        }
        Ok(())
    }

    /// Some rule registered for `rule`'s output type equals `rule`.
    pub open spec fn holds_rule(&self, rule: Rule) -> bool {
        exists|k: int|
            0 <= k < self.rules_for(rule.output_type.type_hash).len() && *#[trigger] self.rules_for(
                rule.output_type.type_hash,
            )[k] == rule
    }

    proof fn lemma_inserts_keeps(&self, next: RuleRegistry, added: Rule, kept: Rule)
        requires
            next.inserts(*self, added),
            self.holds_rule(kept),
        ensures
            next.holds_rule(kept),
    {
        let t = kept.output_type.type_hash;
        let k = choose|k: int| 0 <= k < self.rules_for(t).len() && *#[trigger] self.rules_for(t)[k] == kept;
        if t == added.output_type.type_hash {
            let p = choose|p: int| #[trigger] inserted_at(next.rules_for(t), self.rules_for(t), p, added);
            if k < p {
                assert(next.rules_for(t)[k] == self.rules_for(t)[k]);
            } else {
                assert(next.rules_for(t)[k + 1] == self.rules_for(t)[k]);
            }
        } else {
            assert(next.rules_for(t) == self.rules_for(t));
        }
    }

    proof fn lemma_inserted_held(&self, prev: RuleRegistry, added: Rule)
        requires
            self.inserts(prev, added),
        ensures
            self.holds_rule(added),
    {
        let t = added.output_type.type_hash;
        let p = choose|p: int| #[trigger] inserted_at(self.rules_for(t), prev.rules_for(t), p, added);
        assert(*self.rules_for(t)[p] == added);
    }
    /// The matching rules registered for exactly `key`; `None` when no rule
    /// was registered for it.
    pub fn inner_get<F: Fn(&Qualifier, &MetadataSet) -> bool>(
        &self,
        key: TypeHash,
        attributes: &MetadataSet,
        qualifiers: &Qualifiers,
        f: &F,
    ) -> (r: Option<Vec<Arc<Rule>>>)
        requires
            is_qualifier_predicate(*f),
        ensures
            r is None <==> !self.has_rules_for(key),
            found(r) == matching(self.rules_for(key), attributes@, qualifiers@, acceptance(*f)),
    {
        let list = match self.rules.get(&key) {
            Some(list) => list,
            None => {
                return None;
            },
        };
        let mut out: Vec<Arc<Rule>> = Vec::new();
        let mut i: usize = 0;
        while i < list.len()
            invariant
                is_qualifier_predicate(*f),
                list@ == self.rules_for(key),
                i <= list@.len(),
                out@ == matching(list@.take(i as int), attributes@, qualifiers@, acceptance(*f)),
            decreases list@.len() - i,
        {
            let rule = &list[i];
            let ok = attributes.issubset(&rule.output_type.attributes) && qualifiers.qualify(
                &rule.output_type.attributes,
                f,
            );
            proof {
                assert(list@.take(i + 1).drop_last() =~= list@.take(i as int));
                assert(list@.take(i + 1).last() == list@[i as int]);
            }
            if ok {
                out.push(rule.clone());
            }
            i += 1;
        }
        proof {
            assert(list@.take(i as int) =~= list@);
        }
        Some(out)
    }

    /// The matching rules of every identity in `keys`, identity by identity.
    fn gather_rules<F: Fn(&Qualifier, &MetadataSet) -> bool>(
        &self,
        keys: &Vec<TypeHash>,
        type_info: &TypeInfo,
        f: &F,
    ) -> (r: Vec<Arc<Rule>>)
        requires
            is_qualifier_predicate(*f),
        ensures
            r@ == self.gather(keys@, type_info.attributes@, type_info.qualifiers@, acceptance(*f)),
    {
        let mut out: Vec<Arc<Rule>> = Vec::new();
        let mut i: usize = 0;
        while i < keys.len()
            invariant
                is_qualifier_predicate(*f),
                i <= keys@.len(),
                out@ == self.gather(
                    keys@.take(i as int),
                    type_info.attributes@,
                    type_info.qualifiers@,
                    acceptance(*f),
                ),
            decreases keys@.len() - i,
        {
            let found_rules = self.inner_get(keys[i], &type_info.attributes, &type_info.qualifiers, f);
            proof {
                assert(keys@.take(i + 1).drop_last() =~= keys@.take(i as int));
                assert(keys@.take(i + 1).last() == keys@[i as int]);
                if found_rules is None {
                    assert(self.rules_for(keys@[i as int]) =~= Seq::empty());
                }
            }
            match found_rules {
                Some(mut more) => {
                    out.append(&mut more);
                },
                None => {
                    proof {
                        assert(out@ =~= out@ + Seq::<Arc<Rule>>::empty());
                    }
                },
            }
            i += 1;
        }
        proof {
            assert(keys@.take(i as int) =~= keys@);
        }
        out
    }

    /// The matching rules of `type_info`'s identity and of every registered
    /// descendant; `None` when there are none.
    pub fn get_sub<F: Fn(&Qualifier, &MetadataSet) -> bool>(&self, type_info: &TypeInfo, f: &F) -> (r:
        Option<Vec<Arc<Rule>>>)
        requires
            is_qualifier_predicate(*f),
        ensures
            found(r) == self.gather(
                self.type_index().subclasses_of(type_info.type_hash),
                type_info.attributes@,
                type_info.qualifiers@,
                acceptance(*f),
            ),
            r is Some ==> found(r).len() > 0,
    {
        match self.types.get_subclasses(type_info.type_hash) {
            Some(keys) => {
                let rules = self.gather_rules(keys, type_info, f);
                if rules.len() == 0 {
                    None
                } else {
                    Some(rules)
                }
            },
            None => None,
        }
    }

    /// The matching rules of `type_info`'s identity and of every type of its
    /// ancestor chain; `None` when there are none.
    pub fn get_super<F: Fn(&Qualifier, &MetadataSet) -> bool>(&self, type_info: &TypeInfo, f: &F) -> (r:
        Option<Vec<Arc<Rule>>>)
        requires
            is_qualifier_predicate(*f),
        ensures
            found(r) == self.gather(
                self.type_index().superclasses_of(type_info.type_hash),
                type_info.attributes@,
                type_info.qualifiers@,
                acceptance(*f),
            ),
            r is Some ==> found(r).len() > 0,
    {
        match self.types.get_superclasses(type_info.type_hash) {
            Some(keys) => {
                let rules = self.gather_rules(keys, type_info, f);
                if rules.len() == 0 {
                    None
                } else {
                    Some(rules)
                }
            },
            None => None,
        }
    }

    /// The matching rules registered for exactly `type_info`'s identity.
    pub fn get_exact<F: Fn(&Qualifier, &MetadataSet) -> bool>(&self, type_info: &TypeInfo, f: &F) -> (r:
        Option<Vec<Arc<Rule>>>)
        requires
            is_qualifier_predicate(*f),
        ensures
            r is None <==> !self.has_rules_for(type_info.type_hash),
            found(r) == matching(
                self.rules_for(type_info.type_hash),
                type_info.attributes@,
                type_info.qualifiers@,
                acceptance(*f),
            ),
    {
        self.inner_get(type_info.type_hash, &type_info.attributes, &type_info.qualifiers, f)
    }

    /// The candidate rules for `type_info`, as its specificity widens it.
    pub fn get<F: Fn(&Qualifier, &MetadataSet) -> bool>(&self, type_info: &TypeInfo, f: &F) -> (r:
        Option<Vec<Arc<Rule>>>)
        requires
            is_qualifier_predicate(*f),
        ensures
            found(r) == self.lookup(type_info@, acceptance(*f)),
    {
        match type_info.solve_parameter.specificity {
            SolveSpecificity::Exact => self.get_exact(type_info, f),
            SolveSpecificity::AllowSubclass => self.get_sub(type_info, f),
            SolveSpecificity::AllowSuperclass => self.get_super(type_info, f),
        }
    }
}

impl Clone for RuleRegistry {
    /// A registry holding the same rules, shared, and the same type index.
    fn clone(&self) -> (r: Self)
        ensures
            forall|t: TypeHash| #[trigger] r.rules_for(t) == self.rules_for(t),
            forall|t: TypeHash| #[trigger] r.has_rules_for(t) == self.has_rules_for(t),
            forall|t: TypeHash| #[trigger]
                r.type_index().subclasses_of(t) == self.type_index().subclasses_of(t),
            forall|t: TypeHash| #[trigger]
                r.type_index().superclasses_of(t) == self.type_index().superclasses_of(t),
            self.wf() ==> r.wf(),
    {
        let r = RuleRegistry { rules: self.rules.clone(), types: self.types.clone() };
        proof {
            assert forall|t: TypeHash| #[trigger] r.rules_for(t) == self.rules_for(t) by {}
            if self.wf() {
                assert forall|t: TypeHash| #[trigger] priority_ordered(r.rules_for(t)) by {
                    assert(r.rules_for(t) == self.rules_for(t));
                }
            }
        }
        r
    }
}

/// The rules a lookup returned, none for `None`.
pub open spec fn found(r: Option<Vec<Arc<Rule>>>) -> Seq<Arc<Rule>> {
    match r {
        Some(v) => v@,
        None => Seq::empty(),
    }
}

} // verus!
