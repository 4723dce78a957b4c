use composify::common::{name_lt, same_text};
use composify::metadata::{MetadataSet, Qualifier, Qualifiers};
use composify::registry::{RuleRegistry, TypeRegistry};
use composify::rules::{Dependencies, Dependency, Rule};
use composify::solutions::{Solution, SolutionArg, SolutionArgsCollection};
use composify::solve_parameters::{SolveCardinality, SolveParameter, SolveSpecificity};
use composify::type_info::TypeInfo;
use std::sync::Arc;

fn plain(name: &str, module: &str, hash: isize, bases: Vec<isize>) -> TypeInfo {
    TypeInfo::new(
        name.to_string(),
        module.to_string(),
        hash,
        bases,
        MetadataSet::default(),
        Qualifiers::default(),
        SolveParameter::default(),
    )
}

fn accept_all(_q: &Qualifier, _a: &MetadataSet) -> bool {
    true
}

#[test]
fn metadata_later_value_replaces_earlier() {
    let m = MetadataSet::new(vec![(1, 10), (2, 20), (1, 11)]);
    assert_eq!(m.get(1), Some(11));
    assert_eq!(m.get(2), Some(20));
    assert_eq!(m.get(3), None);
    assert_eq!(m.items().len(), 2);
    assert!(!m.is_empty());
    assert!(MetadataSet::new(vec![]).is_empty());
}

#[test]
fn metadata_subset_and_superset() {
    let big = MetadataSet::new(vec![(1, 10), (2, 20)]);
    let small = MetadataSet::new(vec![(2, 20)]);
    let other = MetadataSet::new(vec![(2, 21)]);
    assert!(small.issubset(&big));
    assert!(!big.issubset(&small));
    assert!(big.issuperset(&small));
    assert!(!other.issubset(&big));
    assert!(MetadataSet::default().issubset(&small));
    assert!(big.same(&MetadataSet::new(vec![(2, 20), (1, 10)])));
    assert!(!big.same(&small));
}

#[test]
fn qualifiers_all_must_accept() {
    let qs = Qualifiers::new(vec![Qualifier::new(1), Qualifier::new(2)]);
    let attrs = MetadataSet::default();
    assert!(qs.qualify(&attrs, &accept_all));
    let only_one = |q: &Qualifier, _a: &MetadataSet| q.id == 1;
    assert!(!qs.qualify(&attrs, &only_one));
    assert!(Qualifier::new(1).qualify(&attrs, &only_one));
    assert!(Qualifiers::default().qualify(&attrs, &only_one));
    assert!(Qualifiers::default().is_empty());
    assert!(qs.same(&qs.clone()));
    assert!(!qs.same(&Qualifiers::new(vec![Qualifier::new(2), Qualifier::new(1)])));
}

#[test]
fn canonical_name_of_builtin_and_module_type() {
    assert_eq!(plain("int", "builtins", 1, vec![1]).canonical_name(), "int");
    assert_eq!(plain("Widget", "app.parts", 2, vec![2]).canonical_name(), "app.parts.Widget");
}

#[test]
fn same_key_ignores_policies_and_names() {
    let a = plain("A", "m", 1, vec![1]);
    let mut b = plain("B", "n", 1, vec![1, 0]);
    b.solve_parameter = SolveParameter::new(SolveSpecificity::Exact, SolveCardinality::Single);
    assert!(a.same_key(&b));
    let c = plain("A", "m", 2, vec![2]);
    assert!(!a.same_key(&c));
}

#[test]
fn dependencies_are_ordered_by_name() {
    let deps = Dependencies::new(vec![
        Dependency::new("zeta".to_string(), plain("A", "m", 1, vec![1])),
        Dependency::new("alpha".to_string(), plain("B", "m", 2, vec![2])),
        Dependency::new("mid".to_string(), plain("C", "m", 3, vec![3])),
    ]);
    assert_eq!(deps.len(), 3);
    assert_eq!(deps.get(0).name, "alpha");
    assert_eq!(deps.get(1).name, "mid");
    assert_eq!(deps.get(2).name, "zeta");
    assert!(!deps.has_duplicate_name());
    assert!(!deps.is_empty());
}

#[test]
fn duplicate_names_are_detected() {
    let deps = Dependencies::new(vec![
        Dependency::new("a".to_string(), plain("A", "m", 1, vec![1])),
        Dependency::new("a".to_string(), plain("B", "m", 2, vec![2])),
    ]);
    assert!(deps.has_duplicate_name());
}

#[test]
fn names_compare_lexicographically() {
    assert!(name_lt("a", "b"));
    assert!(name_lt("ab", "abc"));
    assert!(!name_lt("abc", "ab"));
    assert!(!name_lt("same", "same"));
    assert!(name_lt("Z", "a"));
    assert!(same_text("x", "x"));
    assert!(!same_text("x", "xy"));
}

#[test]
fn type_registry_links_ancestors() {
    let mut types = TypeRegistry::new();
    types.add(&plain("Leaf", "m", 3, vec![3, 2, 1]));
    types.add(&plain("Other", "m", 4, vec![4, 1]));
    assert_eq!(types.get_superclasses(3).unwrap(), &vec![3, 2, 1]);
    assert_eq!(types.get_subclasses(1).unwrap(), &vec![3, 4]);
    assert_eq!(types.get_subclasses(2).unwrap(), &vec![3]);
    assert!(types.get_subclasses(5).is_none());
    assert!(types.get_superclasses(1).is_none());
    types.add(&plain("Leaf", "m", 3, vec![3, 2, 1]));
    assert_eq!(types.get_subclasses(1).unwrap(), &vec![3, 4]);
}

#[test]
fn registry_lookups_by_specificity() {
    let mut reg = RuleRegistry::new();
    assert!(reg.add_rule(Rule::new(1, "leaf".to_string(), plain("Leaf", "m", 3, vec![3, 2, 1]), vec![], 0, false)).is_ok());
    assert!(reg.add_rule(Rule::new(2, "base".to_string(), plain("Base", "m", 1, vec![1]), vec![], 0, false)).is_ok());
    let base = plain("Base", "m", 1, vec![1]);
    let exact = reg.get_exact(&base, &accept_all).unwrap();
    assert_eq!(exact.len(), 1);
    assert_eq!(exact[0].function, 2);
    let sub = reg.get_sub(&base, &accept_all).unwrap();
    let fns: Vec<u64> = sub.iter().map(|r| r.function).collect();
    assert_eq!(fns, vec![1, 2]);
    let leaf = plain("Leaf", "m", 3, vec![3]);
    let sup = reg.get_super(&leaf, &accept_all).unwrap();
    let fns: Vec<u64> = sup.iter().map(|r| r.function).collect();
    assert_eq!(fns, vec![1, 2]);
    assert!(reg.get_exact(&plain("Mid", "m", 2, vec![2]), &accept_all).is_none());
    assert!(reg.get_super(&plain("Mid", "m", 2, vec![2]), &accept_all).is_none());
    let by_default = reg.get(&base, &accept_all).unwrap();
    assert_eq!(by_default.len(), 2);
    let inner = reg.inner_get(3, &MetadataSet::new(vec![(1, 1)]), &Qualifiers::default(), &accept_all).unwrap();
    assert!(inner.is_empty());
}

#[test]
fn solution_args_are_ordered_by_name() {
    let rule = Arc::new(Rule::new(1, "r".to_string(), plain("T", "m", 1, vec![1]), vec![], 0, false));
    let leaf = || Solution::new(rule.clone(), SolutionArgsCollection::default());
    let args = SolutionArgsCollection::new(vec![
        SolutionArg::new("b".to_string(), leaf()),
        SolutionArg::new("a".to_string(), leaf()),
    ]);
    assert_eq!(args.get(0).unwrap().name, "a");
    assert_eq!(args.get(1).unwrap().name, "b");
    assert!(args.get(2).is_none());
    let mut more = args.clone();
    more.add(SolutionArg::new("0".to_string(), leaf()));
    assert_eq!(more.len(), 3);
    assert_eq!(more.get(2).unwrap().name, "0");
    let s = Solution::new(rule.clone(), args);
    assert_eq!(s.clone().args.len(), 2);
    assert_eq!(s.output_type().type_hash, 1);
}

#[test]
fn policy_symbols_and_defaults() {
    assert_eq!(SolveCardinality::Exhaustive.symbol(), '*');
    assert_eq!(SolveCardinality::Single.symbol(), '1');
    assert_eq!(SolveCardinality::Exclusive.symbol(), 'x');
    assert_eq!(SolveSpecificity::Exact.symbol(), '=');
    assert_eq!(SolveSpecificity::AllowSubclass.symbol(), '+');
    assert_eq!(SolveSpecificity::AllowSuperclass.symbol(), '-');
    assert_eq!(SolveCardinality::default(), SolveCardinality::Exclusive);
    assert_eq!(SolveSpecificity::default(), SolveSpecificity::AllowSubclass);
    let p = SolveParameter::default();
    assert_eq!(p.specificity, SolveSpecificity::AllowSubclass);
    assert_eq!(p.cardinality, SolveCardinality::Exclusive);
}
