use std::cell::Cell;

use composify::metadata::{MetadataSet, Qualifier, Qualifiers};
use composify::registry::{RegistrationError, RuleRegistry};
use composify::rules::{Dependency, Rule};
use composify::solutions::Solution;
use composify::solve_parameters::{SolveCardinality, SolveParameter, SolveSpecificity};
use composify::solver::{permutate_candidates, Solver, SolvingError, SolvingErrorReason};
use composify::type_info::TypeInfo;

fn key(
    name: &str,
    hash: isize,
    bases: Vec<isize>,
    attrs: Vec<(isize, isize)>,
    specificity: SolveSpecificity,
    cardinality: SolveCardinality,
) -> TypeInfo {
    TypeInfo::new(
        name.to_string(),
        "tests".to_string(),
        hash,
        bases,
        MetadataSet::new(attrs),
        Qualifiers::new(Vec::new()),
        SolveParameter::new(specificity, cardinality),
    )
}

fn output(name: &str, hash: isize, bases: Vec<isize>) -> TypeInfo {
    key(name, hash, bases, Vec::new(), SolveSpecificity::Exact, SolveCardinality::Exhaustive)
}

fn request(name: &str, hash: isize, cardinality: SolveCardinality) -> TypeInfo {
    key(name, hash, vec![hash], Vec::new(), SolveSpecificity::Exact, cardinality)
}

fn rule(function: u64, out: TypeInfo, deps: Vec<Dependency>, priority: i32) -> Rule {
    Rule::new(function, format!("rule_{}", function), out, deps, priority, false)
}

fn dep(name: &str, typing: TypeInfo) -> Dependency {
    Dependency::new(name.to_string(), typing)
}

fn accept_all(_q: &Qualifier, _a: &MetadataSet) -> bool {
    true
}

fn registry(rules: Vec<Rule>) -> RuleRegistry {
    let mut reg = RuleRegistry::new();
    assert!(reg.add_rules(rules).is_ok());
    reg
}

fn arg_function(s: &Solution, i: usize) -> u64 {
    s.args.get(i).unwrap().solution.function()
}

fn has_reason(errors: &[SolvingError], pred: impl Fn(&SolvingErrorReason) -> bool) -> bool {
    errors.iter().any(|e| pred(&e.reason))
}

#[test]
fn solve_twice_is_answered_from_memo() {
    let reg = registry(vec![
        rule(1, output("T", 1, vec![1]), vec![dep("a", request("A", 2, SolveCardinality::Exhaustive))], 0),
        rule(2, output("A", 2, vec![2]), Vec::new(), 0),
    ]);
    let mut solver = Solver::new(reg);
    let calls = Cell::new(0u32);
    let counting = |_q: &Qualifier, _a: &MetadataSet| {
        calls.set(calls.get() + 1);
        true
    };
    let target = TypeInfo::new(
        "T".to_string(),
        "tests".to_string(),
        1,
        vec![1],
        MetadataSet::new(Vec::new()),
        Qualifiers::new(vec![Qualifier::new(9)]),
        SolveParameter::new(SolveSpecificity::Exact, SolveCardinality::Exhaustive),
    );
    let first = solver.solve_for(&target, &counting).unwrap();
    let after_first = calls.get();
    assert_eq!(after_first, 1);
    let second = solver.solve_for(&target, &counting).unwrap();
    assert_eq!(calls.get(), after_first);
    assert_eq!(first.len(), 1);
    assert_eq!(second.len(), 1);
    assert_eq!(first[0].function(), second[0].function());
    assert_eq!(arg_function(&first[0], 0), arg_function(&second[0], 0));
    assert_eq!(first[0].args.get(0).unwrap().name, "a");
}

fn attributed_registry() -> RuleRegistry {
    let out = key(
        "T",
        1,
        vec![1],
        vec![(100, 1), (200, 2)],
        SolveSpecificity::Exact,
        SolveCardinality::Exhaustive,
    );
    registry(vec![rule(1, out, Vec::new(), 0)])
}

fn attributed_request(attrs: Vec<(isize, isize)>) -> TypeInfo {
    key("T", 1, vec![1], attrs, SolveSpecificity::Exact, SolveCardinality::Exhaustive)
}

#[test]
fn subset_law_accepts_every_subset() {
    for attrs in [vec![], vec![(100, 1)], vec![(200, 2)], vec![(100, 1), (200, 2)]] {
        let mut solver = Solver::new(attributed_registry());
        let r = solver.solve_for(&attributed_request(attrs), &accept_all).unwrap();
        assert_eq!(r.len(), 1);
    }
}

#[test]
fn subset_law_refuses_foreign_attribute() {
    let mut solver = Solver::new(attributed_registry());
    let errors = solver.solve_for(&attributed_request(vec![(100, 1), (300, 3)]), &accept_all).unwrap_err();
    assert_eq!(errors.len(), 1);
    assert!(matches!(errors[0].reason, SolvingErrorReason::NoSolution));
}

#[test]
fn subset_law_refuses_other_value() {
    let mut solver = Solver::new(attributed_registry());
    assert!(solver.solve_for(&attributed_request(vec![(100, 2)]), &accept_all).is_err());
}

fn hierarchy_registry() -> RuleRegistry {
    // Base (1) <- Mid (2) <- Leaf (3)
    registry(vec![rule(1, output("Leaf", 3, vec![3, 2, 1]), Vec::new(), 0)])
}

#[test]
fn specificity_subclass_finds_leaf_rule() {
    let mut solver = Solver::new(hierarchy_registry());
    let target = key("Base", 1, vec![1], vec![], SolveSpecificity::AllowSubclass, SolveCardinality::Exhaustive);
    let r = solver.solve_for(&target, &accept_all).unwrap();
    assert_eq!(r.len(), 1);
    assert_eq!(r[0].function(), 1);
    assert_eq!(r[0].output_type().type_hash, 3);
}

#[test]
fn specificity_exact_misses_leaf_rule() {
    let mut solver = Solver::new(hierarchy_registry());
    let target = key("Base", 1, vec![1], vec![], SolveSpecificity::Exact, SolveCardinality::Exhaustive);
    let errors = solver.solve_for(&target, &accept_all).unwrap_err();
    assert!(matches!(errors[0].reason, SolvingErrorReason::NoSolution));
}

#[test]
fn specificity_superclass_widens_to_ancestors() {
    let leaf_out = key("Leaf", 3, vec![3, 2, 1], vec![(7, 7)], SolveSpecificity::Exact, SolveCardinality::Exhaustive);
    let reg = registry(vec![
        rule(1, output("Base", 1, vec![1]), Vec::new(), 0),
        rule(2, leaf_out, Vec::new(), 0),
    ]);
    let mut solver = Solver::new(reg);
    let target = key("Leaf", 3, vec![3], vec![], SolveSpecificity::AllowSuperclass, SolveCardinality::Exhaustive);
    let r = solver.solve_for(&target, &accept_all).unwrap();
    assert_eq!(r.len(), 2);
    assert_eq!(r[0].function(), 2);
    assert_eq!(r[1].function(), 1);
}

fn two_rules() -> RuleRegistry {
    registry(vec![
        rule(1, output("T", 1, vec![1]), Vec::new(), 1),
        rule(2, output("T", 1, vec![1]), Vec::new(), 2),
    ])
}

#[test]
fn exclusive_with_two_rules_is_not_exclusive() {
    let mut solver = Solver::new(two_rules());
    let errors = solver.solve_for(&request("T", 1, SolveCardinality::Exclusive), &accept_all).unwrap_err();
    assert_eq!(errors.len(), 1);
    match &errors[0].reason {
        SolvingErrorReason::NotExclusive(sols) => {
            assert_eq!(sols.len(), 2);
            let mut fns: Vec<u64> = sols.iter().map(|s| s.function()).collect();
            fns.sort();
            assert_eq!(fns, vec![1, 2]);
        }
        other => panic!("unexpected reason {:?}", other),
    }
    assert_eq!(errors[0].stack.len(), 1);
    assert_eq!(errors[0].stack[0].name, "__root__");
}

#[test]
fn single_returns_higher_priority_rule() {
    let mut solver = Solver::new(two_rules());
    let r = solver.solve_for(&request("T", 1, SolveCardinality::Single), &accept_all).unwrap();
    assert_eq!(r.len(), 1);
    assert_eq!(r[0].function(), 2);
    assert_eq!(r[0].rule.priority, 2);
}

#[test]
fn cycle_is_detected() {
    let reg = registry(vec![
        rule(1, output("T1", 1, vec![1]), vec![dep("b", request("T2", 2, SolveCardinality::Exhaustive))], 0),
        rule(2, output("T2", 2, vec![2]), vec![dep("a", request("T1", 1, SolveCardinality::Exhaustive))], 0),
    ]);
    let mut solver = Solver::new(reg);
    let errors = solver.solve_for(&request("T1", 1, SolveCardinality::Exhaustive), &accept_all).unwrap_err();
    let cyclic: Vec<&SolvingError> =
        errors.iter().filter(|e| matches!(e.reason, SolvingErrorReason::CyclicDependency)).collect();
    assert_eq!(cyclic.len(), 1);
    let names: Vec<&str> = cyclic[0].stack.iter().map(|s| s.name.as_str()).collect();
    assert_eq!(names, vec!["__root__", "b", "a"]);
    assert!(has_reason(&errors, |r| matches!(r, SolvingErrorReason::NoSolution)));
}

#[test]
fn combinatorics_two_by_three() {
    let reg = registry(vec![
        rule(10, output("TA", 2, vec![2]), Vec::new(), 0),
        rule(11, output("TA", 2, vec![2]), Vec::new(), 0),
        rule(20, output("TB", 3, vec![3]), Vec::new(), 0),
        rule(21, output("TB", 3, vec![3]), Vec::new(), 0),
        rule(22, output("TB", 3, vec![3]), Vec::new(), 0),
        rule(
            1,
            output("C", 1, vec![1]),
            vec![
                dep("b", request("TB", 3, SolveCardinality::Exhaustive)),
                dep("a", request("TA", 2, SolveCardinality::Exhaustive)),
            ],
            0,
        ),
    ]);
    let mut solver = Solver::new(reg);
    let r = solver.solve_for(&request("C", 1, SolveCardinality::Exhaustive), &accept_all).unwrap();
    assert_eq!(r.len(), 6);
    let mut pairs: Vec<(u64, u64)> = Vec::new();
    for s in &r {
        assert_eq!(s.args.len(), 2);
        assert_eq!(s.args.get(0).unwrap().name, "a");
        assert_eq!(s.args.get(1).unwrap().name, "b");
        pairs.push((arg_function(s, 0), arg_function(s, 1)));
    }
    assert_eq!(pairs, vec![(10, 20), (10, 21), (10, 22), (11, 20), (11, 21), (11, 22)]);
}

#[test]
fn priority_ordering_single_takes_highest() {
    let reg = registry(vec![
        rule(1, output("T", 1, vec![1]), Vec::new(), 1),
        rule(5, output("T", 1, vec![1]), Vec::new(), 5),
        rule(3, output("T", 1, vec![1]), Vec::new(), 3),
    ]);
    let mut solver = Solver::new(reg);
    let r = solver.solve_for(&request("T", 1, SolveCardinality::Single), &accept_all).unwrap();
    assert_eq!(r.len(), 1);
    assert_eq!(r[0].rule.priority, 5);
    let mut all = Solver::new(registry(vec![
        rule(1, output("T", 1, vec![1]), Vec::new(), 1),
        rule(5, output("T", 1, vec![1]), Vec::new(), 5),
        rule(3, output("T", 1, vec![1]), Vec::new(), 3),
    ]));
    let every = all.solve_for(&request("T", 1, SolveCardinality::Exhaustive), &accept_all).unwrap();
    let prios: Vec<i32> = every.iter().map(|s| s.rule.priority).collect();
    assert_eq!(prios, vec![5, 3, 1]);
}

#[test]
fn unknown_type_has_no_solution() {
    let mut solver = Solver::new(RuleRegistry::new());
    let errors = solver.solve_for(&request("T", 1, SolveCardinality::Exhaustive), &accept_all).unwrap_err();
    assert_eq!(errors.len(), 1);
    assert!(matches!(errors[0].reason, SolvingErrorReason::NoSolution));
    assert_eq!(errors[0].stack.len(), 1);
    assert_eq!(errors[0].stack[0].target.type_hash, 1);
}

#[test]
fn failing_dependency_abandons_only_its_rule() {
    let reg = registry(vec![
        rule(1, output("T", 1, vec![1]), vec![dep("x", request("Missing", 9, SolveCardinality::Exhaustive))], 2),
        rule(2, output("T", 1, vec![1]), Vec::new(), 1),
    ]);
    let mut solver = Solver::new(reg);
    let r = solver.solve_for(&request("T", 1, SolveCardinality::Exhaustive), &accept_all).unwrap();
    assert_eq!(r.len(), 1);
    assert_eq!(r[0].function(), 2);
}

fn chain(len: isize) -> RuleRegistry {
    let mut rules = Vec::new();
    for i in 0..len {
        rules.push(rule(
            i as u64,
            output("C", i, vec![i]),
            vec![dep("next", request("C", i + 1, SolveCardinality::Exhaustive))],
            0,
        ));
    }
    rules.push(rule(len as u64, output("C", len, vec![len]), Vec::new(), 0));
    registry(rules)
}

#[test]
fn depth_bound_abandons_deep_chain() {
    let mut solver = Solver::new(chain(7));
    let errors = solver.solve_for(&request("C", 0, SolveCardinality::Exhaustive), &accept_all).unwrap_err();
    assert!(errors.iter().all(|e| matches!(e.reason, SolvingErrorReason::NoSolution)));
    assert_eq!(errors.len(), 6);
}

#[test]
fn depth_bound_is_configurable() {
    let mut solver = Solver::with_max_depth(chain(7), 10);
    let r = solver.solve_for(&request("C", 0, SolveCardinality::Exhaustive), &accept_all).unwrap();
    assert_eq!(r.len(), 1);
}

#[test]
fn chain_within_depth_bound_resolves() {
    let mut solver = Solver::new(chain(5));
    let r = solver.solve_for(&request("C", 0, SolveCardinality::Exhaustive), &accept_all).unwrap();
    assert_eq!(r.len(), 1);
}

#[test]
fn qualifiers_filter_candidates() {
    let with_tag = key("T", 1, vec![1], vec![(1, 10)], SolveSpecificity::Exact, SolveCardinality::Exhaustive);
    let reg = registry(vec![
        rule(1, with_tag, Vec::new(), 0),
        rule(2, output("T", 1, vec![1]), Vec::new(), 0),
    ]);
    let mut solver = Solver::new(reg);
    let needs_tag = |q: &Qualifier, a: &MetadataSet| q.id != 7 || a.get(1) == Some(10);
    let target = TypeInfo::new(
        "T".to_string(),
        "tests".to_string(),
        1,
        vec![1],
        MetadataSet::new(Vec::new()),
        Qualifiers::new(vec![Qualifier::new(7)]),
        SolveParameter::new(SolveSpecificity::Exact, SolveCardinality::Exhaustive),
    );
    let r = solver.solve_for(&target, &needs_tag).unwrap();
    assert_eq!(r.len(), 1);
    assert_eq!(r[0].function(), 1);
}

#[test]
fn memo_is_shared_across_cardinalities() {
    let mut solver = Solver::new(two_rules());
    let all = solver.solve_for(&request("T", 1, SolveCardinality::Exhaustive), &accept_all).unwrap();
    assert_eq!(all.len(), 2);
    let again = solver.solve_for(&request("T", 1, SolveCardinality::Single), &accept_all).unwrap();
    assert_eq!(again.len(), 2);
}

#[test]
fn duplicate_dependency_names_are_refused() {
    let mut reg = RuleRegistry::new();
    let bad = rule(
        1,
        output("T", 1, vec![1]),
        vec![
            dep("a", request("A", 2, SolveCardinality::Exhaustive)),
            dep("a", request("B", 3, SolveCardinality::Exhaustive)),
        ],
        0,
    );
    assert_eq!(reg.add_rule(bad), Err(RegistrationError::DuplicateDependencyName));
    let mut solver = Solver::new(reg);
    assert!(solver.solve_for(&request("T", 1, SolveCardinality::Exhaustive), &accept_all).is_err());
}

#[test]
fn add_rules_stops_at_refused_rule() {
    let mut reg = RuleRegistry::new();
    let good = rule(1, output("T", 1, vec![1]), Vec::new(), 0);
    let bad = rule(
        2,
        output("U", 2, vec![2]),
        vec![dep("a", request("A", 3, SolveCardinality::Exhaustive)), dep("a", request("A", 3, SolveCardinality::Exhaustive))],
        0,
    );
    let later = rule(3, output("V", 4, vec![4]), Vec::new(), 0);
    assert!(reg.add_rules(vec![good, bad, later]).is_err());
    let mut solver = Solver::new(reg);
    assert!(solver.solve_for(&request("T", 1, SolveCardinality::Exhaustive), &accept_all).is_ok());
    assert!(solver.solve_for(&request("V", 4, SolveCardinality::Exhaustive), &accept_all).is_err());
}

#[test]
fn permutate_no_candidates_gives_one_empty_combination() {
    let combos = permutate_candidates(&Vec::new());
    assert_eq!(combos.len(), 1);
    assert!(combos[0].is_empty());
}

#[test]
fn solution_exposes_rule_fields() {
    let mut reg = RuleRegistry::new();
    let r = Rule::new(42, "make".to_string(), output("T", 1, vec![1]), Vec::new(), 0, true);
    assert!(reg.add_rule(r).is_ok());
    let mut solver = Solver::new(reg);
    let s = solver.solve_for(&request("T", 1, SolveCardinality::Exclusive), &accept_all).unwrap();
    assert_eq!(s[0].function(), 42);
    assert!(s[0].is_async());
    assert_eq!(s[0].rule.canonical_name, "make");
    assert!(s[0].args.is_empty());
}
