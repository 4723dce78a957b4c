//! The solver: recursive, memoized, cycle-safe resolution of a requested
//! type into every acceptable solution, with the cardinality policy applied
//! and every failure recorded along the way.
use vstd::prelude::*;
use std::sync::Arc;

use crate::metadata::{acceptance, has_entry, is_qualifier_predicate, MetadataSet, Qualifier};
use crate::registry::RuleRegistry;
use crate::rules::{Dependency, Rule};
use crate::solutions::{
    arg_trees, lemma_arg_trees_push, trees, Solution, SolutionArg, SolutionArgsCollection,
    SolutionTree,
};
use crate::solve_parameters::SolveCardinality;
use crate::type_info::{same_key, TypeInfo, TypeInfoView};

verus! {

/// How deep the resolution stack may grow before a branch is abandoned.
pub const DEFAULT_MAX_DEPTH: usize = 5;

/// A frame of the resolution stack, as `(dependency name, requested type)`.
pub type StepView = (Seq<char>, TypeInfoView);

/// Mathematical value of a failure reason.
pub enum ReasonView {
    CyclicDependency,
    NoSolution,
    NotExclusive(Seq<SolutionTree>),
}

/// A recorded failure: the stack at the point of failure and the reason.
pub type ErrorView = (Seq<StepView>, ReasonView);

/// Memo contents: requested type and the solutions found for it.
pub type MemoView = Seq<(TypeInfoView, Seq<SolutionTree>)>;

/// What a resolution carries from step to step.
pub struct SolveState {
    pub memo: MemoView,
    pub errors: Seq<ErrorView>,
}

/// The first memo position, from `i` on, whose key is the key of `t`.
pub open spec fn memo_from(m: MemoView, t: TypeInfoView, i: int) -> Option<int>
    decreases m.len() - i,
{
    if i < 0 || i >= m.len() {
        None
    } else if same_key(m[i].0, t) {
        Some(i)
    } else {
        memo_from(m, t, i + 1)
    }
}

/// The memo position holding `t`'s key, if any.
pub open spec fn memo_index(m: MemoView, t: TypeInfoView) -> Option<int> {
    memo_from(m, t, 0)
}

/// The memo after recording `sols` for `t`: the entry of `t`'s key is
/// replaced, or a new one is appended.
pub open spec fn memo_save(m: MemoView, t: TypeInfoView, sols: Seq<SolutionTree>) -> MemoView {
    match memo_index(m, t) {
        Some(i) => m.update(i, (t, sols)),
        None => m.push((t, sols)),
    }
}

/// Some frame of the stack requests `t`'s key.
pub open spec fn in_stack(stack: Seq<StepView>, t: TypeInfoView) -> bool {
    exists|i: int| 0 <= i < stack.len() && same_key(#[trigger] stack[i].1, t)
}

/// `st` with one more recorded failure.
pub open spec fn with_error(st: SolveState, stack: Seq<StepView>, reason: ReasonView) -> SolveState {
    SolveState { memo: st.memo, errors: st.errors.push((stack, reason)) }
}

/// `st` with `sols` recorded for `t`.
pub open spec fn with_memo(st: SolveState, t: TypeInfoView, sols: Seq<SolutionTree>) -> SolveState {
    SolveState { memo: memo_save(st.memo, t, sols), errors: st.errors }
}

/// What is left of the depth bound at a stack of `len` frames.
pub open spec fn budget(max_depth: nat, len: nat) -> int {
    if len <= max_depth + 1 {
        max_depth + 1 - len
    } else {
        0
    }
}

/// The prefixes of `prefixes[..n]`, each extended by every solution of
/// candidate `c`, in order.
pub open spec fn extend(
    prefixes: Seq<Seq<(Seq<char>, SolutionTree)>>,
    c: (Seq<char>, Seq<SolutionTree>),
    n: int,
) -> Seq<Seq<(Seq<char>, SolutionTree)>>
    decreases n,
{
    if n <= 0 {
        Seq::empty()
    } else {
        extend(prefixes, c, n - 1) + c.1.map_values(
            |s: SolutionTree| prefixes[n - 1].push((c.0, s)),
        )
    }
}

/// Every combination that picks one solution per candidate, the first
/// candidate varying slowest.
pub open spec fn product(cands: Seq<(Seq<char>, Seq<SolutionTree>)>) -> Seq<
    Seq<(Seq<char>, SolutionTree)>,
>
    decreases cands.len(),
{
    if cands.len() == 0 {
        seq![Seq::empty()]
    } else {
        let prev = product(cands.drop_last());
        extend(prev, cands.last(), prev.len() as int)
    }
}

/// One solution of `rule` per combination of arguments.
pub open spec fn combine(rule: Rule, combos: Seq<Seq<(Seq<char>, SolutionTree)>>) -> Seq<
    SolutionTree,
> {
    combos.map_values(|a: Seq<(Seq<char>, SolutionTree)>| SolutionTree { rule, args: a })
}

/// Resolution of one request: `name` is the dependency name it is made
/// under and `stack` the frames above it.
///
/// A memoized key answers at once. Past the depth bound the branch is
/// abandoned silently; a key already on the stack records a cyclic
/// dependency. Otherwise every candidate rule is tried in order, the
/// cardinality policy is applied, and a success is memoized.
pub open spec fn resolved(
    reg: RuleRegistry,
    acc: spec_fn(Qualifier, MetadataSet) -> bool,
    max_depth: nat,
    st: SolveState,
    stack: Seq<StepView>,
    name: Seq<char>,
    target: TypeInfoView,
) -> (Option<Seq<SolutionTree>>, SolveState)
    decreases budget(max_depth, stack.len()), 4int, 0int,
{
    match memo_index(st.memo, target) {
        Some(i) => (Some(st.memo[i].1), st),
        None => {
            if stack.len() > max_depth {
                (None, st)
            } else {
                let pushed = stack.push((name, target));
                if in_stack(stack, target) {
                    (None, with_error(st, pushed, ReasonView::CyclicDependency))
                } else {
                    settled(reg, acc, max_depth, st, pushed, target)
                }
            }
        },
    }
}

/// Resolution of `target` once its frame is on the stack `pushed`: every
/// candidate rule in order, then the cardinality policy; a success is
/// memoized, a failure recorded.
pub open spec fn settled(
    reg: RuleRegistry,
    acc: spec_fn(Qualifier, MetadataSet) -> bool,
    max_depth: nat,
    st: SolveState,
    pushed: Seq<StepView>,
    target: TypeInfoView,
) -> (Option<Seq<SolutionTree>>, SolveState)
    decreases budget(max_depth, pushed.len()) + 1, 3int, 0int,
{
    let rules = reg.lookup(target, acc);
    let (sols, st2) = rules_outcome(reg, acc, max_depth, st, pushed, rules, rules.len() as int);
    if sols.len() == 0 {
        (None, with_error(st2, pushed, ReasonView::NoSolution))
    } else {
        match target.solve_parameter.cardinality {
            SolveCardinality::Exhaustive => (Some(sols), with_memo(st2, target, sols)),
            SolveCardinality::Single => (Some(seq![sols[0]]), with_memo(st2, target, seq![sols[0]])),
            SolveCardinality::Exclusive => {
                if sols.len() > 1 {
                    (None, with_error(st2, pushed, ReasonView::NotExclusive(sols)))
                } else {
                    (Some(sols), with_memo(st2, target, sols))
                }
            },
        }
    }
}

/// The solutions one rule gives under the frames `pushed`: none when a
/// dependency does not resolve, else one per combination of the
/// dependencies' solutions.
pub open spec fn rule_outcome(
    reg: RuleRegistry,
    acc: spec_fn(Qualifier, MetadataSet) -> bool,
    max_depth: nat,
    st: SolveState,
    pushed: Seq<StepView>,
    rule: Rule,
) -> (Seq<SolutionTree>, SolveState)
    decreases budget(max_depth, pushed.len()) + 1, 2int, 0int,
{
    let deps = rule.dependencies@;
    let (cands, ok, st2) = deps_outcome(reg, acc, max_depth, st, pushed, deps, deps.len() as int);
    if ok {
        (combine(rule, product(cands)), st2)
    } else {
        (Seq::empty(), st2)
    }
}

/// The solutions of the first `n` candidate rules, under the frames
/// `pushed`. A rule whose dependencies do not all resolve contributes none.
pub open spec fn rules_outcome(
    reg: RuleRegistry,
    acc: spec_fn(Qualifier, MetadataSet) -> bool,
    max_depth: nat,
    st: SolveState,
    pushed: Seq<StepView>,
    rules: Seq<Arc<Rule>>,
    n: int,
) -> (Seq<SolutionTree>, SolveState)
    decreases budget(max_depth, pushed.len()) + 1, 2int, n,
{
    if n <= 0 {
        (Seq::empty(), st)
    } else {
        let (prev, st1) = rules_outcome(reg, acc, max_depth, st, pushed, rules, n - 1);
        let (more, st2) = rule_outcome(reg, acc, max_depth, st1, pushed, *rules[n - 1]);
        (prev + more, st2)
    }
}

/// The candidate solutions of the first `j` dependencies, in order; the
/// flag turns false at the first dependency that does not resolve, and the
/// ones after it are not attempted.
pub open spec fn deps_outcome(
    reg: RuleRegistry,
    acc: spec_fn(Qualifier, MetadataSet) -> bool,
    max_depth: nat,
    st: SolveState,
    pushed: Seq<StepView>,
    deps: Seq<Dependency>,
    j: int,
) -> (Seq<(Seq<char>, Seq<SolutionTree>)>, bool, SolveState)
    decreases budget(max_depth, pushed.len()) + 1, 1int, j,
{
    if j <= 0 {
        (Seq::empty(), true, st)
    } else {
        let (prev, ok, st1) = deps_outcome(reg, acc, max_depth, st, pushed, deps, j - 1);
        if !ok {
            (prev, false, st1)
        } else {
            let dep = deps[j - 1];
            let (r, st2) = resolved(reg, acc, max_depth, st1, pushed, dep.name@, dep.typing@);
            match r {
                Some(s) => (prev.push((dep.name@, s)), true, st2),
                None => (prev, false, st2),
            }
        }
    }
}

/// The name the top-level request is made under.
pub open spec fn root_name() -> Seq<char> {
    seq!['_', '_', 'r', 'o', 'o', 't', '_', '_']
}

/// A top-level request: empty stack, no failures recorded yet.
pub open spec fn solve(
    reg: RuleRegistry,
    acc: spec_fn(Qualifier, MetadataSet) -> bool,
    max_depth: nat,
    memo: MemoView,
    target: TypeInfoView,
) -> (Option<Seq<SolutionTree>>, SolveState) {
    resolved(
        reg,
        acc,
        max_depth,
        SolveState { memo, errors: Seq::empty() },
        Seq::empty(),
        root_name(),
        target,
    )
}

/// A frame of the resolution stack.
#[derive(Debug)]
pub struct ExecutionStep {
    pub name: String,
    pub target: TypeInfo,
}

/// The frames of a stack as `(name, requested type)` pairs.
pub open spec fn stack_view(s: Seq<ExecutionStep>) -> Seq<StepView> {
    s.map_values(|x: ExecutionStep| (x.name@, x.target@))
}

impl Clone for ExecutionStep {
    fn clone(&self) -> (r: Self)
        ensures
            r.name@ == self.name@,
            r.target@ == self.target@,
    {
        ExecutionStep { name: self.name.clone(), target: self.target.clone() }
    }
}

/// Why a branch of the resolution failed.
#[derive(Debug)]
pub enum SolvingErrorReason {
    /// The requested type is already being resolved further up the stack.
    CyclicDependency,
    /// No candidate rule, or no rule whose dependencies all resolve.
    NoSolution,
    /// An exclusive request found several solutions; all are listed.
    NotExclusive(Vec<Solution>),
}

impl SolvingErrorReason {
    pub open spec fn reason_view(&self) -> ReasonView {
        match self {
            SolvingErrorReason::CyclicDependency => ReasonView::CyclicDependency,
            SolvingErrorReason::NoSolution => ReasonView::NoSolution,
            SolvingErrorReason::NotExclusive(v) => ReasonView::NotExclusive(trees(v@)),
        }
    }
}

/// A recorded failure with the stack at the point of failure.
#[derive(Debug)]
pub struct SolvingError {
    pub stack: Vec<ExecutionStep>,
    pub reason: SolvingErrorReason,
}

/// The recorded failures as mathematical values.
pub open spec fn errors_view(e: Seq<SolvingError>) -> Seq<ErrorView> {
    e.map_values(|x: SolvingError| (stack_view(x.stack@), x.reason.reason_view()))
}

/// The solutions found for a dependency name.
#[derive(Debug)]
pub struct SolutionArgCandidate {
    pub name: String,
    pub solutions: Vec<Solution>,
}

/// The candidates as `(name, trees)` pairs.
pub open spec fn candidates_view(c: Seq<SolutionArgCandidate>) -> Seq<(Seq<char>, Seq<SolutionTree>)> {
    c.map_values(|x: SolutionArgCandidate| (x.name@, trees(x.solutions@)))
}

/// The argument lists as `(name, tree)` sequences.
pub open spec fn collections_view(c: Seq<SolutionArgsCollection>) -> Seq<
    Seq<(Seq<char>, SolutionTree)>,
> {
    c.map_values(|x: SolutionArgsCollection| arg_trees(x.0@))
}

/// Copies a list of solutions.
fn clone_solutions(v: &Vec<Solution>) -> (r: Vec<Solution>)
    ensures
        trees(r@) == trees(v@),
{
    let mut out: Vec<Solution> = Vec::new();
    let mut i: usize = 0;
    while i < v.len()
        invariant
            i <= v@.len(),
            trees(out@) == trees(v@.take(i as int)),
        decreases v@.len() - i,
    {
        let s = v[i].clone();
        proof {
            assert(trees(out@.push(s)) =~= trees(out@).push(s.tree()));
            assert(trees(v@.take(i + 1)) =~= trees(v@.take(i as int)).push(v@[i as int].tree()));
        }
        out.push(s);
        i += 1;
    }
    proof {
        assert(v@.take(i as int) =~= v@);
    }
    out
}

/// Every combination that picks one solution per candidate, the first
/// candidate varying slowest. With no candidate there is one empty
/// combination.
pub fn permutate_candidates(candidates: &Vec<SolutionArgCandidate>) -> (r: Vec<SolutionArgsCollection>)
    ensures
        collections_view(r@) == product(candidates_view(candidates@)),
{
    let mut next: Vec<SolutionArgsCollection> = Vec::new();
    next.push(SolutionArgsCollection::default());
    let ghost cv = candidates_view(candidates@);
    proof {
        assert(cv.take(0).len() == 0);
        assert(collections_view(next@) =~= seq![Seq::<(Seq<char>, SolutionTree)>::empty()]);
        assert(arg_trees(next@[0].0@) =~= Seq::<(Seq<char>, SolutionTree)>::empty());
        assert(collections_view(next@) =~= product(cv.take(0)));
    }
    let mut i: usize = 0;
    while i < candidates.len()
        invariant
            i <= candidates@.len(),
            cv == candidates_view(candidates@),
            collections_view(next@) == product(cv.take(i as int)),
        decreases candidates@.len() - i,
    {
        let c = &candidates[i];
        let ghost prefixes = collections_view(next@);
        let ghost cview = (c.name@, trees(c.solutions@));
        let mut out: Vec<SolutionArgsCollection> = Vec::new();
        let mut a: usize = 0;
        while a < next.len()
            invariant
                a <= next@.len(),
                prefixes == collections_view(next@),
                cview == (c.name@, trees(c.solutions@)),
                collections_view(out@) == extend(prefixes, cview, a as int),
            decreases next@.len() - a,
        {
            let mut k: usize = 0;
            let ghost base = collections_view(out@);
            while k < c.solutions.len()
                invariant
                    k <= c.solutions@.len(),
                    a < next@.len(),
                    prefixes == collections_view(next@),
                    cview == (c.name@, trees(c.solutions@)),
                    collections_view(out@) == base + cview.1.take(k as int).map_values(
                        |s: SolutionTree| prefixes[a as int].push((cview.0, s)),
                    ),
                decreases c.solutions@.len() - k,
            {
                let mut args = next[a].clone();
                let arg = SolutionArg::new(c.name.clone(), c.solutions[k].clone());
                proof {
                    lemma_arg_trees_push(args.0@, arg);
                }
                args.add(arg);
                let ghost before = out@;
                out.push(args);
                proof {
                    assert(arg_trees(args.0@) == prefixes[a as int].push((cview.0, cview.1[k as int])));
                    assert(collections_view(out@) =~= collections_view(before).push(arg_trees(args.0@)));
                    assert(cview.1.take(k + 1).map_values(
                        |s: SolutionTree| prefixes[a as int].push((cview.0, s)),
                    ) =~= cview.1.take(k as int).map_values(
                        |s: SolutionTree| prefixes[a as int].push((cview.0, s)),
                    ).push(prefixes[a as int].push((cview.0, cview.1[k as int]))));
                }
                k += 1;
            }
            proof {
                assert(cview.1.take(k as int) =~= cview.1);
            }
            a += 1;
        }
        proof {
            let t = cv.take(i + 1);
            assert(t.drop_last() =~= cv.take(i as int));
            assert(t.last() == cview);
        }
        next = out;
        i += 1;
    }
    proof {
        assert(cv.take(i as int) =~= cv);
    }
    next
}

/// Solutions already found, per requested key.
#[derive(Debug)]
pub struct SolutionsMemo {
    entries: Vec<(TypeInfo, Vec<Solution>)>,
}

impl View for SolutionsMemo {
    type V = MemoView;

    closed spec fn view(&self) -> MemoView {
        self.entries@.map_values(|e: (TypeInfo, Vec<Solution>)| (e.0@, trees(e.1@)))
    }
}

impl SolutionsMemo {
    pub fn new() -> (r: SolutionsMemo)
        ensures
            r@.len() == 0,
    {
        SolutionsMemo { entries: Vec::new() }
    }

    fn position(&self, t: &TypeInfo) -> (r: Option<usize>)
        ensures
            match r {
                Some(i) => memo_index(self@, t@) == Some(i as int) && i < self.entries@.len(),
                None => memo_index(self@, t@) is None,
            },
    {
        let mut i: usize = 0;
        while i < self.entries.len()
            invariant
                i <= self.entries@.len(),
                memo_index(self@, t@) == memo_from(self@, t@, i as int),
            decreases self.entries@.len() - i,
        {
            if self.entries[i].0.same_key(t) {
                return Some(i);
            }
            i += 1;
        }
        None
    }

    /// A copy of the solutions recorded for `t`'s key.
    pub fn read_memo(&self, t: &TypeInfo) -> (r: Option<Vec<Solution>>)
        ensures
            match memo_index(self@, t@) {
                Some(i) => r is Some && trees(r->0@) == self@[i].1,
                None => r is None,
            },
    {
        match self.position(t) {
            Some(i) => Some(clone_solutions(&self.entries[i].1)),
            None => None,
        }
    }

    /// Records `solutions` for `t`'s key, replacing what was there.
    pub fn save_memo(&mut self, t: &TypeInfo, solutions: Vec<Solution>)
        ensures
            final(self)@ == memo_save(old(self)@, t@, trees(solutions@)),
    {
        let key = t.clone();
        match self.position(t) {
            Some(i) => {
                self.entries.set(i, (key, solutions));
                proof {
                    assert(self@ =~= old(self)@.update(i as int, (t@, trees(solutions@))));
                }
            },
            None => {
                self.entries.push((key, solutions));
                proof {
                    assert(self@ =~= old(self)@.push((t@, trees(solutions@))));
                }
            },
        }
    }
}

/// The state of one top-level request: the stack of frames and the
/// failures recorded so far.
struct Run {
    stack: Vec<ExecutionStep>,
    errors: Vec<SolvingError>,
}

impl Run {
    spec fn state(&self, memo: MemoView) -> SolveState {
        SolveState { memo, errors: errors_view(self.errors@) }
    }

    fn copy_stack(&self) -> (r: Vec<ExecutionStep>)
        ensures
            stack_view(r@) == stack_view(self.stack@),
    {
        let mut out: Vec<ExecutionStep> = Vec::new();
        let mut i: usize = 0;
        while i < self.stack.len()
            invariant
                i <= self.stack@.len(),
                stack_view(out@) == stack_view(self.stack@.take(i as int)),
            decreases self.stack@.len() - i,
        {
            let step = self.stack[i].clone();
            proof {
                assert(stack_view(out@.push(step)) =~= stack_view(out@).push((step.name@, step.target@)));
                assert(stack_view(self.stack@.take(i + 1)) =~= stack_view(self.stack@.take(i as int)).push(
                    (self.stack@[i as int].name@, self.stack@[i as int].target@),
                ));
            }
            out.push(step);
            i += 1;
        }
        proof {
            assert(self.stack@.take(i as int) =~= self.stack@);
        }
        out
    }

    fn push_error(&mut self, reason: SolvingErrorReason)
        ensures
            final(self).stack@ == old(self).stack@,
            errors_view(final(self).errors@) == errors_view(old(self).errors@).push(
                (stack_view(old(self).stack@), reason.reason_view()),
            ),
    {
        let stack = self.copy_stack();
        let e = SolvingError { stack, reason };
        let ghost before = self.errors@;
        self.errors.push(e);
        proof {
            assert(errors_view(self.errors@) =~= errors_view(before).push(
                (stack_view(e.stack@), e.reason.reason_view()),
            ));
        }
    }

    /// Whether some frame requests `t`'s key.
    fn on_stack(&self, t: &TypeInfo) -> (r: bool)
        ensures
            r == in_stack(stack_view(self.stack@), t@),
    {
        let mut i: usize = 0;
        while i < self.stack.len()
            invariant
                i <= self.stack@.len(),
                forall|k: int| 0 <= k < i ==> !same_key(#[trigger] stack_view(self.stack@)[k].1, t@),
            decreases self.stack@.len() - i,
        {
            if self.stack[i].target.same_key(t) {
                proof {
                    assert(stack_view(self.stack@)[i as int].1 == self.stack@[i as int].target@);
                }
                return true;
            }
            i += 1;
        }
        false
    }
}

/// The trees of a result, if any.
pub open spec fn option_trees(r: Option<Vec<Solution>>) -> Option<Seq<SolutionTree>> {
    match r {
        Some(v) => Some(trees(v@)),
        None => None,
    }
}

/// Resolves `target`, requested under dependency name `name`.
fn resolve<F: Fn(&Qualifier, &MetadataSet) -> bool>(
    rules: &RuleRegistry,
    memo: &mut SolutionsMemo,
    run: &mut Run,
    max_depth: usize,
    name: &String,
    target: &TypeInfo,
    f: &F,
) -> (r: Option<Vec<Solution>>)
    requires
        is_qualifier_predicate(*f),
    ensures
        ({
            let (res, st) = resolved(
                *rules,
                acceptance(*f),
                max_depth as nat,
                old(run).state(old(memo)@),
                stack_view(old(run).stack@),
                name@,
                target@,
            );
            &&& option_trees(r) == res
            &&& final(run).state(final(memo)@) == st
            &&& final(run).stack@ == old(run).stack@
        }),
    decreases budget(max_depth as nat, old(run).stack@.len()), 4int,
{
    let ghost sv = stack_view(run.stack@);
    if let Some(sols) = memo.read_memo(target) {
        return Some(sols);
    }
    if run.stack.len() > max_depth {
        return None;
    }
    let cyclic = run.on_stack(target);
    run.stack.push(ExecutionStep { name: name.clone(), target: target.clone() });
    proof {
        assert(stack_view(run.stack@) =~= sv.push((name@, target@)));
    }
    let result = if cyclic {
        run.push_error(SolvingErrorReason::CyclicDependency);
        None
    } else {
        resolve_pushed(rules, memo, run, max_depth, target, f)
    };
    run.stack.pop();
    result
}

/// Resolves `target` once its frame is on the stack (see `settled`).
fn resolve_pushed<F: Fn(&Qualifier, &MetadataSet) -> bool>(
    rules: &RuleRegistry,
    memo: &mut SolutionsMemo,
    run: &mut Run,
    max_depth: usize,
    target: &TypeInfo,
    f: &F,
) -> (r: Option<Vec<Solution>>)
    requires
        is_qualifier_predicate(*f),
    ensures
        ({
            let (res, st) = settled(
                *rules,
                acceptance(*f),
                max_depth as nat,
                old(run).state(old(memo)@),
                stack_view(old(run).stack@),
                target@,
            );
            &&& option_trees(r) == res
            &&& final(run).state(final(memo)@) == st
            &&& final(run).stack@ == old(run).stack@
        }),
    decreases budget(max_depth as nat, old(run).stack@.len()) + 1, 3int,
{
    let ghost pushed = stack_view(run.stack@);
    let ghost st0 = run.state(memo@);
    let candidates = match rules.get(target, f) {
        Some(v) => v,
        None => Vec::new(),
    };
    let ghost cands = rules.lookup(target@, acceptance(*f));
    let mut solutions: Vec<Solution> = Vec::new();
    let mut i: usize = 0;
    while i < candidates.len()
        invariant
            is_qualifier_predicate(*f),
            candidates@ == cands,
            i <= cands.len(),
            run.stack@ == old(run).stack@,
            pushed == stack_view(run.stack@),
            (trees(solutions@), run.state(memo@)) == rules_outcome(
                *rules,
                acceptance(*f),
                max_depth as nat,
                st0,
                pushed,
                cands,
                i as int,
            ),
        decreases cands.len() - i,
    {
        let more = resolve_rule(rules, memo, run, max_depth, &candidates[i], f);
        let ghost before = solutions@;
        let mut more = more;
        let ghost added = more@;
        solutions.append(&mut more);
        proof {
            assert(trees(solutions@) =~= trees(before) + trees(added));
        }
        i += 1;
    }
    if solutions.len() == 0 {
        run.push_error(SolvingErrorReason::NoSolution);
        return None;
    }
    let ghost all = trees(solutions@);
    let result = match target.solve_parameter.cardinality {
        SolveCardinality::Exhaustive => solutions,
        SolveCardinality::Single => {
            let mut first = solutions;
            first.truncate(1);
            proof {
                assert(trees(first@) =~= seq![all[0]]);
            }
            first
        },
        SolveCardinality::Exclusive => {
            if solutions.len() > 1 {
                run.push_error(SolvingErrorReason::NotExclusive(solutions));
                return None;
            }
            solutions
        },
    };
    memo.save_memo(target, clone_solutions(&result));
    Some(result)
}

/// The solutions one rule gives (see `rule_outcome`).
fn resolve_rule<F: Fn(&Qualifier, &MetadataSet) -> bool>(
    rules: &RuleRegistry,
    memo: &mut SolutionsMemo,
    run: &mut Run,
    max_depth: usize,
    rule: &Arc<Rule>,
    f: &F,
) -> (r: Vec<Solution>)
    requires
        is_qualifier_predicate(*f),
    ensures
        ({
            let (res, st) = rule_outcome(
                *rules,
                acceptance(*f),
                max_depth as nat,
                old(run).state(old(memo)@),
                stack_view(old(run).stack@),
                **rule,
            );
            &&& trees(r@) == res
            &&& final(run).state(final(memo)@) == st
            &&& final(run).stack@ == old(run).stack@
        }),
    decreases budget(max_depth as nat, old(run).stack@.len()) + 1, 2int,
{
    let ghost pushed = stack_view(run.stack@);
    let ghost st0 = run.state(memo@);
    let ghost deps = rule.dependencies@;
    let n = rule.dependencies.len();
    let mut cands: Vec<SolutionArgCandidate> = Vec::new();
    let mut ok = true;
    let mut j: usize = 0;
    while j < n
        invariant
            is_qualifier_predicate(*f),
            n == deps.len(),
            deps == rule.dependencies@,
            j <= n,
            run.stack@ == old(run).stack@,
            pushed == stack_view(run.stack@),
            (candidates_view(cands@), ok, run.state(memo@)) == deps_outcome(
                *rules,
                acceptance(*f),
                max_depth as nat,
                st0,
                pushed,
                deps,
                j as int,
            ),
        decreases n - j,
    {
        if ok {
            let dep = rule.dependencies.get(j);
            match resolve(rules, memo, run, max_depth, &dep.name, &dep.typing, f) {
                Some(sols) => {
                    let c = SolutionArgCandidate { name: dep.name.clone(), solutions: sols };
                    let ghost before = cands@;
                    cands.push(c);
                    proof {
                        assert(candidates_view(cands@) =~= candidates_view(before).push(
                            (c.name@, trees(c.solutions@)),
                        ));
                    }
                },
                None => {
                    ok = false;
                },
            }
        }
        j += 1;
    }
    if !ok {
        return Vec::new();
    }
    let combos = permutate_candidates(&cands);
    let ghost cv = collections_view(combos@);
    let mut out: Vec<Solution> = Vec::new();
    let mut k: usize = 0;
    while k < combos.len()
        invariant
            k <= combos@.len(),
            cv == collections_view(combos@),
            trees(out@) == combine(**rule, cv.take(k as int)),
        decreases combos@.len() - k,
    {
        let s = Solution::new(rule.clone(), combos[k].clone());
        let ghost before = out@;
        out.push(s);
        proof {
            assert(trees(out@) =~= trees(before).push(s.tree()));
            assert(cv.take(k + 1) =~= cv.take(k as int).push(cv[k as int]));
            assert(combine(**rule, cv.take(k + 1)) =~= combine(**rule, cv.take(k as int)).push(
                SolutionTree { rule: **rule, args: cv[k as int] },
            ));
        }
        k += 1;
    }
    proof {
        assert(cv.take(k as int) =~= cv);
    }
    out
}

/// Resolves requested types against a registry, remembering every success.
#[derive(Debug)]
pub struct Solver {
    pub rules: RuleRegistry,
    pub memo: SolutionsMemo,
    /// Deepest stack of frames under which a request is still attempted.
    pub max_depth: usize,
}

impl Solver {
    pub fn new(registry: RuleRegistry) -> (r: Solver)
        ensures
            r.rules == registry,
            r.memo@.len() == 0,
            r.max_depth == DEFAULT_MAX_DEPTH,
    {
        Solver { rules: registry, memo: SolutionsMemo::new(), max_depth: DEFAULT_MAX_DEPTH }
    }

    pub fn with_max_depth(registry: RuleRegistry, max_depth: usize) -> (r: Solver)
        ensures
            r.rules == registry,
            r.memo@.len() == 0,
            r.max_depth == max_depth,
    {
        Solver { rules: registry, memo: SolutionsMemo::new(), max_depth }
    }

    /// Every acceptable solution for `target`, or, when there is none, every
    /// failure recorded anywhere during the traversal. `f` answers whether
    /// a qualifier accepts an attribute set.
    pub fn solve_for<F: Fn(&Qualifier, &MetadataSet) -> bool>(&mut self, target: &TypeInfo, f: &F) -> (r:
        Result<Vec<Solution>, Vec<SolvingError>>)
        requires
            is_qualifier_predicate(*f),
        ensures
            ({
                let (res, st) = solve(
                    old(self).rules,
                    acceptance(*f),
                    old(self).max_depth as nat,
                    old(self).memo@,
                    target@,
                );
                &&& final(self).rules == old(self).rules
                &&& final(self).max_depth == old(self).max_depth
                &&& final(self).memo@ == st.memo
                &&& match r {
                    Ok(v) => res == Some(trees(v@)),
                    Err(e) => res is None && errors_view(e@) == st.errors,
                }
            }),
    {
        let root = "__root__".to_string();
        proof {
            reveal_strlit("__root__");
            assert(root@ =~= root_name());
        }
        let mut run = Run { stack: Vec::new(), errors: Vec::new() };
        proof {
            assert(stack_view(run.stack@) =~= Seq::<StepView>::empty());
            assert(errors_view(run.errors@) =~= Seq::<ErrorView>::empty());
        }
        let found = resolve(&self.rules, &mut self.memo, &mut run, self.max_depth, &root, target, f);
        match found {
            Some(solutions) => Ok(solutions),
            None => Err(run.errors),
        }
    }
}

/// `same_key` holds of a type and itself.
pub proof fn lemma_same_key_reflexive(t: TypeInfoView)
    ensures
        same_key(t, t),
{
    assert forall|i: int| 0 <= i < t.attributes.len() implies has_entry(
        t.attributes,
        t.attributes[i].0,
        t.attributes[i].1,
    ) by {
        assert(t.attributes[i] == (t.attributes[i].0, t.attributes[i].1));
    }
}

proof fn lemma_memo_from_some(m: MemoView, t: TypeInfoView, j: int, i: int)
    requires
        0 <= j,
        memo_from(m, t, j) == Some(i),
    ensures
        j <= i < m.len(),
        same_key(m[i].0, t),
        forall|k: int| j <= k < i ==> !same_key(#[trigger] m[k].0, t),
    decreases m.len() - j,
{
    if j < m.len() && !same_key(m[j].0, t) {
        lemma_memo_from_some(m, t, j + 1, i);
    }
}

proof fn lemma_memo_from_none(m: MemoView, t: TypeInfoView, j: int)
    requires
        0 <= j,
        memo_from(m, t, j) is None,
    ensures
        forall|k: int| j <= k < m.len() ==> !same_key(#[trigger] m[k].0, t),
    decreases m.len() - j,
{
    if j < m.len() {
        lemma_memo_from_none(m, t, j + 1);
    }
}

proof fn lemma_memo_from_found(m: MemoView, t: TypeInfoView, j: int, i: int)
    requires
        0 <= j <= i < m.len(),
        same_key(m[i].0, t),
        forall|k: int| j <= k < i ==> !same_key(#[trigger] m[k].0, t),
    ensures
        memo_from(m, t, j) == Some(i),
    decreases i - j,
{
    if j < i {
        lemma_memo_from_found(m, t, j + 1, i);
    }
}

/// After `sols` is recorded for `t`, looking `t` up finds `sols`.
pub proof fn lemma_memo_save_found(m: MemoView, t: TypeInfoView, sols: Seq<SolutionTree>)
    ensures
        memo_index(memo_save(m, t, sols), t) is Some,
        memo_save(m, t, sols)[memo_index(memo_save(m, t, sols), t)->0].1 == sols,
{
    lemma_same_key_reflexive(t);
    let m2 = memo_save(m, t, sols);
    match memo_index(m, t) {
        Some(i) => {
            lemma_memo_from_some(m, t, 0, i);
            assert forall|k: int| 0 <= k < i implies !same_key(#[trigger] m2[k].0, t) by {
                assert(m2[k] == m[k]);
            }
            lemma_memo_from_found(m2, t, 0, i);
        },
        None => {
            lemma_memo_from_none(m, t, 0);
            assert forall|k: int| 0 <= k < m.len() implies !same_key(#[trigger] m2[k].0, t) by {
                assert(m2[k] == m[k]);
            }
            lemma_memo_from_found(m2, t, 0, m.len() as int);
        },
    }
}

/// Solving a request twice: once the first resolution succeeds, the second
/// is answered from the memo with the same solutions, records no failure
/// and leaves the memo as it was.
pub proof fn lemma_solve_memoized(
    reg: RuleRegistry,
    acc: spec_fn(Qualifier, MetadataSet) -> bool,
    max_depth: nat,
    memo: MemoView,
    target: TypeInfoView,
)
    ensures
        ({
            let (r1, st1) = solve(reg, acc, max_depth, memo, target);
            r1 is Some ==> solve(reg, acc, max_depth, st1.memo, target) == (
                r1,
                SolveState { memo: st1.memo, errors: Seq::empty() },
            )
        }),
{
    let st = SolveState { memo, errors: Seq::<ErrorView>::empty() };
    let (r1, st1) = solve(reg, acc, max_depth, memo, target);
    if r1 is Some {
        match memo_index(memo, target) {
            Some(i) => {},
            None => {
                let pushed = Seq::<StepView>::empty().push((root_name(), target));
                assert(!in_stack(Seq::<StepView>::empty(), target));
                assert((r1, st1) == settled(reg, acc, max_depth, st, pushed, target));
                let rules = reg.lookup(target, acc);
                let (sols, st2) = rules_outcome(reg, acc, max_depth, st, pushed, rules, rules.len() as int);
                let kept = r1->0;
                assert(st1 == with_memo(st2, target, kept));
                lemma_memo_save_found(st2.memo, target, kept);
            },
        }
    }
}

/// The number of ways to pick one solution per candidate.
pub open spec fn combination_count(cands: Seq<(Seq<char>, Seq<SolutionTree>)>) -> nat
    decreases cands.len(),
{
    if cands.len() == 0 {
        1
    } else {
        combination_count(cands.drop_last()) * cands.last().1.len()
    }
}

proof fn lemma_extend_len(
    prefixes: Seq<Seq<(Seq<char>, SolutionTree)>>,
    c: (Seq<char>, Seq<SolutionTree>),
    n: int,
)
    requires
        0 <= n,
    ensures
        extend(prefixes, c, n).len() == n * c.1.len(),
    decreases n,
{
    let k = c.1.len() as int;
    if n > 0 {
        lemma_extend_len(prefixes, c, n - 1);
        let added = c.1.map_values(|s: SolutionTree| prefixes[n - 1].push((c.0, s)));
        assert(added.len() == k);
        assert(extend(prefixes, c, n) == extend(prefixes, c, n - 1) + added);
        assert((n - 1) * k + k == n * k) by (nonlinear_arith);
    } else {
        assert(0 * k == 0) by (nonlinear_arith);
    }
}

/// A rule's dependencies combine into exactly as many argument lists as the
/// product of the numbers of their candidate solutions.
pub proof fn lemma_product_len(cands: Seq<(Seq<char>, Seq<SolutionTree>)>)
    ensures
        product(cands).len() == combination_count(cands),
    decreases cands.len(),
{
    if cands.len() > 0 {
        lemma_product_len(cands.drop_last());
        let prev = product(cands.drop_last());
        lemma_extend_len(prev, cands.last(), prev.len() as int);
    }
}

} // verus!
