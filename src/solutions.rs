//! Solutions: a rule together with the solutions bound to each of its
//! named dependencies, recursively.
use vstd::prelude::*;
use std::sync::Arc;

use crate::common::{sort_by_name, sorted_by_name, Named};
use crate::rules::Rule;
use crate::type_info::TypeInfo;

verus! {

/// Mathematical value of a solution: the rule applied and, per dependency
/// name, the solution bound to it.
pub struct SolutionTree {
    pub rule: Rule,
    pub args: Seq<(Seq<char>, SolutionTree)>,
}

/// A solution bound to one dependency name.
#[derive(Debug)]
pub struct SolutionArg {
    pub name: String,
    pub solution: Arc<Solution>,
}

/// The arguments of a solution, ordered by name.
#[derive(Debug)]
pub struct SolutionArgsCollection(pub Vec<SolutionArg>);

/// A complete way of producing a value: a rule and the solutions of its
/// dependencies.
#[derive(Debug)]
pub struct Solution {
    pub rule: Arc<Rule>,
    pub args: SolutionArgsCollection,
}

/// The first `n` arguments as `(name, tree)` pairs.
pub open spec fn args_trees(args: Seq<SolutionArg>, n: int) -> Seq<(Seq<char>, SolutionTree)>
    decreases args, n,
{
    if n <= 0 || n > args.len() {
        Seq::empty()
    } else {
        args_trees(args, n - 1).push((args[n - 1].name@, args[n - 1].solution.tree()))
    }
}

/// All arguments as `(name, tree)` pairs.
pub open spec fn arg_trees(args: Seq<SolutionArg>) -> Seq<(Seq<char>, SolutionTree)> {
    args_trees(args, args.len() as int)
}

/// The trees of a list of solutions.
pub open spec fn trees(s: Seq<Solution>) -> Seq<SolutionTree> {
    s.map_values(|x: Solution| x.tree())
}

impl Solution {
    pub open spec fn tree(&self) -> SolutionTree
        decreases self, 0int,
    {
        SolutionTree { rule: *self.rule, args: args_trees(self.args.0@, self.args.0@.len() as int) }
    }
}

pub proof fn lemma_args_trees_prefix(args: Seq<SolutionArg>, extra: SolutionArg, n: int)
    requires
        0 <= n <= args.len(),
    ensures
        args_trees(args.push(extra), n) == args_trees(args, n),
    decreases n,
{
    if n > 0 {
        lemma_args_trees_prefix(args, extra, n - 1);
        assert(args.push(extra)[n - 1] == args[n - 1]);
    }
}

/// Appending an argument appends its pair.
pub proof fn lemma_arg_trees_push(args: Seq<SolutionArg>, extra: SolutionArg)
    ensures
        arg_trees(args.push(extra)) == arg_trees(args).push((extra.name@, extra.solution.tree())),
{
    lemma_args_trees_prefix(args, extra, args.len() as int);
    assert(args.push(extra)[args.len() as int] == extra);
}

impl Named for SolutionArg {
    open spec fn spec_name(&self) -> Seq<char> {
        self.name@
    }

    fn name_str(&self) -> (r: &str) {
        self.name.as_str()
    }
}

impl SolutionArg {
    pub fn new(name: String, solution: Solution) -> (r: SolutionArg)
        ensures
            r.name@ == name@,
            r.solution.tree() == solution.tree(),
    {
        SolutionArg { name, solution: Arc::new(solution) }
    }
}

impl Clone for SolutionArg {
    fn clone(&self) -> (r: Self)
        ensures
            r == *self,
    {
        SolutionArg { name: self.name.clone(), solution: self.solution.clone() }
    }
}

impl SolutionArgsCollection {
    /// Orders the arguments by name.
    pub fn new(args: Vec<SolutionArg>) -> (r: SolutionArgsCollection)
        ensures
            sorted_by_name(r.0@),
            r.0@.to_multiset() == args@.to_multiset(),
    {
        SolutionArgsCollection(sort_by_name(args))
    }

    /// Appends an argument as it is, without reordering.
    pub fn add(&mut self, arg: SolutionArg)
        ensures
            final(self).0@ == old(self).0@.push(arg),
    {
        self.0.push(arg);
    }

    pub fn is_empty(&self) -> (r: bool)
        ensures
            r == (self.0@.len() == 0),
    {
        self.0.len() == 0
    }

    pub fn len(&self) -> (r: usize)
        ensures
            r == self.0@.len(),
    {
        self.0.len()
    }

    /// The argument at position `i`.
    pub fn get(&self, i: usize) -> (r: Option<&SolutionArg>)
        ensures
            i < self.0@.len() ==> r == Some(&self.0@[i as int]),
            i >= self.0@.len() ==> r is None,
    {
        if i < self.0.len() {
            Some(&self.0[i])
        } else {
            None
        }
    }
}

impl Clone for SolutionArgsCollection {
    fn clone(&self) -> (r: Self)
        ensures
            r.0@ == self.0@,
    {
        let mut out: Vec<SolutionArg> = Vec::new();
        let mut i: usize = 0;
        while i < self.0.len()
            invariant
                i <= self.0@.len(),
                out@ == self.0@.take(i as int),
            decreases self.0@.len() - i,
        {
            out.push(self.0[i].clone());
            proof {
                assert(out@ =~= self.0@.take(i + 1));
            }
            i += 1;
        }
        proof {
            assert(out@ =~= self.0@);
        }
        SolutionArgsCollection(out)
    }
}

impl Default for SolutionArgsCollection {
    fn default() -> (r: Self)
        ensures
            r.0@.len() == 0,
    {
        SolutionArgsCollection(Vec::new())
    }
}

impl Solution {
    pub fn new(rule: Arc<Rule>, args: SolutionArgsCollection) -> (r: Solution)
        ensures
            r.rule == rule,
            r.args.0@ == args.0@,
            r.tree() == (SolutionTree { rule: *rule, args: arg_trees(args.0@) }),
    {
        Solution { rule, args }
    }

    /// The host's handle to the provider of the applied rule.
    pub fn function(&self) -> (r: u64)
        ensures
            r == self.rule.function,
    {
        self.rule.function
    }

    pub fn output_type(&self) -> (r: &TypeInfo)
        ensures
            *r == self.rule.output_type,
    {
        &self.rule.output_type
    }

    pub fn is_async(&self) -> (r: bool)
        ensures
            r == self.rule.is_async,
    {
        self.rule.is_async
    }
}

impl Clone for Solution {
    fn clone(&self) -> (r: Self)
        ensures
            r.rule == self.rule,
            r.args.0@ == self.args.0@,
            r.tree() == self.tree(),
    {
        Solution { rule: self.rule.clone(), args: self.args.clone() }
    }
}

} // verus!
