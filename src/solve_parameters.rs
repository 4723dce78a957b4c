//! The two policies a request carries: how widely the requested type may
//! match, and how many solutions are acceptable.
use vstd::prelude::*;

verus! {

/// How many accepted solutions a request tolerates.
#[derive(Clone, Copy, Debug, PartialEq, Eq, Structural, Hash)]
pub enum SolveCardinality {
    /// Solve for all possible solutions.
    Exhaustive,
    /// Solve for the first available solution.
    Single,
    /// Solve for an exclusive solution; more than one is an error.
    Exclusive,
}

impl SolveCardinality {
    pub open spec fn spec_symbol(&self) -> char {
        match self {
            SolveCardinality::Exhaustive => '*',
            SolveCardinality::Single => '1',
            SolveCardinality::Exclusive => 'x',
        }
    }

    /// One-character tag used when a request is printed.
    pub fn symbol(&self) -> (c: char)
        ensures
            c == self.spec_symbol(),
    {
        match self {
            SolveCardinality::Exhaustive => '*',
            SolveCardinality::Single => '1',
            SolveCardinality::Exclusive => 'x',
        }
    }
}

impl Default for SolveCardinality {
    fn default() -> (r: Self)
        ensures
            r == SolveCardinality::Exclusive,
    {
        SolveCardinality::Exclusive
    }
}

/// How the identity of a requested type widens when rules are looked up.
#[derive(Clone, Copy, Debug, PartialEq, Eq, Structural, Hash)]
pub enum SolveSpecificity {
    /// Only rules registered for exactly this type.
    Exact,
    /// Rules producing this type or any of its subclasses.
    AllowSubclass,
    /// Rules producing this type or any of its superclasses.
    AllowSuperclass,
}

impl SolveSpecificity {
    pub open spec fn spec_symbol(&self) -> char {
        match self {
            SolveSpecificity::Exact => '=',
            SolveSpecificity::AllowSubclass => '+',
            SolveSpecificity::AllowSuperclass => '-',
        }
    }

    /// One-character tag used when a request is printed.
    pub fn symbol(&self) -> (c: char)
        ensures
            c == self.spec_symbol(),
    {
        match self {
            SolveSpecificity::Exact => '=',
            SolveSpecificity::AllowSubclass => '+',
            SolveSpecificity::AllowSuperclass => '-',
        }
    }
}

impl Default for SolveSpecificity {
    fn default() -> (r: Self)
        ensures
            r == SolveSpecificity::AllowSubclass,
    {
        SolveSpecificity::AllowSubclass
    }
}

/// The policy pair attached to a requested type.
#[derive(Clone, Copy, Debug, PartialEq, Eq, Structural)]
pub struct SolveParameter {
    pub specificity: SolveSpecificity,
    pub cardinality: SolveCardinality,
}

impl SolveParameter {
    pub fn new(specificity: SolveSpecificity, cardinality: SolveCardinality) -> (r: Self)
        ensures
            r.specificity == specificity,
            r.cardinality == cardinality,
    {
        SolveParameter { specificity, cardinality }
    }
}

impl Default for SolveParameter {
    fn default() -> (r: Self)
        ensures
            r.specificity == SolveSpecificity::AllowSubclass,
            r.cardinality == SolveCardinality::Exclusive,
    {
        SolveParameter {
            specificity: SolveSpecificity::AllowSubclass,
            cardinality: SolveCardinality::Exclusive,
        }
    }
}

} // verus!
