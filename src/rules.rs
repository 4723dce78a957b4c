//! Production rules: an output type, named typed dependencies, a priority
//! and an opaque handle to the provider the host will call.
use vstd::prelude::*;
use crate::common::{sort_by_name, sorted_by_name, Named};
use crate::type_info::TypeInfo;

verus! {

/// One named, typed input of a rule.
#[derive(Debug)]
pub struct Dependency {
    pub name: String,
    pub typing: TypeInfo,
}

impl Dependency {
    pub fn new(name: String, typing: TypeInfo) -> (r: Dependency)
        ensures
            r.name@ == name@,
            r.typing@ == typing@,
    {
        Dependency { name, typing }
    }
}

impl Clone for Dependency {
    fn clone(&self) -> (r: Self)
        ensures
            r.name@ == self.name@,
            r.typing@ == self.typing@,
    {
        Dependency { name: self.name.clone(), typing: self.typing.clone() }
    }
}

/// Two dependencies share a name.
pub open spec fn has_duplicate_name(s: Seq<Dependency>) -> bool {
    exists|i: int, j: int| 0 <= i < j < s.len() && s[i].name@ == s[j].name@
}

impl Named for Dependency {
    open spec fn spec_name(&self) -> Seq<char> {
        self.name@
    }

    fn name_str(&self) -> (r: &str) {
        self.name.as_str()
    }
}

/// The dependencies of one rule, ordered by name.
#[derive(Debug)]
pub struct Dependencies {
    dependencies: Vec<Dependency>,
}

impl View for Dependencies {
    type V = Seq<Dependency>;

    closed spec fn view(&self) -> Seq<Dependency> {
        self.dependencies@
    }
}

impl Dependencies {
    /// Orders the given dependencies by name; among equal names the given
    /// order is kept.
    pub fn new(items: Vec<Dependency>) -> (r: Dependencies)
        ensures
            sorted_by_name(r@),
            r@.to_multiset() == items@.to_multiset(),
    {
        Dependencies { dependencies: sort_by_name(items) }
    }

    pub fn is_empty(&self) -> (r: bool)
        ensures
            r == (self@.len() == 0),
    {
        self.dependencies.len() == 0
    }

    pub fn len(&self) -> (r: usize)
        ensures
            r == self@.len(),
    {
        self.dependencies.len()
    }

    /// The dependency at position `i`.
    pub fn get(&self, i: usize) -> (r: &Dependency)
        requires
            i < self@.len(),
        ensures
            *r == self@[i as int],
    {
        &self.dependencies[i]
    }

    /// Whether two dependencies share a name.
    pub fn has_duplicate_name(&self) -> (r: bool)
        ensures
            r == has_duplicate_name(self@),
    {
        let n = self.dependencies.len();
        let mut i: usize = 0;
        while i < n
            invariant
                n == self@.len(),
                i <= n,
                forall|a: int, b: int| 0 <= a < b < n && a < i ==> self@[a].name@ != self@[b].name@,
            decreases n - i,
        {
            let mut j: usize = i + 1;
            while j < n
                invariant
                    n == self@.len(),
                    i < n,
                    i < j <= n,
                    forall|b: int| i < b < j ==> self@[i as int].name@ != self@[b].name@,
                decreases n - j,
            {
                if crate::common::same_text(
                    self.dependencies[i].name.as_str(),
                    self.dependencies[j].name.as_str(),
                ) {
                    return true;
                }
                j += 1;
            }
            i += 1;
        }
        false
    }
}

/// A production rule.
///
/// `function` is the host's handle to the provider; it is carried into the
/// solutions and never interpreted here.
#[derive(Debug)]
pub struct Rule {
    pub function: u64,
    pub canonical_name: String,
    pub output_type: TypeInfo,
    pub dependencies: Dependencies,
    pub priority: i32,
    pub is_async: bool,
}

impl Rule {
    pub fn new(
        function: u64,
        canonical_name: String,
        output_type: TypeInfo,
        dependencies: Vec<Dependency>,
        priority: i32,
        is_async: bool,
    ) -> (r: Rule)
        ensures
            r.function == function,
            r.canonical_name@ == canonical_name@,
            r.output_type@ == output_type@,
            sorted_by_name(r.dependencies@),
            r.dependencies@.to_multiset() == dependencies@.to_multiset(),
            r.priority == priority,
            r.is_async == is_async,
    {
        Rule {
            function,
            canonical_name,
            output_type,
            dependencies: Dependencies::new(dependencies),
            priority,
            is_async,
        }
    }

    pub fn get_function(&self) -> (r: u64)
        ensures
            r == self.function,
    {
        self.function
    }
}

} // verus!
