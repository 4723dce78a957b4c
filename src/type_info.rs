//! The description of a requested or produced type: its identity, its
//! ancestor chain, its attributes and qualifiers, and the solve policies.
use vstd::prelude::*;

use crate::common::{copy_vec, same_text};
use crate::metadata::{same_attrs, MetadataSet, Qualifier, Qualifiers};
use crate::solve_parameters::SolveParameter;

verus! {

/// Mathematical value of a `TypeInfo`.
pub struct TypeInfoView {
    pub name: Seq<char>,
    pub type_module: Seq<char>,
    pub type_hash: isize,
    pub bases: Seq<isize>,
    pub attributes: Seq<(isize, isize)>,
    pub qualifiers: Seq<Qualifier>,
    pub solve_parameter: SolveParameter,
}

/// Two type descriptions name the same key: same identity, same attributes
/// and same qualifiers. The solve policies take no part in it.
pub open spec fn same_key(a: TypeInfoView, b: TypeInfoView) -> bool {
    &&& a.type_hash == b.type_hash
    &&& same_attrs(a.attributes, b.attributes)
    &&& a.qualifiers == b.qualifiers
}

/// A type as requested or produced.
///
/// `type_hash` is the identity the host gives the type; `bases` is its
/// linearized ancestor chain, the type itself included.
#[derive(Debug)]
pub struct TypeInfo {
    pub name: String,
    pub type_module: String,
    pub type_hash: isize,
    pub bases: Vec<isize>,
    pub attributes: MetadataSet,
    pub qualifiers: Qualifiers,
    pub solve_parameter: SolveParameter,
}

impl View for TypeInfo {
    type V = TypeInfoView;

    open spec fn view(&self) -> TypeInfoView {
        TypeInfoView {
            name: self.name@,
            type_module: self.type_module@,
            type_hash: self.type_hash,
            bases: self.bases@,
            attributes: self.attributes@,
            qualifiers: self.qualifiers@,
            solve_parameter: self.solve_parameter,
        }
    }
}

/// The name a type is shown by: bare for builtins, else module-qualified.
pub open spec fn spec_canonical_name(module: Seq<char>, name: Seq<char>) -> Seq<char> {
    if module == seq!['b', 'u', 'i', 'l', 't', 'i', 'n', 's'] {
        name
    } else {
        module + seq!['.'] + name
    }
}

impl TypeInfo {
    pub fn new(
        name: String,
        type_module: String,
        type_hash: isize,
        bases: Vec<isize>,
        attributes: MetadataSet,
        qualifiers: Qualifiers,
        solve_parameter: SolveParameter,
    ) -> (r: TypeInfo)
        ensures
            r.name@ == name@,
            r.type_module@ == type_module@,
            r.type_hash == type_hash,
            r.bases@ == bases@,
            r.attributes@ == attributes@,
            r.qualifiers@ == qualifiers@,
            r.solve_parameter == solve_parameter,
    {
        TypeInfo {
            name,
            type_module,
            type_hash,
            bases,
            attributes,
            qualifiers,
            solve_parameter,
        }
    }

    /// Whether both describe the same key (see `same_key`).
    pub fn same_key(&self, other: &TypeInfo) -> (r: bool)
        ensures
            r == same_key(self@, other@),
    {
        self.type_hash == other.type_hash && self.attributes.same(&other.attributes)
            && self.qualifiers.same(&other.qualifiers)
    }

    pub fn canonical_name(&self) -> (r: String)
        ensures
            r@ == spec_canonical_name(self.type_module@, self.name@),
    {
        proof {
            reveal_strlit("builtins");
            reveal_strlit(".");
        }
        if same_text(self.type_module.as_str(), "builtins") {
            assert("builtins"@ =~= seq!['b', 'u', 'i', 'l', 't', 'i', 'n', 's']);
            self.name.clone()
        } else {
            assert("builtins"@ =~= seq!['b', 'u', 'i', 'l', 't', 'i', 'n', 's']);
            let mut r = self.type_module.clone();
            r.append(".");
            r.append(self.name.as_str());
            assert(r@ =~= self.type_module@ + seq!['.'] + self.name@);
            r
        }
    }
}

impl Clone for TypeInfo {
    fn clone(&self) -> (r: Self)
        ensures
            r@ == self@,
    {
        TypeInfo {
            name: self.name.clone(),
            type_module: self.type_module.clone(),
            type_hash: self.type_hash,
            bases: copy_vec(&self.bases),
            attributes: self.attributes.clone(),
            qualifiers: self.qualifiers.clone(),
            solve_parameter: self.solve_parameter,
        }
    }
}

} // verus!
