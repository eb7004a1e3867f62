//! Value types of the symbol model: functions, aggregate objects, points-to
//! sets and call sites.

use vstd::prelude::*;

verus! {

/// A function symbol: a name, unique within its object file, and whether the
/// symbol is only an external declaration (no definition seen yet).
#[derive(Debug, PartialEq, Eq, Hash)]
pub struct Function {
    name: String,
    is_external: bool,
}

impl Function {
    pub closed spec fn spec_name(&self) -> Seq<char> {
        self.name@
    }

    pub closed spec fn spec_external(&self) -> bool {
        self.is_external
    }

    pub fn new(name: String, is_external: bool) -> (r: Self)
        ensures
            r.spec_name() == name@,
            r.spec_external() == is_external,
    {
        Self { name, is_external }
    }

    pub fn get_name(&self) -> (r: &String)
        ensures
            r@ == self.spec_name(),
    {
        &self.name
    }

    pub fn is_external(&self) -> (r: bool)
        ensures
            r == self.spec_external(),
    {
        self.is_external
    }

    pub fn set_external(&mut self, is_external: bool)
        ensures
            final(self).spec_name() == old(self).spec_name(),
            final(self).spec_external() == is_external,
    {
        self.is_external = is_external;
    }
}

impl Clone for Function {
    fn clone(&self) -> (r: Self)
        ensures
            r.spec_name() == self.spec_name(),
            r.spec_external() == self.spec_external(),
    {
        Self { name: self.name.clone(), is_external: self.is_external }
    }
}

/// A flattened points-to set: the symbols an indirect pointer may denote.
/// By contract its elements denote functions or objects only.
#[derive(Debug, Clone, Eq, Hash, PartialEq)]
pub struct PtsTo<P> {
    pub points_to: Vec<P>,
}

impl<P> PtsTo<P> {
    pub fn new(points_to: Vec<P>) -> (r: Self)
        ensures
            r.points_to == points_to,
    {
        Self { points_to }
    }
}

/// An aggregate object; a `None` field is non-pointer data.
#[derive(Debug, Clone, Eq, Hash, PartialEq)]
pub struct Object<P> {
    pub fields: Vec<Option<P>>,
}

impl<P> Object<P> {
    pub fn new(fields: Vec<Option<P>>) -> (r: Self)
        ensures
            r.fields == fields,
    {
        Self { fields }
    }
}

/// A call site: a callee (a function for a direct call, a points-to set for
/// an indirect one), optional pointer arguments, and the optional calling
/// function.  A call without a callsite is an orphan whose caller is unknown.
#[derive(Debug, Clone, Eq, Hash, PartialEq)]
pub struct FCall<P> {
    pub callee: P,
    pub arguments: Vec<Option<P>>,
    pub callsite: Option<P>,
}

impl<P> FCall<P> {
    pub fn new(callee: P, arguments: Vec<Option<P>>) -> (r: Self)
        ensures
            r.callee == callee,
            r.arguments == arguments,
            r.callsite is None,
    {
        Self { callee, arguments, callsite: None }
    }

    pub fn new_with_callsite(callee: P, arguments: Vec<Option<P>>, callsite: P) -> (r: Self)
        ensures
            r.callee == callee,
            r.arguments == arguments,
            r.callsite == Some(callsite),
    {
        Self { callee, arguments, callsite: Some(callsite) }
    }
}

} // verus!
