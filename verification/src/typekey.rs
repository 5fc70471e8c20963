//! Type identity paired with a readable type name, and the marks that name
//! ordered rules.
use std::any::TypeId;
use vstd::prelude::*;

verus! {

#[verifier::external_type_specification]
#[verifier::external_body]
pub struct ExTypeId(TypeId);

/// `TypeId == TypeId`: two identifiers compare equal exactly when they are
/// the same identifier.
#[verifier::external_body]
fn same_type_id(a: &TypeId, b: &TypeId) -> (r: bool)
    ensures
        r == (*a == *b),
{
    *a == *b
}

/// A type identifier fused with the type's name.
///
/// It compares by the identifier alone; the name is for display.
#[derive(Clone, Copy, Debug)]
pub struct TypeKey {
    /// type id
    pub id: TypeId,
    /// type name
    pub name: &'static str,
}

impl PartialEq for TypeKey {
    fn eq(&self, other: &Self) -> (r: bool) {
        same_type_id(&self.id, &other.id)
    }
}

impl vstd::std_specs::cmp::PartialEqSpecImpl for TypeKey {
    open spec fn obeys_eq_spec() -> bool {
        true
    }

    open spec fn eq_spec(&self, other: &Self) -> bool {
        self.id == other.id
    }
}

impl Eq for TypeKey {}

/// The identity of an ordered rule: a Rust type, or a name given at run time.
#[derive(Clone, Debug, PartialEq, Eq)]
pub enum RuleMark {
    Type(TypeKey),
    Name(String),
}

impl RuleMark {
    /// The mark of a name.
    pub fn named(name: &str) -> (r: RuleMark)
        ensures
            r matches RuleMark::Name(n) && n@ == name@,
    {
        RuleMark::Name(name.to_owned())
    }
}

} // verus!
