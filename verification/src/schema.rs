//! Schema constraints shared with provider-specific schema builders.

use vstd::prelude::*;

verus! {

/// The kinds of output constraints a provider can enforce.
#[derive(Debug, Clone, Copy, PartialEq, Eq, Structural)]
pub enum ConstraintType {
    Unconstrained,
}

/// An output constraint for generation.
#[derive(Debug, Clone, Copy, PartialEq, Eq, Structural)]
pub struct Constraint {
    pub constraint_type: ConstraintType,
}

impl Default for Constraint {
    /// The default constraint: unconstrained output.
    fn default() -> (r: Self)
        ensures
            r.constraint_type == ConstraintType::Unconstrained,
    {
        Constraint { constraint_type: ConstraintType::Unconstrained }
    }
}

} // verus!
