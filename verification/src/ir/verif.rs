//! Tags for the scopes that lowering a specification opens.
use vstd::prelude::*;

pub mod lower;
pub mod outcome;

verus! {

/// Optional tag for annotating scopes.
#[derive(Debug, Clone, Copy, PartialEq, Eq, Structural)]
pub enum ScopeTag {
    /// Tag for the root scope.
    Root,
    /// Tag for predicate scopes.
    Predicate,
    /// Tag for contract scopes.
    Contract,
    /// Tag for compute scopes.
    Compute,
    /// Tag for constrain scopes.
    Constrain,
    /// Tag for invariant scopes.
    Invariant,
}

impl ScopeTag {
    /// Whether the tagged scope can append `function.def` operations: only the root can.
    pub fn accepts_function_def_ops(self) -> (r: bool)
        ensures
            r == (self == ScopeTag::Root),
    {
        match self {
            ScopeTag::Root => true,
            _ => false,
        }
    }

    /// Whether the tagged scope takes conditions for the compute function: all but constrain
    /// scopes do.
    pub fn compute_condition_scope(self) -> (r: bool)
        ensures
            r == (self != ScopeTag::Constrain),
    {
        match self {
            ScopeTag::Constrain => false,
            _ => true,
        }
    }

    /// Whether the tagged scope takes conditions for the constrain function: all but compute
    /// scopes do.
    pub fn constrain_condition_scope(self) -> (r: bool)
        ensures
            r == (self != ScopeTag::Compute),
    {
        match self {
            ScopeTag::Compute => false,
            _ => true,
        }
    }
}

} // verus!
