//! Errors of looking things up in an LLZK module.
use vstd::prelude::*;

verus! {

/// Error of an LLZK lookup.
#[derive(Debug, Clone, PartialEq, Eq)]
pub enum Error {
    /// No contract target has the name.
    ContractTargetNotFound(String),
}

/// The text an error is displayed as.
pub open spec fn error_message(e: Error) -> Seq<char> {
    match e {
        Error::ContractTargetNotFound(name) => "contract target '"@ + name@ + "' not found"@,
    }
}

impl Error {
    /// The text the error is displayed as.
    pub fn message(&self) -> (r: String)
        ensures
            r@ == error_message(*self),
    {
        match self {
            Error::ContractTargetNotFound(name) => crate::text::concat3(
                "contract target '",
                name.as_str(),
                "' not found",
            ),
        }
    }
}

} // verus!
