//! Errors raised during type analysis.
use vstd::prelude::*;
use crate::ast::Span;
use crate::diagnostic::Diagnostic;
use crate::text::concat3;

verus! {

/// Errors raised by the type inference engine and the scope stack.
#[derive(Debug, Clone, PartialEq, Eq)]
pub enum TypeAnalysisError {
    DuplicatePredicate(String),
    DuplicateLocal(String),
    DuplicateLoop(String),
    UnknownPredicate(String),
    UnknownLocal(String),
    UnknownLoop(String),
    UnexpectedTypes(String, String),
    InfiniteType(String),
    ExpectedArray(String),
    ExpectedStruct(String),
    ExpectedMember(String, String),
}

/// The text an error is displayed as.
pub open spec fn error_text(e: TypeAnalysisError) -> Seq<char> {
    match e {
        TypeAnalysisError::DuplicatePredicate(n) => "duplicate predicate '"@ + n@ + "'"@,
        TypeAnalysisError::DuplicateLocal(n) => "duplicate local '"@ + n@ + "'"@,
        TypeAnalysisError::DuplicateLoop(n) => "duplicate loop '"@ + n@ + "'"@,
        TypeAnalysisError::UnknownPredicate(n) => "unknown predicate '"@ + n@ + "'"@,
        TypeAnalysisError::UnknownLocal(n) => "unknown local '"@ + n@ + "'"@,
        TypeAnalysisError::UnknownLoop(n) => "unknown loop '"@ + n@ + "'"@,
        TypeAnalysisError::UnexpectedTypes(a, b) => "expected type '"@ + a@ + "' but got '"@ + b@
            + "'"@,
        TypeAnalysisError::InfiniteType(t) => "type '"@ + t@ + "' is infinite"@,
        TypeAnalysisError::ExpectedArray(t) => "expected an array type but got '"@ + t@ + "'"@,
        TypeAnalysisError::ExpectedStruct(t) => "expected a struct-like type but got '"@ + t@
            + "'"@,
        TypeAnalysisError::ExpectedMember(t, m) => "type '"@ + t@ + "' has no member '"@ + m@
            + "'"@,
    }
}

impl TypeAnalysisError {
    /// The text the error is displayed as.
    pub fn message(&self) -> (r: String)
        ensures
            r@ == error_text(*self),
    {
        match self {
            TypeAnalysisError::DuplicatePredicate(n) => concat3("duplicate predicate '", n.as_str(), "'"),
            TypeAnalysisError::DuplicateLocal(n) => concat3("duplicate local '", n.as_str(), "'"),
            TypeAnalysisError::DuplicateLoop(n) => concat3("duplicate loop '", n.as_str(), "'"),
            TypeAnalysisError::UnknownPredicate(n) => concat3("unknown predicate '", n.as_str(), "'"),
            TypeAnalysisError::UnknownLocal(n) => concat3("unknown local '", n.as_str(), "'"),
            TypeAnalysisError::UnknownLoop(n) => concat3("unknown loop '", n.as_str(), "'"),
            TypeAnalysisError::UnexpectedTypes(a, b) => {
                let mut s = concat3("expected type '", a.as_str(), "' but got '");
                s.append(b.as_str());
                s.append("'");
                s
            },
            TypeAnalysisError::InfiniteType(t) => concat3("type '", t.as_str(), "' is infinite"),
            TypeAnalysisError::ExpectedArray(t) => concat3(
                "expected an array type but got '",
                t.as_str(),
                "'",
            ),
            TypeAnalysisError::ExpectedStruct(t) => concat3(
                "expected a struct-like type but got '",
                t.as_str(),
                "'",
            ),
            TypeAnalysisError::ExpectedMember(t, m) => {
                let mut s = concat3("type '", t.as_str(), "' has no member '");
                s.append(m.as_str());
                s.append("'");
                s
            },
        }
    }

    /// Converts the error into a list holding one diagnostic, `context: error`.
    pub fn into_diags(&self, source_name: &str, span: Option<Span>, context: &str) -> (r: Vec<
        Diagnostic,
    >)
        ensures
            r@.len() == 1,
            r@[0].source@ == source_name@,
            r@[0].message@ == context@ + ": "@ + error_text(*self),
            r@[0].span == span,
    {
        let m = self.message();
        let text = concat3(context, ": ", m.as_str());
        let mut v = Vec::new();
        v.push(Diagnostic::new(source_name, text, span));
        v
    }
}

} // verus!
