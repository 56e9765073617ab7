//! Diagnostic and error types for the compiler.
use vstd::prelude::*;
use crate::ast::Span;
use crate::text::{concat2, decimal, push_decimal};

verus! {

/// User-facing diagnostic emitted during parsing or semantic verification.
#[derive(Debug, Clone, PartialEq, Eq)]
pub struct Diagnostic {
    pub source: String,
    pub message: String,
    pub span: Option<Span>,
}

/// The text a diagnostic is displayed as: `source:line:column: message`, or
/// `source: message` when it has no location.
pub open spec fn diagnostic_text(source: Seq<char>, message: Seq<char>, span: Option<Span>) -> Seq<
    char,
> {
    match span {
        Some(span) => source + seq![':'] + decimal(span.line as nat) + seq![':'] + decimal(
            span.column as nat,
        ) + seq![':', ' '] + message,
        None => source + seq![':', ' '] + message,
    }
}

impl Diagnostic {
    /// Creates a new diagnostic message.
    pub fn new(source: &str, message: String, span: Option<Span>) -> (d: Diagnostic)
        ensures
            d.source@ == source@,
            d.message@ == message@,
            d.span == span,
    {
        Diagnostic { source: source.to_owned(), message, span }
    }

    /// Whether two diagnostics have the same source, message and location.
    pub open spec fn same_as(&self, other: Diagnostic) -> bool {
        self.source@ == other.source@ && self.message@ == other.message@ && self.span == other.span
    }

    /// Returns a copy of the diagnostic.
    pub fn copy(&self) -> (r: Diagnostic)
        ensures
            r.same_as(*self),
    {
        Diagnostic { source: self.source.clone(), message: self.message.clone(), span: self.span }
    }

    /// The text the diagnostic is displayed as.
    pub fn display(&self) -> (r: String)
        ensures
            r@ == diagnostic_text(self.source@, self.message@, self.span),
    {
        let mut s = self.source.clone();
        match self.span {
            Some(span) => {
                s.append(":");
                push_decimal(&mut s, span.line as u64);
                s.append(":");
                push_decimal(&mut s, span.column as u64);
                s.append(": ");
            },
            None => {
                s.append(": ");
            },
        }
        s.append(self.message.as_str());
        proof {
            reveal_strlit(":");
            reveal_strlit(": ");
        }
        assert(s@ =~= diagnostic_text(self.source@, self.message@, self.span));
        s
    }
}

/// The texts of a list of diagnostics, one per line.
pub open spec fn diagnostics_text(ds: Seq<Diagnostic>) -> Seq<char>
    decreases ds.len(),
{
    if ds.len() == 0 {
        Seq::empty()
    } else if ds.len() == 1 {
        diagnostic_text(ds[0].source@, ds[0].message@, ds[0].span)
    } else {
        diagnostics_text(ds.drop_last()) + seq!['\n'] + diagnostic_text(
            ds.last().source@,
            ds.last().message@,
            ds.last().span,
        )
    }
}

/// Copies a list of diagnostics.
pub fn copy_diagnostics(ds: &Vec<Diagnostic>) -> (r: Vec<Diagnostic>)
    ensures
        r@.len() == ds@.len(),
        forall|i: int| 0 <= i < r@.len() ==> #[trigger] r@[i].same_as(ds@[i]),
{
    let mut r: Vec<Diagnostic> = Vec::new();
    let mut i: usize = 0;
    while i < ds.len()
        invariant
            i <= ds.len(),
            r@.len() == i,
            forall|j: int| 0 <= j < i ==> #[trigger] r@[j].same_as(ds@[j]),
        decreases ds.len() - i,
    {
        r.push(ds[i].copy());
        i = i + 1;
    }
    r
}

/// A collection of structured diagnostics.
#[derive(Debug, Clone, PartialEq, Eq)]
pub struct Diagnostics(pub Vec<Diagnostic>);

impl Diagnostics {
    /// Wraps a list of diagnostics.
    pub fn from_vec(diagnostics: Vec<Diagnostic>) -> (r: Diagnostics)
        ensures
            r.0@ == diagnostics@,
    {
        Diagnostics(diagnostics)
    }

    /// Returns the diagnostics, in emission order.
    pub fn as_slice(&self) -> (r: &[Diagnostic])
        ensures
            r@ == self.0@,
    {
        self.0.as_slice()
    }

    /// The diagnostics displayed one per line.
    pub fn display(&self) -> (r: String)
        ensures
            r@ == diagnostics_text(self.0@),
    {
        let mut s = String::new();
        let mut i: usize = 0;
        while i < self.0.len()
            invariant
                i <= self.0.len(),
                s@ == diagnostics_text(self.0@.subrange(0, i as int)),
            decreases self.0.len() - i,
        {
            if i > 0 {
                s.append("\n");
            }
            let d = self.0[i].display();
            s.append(d.as_str());
            proof {
                reveal_strlit("\n");
                let pre = self.0@.subrange(0, i as int + 1);
                assert(pre.drop_last() =~= self.0@.subrange(0, i as int));
                assert(pre.last() == self.0@[i as int]);
            }
            i = i + 1;
        }
        assert(self.0@.subrange(0, self.0.len() as int) =~= self.0@);
        s
    }
}

/// Compilation errors raised by the library.
#[derive(Debug, Clone, PartialEq, Eq)]
pub enum CompileError {
    /// Errors reading or interpreting the IR.
    Ir(String),
    /// A syntax error in the specification.
    Syntax(Diagnostic),
    /// Semantic errors found in the specification.
    Diagnostics(Diagnostics),
}

impl CompileError {
    /// Returns a copy of any structured diagnostics carried by the error.
    pub fn diagnostics(&self) -> (r: Vec<Diagnostic>)
        ensures
            match self {
                CompileError::Syntax(d) => r@.len() == 1 && r@[0].same_as(*d),
                CompileError::Diagnostics(ds) => r@.len() == ds.0@.len() && forall|i: int|
                    0 <= i < r@.len() ==> #[trigger] r@[i].same_as(ds.0@[i]),
                CompileError::Ir(_) => r@.len() == 0,
            },
    {
        match self {
            CompileError::Syntax(d) => {
                let mut v = Vec::new();
                v.push(d.copy());
                v
            },
            CompileError::Diagnostics(ds) => copy_diagnostics(&ds.0),
            CompileError::Ir(_) => Vec::new(),
        }
    }

    /// The text the error is displayed as.
    pub fn display(&self) -> (r: String)
        ensures
            match self {
                CompileError::Ir(m) => r@ == m@,
                CompileError::Syntax(d) => r@ == diagnostic_text(d.source@, d.message@, d.span),
                CompileError::Diagnostics(ds) => r@ == diagnostics_text(ds.0@),
            },
    {
        match self {
            CompileError::Ir(m) => m.clone(),
            CompileError::Syntax(d) => d.display(),
            CompileError::Diagnostics(ds) => ds.display(),
        }
    }
}

} // verus!
