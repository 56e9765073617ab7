//! The type factory of the type checker and the data the compiler reads from LLZK IR.
use vstd::prelude::*;
use crate::ast::Span;
use crate::types::{FnTy, Ty, TyV, copy_tys, tys_view};

pub mod llzk;
pub mod type_text;
pub mod verif;

verus! {

/// A position in a named source file.
#[derive(Debug, Clone, PartialEq, Eq)]
pub struct Location {
    pub filename: String,
    pub line: usize,
    pub column: usize,
}

/// Creates the types of the specification language.
///
/// The prime field of the circuit, when one is given, is a property of the context: every field
/// element type the context creates belongs to it. The context also numbers the type variables
/// it creates.
pub struct Context {
    pub prime: Option<String>,
    pub next_var: u64,
}

impl Default for Context {
    /// A context without a prime field.
    fn default() -> (r: Context)
        ensures
            r.prime is None,
            r.next_var == 0,
    {
        Context::new()
    }
}

impl Context {
    /// Creates a context without a prime field.
    pub fn new() -> (r: Context)
        ensures
            r.prime is None,
            r.next_var == 0,
    {
        Context { prime: None, next_var: 0 }
    }

    /// Creates a context for the given prime field.
    pub fn with_field(prime: String) -> (r: Context)
        ensures
            r.prime == Some(prime),
            r.next_var == 0,
    {
        Context { prime: Some(prime), next_var: 0 }
    }

    /// The location of a span of the given file.
    pub fn location_from_span(&self, filename: &str, span: Span) -> (r: Location)
        ensures
            r.filename@ == filename@,
            r.line == span.line,
            r.column == span.column,
    {
        Location { filename: filename.to_owned(), line: span.line, column: span.column }
    }

    /// The type of a function with the given inputs and outputs.
    pub fn func_type(&self, ins: &Vec<Ty>, outs: &Vec<Ty>) -> (r: FnTy)
        ensures
            r@ == TyV::Func(tys_view(ins@), tys_view(outs@)),
    {
        FnTy { ins: copy_tys(ins), outs: copy_tys(outs) }
    }

    /// The type of a predicate: the given inputs and one boolean output.
    pub fn predicate_type(&self, ins: &Vec<Ty>) -> (r: FnTy)
        ensures
            r@ == TyV::Func(tys_view(ins@), seq![TyV::Bool]),
    {
        let mut outs: Vec<Ty> = Vec::new();
        outs.push(Ty::Bool);
        let r = self.func_type(ins, &outs);
        proof {
            crate::types::lemma_tys_view(outs@);
            assert(tys_view(outs@) =~= seq![TyV::Bool]);
        }
        r
    }

    /// The boolean type.
    pub fn bool_type(&self) -> (r: Ty)
        ensures
            r@ == TyV::Bool,
    {
        Ty::Bool
    }

    /// The type of machine words.
    pub fn index_type(&self) -> (r: Ty)
        ensures
            r@ == TyV::Index,
    {
        Ty::Index
    }

    /// The type of the elements of the prime field.
    pub fn felt_type(&self) -> (r: Ty)
        ensures
            r@ == TyV::Felt,
    {
        Ty::Felt
    }

    /// The prime field, when one was given.
    pub fn prime(&self) -> (r: Option<&str>)
        ensures
            match self.prime {
                Some(p) => r matches Some(q) && q@ == p@,
                None => r is None,
            },
    {
        match &self.prime {
            Some(p) => Some(p.as_str()),
            None => None,
        }
    }

    /// A type variable that no earlier call returned. The counter stops at its largest value.
    pub fn fresh_var(&mut self) -> (r: Ty)
        ensures
            r@ == TyV::Var(old(self).next_var),
            final(self).next_var == if old(self).next_var < u64::MAX {
                old(self).next_var + 1
            } else {
                old(self).next_var as int
            },
            final(self).prime == old(self).prime,
    {
        let id = self.next_var;
        if self.next_var < u64::MAX {
            self.next_var = self.next_var + 1;
        }
        Ty::Var(id)
    }
}

} // verus!
