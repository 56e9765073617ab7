//! Helpers shared by the type checkers: the typing rules of the operators and a collector of
//! diagnostics.
use vstd::prelude::*;
use crate::ast::{BinaryOp, Span, UnaryOp};
use crate::diagnostic::{Diagnostic, copy_diagnostics};
use crate::ir::Context;
use crate::text::concat3;
use crate::type_analysis::error::{TypeAnalysisError, error_text};
use crate::type_analysis::subst::unifies;
use crate::types::{Ty, TyV};

verus! {

/// Shorthand for a typing result, whose error is a list of diagnostics.
pub type TypingResult<T> = Result<T, Vec<Diagnostic>>;

/// Whether the operator combines booleans (`||`, `&&`).
pub open spec fn is_logical(op: BinaryOp) -> bool {
    op == BinaryOp::Or || op == BinaryOp::And
}

/// Whether the operator compares its operands and yields a boolean.
pub open spec fn is_comparison(op: BinaryOp) -> bool {
    op == BinaryOp::Eq || op == BinaryOp::Ne || op == BinaryOp::Lt || op == BinaryOp::Le || op
        == BinaryOp::Gt || op == BinaryOp::Ge
}

/// Whether the operator is `==` or `!=`, which compare two field elements or two booleans.
pub open spec fn is_equality(op: BinaryOp) -> bool {
    op == BinaryOp::Eq || op == BinaryOp::Ne
}

/// The typing rule of a binary operator on the types of its operands: `==` and `!=` take two
/// operands of one type, a field element (or index) or a boolean; `||` and `&&` take booleans;
/// the other operators take field elements.
pub open spec fn binary_operands_ok(op: BinaryOp, a: TyV, b: TyV) -> bool {
    if is_equality(op) {
        unifies(a, b) && (a is Bool || a is Felt || a is Index)
    } else {
        unifies(binary_operand_ty(op), a) && unifies(binary_operand_ty(op), b)
    }
}

/// The type the operands of a binary operator must have: booleans for `||` and `&&`, field
/// elements otherwise.
pub open spec fn binary_operand_ty(op: BinaryOp) -> TyV {
    if is_logical(op) {
        TyV::Bool
    } else {
        TyV::Felt
    }
}

/// The type of a binary operation: a boolean for logical operators and comparisons, a field
/// element otherwise.
pub open spec fn binary_result_ty(op: BinaryOp) -> TyV {
    if is_logical(op) || is_comparison(op) {
        TyV::Bool
    } else {
        TyV::Felt
    }
}

/// The type of the operand, and of the result, of a unary operator: a boolean for `!`, a field
/// element for `-`.
pub open spec fn unary_ty(op: UnaryOp) -> TyV {
    match op {
        UnaryOp::Not => TyV::Bool,
        UnaryOp::Neg => TyV::Felt,
    }
}

impl BinaryOp {
    /// The type the operands of this operator must have.
    pub fn expected_type(&self, t: &Context) -> (r: Ty)
        ensures
            r@ == binary_operand_ty(*self),
    {
        match self {
            BinaryOp::Or | BinaryOp::And => t.bool_type(),
            _ => t.felt_type(),
        }
    }

    /// The type of the operation.
    pub fn return_type(&self, t: &Context) -> (r: Ty)
        ensures
            r@ == binary_result_ty(*self),
    {
        match self {
            BinaryOp::Or | BinaryOp::And | BinaryOp::Eq | BinaryOp::Ne | BinaryOp::Lt
            | BinaryOp::Le | BinaryOp::Gt | BinaryOp::Ge => t.bool_type(),
            _ => t.felt_type(),
        }
    }
}

impl UnaryOp {
    /// The type the operand of this operator must have.
    pub fn expected_type(&self, t: &Context) -> (r: Ty)
        ensures
            r@ == unary_ty(*self),
    {
        match self {
            UnaryOp::Not => t.bool_type(),
            UnaryOp::Neg => t.felt_type(),
        }
    }

    /// The type of the operation.
    pub fn return_type(&self, t: &Context) -> (r: Ty)
        ensures
            r@ == unary_ty(*self),
    {
        match self {
            UnaryOp::Not => t.bool_type(),
            UnaryOp::Neg => t.felt_type(),
        }
    }
}

/// Collects the diagnostics of one entity of the AST; they are located at the entity's span
/// unless another one is given.
pub struct Diagnostics {
    pub diags: Vec<Diagnostic>,
    pub source_name: String,
    pub span: Span,
}

/// `d` is the diagnostic `message`, of `source`, at `span`.
pub open spec fn is_diag(d: Diagnostic, source: Seq<char>, message: Seq<char>, span: Option<Span>) -> bool {
    d.source@ == source && d.message@ == message && d.span == span
}

impl Diagnostics {
    /// Creates an empty collector for the entity at `span`.
    pub fn new(source_name: &str, span: Span) -> (r: Diagnostics)
        ensures
            r.diags@.len() == 0,
            r.source_name@ == source_name@,
            r.span == span,
    {
        Diagnostics { diags: Vec::new(), source_name: source_name.to_owned(), span }
    }

    /// Whether no diagnostic has been collected.
    pub fn is_empty(&self) -> (r: bool)
        ensures
            r == (self.diags@.len() == 0),
    {
        self.diags.len() == 0
    }

    /// Adds a diagnostic at the given location.
    pub fn add_at_location(&mut self, message: String, span: Span)
        ensures
            final(self).diags@.len() == old(self).diags@.len() + 1,
            final(self).diags@.drop_last() == old(self).diags@,
            is_diag(final(self).diags@.last(), old(self).source_name@, message@, Some(span)),
            final(self).source_name == old(self).source_name,
            final(self).span == old(self).span,
    {
        let d = Diagnostic::new(self.source_name.as_str(), message, Some(span));
        self.diags.push(d);
        proof {
            assert(self.diags@.drop_last() =~= old(self).diags@);
        }
    }

    /// Adds a diagnostic at the entity's location.
    pub fn add(&mut self, message: String)
        ensures
            final(self).diags@.len() == old(self).diags@.len() + 1,
            final(self).diags@.drop_last() == old(self).diags@,
            is_diag(final(self).diags@.last(), old(self).source_name@, message@, Some(old(self).span)),
            final(self).source_name == old(self).source_name,
            final(self).span == old(self).span,
    {
        let span = self.span;
        self.add_at_location(message, span);
    }

    /// Adds the diagnostic `message` unless `check` holds; returns `check`.
    pub fn add_unless(&mut self, check: bool, message: &str) -> (r: bool)
        ensures
            r == check,
            check ==> final(self).diags == old(self).diags,
            !check ==> final(self).diags@.len() == old(self).diags@.len() + 1
                && final(self).diags@.drop_last() == old(self).diags@ && is_diag(
                final(self).diags@.last(),
                old(self).source_name@,
                message@,
                Some(old(self).span),
            ),
            final(self).source_name == old(self).source_name,
            final(self).span == old(self).span,
    {
        if !check {
            self.add(message.to_owned());
        }
        check
    }

    /// Adds a typing error, `context: error`, at the given location.
    pub fn add_type_err_at_location(&mut self, err: &TypeAnalysisError, context: &str, span: Span)
        ensures
            final(self).diags@.len() == old(self).diags@.len() + 1,
            final(self).diags@.drop_last() == old(self).diags@,
            is_diag(
                final(self).diags@.last(),
                old(self).source_name@,
                context@ + ": "@ + error_text(*err),
                Some(span),
            ),
            final(self).source_name == old(self).source_name,
            final(self).span == old(self).span,
    {
        let m = err.message();
        let text = concat3(context, ": ", m.as_str());
        self.add_at_location(text, span);
    }

    /// Adds a typing error, `context: error`, at the entity's location.
    pub fn add_type_err(&mut self, err: &TypeAnalysisError, context: &str)
        ensures
            final(self).diags@.len() == old(self).diags@.len() + 1,
            final(self).diags@.drop_last() == old(self).diags@,
            is_diag(
                final(self).diags@.last(),
                old(self).source_name@,
                context@ + ": "@ + error_text(*err),
                Some(old(self).span),
            ),
            final(self).source_name == old(self).source_name,
            final(self).span == old(self).span,
    {
        let span = self.span;
        self.add_type_err_at_location(err, context, span);
    }

    /// Adds each typing error of `errs`, with the same context, at the given location.
    pub fn add_type_errs_at_location(&mut self, errs: &Vec<TypeAnalysisError>, context: &str, span: Span)
        ensures
            final(self).diags@.len() == old(self).diags@.len() + errs@.len(),
            final(self).diags@.subrange(0, old(self).diags@.len() as int) == old(self).diags@,
            forall|i: int|
                0 <= i < errs@.len() ==> is_diag(
                    #[trigger] final(self).diags@[old(self).diags@.len() + i],
                    old(self).source_name@,
                    context@ + ": "@ + error_text(errs@[i]),
                    Some(span),
                ),
            final(self).source_name == old(self).source_name,
            final(self).span == old(self).span,
    {
        let ghost d0 = self.diags@;
        let mut i: usize = 0;
        while i < errs.len()
            invariant
                i <= errs@.len(),
                self.diags@.len() == d0.len() + i,
                self.diags@.subrange(0, d0.len() as int) == d0,
                self.source_name == old(self).source_name,
                self.span == old(self).span,
                d0 == old(self).diags@,
                forall|j: int|
                    0 <= j < i ==> is_diag(
                        #[trigger] self.diags@[d0.len() + j],
                        old(self).source_name@,
                        context@ + ": "@ + error_text(errs@[j]),
                        Some(span),
                    ),
            decreases errs@.len() - i,
        {
            let ghost before = self.diags@;
            self.add_type_err_at_location(&errs[i], context, span);
            proof {
                assert(self.diags@.drop_last() == before);
                assert(self.diags@.subrange(0, d0.len() as int) =~= d0) by {
                    assert(self.diags@.subrange(0, d0.len() as int) =~= before.subrange(0, d0.len() as int));
                }
                assert forall|j: int| 0 <= j < i + 1 implies is_diag(
                    #[trigger] self.diags@[d0.len() + j],
                    old(self).source_name@,
                    context@ + ": "@ + error_text(errs@[j]),
                    Some(span),
                ) by {
                    if j < i {
                        assert(self.diags@[d0.len() + j] == before[d0.len() + j]);
                    }
                }
            }
            i = i + 1;
        }
    }

    /// The value of a successful typing result; the diagnostics of a failed one are collected.
    pub fn extract_result<T>(&mut self, r: TypingResult<T>) -> (v: Option<T>)
        ensures
            match r {
                Ok(x) => v == Some(x) && final(self).diags == old(self).diags,
                Err(ds) => v is None && final(self).diags@ == old(self).diags@ + ds@,
            },
            final(self).source_name == old(self).source_name,
            final(self).span == old(self).span,
    {
        match r {
            Ok(x) => Some(x),
            Err(ds) => {
                let mut ds = ds;
                self.diags.append(&mut ds);
                None
            },
        }
    }

    /// The value of a successful lookup; a failed one adds its error, `context: error`.
    pub fn extract_type_result<T>(&mut self, r: Result<T, TypeAnalysisError>, context: &str) -> (v: Option<T>)
        ensures
            match r {
                Ok(x) => v == Some(x) && final(self).diags == old(self).diags,
                Err(e) => v is None && final(self).diags@.len() == old(self).diags@.len() + 1
                    && final(self).diags@.drop_last() == old(self).diags@ && is_diag(
                    final(self).diags@.last(),
                    old(self).source_name@,
                    context@ + ": "@ + error_text(e),
                    Some(old(self).span),
                ),
            },
            final(self).source_name == old(self).source_name,
            final(self).span == old(self).span,
    {
        match r {
            Ok(x) => Some(x),
            Err(e) => {
                self.add_type_err(&e, context);
                None
            },
        }
    }

    /// Turns a lookup into a typing result: a failure carries the diagnostics collected so far
    /// and the lookup's error, `context: error`.
    pub fn to_typing_result<R>(&self, r: Result<R, TypeAnalysisError>, context: &str) -> (v: TypingResult<R>)
        ensures
            match r {
                Ok(x) => v == Ok::<R, Vec<Diagnostic>>(x),
                Err(e) => v matches Err(ds) && ds@.len() == self.diags@.len() + 1 && is_diag(
                    ds@.last(),
                    self.source_name@,
                    context@ + ": "@ + error_text(e),
                    Some(self.span),
                ) && forall|i: int| 0 <= i < self.diags@.len() ==> #[trigger] ds@[i].same_as(self.diags@[i]),
            },
    {
        match r {
            Ok(x) => Ok(x),
            Err(e) => {
                let mut new = Diagnostics {
                    diags: copy_diagnostics(&self.diags),
                    source_name: self.source_name.clone(),
                    span: self.span,
                };
                new.add_type_err(&e, context);
                proof {
                    assert forall|i: int| 0 <= i < self.diags@.len() implies #[trigger] new.diags@[i].same_as(self.diags@[i]) by {
                        assert(new.diags@[i] == new.diags@.drop_last()[i]);
                    }
                }
                Err(new.diags)
            },
        }
    }

    /// Turns a result with a message as error into a typing result: a failure carries the
    /// diagnostics collected so far and the message.
    pub fn from_other_result<T>(&self, r: Result<T, String>) -> (v: TypingResult<T>)
        ensures
            match r {
                Ok(x) => v == Ok::<T, Vec<Diagnostic>>(x),
                Err(m) => v matches Err(ds) && ds@.len() == self.diags@.len() + 1 && is_diag(
                    ds@.last(),
                    self.source_name@,
                    m@,
                    Some(self.span),
                ) && forall|i: int| 0 <= i < self.diags@.len() ==> #[trigger] ds@[i].same_as(self.diags@[i]),
            },
    {
        match r {
            Ok(x) => Ok(x),
            Err(m) => {
                let mut new = Diagnostics {
                    diags: copy_diagnostics(&self.diags),
                    source_name: self.source_name.clone(),
                    span: self.span,
                };
                new.add(m);
                proof {
                    assert forall|i: int| 0 <= i < self.diags@.len() implies #[trigger] new.diags@[i].same_as(self.diags@[i]) by {
                        assert(new.diags@[i] == new.diags@.drop_last()[i]);
                    }
                }
                Err(new.diags)
            },
        }
    }

    /// Ends the collection: the diagnostics, if any were collected, or else `ok`.
    pub fn finish<R>(self, ok: R) -> (v: TypingResult<R>)
        ensures
            self.diags@.len() == 0 ==> v == Ok::<R, Vec<Diagnostic>>(ok),
            self.diags@.len() > 0 ==> v == Err::<R, Vec<Diagnostic>>(self.diags),
    {
        if self.diags.len() == 0 {
            Ok(ok)
        } else {
            Err(self.diags)
        }
    }
}

} // verus!
