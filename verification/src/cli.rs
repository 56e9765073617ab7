//! What the command line asks for, and the checks it runs between reading its files and
//! reporting.
use vstd::prelude::*;
use crate::ast::Document;
use crate::diagnostic::{CompileError, Diagnostics};
use crate::ir::llzk::{IrOp, extract_metadata, has_duplicate_loop, model_upto};
use crate::parser::{document_ok, parse_document, parse_error_message, reads_as};
use crate::verify::{all_from, diags_view, document_diags, verify_document};

verus! {

/// Emit actions supported by the compiler.
#[derive(Debug, Clone, Copy, PartialEq, Eq, Structural)]
pub enum Emit {
    /// Emit the AST representation of the spec.
    Ast,
    /// Emit the MLIR IR representation of the spec.
    Ir,
}

/// Supported output formats.
#[derive(Debug, Clone, Copy, PartialEq, Eq, Structural)]
pub enum EmitFormat {
    /// Debug formatting (for `--emit=ir`, the IR in plaintext).
    Debug,
    /// JSON (only for `--emit=ast`).
    Json,
    /// The IR in binary form (only for `--emit=ir`).
    Bytecode,
}

/// The arguments the compiler accepts.
#[derive(Debug, Clone, PartialEq, Eq)]
pub struct Args {
    /// Path to the `llzk-spec` source file.
    pub spec_file: String,
    /// Path to the LLZK IR file used for symbol verification.
    pub llzk_ir_file: String,
    /// What to emit, if anything.
    pub emit: Option<Emit>,
    /// Format of what is emitted.
    pub emit_format: EmitFormat,
    /// Where to emit; standard output when absent or `-`.
    pub emit_dest: Option<String>,
    /// Prime field used by the circuit.
    pub field: Option<String>,
}

/// Parses a specification as [`parse_document`] does; a syntax error becomes
/// [`CompileError::Syntax`].
pub fn parse_spec(spec_name: &str, source: &str) -> (r: Result<Document<()>, CompileError>)
    requires
        source@.len() < usize::MAX,
    ensures
        match r {
            Ok(d) => document_ok(source@, d) && d.span.start == 0 && d.span.end == source@.len()
                && reads_as(source@, d),
            Err(e) => e matches CompileError::Syntax(d) && d.source@ == spec_name@
                && parse_error_message(d.message@) && forall|d2: Document<()>| !#[trigger] reads_as(source@, d2),
        },
{
    match parse_document(spec_name, source) {
        Ok(d) => Ok(d),
        Err(d) => Err(CompileError::Syntax(d)),
    }
}

/// Checks a parsed specification against the operations of its LLZK IR module, in walk order:
/// derives the module's metadata, then checks the document against it. The IR fails when two
/// of its loops share a scope and a name; the document fails with what
/// [`document_diags`] reports.
pub fn check_document(
    spec_name: &str,
    document: &Document<()>,
    ir_name: &str,
    ops: &Vec<IrOp>,
) -> (r: Result<(), CompileError>)
    requires
        forall|i: int|
            0 <= i < ops@.len() ==> (#[trigger] ops@[i] matches IrOp::Op { operand_count, .. }
                && operand_count < usize::MAX) || !(ops@[i] is Op),
    ensures
        has_duplicate_loop(ops@, ops@.len() as int) ==> r matches Err(CompileError::Ir(_)),
        !has_duplicate_loop(ops@, ops@.len() as int) ==> {
            let expected = document_diags(model_upto(ops@, ops@.len() as int), *document);
            match r {
                Ok(()) => expected.len() == 0,
                Err(e) => e matches CompileError::Diagnostics(ds) && ds.0@.len() > 0 && diags_view(
                    ds.0@,
                ) == expected && all_from(ds.0@, spec_name@),
            }
        },
{
    let ir = match extract_metadata(ir_name, ops) {
        Ok(m) => m,
        Err(e) => {
            return Err(e);
        },
    };
    match verify_document(document, &ir, spec_name) {
        Ok(()) => Ok(()),
        Err(ds) => Err(CompileError::Diagnostics(Diagnostics::from_vec(ds))),
    }
}

} // verus!
