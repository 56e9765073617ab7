use llzk_spec::text::{chars_of, text_of};
use llzk_spec::diagnostic::{CompileError, Diagnostic};
use llzk_spec::ast::Span;
use llzk_spec::ir::llzk::error::Error;
use llzk_spec::ir::Context;
use llzk_spec::type_analysis::error::TypeAnalysisError;
use llzk_spec::types::{ArrayTy, Dim, Member, RecordKind, RecordTy, Ty};

#[test]
fn types_are_written_as_llzk_writes_them() {
    let mut ctx = Context::new();
    assert_eq!(ctx.bool_type().text(), "i1");
    assert_eq!(ctx.felt_type().text(), "!felt.type");
    assert_eq!(ctx.index_type().text(), "index");
    assert_eq!(ctx.fresh_var().text(), "!poly.tvar<@T0>");
    assert_eq!(ctx.fresh_var().text(), "!poly.tvar<@T1>");
    let f = ctx.func_type(&vec![Ty::Felt, Ty::Bool], &vec![Ty::Felt]);
    assert_eq!(Ty::Func(f).text(), "(!felt.type, i1) -> !felt.type");
    let g = ctx.func_type(&vec![], &vec![Ty::Felt, Ty::Felt]);
    assert_eq!(Ty::Func(g).text(), "() -> (!felt.type, !felt.type)");
    let a = Ty::Array(ArrayTy {
        elem: Box::new(Ty::Felt),
        dims: vec![Dim::Const(4), Dim::Param("N".to_string())],
    });
    assert_eq!(a.text(), "!array.type<4,@N x !felt.type>");
    let s = Ty::Record(RecordTy { kind: RecordKind::Struct, name: "Foo".to_string(), members: vec![] });
    assert_eq!(s.text(), "!struct.type<@Foo>");
    let p = Ty::Record(RecordTy {
        kind: RecordKind::Pod,
        name: String::new(),
        members: vec![
            Member { name: "a".to_string(), ty: Ty::Felt },
            Member { name: "b".to_string(), ty: Ty::Bool },
        ],
    });
    assert_eq!(p.text(), "!pod.type<[@a: !felt.type, @b: i1]>");
}

#[test]
fn error_messages() {
    assert_eq!(
        TypeAnalysisError::UnexpectedTypes("Bool".to_string(), "Felt".to_string()).message(),
        "expected type 'Bool' but got 'Felt'"
    );
    assert_eq!(TypeAnalysisError::UnknownLocal("y".to_string()).message(), "unknown local 'y'");
    assert_eq!(
        TypeAnalysisError::ExpectedMember("S".to_string(), "m".to_string()).message(),
        "type 'S' has no member 'm'"
    );
    let ds = TypeAnalysisError::DuplicateLoop("l".to_string()).into_diags("f.spec", None, "in block");
    assert_eq!(ds.len(), 1);
    assert_eq!(ds[0].message, "in block: duplicate loop 'l'");
    assert_eq!(
        Error::ContractTargetNotFound("X".to_string()).message(),
        "contract target 'X' not found"
    );
}

#[test]
fn diagnostics_display_with_their_location() {
    let d = Diagnostic::new("f.spec", "bad".to_string(), Some(Span::new(10, 12, 3, 7)));
    assert_eq!(d.display(), "f.spec:3:7: bad");
    assert_eq!(CompileError::Syntax(d.clone()).display(), "f.spec:3:7: bad");
    assert_eq!(CompileError::Ir("broken".to_string()).display(), "broken");
    assert!(CompileError::Ir("broken".to_string()).diagnostics().is_empty());
}

#[test]
fn texts_are_built_character_by_character() {
    let cs = chars_of("héllo");
    assert_eq!(cs, vec!['h', 'é', 'l', 'l', 'o']);
    assert_eq!(text_of(&cs, 1, 4), "éll");
    assert_eq!(text_of(&cs, 2, 2), "");
}
