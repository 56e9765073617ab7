use llzk_spec::ast::{AstContext, BinaryOp, Expression, Identifier, Item, Span, Statement};
use llzk_spec::type_analysis::ctx::TypeInferenceCtx;
use llzk_spec::type_analysis::expression::{ExpressionTypeCheckerCfg, check_expression};
use llzk_spec::diagnostic::CompileError;
use llzk_spec::ir::Context;
use llzk_spec::parser::parse_document;
use llzk_spec::type_analysis::check::TypeChecker;
use llzk_spec::type_analysis::{CircuitInfo, ContractTargetInfo, InputInfo, MemberInfo};
use llzk_spec::type_analysis::loops::{LoopBinding, LoopInfo, LoopLabel};
use llzk_spec::types::Ty;

fn circuit() -> CircuitInfo {
    CircuitInfo {
        targets: vec![(
            "Foo".to_string(),
            ContractTargetInfo {
                inputs: vec![InputInfo::named("in", Ty::Felt)],
                outputs: vec![],
                members: vec![MemberInfo::new("out", Ty::Felt, true)],
                template_params: vec![],
                loops: vec![],
                self_type: None,
            },
        )],
    }
}

fn check(source: &str) -> Result<llzk_spec::ast::Document<Ty>, CompileError> {
    let document = parse_document("t.spec", source).expect("parse success");
    TypeChecker::check(Context::new(), &circuit(), &AstContext::new(), "t.spec", &document)
}

#[test]
fn well_typed_contract_gets_types() {
    let typed = check("contract for Foo { ensure out == in && $arg[0] == out; }").expect("typed");
    let Item::Contract(c) = &typed.items[0] else { panic!() };
    let Statement::Ensure { expression, .. } = &c.body.statements[0] else { panic!() };
    let Expression::Binary { meta, .. } = expression else { panic!() };
    assert_eq!(*meta, Ty::Bool);
}

#[test]
fn unknown_target_is_a_type_error() {
    match check("contract for Bar { ensure true; }") {
        Err(CompileError::Diagnostics(ds)) => {
            assert!(ds.0[0].message.contains("contract target 'Bar' not found"), "{}", ds.0[0].message);
        }
        other => panic!("unexpected result {other:?}"),
    }
}

#[test]
fn conditions_must_be_booleans() {
    match check("contract for Foo { ensure out; }") {
        Err(CompileError::Diagnostics(ds)) => {
            assert!(ds.0.iter().any(|d| d.message.contains("expected type")), "{:?}", ds.0);
        }
        other => panic!("unexpected result {other:?}"),
    }
}

#[test]
fn predicates_are_typed_from_their_use() {
    let typed = check("predicate is_bool(x) = x == 0 || x == 1 contract for Foo { ensure is_bool(out); }");
    assert!(typed.is_ok(), "{:?}", typed.err());
}

#[test]
fn equality_of_booleans_is_a_boolean() {
    let typed = check("contract for Foo { ensure (true == false) != (1 == 2); }").expect("typed");
    let Item::Contract(c) = &typed.items[0] else { panic!() };
    let Statement::Ensure { expression, .. } = &c.body.statements[0] else { panic!() };
    let Expression::Binary { meta, left, right, .. } = expression else { panic!() };
    assert_eq!(*meta, Ty::Bool);
    assert_eq!(*left.meta(), Ty::Bool);
    assert_eq!(*right.meta(), Ty::Bool);
}

#[test]
fn comparing_a_boolean_with_a_field_element_fails() {
    assert!(check("contract for Foo { ensure true == 1; }").is_err());
}

#[test]
fn comparison_of_field_elements_is_a_boolean() {
    let ast = AstContext::new();
    let mut ctx = TypeInferenceCtx::new(Context::new());
    let n = |k: &str| Expression::Number { value: ast.literal(k.to_string()), span: Span::default(), meta: () };
    let e = Expression::Binary {
        op: BinaryOp::Lt,
        left: Box::new(n("1")),
        right: Box::new(n("2")),
        span: Span::default(),
        meta: (),
    };
    let t = check_expression(&mut ctx, "t.spec", ExpressionTypeCheckerCfg::new(), &e).expect("typed");
    let Expression::Binary { meta, left, right, .. } = &t else { panic!() };
    assert_eq!(*meta, Ty::Bool);
    assert_eq!(*left.meta(), Ty::Felt);
    assert_eq!(*right.meta(), Ty::Felt);
}

#[test]
fn old_is_refused_where_it_is_not_allowed() {
    let s = Span::default();
    let e = Expression::Old {
        expression: Box::new(Expression::Boolean { value: true, span: s, meta: () }),
        span: s,
        meta: (),
    };
    let mut ctx = TypeInferenceCtx::new(Context::new());
    let ds = check_expression(&mut ctx, "t.spec", ExpressionTypeCheckerCfg::new(), &e).unwrap_err();
    assert_eq!(ds.len(), 1);
    assert_eq!(ds[0].message, "old expression is not allowed in this context");
    assert_eq!(ds[0].span, Some(s));
    let mut ctx = TypeInferenceCtx::new(Context::new());
    let t = check_expression(&mut ctx, "t.spec", ExpressionTypeCheckerCfg::new_with_cfg(true, false), &e)
        .expect("typed");
    assert_eq!(*t.meta(), Ty::Bool);
}

#[test]
fn a_name_resolves_only_against_locals() {
    let ast = AstContext::new();
    let mut ctx = TypeInferenceCtx::new(Context::new());
    let p = Identifier::new(ast.symbol("p"), Span::default());
    let f = ctx.ts().predicate_type(&vec![]);
    ctx.scope().top().bind_predicate(&p, f).unwrap();
    let ds = check_expression(&mut ctx, "t.spec", ExpressionTypeCheckerCfg::new(), &Expression::Symbol(p))
        .unwrap_err();
    assert_eq!(ds.len(), 1);
    assert_eq!(ds[0].message, "on symbol 'p': unknown local 'p'");
    assert_eq!(ds[0].span, Some(Span::default()));
}

#[test]
fn a_statement_out_of_place_is_named() {
    match check("contract for Foo { return true; }") {
        Err(CompileError::Diagnostics(ds)) => {
            assert_eq!(ds.0[0].message, "return statement is not allowed in this context");
        }
        other => panic!("unexpected result {other:?}"),
    }
}

#[test]
fn an_unknown_target_is_reported_first() {
    match check("contract for Bar { ensure true; }") {
        Err(CompileError::Diagnostics(ds)) => {
            assert_eq!(ds.0[0].message, "in contract declaration: contract target 'Bar' not found");
        }
        other => panic!("unexpected result {other:?}"),
    }
}

fn circuit_with_loop() -> CircuitInfo {
    CircuitInfo {
        targets: vec![(
            "Foo".to_string(),
            ContractTargetInfo {
                inputs: vec![InputInfo::named("in", Ty::Felt)],
                outputs: vec![],
                members: vec![MemberInfo::new("out", Ty::Felt, true)],
                template_params: vec![],
                loops: vec![LoopInfo {
                    label: LoopLabel::named("outer"),
                    bindings: vec![(LoopBinding::Iv, Ty::Index), (LoopBinding::Arg(0), Ty::Felt)],
                }],
                self_type: None,
            },
        )],
    }
}

fn check_with_loop(source: &str) -> Result<llzk_spec::ast::Document<Ty>, CompileError> {
    let document = parse_document("t.spec", source).expect("parse success");
    TypeChecker::check(Context::new(), &circuit_with_loop(), &AstContext::new(), "t.spec", &document)
}

#[test]
fn an_invariant_binds_as_many_names_as_its_loop() {
    assert!(check_with_loop("contract for Foo { invariant for outer(i, x) { ensure true; step 1 == 1; } }").is_ok());
    match check_with_loop("contract for Foo { invariant for outer(a, b, c) { } }") {
        Err(CompileError::Diagnostics(ds)) => {
            assert_eq!(ds.0[0].message, "invariant declaration was expecting 3 parameters but the loop has 2");
        }
        other => panic!("unexpected result {other:?}"),
    }
}

#[test]
fn a_contract_of_literals_checks() {
    assert!(check("contract for Foo { ensure 1 + 2 == 3; require !false; ensure -1 != 0; }").is_ok());
}

#[test]
fn names_of_known_type_check_without_inference() {
    let ast = AstContext::new();
    let mut ctx = TypeInferenceCtx::new(Context::new());
    ctx.scope().push(());
    let x = Identifier::new(ast.symbol("x"), Span::default());
    ctx.scope().top().bind_local(&x, Ty::Felt).unwrap();
    let e = Expression::Binary {
        op: BinaryOp::Eq,
        left: Box::new(Expression::Symbol(x)),
        right: Box::new(Expression::Number { value: ast.literal("1".to_string()), span: Span::default(), meta: () }),
        span: Span::default(),
        meta: (),
    };
    let t = check_expression(&mut ctx, "t.spec", ExpressionTypeCheckerCfg::new(), &e).expect("typed");
    assert_eq!(*t.meta(), Ty::Bool);
    assert!(ctx.subst.is_empty());
}

#[test]
fn a_contract_over_known_names_checks() {
    assert!(check("contract for Foo { ensure out == in; require !(in == 0) || out != 1; }").is_ok());
}

#[test]
fn a_predicate_of_literals_checks() {
    assert!(check("predicate always() = 1 == 1 contract for Foo { ensure always(); }").is_ok());
}

#[test]
fn nested_predicates_capture_the_contract_names() {
    let typed = check("contract for Foo {\n  predicate local(x) = x == out\n  ensure local(out);\n}").expect("typed");
    let Item::Contract(c) = &typed.items[0] else { panic!() };
    let Statement::Predicate(p) = &c.body.statements[0] else { panic!() };
    let Ty::Func(f) = &p.name.meta else { panic!("{:?}", p.name.meta) };
    assert_eq!(f.ins.len(), 1);
    assert_eq!(f.outs, vec![Ty::Bool]);
    let Statement::Ensure { expression, .. } = &c.body.statements[1] else { panic!() };
    let Expression::Call { meta, .. } = expression else { panic!() };
    assert_eq!(*meta, Ty::Bool);
}

#[test]
fn a_parameterless_nested_predicate_over_contract_names_checks() {
    assert!(check("contract for Foo { predicate same() = out == in ensure same(); }").is_ok());
}

#[test]
fn invariant_names_take_the_types_of_the_loop_bindings() {
    let typed = check_with_loop("contract for Foo { invariant for outer(i, x) { ensure x == x; } }").expect("typed");
    let Item::Contract(c) = &typed.items[0] else { panic!() };
    let Statement::Invariant(d) = &c.body.statements[0] else { panic!() };
    assert_eq!(d.bindings[0].meta, Ty::Index);
    assert_eq!(d.bindings[1].meta, Ty::Felt);
    assert_eq!(d.loop_name.meta, Ty::Func(llzk_spec::types::FnTy { ins: vec![Ty::Index, Ty::Felt], outs: vec![] }));
}
