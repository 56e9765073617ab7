use llzk_spec::ast::{AstContext, Document};
use llzk_spec::diagnostic::CompileError;
use llzk_spec::ir::verif::lower::{anon_name, Op, OpKind, SpecCodegen};
use llzk_spec::ir::Context;
use llzk_spec::parser::parse_document;
use llzk_spec::type_analysis::check::TypeChecker;
use llzk_spec::type_analysis::{CircuitInfo, ContractTargetInfo, InputInfo, MemberInfo, ParamInfo};
use llzk_spec::types::{RecordKind, RecordTy, Member, Ty};

fn function_target() -> ContractTargetInfo {
    ContractTargetInfo {
        inputs: vec![InputInfo::named("in", Ty::Felt), InputInfo::named("i", Ty::Index)],
        outputs: vec![],
        members: vec![],
        template_params: vec![],
        loops: vec![],
        self_type: None,
    }
}

fn struct_target() -> ContractTargetInfo {
    ContractTargetInfo {
        inputs: vec![InputInfo::named("x", Ty::Felt)],
        outputs: vec![],
        members: vec![MemberInfo::new("out", Ty::Felt, true)],
        template_params: vec![ParamInfo::new("N", None)],
        loops: vec![],
        self_type: Some(Ty::Record(RecordTy {
            kind: RecordKind::Struct,
            name: "S".to_string(),
            members: vec![Member { name: "out".to_string(), ty: Ty::Felt }],
        })),
    }
}

fn circuit() -> CircuitInfo {
    CircuitInfo {
        targets: vec![("F".to_string(), function_target()), ("m::S".to_string(), struct_target())],
    }
}

fn typed(source: &str) -> Document<Ty> {
    let document = parse_document("t.spec", source).expect("parse success");
    TypeChecker::check(Context::new(), &circuit(), &AstContext::new(), "t.spec", &document).expect("typed")
}

fn lower(source: &str, info: &CircuitInfo) -> Result<Vec<Op>, CompileError> {
    let document = typed(source);
    let mut codegen = SpecCodegen::new("t.spec");
    codegen.emit_ir(&document, info)?;
    Ok(codegen.module)
}

fn kinds(ops: &[Op]) -> Vec<String> {
    ops.iter()
        .map(|o| {
            let k = format!("{:?}", o.kind);
            k.split(|c: char| c == '(' || c == ' ').next().unwrap().to_string()
        })
        .collect()
}

#[test]
fn anonymous_contracts_are_named_after_their_target_path() {
    assert_eq!(anon_name("a::b::C", 3), "a$b$C$contract$3");
    assert_eq!(anon_name("F", 0), "F$contract$0");
}

#[test]
fn conditions_of_a_contract_go_to_both_functions() {
    let module = lower("contract for F { ensure in == 0; }", &circuit()).expect("lowered");
    assert_eq!(module.len(), 1);
    match &module[0].kind {
        OpKind::Contract { name, target } => {
            assert_eq!(name, "F$contract$0");
            assert_eq!(target, "F");
        }
        other => panic!("unexpected {other:?}"),
    }
    let region = &module[0].regions[0];
    assert_eq!(region.args.len(), 2);
    assert_eq!(kinds(&region.ops), vec!["ConstFelt", "Binary", "EnsureCompute", "EnsureConstrain"]);
}

#[test]
fn compute_blocks_take_only_compute_conditions() {
    let module = lower("contract for F { compute { require in == 1; } }", &circuit()).expect("lowered");
    let body = &module[0].regions[0].ops;
    assert_eq!(kinds(body), vec!["ExecuteRegion"]);
    let scoped = &body[0].regions[0].ops;
    assert_eq!(kinds(scoped), vec!["ExecuteRegion", "Yield"]);
    assert_eq!(kinds(&scoped[0].regions[0].ops), vec!["ConstFelt", "Binary", "RequireCompute", "Yield"]);
}

#[test]
fn indices_are_cast_to_field_elements_for_arithmetic() {
    let module = lower("contract for F { ensure i + 1 == in; }", &circuit()).expect("lowered");
    let ops = &module[0].regions[0].ops;
    assert_eq!(kinds(ops)[..3].to_vec(), vec!["ConstFelt", "ToFelt", "Binary"]);
    assert_eq!(ops[2].operands[0], ops[1].result.as_ref().unwrap().id);
    assert_eq!(ops[1].operands[0], module[0].regions[0].args[1].id);
}

#[test]
fn predicates_become_function_definitions_that_calls_refer_to() {
    let module = lower(
        "predicate zero(x) = x == 0 contract for F { ensure zero(in); }",
        &circuit(),
    )
    .expect("lowered");
    assert_eq!(module.len(), 2);
    let id = match &module[0].kind {
        OpKind::FuncDef { id, name, .. } => {
            assert_eq!(name, "zero");
            *id
        }
        other => panic!("unexpected {other:?}"),
    };
    let def = &module[0].regions[0];
    assert_eq!(def.args.len(), 1);
    assert_eq!(kinds(&def.ops).last().unwrap(), "Return");
    let body = &module[1].regions[0].ops;
    assert!(body.iter().any(|o| matches!(o.kind, OpKind::Call(f) if f == id)));
}

#[test]
fn struct_contracts_read_members_and_template_parameters() {
    let module = lower("contract for m::S { ensure out == x; }", &circuit()).expect("lowered");
    match &module[0].kind {
        OpKind::Contract { name, .. } => assert_eq!(name, "m$S$contract$0"),
        other => panic!("unexpected {other:?}"),
    }
    let region = &module[0].regions[0];
    assert_eq!(region.args.len(), 2);
    let k = kinds(&region.ops);
    assert_eq!(k[0], "ReadConst");
    assert_eq!(k[1], "StructRead");
    assert_eq!(region.ops[1].operands, vec![region.args[0].id]);
}

#[test]
fn a_target_missing_from_the_circuit_fails_lowering() {
    let empty = CircuitInfo { targets: vec![] };
    match lower("contract for F { ensure true; }", &empty) {
        Err(CompileError::Ir(m)) => assert_eq!(m, "symbol 'F' not found"),
        other => panic!("unexpected {other:?}"),
    }
}

#[test]
fn conditionals_yield_from_both_branches() {
    let module = lower("contract for F { ensure in == 0 ? true : false; }", &circuit()).expect("lowered");
    let ops = &module[0].regions[0].ops;
    let cond = ops.iter().find(|o| matches!(o.kind, OpKind::If)).expect("an scf.if");
    assert_eq!(cond.regions.len(), 2);
    for r in &cond.regions {
        assert_eq!(kinds(&r.ops).last().unwrap(), "Yield");
    }
}
