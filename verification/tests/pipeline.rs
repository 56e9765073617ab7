use llzk_spec::cli::{check_document, parse_spec};
use llzk_spec::diagnostic::CompileError;
use llzk_spec::ir::llzk::{IrOp, MemberDef, MemberType, ParentOp};

fn circuit() -> Vec<IrOp> {
    vec![
        IrOp::StructDef {
            path: vec![],
            name: "Foo".to_string(),
            members: vec![MemberDef { name: "out".to_string(), public: true, ty: MemberType::Other }],
            template_names: vec![],
        },
        IrOp::Op {
            name: "scf.for".to_string(),
            operand_count: 3,
            loop_label: None,
            parents: vec![ParentOp::StructDef { path: vec![], name: "Foo".to_string() }],
        },
    ]
}

#[test]
fn a_valid_spec_checks() {
    let doc = parse_spec(
        "v.spec",
        "contract for Foo { ensure out == 0 || out == 1; invariant for loop0(lb, i, ub, s) { ensure i <= ub; } }",
    )
    .unwrap();
    check_document("v.spec", &doc, "v.llzk", &circuit()).unwrap();
}

#[test]
fn syntax_errors_are_reported_as_such() {
    match parse_spec("b.spec", "contract Foo {}") {
        Err(CompileError::Syntax(d)) => {
            assert!(d.message.starts_with("syntax error"));
            assert_eq!(d.source, "b.spec");
        }
        other => panic!("unexpected result {other:?}"),
    }
}

#[test]
fn semantic_errors_are_collected() {
    let doc = parse_spec("m.spec", "contract for Missing { ensure out == 0; }").unwrap();
    match check_document("m.spec", &doc, "v.llzk", &circuit()) {
        Err(e @ CompileError::Diagnostics(_)) => {
            assert_eq!(e.diagnostics().len(), 2);
            assert_eq!(
                e.display(),
                "m.spec:1:14: unknown contract target `Missing`\nm.spec:1:31: unknown identifier `out`"
            );
        }
        other => panic!("unexpected result {other:?}"),
    }
}

#[test]
fn ir_errors_come_first() {
    let mut ops = circuit();
    ops.push(IrOp::Op {
        name: "scf.while".to_string(),
        operand_count: 0,
        loop_label: Some("loop0".to_string()),
        parents: vec![ParentOp::FuncDef { fqn: "g".to_string() }, ParentOp::StructDef { path: vec![], name: "Foo".to_string() }],
    });
    let doc = parse_spec("v.spec", "contract for Foo { }").unwrap();
    match check_document("v.spec", &doc, "v.llzk", &ops) {
        Err(CompileError::Ir(m)) => assert_eq!(m, "v.llzk: duplicate loop name `loop0`"),
        other => panic!("unexpected result {other:?}"),
    }
}
