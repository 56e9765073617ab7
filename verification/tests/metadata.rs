use llzk_spec::diagnostic::CompileError;
use llzk_spec::ir::llzk::{
    extract_metadata, IrMetadata, IrOp, LoopKind, LoopScope, MemberDef, MemberType, ParentOp,
};

fn struct_def(path: &[&str], name: &str, members: Vec<MemberDef>, templates: &[&str]) -> IrOp {
    IrOp::StructDef {
        path: path.iter().map(|s| s.to_string()).collect(),
        name: name.to_string(),
        members,
        template_names: templates.iter().map(|s| s.to_string()).collect(),
    }
}

fn member(name: &str, public: bool, ty: MemberType) -> MemberDef {
    MemberDef { name: name.to_string(), public, ty }
}

fn loop_op(name: &str, operands: usize, label: Option<&str>, parents: Vec<ParentOp>) -> IrOp {
    IrOp::Op {
        name: name.to_string(),
        operand_count: operands,
        loop_label: label.map(str::to_string),
        parents,
    }
}

fn in_struct(path: &[&str], name: &str) -> ParentOp {
    ParentOp::StructDef { path: path.iter().map(|s| s.to_string()).collect(), name: name.to_string() }
}

fn in_func(fqn: &str) -> ParentOp {
    ParentOp::FuncDef { fqn: fqn.to_string() }
}

fn extract(ops: &Vec<IrOp>) -> IrMetadata {
    extract_metadata("m.llzk", ops).unwrap_or_else(|e| panic!("{}", e.display()))
}

#[test]
fn structs_are_targets_under_their_qualified_names() {
    let child = member("child", true, MemberType::Struct(Some(vec![
        member("pub_out", true, MemberType::Other),
        member("secret", false, MemberType::Other),
    ])));
    let pod = member("pod", false, MemberType::Pod(vec![
        ("count".to_string(), MemberType::Other),
    ]));
    let arr = member("arr", true, MemberType::Array(2, Box::new(MemberType::Pod(vec![
        ("x".to_string(), MemberType::Other),
    ]))));
    let ops = vec![struct_def(&["Outer", "tmpl"], "Foo", vec![child, pod, arr], &["N"])];
    let m = extract(&ops);
    assert!(m.has_global_symbol("Outer::tmpl::Foo"));
    assert!(!m.has_global_symbol("Foo"));
    for name in ["child", "pod", "arr", "N"] {
        assert!(m.symbol_visible_in_contract("Outer::tmpl::Foo", name), "{name}");
    }
    assert!(!m.symbol_visible_in_contract("Outer::tmpl::Foo", "x"));
    assert_eq!(m.member_visibility("Outer::tmpl::Foo", "child.pub_out"), Some(true));
    assert_eq!(m.member_visibility("Outer::tmpl::Foo", "child.secret"), Some(false));
    assert_eq!(m.member_visibility("Outer::tmpl::Foo", "pod.count"), Some(true));
    assert_eq!(m.member_visibility("Outer::tmpl::Foo", "arr[][].x"), Some(true));
    assert_eq!(m.member_visibility("Outer::tmpl::Foo", "child"), None);
}

#[test]
fn functions_see_their_struct_or_template() {
    let ops = vec![
        struct_def(&[], "S", vec![member("m", true, MemberType::Other)], &[]),
        IrOp::FuncDef {
            fqn: "S::compute".to_string(),
            containing_struct: Some((vec![], "S".to_string())),
            template_names: vec![],
        },
        IrOp::FuncDef {
            fqn: "t::f".to_string(),
            containing_struct: None,
            template_names: vec!["P".to_string()],
        },
    ];
    let m = extract(&ops);
    assert!(m.has_global_symbol("S::compute"));
    assert!(m.symbol_visible_in_contract("S::compute", "m"));
    assert!(m.symbol_visible_in_contract("t::f", "P"));
    assert!(!m.symbol_visible_in_contract("t::f", "m"));
}

#[test]
fn unlabeled_loops_are_numbered_per_scope() {
    let ops = vec![
        loop_op("scf.for", 3, None, vec![in_func("f")]),
        loop_op("scf.while", 2, None, vec![in_struct(&[], "S")]),
        loop_op("scf.while", 1, None, vec![ParentOp::Other, in_func("f")]),
        loop_op("scf.for", 3, Some("named"), vec![in_func("f")]),
        loop_op("scf.for", 3, None, vec![ParentOp::Expr, in_func("f")]),
        loop_op("arith.addi", 2, None, vec![in_func("f")]),
    ];
    let m = extract(&ops);
    let f = LoopScope::Function("f".to_string());
    let s = LoopScope::Struct("S".to_string());
    let l0 = m.lookup_loop(&f, &"loop0".to_string()).unwrap();
    assert_eq!((l0.kind, l0.binding_count, l0.explicit_label), (LoopKind::For, 4, false));
    let l1 = m.lookup_loop(&f, &"loop1".to_string()).unwrap();
    assert_eq!((l1.kind, l1.binding_count), (LoopKind::While, 1));
    let s0 = m.lookup_loop(&s, &"loop0".to_string()).unwrap();
    assert_eq!(s0.binding_count, 2);
    assert!(m.lookup_loop(&f, &"named".to_string()).unwrap().explicit_label);
    assert!(m.lookup_loop(&f, &"loop2".to_string()).is_none());
    assert_eq!(m.labeled_loops.len(), 4);
    assert!(m.has_loop_scope(&s));
    assert!(!m.has_loop_scope(&LoopScope::Struct("f".to_string())));
}

#[test]
fn duplicate_loop_names_fail() {
    let ops = vec![
        loop_op("scf.for", 3, Some("loop1"), vec![in_func("f")]),
        loop_op("scf.for", 3, None, vec![in_func("f")]),
        loop_op("scf.for", 3, None, vec![in_func("f")]),
    ];
    match extract_metadata("m.llzk", &ops) {
        Err(CompileError::Ir(m)) => assert_eq!(m, "m.llzk: duplicate loop name `loop1`"),
        Err(other) => panic!("unexpected error {other:?}"),
        Ok(_) => panic!("expected a duplicate loop"),
    }
}
