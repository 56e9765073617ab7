use llzk_spec::ir::llzk::{IrMetadata, LoopKind, LoopMetadata, LoopScope};
use llzk_spec::parser::parse_document;
use llzk_spec::verify::verify_document;

fn ir() -> IrMetadata {
    let names = ["out", "in", "helper", "child", "pod"]
        .into_iter()
        .map(str::to_string)
        .collect();
    let paths = [
        ("child.pub_out", true),
        ("child.secret", false),
        ("pod.count", true),
        ("pod.flag", true),
    ]
    .into_iter()
    .map(|(p, a)| (p.to_string(), a))
    .collect();
    IrMetadata {
        global_symbols: vec!["Foo".to_string()],
        visible_symbols: vec![("Foo".to_string(), names)],
        member_paths: vec![("Foo".to_string(), paths)],
        labeled_loops: vec![(
            LoopScope::Struct("Foo".to_string()),
            "loop0".to_string(),
            LoopMetadata {
                kind: LoopKind::For,
                binding_count: 4,
                scope: LoopScope::Struct("Foo".to_string()),
                explicit_label: false,
            },
        )],
    }
}

#[test]
fn rejects_missing_contract_target() {
    let document = parse_document("test.spec", "contract for Missing { ensure out == 0; }")
        .expect("parse success");
    let diagnostics = verify_document(&document, &ir(), "test.spec").expect_err("verify failure");
    assert!(
        diagnostics
            .iter()
            .any(|diag| diag.message.contains("unknown contract target"))
    );
}

#[test]
fn rejects_return_outside_predicate() {
    let document =
        parse_document("test.spec", "contract for Foo { return out; }").expect("parse success");
    let diagnostics = verify_document(&document, &ir(), "test.spec").expect_err("verify failure");
    assert!(
        diagnostics
            .iter()
            .any(|diag| diag.message.contains("return is only valid"))
    );
}

#[test]
fn allows_nested_shadowing_but_rejects_same_scope_duplicates() {
    let source = r#"
contract for Foo {
  let x = out;
  compute { let x = in; }
  let x = helper;
}
"#;
    let document = parse_document("test.spec", source).expect("parse success");
    let diagnostics = verify_document(&document, &ir(), "test.spec").expect_err("verify failure");
    assert_eq!(diagnostics.len(), 1);
    assert!(diagnostics[0].message.contains("duplicate local binding"));
}

#[test]
fn verifies_loop_binding_count() {
    let source = "contract for Foo { invariant for loop0(lb, i, ub, step) { ensure i >= lb; } }";
    let document = parse_document("test.spec", source).expect("parse success");
    verify_document(&document, &ir(), "test.spec").expect("verify success");

    let source = "contract for Foo { invariant for loop0(i) { ensure i >= 0; } }";
    let document = parse_document("test.spec", source).expect("parse success");
    let diagnostics = verify_document(&document, &ir(), "test.spec").expect_err("verify failure");
    assert!(
        diagnostics
            .iter()
            .any(|diag| diag.message.contains("expects 4 invariant bindings"))
    );
}

#[test]
fn restricts_step_and_old_to_invariant_steps() {
    let source = r#"
contract for Foo {
  invariant for loop0(lb, i, ub, step) {
    step i == old(i) + step;
  }
}
"#;
    let document = parse_document("test.spec", source).expect("parse success");
    verify_document(&document, &ir(), "test.spec").expect("verify success");

    let source = "contract for Foo { ensure old(out) == out; step out == out; }";
    let document = parse_document("test.spec", source).expect("parse success");
    let diagnostics = verify_document(&document, &ir(), "test.spec").expect_err("verify failure");
    assert!(
        diagnostics
            .iter()
            .any(|diag| diag.message.contains("old is only valid inside step"))
    );
    assert!(diagnostics.iter().any(|diag| {
        diag.message
            .contains("step is only valid inside invariants")
    }));
}

#[test]
fn validates_nested_member_access() {
    let source = "contract for Foo { ensure child.pub_out == pod.count; }";
    let document = parse_document("test.spec", source).expect("parse success");
    verify_document(&document, &ir(), "test.spec").expect("verify success");

    let source = "contract for Foo { ensure child.secret == 0; }";
    let document = parse_document("test.spec", source).expect("parse success");
    let diagnostics = verify_document(&document, &ir(), "test.spec").expect_err("verify failure");
    assert!(
        diagnostics
            .iter()
            .any(|diag| { diag.message.contains("member `child.secret` is not public") })
    );
}
