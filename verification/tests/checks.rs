use llzk_spec::ir::llzk::{IrMetadata, LoopKind, LoopMetadata, LoopScope};
use llzk_spec::parser::parse_document;
use llzk_spec::verify::verify_document;

fn loop_meta(scope: LoopScope, binding_count: usize) -> LoopMetadata {
    LoopMetadata { kind: LoopKind::While, binding_count, scope, explicit_label: true }
}

fn metadata() -> IrMetadata {
    IrMetadata {
        global_symbols: vec!["Foo".to_string(), "foo".to_string()],
        visible_symbols: vec![
            ("Foo".to_string(), vec!["out".to_string(), "child".to_string()]),
            ("foo".to_string(), vec!["n".to_string()]),
        ],
        member_paths: vec![("Foo".to_string(), vec![("child.a".to_string(), true)])],
        labeled_loops: vec![(
            LoopScope::Function("foo".to_string()),
            "outer".to_string(),
            loop_meta(LoopScope::Function("foo".to_string()), 2),
        )],
    }
}

fn messages(source: &str) -> Vec<String> {
    let document = parse_document("c.spec", source).expect("parse success");
    match verify_document(&document, &metadata(), "c.spec") {
        Ok(()) => vec![],
        Err(ds) => {
            assert!(ds.iter().all(|d| d.source == "c.spec" && d.span.is_some()));
            ds.into_iter().map(|d| d.message).collect()
        }
    }
}

#[test]
fn valid_document_passes() {
    let source = r#"
predicate is_bool(x) = x == 0 || x == 1
contract for Foo {
  predicate local(x) = x == out
  let y = out;
  ensure local(y) && is_bool(out);
  ensure forall i in 0..len(out), out[i] == child.a;
  unused child;
}
contract for foo {
  invariant for outer(a, b) { ensure a == n; }
}
"#;
    assert_eq!(messages(source), Vec::<String>::new());
}

#[test]
fn unknown_names_are_reported_in_order() {
    let source = "contract for Foo { ensure nope == out; unused gone; ensure f(1); }";
    assert_eq!(
        messages(source),
        vec![
            "unknown identifier `nope`".to_string(),
            "unused references unknown symbol `gone`".to_string(),
            "unknown identifier `f`".to_string(),
        ]
    );
}

#[test]
fn top_level_predicates_do_not_see_circuit_names() {
    assert_eq!(
        messages("predicate p(x) = x == out"),
        vec!["unknown identifier `out`".to_string()]
    );
}

#[test]
fn duplicate_top_level_predicates() {
    assert_eq!(
        messages("predicate p() = true predicate p() = false"),
        vec!["duplicate predicate `p`".to_string()]
    );
}

#[test]
fn duplicate_nested_predicates_and_parameters() {
    assert_eq!(
        messages("contract for Foo { predicate q(a, a) = a predicate q() = true }"),
        vec![
            "duplicate local binding `a`".to_string(),
            "duplicate predicate `q`".to_string(),
        ]
    );
}

#[test]
fn quantifier_bindings_are_scoped_to_their_body() {
    assert_eq!(
        messages("contract for Foo { ensure (forall i in out, i == i) && i == 0; }"),
        vec!["unknown identifier `i`".to_string()]
    );
}

#[test]
fn invariant_statements_outside_invariants() {
    assert_eq!(
        messages("contract for Foo { increases out; decreases out; }"),
        vec![
            "increases is only valid inside invariants".to_string(),
            "decreases is only valid inside invariants".to_string(),
        ]
    );
}

#[test]
fn loops_resolve_in_the_contract_scope() {
    assert_eq!(
        messages("contract for Foo { invariant for outer(a, b) { } }"),
        vec!["unknown loop label `outer`".to_string()]
    );
    assert_eq!(
        messages("contract for foo { invariant for outer(a, b, c) { } }"),
        vec!["loop `outer` expects 2 invariant bindings, found 3".to_string()]
    );
}

#[test]
fn members_must_exist() {
    assert_eq!(
        messages("contract for Foo { ensure child.b == out.x; }"),
        vec![
            "unknown identifier `child.b`".to_string(),
            "unknown identifier `out.x`".to_string(),
        ]
    );
}

#[test]
fn returns_inside_block_predicates_are_fine() {
    assert_eq!(
        messages("contract for Foo { predicate p(x) { let y = x; return y == out; } ensure p(out); }"),
        Vec::<String>::new()
    );
}

#[test]
fn old_inside_a_quantifier_outside_step_is_reported() {
    assert_eq!(
        messages("contract for Foo { ensure forall i in out, old(i) == i; }"),
        vec!["old is only valid inside step expressions".to_string()]
    );
}
