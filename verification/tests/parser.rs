use llzk_spec::ast::{BinaryOp, Expression, Item, QuantifierDomain, Statement};
use llzk_spec::parser::parse_document;

/// The expression an expression-bodied predicate returns.
fn returned(item: &Item<()>) -> &Expression<()> {
    let Item::Predicate(predicate) = item else {
        panic!("expected predicate");
    };
    let Statement::Return { expression, .. } = &predicate.body.statements[0] else {
        panic!("expected a returned expression");
    };
    expression
}

#[test]
fn parses_contract_and_predicate_forms() {
    let source = r#"
contract for Foo {
  ensure out == 1;
  predicate local(x) = x + 1
}
predicate ok(x) { return x == 0; }
"#;
    let document = parse_document("test.spec", source).expect("parse success");
    assert_eq!(document.items.len(), 2);
    match &document.items[0] {
        Item::Contract(contract) => {
            assert_eq!(contract.target.name.name, "Foo");
            assert!(matches!(
                contract.body.statements[1],
                Statement::Predicate(_)
            ));
        }
        other => panic!("unexpected item: {other:?}"),
    }
}

#[test]
fn preserves_expression_precedence() {
    let source = "predicate p(x) = x + 2 * 3 ** 4";
    let document = parse_document("test.spec", source).expect("parse success");
    let Expression::Binary { op, right, .. } = returned(&document.items[0]) else {
        panic!("expected additive expression");
    };
    assert_eq!(*op, BinaryOp::Add);
    let Expression::Binary { op, .. } = right.as_ref() else {
        panic!("expected multiplicative expression");
    };
    assert_eq!(*op, BinaryOp::Mul);
}

#[test]
fn parses_quantifier_domain_range() {
    let source = "predicate p(xs) = forall i in 0..len(xs), xs[i] == 0";
    let document = parse_document("test.spec", source).expect("parse success");
    let Expression::Quantifier { domain, .. } = returned(&document.items[0]) else {
        panic!("expected quantifier");
    };
    assert!(matches!(domain, QuantifierDomain::Range { .. }));
}
