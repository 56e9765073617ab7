use llzk_spec::ast::{BinaryOp, Expression, Item, QuantifierDomain, Scope, Statement, UnaryOp};
use llzk_spec::parser::parse_document;

fn contract_statements(source: &str) -> Vec<Statement<()>> {
    let document = parse_document("s.spec", source).expect("parse success");
    match document.items.into_iter().next() {
        Some(Item::Contract(c)) => c.body.statements,
        other => panic!("expected a contract, got {other:?}"),
    }
}

fn ensured(source: &str) -> Expression<()> {
    match contract_statements(source).into_iter().next() {
        Some(Statement::Ensure { expression, .. }) => expression,
        other => panic!("expected an ensure, got {other:?}"),
    }
}

#[test]
fn identifier_spans_cover_their_text() {
    let source = "contract for Foo {\n  ensure out == 1;\n}";
    let document = parse_document("s.spec", source).unwrap();
    let Item::Contract(c) = &document.items[0] else { panic!() };
    assert_eq!(c.target.span.start, 13);
    assert_eq!(c.target.span.end, 16);
    assert_eq!((c.target.span.line, c.target.span.column), (1, 14));
    let Statement::Ensure { expression, span } = &c.body.statements[0] else { panic!() };
    assert_eq!((span.line, span.column), (2, 3));
    assert_eq!(&source[span.start..span.end], "ensure out == 1;");
    let Expression::Binary { left, .. } = expression else { panic!() };
    let Expression::Symbol(id) = left.as_ref() else { panic!() };
    assert_eq!(&source[id.span.start..id.span.end], "out");
    assert_eq!(document.span.end, source.len());
}

#[test]
fn witness_is_compute() {
    let ss = contract_statements("contract for Foo { witness ensure out == out; compute ensure out == out; constrain { require out == out; } }");
    assert!(matches!(ss[0], Statement::Scoped { scope: Scope::Compute, .. }));
    assert!(matches!(ss[1], Statement::Scoped { scope: Scope::Compute, .. }));
    let Statement::Scoped { scope: Scope::Constrain, statement, .. } = &ss[2] else { panic!() };
    assert!(matches!(statement.as_ref(), Statement::Block(_)));
}

#[test]
fn escaped_names_drop_their_backquotes() {
    let e = ensured("contract for ReservedNames { ensure `return` == `return`; }");
    let Expression::Binary { left, .. } = e else { panic!() };
    let Expression::Symbol(id) = *left else { panic!() };
    assert_eq!(id.name.name, "return");
    assert_eq!(id.span.end - id.span.start, 8);
}

#[test]
fn positional_arguments_and_results() {
    let e = ensured("contract for foo { ensure $arg[12] == $res[0]; }");
    let Expression::Binary { op: BinaryOp::Eq, left, right, .. } = e else { panic!() };
    assert!(matches!(*left, Expression::Arg { index: 12, .. }));
    let Expression::Symbol(id) = *right else { panic!() };
    assert_eq!(id.name.name, "$res[0]");
}

#[test]
fn conditional_binds_loosest() {
    let e = ensured("contract for IsZero { ensure $arg[0] == 0 ? out == 1 : out == 0; }");
    let Expression::Conditional { condition, then_branch, else_branch, .. } = e else { panic!() };
    assert!(matches!(*condition, Expression::Binary { op: BinaryOp::Eq, .. }));
    assert!(matches!(*then_branch, Expression::Binary { op: BinaryOp::Eq, .. }));
    assert!(matches!(*else_branch, Expression::Binary { op: BinaryOp::Eq, .. }));
}

#[test]
fn logical_operators_group_left_and_and_binds_tighter() {
    let e = ensured("contract for Foo { ensure a || b && c || d; }");
    let Expression::Binary { op: BinaryOp::Or, left, right, .. } = e else { panic!() };
    assert!(matches!(*right, Expression::Symbol(_)));
    let Expression::Binary { op: BinaryOp::Or, right: inner, .. } = *left else { panic!() };
    assert!(matches!(*inner, Expression::Binary { op: BinaryOp::And, .. }));
}

#[test]
fn unary_and_bitand_and_parentheses() {
    let e = ensured("contract for Foo { ensure -(a & 2) != !b; }");
    let Expression::Binary { op: BinaryOp::Ne, left, right, .. } = e else { panic!() };
    let Expression::Unary { op: UnaryOp::Neg, expr, .. } = *left else { panic!() };
    assert!(matches!(*expr, Expression::Binary { op: BinaryOp::BitAnd, .. }));
    assert!(matches!(*right, Expression::Unary { op: UnaryOp::Not, .. }));
}

#[test]
fn member_index_and_call_suffixes() {
    let e = ensured("contract for Foo { ensure children[0].pub_out == equals(out, len(bits)); }");
    let Expression::Binary { left, right, .. } = e else { panic!() };
    let Expression::Member { target, member, .. } = *left else { panic!() };
    assert_eq!(member.name.name, "pub_out");
    assert!(matches!(*target, Expression::Index { .. }));
    let Expression::Call { callee, args, .. } = *right else { panic!() };
    assert_eq!(callee.name.name, "equals");
    assert_eq!(args.len(), 2);
    assert!(matches!(args[1], Expression::Len { .. }));
}

#[test]
fn quantifier_over_an_expression_domain() {
    let e = ensured("contract for Foo { ensure exists b in bits, b == 1; }");
    let Expression::Quantifier { binding, domain, body, .. } = e else { panic!() };
    assert_eq!(binding.name.name, "b");
    assert!(matches!(domain, QuantifierDomain::Expr(_)));
    assert!(matches!(*body, Expression::Binary { op: BinaryOp::Eq, .. }));
}

#[test]
fn literals_and_nondet() {
    let ss = contract_statements("contract for Foo { let x = nondet; ensure true != false; ensure 252 == 252; }");
    assert!(matches!(&ss[0], Statement::Let { value: Expression::Nondet { .. }, .. }));
    let Statement::Ensure { expression: Expression::Binary { left, right, .. }, .. } = &ss[1] else { panic!() };
    assert!(matches!(left.as_ref(), Expression::Boolean { value: true, .. }));
    assert!(matches!(right.as_ref(), Expression::Boolean { value: false, .. }));
    let Statement::Ensure { expression: Expression::Binary { left, .. }, .. } = &ss[2] else { panic!() };
    let Expression::Number { value, .. } = left.as_ref() else { panic!() };
    assert_eq!(value.digits, "252");
}

#[test]
fn invariants_and_their_statements() {
    let ss = contract_statements(
        "contract for Foo { invariant for loop0(lb, i, ub, stride) { decreases ub - i; step i == old(i) + stride; increases i; ensure i <= ub; } }",
    );
    let Statement::Invariant(inv) = &ss[0] else { panic!() };
    assert_eq!(inv.loop_name.name.name, "loop0");
    let names: Vec<&str> = inv.bindings.iter().map(|b| b.name.name.as_str()).collect();
    assert_eq!(names, vec!["lb", "i", "ub", "stride"]);
    assert!(matches!(inv.body.statements[0], Statement::Decreases { .. }));
    let Statement::Step { expression: Expression::Binary { right, .. }, .. } = &inv.body.statements[1] else { panic!() };
    let Expression::Binary { left, .. } = right.as_ref() else { panic!() };
    assert!(matches!(left.as_ref(), Expression::Old { .. }));
    assert!(matches!(inv.body.statements[2], Statement::Increases { .. }));
}

#[test]
fn step_and_in_remain_names() {
    let ss = contract_statements("contract for Foo { let step = in; unused step; }");
    let Statement::Let { name, value: Expression::Symbol(v), .. } = &ss[0] else { panic!() };
    assert_eq!(name.name.name, "step");
    assert_eq!(v.name.name, "in");
    assert!(matches!(ss[1], Statement::Unused { .. }));
}

#[test]
fn qualified_contract_targets() {
    let document = parse_document("s.spec", "contract for Bar::Foo { ensure out == out; }").unwrap();
    let Item::Contract(c) = &document.items[0] else { panic!() };
    assert_eq!(c.target.name.name, "Bar::Foo");
    assert!(parse_document("s.spec", "contract for Bar :: Foo { }").is_err());
}

#[test]
fn expression_predicates_return_their_expression() {
    let document = parse_document("s.spec", "predicate always() = true").unwrap();
    let Item::Predicate(p) = &document.items[0] else { panic!() };
    assert!(p.params.is_empty());
    assert_eq!(p.body.statements.len(), 1);
    let Statement::Return { expression, span } = &p.body.statements[0] else { panic!() };
    assert_eq!(*span, p.body.span);
    assert!(matches!(expression, Expression::Boolean { value: true, .. }));
}

#[test]
fn comments_and_empty_statements() {
    let source = "// heading\ncontract for Foo { /* none */ ; ensure out == out; // trailing\n}";
    let ss = contract_statements(source);
    assert!(matches!(ss[0], Statement::Empty { .. }));
    assert!(matches!(ss[1], Statement::Ensure { .. }));
}

#[test]
fn syntax_errors_say_where() {
    let err = parse_document("bad.spec", "contract for Foo {\n  ensure out == ;\n}").unwrap_err();
    assert!(err.message.starts_with("syntax error: "), "{}", err.message);
    assert_eq!(err.source, "bad.spec");
    let span = err.span.unwrap();
    assert_eq!((span.start, span.end, span.line, span.column), (0, 0, 2, 17));
    assert_eq!(err.display(), format!("bad.spec:2:17: {}", err.message));
}

#[test]
fn lexing_errors_are_syntax_errors() {
    let err = parse_document("bad.spec", "contract for Foo { ensure a | b; }").unwrap_err();
    assert_eq!(err.message, "syntax error: unexpected character `|`");
    let err = parse_document("bad.spec", "/* open").unwrap_err();
    assert_eq!(err.message, "syntax error: unterminated block comment");
    let span = err.span.unwrap();
    assert_eq!((span.start, span.line, span.column), (0, 1, 1));
    let err = parse_document("bad.spec", "contract for Foo { ensure $ar[0] == 0; }").unwrap_err();
    assert!(err.message.starts_with("syntax error: "));
}

#[test]
fn keywords_need_backquotes() {
    let err = parse_document("bad.spec", "contract for Foo { let return = 1; }").unwrap_err();
    assert!(err.message.starts_with("syntax error: expected a name"), "{}", err.message);
}

#[test]
fn power_does_not_chain() {
    assert!(parse_document("s.spec", "predicate p(x) = 2 ** 3 ** 4").is_err());
}

#[test]
fn only_named_predicates_can_be_called() {
    let err = parse_document("s.spec", "contract for Foo { ensure a.b(1); }").unwrap_err();
    assert_eq!(err.message, "only named predicate calls are supported in phase 1");
    let span = err.span.unwrap();
    assert_eq!((span.start, span.end), (26, 29));
}

#[test]
fn argument_index_must_fit() {
    let err = parse_document("s.spec", "contract for Foo { ensure $arg[99999999999999999999999] == 0; }").unwrap_err();
    assert_eq!(err.message, "syntax error: argument index is too large");
}

#[test]
fn scope_words_remain_names() {
    let ss = contract_statements("contract for Foo { let witness = nondet; ensure witness * witness == out; }");
    let Statement::Let { name, .. } = &ss[0] else { panic!() };
    assert_eq!(name.name.name, "witness");
    let Statement::Ensure { expression, .. } = &ss[1] else { panic!() };
    let Expression::Binary { op: BinaryOp::Eq, left, .. } = expression else { panic!() };
    assert!(matches!(left.as_ref(), Expression::Binary { op: BinaryOp::Mul, .. }));
    let document = parse_document("s.spec", "contract for S::compute { }").unwrap();
    let Item::Contract(c) = &document.items[0] else { panic!() };
    assert_eq!(c.target.name.name, "S::compute");
}

#[test]
fn chained_power_is_reported_where_it_goes_on() {
    let err = parse_document("s.spec", "predicate p(x) = 2 ** 3 ** 4").unwrap_err();
    assert_eq!(err.message, "syntax error: `**` does not chain; use parentheses, found `**`");
    let span = err.span.unwrap();
    assert_eq!((span.start, span.end, span.line, span.column), (0, 0, 1, 25));
    assert!(parse_document("s.spec", "predicate p(x) = 2 ** (3 ** 4)").is_ok());
}

#[test]
fn quantifier_bodies_reach_as_far_as_they_can() {
    let e = ensured("contract for Foo { ensure forall i in 0..n, a + b == c; }");
    let Expression::Quantifier { body, .. } = e else { panic!() };
    assert!(matches!(*body, Expression::Binary { op: BinaryOp::Eq, .. }));
}

#[test]
fn a_slash_never_opens_a_comment_inside_a_token() {
    let e = ensured("contract for Foo { ensure a / b == c; }");
    let Expression::Binary { left, .. } = e else { panic!() };
    assert!(matches!(*left, Expression::Binary { op: BinaryOp::Div, .. }));
    let e = ensured("contract for Foo { ensure a /* note */ == b // rest\n; }");
    assert!(matches!(e, Expression::Binary { op: BinaryOp::Eq, .. }));
}

#[test]
fn escaped_names_end_at_the_next_backquote() {
    let err = parse_document("s.spec", "contract for Foo { ensure `a`b` == 1; }").unwrap_err();
    assert_eq!(err.message, "syntax error: unterminated escaped name");
}
