use llzk_spec::ast::{AstContext, Identifier, Span};
use llzk_spec::type_analysis::error::TypeAnalysisError;
use llzk_spec::type_analysis::scope::ScopeStack;
use llzk_spec::type_analysis::loops::{LoopBinding, LoopInfo, LoopLabel};
use llzk_spec::types::Ty;

type Scopes = ScopeStack<usize, usize, ()>;

fn ident(ctx: &AstContext, symbol: &str) -> Identifier<()> {
    Identifier::new(ctx.symbol(symbol), Span::default())
}

#[test]
fn test_local_limits_1() {
    let ctx = AstContext::new();
    let x = ident(&ctx, "x");
    let y = ident(&ctx, "y");
    let mut stack = Scopes::new(());

    // Test that 'x' can be accessed but 'y' cannot
    // when 'x' is within the limit and 'y' is outside.
    stack.top().bind_local(&y, 1).unwrap();
    stack.push_local_limit(());
    stack.push(());
    stack.top().bind_local(&x, 2).unwrap();

    assert_eq!(stack.find_local(&x), Ok(&2));
    assert_eq!(
        stack.find_local(&y),
        Err(TypeAnalysisError::UnknownLocal("y".to_string()))
    )
}

#[test]
fn test_local_limits_2() {
    let ctx = AstContext::new();
    let x = ident(&ctx, "x");
    let y = ident(&ctx, "y");
    let mut stack = Scopes::new(());

    // Test that 'x' can be accessed but 'y' cannot
    // when 'x' is right at the limit and 'y' is outside.
    stack.top().bind_local(&y, 1).unwrap();
    stack.push_local_limit(());
    stack.top().bind_local(&x, 2).unwrap();

    assert_eq!(stack.find_local(&x), Ok(&2));
    assert_eq!(
        stack.find_local(&y),
        Err(TypeAnalysisError::UnknownLocal("y".to_string()))
    )
}

#[test]
fn test_shadowing() {
    let ctx = AstContext::new();
    let x = ident(&ctx, "x");
    let mut stack = Scopes::new(());

    // Test that when accesing 'x' we get the closest result back.
    stack.top().bind_local(&x, 1).unwrap();
    stack.push(());
    stack.top().bind_local(&x, 2).unwrap();

    assert_eq!(stack.find_local(&x), Ok(&2));
}

#[test]
fn for_loops_bind_the_factory_values_in_order_then_the_arguments() {
    let calls = std::cell::RefCell::new(Vec::new());
    let info = LoopInfo::new_for_loop(
        LoopLabel::named("l"),
        |b: LoopBinding| {
            calls.borrow_mut().push(b);
            if b == LoopBinding::Iv { Ty::Index } else { Ty::Felt }
        },
        vec![Ty::Bool],
    );
    assert_eq!(*calls.borrow(), vec![LoopBinding::Lb, LoopBinding::Iv, LoopBinding::Ub, LoopBinding::Step]);
    assert_eq!(
        info.bindings,
        vec![
            (LoopBinding::Lb, Ty::Felt),
            (LoopBinding::Iv, Ty::Index),
            (LoopBinding::Ub, Ty::Felt),
            (LoopBinding::Step, Ty::Felt),
            (LoopBinding::Arg(0), Ty::Bool),
        ]
    );
}
