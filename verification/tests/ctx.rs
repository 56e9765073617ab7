use llzk_spec::ast::{AstContext, Identifier, Span};
use llzk_spec::ir::Context;
use llzk_spec::type_analysis::ctx::{Constraint, TypeInferenceCtx};
use llzk_spec::types::{ArrayTy, Dim, Ty};

fn ctx() -> TypeInferenceCtx {
    TypeInferenceCtx::new(Context::new())
}

fn array_of(elem: Ty) -> Ty {
    Ty::Array(ArrayTy { elem: Box::new(elem), dims: vec![Dim::Const(2)] })
}

#[test]
fn add_constraint() {
    let mut ctx = ctx();
    let lhs = ctx.ts().bool_type();
    let rhs = ctx.ts().fresh_var();
    ctx.add_constraint(lhs.copy(), rhs.copy());
    assert_eq!(ctx.constraints, vec![Constraint::new(lhs, rhs)]);
}

#[test]
fn unify_1() {
    let mut ctx = ctx();
    let lhs = ctx.ts().bool_type();
    let rhs = ctx.ts().bool_type();
    ctx.add_constraint(lhs, rhs);
    ctx.unify().unwrap();
}

#[test]
fn unify_2() {
    let mut ctx = ctx();
    let lhs = ctx.ts().felt_type();
    let rhs = ctx.ts().felt_type();
    ctx.add_constraint(lhs, rhs);
    ctx.unify().unwrap();
}

#[test]
fn unify_3() {
    let mut ctx = ctx();
    let lhs = ctx.ts().fresh_var();
    let rhs = ctx.ts().bool_type();
    ctx.add_constraint(lhs, rhs);
    ctx.unify().unwrap();
}

#[test]
fn unify_4() {
    let mut ctx = ctx();
    let var = ctx.ts().fresh_var();
    let b = ctx.ts().bool_type();
    let lhs = ctx.ts().func_type(&vec![var], &vec![b.copy()]);
    let rhs = ctx.ts().func_type(&vec![b.copy()], &vec![b]);
    ctx.add_constraint(Ty::Func(lhs), Ty::Func(rhs));
    ctx.unify().unwrap();
}

#[test]
fn unify_5() {
    let mut ctx = ctx();
    let lhs = ctx.ts().fresh_var();
    let rhs = array_of(ctx.ts().bool_type());
    ctx.add_array_constraint(rhs, lhs);
    ctx.unify().unwrap();
}

#[test]
fn unify_6() {
    let mut ctx = ctx();
    let lhs = ctx.ts().fresh_var();
    let xxx = ctx.ts().fresh_var();
    let rhs = array_of(ctx.ts().bool_type());
    // Transitive constraint that lhs is the array element of rhs.
    //   xxx ~~ rhs
    //   xxx ~array of~ lhs
    ctx.add_constraint(xxx.copy(), rhs);
    ctx.add_array_constraint(xxx, lhs);
    ctx.unify().unwrap();
}

#[test]
fn resolve_1() {
    let mut ctx = ctx();
    let lhs = ctx.ts().fresh_var();
    let rhs = ctx.ts().bool_type();
    ctx.add_constraint(lhs.copy(), rhs.copy());
    ctx.unify().unwrap();
    assert_eq!(ctx.resolve(&lhs), rhs);
}

#[test]
fn resolve_2() {
    let mut ctx = ctx();
    let lhs = ctx.ts().fresh_var();
    let xxx = ctx.ts().fresh_var();
    let rhs = ctx.ts().bool_type();
    ctx.add_constraint(lhs.copy(), xxx.copy());
    ctx.add_constraint(xxx, rhs.copy());
    ctx.unify().unwrap();
    assert_eq!(ctx.resolve(&lhs), rhs);
}

#[test]
fn propagate_1() {
    let ast_ctx = AstContext::new();
    let name = Identifier::new(ast_ctx.symbol("x"), Span::default());
    let mut ctx = ctx();

    let lhs = ctx.ts().fresh_var();
    let rhs = ctx.ts().bool_type();

    ctx.scope().push(()); // Push because the root scope does not allow locals.
    ctx.scope().top().bind_local(&name, lhs.copy()).unwrap();
    // Before unification the local binds to the var type.
    assert_eq!(*ctx.scope().find_local(&name).unwrap(), lhs);

    ctx.add_constraint(lhs.copy(), rhs.copy());
    ctx.unify().unwrap();

    // After unification we should have propagated the substitution to the binding.
    assert_eq!(*ctx.scope().find_local(&name).unwrap(), rhs);
    assert_eq!(ctx.resolve(&lhs), rhs);
}

#[test]
fn propagate_2() {
    let ast_ctx = AstContext::new();
    let name = Identifier::new(ast_ctx.symbol("x"), Span::default());
    let mut ctx = ctx();

    let lhs = ctx.ts().fresh_var();
    let other = ctx.ts().fresh_var();
    let rhs = ctx.ts().bool_type();

    ctx.scope().push(()); // Push because the root scope does not allow locals.
    ctx.scope().top().bind_local(&name, other.copy()).unwrap();
    // Before unification the local binds to the var type.
    assert_eq!(*ctx.scope().find_local(&name).unwrap(), other);

    ctx.add_constraint(lhs.copy(), rhs.copy());
    ctx.unify().unwrap();

    // After unification, we haven't seen the other var yet so we don't replace it.
    assert_eq!(*ctx.scope().find_local(&name).unwrap(), other);
    assert_eq!(ctx.resolve(&lhs), rhs);
}

#[test]
fn unify_reports_the_clash_it_meets() {
    let mut ctx = ctx();
    let v0 = ctx.ts().fresh_var();
    let b = ctx.ts().bool_type();
    ctx.add_constraint(v0.copy(), b);
    ctx.unify().unwrap();
    let f = ctx.ts().felt_type();
    ctx.add_constraint(v0, f);
    let errs = ctx.unify().unwrap_err();
    assert_eq!(errs.len(), 1);
    assert_eq!(errs[0].message(), "expected type 'i1' but got '!felt.type'");
}

#[test]
fn unify_reports_an_infinite_type() {
    let mut ctx = ctx();
    let v0 = ctx.ts().fresh_var();
    let b = ctx.ts().bool_type();
    let f = ctx.ts().func_type(&vec![v0.copy()], &vec![b]);
    ctx.add_constraint(v0, Ty::Func(f));
    let errs = ctx.unify().unwrap_err();
    assert!(!errs.is_empty());
    assert!(errs[0].message().ends_with("' is infinite"), "{}", errs[0].message());
}

#[test]
fn unify_leaves_a_solved_queue_as_it_is() {
    let mut ctx = ctx();
    let v0 = ctx.ts().fresh_var();
    let b = ctx.ts().bool_type();
    ctx.add_constraint(v0.copy(), b.copy());
    ctx.unify().unwrap();
    let before = ctx.subst.len();
    ctx.add_constraint(v0.copy(), b.copy());
    ctx.unify().unwrap();
    assert_eq!(ctx.subst.len(), before);
    assert_eq!(ctx.resolve(&v0), b);
}
