//! Typing of whole checked expressions.
//!
//! [`expr_rule`] states the rule of one node in the form the checker establishes it, right after
//! the node's constraints are solved. Here each type is read through the substitution on every
//! side, a form that survives later unification: [`well_typed`] asks it of every node of a tree.
use vstd::prelude::*;
use crate::ast::{Expression, QuantifierDomain};
use crate::type_analysis::ctx::{inner_ty, lemma_member_lookup_subst, member_lookup};
use crate::type_analysis::expression::expr_rule;
use crate::type_analysis::helpers::{
    binary_operand_ty, binary_operands_ok, binary_result_ty, is_equality, unary_ty,
};
use crate::type_analysis::subst::{
    lemma_unifies_refined, lemma_unifies_subst, refines, subst_members, subst_ty, unifies,
};
use crate::types::{Ty, TyV};

verus! {

/// The typing rule of the outermost node of `t`, every type read through `s`.
pub open spec fn node_typed(t: Expression<Ty>, s: Map<u64, TyV>) -> bool {
    match t {
        Expression::Conditional { condition, then_branch, else_branch, meta, .. } => unifies(
            TyV::Bool,
            subst_ty(condition.spec_meta()@, s),
        ) && unifies(subst_ty(then_branch.spec_meta()@, s), subst_ty(else_branch.spec_meta()@, s))
            && subst_ty(meta@, s) == subst_ty(then_branch.spec_meta()@, s),
        Expression::Binary { op, left, right, meta, .. } => meta@ == binary_result_ty(op)
            && binary_operands_ok(op, subst_ty(left.spec_meta()@, s), subst_ty(right.spec_meta()@, s)),
        Expression::Unary { op, expr, meta, .. } => meta@ == unary_ty(op) && unifies(
            unary_ty(op),
            subst_ty(expr.spec_meta()@, s),
        ),
        Expression::Index { target, index, meta, .. } => unifies(
            TyV::Felt,
            subst_ty(index.spec_meta()@, s),
        ) && match subst_ty(target.spec_meta()@, s) {
            TyV::Array(e, d) => unifies(inner_ty(*e, d), subst_ty(meta@, s)),
            _ => false,
        },
        Expression::Member { target, member, meta, .. } => member.meta@ == meta@ && match subst_ty(
            target.spec_meta()@,
            s,
        ) {
            TyV::Record(_, _, ms) => match member_lookup(ms, member.name.name@) {
                Some(mt) => unifies(mt, subst_ty(meta@, s)),
                None => false,
            },
            _ => false,
        },
        Expression::Call { callee, args, meta, .. } => meta@ == TyV::Bool && match callee.meta@ {
            TyV::Func(ins, outs) => ins.len() == args@.len() && outs.len() == 1 && unifies(
                TyV::Bool,
                subst_ty(outs[0], s),
            ) && forall|j: int|
                0 <= j < args@.len() ==> unifies(
                    subst_ty(ins[j], s),
                    subst_ty(#[trigger] args@[j].spec_meta()@, s),
                ),
            _ => false,
        },
        Expression::Quantifier { domain, binding, body, meta, .. } => meta@ == TyV::Bool && unifies(
            TyV::Bool,
            subst_ty(body.spec_meta()@, s),
        ) && match domain {
            QuantifierDomain::Range { start, end, .. } => binding.meta@ == TyV::Felt && unifies(
                TyV::Felt,
                subst_ty(start.spec_meta()@, s),
            ) && unifies(TyV::Felt, subst_ty(end.spec_meta()@, s)),
            QuantifierDomain::Expr(x) => match subst_ty(x.spec_meta()@, s) {
                TyV::Array(e, d) => unifies(inner_ty(*e, d), subst_ty(binding.meta@, s)),
                _ => false,
            },
        },
        Expression::Len { target, meta, .. } => meta@ == TyV::Felt && subst_ty(
            target.spec_meta()@,
            s,
        ) is Array,
        Expression::Old { expression, meta, .. } => meta@ == expression.spec_meta()@,
        Expression::Nondet { meta, .. } => meta@ == TyV::Felt,
        Expression::Boolean { meta, .. } => meta@ == TyV::Bool,
        Expression::Number { meta, .. } => meta@ == TyV::Felt,
        Expression::Arg { .. } => true,
        Expression::Symbol(_) => true,
    }
}

/// Every node of `t` follows its typing rule under `s`.
pub open spec fn well_typed(t: Expression<Ty>, s: Map<u64, TyV>) -> bool
    decreases t,
{
    node_typed(t, s) && match t {
        Expression::Conditional { condition, then_branch, else_branch, .. } => well_typed(
            *condition,
            s,
        ) && well_typed(*then_branch, s) && well_typed(*else_branch, s),
        Expression::Binary { left, right, .. } => well_typed(*left, s) && well_typed(*right, s),
        Expression::Unary { expr, .. } => well_typed(*expr, s),
        Expression::Index { target, index, .. } => well_typed(*target, s) && well_typed(*index, s),
        Expression::Member { target, .. } => well_typed(*target, s),
        Expression::Call { args, .. } => args_typed(args@, s),
        Expression::Quantifier { domain, body, .. } => domain_typed(domain, s) && well_typed(
            *body,
            s,
        ),
        Expression::Len { target, .. } => well_typed(*target, s),
        Expression::Old { expression, .. } => well_typed(*expression, s),
        _ => true,
    }
}

/// [`well_typed`] on each expression of a sequence.
pub open spec fn args_typed(ts: Seq<Expression<Ty>>, s: Map<u64, TyV>) -> bool
    decreases ts,
{
    if ts.len() == 0 {
        true
    } else {
        well_typed(ts[0], s) && args_typed(ts.subrange(1, ts.len() as int), s)
    }
}

/// [`well_typed`] on the expressions of a quantifier domain.
pub open spec fn domain_typed(d: QuantifierDomain<Ty>, s: Map<u64, TyV>) -> bool
    decreases d,
{
    match d {
        QuantifierDomain::Range { start, end, .. } => well_typed(*start, s) && well_typed(*end, s),
        QuantifierDomain::Expr(x) => well_typed(*x, s),
    }
}

/// Substitution commutes with taking the element type of an array.
proof fn lemma_inner_subst(e: TyV, d: Seq<crate::types::DimV>, s: Map<u64, TyV>)
    ensures
        subst_ty(inner_ty(e, d), s) == inner_ty(subst_ty(e, s), d),
{
}

/// The rule as the checker establishes it gives the rule read through `s`, when `s` is
/// idempotent.
pub proof fn lemma_rule_node(t: Expression<Ty>, s: Map<u64, TyV>)
    requires
        expr_rule(t, s),
        refines(s, s),
    ensures
        node_typed(t, s),
{
    match t {
        Expression::Conditional { then_branch, meta, .. } => {
            assert(subst_ty(meta@, s) == subst_ty(subst_ty(then_branch.spec_meta()@, s), s));
        },
        Expression::Index { target, meta, .. } => {
            let a = subst_ty(target.spec_meta()@, s);
            assert(subst_ty(a, s) == a);
            match a {
                TyV::Array(e, d) => {
                    lemma_unifies_subst(inner_ty(*e, d), meta@, s);
                    lemma_inner_subst(*e, d, s);
                },
                _ => {},
            }
        },
        Expression::Member { target, member, meta, .. } => {
            let a = subst_ty(target.spec_meta()@, s);
            assert(subst_ty(a, s) == a);
            match a {
                TyV::Record(k, n, ms) => {
                    assert(subst_members(ms, s) == ms);
                    lemma_member_lookup_subst(ms, member.name.name@, s);
                    match member_lookup(ms, member.name.name@) {
                        Some(mt) => {
                            lemma_unifies_subst(mt, meta@, s);
                        },
                        None => {},
                    }
                },
                _ => {},
            }
        },
        Expression::Call { callee, args, .. } => {
            match callee.meta@ {
                TyV::Func(ins, outs) => {
                    lemma_unifies_subst(TyV::Bool, outs[0], s);
                    assert forall|j: int| 0 <= j < args@.len() implies unifies(
                        subst_ty(ins[j], s),
                        subst_ty(#[trigger] args@[j].spec_meta()@, s),
                    ) by {
                        lemma_unifies_subst(ins[j], subst_ty(args@[j].spec_meta()@, s), s);
                        assert(subst_ty(args@[j].spec_meta()@, s) == subst_ty(
                            subst_ty(args@[j].spec_meta()@, s),
                            s,
                        ));
                    }
                },
                _ => {},
            }
        },
        Expression::Quantifier { domain, binding, .. } => {
            match domain {
                QuantifierDomain::Expr(x) => {
                    let a = subst_ty(x.spec_meta()@, s);
                    assert(subst_ty(a, s) == a);
                    match a {
                        TyV::Array(e, d) => {
                            lemma_unifies_subst(inner_ty(*e, d), binding.meta@, s);
                            lemma_inner_subst(*e, d, s);
                        },
                        _ => {},
                    }
                },
                _ => {},
            }
        },
        _ => {},
    }
}

/// A rule read through `s1` still holds read through any refinement of `s1`.
pub proof fn lemma_node_refined(t: Expression<Ty>, s1: Map<u64, TyV>, s2: Map<u64, TyV>)
    requires
        node_typed(t, s1),
        refines(s2, s1),
    ensures
        node_typed(t, s2),
{
    match t {
        Expression::Conditional { condition, then_branch, else_branch, meta, .. } => {
            lemma_unifies_refined(TyV::Bool, condition.spec_meta()@, s1, s2);
            lemma_unifies_refined(then_branch.spec_meta()@, else_branch.spec_meta()@, s1, s2);
            assert(subst_ty(meta@, s2) == subst_ty(subst_ty(meta@, s1), s2));
            assert(subst_ty(then_branch.spec_meta()@, s2) == subst_ty(
                subst_ty(then_branch.spec_meta()@, s1),
                s2,
            ));
        },
        Expression::Binary { op, left, right, .. } => {
            if is_equality(op) {
                lemma_unifies_refined(left.spec_meta()@, right.spec_meta()@, s1, s2);
                assert(subst_ty(left.spec_meta()@, s2) == subst_ty(subst_ty(left.spec_meta()@, s1), s2));
            } else {
                let o = binary_operand_ty(op);
                assert(subst_ty(o, s1) == o);
                lemma_unifies_refined(o, left.spec_meta()@, s1, s2);
                lemma_unifies_refined(o, right.spec_meta()@, s1, s2);
                assert(subst_ty(o, s2) == o);
            }
        },
        Expression::Unary { op, expr, .. } => {
            let o = unary_ty(op);
            assert(subst_ty(o, s1) == o);
            lemma_unifies_refined(o, expr.spec_meta()@, s1, s2);
            assert(subst_ty(o, s2) == o);
        },
        Expression::Index { target, index, meta, .. } => {
            lemma_unifies_refined(TyV::Felt, index.spec_meta()@, s1, s2);
            let a = subst_ty(target.spec_meta()@, s1);
            assert(subst_ty(target.spec_meta()@, s2) == subst_ty(a, s2));
            assert(subst_ty(meta@, s2) == subst_ty(subst_ty(meta@, s1), s2));
            match a {
                TyV::Array(e, d) => {
                    lemma_unifies_subst(inner_ty(*e, d), subst_ty(meta@, s1), s2);
                    lemma_inner_subst(*e, d, s2);
                },
                _ => {},
            }
        },
        Expression::Member { target, member, meta, .. } => {
            let a = subst_ty(target.spec_meta()@, s1);
            assert(subst_ty(target.spec_meta()@, s2) == subst_ty(a, s2));
            assert(subst_ty(meta@, s2) == subst_ty(subst_ty(meta@, s1), s2));
            match a {
                TyV::Record(k, n, ms) => {
                    lemma_member_lookup_subst(ms, member.name.name@, s2);
                    match member_lookup(ms, member.name.name@) {
                        Some(mt) => {
                            lemma_unifies_subst(mt, subst_ty(meta@, s1), s2);
                        },
                        None => {},
                    }
                },
                _ => {},
            }
        },
        Expression::Call { callee, args, .. } => {
            match callee.meta@ {
                TyV::Func(ins, outs) => {
                    lemma_unifies_refined(TyV::Bool, outs[0], s1, s2);
                    assert forall|j: int| 0 <= j < args@.len() implies unifies(
                        subst_ty(ins[j], s2),
                        subst_ty(#[trigger] args@[j].spec_meta()@, s2),
                    ) by {
                        lemma_unifies_refined(ins[j], args@[j].spec_meta()@, s1, s2);
                    }
                },
                _ => {},
            }
        },
        Expression::Quantifier { domain, binding, body, .. } => {
            lemma_unifies_refined(TyV::Bool, body.spec_meta()@, s1, s2);
            match domain {
                QuantifierDomain::Range { start, end, .. } => {
                    lemma_unifies_refined(TyV::Felt, start.spec_meta()@, s1, s2);
                    lemma_unifies_refined(TyV::Felt, end.spec_meta()@, s1, s2);
                },
                QuantifierDomain::Expr(x) => {
                    let a = subst_ty(x.spec_meta()@, s1);
                    assert(subst_ty(x.spec_meta()@, s2) == subst_ty(a, s2));
                    assert(subst_ty(binding.meta@, s2) == subst_ty(subst_ty(binding.meta@, s1), s2));
                    match a {
                        TyV::Array(e, d) => {
                            lemma_unifies_subst(inner_ty(*e, d), subst_ty(binding.meta@, s1), s2);
                            lemma_inner_subst(*e, d, s2);
                        },
                        _ => {},
                    }
                },
            }
        },
        Expression::Len { target, .. } => {
            let a = subst_ty(target.spec_meta()@, s1);
            assert(subst_ty(target.spec_meta()@, s2) == subst_ty(a, s2));
        },
        _ => {},
    }
}

/// A well-typed expression stays well typed when the substitution is refined.
pub proof fn lemma_well_typed_refined(t: Expression<Ty>, s1: Map<u64, TyV>, s2: Map<u64, TyV>)
    requires
        well_typed(t, s1),
        refines(s2, s1),
    ensures
        well_typed(t, s2),
    decreases t,
{
    lemma_node_refined(t, s1, s2);
    match t {
        Expression::Conditional { condition, then_branch, else_branch, .. } => {
            lemma_well_typed_refined(*condition, s1, s2);
            lemma_well_typed_refined(*then_branch, s1, s2);
            lemma_well_typed_refined(*else_branch, s1, s2);
        },
        Expression::Binary { left, right, .. } => {
            lemma_well_typed_refined(*left, s1, s2);
            lemma_well_typed_refined(*right, s1, s2);
        },
        Expression::Unary { expr, .. } => {
            lemma_well_typed_refined(*expr, s1, s2);
        },
        Expression::Index { target, index, .. } => {
            lemma_well_typed_refined(*target, s1, s2);
            lemma_well_typed_refined(*index, s1, s2);
        },
        Expression::Member { target, .. } => {
            lemma_well_typed_refined(*target, s1, s2);
        },
        Expression::Call { args, .. } => {
            lemma_args_typed_refined(args@, s1, s2);
        },
        Expression::Quantifier { domain, body, .. } => {
            lemma_domain_typed_refined(domain, s1, s2);
            lemma_well_typed_refined(*body, s1, s2);
        },
        Expression::Len { target, .. } => {
            lemma_well_typed_refined(*target, s1, s2);
        },
        Expression::Old { expression, .. } => {
            lemma_well_typed_refined(*expression, s1, s2);
        },
        _ => {},
    }
}

/// [`lemma_well_typed_refined`] on each expression of a sequence.
pub proof fn lemma_args_typed_refined(ts: Seq<Expression<Ty>>, s1: Map<u64, TyV>, s2: Map<u64, TyV>)
    requires
        args_typed(ts, s1),
        refines(s2, s1),
    ensures
        args_typed(ts, s2),
    decreases ts,
{
    if ts.len() > 0 {
        lemma_well_typed_refined(ts[0], s1, s2);
        lemma_args_typed_refined(ts.subrange(1, ts.len() as int), s1, s2);
    }
}

/// [`lemma_well_typed_refined`] on a quantifier domain.
pub proof fn lemma_domain_typed_refined(d: QuantifierDomain<Ty>, s1: Map<u64, TyV>, s2: Map<u64, TyV>)
    requires
        domain_typed(d, s1),
        refines(s2, s1),
    ensures
        domain_typed(d, s2),
    decreases d,
{
    match d {
        QuantifierDomain::Range { start, end, .. } => {
            lemma_well_typed_refined(*start, s1, s2);
            lemma_well_typed_refined(*end, s1, s2);
        },
        QuantifierDomain::Expr(x) => {
            lemma_well_typed_refined(*x, s1, s2);
        },
    }
}

/// [`well_typed`] of each element gives [`args_typed`] of the sequence.
pub proof fn lemma_args_typed(ts: Seq<Expression<Ty>>, s: Map<u64, TyV>)
    requires
        forall|j: int| 0 <= j < ts.len() ==> #[trigger] well_typed(ts[j], s),
    ensures
        args_typed(ts, s),
    decreases ts.len(),
{
    if ts.len() > 0 {
        let rest = ts.subrange(1, ts.len() as int);
        assert forall|j: int| 0 <= j < rest.len() implies #[trigger] well_typed(rest[j], s) by {
            assert(rest[j] == ts[j + 1]);
        }
        lemma_args_typed(rest, s);
        assert(well_typed(ts[0], s));
    }
}

} // verus!
