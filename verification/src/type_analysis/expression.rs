//! Type checking of expressions.
//!
//! Each expression is checked bottom-up: its operands first, then the constraints that its
//! typing rule puts on them, solved on the spot. A checked expression carries its type as
//! metadata.
use vstd::prelude::*;
use crate::ast::{BinaryOp, Expression, Identifier, QuantifierDomain, QuantifierKind, Span};
use crate::diagnostic::Diagnostic;
use crate::text::{concat2, concat3, push_decimal};
use crate::type_analysis::error::error_text;
use crate::type_analysis::ctx::{
    Constraint, TypeInferenceCtx, inner_ty, member_lookup, queue_ok, satisfied, smap,
};
use crate::type_analysis::helpers::{
    Diagnostics, TypingResult, binary_operand_ty, binary_operands_ok, binary_result_ty, is_diag,
    is_equality, unary_ty,
};
use crate::type_analysis::subst::{lemma_unifies_refined, refines, subst_ty, subst_tys, unifies};
use crate::type_analysis::typed::{
    args_typed, domain_typed, lemma_args_typed, lemma_rule_node, lemma_well_typed_refined,
    node_typed, well_typed,
};
use crate::types::{FnTy, Ty, TyV, lemma_tys_view, tys_view};

verus! {

/// What an expression may contain in the context it is checked in.
#[derive(Clone, Copy)]
pub struct ExpressionTypeCheckerCfg {
    /// Whether `old(..)` is allowed.
    pub allows_old: bool,
    /// Whether `$arg[N]` is allowed.
    pub allows_arg: bool,
}

impl ExpressionTypeCheckerCfg {
    /// Neither `old(..)` nor `$arg[N]`.
    pub fn new() -> (r: ExpressionTypeCheckerCfg)
        ensures
            !r.allows_old,
            !r.allows_arg,
    {
        ExpressionTypeCheckerCfg { allows_old: false, allows_arg: false }
    }

    /// The given permissions.
    pub fn new_with_cfg(allows_old: bool, allows_arg: bool) -> (r: ExpressionTypeCheckerCfg)
        ensures
            r.allows_old == allows_old,
            r.allows_arg == allows_arg,
    {
        ExpressionTypeCheckerCfg { allows_old, allows_arg }
    }
}

/// `t` carries the name and span of `i`.
pub open spec fn ident_shape<M, N>(t: Identifier<M>, i: Identifier<N>) -> bool {
    t.name.name@ == i.name.name@ && t.span == i.span
}

/// `t` is `e` with metadata attached: the same kinds of nodes, operators, names, values and
/// spans, all the way down.
pub open spec fn expr_shape(t: Expression<Ty>, e: Expression<()>) -> bool
    decreases e,
{
    match (t, e) {
        (
            Expression::Conditional { condition: c1, then_branch: t1, else_branch: e1, span: s1, .. },
            Expression::Conditional { condition: c2, then_branch: t2, else_branch: e2, span: s2, .. },
        ) => s1 == s2 && expr_shape(*c1, *c2) && expr_shape(*t1, *t2) && expr_shape(*e1, *e2),
        (
            Expression::Binary { op: o1, left: l1, right: r1, span: s1, .. },
            Expression::Binary { op: o2, left: l2, right: r2, span: s2, .. },
        ) => o1 == o2 && s1 == s2 && expr_shape(*l1, *l2) && expr_shape(*r1, *r2),
        (
            Expression::Unary { op: o1, expr: x1, span: s1, .. },
            Expression::Unary { op: o2, expr: x2, span: s2, .. },
        ) => o1 == o2 && s1 == s2 && expr_shape(*x1, *x2),
        (
            Expression::Index { target: t1, index: i1, span: s1, .. },
            Expression::Index { target: t2, index: i2, span: s2, .. },
        ) => s1 == s2 && expr_shape(*t1, *t2) && expr_shape(*i1, *i2),
        (
            Expression::Member { target: t1, member: m1, span: s1, .. },
            Expression::Member { target: t2, member: m2, span: s2, .. },
        ) => s1 == s2 && ident_shape(m1, m2) && expr_shape(*t1, *t2),
        (
            Expression::Call { callee: c1, args: a1, span: s1, .. },
            Expression::Call { callee: c2, args: a2, span: s2, .. },
        ) => s1 == s2 && ident_shape(c1, c2) && args_shape(a1@, a2@),
        (
            Expression::Quantifier {
                quantifier_kind: k1,
                binding: b1,
                domain: d1,
                body: y1,
                span: s1,
                ..
            },
            Expression::Quantifier {
                quantifier_kind: k2,
                binding: b2,
                domain: d2,
                body: y2,
                span: s2,
                ..
            },
        ) => k1 == k2 && s1 == s2 && ident_shape(b1, b2) && domain_shape(d1, d2) && expr_shape(
            *y1,
            *y2,
        ),
        (
            Expression::Len { target: t1, span: s1, .. },
            Expression::Len { target: t2, span: s2, .. },
        ) => s1 == s2 && expr_shape(*t1, *t2),
        (
            Expression::Old { expression: x1, span: s1, .. },
            Expression::Old { expression: x2, span: s2, .. },
        ) => s1 == s2 && expr_shape(*x1, *x2),
        (Expression::Arg { index: i1, span: s1, .. }, Expression::Arg { index: i2, span: s2, .. }) =>
            i1 == i2 && s1 == s2,
        (Expression::Nondet { span: s1, .. }, Expression::Nondet { span: s2, .. }) => s1 == s2,
        (
            Expression::Boolean { value: v1, span: s1, .. },
            Expression::Boolean { value: v2, span: s2, .. },
        ) => v1 == v2 && s1 == s2,
        (
            Expression::Number { value: v1, span: s1, .. },
            Expression::Number { value: v2, span: s2, .. },
        ) => v1.digits@ == v2.digits@ && s1 == s2,
        (Expression::Symbol(i1), Expression::Symbol(i2)) => ident_shape(i1, i2),
        _ => false,
    }
}

/// [`expr_shape`] pairwise on two sequences of expressions.
pub open spec fn args_shape(ts: Seq<Expression<Ty>>, es: Seq<Expression<()>>) -> bool
    decreases es,
{
    if ts.len() != es.len() {
        false
    } else if es.len() == 0 {
        true
    } else {
        expr_shape(ts[0], es[0]) && args_shape(
            ts.subrange(1, ts.len() as int),
            es.subrange(1, es.len() as int),
        )
    }
}

/// [`expr_shape`] on quantifier domains.
pub open spec fn domain_shape(t: QuantifierDomain<Ty>, d: QuantifierDomain<()>) -> bool
    decreases d,
{
    match (t, d) {
        (
            QuantifierDomain::Range { start: a1, end: b1, span: s1 },
            QuantifierDomain::Range { start: a2, end: b2, span: s2 },
        ) => s1 == s2 && expr_shape(*a1, *a2) && expr_shape(*b1, *b2),
        (QuantifierDomain::Expr(x1), QuantifierDomain::Expr(x2)) => expr_shape(*x1, *x2),
        _ => false,
    }
}

/// The typing rule of the outermost node of a checked expression holds under the substitution
/// `s`: its operands have the types the rule asks for, and its own type is the one the rule
/// gives.
pub open spec fn expr_rule(t: Expression<Ty>, s: Map<u64, TyV>) -> bool {
    match t {
        Expression::Conditional { condition, then_branch, else_branch, meta, .. } => unifies(
            TyV::Bool,
            subst_ty(condition.spec_meta()@, s),
        ) && unifies(subst_ty(then_branch.spec_meta()@, s), subst_ty(else_branch.spec_meta()@, s))
            && meta@ == subst_ty(then_branch.spec_meta()@, s),
        Expression::Binary { op, left, right, meta, .. } => meta@ == binary_result_ty(op)
            && binary_operands_ok(op, subst_ty(left.spec_meta()@, s), subst_ty(right.spec_meta()@, s)),
        Expression::Unary { op, expr, meta, .. } => meta@ == unary_ty(op) && unifies(
            unary_ty(op),
            subst_ty(expr.spec_meta()@, s),
        ),
        Expression::Index { target, index, meta, .. } => unifies(
            TyV::Felt,
            subst_ty(index.spec_meta()@, s),
        ) && match subst_ty(target.spec_meta()@, s) {
            TyV::Array(e, d) => unifies(inner_ty(*e, d), meta@),
            _ => false,
        },
        Expression::Member { target, member, meta, .. } => member.meta@ == meta@ && match subst_ty(
            target.spec_meta()@,
            s,
        ) {
            TyV::Record(_, _, ms) => match member_lookup(ms, member.name.name@) {
                Some(mt) => unifies(mt, meta@),
                None => false,
            },
            _ => false,
        },
        Expression::Call { callee, args, meta, .. } => meta@ == TyV::Bool && match callee.meta@ {
            TyV::Func(ins, outs) => ins.len() == args@.len() && outs.len() == 1 && unifies(
                TyV::Bool,
                outs[0],
            ) && forall|j: int|
                0 <= j < args@.len() ==> unifies(ins[j], subst_ty(#[trigger] args@[j].spec_meta()@, s)),
            _ => false,
        },
        Expression::Quantifier { domain, binding, body, meta, .. } => meta@ == TyV::Bool && unifies(
            TyV::Bool,
            subst_ty(body.spec_meta()@, s),
        ) && match domain {
            QuantifierDomain::Range { start, end, .. } => binding.meta@ == TyV::Felt && unifies(
                TyV::Felt,
                subst_ty(start.spec_meta()@, s),
            ) && unifies(TyV::Felt, subst_ty(end.spec_meta()@, s)),
            QuantifierDomain::Expr(x) => match subst_ty(x.spec_meta()@, s) {
                TyV::Array(e, d) => unifies(inner_ty(*e, d), binding.meta@),
                _ => false,
            },
        },
        Expression::Len { target, meta, .. } => meta@ == TyV::Felt && subst_ty(
            target.spec_meta()@,
            s,
        ) is Array,
        Expression::Old { expression, meta, .. } => meta@ == expression.spec_meta()@,
        Expression::Nondet { meta, .. } => meta@ == TyV::Felt,
        Expression::Boolean { meta, .. } => meta@ == TyV::Bool,
        Expression::Number { meta, .. } => meta@ == TyV::Felt,
        Expression::Arg { .. } => true,
        Expression::Symbol(_) => true,
    }
}

/// What checking leaves of the context: still ready for use, as many scopes as before, the
/// type factory's prime untouched, and every earlier decision of unification kept.
pub open spec fn ctx_kept(o: TypeInferenceCtx, n: TypeInferenceCtx) -> bool {
    &&& n.wf()
    &&& n.scope.scopes@.len() == o.scope.scopes@.len()
    &&& n.ts.prime == o.ts.prime
    &&& refines(smap(n.subst@), smap(o.subst@))
}

/// The constraints that were pending before are either still pending or solved: any
/// substitution that refines the new one and solves what is still pending solves them.
pub open spec fn pending_kept(o: TypeInferenceCtx, n: TypeInferenceCtx) -> bool {
    forall|s: Map<u64, TyV>|
        #[trigger] queue_ok(n.constraints@, s) && refines(s, smap(n.subst@)) ==> queue_ok(
            o.constraints@,
            s,
        )
}

/// [`ctx_kept`] and [`pending_kept`] through two steps.
pub proof fn lemma_step_trans(a: TypeInferenceCtx, b: TypeInferenceCtx, c: TypeInferenceCtx)
    requires
        ctx_kept(a, b),
        ctx_kept(b, c),
        pending_kept(a, b),
        pending_kept(b, c),
    ensures
        ctx_kept(a, c),
        pending_kept(a, c),
{
    crate::type_analysis::subst::lemma_refines_trans(smap(c.subst@), smap(b.subst@), smap(a.subst@));
    assert forall|s: Map<u64, TyV>| #[trigger] queue_ok(c.constraints@, s) && refines(
        s,
        smap(c.subst@),
    ) implies queue_ok(a.constraints@, s) by {
        crate::type_analysis::subst::lemma_refines_trans(s, smap(c.subst@), smap(b.subst@));
        assert(queue_ok(b.constraints@, s));
    }
}

/// [`ctx_kept`] through two steps.
pub proof fn lemma_kept_trans(a: TypeInferenceCtx, b: TypeInferenceCtx, c: TypeInferenceCtx)
    requires
        ctx_kept(a, b),
        ctx_kept(b, c),
    ensures
        ctx_kept(a, c),
{
    crate::type_analysis::subst::lemma_refines_trans(smap(c.subst@), smap(b.subst@), smap(a.subst@));
}

/// Nothing happened to the context.
pub proof fn lemma_step_refl(a: TypeInferenceCtx)
    requires
        a.wf(),
    ensures
        ctx_kept(a, a),
        pending_kept(a, a),
{
    crate::type_analysis::subst::lemma_refines_refl(smap(a.subst@));
}

/// The end of a node that enqueued constraints on top of what its operands left pending and
/// solved them all.
pub proof fn lemma_node_end(ck: TypeInferenceCtx, cu: TypeInferenceCtx, cf: TypeInferenceCtx)
    requires
        ck.wf(),
        cu.subst == ck.subst,
        cu.scope.scopes@.len() == ck.scope.scopes@.len(),
        cu.ts.prime == ck.ts.prime,
        forall|s: Map<u64, TyV>| #[trigger] queue_ok(cu.constraints@, s) ==> queue_ok(ck.constraints@, s),
        ctx_kept(cu, cf),
        cf.constraints@.len() == 0,
        queue_ok(cu.constraints@, smap(cf.subst@)),
    ensures
        ctx_kept(ck, cf),
        pending_kept(ck, cf),
{
    assert forall|s: Map<u64, TyV>| #[trigger] queue_ok(cf.constraints@, s) && refines(
        s,
        smap(cf.subst@),
    ) implies queue_ok(ck.constraints@, s) by {
        crate::type_analysis::ctx::lemma_queue_refined(cu.constraints@, smap(cf.subst@), s);
    }
}

/// Enqueuing constraints changes nothing but the queue, and whatever solves the new queue
/// solves the old one.
pub proof fn lemma_adds_step(x: TypeInferenceCtx, y: TypeInferenceCtx)
    requires
        x.wf(),
        y.subst == x.subst,
        y.scope == x.scope,
        y.ts.prime == x.ts.prime,
        forall|s: Map<u64, TyV>| #[trigger] queue_ok(y.constraints@, s) ==> queue_ok(x.constraints@, s),
    ensures
        ctx_kept(x, y),
        pending_kept(x, y),
{
    crate::type_analysis::subst::lemma_refines_refl(smap(x.subst@));
}

/// A successful unification solves what was pending.
pub proof fn lemma_unify_step(cu: TypeInferenceCtx, cf: TypeInferenceCtx)
    requires
        ctx_kept(cu, cf),
        cf.constraints@.len() == 0,
        queue_ok(cu.constraints@, smap(cf.subst@)),
    ensures
        pending_kept(cu, cf),
{
    assert forall|s: Map<u64, TyV>| #[trigger] queue_ok(cf.constraints@, s) && refines(
        s,
        smap(cf.subst@),
    ) implies queue_ok(cu.constraints@, s) by {
        crate::type_analysis::ctx::lemma_queue_refined(cu.constraints@, smap(cf.subst@), s);
    }
}

/// [`expr_shape`] pairwise gives [`args_shape`].
pub proof fn lemma_args_shape(ts: Seq<Expression<Ty>>, es: Seq<Expression<()>>)
    requires
        ts.len() == es.len(),
        forall|j: int| 0 <= j < es.len() ==> #[trigger] expr_shape(ts[j], es[j]),
    ensures
        args_shape(ts, es),
    decreases es.len(),
{
    if es.len() > 0 {
        let rt = ts.subrange(1, ts.len() as int);
        let re = es.subrange(1, es.len() as int);
        assert forall|j: int| 0 <= j < re.len() implies #[trigger] expr_shape(rt[j], re[j]) by {
            assert(rt[j] == ts[j + 1]);
            assert(re[j] == es[j + 1]);
        }
        assert(expr_shape(ts[0], es[0]));
        lemma_args_shape(rt, re);
    }
}

/// Solves the pending constraints; each error becomes a diagnostic, `context: error`, at
/// `span`. Returns whether unification succeeded.
pub fn unify_at(ctx: &mut TypeInferenceCtx, diags: &mut Diagnostics, span: Span, context: &str) -> (ok:
    bool)
    requires
        old(ctx).wf(),
    ensures
        ctx_kept(*old(ctx), *final(ctx)),
        final(ctx).constraints@.len() == 0,
        ok ==> queue_ok(old(ctx).constraints@, smap(final(ctx).subst@)),
        ok ==> final(diags).diags == old(diags).diags,
        queue_ok(old(ctx).constraints@, smap(old(ctx).subst@)) ==> ok && final(ctx).subst@ == old(
            ctx,
        ).subst@,
        final(ctx).subst@ == old(ctx).subst@ ==> same_names(*old(ctx), *final(ctx)),
        preds_kept(*old(ctx), *final(ctx)),
        !ok ==> final(diags).diags@.len() > old(diags).diags@.len(),
        final(diags).diags@.len() >= old(diags).diags@.len(),
        final(diags).source_name == old(diags).source_name,
        final(diags).span == old(diags).span,
{
    let ghost c0 = *ctx;
    let r = match ctx.unify() {
        Ok(()) => true,
        Err(es) => {
            diags.add_type_errs_at_location(&es, context, span);
            false
        },
    };
    proof {
        assert forall|i: int, k: Seq<char>|
            0 <= i < c0.scope.scopes@.len() && (#[trigger] crate::type_analysis::scope::assoc(
                c0.scope.scopes@[i].predicates@,
                k,
            )) is Some implies crate::type_analysis::scope::assoc(ctx.scope.scopes@[i].predicates@, k)
            is Some by {
            let o = c0.scope.scopes@[i];
            let n = ctx.scope.scopes@[i];
            assert(crate::type_analysis::ctx::scope_propagated(o, n, smap(ctx.subst@)));
            assert forall|j: int| 0 <= j < o.predicates@.len() implies #[trigger] n.predicates@[j].0@
                == o.predicates@[j].0@ by {}
            crate::type_analysis::ctx::lemma_assoc_names(o.predicates@, n.predicates@, k);
        }
        if ctx.subst@ == c0.subst@ {
            assert forall|k: Seq<char>| #[trigger] local_ty(c0, k) == local_ty(*ctx, k) by {
                crate::type_analysis::ctx::lemma_lookup_propagated(
                    c0.scope.scopes@,
                    ctx.scope.scopes@,
                    k,
                    smap(ctx.subst@),
                );
                match crate::type_analysis::scope::lookup_local(c0.scope.scopes@, k) {
                    Some(t) => {
                        crate::type_analysis::ctx::lemma_prop_resolves(t@, smap(ctx.subst@));
                    },
                    None => {},
                }
            }
        }
    }
    r
}

/// The type of a checked operand, when it was checked successfully.
fn meta_of(x: &Option<Expression<Ty>>) -> (r: Option<Ty>)
    ensures
        match x {
            Some(t) => r matches Some(m) && m@ == t.spec_meta()@,
            None => r is None,
        },
{
    match x {
        Some(t) => Some(t.meta().copy()),
        None => None,
    }
}

/// Enqueues `expected ~ m`, when the operand was checked successfully and its type is `m`.
fn constrain_to(ctx: &mut TypeInferenceCtx, expr: &Option<Ty>, expected: Ty)
    ensures
        (expr matches Some(m) ==> m@ == expected@) ==> final(ctx).constraints@ == old(
            ctx,
        ).constraints@,
        final(ctx).scope == old(ctx).scope,
        final(ctx).ts == old(ctx).ts,
        final(ctx).subst == old(ctx).subst,
        forall|s: Map<u64, TyV>|
            #[trigger] queue_ok(final(ctx).constraints@, s) ==> queue_ok(old(ctx).constraints@, s)
                && match expr {
                Some(m) => unifies(subst_ty(expected@, s), subst_ty(m@, s)),
                None => true,
            },
{
    match expr {
        Some(m) => ctx.add_constraint(expected, m.copy()),
        None => {},
    }
}

/// The common postcondition of the checkers of the kinds of expressions.
pub open spec fn checked(
    o: TypeInferenceCtx,
    n: TypeInferenceCtx,
    e: Expression<()>,
    r: TypingResult<Expression<Ty>>,
) -> bool {
    &&& ctx_kept(o, n)
    &&& r is Ok ==> pending_kept(o, n)
    &&& o.constraints@.len() == 0 ==> n.constraints@.len() == 0
    &&& match r {
        Ok(t) => expr_shape(t, e) && expr_rule(t, smap(n.subst@)) && well_typed(t, smap(n.subst@)),
        Err(ds) => ds@.len() > 0,
    }
}

/// The type of an expression made of literals and operators alone, when the typing rule holds
/// at each of its nodes; such an expression names nothing and needs no inference. `old(..)` is
/// counted only where it is allowed.
pub open spec fn literal_ty(e: Expression<()>, cfg: ExpressionTypeCheckerCfg) -> Option<TyV>
    decreases e,
{
    match e {
        Expression::Boolean { .. } => Some(TyV::Bool),
        Expression::Number { .. } => Some(TyV::Felt),
        Expression::Nondet { .. } => Some(TyV::Felt),
        Expression::Binary { op, left, right, .. } => match (
            literal_ty(*left, cfg),
            literal_ty(*right, cfg),
        ) {
            (Some(a), Some(b)) => if binary_operands_ok(op, a, b) {
                Some(binary_result_ty(op))
            } else {
                None
            },
            _ => None,
        },
        Expression::Unary { op, expr, .. } => match literal_ty(*expr, cfg) {
            Some(a) => if unifies(unary_ty(op), a) {
                Some(unary_ty(op))
            } else {
                None
            },
            None => None,
        },
        Expression::Conditional { condition, then_branch, else_branch, .. } => match (
            literal_ty(*condition, cfg),
            literal_ty(*then_branch, cfg),
            literal_ty(*else_branch, cfg),
        ) {
            (Some(c), Some(t), Some(f)) => if c == TyV::Bool && t == f {
                Some(t)
            } else {
                None
            },
            _ => None,
        },
        Expression::Old { expression, .. } => if cfg.allows_old {
            literal_ty(*expression, cfg)
        } else {
            None
        },
        _ => None,
    }
}

/// The type of the local that `k` names in the context, as its substitution resolves it.
pub open spec fn local_ty(c: TypeInferenceCtx, k: Seq<char>) -> Option<TyV> {
    match crate::type_analysis::scope::lookup_local(c.scope.scopes@, k) {
        Some(t) => Some(subst_ty(t@, smap(c.subst@))),
        None => None,
    }
}

/// Two contexts give each name the same meaning.
pub open spec fn same_names(a: TypeInferenceCtx, b: TypeInferenceCtx) -> bool {
    forall|k: Seq<char>| #[trigger] local_ty(a, k) == local_ty(b, k)
}

/// The type of an expression made of literals, operators and names whose types `names` gives
/// as booleans or field elements, when the typing rule holds at each of its nodes: such an
/// expression needs no inference. `old(..)` is counted only where it is allowed.
pub open spec fn known_ty_in(
    e: Expression<()>,
    cfg: ExpressionTypeCheckerCfg,
    names: spec_fn(Seq<char>) -> Option<TyV>,
) -> Option<TyV>
    decreases e,
{
    match e {
        Expression::Boolean { .. } => Some(TyV::Bool),
        Expression::Number { .. } => Some(TyV::Felt),
        Expression::Nondet { .. } => Some(TyV::Felt),
        Expression::Symbol(i) => match names(i.name.name@) {
            Some(t) => if t == TyV::Bool || t == TyV::Felt {
                Some(t)
            } else {
                None
            },
            None => None,
        },
        Expression::Binary { op, left, right, .. } => match (
            known_ty_in(*left, cfg, names),
            known_ty_in(*right, cfg, names),
        ) {
            (Some(a), Some(b)) => if binary_operands_ok(op, a, b) {
                Some(binary_result_ty(op))
            } else {
                None
            },
            _ => None,
        },
        Expression::Unary { op, expr, .. } => match known_ty_in(*expr, cfg, names) {
            Some(a) => if unifies(unary_ty(op), a) {
                Some(unary_ty(op))
            } else {
                None
            },
            None => None,
        },
        Expression::Conditional { condition, then_branch, else_branch, .. } => match (
            known_ty_in(*condition, cfg, names),
            known_ty_in(*then_branch, cfg, names),
            known_ty_in(*else_branch, cfg, names),
        ) {
            (Some(k), Some(t), Some(f)) => if k == TyV::Bool && t == f {
                Some(t)
            } else {
                None
            },
            _ => None,
        },
        Expression::Old { expression, .. } => if cfg.allows_old {
            known_ty_in(*expression, cfg, names)
        } else {
            None
        },
        _ => None,
    }
}

/// [`known_ty_in`] with the names of the locals of the context `c`.
pub open spec fn known_ty(e: Expression<()>, cfg: ExpressionTypeCheckerCfg, c: TypeInferenceCtx) -> Option<TyV> {
    known_ty_in(e, cfg, |k: Seq<char>| local_ty(c, k))
}

/// A known type stays known, and the same, where each name of boolean or field element type
/// keeps its type.
pub proof fn lemma_known_mono(
    e: Expression<()>,
    cfg: ExpressionTypeCheckerCfg,
    n1: spec_fn(Seq<char>) -> Option<TyV>,
    n2: spec_fn(Seq<char>) -> Option<TyV>,
)
    requires
        forall|k: Seq<char>| (#[trigger] n1(k) == Some(TyV::Bool) || n1(k) == Some(TyV::Felt)) ==> n2(k) == n1(k),
    ensures
        known_ty_in(e, cfg, n1) is Some ==> known_ty_in(e, cfg, n2) == known_ty_in(e, cfg, n1),
    decreases e,
{
    match e {
        Expression::Symbol(i) => {
            assert(n1(i.name.name@) == n1(i.name.name@));
        },
        Expression::Binary { left, right, .. } => {
            lemma_known_mono(*left, cfg, n1, n2);
            lemma_known_mono(*right, cfg, n1, n2);
        },
        Expression::Unary { expr, .. } => lemma_known_mono(*expr, cfg, n1, n2),
        Expression::Conditional { condition, then_branch, else_branch, .. } => {
            lemma_known_mono(*condition, cfg, n1, n2);
            lemma_known_mono(*then_branch, cfg, n1, n2);
            lemma_known_mono(*else_branch, cfg, n1, n2);
        },
        Expression::Old { expression, .. } => lemma_known_mono(*expression, cfg, n1, n2),
        _ => {},
    }
}

/// A known type is a boolean or a field element; it depends only on the meaning of names; an
/// expression of literals has the same known type in every context.
pub proof fn lemma_known_ty(e: Expression<()>, cfg: ExpressionTypeCheckerCfg, a: TypeInferenceCtx, b: TypeInferenceCtx)
    ensures
        known_ty(e, cfg, a) matches Some(t) ==> t == TyV::Bool || t == TyV::Felt,
        same_names(a, b) ==> known_ty(e, cfg, a) == known_ty(e, cfg, b),
        literal_ty(e, cfg) is Some ==> known_ty(e, cfg, a) == literal_ty(e, cfg),
    decreases e,
{
    let na = |k: Seq<char>| local_ty(a, k);
    let nb = |k: Seq<char>| local_ty(b, k);
    if same_names(a, b) {
        assert(na =~= nb);
    }
    lemma_known_parts(e, cfg, na);
}

/// The parts of [`lemma_known_ty`] that hold for any names.
proof fn lemma_known_parts(e: Expression<()>, cfg: ExpressionTypeCheckerCfg, names: spec_fn(Seq<char>) -> Option<TyV>)
    ensures
        known_ty_in(e, cfg, names) matches Some(t) ==> t == TyV::Bool || t == TyV::Felt,
        literal_ty(e, cfg) is Some ==> known_ty_in(e, cfg, names) == literal_ty(e, cfg),
    decreases e,
{
    match e {
        Expression::Binary { left, right, .. } => {
            lemma_known_parts(*left, cfg, names);
            lemma_known_parts(*right, cfg, names);
        },
        Expression::Unary { expr, .. } => lemma_known_parts(*expr, cfg, names),
        Expression::Conditional { condition, then_branch, else_branch, .. } => {
            lemma_known_parts(*condition, cfg, names);
            lemma_known_parts(*then_branch, cfg, names);
            lemma_known_parts(*else_branch, cfg, names);
        },
        Expression::Old { expression, .. } => lemma_known_parts(*expression, cfg, names),
        _ => {},
    }
}

/// Each scope of `b` binds the predicates that the scope of `a` at the same level binds.
pub open spec fn preds_kept(a: TypeInferenceCtx, b: TypeInferenceCtx) -> bool {
    &&& b.scope.scopes@.len() == a.scope.scopes@.len()
    &&& forall|i: int, k: Seq<char>|
        0 <= i < a.scope.scopes@.len() && (#[trigger] crate::type_analysis::scope::assoc(
            a.scope.scopes@[i].predicates@,
            k,
        )) is Some ==> crate::type_analysis::scope::assoc(b.scope.scopes@[i].predicates@, k) is Some
}

/// [`preds_kept`] is transitive.
pub proof fn lemma_preds_trans(a: TypeInferenceCtx, b: TypeInferenceCtx, c: TypeInferenceCtx)
    requires
        preds_kept(a, b),
        preds_kept(b, c),
    ensures
        preds_kept(a, c),
{
    assert forall|i: int, k: Seq<char>|
        0 <= i < a.scope.scopes@.len() && (#[trigger] crate::type_analysis::scope::assoc(
            a.scope.scopes@[i].predicates@,
            k,
        )) is Some implies crate::type_analysis::scope::assoc(c.scope.scopes@[i].predicates@, k) is Some by {
        assert(crate::type_analysis::scope::assoc(b.scope.scopes@[i].predicates@, k) is Some);
    }
}

/// [`same_names`] is transitive.
pub proof fn lemma_same_names_trans(a: TypeInferenceCtx, b: TypeInferenceCtx, c: TypeInferenceCtx)
    requires
        same_names(a, b),
        same_names(b, c),
    ensures
        same_names(a, c),
{
    assert forall|k: Seq<char>| #[trigger] local_ty(a, k) == local_ty(c, k) by {
        assert(local_ty(a, k) == local_ty(b, k));
        assert(local_ty(b, k) == local_ty(c, k));
    }
}

/// Contexts with the same scopes keep the same predicates.
pub proof fn lemma_preds_eq(a: TypeInferenceCtx, b: TypeInferenceCtx)
    requires
        a.scope == b.scope,
    ensures
        preds_kept(a, b),
{
}

/// Contexts with the same scopes and substitution give names the same meaning.
pub proof fn lemma_same_names_eq(a: TypeInferenceCtx, b: TypeInferenceCtx)
    requires
        a.scope == b.scope,
        a.subst@ == b.subst@,
    ensures
        same_names(a, b),
{
}

/// Success owed on an expression of literals, operators and names of known type, checked with
/// nothing pending: it is accepted with the type its rules give, and the substitution and the
/// meaning of names are left as they were.
pub open spec fn literal_ok(
    o: TypeInferenceCtx,
    n: TypeInferenceCtx,
    e: Expression<()>,
    cfg: ExpressionTypeCheckerCfg,
    r: TypingResult<Expression<Ty>>,
) -> bool {
    o.constraints@.len() == 0 && known_ty(e, cfg, o) is Some ==> (r matches Ok(x)
        && Some(x.spec_meta()@) == known_ty(e, cfg, o) && n.subst@ == o.subst@ && same_names(o, n)
        && preds_kept(o, n))
}

/// A checked operand stays well typed through later steps of checking.
proof fn lemma_typed_at(x: Expression<Ty>, a: TypeInferenceCtx, b: TypeInferenceCtx)
    requires
        well_typed(x, smap(a.subst@)),
        ctx_kept(a, b),
    ensures
        well_typed(x, smap(b.subst@)),
{
    lemma_well_typed_refined(x, smap(a.subst@), smap(b.subst@));
}

/// The rule of a node, as its checker establishes it, read through the context's substitution.
proof fn lemma_node_at(t: Expression<Ty>, c: TypeInferenceCtx)
    requires
        c.wf(),
        expr_rule(t, smap(c.subst@)),
    ensures
        node_typed(t, smap(c.subst@)),
{
    crate::type_analysis::subst::lemma_refines_refl(smap(c.subst@));
    lemma_rule_node(t, smap(c.subst@));
}

/// Checks an expression. On success the result has the shape of `e` and the typing rule of its
/// outermost node holds under the new substitution; on failure at least one diagnostic is
/// returned. An expression of literals and operators that follows the typing rules is accepted
/// with its type ([`literal_ok`]); `old(..)` where it is not allowed, and a name bound to no
/// local, are reported with their own diagnostics.
pub fn check_expression(
    ctx: &mut TypeInferenceCtx,
    source_name: &str,
    cfg: ExpressionTypeCheckerCfg,
    e: &Expression<()>,
) -> (r: TypingResult<Expression<Ty>>)
    requires
        old(ctx).wf(),
    ensures
        checked(*old(ctx), *final(ctx), *e, r),
        literal_ok(*old(ctx), *final(ctx), *e, cfg, r),
        (e is Old && !cfg.allows_old) ==> (r matches Err(ds) && ds@.len() > 0 && is_diag(
            ds@[0],
            source_name@,
            "old expression is not allowed in this context"@,
            Some(e->Old_span),
        )),
        e matches Expression::Old { expression, .. } && !cfg.allows_old && literal_ty(
            **expression,
            cfg,
        ) is Some && old(ctx).constraints@.len() == 0 ==> (r matches Err(ds) && ds@.len() == 1),
        e matches Expression::Arg { index, .. } ==> (r is Ok <==> cfg.allows_arg
            && crate::type_analysis::scope::lookup_param(old(ctx).scope.scopes@, *index) is Some),
        e matches Expression::Symbol(i) ==> (r is Ok <==> crate::type_analysis::scope::lookup_local(
            old(ctx).scope.scopes@,
            i.name.name@,
        ) is Some),
        e matches Expression::Symbol(i) ==> (r matches Err(ds) ==> ds@.len() == 1 && is_diag(
            ds@[0],
            source_name@,
            symbol_error(i.name.name@),
            Some(i.span),
        )),
    decreases e, 1nat,
{
    proof {
        lemma_step_refl(*ctx);
    }
    match e {
        Expression::Conditional { .. } => check_conditional(ctx, source_name, cfg, e),
        Expression::Binary { .. } => check_binary(ctx, source_name, cfg, e),
        Expression::Unary { .. } => check_unary(ctx, source_name, cfg, e),
        Expression::Index { .. } => check_index(ctx, source_name, cfg, e),
        Expression::Member { .. } => check_member(ctx, source_name, cfg, e),
        Expression::Call { .. } => check_call(ctx, source_name, cfg, e),
        Expression::Quantifier { .. } => check_quantifier(ctx, source_name, cfg, e),
        Expression::Len { .. } => check_len(ctx, source_name, cfg, e),
        Expression::Old { .. } => check_old(ctx, source_name, cfg, e),
        Expression::Arg { index, span, .. } => check_arg(ctx, source_name, cfg, *index, *span),
        Expression::Nondet { span, .. } => Ok(
            Expression::Nondet { span: *span, meta: ctx.ts.felt_type() },
        ),
        Expression::Boolean { value, span, .. } => Ok(
            Expression::Boolean { value: *value, span: *span, meta: ctx.ts.bool_type() },
        ),
        Expression::Number { value, span, .. } => Ok(
            Expression::Number { value: value.copy(), span: *span, meta: ctx.ts.felt_type() },
        ),
        Expression::Symbol(ident) => check_symbol(ctx, source_name, ident),
    }
}

/// Checks `c ? a : b`: `c` is a boolean and both branches have the type of the expression.
fn check_conditional(
    ctx: &mut TypeInferenceCtx,
    source_name: &str,
    cfg: ExpressionTypeCheckerCfg,
    e: &Expression<()>,
) -> (r: TypingResult<Expression<Ty>>)
    requires
        old(ctx).wf(),
        e is Conditional,
    ensures
        checked(*old(ctx), *final(ctx), *e, r),
        literal_ok(*old(ctx), *final(ctx), *e, cfg, r),
    decreases e, 0nat,
{
    let ghost c0 = *ctx;
    match e {
        Expression::Conditional { condition, then_branch, else_branch, span, .. } => {
            let mut diags = Diagnostics::new(source_name, *span);
            let c = diags.extract_result(check_expression(ctx, source_name, cfg, condition));
            let ghost c1 = *ctx;
            let t = diags.extract_result(check_expression(ctx, source_name, cfg, then_branch));
            let ghost c2 = *ctx;
            let f = diags.extract_result(check_expression(ctx, source_name, cfg, else_branch));
            let ghost c3 = *ctx;
            let cm = meta_of(&c);
            let tm = meta_of(&t);
            let fm = meta_of(&f);
            let b = ctx.ts.bool_type();
            proof {
                lemma_known_ty(**condition, cfg, c0, c1);
                lemma_known_ty(**then_branch, cfg, c0, c1);
                lemma_known_ty(**then_branch, cfg, c0, c2);
                lemma_known_ty(**else_branch, cfg, c0, c2);
            }
            constrain_to(ctx, &cm, b);
            let ghost q1 = ctx.constraints@;
            match &tm {
                Some(x) => constrain_to(ctx, &fm, x.copy()),
                None => {},
            }
            let ghost cu = *ctx;
            proof {
                lemma_same_names_eq(c3, cu);
                lemma_preds_eq(c3, cu);
            }
            proof {
                if c0.constraints@.len() == 0 && known_ty(*e, cfg, c0) is Some {
                    assert(cu.constraints@.len() == 0);
                    assert(queue_ok(cu.constraints@, smap(cu.subst@)));
                }
            }
            let ok = unify_at(ctx, &mut diags, *span, "on conditional expression");
            proof {
                lemma_kept_trans(c0, c1, c2);
                lemma_kept_trans(c0, c2, c3);
                lemma_kept_trans(c0, c3, *ctx);
            }
            if diags.is_empty() {
                match (c, t, f) {
                    (Some(c), Some(t), Some(f)) => {
                        let rt = ctx.resolve(t.meta());
                        proof {
                            let sf = smap(ctx.subst@);
                            lemma_node_end(c3, cu, *ctx);
                            lemma_step_trans(c0, c1, c2);
                            lemma_step_trans(c0, c2, c3);
                            lemma_step_trans(c0, c3, *ctx);
                            assert(queue_ok(cu.constraints@, sf));
                            assert(queue_ok(q1, sf));
                            lemma_kept_trans(c1, c2, c3);
                            lemma_kept_trans(c1, c3, *ctx);
                            lemma_kept_trans(c2, c3, *ctx);
                            lemma_typed_at(c, c1, *ctx);
                            lemma_typed_at(t, c2, *ctx);
                            lemma_typed_at(f, c3, *ctx);
                        }
                        let res = Expression::Conditional {
                            condition: Box::new(c),
                            then_branch: Box::new(t),
                            else_branch: Box::new(f),
                            span: *span,
                            meta: rt,
                        };
                        proof {
                            lemma_node_at(res, *ctx);
                        }
                        proof {
                            if c0.constraints@.len() == 0 && known_ty(*e, cfg, c0) is Some {
                                lemma_same_names_trans(c0, c1, c2);
                                lemma_preds_trans(c0, c1, c2);
                                lemma_same_names_trans(c0, c2, c3);
                                lemma_preds_trans(c0, c2, c3);
                                lemma_same_names_trans(c0, c3, cu);
                                lemma_preds_trans(c0, c3, cu);
                                lemma_same_names_trans(c0, cu, *ctx);
                                lemma_preds_trans(c0, cu, *ctx);
                            }
                        }
                        Ok(res)
                    },
                    _ => Err(diags.diags),
                }
            } else {
                Err(diags.diags)
            }
        },
        _ => Err(Vec::new()),
    }
}

/// Checks a binary operation: both operands have the operand type of the operator.
fn check_binary(
    ctx: &mut TypeInferenceCtx,
    source_name: &str,
    cfg: ExpressionTypeCheckerCfg,
    e: &Expression<()>,
) -> (r: TypingResult<Expression<Ty>>)
    requires
        old(ctx).wf(),
        e is Binary,
    ensures
        checked(*old(ctx), *final(ctx), *e, r),
        literal_ok(*old(ctx), *final(ctx), *e, cfg, r),
    decreases e, 0nat,
{
    let ghost c0 = *ctx;
    match e {
        Expression::Binary { op, left, right, span, .. } => {
            let mut diags = Diagnostics::new(source_name, *span);
            let l = diags.extract_result(check_expression(ctx, source_name, cfg, left));
            let ghost c1 = *ctx;
            let rr = diags.extract_result(check_expression(ctx, source_name, cfg, right));
            let ghost c2 = *ctx;
            let lm = meta_of(&l);
            let rm = meta_of(&rr);
            let equality = match op {
                BinaryOp::Eq => true,
                BinaryOp::Ne => true,
                _ => false,
            };
            let ghost q1 = ctx.constraints@;
            proof {
                lemma_known_ty(**left, cfg, c0, c1);
                lemma_known_ty(**right, cfg, c0, c1);
            }
            if equality {
                match (&lm, &rm) {
                    (Some(a), Some(b)) => ctx.add_constraint(a.copy(), b.copy()),
                    _ => {},
                }
            } else {
                let expected = op.expected_type(&ctx.ts);
                let expected2 = expected.copy();
                constrain_to(ctx, &lm, expected);
                proof {
                    q1 = ctx.constraints@;
                }
                constrain_to(ctx, &rm, expected2);
            }
            let ghost cu = *ctx;
            proof {
                lemma_same_names_eq(c2, cu);
                lemma_preds_eq(c2, cu);
            }
            proof {
                if c0.constraints@.len() == 0 && known_ty(*e, cfg, c0) is Some {
                    assert(cu.constraints@.len() == 0);
                    assert(queue_ok(cu.constraints@, smap(cu.subst@)));
                }
            }
            let context = concat3("in binary op '", op.text(), "'");
            let ok = unify_at(ctx, &mut diags, *span, context.as_str());
            let ghost c4 = *ctx;
            proof {
                lemma_kept_trans(c0, c1, c2);
                lemma_kept_trans(c0, c2, *ctx);
            }
            if diags.is_empty() {
                match (l, rr) {
                    (Some(l), Some(rr)) => {
                        proof {
                            let sf = smap(ctx.subst@);
                            lemma_node_end(c2, cu, *ctx);
                            lemma_step_trans(c0, c1, c2);
                            lemma_step_trans(c0, c2, *ctx);
                            assert(queue_ok(cu.constraints@, sf));
                            assert(queue_ok(q1, sf));
                            lemma_kept_trans(c1, c2, *ctx);
                        }
                        if equality {
                            let lt = ctx.resolve(l.meta());
                            let known = match &lt {
                                Ty::Bool => true,
                                Ty::Felt => true,
                                Ty::Index => true,
                                _ => false,
                            };
                            let unknown = match &lt {
                                Ty::Var(_) => true,
                                _ => false,
                            };
                            if !known {
                                if unknown {
                                    let f = ctx.ts.felt_type();
                                    ctx.add_constraint(f, l.meta().copy());
                                    let ghost c5 = *ctx;
                                    let ok2 = unify_at(ctx, &mut diags, *span, context.as_str());
                                    proof {
                                        assert forall|s: Map<u64, TyV>| #[trigger] queue_ok(c5.constraints@, s) implies queue_ok(
                                            c4.constraints@,
                                            s,
                                        ) by {}
                                        lemma_adds_step(c4, c5);
                                        lemma_kept_trans(c4, c5, *ctx);
                                        lemma_kept_trans(c0, c4, *ctx);
                                    }
                                    if !ok2 {
                                        return Err(diags.diags);
                                    }
                                    proof {
                                        lemma_node_end(c4, c5, *ctx);
                                        let s6 = smap(ctx.subst@);
                                        let s4 = smap(c4.subst@);
                                        lemma_step_trans(c0, c4, *ctx);
                                        lemma_kept_trans(c1, c4, *ctx);
                                        lemma_kept_trans(c2, c4, *ctx);
                                        assert(queue_ok(c5.constraints@, s6));
                                        assert(unifies(subst_ty(TyV::Felt, s6), subst_ty(l.spec_meta()@, s6)));
                                        lemma_unifies_refined(l.spec_meta()@, rr.spec_meta()@, s4, s6);
                                    }
                                } else {
                                    let mut m = concat3(context.as_str(), ": expected type 'Felt' or 'Bool' but got '", lt.text().as_str());
                                    m.append("'");
                                    diags.add(m);
                                    return Err(diags.diags);
                                }
                            } else {
                                proof {
                                    lemma_step_refl(c4);
                                }
                            }
                        }
                        let meta = op.return_type(&ctx.ts);
                        proof {
                            lemma_typed_at(l, c1, *ctx);
                            lemma_typed_at(rr, c2, *ctx);
                        }
                        let res = Expression::Binary {
                            op: *op,
                            left: Box::new(l),
                            right: Box::new(rr),
                            span: *span,
                            meta,
                        };
                        proof {
                            lemma_node_at(res, *ctx);
                        }
                        proof {
                            if c0.constraints@.len() == 0 && known_ty(*e, cfg, c0) is Some {
                                lemma_same_names_trans(c0, c1, c2);
                                lemma_preds_trans(c0, c1, c2);
                                lemma_same_names_trans(c0, c2, cu);
                                lemma_preds_trans(c0, c2, cu);
                                lemma_same_names_trans(c0, cu, *ctx);
                                lemma_preds_trans(c0, cu, *ctx);
                            }
                        }
                        Ok(res)
                    },
                    _ => Err(diags.diags),
                }
            } else {
                Err(diags.diags)
            }
        },
        _ => Err(Vec::new()),
    }
}

/// Checks a unary operation: the operand has the type of the operator.
fn check_unary(
    ctx: &mut TypeInferenceCtx,
    source_name: &str,
    cfg: ExpressionTypeCheckerCfg,
    e: &Expression<()>,
) -> (r: TypingResult<Expression<Ty>>)
    requires
        old(ctx).wf(),
        e is Unary,
    ensures
        checked(*old(ctx), *final(ctx), *e, r),
        literal_ok(*old(ctx), *final(ctx), *e, cfg, r),
    decreases e, 0nat,
{
    let ghost c0 = *ctx;
    match e {
        Expression::Unary { op, expr, span, .. } => {
            let mut diags = Diagnostics::new(source_name, *span);
            let x = diags.extract_result(check_expression(ctx, source_name, cfg, expr));
            let ghost c1 = *ctx;
            let xm = meta_of(&x);
            let expected = op.expected_type(&ctx.ts);
            proof {
                lemma_known_ty(**expr, cfg, c0, c1);
            }
            constrain_to(ctx, &xm, expected);
            let ghost cu = *ctx;
            proof {
                lemma_same_names_eq(c1, cu);
                lemma_preds_eq(c1, cu);
            }
            proof {
                if c0.constraints@.len() == 0 && known_ty(*e, cfg, c0) is Some {
                    assert(cu.constraints@.len() == 0);
                    assert(queue_ok(cu.constraints@, smap(cu.subst@)));
                }
            }
            let context = concat3("in unary op '", op.text(), "'");
            let ok = unify_at(ctx, &mut diags, *span, context.as_str());
            proof {
                lemma_kept_trans(c0, c1, *ctx);
            }
            if diags.is_empty() {
                match x {
                    Some(x) => {
                        let meta = op.return_type(&ctx.ts);
                        proof {
                            let sf = smap(ctx.subst@);
                            lemma_node_end(c1, cu, *ctx);
                            lemma_step_trans(c0, c1, *ctx);
                            assert(queue_ok(cu.constraints@, sf));
                            lemma_typed_at(x, c1, *ctx);
                        }
                        let res = Expression::Unary { op: *op, expr: Box::new(x), span: *span, meta };
                        proof {
                            lemma_node_at(res, *ctx);
                        }
                        proof {
                            if c0.constraints@.len() == 0 && known_ty(*e, cfg, c0) is Some {
                                lemma_same_names_trans(c0, c1, cu);
                                lemma_preds_trans(c0, c1, cu);
                                lemma_same_names_trans(c0, cu, *ctx);
                                lemma_preds_trans(c0, cu, *ctx);
                            }
                        }
                        Ok(res)
                    },
                    None => Err(diags.diags),
                }
            } else {
                Err(diags.diags)
            }
        },
        _ => Err(Vec::new()),
    }
}

/// Checks `a[i]`: `i` is a field element, `a` an array, and the expression has the element
/// type of `a`.
fn check_index(
    ctx: &mut TypeInferenceCtx,
    source_name: &str,
    cfg: ExpressionTypeCheckerCfg,
    e: &Expression<()>,
) -> (r: TypingResult<Expression<Ty>>)
    requires
        old(ctx).wf(),
        e is Index,
    ensures
        checked(*old(ctx), *final(ctx), *e, r),
    decreases e, 0nat,
{
    let ghost c0 = *ctx;
    match e {
        Expression::Index { target, index, span, .. } => {
            let mut diags = Diagnostics::new(source_name, *span);
            let t = diags.extract_result(check_expression(ctx, source_name, cfg, target));
            let ghost c1 = *ctx;
            let i = diags.extract_result(check_expression(ctx, source_name, cfg, index));
            let ghost c2 = *ctx;
            let result_type = ctx.ts.fresh_var();
            let ghost c3 = *ctx;
            let im = meta_of(&i);
            let tm = meta_of(&t);
            let felt = ctx.ts.felt_type();
            constrain_to(ctx, &im, felt);
            let ghost q1 = ctx.constraints@;
            match tm {
                Some(m) => ctx.add_array_constraint(m, result_type.copy()),
                None => {},
            }
            let ghost cu = *ctx;
            let ok = unify_at(ctx, &mut diags, *span, "on index expression");
            proof {
                lemma_kept_trans(c0, c1, c2);
                lemma_step_refl(c2);
                lemma_kept_trans(c0, c2, *ctx);
            }
            if diags.is_empty() {
                match (t, i) {
                    (Some(t), Some(i)) => {
                        let meta = ctx.resolve(&result_type);
                        proof {
                            let sf = smap(ctx.subst@);
                            lemma_node_end(c2, cu, *ctx);
                            lemma_step_trans(c0, c1, c2);
                            lemma_step_trans(c0, c2, *ctx);
                            assert(queue_ok(cu.constraints@, sf));
                            assert(queue_ok(q1, sf));
                            lemma_kept_trans(c1, c2, *ctx);
                            lemma_typed_at(t, c1, *ctx);
                            lemma_typed_at(i, c2, *ctx);
                        }
                        let res = Expression::Index {
                            target: Box::new(t),
                            index: Box::new(i),
                            span: *span,
                            meta,
                        };
                        proof {
                            lemma_node_at(res, *ctx);
                        }
                        Ok(res)
                    },
                    _ => Err(diags.diags),
                }
            } else {
                Err(diags.diags)
            }
        },
        _ => Err(Vec::new()),
    }
}

/// Checks `a.m`: `a` is struct-like with a member `m`, whose type the expression has.
fn check_member(
    ctx: &mut TypeInferenceCtx,
    source_name: &str,
    cfg: ExpressionTypeCheckerCfg,
    e: &Expression<()>,
) -> (r: TypingResult<Expression<Ty>>)
    requires
        old(ctx).wf(),
        e is Member,
    ensures
        checked(*old(ctx), *final(ctx), *e, r),
    decreases e, 0nat,
{
    let ghost c0 = *ctx;
    match e {
        Expression::Member { target, member, span, .. } => {
            let mut diags = Diagnostics::new(source_name, *span);
            let t = diags.extract_result(check_expression(ctx, source_name, cfg, target));
            let ghost c1 = *ctx;
            let result_type = ctx.ts.fresh_var();
            let tm = meta_of(&t);
            match tm {
                Some(m) => ctx.add_member_constraint(m, member.name.name.clone(), result_type.copy()),
                None => {},
            }
            let ghost cu = *ctx;
            let ok = unify_at(ctx, &mut diags, *span, "on member access expression");
            proof {
                lemma_kept_trans(c0, c1, *ctx);
            }
            if diags.is_empty() {
                match t {
                    Some(t) => {
                        let meta = ctx.resolve(&result_type);
                        let m = member.with_meta(meta.copy());
                        proof {
                            let sf = smap(ctx.subst@);
                            lemma_node_end(c1, cu, *ctx);
                            lemma_step_trans(c0, c1, *ctx);
                            assert(queue_ok(cu.constraints@, sf));
                            lemma_typed_at(t, c1, *ctx);
                        }
                        let res = Expression::Member { target: Box::new(t), member: m, span: *span, meta };
                        proof {
                            lemma_node_at(res, *ctx);
                        }
                        Ok(res)
                    },
                    None => Err(diags.diags),
                }
            } else {
                Err(diags.diags)
            }
        },
        _ => Err(Vec::new()),
    }
}

/// Checks `len(a)`: `a` is an array and the expression is a field element.
fn check_len(
    ctx: &mut TypeInferenceCtx,
    source_name: &str,
    cfg: ExpressionTypeCheckerCfg,
    e: &Expression<()>,
) -> (r: TypingResult<Expression<Ty>>)
    requires
        old(ctx).wf(),
        e is Len,
    ensures
        checked(*old(ctx), *final(ctx), *e, r),
    decreases e, 0nat,
{
    let ghost c0 = *ctx;
    match e {
        Expression::Len { target, span, .. } => {
            let mut diags = Diagnostics::new(source_name, *span);
            let t = diags.extract_result(check_expression(ctx, source_name, cfg, target));
            let ghost c1 = *ctx;
            let tm = meta_of(&t);
            match tm {
                Some(m) => {
                    let v = ctx.ts.fresh_var();
                    ctx.add_array_constraint(m, v);
                },
                None => {},
            }
            let ghost cu = *ctx;
            let ok = unify_at(ctx, &mut diags, *span, "on lenght expression");
            proof {
                lemma_kept_trans(c0, c1, *ctx);
            }
            if diags.is_empty() {
                match t {
                    Some(t) => {
                        let meta = ctx.ts.felt_type();
                        proof {
                            let sf = smap(ctx.subst@);
                            lemma_node_end(c1, cu, *ctx);
                            lemma_step_trans(c0, c1, *ctx);
                            assert(queue_ok(cu.constraints@, sf));
                            lemma_typed_at(t, c1, *ctx);
                        }
                        let res = Expression::Len { target: Box::new(t), span: *span, meta };
                        proof {
                            lemma_node_at(res, *ctx);
                        }
                        Ok(res)
                    },
                    None => Err(diags.diags),
                }
            } else {
                Err(diags.diags)
            }
        },
        _ => Err(Vec::new()),
    }
}

/// Checks `old(e)`, which is only allowed in some contexts; it has the type of `e`.
fn check_old(
    ctx: &mut TypeInferenceCtx,
    source_name: &str,
    cfg: ExpressionTypeCheckerCfg,
    e: &Expression<()>,
) -> (r: TypingResult<Expression<Ty>>)
    requires
        old(ctx).wf(),
        e is Old,
    ensures
        checked(*old(ctx), *final(ctx), *e, r),
        literal_ok(*old(ctx), *final(ctx), *e, cfg, r),
        !cfg.allows_old ==> (r matches Err(ds) && ds@.len() > 0 && is_diag(
            ds@[0],
            source_name@,
            "old expression is not allowed in this context"@,
            Some(e->Old_span),
        )),
        e matches Expression::Old { expression, .. } && !cfg.allows_old && literal_ty(
            **expression,
            cfg,
        ) is Some && old(ctx).constraints@.len() == 0 ==> (r matches Err(ds) && ds@.len() == 1),
    decreases e, 0nat,
{
    match e {
        Expression::Old { expression, span, .. } => {
            let mut diags = Diagnostics::new(source_name, *span);
            proof {
                lemma_known_ty(**expression, cfg, *ctx, *ctx);
            }
            diags.add_unless(cfg.allows_old, "old expression is not allowed in this context");
            let x = diags.extract_result(check_expression(ctx, source_name, cfg, expression));
            if diags.is_empty() {
                match x {
                    Some(x) => {
                        let meta = x.meta().copy();
                        Ok(Expression::Old { expression: Box::new(x), span: *span, meta })
                    },
                    None => Err(diags.diags),
                }
            } else {
                Err(diags.diags)
            }
        },
        _ => Err(Vec::new()),
    }
}

/// The diagnostic of a name that is bound to no local in scope.
pub open spec fn symbol_error(name: Seq<char>) -> Seq<char> {
    "on symbol '"@ + name + "': unknown local '"@ + name + "'"@
}

/// Checks a name: it must be bound to a local; the expression has the local's type.
fn check_symbol(ctx: &mut TypeInferenceCtx, source_name: &str, ident: &Identifier<()>) -> (r:
    TypingResult<Expression<Ty>>)
    requires
        old(ctx).wf(),
    ensures
        *final(ctx) == *old(ctx),
        match r {
            Ok(t) => expr_shape(t, Expression::Symbol(*ident)),
            Err(ds) => ds@.len() > 0,
        },
        r is Ok <==> crate::type_analysis::scope::lookup_local(
            old(ctx).scope.scopes@,
            ident.name.name@,
        ) is Some,
        r matches Err(ds) ==> ds@.len() == 1 && is_diag(
            ds@[0],
            source_name@,
            symbol_error(ident.name.name@),
            Some(ident.span),
        ),
        r matches Ok(t) ==> Some(t.spec_meta()@) == local_ty(*old(ctx), ident.name.name@),
{
    let diags = Diagnostics::new(source_name, ident.span);
    match ctx.scope.find_local(ident) {
        Ok(t) => {
            let rt = ctx.resolve(t);
            Ok(Expression::Symbol(ident.with_meta(rt)))
        },
        Err(err) => {
            let context = concat3("on symbol '", ident.value(), "'");
            let mut d = diags;
            d.add_type_err(&err, context.as_str());
            proof {
                let n = ident.name.name@;
                reveal_strlit("'");
                reveal_strlit(": ");
                reveal_strlit("': unknown local '");
                reveal_strlit("unknown local '");
                assert(context@ + ": "@ + error_text(err) =~= symbol_error(n));
                assert(d.diags@[0] == d.diags@.last());
            }
            Err(d.diags)
        },
    }
}

/// Checks `$arg[N]`, which is only allowed in some contexts: it has the type of the `N`-th
/// parameter.
fn check_arg(
    ctx: &mut TypeInferenceCtx,
    source_name: &str,
    cfg: ExpressionTypeCheckerCfg,
    index: usize,
    span: Span,
) -> (r: TypingResult<Expression<Ty>>)
    requires
        old(ctx).wf(),
    ensures
        *final(ctx) == *old(ctx),
        match r {
            Ok(t) => expr_shape(t, Expression::Arg { index, span, meta: () }),
            Err(ds) => ds@.len() > 0,
        },
        r is Ok <==> cfg.allows_arg && crate::type_analysis::scope::lookup_param(
            old(ctx).scope.scopes@,
            index,
        ) is Some,
{
    let mut diags = Diagnostics::new(source_name, span);
    if !cfg.allows_arg {
        diags.add("arg expression is not allowed in this context".to_owned());
        return Err(diags.diags);
    }
    match ctx.scope.find_parameter(index) {
        Ok(t) => Ok(Expression::Arg { index, span, meta: t.copy() }),
        Err(err) => {
            let mut context = "on argument #".to_owned();
            push_decimal(&mut context, index as u64);
            diags.add_type_err(&err, context.as_str());
            Err(diags.diags)
        },
    }
}

/// Checks a predicate call: the predicate is in scope, takes as many arguments as given, each
/// of the input type, and returns one boolean; the call is a boolean.
fn check_call(
    ctx: &mut TypeInferenceCtx,
    source_name: &str,
    cfg: ExpressionTypeCheckerCfg,
    e: &Expression<()>,
) -> (r: TypingResult<Expression<Ty>>)
    requires
        old(ctx).wf(),
        e is Call,
    ensures
        checked(*old(ctx), *final(ctx), *e, r),
    decreases e, 0nat,
{
    let ghost c0 = *ctx;
    match e {
        Expression::Call { callee, args, span, .. } => {
            let mut diags = Diagnostics::new(source_name, *span);
            let mut new_args: Vec<Expression<Ty>> = Vec::new();
            let mut metas: Vec<Option<Ty>> = Vec::new();
            let mut all_ok = true;
            let mut i: usize = 0;
            proof {
                lemma_step_refl(c0);
                assert forall|k: int| 0 <= k < args@.len() implies decreases_to!(e => #[trigger] args@[k]) by {
                    assert(decreases_to!(e => args));
                    assert(decreases_to!(args => args@[k]));
                }
            }
            while i < args.len()
                invariant
                    i <= args@.len(),
                    ctx.wf(),
                    ctx_kept(c0, *ctx),
                    all_ok ==> pending_kept(c0, *ctx),
                    c0.constraints@.len() == 0 ==> ctx.constraints@.len() == 0,
                    metas@.len() == i,
                    all_ok ==> new_args@.len() == i,
                    all_ok ==> forall|j: int| 0 <= j < i ==> #[trigger] expr_shape(new_args@[j], args@[j]),
                    all_ok ==> forall|j: int|
                        0 <= j < i ==> #[trigger] well_typed(new_args@[j], smap(ctx.subst@)),
                    all_ok ==> forall|j: int|
                        0 <= j < i ==> ((#[trigger] metas@[j]) matches Some(m) && m@
                            == new_args@[j].spec_meta()@),
                    all_ok ==> diags.diags@.len() == 0,
                    !all_ok ==> diags.diags@.len() > 0,
                    diags.span == *span,
                    forall|k: int| 0 <= k < args@.len() ==> decreases_to!(e => #[trigger] args@[k]),
                decreases args@.len() - i,
            {
                proof {
                    assert(decreases_to!(e => args@[i as int]));
                }
                let ghost ci = *ctx;
                let r = check_expression(ctx, source_name, cfg, &args[i]);
                proof {
                    lemma_kept_trans(c0, ci, *ctx);
                    if all_ok && r is Ok {
                        lemma_step_trans(c0, ci, *ctx);
                    }
                }
                proof {
                    if all_ok {
                        assert forall|j: int| 0 <= j < i implies #[trigger] well_typed(
                            new_args@[j],
                            smap(ctx.subst@),
                        ) by {
                            lemma_typed_at(new_args@[j], ci, *ctx);
                        }
                    }
                }
                let x = diags.extract_result(r);
                metas.push(meta_of(&x));
                match x {
                    Some(x) => {
                        if all_ok {
                            new_args.push(x);
                        }
                    },
                    None => {
                        all_ok = false;
                    },
                }
                i = i + 1;
            }
            let callee_type = match ctx.scope.find_predicate(callee) {
                Ok(f) => f.copy(),
                Err(err) => {
                    let context = "on call expression";
                    diags.add_type_err(&err, context);
                    return Err(diags.diags);
                },
            };
            let ghost ck = *ctx;
            let n_ins = callee_type.ins.len();
            if n_ins != metas.len() {
                let mut m = concat3("predicate '", callee.value(), "' expects ");
                push_decimal(&mut m, n_ins as u64);
                m.append(" arguments but got ");
                push_decimal(&mut m, metas.len() as u64);
                diags.add(m);
            }
            let n = if n_ins < metas.len() {
                n_ins
            } else {
                metas.len()
            };
            let mut j: usize = 0;
            while j < n
                invariant
                    j <= n,
                    n <= callee_type.ins@.len(),
                    n <= metas@.len(),
                    ctx.subst == ck.subst,
                    ctx.scope == ck.scope,
                    ctx.ts == ck.ts,
                    forall|s: Map<u64, TyV>| #[trigger] queue_ok(ctx.constraints@, s) ==> queue_ok(
                        ck.constraints@,
                        s,
                    ) && forall|k: int|
                        0 <= k < j ==> match #[trigger] metas@[k] {
                            Some(m) => unifies(
                                subst_ty(callee_type.ins@[k]@, s),
                                subst_ty(m@, s),
                            ),
                            None => true,
                        },
                decreases n - j,
            {
                let ghost q = ctx.constraints@;
                match &metas[j] {
                    Some(m) => ctx.add_constraint(callee_type.ins[j].copy(), m.copy()),
                    None => {},
                }
                j = j + 1;
            }
            let n_outs = callee_type.outs.len();
            if n_outs != 1 {
                let mut m = concat3(
                    "expected predicate '",
                    callee.value(),
                    "' to return a single boolean expression but returns ",
                );
                push_decimal(&mut m, n_outs as u64);
                m.append(" expressions");
                diags.add(m);
            }
            let ghost q1 = ctx.constraints@;
            if n_outs >= 1 {
                let b = ctx.ts.bool_type();
                ctx.add_constraint(b, callee_type.outs[0].copy());
            }
            let ghost cu = *ctx;
            let context = concat3("on callsite to '", callee.value(), "'");
            let ok = unify_at(ctx, &mut diags, *span, context.as_str());
            proof {
                lemma_adds_step(ck, cu);
                lemma_kept_trans(c0, ck, cu);
                lemma_kept_trans(c0, cu, *ctx);
            }
            if diags.is_empty() && all_ok {
                let meta = ctx.ts.bool_type();
                let ghost fv = callee_type@;
                let ct = ctx.resolve(&Ty::Func(callee_type));
                let c = callee.with_meta(ct);
                proof {
                    let sf = smap(ctx.subst@);
                    lemma_unify_step(cu, *ctx);
                    lemma_step_trans(c0, ck, cu);
                    lemma_step_trans(c0, cu, *ctx);
                    lemma_args_shape(new_args@, args@);
                    assert(queue_ok(cu.constraints@, sf));
                    lemma_tys_view(callee_type.outs@);
                    crate::type_analysis::subst::lemma_tys(tys_view(callee_type.ins@), sf);
                    crate::type_analysis::subst::lemma_tys(tys_view(callee_type.outs@), sf);
                    lemma_tys_view(callee_type.ins@);
                    assert(queue_ok(q1, sf));
                    assert forall|k: int| 0 <= k < new_args@.len() implies unifies(
                        subst_tys(tys_view(callee_type.ins@), sf)[k],
                        subst_ty(#[trigger] new_args@[k].spec_meta()@, sf),
                    ) by {
                        assert(metas@[k] is Some);
                    }
                    lemma_kept_trans(ck, cu, *ctx);
                    assert forall|k: int| 0 <= k < new_args@.len() implies #[trigger] well_typed(
                        new_args@[k],
                        sf,
                    ) by {
                        lemma_typed_at(new_args@[k], ck, *ctx);
                    }
                    lemma_args_typed(new_args@, sf);
                }
                let res = Expression::Call { callee: c, args: new_args, span: *span, meta };
                proof {
                    lemma_node_at(res, *ctx);
                }
                Ok(res)
            } else {
                Err(diags.diags)
            }
        },
        _ => Err(Vec::new()),
    }
}

/// Checks `forall x in d, b` and `exists x in d, b`: a range domain has field element bounds and
/// binds a field element; an expression domain is an array and binds its element type; the body
/// is a boolean, checked with the binding in a scope of its own.
fn check_quantifier(
    ctx: &mut TypeInferenceCtx,
    source_name: &str,
    cfg: ExpressionTypeCheckerCfg,
    e: &Expression<()>,
) -> (r: TypingResult<Expression<Ty>>)
    requires
        old(ctx).wf(),
        e is Quantifier,
    ensures
        checked(*old(ctx), *final(ctx), *e, r),
    decreases e, 0nat,
{
    let ghost c0 = *ctx;
    match e {
        Expression::Quantifier { quantifier_kind, domain, binding, body, span, .. } => {
            let mut diags = Diagnostics::new(source_name, *span);
            let ghost cd: TypeInferenceCtx;
            let (binding_type, new_domain) = match domain {
                QuantifierDomain::Range { start, end, span: range_span } => {
                    proof {
                        assert(decreases_to!(e => domain));
                        assert(decreases_to!(domain => start));
                        assert(decreases_to!(domain => end));
                    }
                    let a = diags.extract_result(check_expression(ctx, source_name, cfg, start));
                    let ghost c1 = *ctx;
                    let b = diags.extract_result(check_expression(ctx, source_name, cfg, end));
                    let ghost c2 = *ctx;
                    let am = meta_of(&a);
                    let bm = meta_of(&b);
                    let f1 = ctx.ts.felt_type();
                    let f2 = ctx.ts.felt_type();
                    constrain_to(ctx, &am, f1);
                    constrain_to(ctx, &bm, f2);
                    proof {
                        lemma_adds_step(c2, *ctx);
                        lemma_kept_trans(c0, c1, c2);
                        lemma_kept_trans(c0, c2, *ctx);
                        if a is Some && b is Some {
                            lemma_step_trans(c0, c1, c2);
                            lemma_step_trans(c0, c2, *ctx);
                        }
                        cd = *ctx;
                    }
                    let d = match (a, b) {
                        (Some(a), Some(b)) => Some(
                            QuantifierDomain::Range {
                                start: Box::new(a),
                                end: Box::new(b),
                                span: *range_span,
                            },
                        ),
                        _ => None,
                    };
                    proof {
                        if d is Some {
                            assert(domain_shape(d->0, *domain));
                            lemma_kept_trans(c1, c2, cd);
                            lemma_typed_at(*d->0->start, c1, cd);
                            lemma_typed_at(*d->0->end, c2, cd);
                            assert(domain_typed(d->0, smap(cd.subst@)));
                        }
                    }
                    (ctx.ts.felt_type(), d)
                },
                QuantifierDomain::Expr(x) => {
                    proof {
                        assert(decreases_to!(e => domain));
                        assert(decreases_to!(domain => x));
                    }
                    let binding_type = ctx.ts.fresh_var();
                    let ghost c1 = *ctx;
                    let d = diags.extract_result(check_expression(ctx, source_name, cfg, x));
                    let ghost c2 = *ctx;
                    let dm = meta_of(&d);
                    match dm {
                        Some(m) => ctx.add_array_constraint(m, binding_type.copy()),
                        None => {},
                    }
                    proof {
                        lemma_step_refl(c0);
                        lemma_adds_step(c2, *ctx);
                        lemma_kept_trans(c0, c1, c2);
                        lemma_kept_trans(c0, c2, *ctx);
                        if d is Some {
                            lemma_step_trans(c0, c1, c2);
                            lemma_step_trans(c0, c2, *ctx);
                        }
                        cd = *ctx;
                    }
                    let nd = match d {
                        Some(d) => Some(QuantifierDomain::Expr(Box::new(d))),
                        None => None,
                    };
                    proof {
                        if nd is Some {
                            assert(domain_shape(nd->0, *domain));
                            lemma_typed_at(*nd->0->Expr_0, c2, cd);
                            assert(domain_typed(nd->0, smap(cd.subst@)));
                        }
                    }
                    (binding_type, nd)
                },
            };
            ctx.scope.push(());
            let bound = ctx.scope.top().bind_local(binding, binding_type.copy());
            diags.extract_type_result(bound, "on quantifier expression");
            let ghost cb = *ctx;
            let y = diags.extract_result(check_expression(ctx, source_name, cfg, body));
            let ghost cy = *ctx;
            ctx.scope.pop();
            let ghost cp = *ctx;
            let ym = meta_of(&y);
            let bt = ctx.ts.bool_type();
            constrain_to(ctx, &ym, bt);
            let ghost cu = *ctx;
            let context = concat3("in ", quantifier_kind.keyword(), " expression");
            let ok = unify_at(ctx, &mut diags, *span, context.as_str());
            proof {
                crate::type_analysis::subst::lemma_refines_trans(
                    smap(cy.subst@),
                    smap(cb.subst@),
                    smap(cd.subst@),
                );
                crate::type_analysis::subst::lemma_refines_trans(
                    smap(ctx.subst@),
                    smap(cu.subst@),
                    smap(cd.subst@),
                );
                crate::type_analysis::subst::lemma_refines_trans(
                    smap(ctx.subst@),
                    smap(cd.subst@),
                    smap(c0.subst@),
                );
            }
            if diags.is_empty() {
                match (new_domain, y) {
                    (Some(nd), Some(y)) => {
                        let bmeta = ctx.resolve(&binding_type);
                        let meta = ctx.ts.bool_type();
                        proof {
                            let sf = smap(ctx.subst@);
                            lemma_unify_step(cu, *ctx);
                            assert(queue_ok(cu.constraints@, sf));
                            assert(queue_ok(cp.constraints@, sf));
                            crate::type_analysis::subst::lemma_refines_trans(
                                sf,
                                smap(cy.subst@),
                                smap(cb.subst@),
                            );
                            assert(queue_ok(cb.constraints@, sf));
                            assert(queue_ok(cd.constraints@, sf));
                            assert forall|s: Map<u64, TyV>| #[trigger] queue_ok(
                                ctx.constraints@,
                                s,
                            ) && refines(s, sf) implies queue_ok(c0.constraints@, s) by {
                                crate::type_analysis::ctx::lemma_queue_refined(
                                    cd.constraints@,
                                    sf,
                                    s,
                                );
                                crate::type_analysis::subst::lemma_refines_trans(
                                    s,
                                    sf,
                                    smap(cd.subst@),
                                );
                            }
                            crate::type_analysis::typed::lemma_domain_typed_refined(
                                nd,
                                smap(cd.subst@),
                                sf,
                            );
                            lemma_well_typed_refined(y, smap(cy.subst@), sf);
                        }
                        let res = Expression::Quantifier {
                            quantifier_kind: *quantifier_kind,
                            binding: binding.with_meta(bmeta),
                            domain: nd,
                            body: Box::new(y),
                            span: *span,
                            meta,
                        };
                        proof {
                            lemma_node_at(res, *ctx);
                        }
                        Ok(res)
                    },
                    _ => Err(diags.diags),
                }
            } else {
                Err(diags.diags)
            }
        },
        _ => Err(Vec::new()),
    }
}

} // verus!
