//! Type checking of blocks, statements and the declarations that hold a block: predicates and
//! loop invariants.
//!
//! Which statements a block may hold depends on what declares it; a [`BlockTypeCheckerCfg`]
//! says so.
use vstd::prelude::*;
use crate::ast::{Block, Identifier, InvariantDecl, PredicateDecl, Span, Statement};
use crate::text::{concat3, decimal, push_decimal};
use crate::type_analysis::error::{TypeAnalysisError, error_text};
use crate::type_analysis::ctx::{TypeInferenceCtx, queue_ok, smap};
use crate::type_analysis::expression::{
    ExpressionTypeCheckerCfg, known_ty, known_ty_in, lemma_known_mono, lemma_known_ty, lemma_same_names_eq,
    lemma_same_names_trans, lemma_preds_eq, lemma_preds_trans, preds_kept,
    literal_ty, local_ty, same_names, check_expression, ctx_kept, expr_shape, ident_shape,
    lemma_kept_trans, lemma_step_refl, unify_at,
};
use crate::type_analysis::helpers::{Diagnostics, TypingResult, is_diag};
use crate::type_analysis::scope::{lookup_loop, lookup_local};
use crate::type_analysis::subst::{lemma_unifies_refined, refines, subst_ty, unifies};
use crate::type_analysis::typed::{lemma_well_typed_refined, well_typed};
use crate::types::{FnTy, Ty, TyV, tys_view};

verus! {

/// Which statements a block may hold.
#[derive(Clone, Copy)]
pub struct BlockTypeCheckerCfg {
    /// Whether `invariant for ..` declarations are allowed.
    pub allows_invariants: bool,
    /// Whether `compute` and `constrain` statements are allowed.
    pub allows_scoped: bool,
    /// Whether `ensure` and `require` statements are allowed.
    pub allows_ensure_and_require: bool,
    /// Whether `return` statements are allowed.
    pub allows_return: bool,
    /// Whether `increases`, `decreases` and `step` statements are allowed.
    pub allows_invariant_stmts: bool,
    /// Whether `$arg[N]` is allowed in expressions.
    pub allows_arg: bool,
}

/// Whether the configuration allows a statement of the kind of `s`.
pub open spec fn stmt_allowed(s: Statement<()>, cfg: BlockTypeCheckerCfg) -> bool {
    match s {
        Statement::Scoped { .. } => cfg.allows_scoped,
        Statement::Require { .. } => cfg.allows_ensure_and_require,
        Statement::Ensure { .. } => cfg.allows_ensure_and_require,
        Statement::Return { .. } => cfg.allows_return,
        Statement::Increases { .. } => cfg.allows_invariant_stmts,
        Statement::Decreases { .. } => cfg.allows_invariant_stmts,
        Statement::Step { .. } => cfg.allows_invariant_stmts,
        Statement::Invariant(_) => cfg.allows_invariants,
        _ => true,
    }
}

/// The word that names the kind of a statement that a configuration may refuse.
pub open spec fn stmt_word(s: Statement<()>) -> Seq<char> {
    match s {
        Statement::Scoped { .. } => "scoped block"@,
        Statement::Require { .. } => "require"@,
        Statement::Ensure { .. } => "ensure"@,
        Statement::Return { .. } => "return"@,
        Statement::Increases { .. } => "increases"@,
        Statement::Decreases { .. } => "decreases"@,
        Statement::Step { .. } => "step"@,
        Statement::Invariant(_) => "invariant declaration"@,
        _ => Seq::empty(),
    }
}

/// Where a statement that a configuration may refuse stands.
pub open spec fn stmt_span(s: Statement<()>) -> Span {
    match s {
        Statement::Scoped { span, .. } => span,
        Statement::Require { span, .. } => span,
        Statement::Ensure { span, .. } => span,
        Statement::Return { span, .. } => span,
        Statement::Increases { span, .. } => span,
        Statement::Decreases { span, .. } => span,
        Statement::Step { span, .. } => span,
        Statement::Invariant(decl) => decl.span,
        Statement::Let { span, .. } => span,
        Statement::Unused { span, .. } => span,
        Statement::Empty { span } => span,
        Statement::Block(b) => b.span,
        Statement::Predicate(decl) => decl.span,
    }
}

/// The checker of the expressions of a statement in a block of the configuration `cfg`.
pub open spec fn stmt_expr_cfg(cfg: BlockTypeCheckerCfg, allows_old: bool) -> ExpressionTypeCheckerCfg {
    ExpressionTypeCheckerCfg { allows_old, allows_arg: cfg.allows_arg }
}

/// A statement that the configuration allows and whose expression is made of literals and
/// operators alone, of the type the statement asks for: a boolean for `require`, `ensure` and
/// `step`, a field element for `increases` and `decreases`, any for `return`. It needs no name
/// and no inference.
pub open spec fn literal_stmt(s: Statement<()>, cfg: BlockTypeCheckerCfg) -> bool
    decreases s,
{
    stmt_allowed(s, cfg) && match s {
        Statement::Scoped { statement, .. } => literal_stmt(*statement, cfg),
        Statement::Require { expression, .. } => literal_ty(expression, stmt_expr_cfg(cfg, false))
            == Some(TyV::Bool),
        Statement::Ensure { expression, .. } => literal_ty(expression, stmt_expr_cfg(cfg, false))
            == Some(TyV::Bool),
        Statement::Step { expression, .. } => literal_ty(expression, stmt_expr_cfg(cfg, true))
            == Some(TyV::Bool),
        Statement::Increases { expression, .. } => literal_ty(expression, stmt_expr_cfg(cfg, false))
            == Some(TyV::Felt),
        Statement::Decreases { expression, .. } => literal_ty(expression, stmt_expr_cfg(cfg, false))
            == Some(TyV::Felt),
        Statement::Return { expression, .. } => literal_ty(expression, stmt_expr_cfg(cfg, false))
            is Some,
        Statement::Empty { .. } => true,
        _ => false,
    }
}

/// A statement that the configuration allows and whose expression has a known type under
/// `names` (see [`known_ty_in`]), the type the statement asks for: a boolean for `require`,
/// `ensure` and `step`, a field element for `increases` and `decreases`, any for `return`.
pub open spec fn known_stmt_in(
    s: Statement<()>,
    cfg: BlockTypeCheckerCfg,
    names: spec_fn(Seq<char>) -> Option<TyV>,
) -> bool {
    stmt_allowed(s, cfg) && match s {
        Statement::Require { expression, .. } => known_ty_in(expression, stmt_expr_cfg(cfg, false), names)
            == Some(TyV::Bool),
        Statement::Ensure { expression, .. } => known_ty_in(expression, stmt_expr_cfg(cfg, false), names)
            == Some(TyV::Bool),
        Statement::Step { expression, .. } => known_ty_in(expression, stmt_expr_cfg(cfg, true), names)
            == Some(TyV::Bool),
        Statement::Increases { expression, .. } => known_ty_in(
            expression,
            stmt_expr_cfg(cfg, false),
            names,
        ) == Some(TyV::Felt),
        Statement::Decreases { expression, .. } => known_ty_in(
            expression,
            stmt_expr_cfg(cfg, false),
            names,
        ) == Some(TyV::Felt),
        Statement::Return { expression, .. } => known_ty_in(expression, stmt_expr_cfg(cfg, false), names)
            is Some,
        Statement::Empty { .. } => true,
        _ => false,
    }
}

/// [`known_stmt_in`] with the names of the locals of the context `c`.
pub open spec fn known_stmt(s: Statement<()>, cfg: BlockTypeCheckerCfg, c: TypeInferenceCtx) -> bool {
    known_stmt_in(s, cfg, |k: Seq<char>| crate::type_analysis::expression::local_ty(c, k))
}

/// A known statement stays known where each name of boolean or field element type keeps its
/// type.
pub proof fn lemma_known_stmt_mono(
    s: Statement<()>,
    cfg: BlockTypeCheckerCfg,
    n1: spec_fn(Seq<char>) -> Option<TyV>,
    n2: spec_fn(Seq<char>) -> Option<TyV>,
)
    requires
        forall|k: Seq<char>| (#[trigger] n1(k) == Some(TyV::Bool) || n1(k) == Some(TyV::Felt)) ==> n2(k) == n1(k),
    ensures
        known_stmt_in(s, cfg, n1) ==> known_stmt_in(s, cfg, n2),
{
    match s {
        Statement::Require { expression, .. } => lemma_known_mono(expression, stmt_expr_cfg(cfg, false), n1, n2),
        Statement::Ensure { expression, .. } => lemma_known_mono(expression, stmt_expr_cfg(cfg, false), n1, n2),
        Statement::Step { expression, .. } => lemma_known_mono(expression, stmt_expr_cfg(cfg, true), n1, n2),
        Statement::Increases { expression, .. } => lemma_known_mono(expression, stmt_expr_cfg(cfg, false), n1, n2),
        Statement::Decreases { expression, .. } => lemma_known_mono(expression, stmt_expr_cfg(cfg, false), n1, n2),
        Statement::Return { expression, .. } => lemma_known_mono(expression, stmt_expr_cfg(cfg, false), n1, n2),
        _ => {},
    }
}

/// A statement known in one context is known in another that gives names the same meaning.
pub proof fn lemma_known_stmt_same(s: Statement<()>, cfg: BlockTypeCheckerCfg, a: TypeInferenceCtx, b: TypeInferenceCtx)
    requires
        same_names(a, b),
    ensures
        known_stmt(s, cfg, a) ==> known_stmt(s, cfg, b),
{
    let na = |k: Seq<char>| crate::type_analysis::expression::local_ty(a, k);
    let nb = |k: Seq<char>| crate::type_analysis::expression::local_ty(b, k);
    assert(na =~= nb);
}

/// [`ident_shape`] pairwise on two sequences of identifiers.
pub open spec fn idents_shape<M, N>(a: Seq<Identifier<M>>, b: Seq<Identifier<N>>) -> bool {
    a.len() == b.len() && forall|i: int| 0 <= i < a.len() ==> #[trigger] ident_shape(a[i], b[i])
}

/// `t` is `s` with metadata attached: the same kinds of statements, names and spans, and
/// expressions of the same shape, all the way down.
pub open spec fn stmt_shape(t: Statement<Ty>, s: Statement<()>) -> bool
    decreases s,
{
    match (t, s) {
        (
            Statement::Scoped { scope: a, statement: x, span: p },
            Statement::Scoped { scope: b, statement: y, span: q },
        ) => a == b && p == q && stmt_shape(*x, *y),
        (Statement::Block(a), Statement::Block(b)) => block_shape(a, b),
        (
            Statement::Require { expression: x, span: p },
            Statement::Require { expression: y, span: q },
        ) => p == q && expr_shape(x, y),
        (
            Statement::Ensure { expression: x, span: p },
            Statement::Ensure { expression: y, span: q },
        ) => p == q && expr_shape(x, y),
        (
            Statement::Let { name: n1, value: x, span: p },
            Statement::Let { name: n2, value: y, span: q },
        ) => p == q && ident_shape(n1, n2) && expr_shape(x, y),
        (Statement::Unused { name: n1, span: p }, Statement::Unused { name: n2, span: q }) => p
            == q && ident_shape(n1, n2),
        (
            Statement::Return { expression: x, span: p },
            Statement::Return { expression: y, span: q },
        ) => p == q && expr_shape(x, y),
        (
            Statement::Increases { expression: x, span: p },
            Statement::Increases { expression: y, span: q },
        ) => p == q && expr_shape(x, y),
        (
            Statement::Decreases { expression: x, span: p },
            Statement::Decreases { expression: y, span: q },
        ) => p == q && expr_shape(x, y),
        (Statement::Step { expression: x, span: p }, Statement::Step { expression: y, span: q }) =>
            p == q && expr_shape(x, y),
        (Statement::Invariant(a), Statement::Invariant(b)) => invariant_shape(a, b),
        (Statement::Predicate(a), Statement::Predicate(b)) => predicate_shape(a, b),
        (Statement::Empty { span: p }, Statement::Empty { span: q }) => p == q,
        _ => false,
    }
}

/// [`stmt_shape`] pairwise on two sequences of statements.
pub open spec fn stmts_shape(ts: Seq<Statement<Ty>>, ss: Seq<Statement<()>>) -> bool
    decreases ss,
{
    if ts.len() != ss.len() {
        false
    } else if ss.len() == 0 {
        true
    } else {
        stmt_shape(ts[0], ss[0]) && stmts_shape(
            ts.subrange(1, ts.len() as int),
            ss.subrange(1, ss.len() as int),
        )
    }
}

/// [`stmt_shape`] on blocks.
pub open spec fn block_shape(t: Block<Ty>, b: Block<()>) -> bool
    decreases b,
{
    t.span == b.span && stmts_shape(t.statements@, b.statements@)
}

/// [`stmt_shape`] on loop invariant declarations.
pub open spec fn invariant_shape(t: InvariantDecl<Ty>, d: InvariantDecl<()>) -> bool
    decreases d,
{
    t.span == d.span && ident_shape(t.loop_name, d.loop_name) && idents_shape(
        t.bindings@,
        d.bindings@,
    ) && block_shape(t.body, d.body)
}

/// [`stmt_shape`] on predicate declarations.
pub open spec fn predicate_shape(t: PredicateDecl<Ty>, d: PredicateDecl<()>) -> bool
    decreases d,
{
    t.span == d.span && ident_shape(t.name, d.name) && idents_shape(t.params@, d.params@)
        && block_shape(t.body, d.body)
}

/// The typing rule of a checked statement holds under the substitution `s`: conditions are
/// booleans, measures are field elements, and a local has the type of its value.
pub open spec fn stmt_rule(t: Statement<Ty>, s: Map<u64, TyV>) -> bool {
    match t {
        Statement::Require { expression, .. } => unifies(
            TyV::Bool,
            subst_ty(expression.spec_meta()@, s),
        ),
        Statement::Ensure { expression, .. } => unifies(
            TyV::Bool,
            subst_ty(expression.spec_meta()@, s),
        ),
        Statement::Step { expression, .. } => unifies(TyV::Bool, subst_ty(expression.spec_meta()@, s)),
        Statement::Increases { expression, .. } => unifies(
            TyV::Felt,
            subst_ty(expression.spec_meta()@, s),
        ),
        Statement::Decreases { expression, .. } => unifies(
            TyV::Felt,
            subst_ty(expression.spec_meta()@, s),
        ),
        Statement::Let { name, value, .. } => name.meta@ == value.spec_meta()@,
        _ => true,
    }
}

/// Every statement and expression of `t` follows its typing rule under `s`.
pub open spec fn stmt_typed(t: Statement<Ty>, s: Map<u64, TyV>) -> bool
    decreases t,
{
    match t {
        Statement::Scoped { statement, .. } => stmt_typed(*statement, s),
        Statement::Block(b) => block_typed(b, s),
        Statement::Require { expression, .. } => unifies(
            TyV::Bool,
            subst_ty(expression.spec_meta()@, s),
        ) && well_typed(expression, s),
        Statement::Ensure { expression, .. } => unifies(
            TyV::Bool,
            subst_ty(expression.spec_meta()@, s),
        ) && well_typed(expression, s),
        Statement::Step { expression, .. } => unifies(TyV::Bool, subst_ty(expression.spec_meta()@, s))
            && well_typed(expression, s),
        Statement::Increases { expression, .. } => unifies(
            TyV::Felt,
            subst_ty(expression.spec_meta()@, s),
        ) && well_typed(expression, s),
        Statement::Decreases { expression, .. } => unifies(
            TyV::Felt,
            subst_ty(expression.spec_meta()@, s),
        ) && well_typed(expression, s),
        Statement::Let { name, value, .. } => name.meta@ == value.spec_meta()@ && well_typed(value, s),
        Statement::Return { expression, .. } => well_typed(expression, s),
        Statement::Invariant(d) => block_typed(d.body, s),
        Statement::Predicate(d) => block_typed(d.body, s),
        _ => true,
    }
}

/// [`stmt_typed`] on each statement of a sequence.
pub open spec fn stmts_typed(ts: Seq<Statement<Ty>>, s: Map<u64, TyV>) -> bool
    decreases ts,
{
    if ts.len() == 0 {
        true
    } else {
        stmt_typed(ts[0], s) && stmts_typed(ts.subrange(1, ts.len() as int), s)
    }
}

/// [`stmt_typed`] on each statement of a block.
pub open spec fn block_typed(b: Block<Ty>, s: Map<u64, TyV>) -> bool
    decreases b,
{
    stmts_typed(b.statements@, s)
}

/// A well-typed statement stays well typed when the substitution is refined.
pub proof fn lemma_stmt_typed_refined(t: Statement<Ty>, s1: Map<u64, TyV>, s2: Map<u64, TyV>)
    requires
        stmt_typed(t, s1),
        refines(s2, s1),
    ensures
        stmt_typed(t, s2),
    decreases t,
{
    match t {
        Statement::Scoped { statement, .. } => {
            lemma_stmt_typed_refined(*statement, s1, s2);
        },
        Statement::Block(b) => {
            lemma_block_typed_refined(b, s1, s2);
        },
        Statement::Require { expression, .. } => {
            lemma_unifies_refined(TyV::Bool, expression.spec_meta()@, s1, s2);
            lemma_well_typed_refined(expression, s1, s2);
        },
        Statement::Ensure { expression, .. } => {
            lemma_unifies_refined(TyV::Bool, expression.spec_meta()@, s1, s2);
            lemma_well_typed_refined(expression, s1, s2);
        },
        Statement::Step { expression, .. } => {
            lemma_unifies_refined(TyV::Bool, expression.spec_meta()@, s1, s2);
            lemma_well_typed_refined(expression, s1, s2);
        },
        Statement::Increases { expression, .. } => {
            lemma_unifies_refined(TyV::Felt, expression.spec_meta()@, s1, s2);
            lemma_well_typed_refined(expression, s1, s2);
        },
        Statement::Decreases { expression, .. } => {
            lemma_unifies_refined(TyV::Felt, expression.spec_meta()@, s1, s2);
            lemma_well_typed_refined(expression, s1, s2);
        },
        Statement::Let { value, .. } => {
            lemma_well_typed_refined(value, s1, s2);
        },
        Statement::Return { expression, .. } => {
            lemma_well_typed_refined(expression, s1, s2);
        },
        Statement::Invariant(d) => {
            lemma_block_typed_refined(d.body, s1, s2);
        },
        Statement::Predicate(d) => {
            lemma_block_typed_refined(d.body, s1, s2);
        },
        _ => {},
    }
}

/// [`lemma_stmt_typed_refined`] on each statement of a sequence.
pub proof fn lemma_stmts_typed_refined(ts: Seq<Statement<Ty>>, s1: Map<u64, TyV>, s2: Map<u64, TyV>)
    requires
        stmts_typed(ts, s1),
        refines(s2, s1),
    ensures
        stmts_typed(ts, s2),
    decreases ts,
{
    if ts.len() > 0 {
        lemma_stmt_typed_refined(ts[0], s1, s2);
        lemma_stmts_typed_refined(ts.subrange(1, ts.len() as int), s1, s2);
    }
}

/// [`lemma_stmt_typed_refined`] on a block.
pub proof fn lemma_block_typed_refined(b: Block<Ty>, s1: Map<u64, TyV>, s2: Map<u64, TyV>)
    requires
        block_typed(b, s1),
        refines(s2, s1),
    ensures
        block_typed(b, s2),
    decreases b,
{
    lemma_stmts_typed_refined(b.statements@, s1, s2);
}

/// [`stmt_typed`] of each element gives [`stmts_typed`] of the sequence.
pub proof fn lemma_stmts_typed(ts: Seq<Statement<Ty>>, s: Map<u64, TyV>)
    requires
        forall|j: int| 0 <= j < ts.len() ==> #[trigger] stmt_typed(ts[j], s),
    ensures
        stmts_typed(ts, s),
    decreases ts.len(),
{
    if ts.len() > 0 {
        let rest = ts.subrange(1, ts.len() as int);
        assert forall|j: int| 0 <= j < rest.len() implies #[trigger] stmt_typed(rest[j], s) by {
            assert(rest[j] == ts[j + 1]);
        }
        lemma_stmts_typed(rest, s);
        assert(stmt_typed(ts[0], s));
    }
}

/// A checked predicate body ends with its only `return` statement.
pub open spec fn returns_last(b: Block<Ty>) -> bool {
    let ss = b.statements@;
    ss.len() > 0 && ss.last() is Return && forall|i: int| 0 <= i < ss.len() - 1 ==> !(#[trigger] ss[i] is Return)
}

/// What checking a statement leaves of the context: [`ctx_kept`] and no pending constraint.
pub open spec fn stmt_ctx(o: TypeInferenceCtx, n: TypeInferenceCtx) -> bool {
    ctx_kept(o, n) && n.constraints@.len() == 0
}

/// The checkers of expressions allowed in a block of the given configuration.
fn expr_cfg(cfg: BlockTypeCheckerCfg, allows_old: bool) -> (r: ExpressionTypeCheckerCfg)
    ensures
        r.allows_old == allows_old,
        r.allows_arg == cfg.allows_arg,
{
    ExpressionTypeCheckerCfg::new_with_cfg(allows_old, cfg.allows_arg)
}

/// The message of a statement that the context does not allow.
fn not_allowed(what: &str) -> (r: String)
    ensures
        r@ == what@ + " statement is not allowed in this context"@,
{
    let mut m = what.to_owned();
    m.append(" statement is not allowed in this context");
    m
}

/// Checks an expression that must have the type `expected`, as the statement at `span`
/// requires; `context` locates the failures of unification.
fn check_typed_expression(
    ctx: &mut TypeInferenceCtx,
    source_name: &str,
    ecfg: ExpressionTypeCheckerCfg,
    e: &crate::ast::Expression<()>,
    expected: Ty,
    span: Span,
    context: &str,
    diags: &mut Diagnostics,
) -> (r: Option<crate::ast::Expression<Ty>>)
    requires
        old(ctx).wf(),
        old(ctx).constraints@.len() == 0,
    ensures
        stmt_ctx(*old(ctx), *final(ctx)),
        final(diags).diags@.len() >= old(diags).diags@.len(),
        final(diags).source_name == old(diags).source_name,
        final(diags).span == old(diags).span,
        r is None ==> final(diags).diags@.len() > old(diags).diags@.len(),
        r is Some ==> final(diags).diags == old(diags).diags,
        known_ty(*e, ecfg, *old(ctx)) == Some(expected@) ==> r is Some && final(ctx).subst@ == old(
            ctx,
        ).subst@ && same_names(*old(ctx), *final(ctx)) && preds_kept(*old(ctx), *final(ctx)),
        literal_ty(*e, ecfg) == Some(expected@) ==> r is Some,
        match r {
            Some(t) => expr_shape(t, *e) && unifies(
                subst_ty(expected@, smap(final(ctx).subst@)),
                subst_ty(t.spec_meta()@, smap(final(ctx).subst@)),
            ) && well_typed(t, smap(final(ctx).subst@)),
            None => true,
        },
{
    let ghost c0 = *ctx;
    proof {
        lemma_known_ty(*e, ecfg, c0, c0);
    }
    let r = check_expression(ctx, source_name, ecfg, e);
    let ghost c1 = *ctx;
    match r {
        Ok(t) => {
            ctx.add_constraint(expected, t.meta().copy());
            let ghost cu = *ctx;
            proof {
                if known_ty(*e, ecfg, c0) == Some(expected@) {
                    assert(cu.constraints@.len() == 0);
                    assert(queue_ok(cu.constraints@, smap(cu.subst@)));
                    lemma_same_names_eq(c1, cu);
                    lemma_preds_eq(c1, cu);
                }
            }
            let ok = unify_at(ctx, diags, span, context);
            proof {
                lemma_kept_trans(c0, c1, *ctx);
            }
            if ok {
                proof {
                    if known_ty(*e, ecfg, c0) == Some(expected@) {
                        lemma_same_names_trans(c0, c1, cu);
                        lemma_same_names_trans(c0, cu, *ctx);
                        lemma_preds_trans(c0, c1, cu);
                        lemma_preds_trans(c0, cu, *ctx);
                    }
                    assert(queue_ok(cu.constraints@, smap(ctx.subst@)));
                    assert(cu.subst == c1.subst);
                    lemma_well_typed_refined(t, smap(cu.subst@), smap(ctx.subst@));
                }
                Some(t)
            } else {
                None
            }
        },
        Err(ds) => {
            diags.extract_result::<()>(Err(ds));
            None
        },
    }
}

/// Checks a statement of a block whose configuration is `cfg`. On success the result has the
/// shape of `s` and its typing rule holds under the new substitution; a statement that the
/// configuration does not allow fails with one diagnostic that names it, and a
/// [`literal_stmt`] is accepted.
pub fn check_statement(
    ctx: &mut TypeInferenceCtx,
    source_name: &str,
    cfg: BlockTypeCheckerCfg,
    s: &Statement<()>,
) -> (r: TypingResult<Statement<Ty>>)
    requires
        old(ctx).wf(),
        old(ctx).constraints@.len() == 0,
    ensures
        stmt_ctx(*old(ctx), *final(ctx)),
        match r {
            Ok(t) => stmt_shape(t, *s) && stmt_rule(t, smap(final(ctx).subst@)) && stmt_typed(
                t,
                smap(final(ctx).subst@),
            ),
            Err(ds) => ds@.len() > 0,
        },
        !stmt_allowed(*s, cfg) ==> (r matches Err(ds) && ds@.len() == 1 && is_diag(
            ds@[0],
            source_name@,
            stmt_word(*s) + " statement is not allowed in this context"@,
            Some(stmt_span(*s)),
        )),
        literal_stmt(*s, cfg) ==> r is Ok,
        known_stmt(*s, cfg, *old(ctx)) ==> r is Ok && final(ctx).subst@ == old(ctx).subst@ && same_names(
            *old(ctx),
            *final(ctx),
        ) && preds_kept(*old(ctx), *final(ctx)),
        match s {
            Statement::Return { expression, .. } => known_stmt(*s, cfg, *old(ctx)) ==> (r matches Ok(
                Statement::Return { expression: x, .. },
            ) && Some(x.spec_meta()@) == known_ty(*expression, stmt_expr_cfg(cfg, false), *old(ctx))),
            _ => true,
        },
        s matches Statement::Unused { name, .. } ==> (r is Ok <==> lookup_local(
            old(ctx).scope.scopes@,
            name.name.name@,
        ) is Some),
    decreases s,
{
    let ghost c0 = *ctx;
    proof {
        lemma_step_refl(c0);
        match s {
            Statement::Return { expression, .. } => lemma_known_ty(
                *expression,
                stmt_expr_cfg(cfg, false),
                c0,
                c0,
            ),
            _ => {},
        }
    }
    match s {
        Statement::Scoped { scope, statement, span } => {
            let mut diags = Diagnostics::new(source_name, *span);
            if !cfg.allows_scoped {
                diags.add(not_allowed("scoped block"));
                return Err(diags.diags);
            }
            ctx.scope.push(());
            let inner = check_statement(ctx, source_name, cfg, statement);
            ctx.scope.pop();
            match inner {
                Ok(t) => Ok(Statement::Scoped { scope: *scope, statement: Box::new(t), span: *span }),
                Err(ds) => Err(ds),
            }
        },
        Statement::Block(block) => {
            ctx.scope.push(());
            let inner = check_block(ctx, source_name, cfg, block);
            ctx.scope.pop();
            match inner {
                Ok(b) => Ok(Statement::Block(b)),
                Err(ds) => Err(ds),
            }
        },
        Statement::Require { expression, span } => {
            let mut diags = Diagnostics::new(source_name, *span);
            if !cfg.allows_ensure_and_require {
                diags.add(not_allowed("require"));
                return Err(diags.diags);
            }
            let b = ctx.ts.bool_type();
            match check_typed_expression(
                ctx,
                source_name,
                expr_cfg(cfg, false),
                expression,
                b,
                *span,
                "on require statement",
                &mut diags,
            ) {
                Some(x) => Ok(Statement::Require { expression: x, span: *span }),
                None => Err(diags.diags),
            }
        },
        Statement::Ensure { expression, span } => {
            let mut diags = Diagnostics::new(source_name, *span);
            if !cfg.allows_ensure_and_require {
                diags.add(not_allowed("ensure"));
                return Err(diags.diags);
            }
            let b = ctx.ts.bool_type();
            match check_typed_expression(
                ctx,
                source_name,
                expr_cfg(cfg, false),
                expression,
                b,
                *span,
                "on ensure statement",
                &mut diags,
            ) {
                Some(x) => Ok(Statement::Ensure { expression: x, span: *span }),
                None => Err(diags.diags),
            }
        },
        Statement::Let { name, value, span } => {
            let mut diags = Diagnostics::new(source_name, *span);
            let v = diags.extract_result(check_expression(ctx, source_name, expr_cfg(cfg, false), value));
            match v {
                Some(v) => {
                    let bound = ctx.scope.top().bind_local(name, v.meta().copy());
                    diags.extract_type_result(bound, "in let statement");
                    if diags.is_empty() {
                        let n = name.with_meta(v.meta().copy());
                        Ok(Statement::Let { name: n, value: v, span: *span })
                    } else {
                        Err(diags.diags)
                    }
                },
                None => Err(diags.diags),
            }
        },
        Statement::Unused { name, span } => {
            let diags = Diagnostics::new(source_name, *span);
            match ctx.scope.find_local(name) {
                Ok(t) => Ok(Statement::Unused { name: name.with_meta(t.copy()), span: *span }),
                Err(err) => {
                    let context = concat3("on symbol '", name.value(), "'");
                    let mut d = diags;
                    d.add_type_err(&err, context.as_str());
                    Err(d.diags)
                },
            }
        },
        Statement::Return { expression, span } => {
            let mut diags = Diagnostics::new(source_name, *span);
            if !cfg.allows_return {
                diags.add(not_allowed("return"));
                return Err(diags.diags);
            }
            match check_expression(ctx, source_name, expr_cfg(cfg, false), expression) {
                Ok(x) => Ok(Statement::Return { expression: x, span: *span }),
                Err(ds) => Err(ds),
            }
        },
        Statement::Increases { expression, span } => {
            let mut diags = Diagnostics::new(source_name, *span);
            if !cfg.allows_invariant_stmts {
                diags.add(not_allowed("increases"));
                return Err(diags.diags);
            }
            let f = ctx.ts.felt_type();
            match check_typed_expression(
                ctx,
                source_name,
                expr_cfg(cfg, false),
                expression,
                f,
                *span,
                "on increases statement",
                &mut diags,
            ) {
                Some(x) => Ok(Statement::Increases { expression: x, span: *span }),
                None => Err(diags.diags),
            }
        },
        Statement::Decreases { expression, span } => {
            let mut diags = Diagnostics::new(source_name, *span);
            if !cfg.allows_invariant_stmts {
                diags.add(not_allowed("decreases"));
                return Err(diags.diags);
            }
            let f = ctx.ts.felt_type();
            match check_typed_expression(
                ctx,
                source_name,
                expr_cfg(cfg, false),
                expression,
                f,
                *span,
                "on decreases statement",
                &mut diags,
            ) {
                Some(x) => Ok(Statement::Decreases { expression: x, span: *span }),
                None => Err(diags.diags),
            }
        },
        Statement::Step { expression, span } => {
            let mut diags = Diagnostics::new(source_name, *span);
            if !cfg.allows_invariant_stmts {
                diags.add(not_allowed("step"));
                return Err(diags.diags);
            }
            let b = ctx.ts.bool_type();
            match check_typed_expression(
                ctx,
                source_name,
                expr_cfg(cfg, true),
                expression,
                b,
                *span,
                "on step statement",
                &mut diags,
            ) {
                Some(x) => Ok(Statement::Step { expression: x, span: *span }),
                None => Err(diags.diags),
            }
        },
        Statement::Invariant(decl) => {
            let mut diags = Diagnostics::new(source_name, decl.span);
            if !cfg.allows_invariants {
                diags.add(not_allowed("invariant declaration"));
                return Err(diags.diags);
            }
            match check_invariant_decl(ctx, source_name, decl) {
                Ok(d) => Ok(Statement::Invariant(d)),
                Err(ds) => Err(ds),
            }
        },
        Statement::Predicate(decl) => match check_predicate_decl(ctx, source_name, decl) {
            Ok(d) => Ok(Statement::Predicate(d)),
            Err(ds) => Err(ds),
        },
        Statement::Empty { span } => Ok(Statement::Empty { span: *span }),
    }
}

/// Checks the statements of a block, in order, in the current scope. Every statement is
/// checked, so that the diagnostics of all of them are reported; the block fails if one of them
/// does.
pub fn check_block(
    ctx: &mut TypeInferenceCtx,
    source_name: &str,
    cfg: BlockTypeCheckerCfg,
    block: &Block<()>,
) -> (r: TypingResult<Block<Ty>>)
    requires
        old(ctx).wf(),
        old(ctx).constraints@.len() == 0,
    ensures
        stmt_ctx(*old(ctx), *final(ctx)),
        match r {
            Ok(b) => block_shape(b, *block) && block_typed(b, smap(final(ctx).subst@)),
            Err(ds) => ds@.len() > 0,
        },
        (exists|i: int|
            0 <= i < block.statements@.len() && !stmt_allowed(#[trigger] block.statements@[i], cfg))
            ==> r is Err,
        (forall|i: int|
            0 <= i < block.statements@.len() ==> literal_stmt(#[trigger] block.statements@[i], cfg))
            ==> r is Ok,
        (forall|i: int|
            0 <= i < block.statements@.len() ==> known_stmt(#[trigger] block.statements@[i], cfg, *old(ctx)))
            ==> r is Ok && final(ctx).subst@ == old(ctx).subst@ && same_names(*old(ctx), *final(ctx))
            && preds_kept(*old(ctx), *final(ctx)),
        (forall|i: int|
            0 <= i < block.statements@.len() ==> known_stmt(#[trigger] block.statements@[i], cfg, *old(ctx)))
            ==> (r matches Ok(b) && b.statements@.len() == block.statements@.len() && forall|i: int|
            0 <= i < block.statements@.len() ==> match #[trigger] block.statements@[i] {
                Statement::Return { expression, .. } => b.statements@[i] matches Statement::Return {
                    expression: x,
                    ..
                } && Some(x.spec_meta()@) == known_ty(expression, stmt_expr_cfg(cfg, false), *old(ctx)),
                _ => !(b.statements@[i] is Return),
            }),
    decreases block,
{
    let ghost c0 = *ctx;
    proof {
        lemma_step_refl(c0);
        assert forall|k: int| 0 <= k < block.statements@.len() implies decreases_to!(block => #[trigger] block.statements@[k]) by {
            assert(decreases_to!(block => block.statements));
            assert(decreases_to!(block.statements => block.statements@[k]));
        }
    }
    let mut errs: Vec<crate::diagnostic::Diagnostic> = Vec::new();
    let mut results: Vec<Statement<Ty>> = Vec::new();
    let mut i: usize = 0;
    while i < block.statements.len()
        invariant
            i <= block.statements@.len(),
            ctx.wf(),
            stmt_ctx(c0, *ctx),
            errs@.len() == 0 ==> results@.len() == i,
            errs@.len() == 0 ==> forall|j: int| 0 <= j < i ==> #[trigger] stmt_shape(results@[j], block.statements@[j]),
            errs@.len() == 0 ==> forall|j: int| 0 <= j < i ==> stmt_allowed(#[trigger] block.statements@[j], cfg),
            errs@.len() == 0 ==> forall|j: int|
                0 <= j < i ==> #[trigger] stmt_typed(results@[j], smap(ctx.subst@)),
            forall|k: int| 0 <= k < block.statements@.len() ==> decreases_to!(block => #[trigger] block.statements@[k]),
            (forall|k: int|
                0 <= k < block.statements@.len() ==> literal_stmt(#[trigger] block.statements@[k], cfg))
                ==> errs@.len() == 0,
            (forall|k: int|
                0 <= k < block.statements@.len() ==> known_stmt(#[trigger] block.statements@[k], cfg, c0))
                ==> errs@.len() == 0 && ctx.subst@ == c0.subst@ && same_names(c0, *ctx) && preds_kept(
                c0,
                *ctx,
            ) && forall|j: int|
                0 <= j < i ==> match #[trigger] block.statements@[j] {
                    Statement::Return { expression, .. } => results@[j] matches Statement::Return {
                        expression: x,
                        ..
                    } && Some(x.spec_meta()@) == known_ty(expression, stmt_expr_cfg(cfg, false), c0),
                    _ => !(results@[j] is Return),
                },
        decreases block.statements@.len() - i,
    {
        let ghost ci = *ctx;
        proof {
            if forall|k: int|
                0 <= k < block.statements@.len() ==> known_stmt(#[trigger] block.statements@[k], cfg, c0) {
                assert(known_stmt(block.statements@[i as int], cfg, c0));
                lemma_known_stmt_same(block.statements@[i as int], cfg, c0, ci);
                match block.statements@[i as int] {
                    Statement::Return { expression, .. } => {
                        lemma_known_ty(expression, stmt_expr_cfg(cfg, false), c0, ci);
                    },
                    _ => {},
                }
            }
        }
        let r = check_statement(ctx, source_name, cfg, &block.statements[i]);
        proof {
            lemma_kept_trans(c0, ci, *ctx);
            if errs@.len() == 0 {
                assert forall|j: int| 0 <= j < i implies #[trigger] stmt_typed(
                    results@[j],
                    smap(ctx.subst@),
                ) by {
                    lemma_stmt_typed_refined(results@[j], smap(ci.subst@), smap(ctx.subst@));
                }
            }
        }
        match r {
            Ok(t) => {
                if errs.len() == 0 {
                    results.push(t);
                }
            },
            Err(ds) => {
                let mut ds = ds;
                errs.append(&mut ds);
            },
        }
        i = i + 1;
    }
    if errs.len() == 0 {
        proof {
            lemma_stmts_shape(results@, block.statements@);
            lemma_stmts_typed(results@, smap(ctx.subst@));
        }
        Ok(Block::new(results, block.span))
    } else {
        Err(errs)
    }
}

/// [`stmt_shape`] pairwise gives [`stmts_shape`].
pub proof fn lemma_stmts_shape(ts: Seq<Statement<Ty>>, ss: Seq<Statement<()>>)
    requires
        ts.len() == ss.len(),
        forall|j: int| 0 <= j < ss.len() ==> #[trigger] stmt_shape(ts[j], ss[j]),
    ensures
        stmts_shape(ts, ss),
    decreases ss.len(),
{
    if ss.len() > 0 {
        let rt = ts.subrange(1, ts.len() as int);
        let rs = ss.subrange(1, ss.len() as int);
        assert forall|j: int| 0 <= j < rs.len() implies #[trigger] stmt_shape(rt[j], rs[j]) by {
            assert(rt[j] == ts[j + 1]);
            assert(rs[j] == ss[j + 1]);
        }
        assert(stmt_shape(ts[0], ss[0]));
        lemma_stmts_shape(rt, rs);
    }
}

/// What may stand in the body of a loop invariant: scoped blocks, `ensure` and `require`,
/// `increases`, `decreases` and `step`, and `$arg[N]` in expressions.
pub open spec fn invariant_block_cfg() -> BlockTypeCheckerCfg {
    BlockTypeCheckerCfg {
        allows_invariants: false,
        allows_scoped: true,
        allows_ensure_and_require: true,
        allows_return: false,
        allows_invariant_stmts: true,
        allows_arg: true,
    }
}

/// An invariant that needs no inference: its loop is in scope with as many bindings as it
/// names, it names no binding twice, and each statement of its body is a [`literal_stmt`] of an
/// invariant's body.
pub open spec fn literal_invariant(
    decl: InvariantDecl<()>,
    scopes: Seq<crate::type_analysis::scope::Scope<Ty, FnTy, ()>>,
) -> bool {
    &&& lookup_loop(scopes, decl.loop_name.name.name@) matches Some(info) && info.bindings@.len()
        == decl.bindings@.len()
    &&& forall|i: int, j: int|
        0 <= i < j < decl.bindings@.len() ==> #[trigger] decl.bindings@[i].name.name@
            != #[trigger] decl.bindings@[j].name.name@
    &&& forall|i: int|
        0 <= i < decl.body.statements@.len() ==> literal_stmt(
            #[trigger] decl.body.statements@[i],
            invariant_block_cfg(),
        )
}

/// What may stand in the body of a loop invariant.
pub fn invariant_cfg() -> (r: BlockTypeCheckerCfg)
    ensures
        r == invariant_block_cfg(),
{
    BlockTypeCheckerCfg {
        allows_invariants: false,
        allows_scoped: true,
        allows_ensure_and_require: true,
        allows_return: false,
        allows_invariant_stmts: true,
        allows_arg: true,
    }
}

/// What may stand in the body of a predicate: `return`, and statements that every block allows.
pub open spec fn predicate_block_cfg() -> BlockTypeCheckerCfg {
    BlockTypeCheckerCfg {
        allows_invariants: false,
        allows_scoped: false,
        allows_ensure_and_require: false,
        allows_return: true,
        allows_invariant_stmts: false,
        allows_arg: false,
    }
}

/// A predicate declaration that type-checks at once in the context `c`: no parameters, a name
/// not yet bound in the innermost scope, and a body of empty statements ending with a `return`
/// of an expression of known boolean type (see [`known_ty`]), which may name the locals that
/// `c` sees, the enclosing contract's among them.
pub open spec fn known_predicate(decl: PredicateDecl<()>, c: TypeInferenceCtx) -> bool {
    let ss = decl.body.statements@;
    let scopes = c.scope.scopes@;
    &&& decl.params@.len() == 0
    &&& scopes.len() > 0
    &&& crate::type_analysis::scope::assoc(scopes.last().predicates@, decl.name.name.name@) is None
    &&& ss.len() > 0
    &&& ss.last() matches Statement::Return { expression, .. } && known_ty(
        expression,
        stmt_expr_cfg(predicate_block_cfg(), false),
        c,
    ) == Some(TyV::Bool)
    &&& forall|i: int| 0 <= i < ss.len() - 1 ==> #[trigger] ss[i] is Empty
}

/// What may stand in the body of a predicate.
pub fn predicate_cfg() -> (r: BlockTypeCheckerCfg)
    ensures
        r == predicate_block_cfg(),
{
    BlockTypeCheckerCfg {
        allows_invariants: false,
        allows_scoped: false,
        allows_ensure_and_require: false,
        allows_return: true,
        allows_invariant_stmts: false,
        allows_arg: false,
    }
}

/// The diagnostic of an invariant that binds `given` names for a loop with `expected` bindings.
pub open spec fn arity_error(given: nat, expected: nat) -> Seq<char> {
    "invariant declaration was expecting "@ + decimal(given) + " parameters but the loop has "@
        + decimal(expected)
}

/// Checks a loop invariant: the loop must be in scope and the declaration must bind as many
/// names as the loop has bindings; the names take the types of the loop's bindings, in a scope
/// of their own that the body is checked in.
pub fn check_invariant_decl(ctx: &mut TypeInferenceCtx, source_name: &str, decl: &InvariantDecl<()>) -> (r:
    TypingResult<InvariantDecl<Ty>>)
    requires
        old(ctx).wf(),
        old(ctx).constraints@.len() == 0,
    ensures
        stmt_ctx(*old(ctx), *final(ctx)),
        match r {
            Ok(d) => invariant_shape(d, *decl) && block_typed(d.body, smap(final(ctx).subst@)) && (lookup_loop(
                old(ctx).scope.scopes@,
                decl.loop_name.name.name@,
            ) matches Some(info) && info.bindings@.len() == decl.bindings@.len() && d.bindings@.len()
                == info.bindings@.len() && (forall|i: int|
                0 <= i < d.bindings@.len() ==> (#[trigger] d.bindings@[i]).meta@ == info.bindings@[i].1@)
                && d.loop_name.meta@ == TyV::Func(
                Seq::new(info.bindings@.len(), |i: int| info.bindings@[i].1@),
                Seq::empty(),
            )),
            Err(ds) => ds@.len() > 0,
        },
        lookup_loop(old(ctx).scope.scopes@, decl.loop_name.name.name@) is None ==> (r matches Err(ds)
            && ds@.len() == 1 && is_diag(
            ds@[0],
            source_name@,
            "on invariant declaration of loop '"@ + decl.loop_name.name.name@ + "': "@ + error_text(
                TypeAnalysisError::UnknownLoop(decl.loop_name.name.name),
            ),
            Some(decl.span),
        )),
        match lookup_loop(old(ctx).scope.scopes@, decl.loop_name.name.name@) {
            Some(info) => info.bindings@.len() != decl.bindings@.len() ==> (r matches Err(ds)
                && ds@.len() > 0 && is_diag(
                ds@[0],
                source_name@,
                arity_error(decl.bindings@.len(), info.bindings@.len()),
                Some(decl.span),
            )),
            None => true,
        },
        literal_invariant(*decl, old(ctx).scope.scopes@) ==> r is Ok,
    decreases decl,
{
    let ghost c0 = *ctx;
    proof {
        lemma_step_refl(c0);
    }
    let mut diags = Diagnostics::new(source_name, decl.span);
    let mut types: Vec<Ty> = Vec::new();
    match ctx.scope.find_loop(&decl.loop_name) {
        Ok(info) => {
            let mut k: usize = 0;
            while k < info.bindings.len()
                invariant
                    k <= info.bindings@.len(),
                    types@.len() == k,
                    lookup_loop(c0.scope.scopes@, decl.loop_name.name.name@) == Some(*info),
                    forall|q: int| 0 <= q < k ==> (#[trigger] types@[q])@ == info.bindings@[q].1@,
                decreases info.bindings@.len() - k,
            {
                types.push(info.bindings[k].1.copy());
                k = k + 1;
            }
        },
        Err(err) => {
            let context = concat3("on invariant declaration of loop '", decl.loop_name.value(), "'");
            diags.add_type_err(&err, context.as_str());
            proof {
                reveal_strlit("'");
                reveal_strlit("': ");
                reveal_strlit(": ");
                assert(context@ + ": "@ =~= "on invariant declaration of loop '"@ + decl.loop_name.name.name@
                    + "': "@);
                assert(diags.diags@[0] == diags.diags@.last());
            }
            return Err(diags.diags);
        },
    }
    let n_loop = types.len();
    let n_decl = decl.bindings.len();
    if n_decl != n_loop {
        let mut m = "invariant declaration was expecting ".to_owned();
        push_decimal(&mut m, n_decl as u64);
        m.append(" parameters but the loop has ");
        push_decimal(&mut m, n_loop as u64);
        diags.add(m);
        proof {
            assert(diags.diags@[0] == diags.diags@.last());
        }
    }
    ctx.scope.push(());
    let n = if n_decl < n_loop {
        n_decl
    } else {
        n_loop
    };
    let mut bindings: Vec<Identifier<Ty>> = Vec::new();
    let mut binding_types: Vec<Ty> = Vec::new();
    let mut j: usize = 0;
    while j < n
        invariant
            j <= n,
            n <= decl.bindings@.len(),
            n <= types@.len(),
            ctx.wf(),
            ctx.subst == c0.subst,
            ctx.constraints == c0.constraints,
            ctx.ts == c0.ts,
            ctx.scope.scopes@.len() == c0.scope.scopes@.len() + 1,
            bindings@.len() == j,
            binding_types@.len() == j,
            forall|q: int| 0 <= q < j ==> #[trigger] ident_shape(bindings@[q], decl.bindings@[q]),
            diags.span == decl.span,
            diags.diags@.len() == 0 ==> n_decl == n_loop,
            n_decl == decl.bindings@.len(),
            n_loop == types@.len(),
            n_decl != n_loop ==> diags.diags@.len() > 0 && is_diag(
                diags.diags@[0],
                source_name@,
                arity_error(n_decl as nat, n_loop as nat),
                Some(decl.span),
            ),
            (lookup_loop(c0.scope.scopes@, decl.loop_name.name.name@) matches Some(info)
                && info.bindings@.len() == types@.len() && forall|q: int|
                0 <= q < types@.len() ==> (#[trigger] types@[q])@ == info.bindings@[q].1@),
            forall|q: int| 0 <= q < j ==> (#[trigger] bindings@[q]).meta@ == types@[q]@,
            forall|q: int| 0 <= q < j ==> (#[trigger] binding_types@[q])@ == types@[q]@,
            literal_invariant(*decl, c0.scope.scopes@) ==> diags.diags@.len() == 0,
            forall|k: Seq<char>|
                crate::type_analysis::scope::assoc(ctx.scope.scopes@.last().locals@, k) is Some ==> exists|q: int|
                    0 <= q < j && #[trigger] decl.bindings@[q].name.name@ == k,
        decreases n - j,
    {
        let b = &decl.bindings[j];
        let ghost before = ctx.scope.scopes@;
        proof {
            if literal_invariant(*decl, c0.scope.scopes@) {
                let k = decl.bindings@[j as int].name.name@;
                if crate::type_analysis::scope::assoc(before.last().locals@, k) is Some {
                    let q = choose|q: int| 0 <= q < j && #[trigger] decl.bindings@[q].name.name@ == k;
                    assert(decl.bindings@[q].name.name@ != decl.bindings@[j as int].name.name@);
                }
            }
        }
        let bound = ctx.scope.top().bind_local(b, types[j].copy());
        proof {
            let lo = before.last().locals@;
            let ln = ctx.scope.scopes@.last().locals@;
            if ln != lo {
                assert(ln.drop_last() =~= lo);
            }
            assert forall|k: Seq<char>| crate::type_analysis::scope::assoc(ln, k) is Some implies exists|q: int|
                0 <= q < j + 1 && #[trigger] decl.bindings@[q].name.name@ == k by {
                if crate::type_analysis::scope::assoc(lo, k) is Some {
                    let q = choose|q: int| 0 <= q < j && #[trigger] decl.bindings@[q].name.name@ == k;
                    assert(0 <= q < j + 1);
                } else {
                    assert(decl.bindings@[j as int].name.name@ == k);
                }
            }
        }
        let context = concat3("while binding invariant identifier '", b.value(), "");
        let ghost d_before = diags.diags@;
        diags.extract_type_result(bound, context.as_str());
        proof {
            if d_before.len() > 0 {
                assert(diags.diags@[0] == d_before[0]);
            }
        }
        bindings.push(b.with_meta(types[j].copy()));
        binding_types.push(types[j].copy());
        j = j + 1;
    }
    let ghost cb = *ctx;
    let ghost d_before = diags.diags@;
    let body = diags.extract_result(check_block(ctx, source_name, invariant_cfg(), &decl.body));
    proof {
        if d_before.len() > 0 {
            assert(diags.diags@[0] == d_before[0]);
        }
    }
    ctx.scope.pop();
    proof {
        crate::type_analysis::subst::lemma_refines_trans(
            smap(ctx.subst@),
            smap(cb.subst@),
            smap(c0.subst@),
        );
    }
    if diags.is_empty() {
        match body {
            Some(body) => {
                let empty: Vec<Ty> = Vec::new();
                let t = ctx.ts.func_type(&binding_types, &empty);
                proof {
                    let info = lookup_loop(c0.scope.scopes@, decl.loop_name.name.name@)->0;
                    assert(tys_view(binding_types@) =~= Seq::new(info.bindings@.len(), |i: int| info.bindings@[i].1@))
                        by {
                        crate::types::lemma_tys_view(binding_types@);
                    }
                    assert(tys_view(empty@) =~= Seq::<TyV>::empty()) by {
                        crate::types::lemma_tys_view(empty@);
                    }
                }
                let name = decl.loop_name.with_meta(Ty::Func(t));
                Ok(InvariantDecl::new(name, bindings, body, decl.span))
            },
            None => Err(diags.diags),
        }
    } else {
        Err(diags.diags)
    }
}

/// Reports every `return` statement of a predicate body but the last statement.
fn ensure_no_early_return(body: &Block<Ty>, diags: &mut Diagnostics)
    ensures
        final(diags).diags@.len() >= old(diags).diags@.len(),
        final(diags).source_name == old(diags).source_name,
        final(diags).span == old(diags).span,
        (forall|i: int| 0 <= i < body.statements@.len() - 1 ==> !(#[trigger] body.statements@[i] is Return))
            <==> final(diags).diags@.len() == old(diags).diags@.len(),
{
    let n = body.statements.len();
    let mut i: usize = 0;
    while i + 1 < n
        invariant
            n == body.statements@.len(),
            i <= n,
            i > 0 ==> i + 1 <= n,
            diags.diags@.len() >= old(diags).diags@.len(),
            diags.source_name == old(diags).source_name,
            diags.span == old(diags).span,
            (forall|j: int| 0 <= j < i ==> !(#[trigger] body.statements@[j] is Return)) <==> diags.diags@.len()
                == old(diags).diags@.len(),
        decreases n - i,
    {
        if let Statement::Return { span, .. } = &body.statements[i] {
            diags.add_at_location(
                "return statements must be the last statement in a predicate".to_owned(),
                *span,
            );
        }
        i = i + 1;
    }
}

/// Requires a predicate body to end with a `return` statement, whose expression must be a
/// boolean.
fn ensure_return_terminator(ctx: &mut TypeInferenceCtx, body: &Block<Ty>, diags: &mut Diagnostics)
    requires
        old(ctx).wf(),
        old(ctx).constraints@.len() == 0,
    ensures
        stmt_ctx(*old(ctx), *final(ctx)),
        final(ctx).scope.scopes@.len() == old(ctx).scope.scopes@.len(),
        final(diags).diags@.len() >= old(diags).diags@.len(),
        final(diags).source_name == old(diags).source_name,
        final(diags).span == old(diags).span,
        !(body.statements@.len() > 0 && body.statements@.last() is Return) ==> final(diags).diags@.len()
            > old(diags).diags@.len(),
        final(diags).diags@.len() == old(diags).diags@.len() ==> unifies(
            TyV::Bool,
            subst_ty(
                body.statements@.last()->Return_expression.spec_meta()@,
                smap(final(ctx).subst@),
            ),
        ),
        preds_kept(*old(ctx), *final(ctx)),
        body.statements@.len() > 0 && body.statements@.last() is Return
            && body.statements@.last()->Return_expression.spec_meta()@ == TyV::Bool
            ==> final(diags).diags == old(diags).diags,
{
    proof {
        lemma_step_refl(*ctx);
    }
    let n = body.statements.len();
    if n == 0 {
        diags.add("predicates cannot have an empty body".to_owned());
        return;
    }
    match &body.statements[n - 1] {
        Statement::Return { expression, span } => {
            let b = ctx.ts.bool_type();
            let ghost c0 = *ctx;
            ctx.add_constraint(b, expression.meta().copy());
            let ghost cu = *ctx;
            proof {
                lemma_preds_eq(c0, cu);
                if expression.spec_meta()@ == TyV::Bool {
                    assert(cu.constraints@.len() == 0);
                    assert(queue_ok(cu.constraints@, smap(cu.subst@)));
                }
            }
            let ok = unify_at(ctx, diags, *span, "on return statement");
            proof {
                lemma_preds_trans(c0, cu, *ctx);
                if ok {
                    assert(queue_ok(cu.constraints@, smap(ctx.subst@)));
                    assert(subst_ty(TyV::Bool, smap(ctx.subst@)) == TyV::Bool);
                }
            }
        },
        _ => {
            diags.add("predicates with a block body must end with a return statement".to_owned());
        },
    }
}

/// The messages for the parameters among `params` whose local type in `scopes` is still a type
/// variable, in order.
pub open spec fn ambiguous_params(
    scopes: Seq<crate::type_analysis::scope::Scope<Ty, FnTy, ()>>,
    params: Seq<Identifier<()>>,
    pred: Seq<char>,
) -> Seq<Seq<char>>
    decreases params.len(),
{
    if params.len() == 0 {
        Seq::empty()
    } else {
        let rest = ambiguous_params(scopes, params.drop_last(), pred);
        let p = params.last().name.name@;
        match lookup_local(scopes, p) {
            Some(t) => if t is Var {
                rest.push("parameter '"@ + p + "' in predicate '"@ + pred + "' has an ambigous type"@)
            } else {
                rest
            },
            None => rest,
        }
    }
}

/// Reports each parameter of a predicate whose type is still a type variable: a parameter the
/// body does not use has no type.
fn ensure_full_param_monomorphization(ctx: &TypeInferenceCtx, decl: &PredicateDecl<()>, diags: &mut Diagnostics)
    ensures
        final(diags).source_name == old(diags).source_name,
        final(diags).span == old(diags).span,
        ({
            let msgs = ambiguous_params(ctx.scope.scopes@, decl.params@, decl.name.name.name@);
            &&& final(diags).diags@.len() == old(diags).diags@.len() + msgs.len()
            &&& final(diags).diags@.subrange(0, old(diags).diags@.len() as int) == old(diags).diags@
            &&& forall|k: int|
                0 <= k < msgs.len() ==> is_diag(
                    #[trigger] final(diags).diags@[old(diags).diags@.len() + k],
                    old(diags).source_name@,
                    msgs[k],
                    Some(old(diags).span),
                )
        }),
{
    let ghost d0 = diags.diags@;
    let mut i: usize = 0;
    proof {
        assert(decl.params@.subrange(0, 0) =~= Seq::<Identifier<()>>::empty());
        assert(diags.diags@.subrange(0, d0.len() as int) =~= d0);
    }
    while i < decl.params.len()
        invariant
            i <= decl.params@.len(),
            diags.source_name == old(diags).source_name,
            diags.span == old(diags).span,
            d0 == old(diags).diags@,
            ({
                let msgs = ambiguous_params(
                    ctx.scope.scopes@,
                    decl.params@.subrange(0, i as int),
                    decl.name.name.name@,
                );
                &&& diags.diags@.len() == d0.len() + msgs.len()
                &&& diags.diags@.subrange(0, d0.len() as int) == d0
                &&& forall|k: int|
                    0 <= k < msgs.len() ==> is_diag(
                        #[trigger] diags.diags@[d0.len() + k],
                        diags.source_name@,
                        msgs[k],
                        Some(diags.span),
                    )
            }),
        decreases decl.params@.len() - i,
    {
        let ghost before = diags.diags@;
        let ghost prev = ambiguous_params(
            ctx.scope.scopes@,
            decl.params@.subrange(0, i as int),
            decl.name.name.name@,
        );
        proof {
            assert(decl.params@.subrange(0, i + 1).drop_last() =~= decl.params@.subrange(0, i as int));
            assert(decl.params@.subrange(0, i + 1).last() == decl.params@[i as int]);
        }
        let p = &decl.params[i];
        match ctx.scope.find_local(p) {
            Ok(t) => {
                if let Ty::Var(_) = t {
                    let mut m = concat3("parameter '", p.value(), "' in predicate '");
                    m.append(decl.name.value());
                    m.append("' has an ambigous type");
                    diags.add(m);
                    proof {
                        reveal_strlit("parameter '");
                        reveal_strlit("' in predicate '");
                        reveal_strlit("' has an ambigous type");
                        assert(m@ =~= "parameter '"@ + p.name.name@ + "' in predicate '"@ + decl.name.name.name@ + "' has an ambigous type"@);
                        assert(diags.diags@.subrange(0, d0.len() as int) =~= d0) by {
                            assert(diags.diags@.drop_last() == before);
                            assert forall|j: int| 0 <= j < d0.len() implies diags.diags@[j] == d0[j] by {
                                assert(before.subrange(0, d0.len() as int)[j] == d0[j]);
                                assert(diags.diags@[j] == diags.diags@.drop_last()[j]);
                            }
                        }
                        assert forall|k: int| 0 <= k < prev.len() + 1 implies is_diag(
                            #[trigger] diags.diags@[d0.len() + k],
                            diags.source_name@,
                            prev.push(m@)[k],
                            Some(diags.span),
                        ) by {
                            if k < prev.len() {
                                assert(diags.diags@[d0.len() + k] == diags.diags@.drop_last()[d0.len() + k]);
                                assert(is_diag(before[d0.len() + k], diags.source_name@, prev[k], Some(diags.span)));
                            }
                        }
                    }
                }
            },
            Err(_) => {},
        }
        i = i + 1;
    }
    proof {
        assert(decl.params@.subrange(0, i as int) =~= decl.params@);
    }
}

/// Checks a predicate declaration: the predicate is bound in the current scope to a function
/// from fresh type variables to a boolean; its parameters are bound to those variables in a new
/// scope, where the body is checked and sees the enclosing locals too: a predicate declared in
/// a contract captures the contract's names. The body must end with its
/// only `return`, a boolean, and every parameter must get a type.
pub fn check_predicate_decl(ctx: &mut TypeInferenceCtx, source_name: &str, decl: &PredicateDecl<()>) -> (r:
    TypingResult<PredicateDecl<Ty>>)
    requires
        old(ctx).wf(),
        old(ctx).constraints@.len() == 0,
    ensures
        stmt_ctx(*old(ctx), *final(ctx)),
        match r {
            Ok(d) => predicate_shape(d, *decl) && returns_last(d.body) && block_typed(
                d.body,
                smap(final(ctx).subst@),
            ) && unifies(
                TyV::Bool,
                subst_ty(d.body.statements@.last()->Return_expression.spec_meta()@, smap(final(ctx).subst@)),
            ),
            Err(ds) => ds@.len() > 0,
        },
        known_predicate(*decl, *old(ctx)) ==> r is Ok,
    decreases decl,
{
    let ghost c0 = *ctx;
    proof {
        lemma_step_refl(c0);
    }
    let mut diags = Diagnostics::new(source_name, decl.span);
    let mut ins: Vec<Ty> = Vec::new();
    let mut k: usize = 0;
    while k < decl.params.len()
        invariant
            k <= decl.params@.len(),
            ins@.len() == k,
            ctx.subst == c0.subst,
            ctx.constraints == c0.constraints,
            ctx.scope == c0.scope,
            ctx.ts.prime == c0.ts.prime,
        decreases decl.params@.len() - k,
    {
        ins.push(ctx.ts.fresh_var());
        k = k + 1;
    }
    let fn_type = ctx.ts.predicate_type(&ins);
    let ghost before_bind = ctx.scope.scopes@;
    let bound = ctx.scope.top().bind_predicate(&decl.name, fn_type);
    let context = concat3("on declaration of predicate '", decl.name.value(), "'");
    diags.extract_type_result(bound, context.as_str());
    let ghost bound_scopes = ctx.scope.scopes@;
    proof {
        if known_predicate(*decl, c0) {
            let top = bound_scopes.last();
            assert(top.predicates@.last().0@ == decl.name.name.name@);
            assert(crate::type_analysis::scope::assoc(top.predicates@, decl.name.name.name@) is Some);
        }
    }
    ctx.scope.push(());
    let ghost cpush = *ctx;
    let ghost dpush = diags.diags@;
    let mut params: Vec<Identifier<Ty>> = Vec::new();
    let mut i: usize = 0;
    while i < decl.params.len()
        invariant
            i <= decl.params@.len(),
            ins@.len() == decl.params@.len(),
            params@.len() == i,
            forall|q: int| 0 <= q < i ==> #[trigger] ident_shape(params@[q], decl.params@[q]),
            ctx.wf(),
            ctx.subst == c0.subst,
            ctx.constraints == c0.constraints,
            ctx.ts.prime == c0.ts.prime,
            ctx.scope.scopes@.len() == c0.scope.scopes@.len() + 1,
            diags.span == decl.span,
            i == 0 ==> ctx.scope == cpush.scope && diags.diags@ == dpush,
        decreases decl.params@.len() - i,
    {
        let p = &decl.params[i];
        let bound = ctx.scope.top().bind_local(p, ins[i].copy());
        let mut context = concat3("on parameter '", p.value(), "' of predicate '");
        context.append(decl.name.value());
        context.append("'");
        diags.extract_type_result(bound, context.as_str());
        params.push(p.with_meta(ins[i].copy()));
        i = i + 1;
    }
    let ghost cb = *ctx;
    proof {
        if known_predicate(*decl, c0) {
            let ss = decl.body.statements@;
            let cfg = stmt_expr_cfg(predicate_block_cfg(), false);
            assert(cb.scope == cpush.scope);
            assert forall|k: Seq<char>| #[trigger] local_ty(c0, k) == local_ty(cb, k) by {
                assert(bound_scopes.drop_last() =~= c0.scope.scopes@.drop_last());
                assert(bound_scopes.last().locals == c0.scope.scopes@.last().locals);
                assert(crate::type_analysis::scope::lookup_local(bound_scopes, k)
                    == crate::type_analysis::scope::lookup_local(c0.scope.scopes@, k));
                assert(cb.scope.scopes@.last().locals@.len() == 0);
                assert(cb.scope.scopes@.drop_last() == bound_scopes);
                assert(crate::type_analysis::scope::lookup_local(cb.scope.scopes@, k)
                    == crate::type_analysis::scope::lookup_local(bound_scopes, k));
            }
            let e = ss.last()->Return_expression;
            lemma_known_mono(e, cfg, |k: Seq<char>| local_ty(c0, k), |k: Seq<char>| local_ty(cb, k));
            assert(known_ty(e, cfg, cb) == Some(TyV::Bool));
            assert forall|q: int| 0 <= q < ss.len() implies known_stmt(
                #[trigger] ss[q],
                predicate_block_cfg(),
                cb,
            ) by {
                if q < ss.len() - 1 {
                    assert(ss[q] is Empty);
                } else {
                    assert(ss[q] == ss.last());
                }
            }
        }
    }
    let body = diags.extract_result(check_block(ctx, source_name, predicate_cfg(), &decl.body));
    let ghost cc = *ctx;
    proof {
        lemma_step_refl(cc);
    }
    match &body {
        Some(b) => {
            proof {
                if known_predicate(*decl, c0) {
                    let ss = decl.body.statements@;
                    assert forall|q: int| 0 <= q < b.statements@.len() - 1 implies !(
                    #[trigger] b.statements@[q] is Return) by {
                        assert(ss[q] is Empty);
                        assert(match ss[q] {
                            Statement::Return { expression, .. } => true,
                            _ => !(b.statements@[q] is Return),
                        });
                    }
                    assert(match ss[ss.len() - 1] {
                        Statement::Return { expression, .. } => b.statements@[ss.len() - 1] matches Statement::Return {
                            expression: x,
                            ..
                        } && Some(x.spec_meta()@) == known_ty(expression, stmt_expr_cfg(predicate_block_cfg(), false), cb),
                        _ => !(b.statements@[ss.len() - 1] is Return),
                    });
                    match ss.last() {
                        Statement::Return { expression, .. } => {
                            assert(ss.last() == ss[ss.len() - 1]);
                            assert(known_ty(expression, stmt_expr_cfg(predicate_block_cfg(), false), cb) == Some(TyV::Bool));
                            assert(b.statements@.last() == b.statements@[ss.len() - 1]);
                            assert(b.statements@.last()->Return_expression.spec_meta()@ == TyV::Bool);
                        },
                        _ => {},
                    }
                }
            }
            ensure_no_early_return(b, &mut diags);
            ensure_return_terminator(ctx, b, &mut diags);
            proof {
                lemma_block_typed_refined(*b, smap(cc.subst@), smap(ctx.subst@));
            }
            ensure_full_param_monomorphization(ctx, decl, &mut diags);
        },
        None => {},
    }
    proof {
        crate::type_analysis::subst::lemma_refines_trans(
            smap(ctx.subst@),
            smap(cc.subst@),
            smap(cb.subst@),
        );
    }
    let ghost cend = *ctx;
    proof {
        if known_predicate(*decl, c0) {
            lemma_preds_trans(cb, cc, cend);
            let l = (bound_scopes.len() - 1) as int;
            assert(cb.scope.scopes@[l] == bound_scopes.last());
            assert(crate::type_analysis::scope::assoc(cb.scope.scopes@[l].predicates@, decl.name.name.name@) is Some);
        }
    }
    ctx.scope.pop();
    proof {
        if known_predicate(*decl, c0) {
            let l = (bound_scopes.len() - 1) as int;
            assert(ctx.scope.scopes@.last() == cend.scope.scopes@[l]);
            assert(crate::type_analysis::scope::lookup_predicate(ctx.scope.scopes@, decl.name.name.name@) is Some);
        }
    }
    if diags.is_empty() {
        match body {
            Some(body) => {
                let t = match ctx.scope.find_predicate(&decl.name) {
                    Ok(f) => f.copy(),
                    Err(err) => {
                        diags.add_type_err(&err, context.as_str());
                        return Err(diags.diags);
                    },
                };
                let name = decl.name.with_meta(Ty::Func(t));
                Ok(PredicateDecl::new(name, params, body, decl.span))
            },
            None => Err(diags.diags),
        }
    } else {
        Err(diags.diags)
    }
}

} // verus!
