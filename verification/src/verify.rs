//! Checks that a parsed document lines up with the metadata of its LLZK IR module: contract
//! targets exist, names resolve, loops are known and bound with the right number of values, and
//! each statement stands where the language allows it.
//!
//! What the checks report is stated by the spec functions of this module, over the model of the
//! metadata ([`MetadataModel`]) and a model of the lexical scopes ([`FrameV`]).
use vstd::prelude::*;
use crate::ast::{
    Block, ContractDecl, Document, Expression, Identifier, InvariantDecl, Item, PredicateDecl, Span,
    Statement, QuantifierDomain,
};
use crate::diagnostic::Diagnostic;
use crate::ir::llzk::{
    IrMetadata, LoopScope, LoopScopeV, MetadataModel, contains_text, copy_texts, has_text,
    lemma_assoc_pairs, lemma_scope_used, lemma_texts_push, scope_used, texts,
};
use crate::text::push_decimal;

verus! {

/// The names one lexical scope defines: values (locals, parameters, bindings) and predicates.
pub struct FrameV {
    pub values: Set<Seq<char>>,
    pub predicates: Set<Seq<char>>,
}

/// A scope that defines nothing yet.
pub open spec fn empty_frame() -> FrameV {
    FrameV { values: Set::empty(), predicates: Set::empty() }
}

/// Where a statement or an expression stands: inside a predicate, an invariant, a `step`
/// expression; the scope of the loops its invariants name; the contract target whose IR names
/// it sees.
pub struct CtxV {
    pub in_predicate: bool,
    pub in_invariant: bool,
    pub in_step: bool,
    pub loop_scope: Option<LoopScopeV>,
    pub target: Option<Seq<char>>,
}

/// What the checks know besides the lexical scopes: the IR metadata and the names of the
/// top-level predicates.
pub struct EnvV {
    pub model: MetadataModel,
    pub globals: Set<Seq<char>>,
}

/// A diagnostic by value: its message and location.
pub type DiagV = (Seq<char>, Option<Span>);

/// `prefix`, `name` and a closing backquote.
pub open spec fn quoted(prefix: Seq<char>, name: Seq<char>) -> Seq<char> {
    prefix + name + "`"@
}

/// One diagnostic when `cond` holds, none otherwise.
pub open spec fn flag(cond: bool, message: Seq<char>, span: Span) -> Seq<DiagV> {
    if cond {
        seq![(message, Some(span))]
    } else {
        Seq::empty()
    }
}

/// Some scope of `frames` defines `name`, as a value or as a predicate.
pub open spec fn frames_define(frames: Seq<FrameV>, name: Seq<char>) -> bool {
    exists|i: int|
        #![trigger frames[i]]
        0 <= i < frames.len() && (frames[i].values.contains(name) || frames[i].predicates.contains(
            name,
        ))
}

/// `name` resolves: a lexical scope defines it, a top-level predicate has it, or the IR makes it
/// visible from the contract target.
pub open spec fn visible(env: EnvV, frames: Seq<FrameV>, ctx: CtxV, name: Seq<char>) -> bool {
    ||| frames_define(frames, name)
    ||| env.globals.contains(name)
    ||| (ctx.target matches Some(t) && env.model.visible.contains_key(t)
        && env.model.visible[t].contains(name))
}

/// Whether the member path `path` exists from the contract target (`Some`), and if so whether
/// it is accessible.
pub open spec fn member_status(env: EnvV, ctx: CtxV, path: Seq<char>) -> Option<bool> {
    match ctx.target {
        Some(t) => if env.model.paths.contains_key(t) && env.model.paths[t].contains_key(path) {
            Some(env.model.paths[t][path])
        } else {
            None
        },
        None => None,
    }
}

/// The dotted path an expression names: a symbol, or a member of a path.
pub open spec fn expr_path(e: Expression<()>) -> Option<Seq<char>>
    decreases e,
{
    match e {
        Expression::Symbol(id) => Some(id.name.name@),
        Expression::Member { target, member, .. } => match expr_path(*target) {
            Some(p) => Some(p + "."@ + member.name.name@),
            None => None,
        },
        _ => None,
    }
}

/// The context with `in_step` set to `b`.
pub open spec fn with_step(ctx: CtxV, b: bool) -> CtxV {
    CtxV { in_step: b, ..ctx }
}

/// The context of the statements of an invariant.
pub open spec fn invariant_ctx(ctx: CtxV) -> CtxV {
    CtxV { in_invariant: true, in_step: false, ..ctx }
}

/// The context of the body of a predicate that sees the IR names of `target`.
pub open spec fn predicate_ctx(target: Option<Seq<char>>) -> CtxV {
    CtxV { in_predicate: true, in_invariant: false, in_step: false, loop_scope: None, target }
}

/// The diagnostics of an expression: names that do not resolve, member paths that do not exist
/// or are not public, and `old` outside `step` expressions. A quantifier's binding is a value of
/// a scope of its own, which its body sees.
pub open spec fn expr_diags(env: EnvV, e: Expression<()>, frames: Seq<FrameV>, ctx: CtxV) -> Seq<
    DiagV,
>
    decreases e,
{
    match e {
        Expression::Conditional { condition, then_branch, else_branch, .. } => expr_diags(
            env,
            *condition,
            frames,
            ctx,
        ) + expr_diags(env, *then_branch, frames, ctx) + expr_diags(env, *else_branch, frames, ctx),
        Expression::Binary { left, right, .. } => expr_diags(env, *left, frames, ctx) + expr_diags(
            env,
            *right,
            frames,
            ctx,
        ),
        Expression::Unary { expr, .. } => expr_diags(env, *expr, frames, ctx),
        Expression::Index { target, index, .. } => expr_diags(env, *target, frames, ctx)
            + expr_diags(env, *index, frames, ctx),
        Expression::Member { target, member, span, meta } => expr_diags(env, *target, frames, ctx)
            + match expr_path(e) {
            Some(p) => match member_status(env, ctx, p) {
                Some(true) => Seq::empty(),
                Some(false) => seq![(quoted("member `"@, p) + " is not public"@, Some(span))],
                None => seq![(quoted("unknown identifier `"@, p), Some(span))],
            },
            None => Seq::empty(),
        },
        Expression::Call { callee, args, .. } => flag(
            !visible(env, frames, ctx, callee.name.name@),
            quoted("unknown identifier `"@, callee.name.name@),
            callee.span,
        ) + args_diags(env, args@, frames, ctx),
        Expression::Quantifier { binding, domain, body, .. } => domain_diags(
            env,
            domain,
            frames,
            ctx,
        ) + expr_diags(
            env,
            *body,
            frames.push(FrameV { values: set![binding.name.name@], predicates: Set::empty() }),
            ctx,
        ),
        Expression::Len { target, .. } => expr_diags(env, *target, frames, ctx),
        Expression::Old { expression, span, .. } => flag(
            !ctx.in_step,
            "old is only valid inside step expressions"@,
            span,
        ) + expr_diags(env, *expression, frames, ctx),
        Expression::Symbol(id) => flag(
            !visible(env, frames, ctx, id.name.name@),
            quoted("unknown identifier `"@, id.name.name@),
            id.span,
        ),
        _ => Seq::empty(),
    }
}

/// [`expr_diags`] of a list of expressions, in order.
pub open spec fn args_diags(env: EnvV, es: Seq<Expression<()>>, frames: Seq<FrameV>, ctx: CtxV) -> Seq<
    DiagV,
>
    decreases es,
{
    if es.len() == 0 {
        Seq::empty()
    } else {
        args_diags(env, es.subrange(0, es.len() - 1), frames, ctx) + expr_diags(
            env,
            es[es.len() - 1],
            frames,
            ctx,
        )
    }
}

/// [`expr_diags`] of the domain of a quantifier.
pub open spec fn domain_diags(env: EnvV, d: QuantifierDomain<()>, frames: Seq<FrameV>, ctx: CtxV) -> Seq<
    DiagV,
>
    decreases d,
{
    match d {
        QuantifierDomain::Range { start, end, .. } => expr_diags(env, *start, frames, ctx)
            + expr_diags(env, *end, frames, ctx),
        QuantifierDomain::Expr(x) => expr_diags(env, *x, frames, ctx),
    }
}

/// Defines the value `id` in the innermost scope; defining it twice there is reported.
pub open spec fn define(frames: Seq<FrameV>, id: Identifier<()>) -> (Seq<DiagV>, Seq<FrameV>) {
    let last = frames[frames.len() - 1];
    let name = id.name.name@;
    (
        flag(last.values.contains(name), quoted("duplicate local binding `"@, name), id.span),
        frames.update(
            frames.len() - 1,
            FrameV { values: last.values.insert(name), predicates: last.predicates },
        ),
    )
}

/// [`define`] for each of a list of identifiers, in order.
pub open spec fn defines(frames: Seq<FrameV>, ids: Seq<Identifier<()>>) -> (Seq<DiagV>, Seq<FrameV>)
    decreases ids.len(),
{
    if ids.len() == 0 {
        (Seq::empty(), frames)
    } else {
        let (d0, f0) = defines(frames, ids.drop_last());
        let (d1, f1) = define(f0, ids.last());
        (d0 + d1, f1)
    }
}

/// The diagnostics of the loop an invariant names: unknown in the scope of the contract, or
/// bound with another number of values than the loop has.
pub open spec fn loop_diags(env: EnvV, inv: InvariantDecl<()>, ctx: CtxV) -> Seq<DiagV> {
    let name = inv.loop_name.name.name@;
    let n = inv.bindings@.len();
    let span = inv.loop_name.span;
    match ctx.loop_scope {
        Some(sc) => if env.model.loops.contains_key((sc, name)) {
            let bc = env.model.loops[(sc, name)].binding_count;
            flag(
                bc != n,
                quoted("loop `"@, name) + " expects "@ + crate::text::decimal(bc)
                    + " invariant bindings, found "@ + crate::text::decimal(n),
                span,
            )
        } else {
            seq![(quoted("unknown loop label `"@, name), Some(span))]
        },
        None => seq![(quoted("unknown loop label `"@, name), Some(span))],
    }
}

/// The diagnostics of a statement, and the scopes after it: a `let` defines its name in the
/// innermost scope, a predicate declaration its name. `return` stands only inside predicates,
/// `increases`, `decreases` and `step` only inside invariants.
pub open spec fn stmt_diags(env: EnvV, s: Statement<()>, frames: Seq<FrameV>, ctx: CtxV) -> (Seq<
    DiagV,
>, Seq<FrameV>)
    decreases s,
{
    match s {
        Statement::Scoped { statement, .. } => stmt_diags(env, *statement, frames, ctx),
        Statement::Block(b) => (block_diags(env, b, frames, ctx), frames),
        Statement::Require { expression, .. } => (expr_diags(env, expression, frames, ctx), frames),
        Statement::Ensure { expression, .. } => (expr_diags(env, expression, frames, ctx), frames),
        Statement::Let { name, value, .. } => {
            let d = expr_diags(env, value, frames, ctx);
            let (d1, f1) = define(frames, name);
            (d + d1, f1)
        },
        Statement::Unused { name, .. } => (
            flag(
                !visible(env, frames, ctx, name.name.name@),
                quoted("unused references unknown symbol `"@, name.name.name@),
                name.span,
            ),
            frames,
        ),
        Statement::Return { expression, span } => (
            flag(!ctx.in_predicate, "return is only valid inside predicates"@, span) + expr_diags(
                env,
                expression,
                frames,
                ctx,
            ),
            frames,
        ),
        Statement::Increases { expression, span } => (
            flag(!ctx.in_invariant, "increases is only valid inside invariants"@, span)
                + expr_diags(env, expression, frames, with_step(ctx, false)),
            frames,
        ),
        Statement::Decreases { expression, span } => (
            flag(!ctx.in_invariant, "decreases is only valid inside invariants"@, span)
                + expr_diags(env, expression, frames, with_step(ctx, false)),
            frames,
        ),
        Statement::Step { expression, span } => (
            flag(!ctx.in_invariant, "step is only valid inside invariants"@, span) + expr_diags(
                env,
                expression,
                frames,
                with_step(ctx, true),
            ),
            frames,
        ),
        Statement::Invariant(inv) => {
            let (d1, f1) = defines(frames.push(empty_frame()), inv.bindings@);
            (
                loop_diags(env, inv, ctx) + d1 + stmts_diags(
                    env,
                    inv.body.statements@,
                    f1,
                    invariant_ctx(ctx),
                ).0,
                frames,
            )
        },
        Statement::Predicate(p) => {
            let last = frames[frames.len() - 1];
            let name = p.name.name.name@;
            let f1 = frames.update(
                frames.len() - 1,
                FrameV { values: last.values, predicates: last.predicates.insert(name) },
            );
            (
                flag(last.predicates.contains(name), quoted("duplicate predicate `"@, name), p.name.span)
                    + predicate_diags(env, p, f1, ctx.target),
                f1,
            )
        },
        Statement::Empty { .. } => (Seq::empty(), frames),
    }
}

/// [`stmt_diags`] of a list of statements, each seeing the scopes the ones before it leave.
pub open spec fn stmts_diags(env: EnvV, ss: Seq<Statement<()>>, frames: Seq<FrameV>, ctx: CtxV) -> (Seq<
    DiagV,
>, Seq<FrameV>)
    decreases ss,
{
    if ss.len() == 0 {
        (Seq::empty(), frames)
    } else {
        let (d0, f0) = stmts_diags(env, ss.subrange(0, ss.len() - 1), frames, ctx);
        let (d1, f1) = stmt_diags(env, ss[ss.len() - 1], f0, ctx);
        (d0 + d1, f1)
    }
}

/// The diagnostics of a block, whose statements stand in a scope of their own.
pub open spec fn block_diags(env: EnvV, b: Block<()>, frames: Seq<FrameV>, ctx: CtxV) -> Seq<DiagV>
    decreases b,
{
    stmts_diags(env, b.statements@, frames.push(empty_frame()), ctx).0
}

/// The diagnostics of a predicate declared where `inherited` are the scopes: its parameters are
/// the values of a scope of their own, and its body may `return`.
pub open spec fn predicate_diags(
    env: EnvV,
    p: PredicateDecl<()>,
    inherited: Seq<FrameV>,
    target: Option<Seq<char>>,
) -> Seq<DiagV>
    decreases p,
{
    let (d0, f0) = defines(inherited.push(empty_frame()), p.params@);
    d0 + block_diags(env, p.body, f0, predicate_ctx(target))
}

/// The scope of the loops a contract for `target` names: the struct `target` if it has loops,
/// else the function `target` if it has loops.
pub open spec fn contract_loop_scope(md: MetadataModel, target: Seq<char>) -> Option<LoopScopeV> {
    if scope_used(md, LoopScopeV::Struct(target)) {
        Some(LoopScopeV::Struct(target))
    } else if scope_used(md, LoopScopeV::Function(target)) {
        Some(LoopScopeV::Function(target))
    } else {
        None
    }
}

/// Names resolve from the most local to the least local: a name is visible exactly when some
/// lexical scope defines it, as a value or as a predicate, or it is a top-level predicate, or
/// the IR makes it visible from the contract target; nothing else makes a name visible.
pub proof fn names_resolve_through_scopes_predicates_and_ir(env: EnvV, frames: Seq<FrameV>, ctx: CtxV, name: Seq<char>)
    ensures
        visible(env, frames, ctx, name) <==> ((exists|i: int|
            0 <= i < frames.len() && (#[trigger] frames[i].values.contains(name) || frames[i].predicates.contains(
                name,
            ))) || env.globals.contains(name) || (ctx.target matches Some(t) && env.model.visible.contains_key(t)
            && env.model.visible[t].contains(name))),
        forall|i: int|
            0 <= i < frames.len() && #[trigger] frames[i].values.contains(name) ==> visible(env, frames, ctx, name),
{
    assert forall|i: int|
        0 <= i < frames.len() && #[trigger] frames[i].values.contains(name) implies visible(env, frames, ctx, name) by {
        assert(frames_define(frames, name));
    }
}

/// Defining a name touches only the innermost scope: a name that scope already holds as a value
/// gives exactly one `duplicate local binding` diagnostic and leaves every scope as it was;
/// otherwise the name is added to it and no diagnostic is given. The outer scopes never change,
/// so a name of an outer scope can be bound again in an inner one (shadowing).
pub proof fn defining_a_value_touches_only_the_innermost_scope(frames: Seq<FrameV>, id: Identifier<()>)
    requires
        frames.len() > 0,
    ensures
        ({
            let (ds, nf) = define(frames, id);
            let n = id.name.name@;
            &&& nf.len() == frames.len()
            &&& forall|i: int| 0 <= i < frames.len() - 1 ==> #[trigger] nf[i] == frames[i]
            &&& frames.last().values.contains(n) ==> ds == seq![
                (quoted("duplicate local binding `"@, n), Some(id.span)),
            ] && nf == frames
            &&& !frames.last().values.contains(n) ==> ds.len() == 0 && nf.last().values
                == frames.last().values.insert(n) && nf.last().predicates == frames.last().predicates
        }),
{
    let n = id.name.name@;
    let last = frames.last();
    if last.values.contains(n) {
        assert(last.values.insert(n) =~= last.values);
        let nf = define(frames, id).1;
        assert(nf =~= frames) by {
            assert forall|i: int| 0 <= i < frames.len() implies nf[i] == frames[i] by {
                if i == frames.len() - 1 {
                    assert(nf[i] == FrameV { values: last.values.insert(n), predicates: last.predicates });
                }
            }
        }
    }
}

/// The loops a contract's invariants name are those of its target's struct when the IR labels
/// loops there, else those of its function when it labels loops there, else none.
pub proof fn struct_loops_are_preferred_for_a_contract(md: MetadataModel, target: Seq<char>)
    ensures
        scope_used(md, LoopScopeV::Struct(target)) ==> contract_loop_scope(md, target) == Some(
            LoopScopeV::Struct(target),
        ),
        !scope_used(md, LoopScopeV::Struct(target)) && scope_used(md, LoopScopeV::Function(target))
            ==> contract_loop_scope(md, target) == Some(LoopScopeV::Function(target)),
        !scope_used(md, LoopScopeV::Struct(target)) && !scope_used(md, LoopScopeV::Function(target))
            ==> contract_loop_scope(md, target) is None,
{
}

/// The diagnostics of a contract: its target must be a target of the IR, and its body sees the
/// IR names of the target.
pub open spec fn contract_diags(env: EnvV, c: ContractDecl<()>) -> Seq<DiagV> {
    let t = c.target.name.name@;
    flag(!env.model.globals.contains(t), quoted("unknown contract target `"@, t), c.target.span)
        + block_diags(
        env,
        c.body,
        seq![empty_frame()],
        CtxV {
            in_predicate: false,
            in_invariant: false,
            in_step: false,
            loop_scope: contract_loop_scope(env.model, t),
            target: Some(t),
        },
    )
}

/// The diagnostics of a top-level item.
pub open spec fn item_diags(env: EnvV, item: Item<()>) -> Seq<DiagV> {
    match item {
        Item::Contract(c) => contract_diags(env, c),
        Item::Predicate(p) => predicate_diags(env, p, Seq::empty(), None),
    }
}

/// [`item_diags`] of a list of items, in order.
pub open spec fn items_diags(env: EnvV, items: Seq<Item<()>>) -> Seq<DiagV>
    decreases items.len(),
{
    if items.len() == 0 {
        Seq::empty()
    } else {
        items_diags(env, items.drop_last()) + item_diags(env, items.last())
    }
}

/// The names of the top-level predicates among `items`, and the diagnostics of those declared
/// twice.
pub open spec fn global_predicates(items: Seq<Item<()>>) -> (Seq<DiagV>, Set<Seq<char>>)
    decreases items.len(),
{
    if items.len() == 0 {
        (Seq::empty(), Set::empty())
    } else {
        let (d, g) = global_predicates(items.drop_last());
        match items.last() {
            Item::Predicate(p) => {
                let name = p.name.name.name@;
                (d + flag(g.contains(name), quoted("duplicate predicate `"@, name), p.name.span), g.insert(name))
            },
            Item::Contract(_) => (d, g),
        }
    }
}

/// The diagnostics of a document checked against the IR metadata `md`: those of the top-level
/// predicates declared twice, then those of each item.
pub open spec fn document_diags(md: MetadataModel, doc: Document<()>) -> Seq<DiagV> {
    let (d, g) = global_predicates(doc.items@);
    d + items_diags(EnvV { model: md, globals: g }, doc.items@)
}

/// The diagnostics of a list by value.
pub open spec fn diags_view(ds: Seq<Diagnostic>) -> Seq<DiagV> {
    ds.map_values(|d: Diagnostic| (d.message@, d.span))
}

/// Every diagnostic of the list is attributed to `source`.
pub open spec fn all_from(ds: Seq<Diagnostic>, source: Seq<char>) -> bool {
    forall|i: int| 0 <= i < ds.len() ==> #[trigger] ds[i].source@ == source
}

/// What the items of a list report includes what each of them reports.
proof fn lemma_items_contain(env: EnvV, items: Seq<Item<()>>, k: int, d: DiagV)
    requires
        0 <= k < items.len(),
        item_diags(env, items[k]).contains(d),
    ensures
        items_diags(env, items).contains(d),
    decreases items.len(),
{
    let n = items.len();
    let pre = items.drop_last();
    let tail = item_diags(env, items.last());
    if k == n - 1 {
        let i = choose|i: int| 0 <= i < tail.len() && tail[i] == d;
        assert((items_diags(env, pre) + tail)[items_diags(env, pre).len() + i] == d);
    } else {
        assert(pre[k] == items[k]);
        lemma_items_contain(env, pre, k, d);
        let i = choose|i: int| 0 <= i < items_diags(env, pre).len() && items_diags(env, pre)[i] == d;
        assert((items_diags(env, pre) + tail)[i] == d);
    }
}

/// What a list of statements reports includes what each of them reports, in the scopes the
/// statements before it leave.
proof fn lemma_stmts_contain(
    env: EnvV,
    ss: Seq<Statement<()>>,
    frames: Seq<FrameV>,
    ctx: CtxV,
    j: int,
    d: DiagV,
)
    requires
        0 <= j < ss.len(),
        stmt_diags(env, ss[j], stmts_diags(env, ss.subrange(0, j), frames, ctx).1, ctx).0.contains(d),
    ensures
        stmts_diags(env, ss, frames, ctx).0.contains(d),
    decreases ss.len(),
{
    let n = ss.len();
    let pre = ss.subrange(0, n - 1);
    let (d0, f0) = stmts_diags(env, pre, frames, ctx);
    let d1 = stmt_diags(env, ss[n - 1], f0, ctx).0;
    if j == n - 1 {
        let i = choose|i: int| 0 <= i < d1.len() && d1[i] == d;
        assert((d0 + d1)[d0.len() + i] == d);
    } else {
        assert(pre[j] == ss[j]);
        assert(pre.subrange(0, j) =~= ss.subrange(0, j));
        lemma_stmts_contain(env, pre, frames, ctx, j, d);
        let i = choose|i: int| 0 <= i < d0.len() && d0[i] == d;
        assert((d0 + d1)[i] == d);
    }
}

/// What a contract item of a document reports, the document reports.
proof fn lemma_contract_contains(md: MetadataModel, doc: Document<()>, k: int, d: DiagV)
    requires
        0 <= k < doc.items@.len(),
        doc.items@[k] matches Item::Contract(c) && contract_diags(
            EnvV { model: md, globals: global_predicates(doc.items@).1 },
            c,
        ).contains(d),
    ensures
        document_diags(md, doc).contains(d),
{
    let (d0, g) = global_predicates(doc.items@);
    let env = EnvV { model: md, globals: g };
    lemma_items_contain(env, doc.items@, k, d);
    let i = choose|i: int| 0 <= i < items_diags(env, doc.items@).len() && items_diags(env, doc.items@)[i] == d;
    assert((d0 + items_diags(env, doc.items@))[d0.len() + i] == d);
}

/// The context of the body of a contract for `t`.
pub open spec fn contract_ctx(md: MetadataModel, t: Seq<char>) -> CtxV {
    CtxV {
        in_predicate: false,
        in_invariant: false,
        in_step: false,
        loop_scope: contract_loop_scope(md, t),
        target: Some(t),
    }
}

/// What a statement at the top of the body of a contract item reports, the document reports.
proof fn lemma_contract_stmt_contains(md: MetadataModel, doc: Document<()>, k: int, j: int, d: DiagV)
    requires
        0 <= k < doc.items@.len(),
        doc.items@[k] matches Item::Contract(c) && 0 <= j < c.body.statements@.len() && ({
            let env = EnvV { model: md, globals: global_predicates(doc.items@).1 };
            let ss = c.body.statements@;
            let f0 = seq![empty_frame()].push(empty_frame());
            stmt_diags(
                env,
                ss[j],
                stmts_diags(env, ss.subrange(0, j), f0, contract_ctx(md, c.target.name.name@)).1,
                contract_ctx(md, c.target.name.name@),
            ).0.contains(d)
        }),
    ensures
        document_diags(md, doc).contains(d),
{
    let c = doc.items@[k]->Contract_0;
    let env = EnvV { model: md, globals: global_predicates(doc.items@).1 };
    let t = c.target.name.name@;
    let ctx = contract_ctx(md, t);
    let f0 = seq![empty_frame()].push(empty_frame());
    lemma_stmts_contain(env, c.body.statements@, f0, ctx, j, d);
    let head = flag(!env.model.globals.contains(t), quoted("unknown contract target `"@, t), c.target.span);
    let body = block_diags(env, c.body, seq![empty_frame()], ctx);
    let i = choose|i: int| 0 <= i < body.len() && body[i] == d;
    assert((head + body)[head.len() + i] == d);
    lemma_contract_contains(md, doc, k, d);
}

/// A contract whose target the IR does not define is reported, at the target: checking the
/// document fails.
pub proof fn unknown_contract_target_is_reported(md: MetadataModel, doc: Document<()>, k: int)
    requires
        0 <= k < doc.items@.len(),
        doc.items@[k] matches Item::Contract(c) && !md.globals.contains(c.target.name.name@),
    ensures
        ({
            let c = doc.items@[k]->Contract_0;
            document_diags(md, doc).contains(
                (quoted("unknown contract target `"@, c.target.name.name@), Some(c.target.span)),
            )
        }),
{
    let c = doc.items@[k]->Contract_0;
    let d = (quoted("unknown contract target `"@, c.target.name.name@), Some(c.target.span));
    let env = EnvV { model: md, globals: global_predicates(doc.items@).1 };
    assert(contract_diags(env, c)[0] == d);
    lemma_contract_contains(md, doc, k, d);
}

/// A `return` among the statements of a contract body, outside any predicate, is reported at
/// the statement.
pub proof fn return_outside_predicate_is_reported(md: MetadataModel, doc: Document<()>, k: int, j: int)
    requires
        0 <= k < doc.items@.len(),
        doc.items@[k] matches Item::Contract(c) && 0 <= j < c.body.statements@.len()
            && c.body.statements@[j] is Return,
    ensures
        ({
            let c = doc.items@[k]->Contract_0;
            document_diags(md, doc).contains(
                ("return is only valid inside predicates"@, Some(c.body.statements@[j]->Return_span)),
            )
        }),
{
    let c = doc.items@[k]->Contract_0;
    let d = ("return is only valid inside predicates"@, Some(c.body.statements@[j]->Return_span));
    let env = EnvV { model: md, globals: global_predicates(doc.items@).1 };
    let ss = c.body.statements@;
    let f0 = seq![empty_frame()].push(empty_frame());
    let ctx = contract_ctx(md, c.target.name.name@);
    let fj = stmts_diags(env, ss.subrange(0, j), f0, ctx).1;
    assert(stmt_diags(env, ss[j], fj, ctx).0[0] == d);
    lemma_contract_stmt_contains(md, doc, k, j, d);
}

/// An invariant among the statements of a contract body that names a loop of the contract's
/// scope with another number of bindings than the loop binds is reported at the loop name,
/// with both numbers.
pub proof fn binding_count_mismatch_is_reported(md: MetadataModel, doc: Document<()>, k: int, j: int)
    requires
        0 <= k < doc.items@.len(),
        doc.items@[k] is Contract,
        ({
            let c = doc.items@[k]->Contract_0;
            &&& 0 <= j < c.body.statements@.len()
            &&& c.body.statements@[j] is Invariant
            &&& contract_loop_scope(md, c.target.name.name@) is Some
        }),
        ({
            let c = doc.items@[k]->Contract_0;
            let inv = c.body.statements@[j]->Invariant_0;
            let sc = contract_loop_scope(md, c.target.name.name@)->0;
            &&& md.loops.contains_key((sc, inv.loop_name.name.name@))
            &&& md.loops[(sc, inv.loop_name.name.name@)].binding_count != inv.bindings@.len()
        }),
    ensures
        ({
            let c = doc.items@[k]->Contract_0;
            let inv = c.body.statements@[j]->Invariant_0;
            let sc = contract_loop_scope(md, c.target.name.name@)->0;
            let name = inv.loop_name.name.name@;
            document_diags(md, doc).contains(
                (
                    quoted("loop `"@, name) + " expects "@ + crate::text::decimal(
                        md.loops[(sc, name)].binding_count,
                    ) + " invariant bindings, found "@ + crate::text::decimal(inv.bindings@.len()),
                    Some(inv.loop_name.span),
                ),
            )
        }),
{
    let c = doc.items@[k]->Contract_0;
    let inv = c.body.statements@[j]->Invariant_0;
    let sc = contract_loop_scope(md, c.target.name.name@)->0;
    let name = inv.loop_name.name.name@;
    let d = (
        quoted("loop `"@, name) + " expects "@ + crate::text::decimal(md.loops[(sc, name)].binding_count)
            + " invariant bindings, found "@ + crate::text::decimal(inv.bindings@.len()),
        Some(inv.loop_name.span),
    );
    let env = EnvV { model: md, globals: global_predicates(doc.items@).1 };
    let ss = c.body.statements@;
    let f0 = seq![empty_frame()].push(empty_frame());
    let ctx = contract_ctx(md, c.target.name.name@);
    let fj = stmts_diags(env, ss.subrange(0, j), f0, ctx).1;
    assert(loop_diags(env, inv, ctx)[0] == d);
    assert(stmt_diags(env, ss[j], fj, ctx).0[0] == d);
    lemma_contract_stmt_contains(md, doc, k, j, d);
}

/// A statement keeps the values the innermost scope defines.
proof fn lemma_stmt_values_grow(env: EnvV, s: Statement<()>, frames: Seq<FrameV>, ctx: CtxV)
    requires
        frames.len() > 0,
    ensures
        frames.last().values.subset_of(stmt_diags(env, s, frames, ctx).1.last().values),
    decreases s,
{
    lemma_stmt_frames(env, s, frames, ctx);
    match s {
        Statement::Scoped { statement, .. } => lemma_stmt_values_grow(env, *statement, frames, ctx),
        _ => {},
    }
}

/// A list of statements keeps, from one prefix to a longer one, the values the innermost scope
/// defines.
proof fn lemma_stmts_values_grow(
    env: EnvV,
    ss: Seq<Statement<()>>,
    frames: Seq<FrameV>,
    ctx: CtxV,
    i: int,
    j: int,
)
    requires
        frames.len() > 0,
        0 <= i <= j <= ss.len(),
    ensures
        stmts_diags(env, ss.subrange(0, i), frames, ctx).1.last().values.subset_of(
            stmts_diags(env, ss.subrange(0, j), frames, ctx).1.last().values,
        ),
    decreases j - i,
{
    if i < j {
        lemma_stmts_values_grow(env, ss, frames, ctx, i, j - 1);
        let pre = ss.subrange(0, j);
        assert(pre.subrange(0, j - 1) =~= ss.subrange(0, j - 1));
        assert(pre[j - 1] == ss[j - 1]);
        let f = stmts_diags(env, ss.subrange(0, j - 1), frames, ctx).1;
        lemma_stmts_frames(env, ss.subrange(0, j - 1), frames, ctx);
        lemma_stmt_values_grow(env, ss[j - 1], f, ctx);
    }
}

/// Two `let` statements of one name among the statements of a contract body are reported: the
/// second defines a name its scope already has. (A `let` inside a nested block shadows instead.)
pub proof fn duplicate_let_is_reported(md: MetadataModel, doc: Document<()>, k: int, a: int, b: int)
    requires
        0 <= k < doc.items@.len(),
        doc.items@[k] is Contract,
        ({
            let ss = (doc.items@[k]->Contract_0).body.statements@;
            &&& 0 <= a < b < ss.len()
            &&& ss[a] is Let
            &&& ss[b] is Let
            &&& (ss[a]->Let_name).name.name@ == (ss[b]->Let_name).name.name@
        }),
    ensures
        ({
            let id = ((doc.items@[k]->Contract_0).body.statements@[b])->Let_name;
            document_diags(md, doc).contains(
                (quoted("duplicate local binding `"@, id.name.name@), Some(id.span)),
            )
        }),
{
    let c = doc.items@[k]->Contract_0;
    let ss = c.body.statements@;
    let env = EnvV { model: md, globals: global_predicates(doc.items@).1 };
    let ctx = contract_ctx(md, c.target.name.name@);
    let f0 = seq![empty_frame()].push(empty_frame());
    let id = ss[b]->Let_name;
    let name = id.name.name@;
    let fa = stmts_diags(env, ss.subrange(0, a), f0, ctx).1;
    lemma_stmts_frames(env, ss.subrange(0, a), f0, ctx);
    let pre = ss.subrange(0, a + 1);
    assert(pre.subrange(0, a) =~= ss.subrange(0, a));
    assert(pre[a] == ss[a]);
    assert(stmt_diags(env, ss[a], fa, ctx).1 == define(fa, ss[a]->Let_name).1);
    assert(stmts_diags(env, pre, f0, ctx).1 == stmt_diags(env, ss[a], fa, ctx).1);
    assert(stmts_diags(env, pre, f0, ctx).1.last().values.contains(name));
    lemma_stmts_values_grow(env, ss, f0, ctx, a + 1, b);
    let fb = stmts_diags(env, ss.subrange(0, b), f0, ctx).1;
    lemma_stmts_frames(env, ss.subrange(0, b), f0, ctx);
    assert(fb.last().values.contains(name));
    let dv = expr_diags(env, ss[b]->Let_value, fb, ctx);
    let d = (quoted("duplicate local binding `"@, name), Some(id.span));
    assert(define(fb, id).0[0] == d);
    assert(stmt_diags(env, ss[b], fb, ctx).0[dv.len() as int] == d);
    lemma_contract_stmt_contains(md, doc, k, b, d);
}

/// The expression has an `old(..)` at span `sp`, at any depth.
pub open spec fn old_at(e: Expression<()>, sp: Span) -> bool
    decreases e,
{
    match e {
        Expression::Conditional { condition, then_branch, else_branch, .. } => old_at(*condition, sp)
            || old_at(*then_branch, sp) || old_at(*else_branch, sp),
        Expression::Binary { left, right, .. } => old_at(*left, sp) || old_at(*right, sp),
        Expression::Unary { expr, .. } => old_at(*expr, sp),
        Expression::Index { target, index, .. } => old_at(*target, sp) || old_at(*index, sp),
        Expression::Member { target, .. } => old_at(*target, sp),
        Expression::Call { args, .. } => old_in_args(args@, sp),
        Expression::Quantifier { domain, body, .. } => old_in_domain(domain, sp) || old_at(*body, sp),
        Expression::Len { target, .. } => old_at(*target, sp),
        Expression::Old { expression, span, .. } => span == sp || old_at(*expression, sp),
        _ => false,
    }
}

/// [`old_at`] for some of a list of expressions.
pub open spec fn old_in_args(es: Seq<Expression<()>>, sp: Span) -> bool
    decreases es,
{
    if es.len() == 0 {
        false
    } else {
        old_in_args(es.subrange(0, es.len() - 1), sp) || old_at(es[es.len() - 1], sp)
    }
}

/// [`old_at`] for the domain of a quantifier.
pub open spec fn old_in_domain(d: QuantifierDomain<()>, sp: Span) -> bool
    decreases d,
{
    match d {
        QuantifierDomain::Range { start, end, .. } => old_at(*start, sp) || old_at(*end, sp),
        QuantifierDomain::Expr(x) => old_at(*x, sp),
    }
}

/// The report of `old` outside `step`.
pub open spec fn old_diag(sp: Span) -> DiagV {
    ("old is only valid inside step expressions"@, Some(sp))
}

/// `a + b` holds what `a` holds and what `b` holds.
proof fn lemma_concat_contains(a: Seq<DiagV>, b: Seq<DiagV>, d: DiagV)
    ensures
        (a.contains(d) || b.contains(d)) ==> (a + b).contains(d),
{
    if a.contains(d) {
        let i = choose|i: int| 0 <= i < a.len() && a[i] == d;
        assert((a + b)[i] == d);
    } else if b.contains(d) {
        let i = choose|i: int| 0 <= i < b.len() && b[i] == d;
        assert((a + b)[a.len() + i] == d);
    }
}

/// Outside a `step` expression, every `old(..)` of an expression is reported.
proof fn lemma_old_reported(env: EnvV, e: Expression<()>, frames: Seq<FrameV>, ctx: CtxV, sp: Span)
    requires
        !ctx.in_step,
        old_at(e, sp),
    ensures
        expr_diags(env, e, frames, ctx).contains(old_diag(sp)),
    decreases e,
{
    let d = old_diag(sp);
    match e {
        Expression::Conditional { condition, then_branch, else_branch, .. } => {
            let a = expr_diags(env, *condition, frames, ctx);
            let b = expr_diags(env, *then_branch, frames, ctx);
            let c = expr_diags(env, *else_branch, frames, ctx);
            if old_at(*condition, sp) {
                lemma_old_reported(env, *condition, frames, ctx, sp);
            } else if old_at(*then_branch, sp) {
                lemma_old_reported(env, *then_branch, frames, ctx, sp);
            } else {
                lemma_old_reported(env, *else_branch, frames, ctx, sp);
            }
            lemma_concat_contains(a, b, d);
            lemma_concat_contains(a + b, c, d);
        },
        Expression::Binary { left, right, .. } => {
            let a = expr_diags(env, *left, frames, ctx);
            let b = expr_diags(env, *right, frames, ctx);
            if old_at(*left, sp) {
                lemma_old_reported(env, *left, frames, ctx, sp);
            } else {
                lemma_old_reported(env, *right, frames, ctx, sp);
            }
            lemma_concat_contains(a, b, d);
        },
        Expression::Unary { expr, .. } => {
            lemma_old_reported(env, *expr, frames, ctx, sp);
        },
        Expression::Index { target, index, .. } => {
            let a = expr_diags(env, *target, frames, ctx);
            let b = expr_diags(env, *index, frames, ctx);
            if old_at(*target, sp) {
                lemma_old_reported(env, *target, frames, ctx, sp);
            } else {
                lemma_old_reported(env, *index, frames, ctx, sp);
            }
            lemma_concat_contains(a, b, d);
        },
        Expression::Member { target, span, .. } => {
            lemma_old_reported(env, *target, frames, ctx, sp);
            let a = expr_diags(env, *target, frames, ctx);
            let b = match expr_path(e) {
                Some(p) => match member_status(env, ctx, p) {
                    Some(true) => Seq::<DiagV>::empty(),
                    Some(false) => seq![(quoted("member `"@, p) + " is not public"@, Some(span))],
                    None => seq![(quoted("unknown identifier `"@, p), Some(span))],
                },
                None => Seq::<DiagV>::empty(),
            };
            lemma_concat_contains(a, b, d);
        },
        Expression::Call { callee, args, .. } => {
            lemma_old_in_args(env, args@, frames, ctx, sp);
            let a = flag(
                !visible(env, frames, ctx, callee.name.name@),
                quoted("unknown identifier `"@, callee.name.name@),
                callee.span,
            );
            lemma_concat_contains(a, args_diags(env, args@, frames, ctx), d);
        },
        Expression::Quantifier { binding, domain, body, .. } => {
            let f1 = frames.push(FrameV { values: set![binding.name.name@], predicates: Set::empty() });
            let a = domain_diags(env, domain, frames, ctx);
            let b = expr_diags(env, *body, f1, ctx);
            if old_in_domain(domain, sp) {
                match domain {
                    QuantifierDomain::Range { start, end, .. } => {
                        if old_at(*start, sp) {
                            lemma_old_reported(env, *start, frames, ctx, sp);
                        } else {
                            lemma_old_reported(env, *end, frames, ctx, sp);
                        }
                        lemma_concat_contains(
                            expr_diags(env, *start, frames, ctx),
                            expr_diags(env, *end, frames, ctx),
                            d,
                        );
                    },
                    QuantifierDomain::Expr(x) => {
                        lemma_old_reported(env, *x, frames, ctx, sp);
                    },
                }
            } else {
                lemma_old_reported(env, *body, f1, ctx, sp);
            }
            lemma_concat_contains(a, b, d);
        },
        Expression::Len { target, .. } => {
            lemma_old_reported(env, *target, frames, ctx, sp);
        },
        Expression::Old { expression, span, .. } => {
            let a = flag(!ctx.in_step, "old is only valid inside step expressions"@, span);
            if span != sp {
                lemma_old_reported(env, *expression, frames, ctx, sp);
            } else {
                assert(a[0] == d);
            }
            lemma_concat_contains(a, expr_diags(env, *expression, frames, ctx), d);
        },
        _ => {},
    }
}

/// Outside a `step` expression, every `old(..)` of a list of expressions is reported.
proof fn lemma_old_in_args(env: EnvV, es: Seq<Expression<()>>, frames: Seq<FrameV>, ctx: CtxV, sp: Span)
    requires
        !ctx.in_step,
        old_in_args(es, sp),
    ensures
        args_diags(env, es, frames, ctx).contains(old_diag(sp)),
    decreases es,
{
    let pre = es.subrange(0, es.len() - 1);
    if old_in_args(pre, sp) {
        lemma_old_in_args(env, pre, frames, ctx, sp);
    } else {
        lemma_old_reported(env, es[es.len() - 1], frames, ctx, sp);
    }
    lemma_concat_contains(
        args_diags(env, pre, frames, ctx),
        expr_diags(env, es[es.len() - 1], frames, ctx),
        old_diag(sp),
    );
}

/// An `old(..)` in the condition of a `require` or `ensure` among the statements of a contract
/// body is reported at the `old`: it stands outside any `step` expression.
pub proof fn old_outside_step_is_reported(md: MetadataModel, doc: Document<()>, k: int, j: int, sp: Span)
    requires
        0 <= k < doc.items@.len(),
        doc.items@[k] is Contract,
        ({
            let ss = (doc.items@[k]->Contract_0).body.statements@;
            &&& 0 <= j < ss.len()
            &&& match ss[j] {
                Statement::Require { expression, .. } => old_at(expression, sp),
                Statement::Ensure { expression, .. } => old_at(expression, sp),
                _ => false,
            }
        }),
    ensures
        document_diags(md, doc).contains(old_diag(sp)),
{
    let c = doc.items@[k]->Contract_0;
    let ss = c.body.statements@;
    let env = EnvV { model: md, globals: global_predicates(doc.items@).1 };
    let ctx = contract_ctx(md, c.target.name.name@);
    let f0 = seq![empty_frame()].push(empty_frame());
    let fj = stmts_diags(env, ss.subrange(0, j), f0, ctx).1;
    match ss[j] {
        Statement::Require { expression, .. } => lemma_old_reported(env, expression, fj, ctx, sp),
        Statement::Ensure { expression, .. } => lemma_old_reported(env, expression, fj, ctx, sp),
        _ => {},
    }
    lemma_contract_stmt_contains(md, doc, k, j, old_diag(sp));
}

/// The statement `s`, checked in the context `ctx`, holds an `old(..)` at `sp` outside any `step`
/// expression: in the expression of an `increases` or `decreases` (never a step), or of a
/// `require`, `ensure`, `let` or `return` where the context is not a step, or in such a
/// statement nested in a `compute`/`constrain` statement or among the statements of an
/// invariant.
pub open spec fn old_outside_step(s: Statement<()>, sp: Span, ctx: CtxV) -> bool
    decreases s,
{
    match s {
        Statement::Increases { expression, .. } => old_at(expression, sp),
        Statement::Decreases { expression, .. } => old_at(expression, sp),
        Statement::Require { expression, .. } => !ctx.in_step && old_at(expression, sp),
        Statement::Ensure { expression, .. } => !ctx.in_step && old_at(expression, sp),
        Statement::Return { expression, .. } => !ctx.in_step && old_at(expression, sp),
        Statement::Let { value, .. } => !ctx.in_step && old_at(value, sp),
        Statement::Scoped { statement, .. } => old_outside_step(*statement, sp, ctx),
        Statement::Invariant(inv) => exists|m: int|
            0 <= m < inv.body.statements@.len() && old_outside_step(
                #[trigger] inv.body.statements@[m],
                sp,
                invariant_ctx(ctx),
            ),
        _ => false,
    }
}

/// Every `old(..)` that a statement holds outside a `step` expression is reported at the
/// `old`, whatever scopes the statement is checked in: in particular one in the expression of
/// an `increases` or `decreases`, which is never a step.
pub proof fn old_outside_step_in_a_statement_is_reported(
    env: EnvV,
    s: Statement<()>,
    frames: Seq<FrameV>,
    ctx: CtxV,
    sp: Span,
)
    requires
        old_outside_step(s, sp, ctx),
    ensures
        stmt_diags(env, s, frames, ctx).0.contains(old_diag(sp)),
    decreases s,
{
    let d = old_diag(sp);
    match s {
        Statement::Increases { expression, span } => {
            lemma_old_reported(env, expression, frames, with_step(ctx, false), sp);
            lemma_concat_contains(
                flag(!ctx.in_invariant, "increases is only valid inside invariants"@, span),
                expr_diags(env, expression, frames, with_step(ctx, false)),
                d,
            );
        },
        Statement::Decreases { expression, span } => {
            lemma_old_reported(env, expression, frames, with_step(ctx, false), sp);
            lemma_concat_contains(
                flag(!ctx.in_invariant, "decreases is only valid inside invariants"@, span),
                expr_diags(env, expression, frames, with_step(ctx, false)),
                d,
            );
        },
        Statement::Require { expression, .. } => lemma_old_reported(env, expression, frames, ctx, sp),
        Statement::Ensure { expression, .. } => lemma_old_reported(env, expression, frames, ctx, sp),
        Statement::Return { expression, span } => {
            lemma_old_reported(env, expression, frames, ctx, sp);
            lemma_concat_contains(
                flag(!ctx.in_predicate, "return is only valid inside predicates"@, span),
                expr_diags(env, expression, frames, ctx),
                d,
            );
        },
        Statement::Let { name, value, .. } => {
            lemma_old_reported(env, value, frames, ctx, sp);
            lemma_concat_contains(expr_diags(env, value, frames, ctx), define(frames, name).0, d);
        },
        Statement::Scoped { statement, .. } => {
            old_outside_step_in_a_statement_is_reported(env, *statement, frames, ctx, sp);
        },
        Statement::Invariant(inv) => {
            let ss = inv.body.statements@;
            let m = choose|m: int| 0 <= m < ss.len() && old_outside_step(#[trigger] ss[m], sp, invariant_ctx(ctx));
            let (d1, f1) = defines(frames.push(empty_frame()), inv.bindings@);
            let ictx = invariant_ctx(ctx);
            let fm = stmts_diags(env, ss.subrange(0, m), f1, ictx).1;
            assert(decreases_to!(s => inv));
            old_outside_step_in_a_statement_is_reported(env, ss[m], fm, ictx, sp);
            lemma_stmts_contain(env, ss, f1, ictx, m, d);
            lemma_concat_contains(loop_diags(env, inv, ctx) + d1, stmts_diags(env, ss, f1, ictx).0, d);
        },
        _ => {},
    }
}

/// An `old(..)` that a statement of a contract's body holds outside a `step` expression (in a
/// condition, a `let`, or an `increases` or `decreases` of one of its invariants) is reported
/// by the document at the `old`.
pub proof fn old_outside_step_in_a_contract_is_reported(md: MetadataModel, doc: Document<()>, k: int, j: int, sp: Span)
    requires
        0 <= k < doc.items@.len(),
        doc.items@[k] matches Item::Contract(c) && 0 <= j < c.body.statements@.len() && old_outside_step(
            c.body.statements@[j],
            sp,
            contract_ctx(md, c.target.name.name@),
        ),
    ensures
        document_diags(md, doc).contains(old_diag(sp)),
{
    let c = doc.items@[k]->Contract_0;
    let ss = c.body.statements@;
    let env = EnvV { model: md, globals: global_predicates(doc.items@).1 };
    let ctx = contract_ctx(md, c.target.name.name@);
    let f0 = seq![empty_frame()].push(empty_frame());
    let fj = stmts_diags(env, ss.subrange(0, j), f0, ctx).1;
    old_outside_step_in_a_statement_is_reported(env, ss[j], fj, ctx, sp);
    lemma_contract_stmt_contains(md, doc, k, j, old_diag(sp));
}

/// The names one lexical scope defines.
struct ScopeFrame {
    values: Vec<String>,
    predicates: Vec<String>,
}

impl View for ScopeFrame {
    type V = FrameV;

    closed spec fn view(&self) -> FrameV {
        FrameV { values: texts(self.values@), predicates: texts(self.predicates@) }
    }
}

/// The scopes of a list of frames, by value.
spec fn frames_view(s: Seq<ScopeFrame>) -> Seq<FrameV> {
    s.map_values(|f: ScopeFrame| f@)
}

/// The texts of no strings.
proof fn lemma_texts_empty()
    ensures
        texts(Seq::<String>::empty()) == Set::<Seq<char>>::empty(),
{
    assert(texts(Seq::<String>::empty()) =~= Set::<Seq<char>>::empty());
}

/// A scope that defines nothing.
fn new_frame() -> (r: ScopeFrame)
    ensures
        r@ == empty_frame(),
{
    proof {
        lemma_texts_empty();
    }
    ScopeFrame { values: Vec::new(), predicates: Vec::new() }
}

/// Copies a scope.
fn copy_frame(f: &ScopeFrame) -> (r: ScopeFrame)
    ensures
        r@ == f@,
{
    ScopeFrame { values: copy_texts(&f.values), predicates: copy_texts(&f.predicates) }
}

/// Copies a list of scopes.
fn copy_frames(s: &Vec<ScopeFrame>) -> (r: Vec<ScopeFrame>)
    ensures
        frames_view(r@) == frames_view(s@),
{
    let mut r: Vec<ScopeFrame> = Vec::new();
    let mut i: usize = 0;
    while i < s.len()
        invariant
            i <= s@.len(),
            r@.len() == i,
            forall|j: int| 0 <= j < i ==> #[trigger] r@[j]@ == s@[j]@,
        decreases s@.len() - i,
    {
        let ghost r0 = r@;
        r.push(copy_frame(&s[i]));
        proof {
            assert forall|j: int| 0 <= j < i + 1 implies #[trigger] r@[j]@ == s@[j]@ by {
                if j < i {
                    assert(r@[j] == r0[j]);
                }
            }
        }
        i = i + 1;
    }
    assert(frames_view(r@) =~= frames_view(s@));
    r
}

/// Adds `name` to a set of texts kept as a list; tells whether it was new.
fn insert_text(v: &mut Vec<String>, name: &String) -> (fresh: bool)
    ensures
        texts(final(v)@) == texts(old(v)@).insert(name@),
        fresh == !texts(old(v)@).contains(name@),
{
    if contains_text(v, name) {
        proof {
            assert(texts(v@).insert(name@) =~= texts(v@));
        }
        false
    } else {
        let ghost v0 = v@;
        v.push(name.clone());
        proof {
            lemma_texts_push(v0, v@.last());
            assert(v@ == v0.push(v@.last()));
        }
        true
    }
}

/// Where a statement or an expression stands: see [`CtxV`].
struct VerifyContext {
    in_predicate: bool,
    in_invariant: bool,
    in_step: bool,
    loop_scope: Option<LoopScope>,
    target: Option<String>,
}

impl View for VerifyContext {
    type V = CtxV;

    closed spec fn view(&self) -> CtxV {
        CtxV {
            in_predicate: self.in_predicate,
            in_invariant: self.in_invariant,
            in_step: self.in_step,
            loop_scope: match self.loop_scope {
                Some(sc) => Some(sc@),
                None => None,
            },
            target: match self.target {
                Some(t) => Some(t@),
                None => None,
            },
        }
    }
}

/// Copies an optional loop scope.
fn copy_scope(sc: &Option<LoopScope>) -> (r: Option<LoopScope>)
    ensures
        match (r, *sc) {
            (Some(a), Some(b)) => a@ == b@,
            (None, None) => true,
            _ => false,
        },
{
    match sc {
        Some(s) => Some(s.copy()),
        None => None,
    }
}

/// Copies an optional name.
fn copy_name(t: &Option<String>) -> (r: Option<String>)
    ensures
        match (r, *t) {
            (Some(a), Some(b)) => a@ == b@,
            (None, None) => true,
            _ => false,
        },
{
    match t {
        Some(s) => Some(s.clone()),
        None => None,
    }
}

impl VerifyContext {
    /// The context with `in_step` set to `b`.
    fn with_step(&self, b: bool) -> (r: VerifyContext)
        ensures
            r@ == with_step(self@, b),
    {
        VerifyContext {
            in_predicate: self.in_predicate,
            in_invariant: self.in_invariant,
            in_step: b,
            loop_scope: copy_scope(&self.loop_scope),
            target: copy_name(&self.target),
        }
    }

    /// The context of the statements of an invariant.
    fn in_invariant(&self) -> (r: VerifyContext)
        ensures
            r@ == invariant_ctx(self@),
    {
        VerifyContext {
            in_predicate: self.in_predicate,
            in_invariant: true,
            in_step: false,
            loop_scope: copy_scope(&self.loop_scope),
            target: copy_name(&self.target),
        }
    }
}

/// Checks the items of one document.
struct Verifier<'a> {
    /// Source the diagnostics are attributed to.
    source_name: &'a str,
    /// The metadata names and loops resolve against.
    ir: &'a IrMetadata,
    /// The names of the top-level predicates.
    global_predicates: Vec<String>,
}

impl<'a> Verifier<'a> {
    /// What the checks know besides the lexical scopes.
    spec fn env(&self) -> EnvV {
        EnvV { model: self.ir.model(), globals: texts(self.global_predicates@) }
    }

    /// Records a diagnostic.
    fn push(&self, diags: &mut Vec<Diagnostic>, message: String, span: Span)
        requires
            all_from(old(diags)@, self.source_name@),
        ensures
            all_from(final(diags)@, self.source_name@),
            diags_view(final(diags)@) == diags_view(old(diags)@).push((message@, Some(span))),
    {
        let ghost d0 = diags@;
        let d = Diagnostic::new(self.source_name, message, Some(span));
        let ghost dv = d;
        diags.push(d);
        proof {
            assert(diags@ == d0.push(dv));
            assert(diags_view(diags@) =~= diags_view(d0).push((dv.message@, Some(span))));
            assert forall|i: int| 0 <= i < diags@.len() implies #[trigger] diags@[i].source@ == self.source_name@ by {
                if i < d0.len() {
                    assert(diags@[i] == d0[i]);
                    assert(d0[i].source@ == self.source_name@);
                } else {
                    assert(diags@[i] == dv);
                    assert(dv.source@ == self.source_name@);
                }
            }
        }
    }

    /// Whether `name` resolves: see [`visible`].
    fn name_visible(&self, scopes: &Vec<ScopeFrame>, ctx: &VerifyContext, name: &String) -> (r: bool)
        ensures
            r == visible(self.env(), frames_view(scopes@), ctx@, name@),
    {
        let ghost fv = frames_view(scopes@);
        let mut i: usize = 0;
        while i < scopes.len()
            invariant
                i <= scopes@.len(),
                fv == frames_view(scopes@),
                forall|j: int|
                    0 <= j < i ==> !(#[trigger] fv[j]).values.contains(name@) && !fv[j].predicates.contains(
                        name@,
                    ),
            decreases scopes@.len() - i,
        {
            if contains_text(&scopes[i].values, name) || contains_text(&scopes[i].predicates, name) {
                proof {
                    assert(fv[i as int] == scopes@[i as int]@);
                }
                return true;
            }
            proof {
                assert(fv[i as int] == scopes@[i as int]@);
            }
            i = i + 1;
        }
        if contains_text(&self.global_predicates, name) {
            return true;
        }
        match &ctx.target {
            Some(t) => self.ir.symbol_visible_in_contract(t.as_str(), name.as_str()),
            None => false,
        }
    }

    /// The dotted path an expression names: see [`expr_path`].
    fn expression_path(e: &Expression<()>) -> (r: Option<String>)
        ensures
            match r {
                Some(p) => expr_path(*e) == Some(p@),
                None => expr_path(*e) is None,
            },
        decreases e,
    {
        match e {
            Expression::Symbol(id) => Some(id.name.name.clone()),
            Expression::Member { target, member, .. } => match Self::expression_path(target) {
                Some(p) => {
                    let mut p = p;
                    p.append(".");
                    p.append(member.name.name.as_str());
                    proof {
                        reveal_strlit(".");
                    }
                    Some(p)
                },
                None => None,
            },
            _ => None,
        }
    }

    /// Checks a member path from the contract target.
    fn check_member_path(
        &self,
        diags: &mut Vec<Diagnostic>,
        ctx: &VerifyContext,
        path: String,
        span: Span,
    )
        requires
            all_from(old(diags)@, self.source_name@),
        ensures
            all_from(final(diags)@, self.source_name@),
            diags_view(final(diags)@) == diags_view(old(diags)@) + match member_status(
                self.env(),
                ctx@,
                path@,
            ) {
                Some(true) => Seq::empty(),
                Some(false) => seq![(quoted("member `"@, path@) + " is not public"@, Some(span))],
                None => seq![(quoted("unknown identifier `"@, path@), Some(span))],
            },
    {
        let status = match &ctx.target {
            Some(t) => {
                let r = self.ir.member_visibility(t.as_str(), path.as_str());
                proof {
                    match paths_of_target(self.ir.member_paths@, t@) {
                        Some(ps) => {
                            lemma_assoc_pairs(ps@, path@);
                        },
                        None => {},
                    }
                }
                r
            },
            None => None,
        };
        let ghost d0 = diags_view(diags@);
        match status {
            Some(true) => {
                assert(diags_view(diags@) =~= d0 + Seq::<DiagV>::empty());
            },
            Some(false) => {
                let mut m = "member `".to_owned();
                m.append(path.as_str());
                m.append("` is not public");
                proof {
                    reveal_strlit("member `");
                    reveal_strlit("` is not public");
                    reveal_strlit("`");
                    reveal_strlit(" is not public");
                    assert(m@ =~= quoted("member `"@, path@) + " is not public"@);
                }
                self.push(diags, m, span);
                assert(diags_view(diags@) =~= d0 + seq![(quoted("member `"@, path@) + " is not public"@, Some(span))]);
            },
            None => {
                let mut m = "unknown identifier `".to_owned();
                m.append(path.as_str());
                m.append("`");
                self.push(diags, m, span);
                assert(diags_view(diags@) =~= d0 + seq![(quoted("unknown identifier `"@, path@), Some(span))]);
            },
        }
    }
}

impl<'a> Verifier<'a> {
    /// Checks an expression: see [`expr_diags`].
    fn verify_expression(
        &self,
        diags: &mut Vec<Diagnostic>,
        e: &Expression<()>,
        scopes: &mut Vec<ScopeFrame>,
        ctx: &VerifyContext,
    )
        requires
            all_from(old(diags)@, self.source_name@),
        ensures
            all_from(final(diags)@, self.source_name@),
            diags_view(final(diags)@) == diags_view(old(diags)@) + expr_diags(
                self.env(),
                *e,
                frames_view(old(scopes)@),
                ctx@,
            ),
            frames_view(final(scopes)@) == frames_view(old(scopes)@),
        decreases e,
    {
        let ghost d0 = diags_view(diags@);
        let ghost f0 = frames_view(scopes@);
        let ghost env = self.env();
        match e {
            Expression::Conditional { condition, then_branch, else_branch, .. } => {
                self.verify_expression(diags, condition, scopes, ctx);
                self.verify_expression(diags, then_branch, scopes, ctx);
                self.verify_expression(diags, else_branch, scopes, ctx);
                assert(diags_view(diags@) =~= d0 + expr_diags(env, *e, f0, ctx@));
            },
            Expression::Binary { left, right, .. } => {
                self.verify_expression(diags, left, scopes, ctx);
                self.verify_expression(diags, right, scopes, ctx);
                assert(diags_view(diags@) =~= d0 + expr_diags(env, *e, f0, ctx@));
            },
            Expression::Unary { expr, .. } => {
                self.verify_expression(diags, expr, scopes, ctx);
            },
            Expression::Index { target, index, .. } => {
                self.verify_expression(diags, target, scopes, ctx);
                self.verify_expression(diags, index, scopes, ctx);
                assert(diags_view(diags@) =~= d0 + expr_diags(env, *e, f0, ctx@));
            },
            Expression::Member { target, span, .. } => {
                self.verify_expression(diags, target, scopes, ctx);
                let ghost d1 = diags_view(diags@);
                match Self::expression_path(e) {
                    Some(path) => {
                        self.check_member_path(diags, ctx, path, *span);
                    },
                    None => {},
                }
                assert(diags_view(diags@) =~= d0 + expr_diags(env, *e, f0, ctx@));
            },
            Expression::Call { callee, args, .. } => {
                if !self.name_visible(scopes, ctx, &callee.name.name) {
                    let mut m = "unknown identifier `".to_owned();
                    m.append(callee.name.name.as_str());
                    m.append("`");
                    self.push(diags, m, callee.span);
                }
                let ghost d1 = diags_view(diags@);
                assert(d1 =~= d0 + flag(
                    !visible(env, f0, ctx@, callee.name.name@),
                    quoted("unknown identifier `"@, callee.name.name@),
                    callee.span,
                ));
                proof {
                    assert forall|k: int| 0 <= k < args@.len() implies decreases_to!(e => #[trigger] args@[k]) by {
                        assert(decreases_to!(e => args));
                        assert(decreases_to!(args => args@[k]));
                    }
                    assert(args@.subrange(0, 0) =~= Seq::<Expression<()>>::empty());
                }
                let mut i: usize = 0;
                while i < args.len()
                    invariant
                        i <= args@.len(),
                        all_from(diags@, self.source_name@),
                        diags_view(diags@) == d1 + args_diags(env, args@.subrange(0, i as int), f0, ctx@),
                        frames_view(scopes@) == f0,
                        env == self.env(),
                        forall|k: int| 0 <= k < args@.len() ==> decreases_to!(e => #[trigger] args@[k]),
                    decreases args@.len() - i,
                {
                    self.verify_expression(diags, &args[i], scopes, ctx);
                    proof {
                        let sub = args@.subrange(0, i + 1);
                        assert(sub.subrange(0, i as int) =~= args@.subrange(0, i as int));
                        assert(sub[i as int] == args@[i as int]);
                    }
                    i = i + 1;
                }
                assert(args@.subrange(0, args@.len() as int) =~= args@);
                assert(diags_view(diags@) =~= d0 + expr_diags(env, *e, f0, ctx@));
            },
            Expression::Quantifier { binding, domain, body, .. } => {
                match domain {
                    QuantifierDomain::Range { start, end, .. } => {
                        self.verify_expression(diags, start, scopes, ctx);
                        self.verify_expression(diags, end, scopes, ctx);
                    },
                    QuantifierDomain::Expr(x) => {
                        self.verify_expression(diags, x, scopes, ctx);
                    },
                }
                let ghost d1 = diags_view(diags@);
                assert(d1 =~= d0 + domain_diags(env, *domain, f0, ctx@));
                let mut frame = new_frame();
                insert_text(&mut frame.values, &binding.name.name);
                scopes.push(frame);
                proof {
                    assert(frame@.values =~= set![binding.name.name@]);
                    assert(frames_view(scopes@) =~= f0.push(
                        FrameV { values: set![binding.name.name@], predicates: Set::empty() },
                    ));
                }
                self.verify_expression(diags, body, scopes, ctx);
                let ghost f2 = scopes@;
                scopes.pop();
                proof {
                    assert(scopes@ == f2.drop_last());
                    assert(frames_view(scopes@) =~= frames_view(f2).drop_last());
                }
                assert(diags_view(diags@) =~= d0 + expr_diags(env, *e, f0, ctx@));
            },
            Expression::Len { target, .. } => {
                self.verify_expression(diags, target, scopes, ctx);
            },
            Expression::Old { expression, span, .. } => {
                if !ctx.in_step {
                    self.push(diags, "old is only valid inside step expressions".to_owned(), *span);
                }
                self.verify_expression(diags, expression, scopes, ctx);
                assert(diags_view(diags@) =~= d0 + expr_diags(env, *e, f0, ctx@));
            },
            Expression::Symbol(id) => {
                if !self.name_visible(scopes, ctx, &id.name.name) {
                    let mut m = "unknown identifier `".to_owned();
                    m.append(id.name.name.as_str());
                    m.append("`");
                    self.push(diags, m, id.span);
                }
                assert(diags_view(diags@) =~= d0 + expr_diags(env, *e, f0, ctx@));
            },
            _ => {
                assert(diags_view(diags@) =~= d0 + expr_diags(env, *e, f0, ctx@));
            },
        }
    }
}

/// [`define`] keeps the number of scopes and all but the innermost.
proof fn lemma_define_frames(frames: Seq<FrameV>, id: Identifier<()>)
    requires
        frames.len() > 0,
    ensures
        define(frames, id).1.len() == frames.len(),
        define(frames, id).1.drop_last() == frames.drop_last(),
{
    assert(define(frames, id).1.drop_last() =~= frames.drop_last());
}

/// [`defines`] keeps the number of scopes and all but the innermost.
proof fn lemma_defines_frames(frames: Seq<FrameV>, ids: Seq<Identifier<()>>)
    requires
        frames.len() > 0,
    ensures
        defines(frames, ids).1.len() == frames.len(),
        defines(frames, ids).1.drop_last() == frames.drop_last(),
    decreases ids.len(),
{
    if ids.len() > 0 {
        lemma_defines_frames(frames, ids.drop_last());
        lemma_define_frames(defines(frames, ids.drop_last()).1, ids.last());
    }
}

/// A statement keeps the number of scopes and all but the innermost.
proof fn lemma_stmt_frames(env: EnvV, s: Statement<()>, frames: Seq<FrameV>, ctx: CtxV)
    requires
        frames.len() > 0,
    ensures
        stmt_diags(env, s, frames, ctx).1.len() == frames.len(),
        stmt_diags(env, s, frames, ctx).1.drop_last() == frames.drop_last(),
    decreases s,
{
    match s {
        Statement::Scoped { statement, .. } => lemma_stmt_frames(env, *statement, frames, ctx),
        Statement::Let { name, .. } => lemma_define_frames(frames, name),
        Statement::Predicate(p) => {
            let r = stmt_diags(env, s, frames, ctx).1;
            assert(r.drop_last() =~= frames.drop_last());
        },
        _ => {},
    }
}

/// A list of statements keeps the number of scopes and all but the innermost.
proof fn lemma_stmts_frames(env: EnvV, ss: Seq<Statement<()>>, frames: Seq<FrameV>, ctx: CtxV)
    requires
        frames.len() > 0,
    ensures
        stmts_diags(env, ss, frames, ctx).1.len() == frames.len(),
        stmts_diags(env, ss, frames, ctx).1.drop_last() == frames.drop_last(),
    decreases ss.len(),
{
    if ss.len() > 0 {
        let pre = ss.subrange(0, ss.len() - 1);
        lemma_stmts_frames(env, pre, frames, ctx);
        lemma_stmt_frames(env, ss[ss.len() - 1], stmts_diags(env, pre, frames, ctx).1, ctx);
    }
}

impl<'a> Verifier<'a> {
    /// Defines `id` in the innermost scope: see [`define`].
    fn define_value(&self, diags: &mut Vec<Diagnostic>, scopes: &mut Vec<ScopeFrame>, id: &Identifier<()>)
        requires
            all_from(old(diags)@, self.source_name@),
            old(scopes)@.len() > 0,
        ensures
            all_from(final(diags)@, self.source_name@),
            diags_view(final(diags)@) == diags_view(old(diags)@) + define(frames_view(old(scopes)@), *id).0,
            frames_view(final(scopes)@) == define(frames_view(old(scopes)@), *id).1,
    {
        let ghost d0 = diags_view(diags@);
        let ghost s0 = scopes@;
        let mut last = scopes.pop().unwrap();
        let fresh = insert_text(&mut last.values, &id.name.name);
        scopes.push(last);
        proof {
            assert(scopes@ =~= s0.drop_last().push(scopes@.last()));
            assert(frames_view(scopes@) =~= define(frames_view(s0), *id).1);
        }
        if !fresh {
            let mut m = "duplicate local binding `".to_owned();
            m.append(id.name.name.as_str());
            m.append("`");
            self.push(diags, m, id.span);
        }
        assert(diags_view(diags@) =~= d0 + define(frames_view(s0), *id).0);
    }

    /// Defines each of `ids` in the innermost scope, in order: see [`defines`].
    fn define_values(&self, diags: &mut Vec<Diagnostic>, scopes: &mut Vec<ScopeFrame>, ids: &Vec<Identifier<()>>)
        requires
            all_from(old(diags)@, self.source_name@),
            old(scopes)@.len() > 0,
        ensures
            all_from(final(diags)@, self.source_name@),
            diags_view(final(diags)@) == diags_view(old(diags)@) + defines(frames_view(old(scopes)@), ids@).0,
            frames_view(final(scopes)@) == defines(frames_view(old(scopes)@), ids@).1,
    {
        let ghost d0 = diags_view(diags@);
        let ghost f0 = frames_view(scopes@);
        assert(ids@.subrange(0, 0) =~= Seq::<Identifier<()>>::empty());
        let mut i: usize = 0;
        while i < ids.len()
            invariant
                i <= ids@.len(),
                all_from(diags@, self.source_name@),
                f0.len() > 0,
                diags_view(diags@) == d0 + defines(f0, ids@.subrange(0, i as int)).0,
                frames_view(scopes@) == defines(f0, ids@.subrange(0, i as int)).1,
                scopes@.len() > 0,
            decreases ids@.len() - i,
        {
            proof {
                lemma_defines_frames(f0, ids@.subrange(0, i as int));
                let sub = ids@.subrange(0, i + 1);
                assert(sub.drop_last() =~= ids@.subrange(0, i as int));
                assert(sub.last() == ids@[i as int]);
            }
            self.define_value(diags, scopes, &ids[i]);
            proof {
                lemma_defines_frames(f0, ids@.subrange(0, i + 1));
            }
            i = i + 1;
        }
        assert(ids@.subrange(0, ids@.len() as int) =~= ids@);
    }
}

impl<'a> Verifier<'a> {
    /// Checks a block in a scope of its own: see [`block_diags`].
    fn verify_block(
        &self,
        diags: &mut Vec<Diagnostic>,
        b: &Block<()>,
        scopes: &mut Vec<ScopeFrame>,
        ctx: &VerifyContext,
    )
        requires
            all_from(old(diags)@, self.source_name@),
        ensures
            all_from(final(diags)@, self.source_name@),
            diags_view(final(diags)@) == diags_view(old(diags)@) + block_diags(
                self.env(),
                *b,
                frames_view(old(scopes)@),
                ctx@,
            ),
            frames_view(final(scopes)@) == frames_view(old(scopes)@),
        decreases b,
    {
        let ghost d0 = diags_view(diags@);
        let ghost f0 = frames_view(scopes@);
        scopes.push(new_frame());
        let ghost g0 = frames_view(scopes@);
        proof {
            assert(g0 =~= f0.push(empty_frame()));
        }
        self.verify_statements(diags, b, &b.statements, scopes, ctx);
        let ghost s1 = scopes@;
        proof {
            lemma_stmts_frames(self.env(), b.statements@, g0, ctx@);
        }
        scopes.pop();
        proof {
            assert(scopes@ == s1.drop_last());
            assert(frames_view(scopes@) =~= frames_view(s1).drop_last());
            assert(g0.drop_last() =~= f0);
        }
    }

    /// Checks the statements of a block, or of the body of an invariant, each seeing the
    /// scopes the ones before it leave: see [`stmts_diags`].
    fn verify_statements(
        &self,
        diags: &mut Vec<Diagnostic>,
        owner: &Block<()>,
        ss: &Vec<Statement<()>>,
        scopes: &mut Vec<ScopeFrame>,
        ctx: &VerifyContext,
    )
        requires
            all_from(old(diags)@, self.source_name@),
            old(scopes)@.len() > 0,
            ss == owner.statements,
        ensures
            all_from(final(diags)@, self.source_name@),
            diags_view(final(diags)@) == diags_view(old(diags)@) + stmts_diags(
                self.env(),
                ss@,
                frames_view(old(scopes)@),
                ctx@,
            ).0,
            frames_view(final(scopes)@) == stmts_diags(
                self.env(),
                ss@,
                frames_view(old(scopes)@),
                ctx@,
            ).1,
        decreases owner, 0nat,
    {
        let ghost d0 = diags_view(diags@);
        let ghost f0 = frames_view(scopes@);
        let ghost env = self.env();
        proof {
            assert forall|k: int| 0 <= k < ss@.len() implies decreases_to!(owner => #[trigger] ss@[k]) by {
                assert(decreases_to!(owner => owner.statements));
                assert(decreases_to!(owner.statements => owner.statements@[k]));
            }
            assert(ss@.subrange(0, 0) =~= Seq::<Statement<()>>::empty());
        }
        let mut i: usize = 0;
        while i < ss.len()
            invariant
                i <= ss@.len(),
                all_from(diags@, self.source_name@),
                env == self.env(),
                f0.len() > 0,
                diags_view(diags@) == d0 + stmts_diags(env, ss@.subrange(0, i as int), f0, ctx@).0,
                frames_view(scopes@) == stmts_diags(env, ss@.subrange(0, i as int), f0, ctx@).1,
                forall|k: int| 0 <= k < ss@.len() ==> decreases_to!(owner => #[trigger] ss@[k]),
            decreases ss@.len() - i,
        {
            proof {
                lemma_stmts_frames(env, ss@.subrange(0, i as int), f0, ctx@);
                let sub = ss@.subrange(0, i + 1);
                assert(sub.subrange(0, i as int) =~= ss@.subrange(0, i as int));
                assert(sub[i as int] == ss@[i as int]);
            }
            self.verify_statement(diags, &ss[i], scopes, ctx);
            i = i + 1;
        }
        assert(ss@.subrange(0, ss@.len() as int) =~= ss@);
    }

    /// Checks a statement: see [`stmt_diags`].
    fn verify_statement(
        &self,
        diags: &mut Vec<Diagnostic>,
        s: &Statement<()>,
        scopes: &mut Vec<ScopeFrame>,
        ctx: &VerifyContext,
    )
        requires
            all_from(old(diags)@, self.source_name@),
            old(scopes)@.len() > 0,
        ensures
            all_from(final(diags)@, self.source_name@),
            diags_view(final(diags)@) == diags_view(old(diags)@) + stmt_diags(
                self.env(),
                *s,
                frames_view(old(scopes)@),
                ctx@,
            ).0,
            frames_view(final(scopes)@) == stmt_diags(
                self.env(),
                *s,
                frames_view(old(scopes)@),
                ctx@,
            ).1,
        decreases s,
    {
        let ghost d0 = diags_view(diags@);
        let ghost f0 = frames_view(scopes@);
        let ghost env = self.env();
        match s {
            Statement::Scoped { statement, .. } => {
                self.verify_statement(diags, statement, scopes, ctx);
            },
            Statement::Block(b) => {
                self.verify_block(diags, b, scopes, ctx);
            },
            Statement::Require { expression, .. } => {
                self.verify_expression(diags, expression, scopes, ctx);
            },
            Statement::Ensure { expression, .. } => {
                self.verify_expression(diags, expression, scopes, ctx);
            },
            Statement::Let { name, value, .. } => {
                self.verify_expression(diags, value, scopes, ctx);
                assert(scopes@.len() == frames_view(scopes@).len());
                self.define_value(diags, scopes, name);
                assert(diags_view(diags@) =~= d0 + stmt_diags(env, *s, f0, ctx@).0);
            },
            Statement::Unused { name, .. } => {
                if !self.name_visible(scopes, ctx, &name.name.name) {
                    let mut m = "unused references unknown symbol `".to_owned();
                    m.append(name.name.name.as_str());
                    m.append("`");
                    self.push(diags, m, name.span);
                }
                assert(diags_view(diags@) =~= d0 + stmt_diags(env, *s, f0, ctx@).0);
            },
            Statement::Return { expression, span } => {
                if !ctx.in_predicate {
                    self.push(diags, "return is only valid inside predicates".to_owned(), *span);
                }
                self.verify_expression(diags, expression, scopes, ctx);
                assert(diags_view(diags@) =~= d0 + stmt_diags(env, *s, f0, ctx@).0);
            },
            Statement::Increases { expression, span } => {
                if !ctx.in_invariant {
                    self.push(diags, "increases is only valid inside invariants".to_owned(), *span);
                }
                self.verify_expression(diags, expression, scopes, &ctx.with_step(false));
                assert(diags_view(diags@) =~= d0 + stmt_diags(env, *s, f0, ctx@).0);
            },
            Statement::Decreases { expression, span } => {
                if !ctx.in_invariant {
                    self.push(diags, "decreases is only valid inside invariants".to_owned(), *span);
                }
                self.verify_expression(diags, expression, scopes, &ctx.with_step(false));
                assert(diags_view(diags@) =~= d0 + stmt_diags(env, *s, f0, ctx@).0);
            },
            Statement::Step { expression, span } => {
                if !ctx.in_invariant {
                    self.push(diags, "step is only valid inside invariants".to_owned(), *span);
                }
                self.verify_expression(diags, expression, scopes, &ctx.with_step(true));
                assert(diags_view(diags@) =~= d0 + stmt_diags(env, *s, f0, ctx@).0);
            },
            Statement::Invariant(inv) => {
                self.check_loop(diags, inv, ctx);
                let ghost d1 = diags_view(diags@);
                scopes.push(new_frame());
                let ghost g0 = frames_view(scopes@);
                proof {
                    assert(g0 =~= f0.push(empty_frame()));
                }
                self.define_values(diags, scopes, &inv.bindings);
                let ghost d2 = diags_view(diags@);
                let ghost g1 = frames_view(scopes@);
                proof {
                    lemma_defines_frames(g0, inv.bindings@);
                    assert(decreases_to!(s => inv));
                    assert(decreases_to!(inv => inv.body));
                }
                let ictx = ctx.in_invariant();
                self.verify_statements(diags, &inv.body, &inv.body.statements, scopes, &ictx);
                let ghost s3 = scopes@;
                proof {
                    lemma_stmts_frames(env, inv.body.statements@, g1, ictx@);
                }
                scopes.pop();
                proof {
                    assert(scopes@ == s3.drop_last());
                    assert(frames_view(scopes@) =~= frames_view(s3).drop_last());
                    assert(g0.drop_last() =~= f0);
                }
                assert(diags_view(diags@) =~= d0 + stmt_diags(env, *s, f0, ctx@).0);
            },
            Statement::Predicate(p) => {
                let ghost s0 = scopes@;
                let mut last = scopes.pop().unwrap();
                let fresh = insert_text(&mut last.predicates, &p.name.name.name);
                scopes.push(last);
                proof {
                    assert(scopes@ =~= s0.drop_last().push(scopes@.last()));
                    assert(frames_view(scopes@) =~= stmt_diags(env, *s, f0, ctx@).1);
                }
                if !fresh {
                    let mut m = "duplicate predicate `".to_owned();
                    m.append(p.name.name.name.as_str());
                    m.append("`");
                    self.push(diags, m, p.name.span);
                }
                self.verify_predicate(diags, p, scopes, &ctx.target);
                assert(diags_view(diags@) =~= d0 + stmt_diags(env, *s, f0, ctx@).0);
            },
            Statement::Empty { .. } => {
                assert(diags_view(diags@) =~= d0 + stmt_diags(env, *s, f0, ctx@).0);
            },
        }
    }

    /// Checks a predicate declared where `inherited` are the scopes: see [`predicate_diags`].
    fn verify_predicate(
        &self,
        diags: &mut Vec<Diagnostic>,
        p: &PredicateDecl<()>,
        inherited: &Vec<ScopeFrame>,
        target: &Option<String>,
    )
        requires
            all_from(old(diags)@, self.source_name@),
        ensures
            all_from(final(diags)@, self.source_name@),
            diags_view(final(diags)@) == diags_view(old(diags)@) + predicate_diags(
                self.env(),
                *p,
                frames_view(inherited@),
                match *target {
                    Some(t) => Some(t@),
                    None => None,
                },
            ),
        decreases p,
    {
        let ghost d0 = diags_view(diags@);
        let mut scopes = copy_frames(inherited);
        scopes.push(new_frame());
        proof {
            assert(frames_view(scopes@) =~= frames_view(inherited@).push(empty_frame()));
        }
        self.define_values(diags, &mut scopes, &p.params);
        let ctx = VerifyContext {
            in_predicate: true,
            in_invariant: false,
            in_step: false,
            loop_scope: None,
            target: copy_name(target),
        };
        self.verify_block(diags, &p.body, &mut scopes, &ctx);
        assert(diags_view(diags@) =~= d0 + predicate_diags(
            self.env(),
            *p,
            frames_view(inherited@),
            match *target {
                Some(t) => Some(t@),
                None => None,
            },
        ));
    }

    /// Checks the loop an invariant names: see [`loop_diags`].
    fn check_loop(&self, diags: &mut Vec<Diagnostic>, inv: &InvariantDecl<()>, ctx: &VerifyContext)
        requires
            all_from(old(diags)@, self.source_name@),
        ensures
            all_from(final(diags)@, self.source_name@),
            diags_view(final(diags)@) == diags_view(old(diags)@) + loop_diags(self.env(), *inv, ctx@),
    {
        let ghost d0 = diags_view(diags@);
        let name = &inv.loop_name.name.name;
        let found = match &ctx.loop_scope {
            Some(sc) => self.ir.lookup_loop(sc, name),
            None => None,
        };
        match found {
            Some(lm) => {
                if lm.binding_count != inv.bindings.len() {
                    let mut m = "loop `".to_owned();
                    m.append(name.as_str());
                    m.append("` expects ");
                    push_decimal(&mut m, lm.binding_count as u64);
                    m.append(" invariant bindings, found ");
                    push_decimal(&mut m, inv.bindings.len() as u64);
                    proof {
                        reveal_strlit("` expects ");
                        reveal_strlit("`");
                        reveal_strlit(" expects ");
                        assert(m@ =~= quoted("loop `"@, name@) + " expects "@ + crate::text::decimal(
                            lm.binding_count as nat,
                        ) + " invariant bindings, found "@ + crate::text::decimal(inv.bindings@.len()));
                    }
                    self.push(diags, m, inv.loop_name.span);
                }
            },
            None => {
                let mut m = "unknown loop label `".to_owned();
                m.append(name.as_str());
                m.append("`");
                self.push(diags, m, inv.loop_name.span);
            },
        }
        assert(diags_view(diags@) =~= d0 + loop_diags(self.env(), *inv, ctx@));
    }
}

impl<'a> Verifier<'a> {
    /// The scope of the loops a contract for `target` names: see [`contract_loop_scope`].
    fn contract_loop_scope(&self, target: &String) -> (r: Option<LoopScope>)
        ensures
            match r {
                Some(sc) => contract_loop_scope(self.ir.model(), target@) == Some(sc@),
                None => contract_loop_scope(self.ir.model(), target@) is None,
            },
    {
        let struct_scope = LoopScope::Struct(target.clone());
        proof {
            lemma_scope_used(*self.ir, struct_scope@);
        }
        if self.ir.has_loop_scope(&struct_scope) {
            return Some(struct_scope);
        }
        let function_scope = LoopScope::Function(target.clone());
        proof {
            lemma_scope_used(*self.ir, function_scope@);
        }
        if self.ir.has_loop_scope(&function_scope) {
            return Some(function_scope);
        }
        None
    }

    /// Checks a contract: see [`contract_diags`].
    fn verify_contract(&self, diags: &mut Vec<Diagnostic>, c: &ContractDecl<()>)
        requires
            all_from(old(diags)@, self.source_name@),
        ensures
            all_from(final(diags)@, self.source_name@),
            diags_view(final(diags)@) == diags_view(old(diags)@) + contract_diags(self.env(), *c),
    {
        let ghost d0 = diags_view(diags@);
        let t = &c.target.name.name;
        if !self.ir.has_global_symbol(t.as_str()) {
            let mut m = "unknown contract target `".to_owned();
            m.append(t.as_str());
            m.append("`");
            self.push(diags, m, c.target.span);
        }
        let mut scopes: Vec<ScopeFrame> = Vec::new();
        scopes.push(new_frame());
        proof {
            assert(frames_view(scopes@) =~= seq![empty_frame()]);
        }
        let ctx = VerifyContext {
            in_predicate: false,
            in_invariant: false,
            in_step: false,
            loop_scope: self.contract_loop_scope(t),
            target: Some(t.clone()),
        };
        self.verify_block(diags, &c.body, &mut scopes, &ctx);
        assert(diags_view(diags@) =~= d0 + contract_diags(self.env(), *c));
    }

    /// Checks a top-level item: see [`item_diags`].
    fn verify_item(&self, diags: &mut Vec<Diagnostic>, item: &Item<()>)
        requires
            all_from(old(diags)@, self.source_name@),
        ensures
            all_from(final(diags)@, self.source_name@),
            diags_view(final(diags)@) == diags_view(old(diags)@) + item_diags(self.env(), *item),
    {
        match item {
            Item::Contract(c) => self.verify_contract(diags, c),
            Item::Predicate(p) => {
                let none: Vec<ScopeFrame> = Vec::new();
                proof {
                    assert(frames_view(none@) =~= Seq::<FrameV>::empty());
                }
                self.verify_predicate(diags, p, &none, &None);
            },
        }
    }
}

/// Collects the names of the top-level predicates, reporting those declared twice: see
/// [`global_predicates`].
fn collect_global_predicates(source_name: &str, items: &Vec<Item<()>>, diags: &mut Vec<Diagnostic>) -> (r: Vec<
    String,
>)
    requires
        all_from(old(diags)@, source_name@),
    ensures
        all_from(final(diags)@, source_name@),
        diags_view(final(diags)@) == diags_view(old(diags)@) + global_predicates(items@).0,
        texts(r@) == global_predicates(items@).1,
{
    let ghost d0 = diags_view(diags@);
    let mut names: Vec<String> = Vec::new();
    proof {
        assert(items@.subrange(0, 0) =~= Seq::<Item<()>>::empty());
        lemma_texts_empty();
    }
    let mut i: usize = 0;
    while i < items.len()
        invariant
            i <= items@.len(),
            all_from(diags@, source_name@),
            diags_view(diags@) == d0 + global_predicates(items@.subrange(0, i as int)).0,
            texts(names@) == global_predicates(items@.subrange(0, i as int)).1,
        decreases items@.len() - i,
    {
        proof {
            let sub = items@.subrange(0, i + 1);
            assert(sub.drop_last() =~= items@.subrange(0, i as int));
            assert(sub.last() == items@[i as int]);
        }
        let ghost dd = diags_view(diags@);
        match &items[i] {
            Item::Predicate(p) => {
                if !insert_text(&mut names, &p.name.name.name) {
                    let mut m = "duplicate predicate `".to_owned();
                    m.append(p.name.name.name.as_str());
                    m.append("`");
                    let ghost d1 = diags@;
                    let ghost mv = m@;
                    let dg = Diagnostic::new(source_name, m, Some(p.name.span));
                    let ghost dv = dg;
                    diags.push(dg);
                    proof {
                        assert(diags@ == d1.push(dv));
                        assert(diags_view(diags@) =~= diags_view(d1).push((mv, Some(p.name.span))));
                        assert forall|j: int| 0 <= j < diags@.len() implies #[trigger] diags@[j].source@ == source_name@ by {
                            if j < d1.len() {
                                assert(diags@[j] == d1[j]);
                                assert(d1[j].source@ == source_name@);
                            } else {
                                assert(diags@[j] == dv);
                                assert(dv.source@ == source_name@);
                            }
                        }
                    }
                }
                let ghost name = p.name.name.name@;
                let ghost g = global_predicates(items@.subrange(0, i as int)).1;
                assert(diags_view(diags@) =~= dd + flag(g.contains(name), quoted("duplicate predicate `"@, name), p.name.span));
            },
            Item::Contract(_) => {},
        }
        i = i + 1;
    }
    assert(items@.subrange(0, items@.len() as int) =~= items@);
    names
}

/// Checks a document against the metadata of its IR module. It passes when nothing is
/// reported, and otherwise fails with what [`document_diags`] states, in that order, each
/// attributed to `source_name`.
pub fn verify_document(document: &Document<()>, ir: &IrMetadata, source_name: &str) -> (r: Result<
    (),
    Vec<Diagnostic>,
>)
    ensures
        match r {
            Ok(()) => document_diags(ir.model(), *document).len() == 0,
            Err(ds) => ds@.len() > 0 && diags_view(ds@) == document_diags(ir.model(), *document)
                && all_from(ds@, source_name@),
        },
{
    let mut diags: Vec<Diagnostic> = Vec::new();
    let globals = collect_global_predicates(source_name, &document.items, &mut diags);
    let verifier = Verifier { source_name, ir, global_predicates: globals };
    let ghost env = verifier.env();
    let ghost d0 = diags_view(diags@);
    proof {
        assert(document.items@.subrange(0, 0) =~= Seq::<Item<()>>::empty());
    }
    let mut i: usize = 0;
    while i < document.items.len()
        invariant
            i <= document.items@.len(),
            all_from(diags@, source_name@),
            verifier.source_name == source_name,
            env == verifier.env(),
            diags_view(diags@) == d0 + items_diags(env, document.items@.subrange(0, i as int)),
        decreases document.items@.len() - i,
    {
        proof {
            let sub = document.items@.subrange(0, i + 1);
            assert(sub.drop_last() =~= document.items@.subrange(0, i as int));
            assert(sub.last() == document.items@[i as int]);
        }
        verifier.verify_item(&mut diags, &document.items[i]);
        i = i + 1;
    }
    proof {
        assert(document.items@.subrange(0, document.items@.len() as int) =~= document.items@);
        assert(diags_view(diags@) =~= document_diags(ir.model(), *document));
    }
    if diags.len() == 0 {
        Ok(())
    } else {
        Err(diags)
    }
}

/// The member paths recorded for the target `t`.
spec fn paths_of_target(s: Seq<(String, Vec<(String, bool)>)>, t: Seq<char>) -> Option<Vec<(String, bool)>> {
    crate::type_analysis::scope::assoc(s, t)
}

} // verus!
