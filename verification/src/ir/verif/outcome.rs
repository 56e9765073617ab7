//! When lowering succeeds.
//!
//! Lowering fails on a name, argument or predicate it cannot find, on an operand that is not of
//! the kind of type its operation reads, on a name bound twice in one scope, and on a contract
//! target the circuit does not define. What it reads of the scopes to decide this is their
//! shape: names, positions and types, abstracted here as [`AScope`]s.
use vstd::prelude::*;
use crate::ast::{Expression, PredicateDecl, QuantifierDomain, Statement};
use crate::ir::verif::ScopeTag;
use crate::ir::verif::lower::Value;
use crate::type_analysis::scope::{Scope, assoc, assoc_num, lookup_local, lookup_param, lookup_predicate};
use crate::types::{Ty, TyV};

verus! {

/// What lowering reads of a scope: the names and types of its locals, its numbered parameters
/// and outputs, the names of its predicates, and whether it hides the locals of enclosing
/// scopes.
pub struct AScope {
    pub locals: Seq<(Seq<char>, TyV)>,
    pub params: Seq<(usize, Seq<char>)>,
    pub outputs: Seq<(usize, Seq<char>)>,
    pub preds: Seq<Seq<char>>,
    pub limit: bool,
}

/// The shape of a scope.
pub open spec fn ascope(s: Scope<Value, u64, Option<ScopeTag>>) -> AScope {
    AScope {
        locals: s.locals@.map_values(|p: (String, Value)| (p.0@, p.1.ty@)),
        params: s.params@.map_values(|p: (usize, String)| (p.0, p.1@)),
        outputs: s.outputs@.map_values(|p: (usize, String)| (p.0, p.1@)),
        preds: s.predicates@.map_values(|p: (String, u64)| p.0@),
        limit: s.local_limit,
    }
}

/// The shapes of a stack of scopes.
pub open spec fn ascopes(ss: Seq<Scope<Value, u64, Option<ScopeTag>>>) -> Seq<AScope> {
    ss.map_values(|s: Scope<Value, u64, Option<ScopeTag>>| ascope(s))
}

/// A scope with nothing bound, which does not hide enclosing locals.
pub open spec fn empty_ascope() -> AScope {
    AScope { locals: Seq::empty(), params: Seq::empty(), outputs: Seq::empty(), preds: Seq::empty(), limit: false }
}

/// The type bound to `k` in an association list, searching from the most recent entry.
pub open spec fn a_assoc(s: Seq<(Seq<char>, TyV)>, k: Seq<char>) -> Option<TyV>
    decreases s.len(),
{
    if s.len() == 0 {
        None
    } else if s.last().0 == k {
        Some(s.last().1)
    } else {
        a_assoc(s.drop_last(), k)
    }
}

/// The name recorded for position `n`.
pub open spec fn a_num(s: Seq<(usize, Seq<char>)>, n: usize) -> Option<Seq<char>>
    decreases s.len(),
{
    if s.len() == 0 {
        None
    } else if s.last().0 == n {
        Some(s.last().1)
    } else {
        a_num(s.drop_last(), n)
    }
}

/// The type of the local `k` seen from the top of the stack.
pub open spec fn a_local(a: Seq<AScope>, k: Seq<char>) -> Option<TyV>
    decreases a.len(),
{
    if a.len() == 0 {
        None
    } else {
        match a_assoc(a.last().locals, k) {
            Some(t) => Some(t),
            None => if a.last().limit {
                None
            } else {
                a_local(a.drop_last(), k)
            },
        }
    }
}

/// The type of the `n`-th parameter seen from the top of the stack.
pub open spec fn a_param(a: Seq<AScope>, n: usize) -> Option<TyV>
    decreases a.len(),
{
    if a.len() == 0 {
        None
    } else {
        let here = match a_num(a.last().params, n) {
            Some(k) => a_assoc(a.last().locals, k),
            None => None,
        };
        match here {
            Some(t) => Some(t),
            None => if a.last().limit {
                None
            } else {
                a_param(a.drop_last(), n)
            },
        }
    }
}

/// Whether some scope binds the predicate `k`.
pub open spec fn a_pred(a: Seq<AScope>, k: Seq<char>) -> bool {
    exists|i: int, j: int| 0 <= i < a.len() && 0 <= j < a[i].preds.len() && #[trigger] a[i].preds[j] == k
}

/// The type of the value an expression lowers to.
pub open spec fn ety(e: Expression<Ty>, a: Seq<AScope>) -> TyV {
    match e {
        Expression::Symbol(i) => match a_local(a, i.name.name@) {
            Some(t) => t,
            None => TyV::Bool,
        },
        Expression::Arg { index, .. } => match a_param(a, index) {
            Some(t) => t,
            None => TyV::Bool,
        },
        Expression::Len { .. } => TyV::Index,
        _ => e.spec_meta()@,
    }
}

/// Whether lowering an expression finds every name, argument and predicate it reads and every
/// operand of an index, a member access or a length is of the kind of type it needs.
pub open spec fn expr_ok(e: Expression<Ty>, a: Seq<AScope>) -> bool
    decreases e,
{
    match e {
        Expression::Conditional { condition, then_branch, else_branch, .. } => expr_ok(*condition, a)
            && expr_ok(*then_branch, a) && expr_ok(*else_branch, a),
        Expression::Binary { left, right, .. } => expr_ok(*left, a) && expr_ok(*right, a),
        Expression::Unary { expr, .. } => expr_ok(*expr, a),
        Expression::Index { target, index, .. } => expr_ok(*target, a) && expr_ok(*index, a) && ety(
            *target,
            a,
        ) is Array,
        Expression::Member { target, .. } => expr_ok(*target, a) && ety(*target, a) is Record,
        Expression::Call { callee, args, .. } => args_ok(args@, a) && a_pred(a, callee.name.name@),
        Expression::Len { target, .. } => expr_ok(*target, a) && ety(*target, a) is Array,
        Expression::Arg { index, .. } => a_param(a, index) is Some,
        Expression::Symbol(i) => a_local(a, i.name.name@) is Some,
        _ => true,
    }
}

/// [`expr_ok`] for each expression of a sequence.
pub open spec fn args_ok(es: Seq<Expression<Ty>>, a: Seq<AScope>) -> bool
    decreases es,
{
    if es.len() == 0 {
        true
    } else {
        expr_ok(es[0], a) && args_ok(es.subrange(1, es.len() as int), a)
    }
}

/// [`args_ok`] element by element.
pub proof fn lemma_args_ok(es: Seq<Expression<Ty>>, a: Seq<AScope>)
    ensures
        args_ok(es, a) <==> forall|i: int| 0 <= i < es.len() ==> #[trigger] expr_ok(es[i], a),
    decreases es.len(),
{
    if es.len() > 0 {
        let rest = es.subrange(1, es.len() as int);
        lemma_args_ok(rest, a);
        if forall|i: int| 0 <= i < es.len() ==> #[trigger] expr_ok(es[i], a) {
            assert forall|i: int| 0 <= i < rest.len() implies #[trigger] expr_ok(rest[i], a) by {
                assert(rest[i] == es[i + 1]);
            }
            assert(expr_ok(es[0], a));
        }
        if args_ok(es, a) {
            assert forall|i: int| 0 <= i < es.len() implies #[trigger] expr_ok(es[i], a) by {
                if i > 0 {
                    assert(es[i] == rest[i - 1]);
                }
            }
        }
    }
}

/// The shape of an association list of values.
pub proof fn lemma_assoc_shape(s: Seq<(String, Value)>, k: Seq<char>)
    ensures
        a_assoc(s.map_values(|p: (String, Value)| (p.0@, p.1.ty@)), k) == match assoc(s, k) {
            Some(v) => Some(v.ty@),
            None => None,
        },
    decreases s.len(),
{
    let m = s.map_values(|p: (String, Value)| (p.0@, p.1.ty@));
    if s.len() > 0 {
        assert(m.drop_last() =~= s.drop_last().map_values(|p: (String, Value)| (p.0@, p.1.ty@)));
        lemma_assoc_shape(s.drop_last(), k);
    }
}

/// The shape of a numbered association list.
pub proof fn lemma_num_shape(s: Seq<(usize, String)>, n: usize)
    ensures
        a_num(s.map_values(|p: (usize, String)| (p.0, p.1@)), n) == assoc_num(s, n),
    decreases s.len(),
{
    let m = s.map_values(|p: (usize, String)| (p.0, p.1@));
    if s.len() > 0 {
        assert(m.drop_last() =~= s.drop_last().map_values(|p: (usize, String)| (p.0, p.1@)));
        lemma_num_shape(s.drop_last(), n);
    }
}

/// Lookups read only the shape of the scopes.
pub proof fn lemma_lookup_shape(ss: Seq<Scope<Value, u64, Option<ScopeTag>>>, k: Seq<char>, n: usize)
    ensures
        a_local(ascopes(ss), k) == match lookup_local(ss, k) {
            Some(v) => Some(v.ty@),
            None => None,
        },
        a_param(ascopes(ss), n) == match lookup_param(ss, n) {
            Some(v) => Some(v.ty@),
            None => None,
        },
    decreases ss.len(),
{
    let a = ascopes(ss);
    if ss.len() > 0 {
        let top = ss.last();
        assert(a.last() == ascope(top));
        assert(a.drop_last() =~= ascopes(ss.drop_last()));
        lemma_assoc_shape(top.locals@, k);
        lemma_num_shape(top.params@, n);
        match assoc_num(top.params@, n) {
            Some(sym) => {
                lemma_assoc_shape(top.locals@, sym);
            },
            None => {},
        }
        lemma_lookup_shape(ss.drop_last(), k, n);
    }
}

/// A predicate found from the top of the stack is bound in some scope.
pub proof fn lemma_pred_shape(ss: Seq<Scope<Value, u64, Option<ScopeTag>>>, k: Seq<char>)
    ensures
        a_pred(ascopes(ss), k) <==> lookup_predicate(ss, k) is Some,
    decreases ss.len(),
{
    let a = ascopes(ss);
    if ss.len() > 0 {
        let top = ss.last();
        lemma_pred_shape(ss.drop_last(), k);
        let b = ascopes(ss.drop_last());
        assert(b =~= a.drop_last());
        lemma_assoc_has(top.predicates@, k);
        if a_pred(a, k) {
            let (i, j) = choose|i: int, j: int| 0 <= i < a.len() && 0 <= j < a[i].preds.len() && #[trigger] a[i].preds[j] == k;
            if i < a.len() - 1 {
                assert(b[i].preds[j] == k);
            } else {
                assert(a[i] == ascope(top));
                assert(top.predicates@[j].0@ == k);
            }
        }
        if lookup_predicate(ss, k) is Some {
            match assoc(top.predicates@, k) {
                Some(_) => {
                    let j = choose|j: int| 0 <= j < top.predicates@.len() && #[trigger] top.predicates@[j].0@ == k;
                    assert(a[a.len() - 1] == ascope(top));
                    assert(a[a.len() - 1].preds[j] == k);
                },
                None => {
                    let (i, j) = choose|i: int, j: int| 0 <= i < b.len() && 0 <= j < b[i].preds.len() && #[trigger] b[i].preds[j] == k;
                    assert(a[i] == b[i]);
                },
            }
        }
    }
}

/// A name has a binding in an association list when some entry has it.
pub proof fn lemma_assoc_has(s: Seq<(String, u64)>, k: Seq<char>)
    ensures
        assoc(s, k) is Some <==> exists|j: int| 0 <= j < s.len() && #[trigger] s[j].0@ == k,
    decreases s.len(),
{
    if s.len() > 0 {
        lemma_assoc_has(s.drop_last(), k);
        if exists|j: int| 0 <= j < s.len() && #[trigger] s[j].0@ == k {
            let j = choose|j: int| 0 <= j < s.len() && #[trigger] s[j].0@ == k;
            if j < s.len() - 1 {
                assert(s.drop_last()[j].0@ == k);
            }
        }
        if assoc(s.drop_last(), k) is Some {
            let j = choose|j: int| 0 <= j < s.drop_last().len() && #[trigger] s.drop_last()[j].0@ == k;
            assert(s[j].0@ == k);
        }
        if s.last().0@ == k {
            assert(s[s.len() - 1].0@ == k);
        }
    }
}

/// The shapes of a stack with one more scope.
pub proof fn lemma_ascopes_push(ss: Seq<Scope<Value, u64, Option<ScopeTag>>>, s: Scope<Value, u64, Option<ScopeTag>>)
    ensures
        ascopes(ss.push(s)) == ascopes(ss).push(ascope(s)),
        crate::type_analysis::scope::is_empty_scope(s) && !s.local_limit ==> ascope(s) == empty_ascope(),
{
    assert(ascopes(ss.push(s)) =~= ascopes(ss).push(ascope(s)));
    if crate::type_analysis::scope::is_empty_scope(s) && !s.local_limit {
        assert(ascope(s).locals =~= Seq::<(Seq<char>, TyV)>::empty());
        assert(ascope(s).params =~= Seq::<(usize, Seq<char>)>::empty());
        assert(ascope(s).outputs =~= Seq::<(usize, Seq<char>)>::empty());
        assert(ascope(s).preds =~= Seq::<Seq<char>>::empty());
    }
}

/// Pushing a scope with nothing bound changes no lookup.
pub proof fn lemma_push_empty_lookups(a: Seq<AScope>, k: Seq<char>, n: usize)
    ensures
        a_local(a.push(empty_ascope()), k) == a_local(a, k),
        a_param(a.push(empty_ascope()), n) == a_param(a, n),
        a_pred(a.push(empty_ascope()), k) == a_pred(a, k),
{
    let b = a.push(empty_ascope());
    assert(b.drop_last() =~= a);
    if a_pred(b, k) {
        let (i, j) = choose|i: int, j: int| 0 <= i < b.len() && 0 <= j < b[i].preds.len() && #[trigger] b[i].preds[j] == k;
        assert(a[i].preds[j] == k);
    }
    if a_pred(a, k) {
        let (i, j) = choose|i: int, j: int| 0 <= i < a.len() && 0 <= j < a[i].preds.len() && #[trigger] a[i].preds[j] == k;
        assert(b[i].preds[j] == k);
    }
}

/// Lowering an expression reads the same in a pushed scope with nothing bound.
pub proof fn lemma_expr_ok_push(e: Expression<Ty>, a: Seq<AScope>)
    ensures
        expr_ok(e, a.push(empty_ascope())) == expr_ok(e, a),
        ety(e, a.push(empty_ascope())) == ety(e, a),
    decreases e,
{
    let b = a.push(empty_ascope());
    match e {
        Expression::Conditional { condition, then_branch, else_branch, .. } => {
            lemma_expr_ok_push(*condition, a);
            lemma_expr_ok_push(*then_branch, a);
            lemma_expr_ok_push(*else_branch, a);
        },
        Expression::Binary { left, right, .. } => {
            lemma_expr_ok_push(*left, a);
            lemma_expr_ok_push(*right, a);
        },
        Expression::Unary { expr, .. } => {
            lemma_expr_ok_push(*expr, a);
        },
        Expression::Index { target, index, .. } => {
            lemma_expr_ok_push(*target, a);
            lemma_expr_ok_push(*index, a);
        },
        Expression::Member { target, .. } => {
            lemma_expr_ok_push(*target, a);
        },
        Expression::Call { callee, args, .. } => {
            lemma_args_ok_push(args@, a);
            lemma_push_empty_lookups(a, callee.name.name@, 0);
        },
        Expression::Len { target, .. } => {
            lemma_expr_ok_push(*target, a);
        },
        Expression::Arg { index, .. } => {
            lemma_push_empty_lookups(a, Seq::empty(), index);
        },
        Expression::Symbol(i) => {
            lemma_push_empty_lookups(a, i.name.name@, 0);
        },
        _ => {},
    }
}

/// [`lemma_expr_ok_push`] for each expression of a sequence.
pub proof fn lemma_args_ok_push(es: Seq<Expression<Ty>>, a: Seq<AScope>)
    ensures
        args_ok(es, a.push(empty_ascope())) == args_ok(es, a),
    decreases es,
{
    if es.len() > 0 {
        lemma_expr_ok_push(es[0], a);
        lemma_args_ok_push(es.subrange(1, es.len() as int), a);
    }
}

/// The stack with its innermost scope replaced by `s`.
pub open spec fn with_top(a: Seq<AScope>, s: AScope) -> Seq<AScope> {
    a.update(a.len() - 1, s)
}

/// The innermost scope with `name` bound to a local of type `t`.
pub open spec fn bind_local_a(s: AScope, name: Seq<char>, t: TyV) -> AScope {
    AScope { locals: s.locals.push((name, t)), ..s }
}

/// The innermost scope with `name` bound to a local of type `t` that is the `n`-th parameter.
pub open spec fn bind_param_a(s: AScope, name: Seq<char>, t: TyV, n: usize) -> AScope {
    AScope { locals: s.locals.push((name, t)), params: s.params.push((n, name)), ..s }
}

/// The innermost scope with `name` bound to a local of type `t` that is the `n`-th output.
pub open spec fn bind_output_a(s: AScope, name: Seq<char>, t: TyV, n: usize) -> AScope {
    AScope { locals: s.locals.push((name, t)), outputs: s.outputs.push((n, name)), ..s }
}

/// The innermost scope with the predicate `name` bound.
pub open spec fn bind_pred_a(s: AScope, name: Seq<char>) -> AScope {
    AScope { preds: s.preds.push(name), ..s }
}

/// The scope of a predicate's body: its first `n` parameters bound, in order, to locals of the
/// input types `ins`, each the parameter of its position.
pub open spec fn param_scope(ps: Seq<crate::ast::Identifier<Ty>>, ins: Seq<Ty>, n: int) -> AScope {
    AScope {
        locals: Seq::new(n as nat, |i: int| (ps[i].name.name@, ins[i]@)),
        params: Seq::new(n as nat, |i: int| (i as usize, ps[i].name.name@)),
        outputs: Seq::empty(),
        preds: Seq::empty(),
        limit: false,
    }
}

/// Whether a name occurs in a sequence of names.
pub open spec fn has_name(s: Seq<Seq<char>>, k: Seq<char>) -> bool {
    exists|j: int| 0 <= j < s.len() && s[j] == k
}

/// The stack after lowering a predicate declaration: its name bound in the innermost scope.
pub open spec fn pred_after(d: PredicateDecl<Ty>, a: Seq<AScope>) -> Seq<AScope> {
    with_top(a, bind_pred_a(a.last(), d.name.name.name@))
}

/// Whether lowering a predicate declaration succeeds: it has a function type with at least as
/// many inputs as it has parameters, whose names differ; its name is not bound yet in the
/// innermost scope; and its body lowers, in a scope of its parameters pushed on the stack that
/// binds the predicate.
pub open spec fn pred_ok(d: PredicateDecl<Ty>, a: Seq<AScope>) -> bool
    decreases d, 0nat,
{
    match d.name.meta {
        Ty::Func(f) => {
            &&& !has_name(a.last().preds, d.name.name.name@)
            &&& d.params@.len() <= f.ins@.len()
            &&& forall|i: int, j: int|
                0 <= i < j < d.params@.len() ==> #[trigger] d.params@[i].name.name@
                    != #[trigger] d.params@[j].name.name@
            &&& block_ok(
                d.body.statements@,
                pred_after(d, a).push(param_scope(d.params@, f.ins@, d.params@.len() as int)),
            )
        },
        _ => false,
    }
}

/// Whether lowering a statement succeeds, at the scopes `a`.
pub open spec fn stmt_ok(s: Statement<Ty>, a: Seq<AScope>) -> bool
    decreases s, 1nat,
{
    match s {
        Statement::Scoped { statement, .. } => stmt_ok(*statement, a.push(empty_ascope())),
        Statement::Block(b) => block_ok(b.statements@, a.push(empty_ascope())),
        Statement::Require { expression, .. } => expr_ok(expression, a),
        Statement::Ensure { expression, .. } => expr_ok(expression, a),
        Statement::Return { expression, .. } => expr_ok(expression, a),
        Statement::Let { name, value, .. } => expr_ok(value, a) && a_assoc(a.last().locals, name.name.name@)
            is None,
        Statement::Predicate(d) => pred_ok(d, a),
        _ => true,
    }
}

/// The scopes after lowering a statement: a `let` binds its name in the innermost scope, a
/// predicate declaration its predicate; other statements leave them as they were.
pub open spec fn stmt_after(s: Statement<Ty>, a: Seq<AScope>) -> Seq<AScope> {
    match s {
        Statement::Let { name, value, .. } => with_top(
            a,
            bind_local_a(a.last(), name.name.name@, ety(value, a)),
        ),
        Statement::Predicate(d) => pred_after(d, a),
        _ => a,
    }
}

/// Whether lowering the statements in order succeeds, starting at the scopes `a`.
pub open spec fn block_ok(ss: Seq<Statement<Ty>>, a: Seq<AScope>) -> bool
    decreases ss, 2nat,
{
    if ss.len() == 0 {
        true
    } else {
        stmt_ok(ss[0], a) && block_ok(ss.subrange(1, ss.len() as int), stmt_after(ss[0], a))
    }
}

/// The scopes after lowering the statements in order, starting at `a`.
pub open spec fn block_after(ss: Seq<Statement<Ty>>, a: Seq<AScope>) -> Seq<AScope>
    decreases ss.len(),
{
    if ss.len() == 0 {
        a
    } else {
        block_after(ss.subrange(1, ss.len() as int), stmt_after(ss[0], a))
    }
}

/// What binding a name in the innermost scope leaves of the shapes, and when it fails: `kind`
/// 0 binds a local, 1 a parameter, 2 an output.
pub open spec fn bound_a(a: Seq<AScope>, name: Seq<char>, t: TyV, kind: u8, n: usize) -> Seq<AScope> {
    with_top(
        a,
        if kind == 0 {
            bind_local_a(a.last(), name, t)
        } else if kind == 1 {
            bind_param_a(a.last(), name, t, n)
        } else {
            bind_output_a(a.last(), name, t, n)
        },
    )
}

/// Whether binding a name in the innermost scope fails: the name is bound there already, or,
/// for a parameter or an output, so is its position.
pub open spec fn bind_fails_a(a: Seq<AScope>, name: Seq<char>, kind: u8, n: usize) -> bool {
    a_assoc(a.last().locals, name) is Some || (kind == 1 && a_num(a.last().params, n) is Some) || (
    kind != 0 && kind != 1 && a_num(a.last().outputs, n) is Some)
}

/// A name found in an association list of types is one of its entries.
pub proof fn lemma_a_assoc_in(s: Seq<(Seq<char>, TyV)>, k: Seq<char>)
    requires
        a_assoc(s, k) is Some,
    ensures
        exists|j: int| 0 <= j < s.len() && #[trigger] s[j].0 == k,
    decreases s.len(),
{
    if s.last().0 != k {
        lemma_a_assoc_in(s.drop_last(), k);
        let j = choose|j: int| 0 <= j < s.drop_last().len() && #[trigger] s.drop_last()[j].0 == k;
        assert(s[j] == s.drop_last()[j]);
    } else {
        assert(s[s.len() - 1].0 == k);
    }
}

/// A position found in a numbered list is one of its entries.
pub proof fn lemma_a_num_in(s: Seq<(usize, Seq<char>)>, n: usize)
    requires
        a_num(s, n) is Some,
    ensures
        exists|j: int| 0 <= j < s.len() && #[trigger] s[j].0 == n,
    decreases s.len(),
{
    if s.last().0 != n {
        lemma_a_num_in(s.drop_last(), n);
        let j = choose|j: int| 0 <= j < s.drop_last().len() && #[trigger] s.drop_last()[j].0 == n;
        assert(s[j] == s.drop_last()[j]);
    } else {
        assert(s[s.len() - 1].0 == n);
    }
}

/// Predicates bound in a scope have the names of its entries.
pub proof fn lemma_preds_shape(s: Scope<Value, u64, Option<ScopeTag>>, k: Seq<char>)
    ensures
        has_name(ascope(s).preds, k) <==> assoc(s.predicates@, k) is Some,
{
    lemma_assoc_has(s.predicates@, k);
    let ps = ascope(s).preds;
    if has_name(ps, k) {
        let j = choose|j: int| 0 <= j < ps.len() && ps[j] == k;
        assert(s.predicates@[j].0@ == k);
    }
    if assoc(s.predicates@, k) is Some {
        let j = choose|j: int| 0 <= j < s.predicates@.len() && #[trigger] s.predicates@[j].0@ == k;
        assert(ps[j] == k);
    }
}

/// The name of the `n`-th argument of a contract's target.
pub open spec fn arg_name(n: usize) -> Seq<char> {
    "$arg["@ + crate::text::decimal(n as nat) + "]"@
}

/// The name of the `n`-th output of a contract's target.
pub open spec fn res_name(n: usize) -> Seq<char> {
    "$res["@ + crate::text::decimal(n as nat) + "]"@
}

/// The type a template parameter is read with: its own, or a field element.
pub open spec fn tmpl_ty(p: crate::type_analysis::ParamInfo) -> TyV {
    match p.ty {
        Some(t) => t@,
        None => TyV::Felt,
    }
}

/// Binding the template parameters from the `k`-th on, as locals, in `s`; `None` when one is
/// bound already.
pub open spec fn tmpl_from(t: crate::type_analysis::ContractTargetInfo, s: AScope, k: int) -> Option<AScope>
    decreases t.template_params@.len() - k,
{
    if k < 0 || k >= t.template_params@.len() {
        Some(s)
    } else {
        let nm = t.template_params@[k].name@;
        if a_assoc(s.locals, nm) is Some {
            None
        } else {
            tmpl_from(t, bind_local_a(s, nm, tmpl_ty(t.template_params@[k])), k + 1)
        }
    }
}

/// Binding the members from the `k`-th on, as locals, in `s`; `None` when one is bound already.
pub open spec fn members_from(t: crate::type_analysis::ContractTargetInfo, s: AScope, k: int) -> Option<AScope>
    decreases t.members@.len() - k,
{
    if k < 0 || k >= t.members@.len() {
        Some(s)
    } else {
        let nm = t.members@[k].name@;
        if a_assoc(s.locals, nm) is Some {
            None
        } else {
            members_from(t, bind_local_a(s, nm, t.members@[k].ty@), k + 1)
        }
    }
}

/// Binding the inputs from the `k`-th on in `s`: each as `$arg[N]`, the parameter of its
/// position, and as a local of its name when it has one; `None` when a name or position is
/// bound already.
pub open spec fn inputs_from(t: crate::type_analysis::ContractTargetInfo, s: AScope, k: int) -> Option<AScope>
    decreases t.inputs@.len() - k,
{
    if k < 0 || k >= t.inputs@.len() {
        Some(s)
    } else {
        let ty = t.inputs@[k].ty@;
        let an = arg_name(k as usize);
        if a_assoc(s.locals, an) is Some || a_num(s.params, k as usize) is Some {
            None
        } else {
            let s1 = bind_param_a(s, an, ty, k as usize);
            match t.inputs@[k].name {
                Some(n) => if a_assoc(s1.locals, n@) is Some {
                    None
                } else {
                    inputs_from(t, bind_local_a(s1, n@, ty), k + 1)
                },
                None => inputs_from(t, s1, k + 1),
            }
        }
    }
}

/// Binding the outputs from the `k`-th on in `s`, each as `$res[N]`, the output of its
/// position; `None` when a name or position is bound already.
pub open spec fn outputs_from(t: crate::type_analysis::ContractTargetInfo, s: AScope, k: int) -> Option<AScope>
    decreases t.outputs@.len() - k,
{
    if k < 0 || k >= t.outputs@.len() {
        Some(s)
    } else {
        let rn = res_name(k as usize);
        if a_assoc(s.locals, rn) is Some || a_num(s.outputs, k as usize) is Some {
            None
        } else {
            outputs_from(t, bind_output_a(s, rn, t.outputs@[k].ty@, k as usize), k + 1)
        }
    }
}

/// After the inputs: the outputs, for a function target.
pub open spec fn after_inputs(t: crate::type_analysis::ContractTargetInfo, o: Option<AScope>) -> Option<AScope> {
    match o {
        Some(s) => if t.self_type is Some {
            Some(s)
        } else {
            outputs_from(t, s, 0)
        },
        None => None,
    }
}

/// After the members: the inputs, then the outputs.
pub open spec fn after_members(t: crate::type_analysis::ContractTargetInfo, o: Option<AScope>) -> Option<AScope> {
    match o {
        Some(s) => after_inputs(t, inputs_from(t, s, 0)),
        None => None,
    }
}

/// After the template parameters: the members, for a struct target, then the rest.
pub open spec fn after_tmpl(t: crate::type_analysis::ContractTargetInfo, o: Option<AScope>) -> Option<AScope> {
    match o {
        Some(s) => after_members(
            t,
            if t.self_type is Some {
                members_from(t, s, 0)
            } else {
                Some(s)
            },
        ),
        None => None,
    }
}

/// The scope of a contract's body: its target's template parameters, members (of a struct),
/// inputs and outputs (of a function) bound in order; `None` when a name is bound twice.
pub open spec fn contract_scope(t: crate::type_analysis::ContractTargetInfo) -> Option<AScope> {
    after_tmpl(t, tmpl_from(t, empty_ascope(), 0))
}

/// Whether lowering a contract succeeds at the scopes `a`: its target is in the circuit, the
/// target's own type, if it has one, is a struct type, its bindings do not clash, and its body
/// lowers in the scope they make, pushed with an empty scope on the stack.
pub open spec fn contract_ok(
    decl: crate::ast::ContractDecl<Ty>,
    info: crate::type_analysis::CircuitInfo,
    a: Seq<AScope>,
) -> bool {
    match crate::type_analysis::target_lookup(info.targets@, decl.target.name.name@) {
        Some(t) => {
            &&& (t.self_type is Some ==> crate::ir::verif::lower::rec_kind(t.self_type->0@) == Some(
                crate::types::RecordKind::Struct,
            ))
            &&& match contract_scope(t) {
                Some(s) => block_ok(decl.body.statements@, a.push(empty_ascope()).push(s)),
                None => false,
            }
        },
        None => false,
    }
}

/// Whether lowering the items in order succeeds, starting at the scopes `a`.
pub open spec fn items_ok(items: Seq<crate::ast::Item<Ty>>, info: crate::type_analysis::CircuitInfo, a: Seq<AScope>) -> bool
    decreases items.len(),
{
    if items.len() == 0 {
        true
    } else {
        let rest = items.subrange(1, items.len() as int);
        match items[0] {
            crate::ast::Item::Contract(c) => contract_ok(c, info, a) && items_ok(rest, info, a),
            crate::ast::Item::Predicate(p) => pred_ok(p, a) && items_ok(rest, info, pred_after(p, a)),
        }
    }
}

} // verus!
