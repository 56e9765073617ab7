//! Lowering of type-checked specifications into operations of LLZK's `verif` dialect.
//!
//! The result is a plan: the operations to build, in order, each with its operands (SSA values,
//! numbered as they are defined), its result and its regions. Building the plan with an MLIR
//! builder is left to the caller; which operation each construct becomes, the casts between
//! field elements and indices, and the scoping of names are decided here.
use vstd::prelude::*;
use crate::ast::{BinaryOp, Expression, Identifier, Span, Statement, UnaryOp};
use crate::diagnostic::CompileError;
use crate::ir::verif::ScopeTag;
use crate::ir::verif::outcome::{
    AScope, a_pred, args_ok, ascope, ascopes, empty_ascope, ety, expr_ok, lemma_args_ok,
    lemma_ascopes_push, lemma_expr_ok_push, lemma_lookup_shape, lemma_pred_shape, bound_a,
    bind_fails_a, lemma_assoc_shape, lemma_num_shape, stmt_ok, stmt_after, block_ok, block_after,
    pred_ok, pred_after, param_scope, has_name, lemma_preds_shape, lemma_a_assoc_in, lemma_a_num_in,
    bind_pred_a, with_top, a_assoc, bind_param_a, contract_ok, contract_scope, after_tmpl, after_members,
    after_inputs, tmpl_from, members_from, inputs_from, outputs_from, tmpl_ty, arg_name, res_name,
    bind_local_a, bind_output_a, items_ok,
};
use crate::text::{concat2, concat3, decimal, push_decimal};
use crate::type_analysis::helpers::{binary_result_ty, is_logical, unary_ty};
use crate::type_analysis::scope::{
    Scope, ScopeStack, assoc, assoc_num, lookup_local, lookup_param, lookup_predicate,
};
use crate::types::{RecordKind, Ty, TyV, dims_view, lemma_tys_view, tys_view};

verus! {

/// An SSA value: its number and its type.
#[derive(Debug)]
pub struct Value {
    pub id: u64,
    pub ty: Ty,
}

impl Value {
    /// Returns a copy of the value.
    pub fn copy(&self) -> (r: Value)
        ensures
            r.id == self.id,
            r.ty@ == self.ty@,
    {
        Value { id: self.id, ty: self.ty.copy() }
    }
}

/// What an operation does.
#[derive(Debug)]
pub enum OpKind {
    /// `bool.or` and `bool.and` for `||` and `&&`, `bool.cmp` for comparisons, and the `felt`
    /// operation of the arithmetic operators.
    Binary(BinaryOp),
    /// `bool.not`.
    Not,
    /// `felt.neg`.
    Neg,
    /// `cast.toindex`: a field element as an index.
    ToIndex,
    /// `cast.tofelt`: an index as a field element.
    ToFelt,
    /// `poly.unifiable_cast` to the type of the result.
    UnifiableCast,
    /// `array.read` of an element of a one-dimensional array.
    ArrayRead,
    /// `array.extract` of a sub-array of a multi-dimensional array.
    ArrayExtract,
    /// `array.len` of the dimension given by the second operand.
    ArrayLen,
    /// `struct.readm` of the named member.
    StructRead(String),
    /// `pod.read` of the named field.
    PodRead(String),
    /// `function.call` of the `function.def` with the given number.
    Call(u64),
    /// `arith.constant` of type `index`.
    ConstIndex(u64),
    /// `arith.constant` of type `i1`.
    ConstBool(bool),
    /// `felt.const` with the given decimal digits.
    ConstFelt(String),
    /// `llzk.nondet`.
    Nondet,
    /// `poly.read_const` of the named template parameter.
    ReadConst(String),
    /// `scf.if`; its two regions are the branches.
    If,
    /// `scf.yield`, which ends a region.
    Yield,
    /// `scf.execute_region`; its region is the body.
    ExecuteRegion,
    /// `function.return`.
    Return,
    /// `verif.require` for the compute function.
    RequireCompute,
    /// `verif.require` for the constrain function.
    RequireConstrain,
    /// `verif.ensure` for the compute function.
    EnsureCompute,
    /// `verif.ensure` for the constrain function.
    EnsureConstrain,
    /// `function.def` of a predicate: its number, its name and its type; its region is the body.
    FuncDef { id: u64, name: String, ty: Ty },
    /// `verif.contract` with the given name, for the target of the given path; its region is the
    /// body.
    Contract { name: String, target: String },
}

/// A region of an operation: one block, with its arguments and operations.
#[derive(Debug)]
pub struct Region {
    pub args: Vec<Value>,
    pub ops: Vec<Op>,
}

/// An operation of the plan.
#[derive(Debug)]
pub struct Op {
    pub kind: OpKind,
    pub operands: Vec<u64>,
    pub result: Option<Value>,
    pub regions: Vec<Region>,
    pub span: Span,
}

/// `id` is a value of type `t`.
pub open spec fn has_type(defs: Map<u64, TyV>, id: u64, t: TyV) -> bool {
    defs.contains_key(id) && defs[id] == t
}

/// Whether an operation is a terminator of its block.
pub open spec fn is_terminator(o: Op) -> bool {
    o.kind is Yield || o.kind is Return
}

/// Whether a region ends with a terminator.
pub open spec fn terminated(r: Region) -> bool {
    r.ops@.len() > 0 && is_terminator(r.ops@.last())
}

/// The number of dimensions of an array type.
pub open spec fn arr_rank(t: TyV) -> Option<nat> {
    match t {
        TyV::Array(_, d) => Some(d.len()),
        _ => None,
    }
}

/// The kind of a struct-like type.
pub open spec fn rec_kind(t: TyV) -> Option<RecordKind> {
    match t {
        TyV::Record(k, _, _) => Some(k),
        _ => None,
    }
}

/// The operations end with a `scf.yield` of one value of type `t`.
pub open spec fn yields_ops(ops: Seq<Op>, defs: Map<u64, TyV>, t: TyV) -> bool {
    &&& ops.len() > 0
    &&& ops.last().kind is Yield
    &&& ops.last().operands@.len() == 1
    &&& has_type(defs, ops.last().operands@[0], t)
}

/// Region `k` ends with a `scf.yield` of one value of type `t`.
pub open spec fn yields(regions: Seq<Region>, k: int, defs: Map<u64, TyV>, t: TyV) -> bool {
    yields_ops(regions[k].ops@, defs, t)
}

/// The type of the value an operation defines, if it defines one.
pub open spec fn result_ty(o: Op) -> Option<TyV> {
    match o.result {
        Some(v) => Some(v.ty@),
        None => None,
    }
}

/// An operation of kind `k` with operands `ops`, defining a value of type `res` if any, with
/// regions `regions`, works on values of the right types and its regions end as it needs.
pub open spec fn kind_ok(
    k: OpKind,
    ops: Seq<u64>,
    res: Option<TyV>,
    regions: Seq<Region>,
    defs: Map<u64, TyV>,
) -> bool {
    match k {
        OpKind::Binary(op) => ops.len() == 2 && res == Some(binary_result_ty(op)) && (!is_logical(op)
            ==> defs[ops[0]] == TyV::Felt && defs[ops[1]] == TyV::Felt),
        OpKind::Not => ops.len() == 1 && res == Some(TyV::Bool),
        OpKind::Neg => ops.len() == 1 && defs[ops[0]] == TyV::Felt && res == Some(TyV::Felt),
        OpKind::ToIndex => ops.len() == 1 && defs[ops[0]] == TyV::Felt && res == Some(TyV::Index),
        OpKind::ToFelt => ops.len() == 1 && defs[ops[0]] == TyV::Index && res == Some(TyV::Felt),
        OpKind::UnifiableCast => ops.len() == 1 && res is Some,
        OpKind::ArrayRead => ops.len() == 2 && (arr_rank(defs[ops[0]]) is Some && arr_rank(
            defs[ops[0]],
        )->0 <= 1) && defs[ops[1]] == TyV::Index && res is Some,
        OpKind::ArrayExtract => ops.len() == 2 && (arr_rank(defs[ops[0]]) is Some && arr_rank(
            defs[ops[0]],
        )->0 > 1) && defs[ops[1]] == TyV::Index && res is Some,
        OpKind::ArrayLen => ops.len() == 2 && arr_rank(defs[ops[0]]) is Some && defs[ops[1]]
            == TyV::Index && res == Some(TyV::Index),
        OpKind::StructRead(_) => ops.len() == 1 && rec_kind(defs[ops[0]]) == Some(RecordKind::Struct)
            && res is Some,
        OpKind::PodRead(_) => ops.len() == 1 && rec_kind(defs[ops[0]]) == Some(RecordKind::Pod)
            && res is Some,
        OpKind::Call(_) => res is Some,
        OpKind::ConstIndex(_) => ops.len() == 0 && res == Some(TyV::Index),
        OpKind::ConstBool(_) => ops.len() == 0 && res is Some,
        OpKind::ConstFelt(_) => ops.len() == 0 && res == Some(TyV::Felt),
        OpKind::Nondet => ops.len() == 0 && res is Some,
        OpKind::ReadConst(_) => ops.len() == 0 && res is Some,
        OpKind::If => ops.len() == 1 && regions.len() == 2 && match res {
            Some(t) => yields(regions, 0, defs, t) && yields(regions, 1, defs, t),
            None => false,
        },
        OpKind::Yield => res is None,
        OpKind::ExecuteRegion => ops.len() == 0 && res is None && regions.len() == 1 && terminated(
            regions[0],
        ),
        OpKind::Return => ops.len() == 1 && res is None,
        OpKind::RequireCompute => ops.len() == 1 && res is None,
        OpKind::RequireConstrain => ops.len() == 1 && res is None,
        OpKind::EnsureCompute => ops.len() == 1 && res is None,
        OpKind::EnsureConstrain => ops.len() == 1 && res is None,
        OpKind::FuncDef { .. } => ops.len() == 0 && res is None && regions.len() == 1,
        OpKind::Contract { .. } => ops.len() == 0 && res is None && regions.len() == 1,
    }
}

/// Every operand is a defined value.
pub open spec fn operands_defined(ops: Seq<u64>, defs: Map<u64, TyV>) -> bool {
    forall|i: int| 0 <= i < ops.len() ==> defs.contains_key(#[trigger] ops[i])
}

/// The operation is well formed: its operands are defined values of the types it works on, its
/// result is a defined value of the type it produces, and its regions end as it needs.
pub open spec fn op_ok(o: Op, defs: Map<u64, TyV>) -> bool {
    &&& operands_defined(o.operands@, defs)
    &&& match o.result {
        Some(v) => has_type(defs, v.id, v.ty@),
        None => true,
    }
    &&& kind_ok(o.kind, o.operands@, result_ty(o), o.regions@, defs)
}

/// A value defined in a submap is defined, with the same type, in the larger map.
pub proof fn lemma_sub(d1: Map<u64, TyV>, d2: Map<u64, TyV>, x: u64)
    requires
        d1.submap_of(d2),
        d1.contains_key(x),
    ensures
        d2.contains_key(x),
        d2[x] == d1[x],
{
    assert(d1.dom().contains(x));
    assert(d2.dom().contains(x));
}

/// A map is a submap of itself.
pub proof fn lemma_sub_refl(d: Map<u64, TyV>)
    ensures
        d.submap_of(d),
{
    assert forall|k: u64| #[trigger] d.dom().contains(k) implies d.dom().contains(k) && d[k] == d[k] by {}
}

/// Submaps compose.
pub proof fn lemma_sub_trans(d1: Map<u64, TyV>, d2: Map<u64, TyV>, d3: Map<u64, TyV>)
    requires
        d1.submap_of(d2),
        d2.submap_of(d3),
    ensures
        d1.submap_of(d3),
{
    assert forall|k: u64| #[trigger] d1.dom().contains(k) implies d3.dom().contains(k) && d1[k]
        == d3[k] by {
        lemma_sub(d1, d2, k);
        lemma_sub(d2, d3, k);
    }
}

/// Operations that yield a value of type `t` still do when more values are defined.
pub proof fn lemma_yields_grow(ops: Seq<Op>, d1: Map<u64, TyV>, d2: Map<u64, TyV>, t: TyV)
    requires
        yields_ops(ops, d1, t),
        d1.submap_of(d2),
    ensures
        yields_ops(ops, d2, t),
{
    lemma_sub(d1, d2, ops.last().operands@[0]);
}

/// [`kind_ok`] stays true when more values are defined.
pub proof fn lemma_kind_ok_grow(
    k: OpKind,
    ops: Seq<u64>,
    res: Option<TyV>,
    regions: Seq<Region>,
    d1: Map<u64, TyV>,
    d2: Map<u64, TyV>,
)
    requires
        kind_ok(k, ops, res, regions, d1),
        operands_defined(ops, d1),
        d1.submap_of(d2),
    ensures
        kind_ok(k, ops, res, regions, d2),
{
    if ops.len() > 0 {
        assert(d1.contains_key(ops[0]));
        lemma_sub(d1, d2, ops[0]);
    }
    if ops.len() > 1 {
        assert(d1.contains_key(ops[1]));
        lemma_sub(d1, d2, ops[1]);
    }
    match k {
        OpKind::If => {
            match res {
                Some(t) => {
                    let x0 = regions[0].ops@.last().operands@[0];
                    let x1 = regions[1].ops@.last().operands@[0];
                    assert(has_type(d1, x0, t));
                    assert(has_type(d1, x1, t));
                    lemma_sub(d1, d2, x0);
                    lemma_sub(d1, d2, x1);
                },
                None => {},
            }
        },
        _ => {},
    }
}

/// A well-formed operation stays well formed when more values are defined.
pub proof fn lemma_op_ok_grow(o: Op, d1: Map<u64, TyV>, d2: Map<u64, TyV>)
    requires
        op_ok(o, d1),
        d1.submap_of(d2),
    ensures
        op_ok(o, d2),
{
    let ops = o.operands@;
    assert forall|i: int| 0 <= i < ops.len() implies d2.contains_key(#[trigger] ops[i]) by {
        assert(d1.contains_key(ops[i]));
    }
    lemma_kind_ok_grow(o.kind, ops, result_ty(o), o.regions@, d1, d2);
}

/// [`op_ok`] for each operation of a sequence.
pub open spec fn ops_ok(ops: Seq<Op>, defs: Map<u64, TyV>) -> bool {
    forall|i: int| 0 <= i < ops.len() ==> #[trigger] op_ok(ops[i], defs)
}

/// [`lemma_op_ok_grow`] for each operation of a sequence.
pub proof fn lemma_ops_ok_grow(ops: Seq<Op>, d1: Map<u64, TyV>, d2: Map<u64, TyV>)
    requires
        ops_ok(ops, d1),
        d1.submap_of(d2),
    ensures
        ops_ok(ops, d2),
{
    assert forall|i: int| 0 <= i < ops.len() implies #[trigger] op_ok(ops[i], d2) by {
        lemma_op_ok_grow(ops[i], d1, d2);
    }
}

/// The tag of the innermost tagged scope.
pub open spec fn closest_tag<L, F>(scopes: Seq<crate::type_analysis::scope::Scope<L, F, Option<ScopeTag>>>) -> ScopeTag
    decreases scopes.len(),
{
    if scopes.len() == 0 {
        ScopeTag::Root
    } else {
        match scopes.last().payload {
            Some(t) => t,
            None => closest_tag(scopes.drop_last()),
        }
    }
}

/// Whether an expression can be lowered: it holds no quantifier and no `old(..)`, which are not
/// supported yet, and the types of operations and numbers are those the operations produce.
pub open spec fn lowerable_expr(e: Expression<Ty>) -> bool
    decreases e,
{
    match e {
        Expression::Conditional { condition, then_branch, else_branch, .. } => lowerable_expr(
            *condition,
        ) && lowerable_expr(*then_branch) && lowerable_expr(*else_branch),
        Expression::Binary { op, left, right, meta, .. } => meta@ == binary_result_ty(op)
            && lowerable_expr(*left) && lowerable_expr(*right),
        Expression::Unary { op, expr, meta, .. } => meta@ == unary_ty(op) && lowerable_expr(*expr),
        Expression::Index { target, index, .. } => lowerable_expr(*target) && lowerable_expr(*index),
        Expression::Member { target, .. } => lowerable_expr(*target),
        Expression::Call { args, .. } => lowerable_args(args@),
        Expression::Quantifier { .. } => false,
        Expression::Len { target, .. } => lowerable_expr(*target),
        Expression::Old { .. } => false,
        Expression::Number { meta, .. } => meta@ == TyV::Felt,
        _ => true,
    }
}

/// [`lowerable_expr`] for each expression of a sequence.
pub open spec fn lowerable_args(es: Seq<Expression<Ty>>) -> bool
    decreases es,
{
    if es.len() == 0 {
        true
    } else {
        lowerable_expr(es[0]) && lowerable_args(es.subrange(1, es.len() as int))
    }
}

/// [`lowerable_args`] element by element.
pub proof fn lemma_lowerable_args(es: Seq<Expression<Ty>>)
    requires
        lowerable_args(es),
    ensures
        forall|i: int| 0 <= i < es.len() ==> #[trigger] lowerable_expr(es[i]),
    decreases es.len(),
{
    if es.len() > 0 {
        let rest = es.subrange(1, es.len() as int);
        lemma_lowerable_args(rest);
        assert forall|i: int| 0 <= i < es.len() implies #[trigger] lowerable_expr(es[i]) by {
            if i > 0 {
                assert(es[i] == rest[i - 1]);
            }
        }
    }
}

/// The name a `struct.readm` or `pod.read` reads.
pub open spec fn read_name(k: OpKind) -> Option<Seq<char>> {
    match k {
        OpKind::StructRead(n) => Some(n@),
        OpKind::PodRead(n) => Some(n@),
        _ => None,
    }
}

/// `last` defines the value `v`.
pub open spec fn defines(last: Op, v: Value) -> bool {
    last.result matches Some(w) && w.id == v.id && w.ty@ == v.ty@
}

/// What the lowering of `e` produced: its value `v`, defined by the operation `last` that the
/// construct becomes, or found in `scopes` for names and arguments.
pub open spec fn produces(
    e: Expression<Ty>,
    v: Value,
    scopes: Seq<crate::type_analysis::scope::Scope<Value, u64, Option<ScopeTag>>>,
    last: Op,
) -> bool {
    match e {
        Expression::Conditional { meta, .. } => v.ty@ == meta@ && last.kind is If && defines(last, v),
        Expression::Binary { op, meta, .. } => v.ty@ == meta@ && last.kind == OpKind::Binary(op)
            && defines(last, v),
        Expression::Unary { op, meta, .. } => v.ty@ == meta@ && match op {
            UnaryOp::Not => last.kind is Not,
            UnaryOp::Neg => last.kind is Neg,
        } && defines(last, v),
        Expression::Index { meta, .. } => v.ty@ == meta@ && (last.kind is ArrayRead
            || last.kind is ArrayExtract) && defines(last, v),
        Expression::Member { member, meta, .. } => v.ty@ == meta@ && read_name(last.kind) == Some(
            member.name.name@,
        ) && defines(last, v),
        Expression::Call { callee, meta, .. } => v.ty@ == meta@ && (last.kind matches OpKind::Call(f)
            && lookup_predicate(scopes, callee.name.name@) == Some(f)) && defines(last, v),
        Expression::Len { .. } => v.ty@ == TyV::Index && last.kind is ArrayLen && defines(last, v),
        Expression::Nondet { meta, .. } => v.ty@ == meta@ && last.kind is Nondet && defines(last, v),
        Expression::Boolean { value, meta, .. } => v.ty@ == meta@ && last.kind == OpKind::ConstBool(
            value,
        ) && defines(last, v),
        Expression::Number { value, .. } => v.ty@ == TyV::Felt && (last.kind matches OpKind::ConstFelt(
            d,
        ) && d@ == value.digits@) && defines(last, v),
        Expression::Arg { index, .. } => lookup_param(scopes, index) matches Some(p) && p.id == v.id
            && p.ty@ == v.ty@,
        Expression::Symbol(i) => lookup_local(scopes, i.name.name@) matches Some(p) && p.id == v.id
            && p.ty@ == v.ty@,
        _ => false,
    }
}

/// `o` defines the value numbered `id`.
pub open spec fn defines_id(o: Op, id: u64) -> bool {
    o.result matches Some(w) && w.id == id
}

/// The value `id` is defined in `ops` by a cast (`cast.tofelt`, `cast.toindex` or
/// `poly.unifiable_cast`) of the value `x`.
pub open spec fn cast_of(ops: Seq<Op>, id: u64, x: u64) -> bool {
    exists|k: int|
        #![trigger ops[k]]
        0 <= k < ops.len() && defines_id(ops[k], id) && (ops[k].kind is ToFelt || ops[k].kind is ToIndex
            || ops[k].kind is UnifiableCast) && ops[k].operands@ == seq![x]
}

/// The value `id` computes the expression `e` in the block `ops`, names and arguments
/// resolved in `scopes`: a name or argument is the value bound to it; any other expression is
/// the result of an operation of `ops` of the construct's kind whose operands compute the
/// sub-expressions, in order (an arithmetic operand, a negated operand or an index possibly
/// through a cast); a call's operands compute its arguments, in order.
pub open spec fn denotes(
    e: Expression<Ty>,
    ops: Seq<Op>,
    scopes: Seq<crate::type_analysis::scope::Scope<Value, u64, Option<ScopeTag>>>,
    id: u64,
) -> bool
    decreases e,
{
    match e {
        Expression::Symbol(i) => lookup_local(scopes, i.name.name@) matches Some(p) && p.id == id,
        Expression::Arg { index, .. } => lookup_param(scopes, index) matches Some(p) && p.id == id,
        Expression::Binary { op, left, right, .. } => exists|k: int|
            #![trigger ops[k]]
            0 <= k < ops.len() && defines_id(ops[k], id) && ops[k].kind == OpKind::Binary(op)
                && ops[k].operands@.len() == 2 && (denotes(*left, ops, scopes, ops[k].operands@[0]) || exists|x: u64|
                #![trigger cast_of(ops, ops[k].operands@[0], x)]
                cast_of(ops, ops[k].operands@[0], x) && denotes(*left, ops, scopes, x)) && (denotes(
                *right,
                ops,
                scopes,
                ops[k].operands@[1],
            ) || exists|x: u64|
                #![trigger cast_of(ops, ops[k].operands@[1], x)]
                cast_of(ops, ops[k].operands@[1], x) && denotes(*right, ops, scopes, x)),
        Expression::Unary { op, expr, .. } => exists|k: int|
            #![trigger ops[k]]
            0 <= k < ops.len() && defines_id(ops[k], id) && match op {
                UnaryOp::Not => ops[k].kind is Not,
                UnaryOp::Neg => ops[k].kind is Neg,
            } && ops[k].operands@.len() == 1 && (denotes(*expr, ops, scopes, ops[k].operands@[0]) || exists|x: u64|
                #![trigger cast_of(ops, ops[k].operands@[0], x)]
                cast_of(ops, ops[k].operands@[0], x) && denotes(*expr, ops, scopes, x)),
        Expression::Index { target, index, .. } => exists|k: int|
            #![trigger ops[k]]
            0 <= k < ops.len() && defines_id(ops[k], id) && (ops[k].kind is ArrayRead
                || ops[k].kind is ArrayExtract) && ops[k].operands@.len() == 2 && denotes(
                *target,
                ops,
                scopes,
                ops[k].operands@[0],
            ) && (denotes(*index, ops, scopes, ops[k].operands@[1]) || exists|x: u64|
                #![trigger cast_of(ops, ops[k].operands@[1], x)]
                cast_of(ops, ops[k].operands@[1], x) && denotes(*index, ops, scopes, x)),
        Expression::Member { target, member, .. } => exists|k: int|
            #![trigger ops[k]]
            0 <= k < ops.len() && defines_id(ops[k], id) && read_name(ops[k].kind) == Some(member.name.name@)
                && ops[k].operands@.len() == 1 && denotes(*target, ops, scopes, ops[k].operands@[0]),
        Expression::Call { callee, args, .. } => exists|k: int|
            #![trigger ops[k]]
            0 <= k < ops.len() && defines_id(ops[k], id) && (ops[k].kind matches OpKind::Call(f)
                && lookup_predicate(scopes, callee.name.name@) == Some(f)) && args_denote(
                args@,
                ops,
                scopes,
                ops[k].operands@,
            ),
        Expression::Len { target, .. } => exists|k: int|
            #![trigger ops[k]]
            0 <= k < ops.len() && defines_id(ops[k], id) && ops[k].kind is ArrayLen && ops[k].operands@.len()
                == 2 && denotes(*target, ops, scopes, ops[k].operands@[0]),
        Expression::Conditional { condition, .. } => exists|k: int|
            #![trigger ops[k]]
            0 <= k < ops.len() && defines_id(ops[k], id) && ops[k].kind is If && ops[k].operands@.len() == 1
                && denotes(*condition, ops, scopes, ops[k].operands@[0]),
        Expression::Number { value, .. } => exists|k: int|
            #![trigger ops[k]]
            0 <= k < ops.len() && defines_id(ops[k], id) && (ops[k].kind matches OpKind::ConstFelt(d) && d@
                == value.digits@),
        Expression::Boolean { value, .. } => exists|k: int|
            #![trigger ops[k]]
            0 <= k < ops.len() && defines_id(ops[k], id) && ops[k].kind == OpKind::ConstBool(value),
        Expression::Nondet { .. } => exists|k: int|
            #![trigger ops[k]]
            0 <= k < ops.len() && defines_id(ops[k], id) && ops[k].kind is Nondet,
        _ => false,
    }
}

/// The values `ids` compute the expressions `es`, one for one, in order ([`denotes`]).
pub open spec fn args_denote(
    es: Seq<Expression<Ty>>,
    ops: Seq<Op>,
    scopes: Seq<crate::type_analysis::scope::Scope<Value, u64, Option<ScopeTag>>>,
    ids: Seq<u64>,
) -> bool
    decreases es,
{
    if es.len() == 0 {
        ids.len() == 0
    } else {
        ids.len() > 0 && denotes(es[0], ops, scopes, ids[0]) && args_denote(
            es.subrange(1, es.len() as int),
            ops,
            scopes,
            ids.subrange(1, ids.len() as int),
        )
    }
}

/// [`args_denote`] element by element: as many values as expressions, each computing its own.
pub proof fn lemma_args_denote(
    es: Seq<Expression<Ty>>,
    ops: Seq<Op>,
    scopes: Seq<crate::type_analysis::scope::Scope<Value, u64, Option<ScopeTag>>>,
    ids: Seq<u64>,
)
    ensures
        args_denote(es, ops, scopes, ids) <==> (ids.len() == es.len() && forall|i: int|
            0 <= i < es.len() ==> #[trigger] denotes(es[i], ops, scopes, ids[i])),
    decreases es.len(),
{
    if es.len() > 0 {
        let rest = es.subrange(1, es.len() as int);
        let irest = ids.subrange(1, ids.len() as int);
        lemma_args_denote(rest, ops, scopes, irest);
        if ids.len() == es.len() && forall|i: int| 0 <= i < es.len() ==> #[trigger] denotes(es[i], ops, scopes, ids[i]) {
            assert forall|i: int| 0 <= i < rest.len() implies #[trigger] denotes(rest[i], ops, scopes, irest[i]) by {
                assert(rest[i] == es[i + 1]);
                assert(irest[i] == ids[i + 1]);
                assert(denotes(es[i + 1], ops, scopes, ids[i + 1]));
            }
            assert(denotes(es[0], ops, scopes, ids[0]));
        }
        if args_denote(es, ops, scopes, ids) {
            assert forall|i: int| 0 <= i < es.len() implies #[trigger] denotes(es[i], ops, scopes, ids[i]) by {
                if i > 0 {
                    assert(es[i] == rest[i - 1]);
                    assert(ids[i] == irest[i - 1]);
                    assert(denotes(rest[i - 1], ops, scopes, irest[i - 1]));
                }
            }
        }
    }
}

/// `o2` extends the block `o1`.
pub open spec fn extends(o1: Seq<Op>, o2: Seq<Op>) -> bool {
    o1.len() <= o2.len() && o2.subrange(0, o1.len() as int) == o1
}

/// A cast stays a cast when the block grows.
pub proof fn lemma_cast_of_grow(o1: Seq<Op>, o2: Seq<Op>, id: u64, x: u64)
    requires
        extends(o1, o2),
        cast_of(o1, id, x),
    ensures
        cast_of(o2, id, x),
{
    let k = choose|k: int|
        #![trigger o1[k]]
        0 <= k < o1.len() && defines_id(o1[k], id) && (o1[k].kind is ToFelt || o1[k].kind is ToIndex
            || o1[k].kind is UnifiableCast) && o1[k].operands@ == seq![x];
    assert(o2.subrange(0, o1.len() as int)[k] == o2[k]);
}

/// What a value computes stays so when the block grows.
pub proof fn lemma_denotes_grow(
    e: Expression<Ty>,
    o1: Seq<Op>,
    o2: Seq<Op>,
    scopes: Seq<crate::type_analysis::scope::Scope<Value, u64, Option<ScopeTag>>>,
    id: u64,
)
    requires
        extends(o1, o2),
        denotes(e, o1, scopes, id),
    ensures
        denotes(e, o2, scopes, id),
    decreases e, 0nat,
{
    assert forall|k: int| 0 <= k < o1.len() implies o2[k] == o1[k] by {
        assert(o2.subrange(0, o1.len() as int)[k] == o2[k]);
    }
    match e {
        Expression::Binary { op, left, right, .. } => {
            let k = choose|k: int|
                #![trigger o1[k]]
                0 <= k < o1.len() && defines_id(o1[k], id) && o1[k].kind == OpKind::Binary(op)
                    && o1[k].operands@.len() == 2 && (denotes(*left, o1, scopes, o1[k].operands@[0]) || exists|x: u64|
                    #![trigger cast_of(o1, o1[k].operands@[0], x)]
                    cast_of(o1, o1[k].operands@[0], x) && denotes(*left, o1, scopes, x)) && (denotes(
                    *right,
                    o1,
                    scopes,
                    o1[k].operands@[1],
                ) || exists|x: u64|
                    #![trigger cast_of(o1, o1[k].operands@[1], x)]
                    cast_of(o1, o1[k].operands@[1], x) && denotes(*right, o1, scopes, x));
            let a = o1[k].operands@[0];
            let b = o1[k].operands@[1];
            lemma_operand_grow(*left, o1, o2, scopes, a);
            lemma_operand_grow(*right, o1, o2, scopes, b);
            assert(o2[k] == o1[k]);
        },
        Expression::Unary { op, expr, .. } => {
            let k = choose|k: int|
                #![trigger o1[k]]
                0 <= k < o1.len() && defines_id(o1[k], id) && match op {
                    UnaryOp::Not => o1[k].kind is Not,
                    UnaryOp::Neg => o1[k].kind is Neg,
                } && o1[k].operands@.len() == 1 && (denotes(*expr, o1, scopes, o1[k].operands@[0]) || exists|x: u64|
                    #![trigger cast_of(o1, o1[k].operands@[0], x)]
                    cast_of(o1, o1[k].operands@[0], x) && denotes(*expr, o1, scopes, x));
            lemma_operand_grow(*expr, o1, o2, scopes, o1[k].operands@[0]);
            assert(o2[k] == o1[k]);
        },
        Expression::Index { target, index, .. } => {
            let k = choose|k: int|
                #![trigger o1[k]]
                0 <= k < o1.len() && defines_id(o1[k], id) && (o1[k].kind is ArrayRead
                    || o1[k].kind is ArrayExtract) && o1[k].operands@.len() == 2 && denotes(
                    *target,
                    o1,
                    scopes,
                    o1[k].operands@[0],
                ) && (denotes(*index, o1, scopes, o1[k].operands@[1]) || exists|x: u64|
                    #![trigger cast_of(o1, o1[k].operands@[1], x)]
                    cast_of(o1, o1[k].operands@[1], x) && denotes(*index, o1, scopes, x));
            lemma_denotes_grow(*target, o1, o2, scopes, o1[k].operands@[0]);
            lemma_operand_grow(*index, o1, o2, scopes, o1[k].operands@[1]);
            assert(o2[k] == o1[k]);
        },
        Expression::Member { target, member, .. } => {
            let k = choose|k: int|
                #![trigger o1[k]]
                0 <= k < o1.len() && defines_id(o1[k], id) && read_name(o1[k].kind) == Some(member.name.name@)
                    && o1[k].operands@.len() == 1 && denotes(*target, o1, scopes, o1[k].operands@[0]);
            lemma_denotes_grow(*target, o1, o2, scopes, o1[k].operands@[0]);
            assert(o2[k] == o1[k]);
        },
        Expression::Call { callee, args, .. } => {
            let k = choose|k: int|
                #![trigger o1[k]]
                0 <= k < o1.len() && defines_id(o1[k], id) && (o1[k].kind matches OpKind::Call(f)
                    && lookup_predicate(scopes, callee.name.name@) == Some(f)) && args_denote(
                    args@,
                    o1,
                    scopes,
                    o1[k].operands@,
                );
            let ids = o1[k].operands@;
            lemma_args_denote(args@, o1, scopes, ids);
            lemma_args_denote(args@, o2, scopes, ids);
            assert forall|i: int| 0 <= i < args@.len() implies #[trigger] denotes(args@[i], o2, scopes, ids[i]) by {
                assert(decreases_to!(e => args));
                assert(decreases_to!(args => args@[i]));
                lemma_denotes_grow(args@[i], o1, o2, scopes, ids[i]);
            }
            assert(o2[k] == o1[k]);
        },
        Expression::Len { target, .. } => {
            let k = choose|k: int|
                #![trigger o1[k]]
                0 <= k < o1.len() && defines_id(o1[k], id) && o1[k].kind is ArrayLen && o1[k].operands@.len()
                    == 2 && denotes(*target, o1, scopes, o1[k].operands@[0]);
            lemma_denotes_grow(*target, o1, o2, scopes, o1[k].operands@[0]);
            assert(o2[k] == o1[k]);
        },
        Expression::Conditional { condition, .. } => {
            let k = choose|k: int|
                #![trigger o1[k]]
                0 <= k < o1.len() && defines_id(o1[k], id) && o1[k].kind is If && o1[k].operands@.len() == 1
                    && denotes(*condition, o1, scopes, o1[k].operands@[0]);
            lemma_denotes_grow(*condition, o1, o2, scopes, o1[k].operands@[0]);
            assert(o2[k] == o1[k]);
        },
        Expression::Number { value, .. } => {
            let k = choose|k: int|
                #![trigger o1[k]]
                0 <= k < o1.len() && defines_id(o1[k], id) && (o1[k].kind matches OpKind::ConstFelt(d) && d@
                    == value.digits@);
            assert(o2[k] == o1[k]);
        },
        Expression::Boolean { value, .. } => {
            let k = choose|k: int|
                #![trigger o1[k]]
                0 <= k < o1.len() && defines_id(o1[k], id) && o1[k].kind == OpKind::ConstBool(value);
            assert(o2[k] == o1[k]);
        },
        Expression::Nondet { .. } => {
            let k = choose|k: int|
                #![trigger o1[k]]
                0 <= k < o1.len() && defines_id(o1[k], id) && o1[k].kind is Nondet;
            assert(o2[k] == o1[k]);
        },
        _ => {},
    }
}

/// The operand `a` computes `e` ([`denotes`]), directly or as a cast of a value that does.
pub open spec fn operand_denotes(
    e: Expression<Ty>,
    ops: Seq<Op>,
    scopes: Seq<crate::type_analysis::scope::Scope<Value, u64, Option<ScopeTag>>>,
    a: u64,
) -> bool {
    denotes(e, ops, scopes, a) || exists|x: u64|
        #![trigger cast_of(ops, a, x)]
        cast_of(ops, a, x) && denotes(e, ops, scopes, x)
}

/// A block that extends one that extends `a` extends `a`.
pub proof fn lemma_extends_trans(a: Seq<Op>, b: Seq<Op>, c: Seq<Op>)
    requires
        extends(a, b),
        extends(b, c),
    ensures
        extends(a, c),
{
    assert(c.subrange(0, a.len() as int) =~= a) by {
        assert forall|i: int| 0 <= i < a.len() implies c.subrange(0, a.len() as int)[i] == a[i] by {
            assert(c.subrange(0, b.len() as int)[i] == b[i]);
            assert(b.subrange(0, a.len() as int)[i] == a[i]);
        }
    }
}

/// A value cast by the last operation of a block is a cast of its operand.
pub proof fn lemma_cast_last(ops: Seq<Op>, w: Value, x: u64)
    requires
        ops.len() > 0,
        defines(ops.last(), w),
        ops.last().operands@ == seq![x],
        ops.last().kind is ToFelt || ops.last().kind is ToIndex || ops.last().kind is UnifiableCast,
    ensures
        cast_of(ops, w.id, x),
{
    assert(ops[ops.len() - 1] == ops.last());
}

/// An operand that computes `e`, directly or through a cast, still does when the block grows.
pub proof fn lemma_operand_grow(
    e: Expression<Ty>,
    o1: Seq<Op>,
    o2: Seq<Op>,
    scopes: Seq<crate::type_analysis::scope::Scope<Value, u64, Option<ScopeTag>>>,
    a: u64,
)
    requires
        extends(o1, o2),
        denotes(e, o1, scopes, a) || exists|x: u64|
            #![trigger cast_of(o1, a, x)]
            cast_of(o1, a, x) && denotes(e, o1, scopes, x),
    ensures
        denotes(e, o2, scopes, a) || exists|x: u64|
            #![trigger cast_of(o2, a, x)]
            cast_of(o2, a, x) && denotes(e, o2, scopes, x),
    decreases e, 1nat,
{
    if denotes(e, o1, scopes, a) {
        lemma_denotes_grow(e, o1, o2, scopes, a);
    } else {
        let x = choose|x: u64| #![trigger cast_of(o1, a, x)] cast_of(o1, a, x) && denotes(e, o1, scopes, x);
        lemma_cast_of_grow(o1, o2, a, x);
        lemma_denotes_grow(e, o1, o2, scopes, x);
    }
}

/// The operation that computes a binary expression takes, in this order, a value computing its
/// left operand and a value computing its right operand (each possibly through a cast): the
/// operands are never swapped.
pub proof fn binary_operands_are_left_then_right(
    e: Expression<Ty>,
    ops: Seq<Op>,
    scopes: Seq<crate::type_analysis::scope::Scope<Value, u64, Option<ScopeTag>>>,
    id: u64,
)
    requires
        e is Binary,
        denotes(e, ops, scopes, id),
    ensures
        exists|k: int|
            #![trigger ops[k]]
            0 <= k < ops.len() && defines_id(ops[k], id) && ops[k].kind == OpKind::Binary(e->Binary_op)
                && ops[k].operands@.len() == 2 && operand_denotes(*e->Binary_left, ops, scopes, ops[k].operands@[0])
                && operand_denotes(*e->Binary_right, ops, scopes, ops[k].operands@[1]),
{
}

/// The operation that computes a call takes one value per argument, the `j`-th computing the
/// `j`-th argument: arguments are passed in call order.
pub proof fn call_operands_follow_the_arguments(
    e: Expression<Ty>,
    ops: Seq<Op>,
    scopes: Seq<crate::type_analysis::scope::Scope<Value, u64, Option<ScopeTag>>>,
    id: u64,
)
    requires
        e is Call,
        denotes(e, ops, scopes, id),
    ensures
        exists|k: int|
            #![trigger ops[k]]
            0 <= k < ops.len() && defines_id(ops[k], id) && ops[k].kind is Call && ops[k].operands@.len()
                == e->Call_args@.len() && forall|j: int|
                0 <= j < e->Call_args@.len() ==> #[trigger] denotes(e->Call_args@[j], ops, scopes, ops[k].operands@[j]),
{
    let k = choose|k: int|
        #![trigger ops[k]]
        0 <= k < ops.len() && defines_id(ops[k], id) && (ops[k].kind matches OpKind::Call(f)
            && lookup_predicate(scopes, e->Call_callee.name.name@) == Some(f)) && args_denote(
            e->Call_args@,
            ops,
            scopes,
            ops[k].operands@,
        );
    lemma_args_denote(e->Call_args@, ops, scopes, ops[k].operands@);
}

/// What an expression's lowering produces fixes the shape of the operation it becomes.
pub proof fn lemma_produces_shape(
    e: Expression<Ty>,
    v: Value,
    scopes: Seq<crate::type_analysis::scope::Scope<Value, u64, Option<ScopeTag>>>,
    ops: Seq<Op>,
)
    requires
        ops.len() > 0,
        produces(e, v, scopes, ops.last()),
    ensures
        value_from(e, ops, v.id),
{
}

/// The tag of a `compute` or `constrain` scope.
pub open spec fn scope_tag(s: crate::ast::Scope) -> ScopeTag {
    match s {
        crate::ast::Scope::Compute => ScopeTag::Compute,
        crate::ast::Scope::Constrain => ScopeTag::Constrain,
    }
}

/// Whether a statement can be lowered where the closest scope tag is `tag`: `compute` and
/// `constrain` blocks do not nest and stand outside predicates, conditions stand outside
/// predicates, and `unused`, `increases`, `decreases`, `step` and invariant declarations are
/// not supported yet.
pub open spec fn lowerable_stmt(s: Statement<Ty>, tag: ScopeTag) -> bool
    decreases s,
{
    match s {
        Statement::Scoped { scope, statement, .. } => tag != ScopeTag::Predicate && tag
            != ScopeTag::Compute && tag != ScopeTag::Constrain && lowerable_stmt(
            *statement,
            scope_tag(scope),
        ),
        Statement::Block(b) => lowerable_stmts(b.statements@, tag),
        Statement::Require { expression, .. } => tag != ScopeTag::Predicate && lowerable_expr(
            expression,
        ),
        Statement::Ensure { expression, .. } => tag != ScopeTag::Predicate && lowerable_expr(
            expression,
        ),
        Statement::Let { value, .. } => lowerable_expr(value),
        Statement::Return { expression, .. } => lowerable_expr(expression),
        Statement::Predicate(d) => lowerable_stmts(d.body.statements@, ScopeTag::Predicate),
        Statement::Empty { .. } => true,
        _ => false,
    }
}

/// [`lowerable_stmt`] for each statement of a sequence.
pub open spec fn lowerable_stmts(ss: Seq<Statement<Ty>>, tag: ScopeTag) -> bool
    decreases ss,
{
    if ss.len() == 0 {
        true
    } else {
        lowerable_stmt(ss[0], tag) && lowerable_stmts(ss.subrange(1, ss.len() as int), tag)
    }
}

/// [`lowerable_stmts`] element by element.
pub proof fn lemma_lowerable_stmts(ss: Seq<Statement<Ty>>, tag: ScopeTag)
    requires
        lowerable_stmts(ss, tag),
    ensures
        forall|i: int| 0 <= i < ss.len() ==> #[trigger] lowerable_stmt(ss[i], tag),
    decreases ss.len(),
{
    if ss.len() > 0 {
        let rest = ss.subrange(1, ss.len() as int);
        lemma_lowerable_stmts(rest, tag);
        assert forall|i: int| 0 <= i < ss.len() implies #[trigger] lowerable_stmt(ss[i], tag) by {
            if i > 0 {
                assert(ss[i] == rest[i - 1]);
            }
        }
    }
}

/// Two stacks whose scopes carry the same tags have the same closest tag.
pub proof fn lemma_closest_tag_same<L, F>(
    a: Seq<Scope<L, F, Option<ScopeTag>>>,
    b: Seq<Scope<L, F, Option<ScopeTag>>>,
)
    requires
        a.len() == b.len(),
        forall|i: int| 0 <= i < a.len() ==> #[trigger] a[i].payload == b[i].payload,
    ensures
        closest_tag(a) == closest_tag(b),
    decreases a.len(),
{
    if a.len() > 0 {
        assert(a.last().payload == b[b.len() - 1].payload);
        assert forall|i: int| 0 <= i < a.drop_last().len() implies #[trigger] a.drop_last()[i].payload
            == b.drop_last()[i].payload by {
            assert(a[i].payload == b[i].payload);
        }
        lemma_closest_tag_same(a.drop_last(), b.drop_last());
    }
}

/// The condition statements lowered at `tag`: `ops` ends with the compute form (`compute`) when
/// the tag takes conditions for the compute function, followed by the constrain form
/// (`constrain`) when it takes conditions for the constrain function, both on one value.
pub open spec fn conditions_emitted(ops: Seq<Op>, tag: ScopeTag, compute: OpKind, constrain: OpKind) -> bool {
    let n = ops.len() as int;
    let k = if tag != ScopeTag::Constrain && tag != ScopeTag::Compute {
        2int
    } else {
        1int
    };
    &&& n >= k
    &&& ops[n - k].operands@.len() == 1
    &&& ops[n - 1].operands@ == ops[n - k].operands@
    &&& tag != ScopeTag::Constrain ==> ops[n - k].kind == compute
    &&& tag != ScopeTag::Compute ==> ops[n - 1].kind == constrain
}

/// The number of condition operations a statement becomes where the closest tag is `tag`: one
/// inside `compute` or `constrain`, one for each function elsewhere.
pub open spec fn cond_count(tag: ScopeTag) -> int {
    if tag != ScopeTag::Constrain && tag != ScopeTag::Compute {
        2
    } else {
        1
    }
}

/// `last` is the operation that the construct `e` becomes: its kind, and a result of the type
/// of `e`.
pub open spec fn op_shape(e: Expression<Ty>, last: Op) -> bool {
    &&& last.result matches Some(w) && match e {
        Expression::Len { .. } => w.ty@ == TyV::Index,
        Expression::Number { .. } => w.ty@ == TyV::Felt,
        _ => w.ty@ == e.spec_meta()@,
    }
    &&& match e {
        Expression::Conditional { .. } => last.kind is If,
        Expression::Binary { op, .. } => last.kind == OpKind::Binary(op),
        Expression::Unary { op, .. } => match op {
            UnaryOp::Not => last.kind is Not,
            UnaryOp::Neg => last.kind is Neg,
        },
        Expression::Index { .. } => last.kind is ArrayRead || last.kind is ArrayExtract,
        Expression::Member { member, .. } => read_name(last.kind) == Some(member.name.name@),
        Expression::Call { .. } => last.kind is Call,
        Expression::Len { .. } => last.kind is ArrayLen,
        Expression::Nondet { .. } => last.kind is Nondet,
        Expression::Boolean { value, .. } => last.kind == OpKind::ConstBool(value),
        Expression::Number { value, .. } => last.kind matches OpKind::ConstFelt(d) && d@ == value.digits@,
        _ => false,
    }
}

/// `ops` are the operations that lowering `e` appended, and `v` is the value of `e`: where `e`
/// is not a name or an argument, the last of them is the operation `e` becomes, defining `v`.
pub open spec fn value_from(e: Expression<Ty>, ops: Seq<Op>, v: u64) -> bool {
    e is Symbol || e is Arg || (ops.len() > 0 && op_shape(e, ops.last()) && (ops.last().result matches Some(
        w,
    ) && w.id == v))
}

/// The region of an `scf.execute_region`: the operations of its body, ended by an `scf.yield`
/// unless the body already ends with a terminator.
pub open spec fn region_body(r: Seq<Op>, body: Seq<Op>) -> bool {
    r == body || (r.len() > 0 && r.last().kind is Yield && r.drop_last() == body)
}

/// `ops` are the operations that lowering the statement `s` appends to the current block where
/// the closest tag is `tag`: a condition is its expression's operations then its condition
/// operations on the expression's value; `let` is its expression's operations; `return` is
/// its expression's operations then `function.return` of the value; a block or a `compute` or
/// `constrain` block is one `scf.execute_region` whose region holds the operations of its
/// statements; a predicate declaration and an empty statement append nothing here.
pub open spec fn stmt_lowers(s: Statement<Ty>, ops: Seq<Op>, tag: ScopeTag) -> bool
    decreases s,
{
    let n = ops.len() as int;
    match s {
        Statement::Require { expression, .. } => n >= cond_count(tag) && conditions_emitted(
            ops,
            tag,
            OpKind::RequireCompute,
            OpKind::RequireConstrain,
        ) && value_from(
            expression,
            ops.subrange(0, n - cond_count(tag)),
            ops[n - cond_count(tag)].operands@[0],
        ),
        Statement::Ensure { expression, .. } => n >= cond_count(tag) && conditions_emitted(
            ops,
            tag,
            OpKind::EnsureCompute,
            OpKind::EnsureConstrain,
        ) && value_from(
            expression,
            ops.subrange(0, n - cond_count(tag)),
            ops[n - cond_count(tag)].operands@[0],
        ),
        Statement::Let { value, .. } => !(value is Symbol || value is Arg) ==> (n > 0 && op_shape(
            value,
            ops.last(),
        )),
        Statement::Return { expression, .. } => n > 0 && ops.last().kind is Return
            && ops.last().operands@.len() == 1 && value_from(
            expression,
            ops.drop_last(),
            ops.last().operands@[0],
        ),
        Statement::Scoped { scope, statement, .. } => n == 1 && ops[0].kind is ExecuteRegion
            && ops[0].regions@.len() == 1 && exists|body: Seq<Op>|
            #![trigger region_body(ops[0].regions@[0].ops@, body)]
            region_body(ops[0].regions@[0].ops@, body) && stmt_lowers(*statement, body, scope_tag(scope)),
        Statement::Block(b) => n == 1 && ops[0].kind is ExecuteRegion && ops[0].regions@.len() == 1
            && exists|body: Seq<Op>|
            #![trigger region_body(ops[0].regions@[0].ops@, body)]
            region_body(ops[0].regions@[0].ops@, body) && block_lowers(b.statements@, body, tag),
        Statement::Predicate(_) => n == 0,
        Statement::Empty { .. } => n == 0,
        _ => false,
    }
}

/// `ops` are the operations that lowering the statements `ss`, in order, appends: the
/// concatenation of what each statement appends ([`stmt_lowers`]).
pub open spec fn block_lowers(ss: Seq<Statement<Ty>>, ops: Seq<Op>, tag: ScopeTag) -> bool
    decreases ss,
{
    if ss.len() == 0 {
        ops.len() == 0
    } else {
        exists|m: int|
            #![trigger ops.subrange(0, m)]
            0 <= m <= ops.len() && stmt_lowers(ss[0], ops.subrange(0, m), tag) && block_lowers(
                ss.subrange(1, ss.len() as int),
                ops.subrange(m, ops.len() as int),
                tag,
            )
    }
}

/// Lowering one more statement appends its operations to those of the statements before it.
pub proof fn lemma_block_lowers_push(ss: Seq<Statement<Ty>>, s: Statement<Ty>, d: Seq<Op>, e: Seq<Op>, tag: ScopeTag)
    requires
        block_lowers(ss, d, tag),
        stmt_lowers(s, e, tag),
    ensures
        block_lowers(ss.push(s), d + e, tag),
    decreases ss.len(),
{
    let full = ss.push(s);
    let de = d + e;
    if ss.len() == 0 {
        assert(d.len() == 0);
        assert(de =~= e);
        assert(full.subrange(1, full.len() as int) =~= Seq::<Statement<Ty>>::empty());
        assert(de.subrange(0, de.len() as int) =~= e);
        assert(de.subrange(de.len() as int, de.len() as int) =~= Seq::<Op>::empty());
        assert(full[0] == s);
        let m = de.len() as int;
        assert(block_lowers(full.subrange(1, full.len() as int), de.subrange(m, de.len() as int), tag));
        assert(stmt_lowers(full[0], de.subrange(0, m), tag));
    } else {
        let m = choose|m: int|
            #![trigger d.subrange(0, m)]
            0 <= m <= d.len() && stmt_lowers(ss[0], d.subrange(0, m), tag) && block_lowers(
                ss.subrange(1, ss.len() as int),
                d.subrange(m, d.len() as int),
                tag,
            );
        let rest = ss.subrange(1, ss.len() as int);
        let dr = d.subrange(m, d.len() as int);
        lemma_block_lowers_push(rest, s, dr, e, tag);
        assert(full.subrange(1, full.len() as int) =~= rest.push(s));
        assert(de.subrange(0, m) =~= d.subrange(0, m));
        assert(de.subrange(m, de.len() as int) =~= dr + e);
        assert(full[0] == ss[0]);
        assert(stmt_lowers(full[0], de.subrange(0, m), tag));
        assert(block_lowers(full.subrange(1, full.len() as int), de.subrange(m, de.len() as int), tag));
    }
}

/// The operations that a condition statement appends: those of its expression, then its
/// condition operations on the expression's value.
pub proof fn lemma_condition_delta(
    c0: Seq<Op>,
    c1: Seq<Op>,
    c2: Seq<Op>,
    tag: ScopeTag,
    compute: OpKind,
    constrain: OpKind,
)
    requires
        c1.len() >= c0.len(),
        c1.subrange(0, c0.len() as int) == c0,
        c2.len() == c1.len() + cond_count(tag),
        c2.subrange(0, c1.len() as int) == c1,
        conditions_emitted(c2, tag, compute, constrain),
    ensures
        ({
            let d = c2.subrange(c0.len() as int, c2.len() as int);
            let n = d.len() as int;
            &&& n >= cond_count(tag)
            &&& conditions_emitted(d, tag, compute, constrain)
            &&& d.subrange(0, n - cond_count(tag)) == c1.subrange(c0.len() as int, c1.len() as int)
            &&& d[n - cond_count(tag)] == c2[c1.len() as int]
        }),
{
    let d = c2.subrange(c0.len() as int, c2.len() as int);
    let n = d.len() as int;
    let k = cond_count(tag);
    let m = c2.len() as int;
    assert(d[n - 1] == c2[m - 1]);
    assert(d[n - k] == c2[m - k]);
    assert(d.subrange(0, n - k) =~= c1.subrange(c0.len() as int, c1.len() as int)) by {
        assert forall|i: int| 0 <= i < n - k implies d.subrange(0, n - k)[i] == c1.subrange(
            c0.len() as int,
            c1.len() as int,
        )[i] by {
            assert(c2.subrange(0, c1.len() as int)[c0.len() + i] == c2[c0.len() + i]);
        }
    }
}

/// `op` is the `function.def` that the predicate declaration `d` becomes: named and typed as
/// the predicate, with one region whose arguments are typed as the predicate's inputs and whose
/// operations are those of the predicate's statements, lowered in a predicate scope.
pub open spec fn predicate_lowered(d: crate::ast::PredicateDecl<Ty>, op: Op) -> bool {
    &&& op.kind matches OpKind::FuncDef { name, ty, .. } && name@ == d.name.name.name@ && ty@ == d.name.meta@
    &&& d.name.meta is Func
    &&& op.regions@.len() == 1
    &&& op.regions@[0].args@.len() == d.name.meta->Func_0.ins@.len()
    &&& forall|j: int|
        0 <= j < op.regions@[0].args@.len() ==> (#[trigger] op.regions@[0].args@[j]).ty@
            == d.name.meta->Func_0.ins@[j]@
    &&& block_lowers(d.body.statements@, op.regions@[0].ops@, ScopeTag::Predicate)
}

/// The types of the arguments of a contract's body for the target `t`: the target's own value
/// and its inputs for a struct, its inputs and outputs for a function.
pub open spec fn contract_arg_tys(t: crate::type_analysis::ContractTargetInfo) -> Seq<TyV> {
    let ins = t.inputs@.map_values(|p: crate::type_analysis::InputInfo| p.ty@);
    match t.self_type {
        Some(st) => seq![st@] + ins,
        None => ins + t.outputs@.map_values(|p: crate::type_analysis::OutputInfo| p.ty@),
    }
}

/// The number of operations that open a contract's body for the target `t`: one per template
/// parameter, then, for a struct, one per member.
pub open spec fn prologue_len(t: crate::type_analysis::ContractTargetInfo) -> int {
    t.template_params@.len() + if t.self_type is Some {
        t.members@.len() as int
    } else {
        0int
    }
}

/// `o` is the `poly.read_const` of the template parameter `p`, typed as `p`.
pub open spec fn reads_template(o: Op, p: crate::type_analysis::ParamInfo) -> bool {
    &&& o.kind matches OpKind::ReadConst(n) && n@ == p.name@
    &&& o.result matches Some(w) && w.ty@ == tmpl_ty(p)
}

/// `o` is the `struct.readm` of the member `m` of the value `self_id`, typed as `m`.
pub open spec fn reads_member(o: Op, m: crate::type_analysis::MemberInfo, self_id: u64) -> bool {
    &&& o.kind matches OpKind::StructRead(n) && n@ == m.name@
    &&& o.operands@ == seq![self_id]
    &&& o.result matches Some(w) && w.ty@ == m.ty@
}

/// `ops` open a contract's body for the target `t`: the template parameters read in order,
/// then, for a struct, its members read in order from the value `self_id`.
pub open spec fn contract_prologue(t: crate::type_analysis::ContractTargetInfo, ops: Seq<Op>, self_id: u64) -> bool {
    let np = t.template_params@.len() as int;
    &&& ops.len() == prologue_len(t)
    &&& forall|j: int| 0 <= j < np ==> reads_template(#[trigger] ops[j], t.template_params@[j])
    &&& forall|j: int| np <= j < ops.len() ==> reads_member(#[trigger] ops[j], t.members@[j - np], self_id)
}

/// `op` is the `verif.contract` that `decl` becomes for the target `t`: one region whose
/// arguments are typed as [`contract_arg_tys`], whose operations open with the reads of
/// [`contract_prologue`] and go on with those of the contract's statements, lowered in a
/// contract scope.
pub open spec fn contract_lowered(
    decl: crate::ast::ContractDecl<Ty>,
    t: crate::type_analysis::ContractTargetInfo,
    op: Op,
) -> bool {
    let r = op.regions@[0];
    &&& op.regions@.len() == 1
    &&& r.args@.len() == contract_arg_tys(t).len()
    &&& forall|j: int| 0 <= j < r.args@.len() ==> (#[trigger] r.args@[j]).ty@ == contract_arg_tys(t)[j]
    &&& prologue_len(t) <= r.ops@.len()
    &&& contract_prologue(
        t,
        r.ops@.subrange(0, prologue_len(t)),
        if r.args@.len() > 0 {
            r.args@[0].id
        } else {
            0
        },
    )
    &&& block_lowers(decl.body.statements@, r.ops@.subrange(prologue_len(t), r.ops@.len() as int), ScopeTag::Contract)
}

/// `op` is the module operation that the item `item` becomes: the `verif.contract` of a
/// contract, for its target as the circuit defines it ([`contract_lowered`]), or the
/// `function.def` of a predicate ([`predicate_lowered`]).
pub open spec fn item_lowered(item: crate::ast::Item<Ty>, info: crate::type_analysis::CircuitInfo, op: Op) -> bool {
    match item {
        crate::ast::Item::Contract(c) => {
            &&& op.kind matches OpKind::Contract { target, .. } && target@ == c.target.name.name@
            &&& crate::type_analysis::target_lookup(info.targets@, c.target.name.name@) matches Some(t)
                && contract_lowered(c, t, op)
        },
        crate::ast::Item::Predicate(d) => predicate_lowered(d, op),
    }
}

/// The number of contracts among the first `i` items.
pub open spec fn contracts_before(items: Seq<crate::ast::Item<Ty>>, i: int) -> nat
    decreases i,
{
    if i <= 0 || i > items.len() {
        0
    } else {
        contracts_before(items, i - 1) + if items[i - 1] is Contract {
            1nat
        } else {
            0nat
        }
    }
}

/// The contracts among `items` were named, in order, from the anonymous contract number
/// `first` on: the `k`-th contract after it is named by [`anon_contract_name`] with number
/// `first + k`.
pub open spec fn contracts_named(
    items: Seq<crate::ast::Item<Ty>>,
    module: Seq<Op>,
    pos: Seq<int>,
    first: int,
) -> bool {
    forall|i: int|
        0 <= i < items.len() ==> (#[trigger] items[i] matches crate::ast::Item::Contract(c) ==> (module[pos[i]].kind
            matches OpKind::Contract { name, .. } && name@ == anon_contract_name(
            c.target.name.name@,
            (first + contracts_before(items, i)) as u64,
        )))
}

/// Counting the contracts before `j` gives the same in any prefix of at least `j` items.
pub proof fn lemma_contracts_before_prefix(items: Seq<crate::ast::Item<Ty>>, n: int, j: int)
    requires
        0 <= j <= n <= items.len(),
    ensures
        contracts_before(items.subrange(0, n), j) == contracts_before(items, j),
    decreases j,
{
    if j > 0 {
        lemma_contracts_before_prefix(items, n, j - 1);
        assert(items.subrange(0, n)[j - 1] == items[j - 1]);
    }
}

/// The items `items` were lowered, in order, into `module` from the position `start` on: item
/// `i` became the operation at `pos[i]`, the first at `start`, each later one further on (the
/// predicates that an item declares inside it come between).
pub open spec fn items_lowered(
    items: Seq<crate::ast::Item<Ty>>,
    info: crate::type_analysis::CircuitInfo,
    module: Seq<Op>,
    start: int,
    pos: Seq<int>,
) -> bool {
    &&& pos.len() == items.len()
    &&& items.len() > 0 ==> pos[0] == start
    &&& forall|i: int| 0 <= i < pos.len() ==> start <= #[trigger] pos[i] < module.len()
    &&& forall|i: int, j: int| 0 <= i < j < pos.len() ==> #[trigger] pos[i] < #[trigger] pos[j]
    &&& forall|i: int| 0 <= i < items.len() ==> item_lowered(#[trigger] items[i], info, module[pos[i]])
}

/// A path with each `::` separator, read from the left, replaced by `$`.
pub open spec fn dollar_path(s: Seq<char>) -> Seq<char>
    decreases s.len(),
{
    if s.len() == 0 {
        Seq::empty()
    } else if s.len() >= 2 && s[0] == ':' && s[1] == ':' {
        seq!['$'] + dollar_path(s.subrange(2, s.len() as int))
    } else {
        seq![s[0]] + dollar_path(s.subrange(1, s.len() as int))
    }
}

/// The name of the `n`-th anonymous contract, for the target at `path`: the parts of the path
/// joined by `$`, then `$contract$` and the number.
pub open spec fn anon_contract_name(path: Seq<char>, n: u64) -> Seq<char> {
    dollar_path(path) + "$contract$"@ + decimal(n as nat)
}

/// Whether every contract and predicate of a document can be lowered.
pub open spec fn lowerable_doc(d: crate::ast::Document<Ty>) -> bool {
    forall|i: int|
        0 <= i < d.items@.len() ==> match #[trigger] d.items@[i] {
            crate::ast::Item::Contract(c) => lowerable_stmts(c.body.statements@, ScopeTag::Contract),
            crate::ast::Item::Predicate(p) => lowerable_stmts(p.body.statements@, ScopeTag::Predicate),
        }
}

/// Every value bound to a local name is defined, with the type it is bound with.
pub open spec fn scope_values_ok(
    scopes: Seq<Scope<Value, u64, Option<ScopeTag>>>,
    defs: Map<u64, TyV>,
) -> bool {
    forall|i: int, j: int|
        0 <= i < scopes.len() && 0 <= j < scopes[i].locals@.len() ==> has_type(
            defs,
            (#[trigger] scopes[i].locals@[j]).1.id,
            scopes[i].locals@[j].1.ty@,
        )
}

/// A value found in an association list is one of its entries.
proof fn lemma_assoc_in(s: Seq<(String, Value)>, k: Seq<char>)
    requires
        assoc(s, k) is Some,
    ensures
        exists|j: int| 0 <= j < s.len() && #[trigger] s[j].1 == assoc(s, k)->0,
    decreases s.len(),
{
    if s.last().0@ != k {
        lemma_assoc_in(s.drop_last(), k);
        let j = choose|j: int| 0 <= j < s.drop_last().len() && #[trigger] s.drop_last()[j].1 == assoc(
            s.drop_last(),
            k,
        )->0;
        assert(s[j] == s.drop_last()[j]);
    } else {
        assert(s[s.len() - 1].1 == assoc(s, k)->0);
    }
}

/// A local found from the top of the stack is defined.
proof fn lemma_lookup_local_ok(
    scopes: Seq<Scope<Value, u64, Option<ScopeTag>>>,
    defs: Map<u64, TyV>,
    k: Seq<char>,
)
    requires
        scope_values_ok(scopes, defs),
        lookup_local(scopes, k) is Some,
    ensures
        has_type(defs, lookup_local(scopes, k)->0.id, lookup_local(scopes, k)->0.ty@),
    decreases scopes.len(),
{
    let top = scopes.last();
    match assoc(top.locals@, k) {
        Some(v) => {
            lemma_assoc_in(top.locals@, k);
            let j = choose|j: int| 0 <= j < top.locals@.len() && #[trigger] top.locals@[j].1 == v;
            assert(scopes[scopes.len() - 1].locals@[j] == top.locals@[j]);
        },
        None => {
            let rest = scopes.drop_last();
            assert forall|i: int, j: int|
                0 <= i < rest.len() && 0 <= j < rest[i].locals@.len() implies has_type(
                defs,
                (#[trigger] rest[i].locals@[j]).1.id,
                rest[i].locals@[j].1.ty@,
            ) by {
                assert(rest[i] == scopes[i]);
            }
            lemma_lookup_local_ok(rest, defs, k);
        },
    }
}

/// A parameter found from the top of the stack is defined.
proof fn lemma_lookup_param_ok(
    scopes: Seq<Scope<Value, u64, Option<ScopeTag>>>,
    defs: Map<u64, TyV>,
    n: usize,
)
    requires
        scope_values_ok(scopes, defs),
        lookup_param(scopes, n) is Some,
    ensures
        has_type(defs, lookup_param(scopes, n)->0.id, lookup_param(scopes, n)->0.ty@),
    decreases scopes.len(),
{
    let top = scopes.last();
    let here = match assoc_num(top.params@, n) {
        Some(sym) => assoc(top.locals@, sym),
        None => None,
    };
    match here {
        Some(v) => {
            let sym = assoc_num(top.params@, n)->0;
            lemma_assoc_in(top.locals@, sym);
            let j = choose|j: int| 0 <= j < top.locals@.len() && #[trigger] top.locals@[j].1 == v;
            assert(scopes[scopes.len() - 1].locals@[j] == top.locals@[j]);
        },
        None => {
            let rest = scopes.drop_last();
            assert forall|i: int, j: int|
                0 <= i < rest.len() && 0 <= j < rest[i].locals@.len() implies has_type(
                defs,
                (#[trigger] rest[i].locals@[j]).1.id,
                rest[i].locals@[j].1.ty@,
            ) by {
                assert(rest[i] == scopes[i]);
            }
            lemma_lookup_param_ok(rest, defs, n);
        },
    }
}

/// The name of the `n`-th anonymous contract for the target at `path`.
pub fn anon_name(path: &str, n: u64) -> (r: String)
    ensures
        r@ == anon_contract_name(path@, n),
{
    let cs = crate::text::chars_of(path);
    let mut out = String::new();
    let mut i: usize = 0;
    proof {
        assert(cs@.subrange(0, cs@.len() as int) =~= cs@);
    }
    while i < cs.len()
        invariant
            i <= cs@.len(),
            out@ + dollar_path(cs@.subrange(i as int, cs@.len() as int)) == dollar_path(cs@),
        decreases cs@.len() - i,
    {
        let ghost rest = cs@.subrange(i as int, cs@.len() as int);
        if i + 1 < cs.len() && cs[i] == ':' && cs[i + 1] == ':' {
            proof {
                assert(rest[0] == ':' && rest[1] == ':');
                assert(rest.subrange(2, rest.len() as int) =~= cs@.subrange(i + 2, cs@.len() as int));
            }
            crate::text::push_char(&mut out, '$');
            proof {
                assert(out@ + dollar_path(cs@.subrange(i + 2, cs@.len() as int)) =~= dollar_path(cs@));
            }
            i = i + 2;
        } else {
            proof {
                assert(rest[0] == cs@[i as int]);
                assert(rest.subrange(1, rest.len() as int) =~= cs@.subrange(i + 1, cs@.len() as int));
                if rest.len() >= 2 {
                    assert(rest[1] == cs@[i + 1]);
                }
            }
            crate::text::push_char(&mut out, cs[i]);
            proof {
                assert(out@ + dollar_path(cs@.subrange(i + 1, cs@.len() as int)) =~= dollar_path(cs@));
            }
            i = i + 1;
        }
    }
    proof {
        assert(cs@.subrange(i as int, cs@.len() as int) =~= Seq::<char>::empty());
        assert(out@ =~= dollar_path(path@));
    }
    out.append("$contract$");
    push_decimal(&mut out, n);
    proof {
        reveal_strlit("$contract$");
    }
    out
}

/// The error of a failed lookup in the scopes, `context: error`, located at `span`.
fn type_error(
    filename: &str,
    span: Span,
    context: &str,
    err: &crate::type_analysis::error::TypeAnalysisError,
) -> (r: CompileError)
    ensures
        r matches CompileError::Diagnostics(ds) && ds.0@.len() == 1,
{
    let mut d = crate::type_analysis::helpers::Diagnostics::new(filename, span);
    d.add_type_err(err, context);
    CompileError::Diagnostics(crate::diagnostic::Diagnostics::from_vec(d.diags))
}

/// Changing only the innermost scope keeps every bound value defined when the innermost scope's
/// values are.
proof fn lemma_values_top(
    o: Seq<Scope<Value, u64, Option<ScopeTag>>>,
    n: Seq<Scope<Value, u64, Option<ScopeTag>>>,
    defs: Map<u64, TyV>,
)
    requires
        scope_values_ok(o, defs),
        o.len() > 0,
        n.len() == o.len(),
        n.drop_last() == o.drop_last(),
        n.last().locals@.len() >= o.last().locals@.len(),
        forall|j: int|
            o.last().locals@.len() <= j < n.last().locals@.len() ==> has_type(
                defs,
                (#[trigger] n.last().locals@[j]).1.id,
                n.last().locals@[j].1.ty@,
            ),
        n.last().locals@.subrange(0, o.last().locals@.len() as int) == o.last().locals@,
    ensures
        scope_values_ok(n, defs),
{
    assert forall|i: int, j: int|
        0 <= i < n.len() && 0 <= j < n[i].locals@.len() implies has_type(
        defs,
        (#[trigger] n[i].locals@[j]).1.id,
        n[i].locals@[j].1.ty@,
    ) by {
        if i < n.len() - 1 {
            assert(n[i] == n.drop_last()[i]);
            assert(o[i] == o.drop_last()[i]);
        } else if j < o.last().locals@.len() {
            assert(n.last().locals@[j] == n.last().locals@.subrange(0, o.last().locals@.len() as int)[j]);
            assert(o[o.len() - 1].locals@[j] == o.last().locals@[j]);
        } else {
            assert(n.last().locals@[j] == n[i].locals@[j]);
        }
    }
}

/// Code generator of specifications: the names in scope, each scope tagged or not, the
/// operations built so far, and the numbering of values, predicates and anonymous contracts.
pub struct SpecCodegen {
    /// The names visible at the current point; the root scope is tagged [`ScopeTag::Root`].
    pub scope: ScopeStack<Value, u64, Option<ScopeTag>>,
    /// The operations of the module: contracts and predicate definitions, in creation order.
    pub module: Vec<Op>,
    /// The block that operations are appended to.
    pub cur: Vec<Op>,
    /// The blocks that enclose the current one, outermost first.
    pub saved: Vec<Vec<Op>>,
    /// The number of the next value.
    pub next_value: u64,
    /// The number of the next `function.def`.
    pub next_func: u64,
    /// The number of anonymous contracts created so far.
    pub anon_contracts: u64,
    /// The name of the specification file, for diagnostics.
    pub filename: String,
    /// The type of each value defined so far.
    pub defs: Ghost<Map<u64, TyV>>,
}

impl SpecCodegen {
    /// The root scope is tagged, every value in use is defined, and every operation built so far
    /// is well formed.
    pub open spec fn wf(&self) -> bool {
        &&& self.scope.wf()
        &&& self.scope.scopes@[0].payload == Some(ScopeTag::Root)
        &&& forall|k: u64| self.defs@.contains_key(k) ==> k < self.next_value
        &&& scope_values_ok(self.scope.scopes@, self.defs@)
        &&& ops_ok(self.cur@, self.defs@)
        &&& forall|b: int| 0 <= b < self.saved@.len() ==> ops_ok(#[trigger] self.saved@[b]@, self.defs@)
    }

    /// What lowering an expression keeps: the scopes, the module and the enclosing blocks are
    /// unchanged, the current block only grows, and values are only added.
    pub open spec fn kept(o: SpecCodegen, n: SpecCodegen) -> bool {
        &&& n.scope.scopes@ == o.scope.scopes@
        &&& n.module@ == o.module@
        &&& n.saved@ == o.saved@
        &&& n.cur@.len() >= o.cur@.len()
        &&& n.cur@.subrange(0, o.cur@.len() as int) == o.cur@
        &&& o.defs@.submap_of(n.defs@)
        &&& o.next_value <= n.next_value
        &&& n.next_func == o.next_func
        &&& n.anon_contracts == o.anon_contracts
        &&& n.filename == o.filename
    }

    /// A numbering of values, predicates or anonymous contracts has reached its end.
    pub open spec fn exhausted(s: SpecCodegen) -> bool {
        s.next_value == u64::MAX || s.next_func == u64::MAX || s.anon_contracts == u64::MAX
    }

    /// What lowering a statement keeps: as many scopes, carrying the same tags, all but the
    /// innermost unchanged, the enclosing blocks unchanged, the module and the current block only grow, and values and predicate
    /// definitions are only added.
    pub open spec fn stmt_kept(o: SpecCodegen, n: SpecCodegen) -> bool {
        &&& n.scope.scopes@.len() == o.scope.scopes@.len()
        &&& forall|i: int| 0 <= i < o.scope.scopes@.len() ==> #[trigger] n.scope.scopes@[i].payload
            == o.scope.scopes@[i].payload
        &&& n.scope.scopes@.drop_last() == o.scope.scopes@.drop_last()
        &&& n.scope.scopes@.last().payload == o.scope.scopes@.last().payload
        &&& n.module@.len() >= o.module@.len()
        &&& n.module@.subrange(0, o.module@.len() as int) == o.module@
        &&& n.saved@ == o.saved@
        &&& n.cur@.len() >= o.cur@.len()
        &&& n.cur@.subrange(0, o.cur@.len() as int) == o.cur@
        &&& o.defs@.submap_of(n.defs@)
        &&& o.next_value <= n.next_value
        &&& o.next_func <= n.next_func
        &&& n.anon_contracts == o.anon_contracts
        &&& n.filename == o.filename
    }

    /// A code generator with an empty root scope and nothing built.
    pub fn new(filename: &str) -> (r: SpecCodegen)
        ensures
            r.wf(),
            r.scope.scopes@.len() == 1,
            r.module@.len() == 0,
            r.cur@.len() == 0,
            r.saved@.len() == 0,
            r.filename@ == filename@,
    {
        let r = SpecCodegen {
            scope: ScopeStack::new(Some(ScopeTag::Root)),
            module: Vec::new(),
            cur: Vec::new(),
            saved: Vec::new(),
            next_value: 0,
            next_func: 0,
            anon_contracts: 0,
            filename: filename.to_owned(),
            defs: Ghost(Map::empty()),
        };
        proof {
            assert(crate::type_analysis::scope::is_empty_scope(r.scope.scopes@[0]));
        }
        r
    }

    /// A new value of type `ty`, for the operation that the caller appends next. Fails when the
    /// numbering of values is exhausted.
    fn fresh(&mut self, ty: Ty) -> (r: Result<Value, CompileError>)
        requires
            old(self).wf(),
        ensures
            final(self).wf(),
            SpecCodegen::kept(*old(self), *final(self)),
            final(self).cur@ == old(self).cur@,
            match r {
                Ok(v) => v.id == old(self).next_value && v.ty@ == ty@ && !old(self).defs@.contains_key(
                    v.id,
                ) && final(self).defs@ == old(self).defs@.insert(v.id, ty@),
                Err(_) => old(self).next_value == u64::MAX && final(self).next_value == u64::MAX,
            },
    {
        if self.next_value == u64::MAX {
            proof {
                assert(self.cur@.subrange(0, self.cur@.len() as int) =~= self.cur@);
            }
            return Err(CompileError::Ir("too many values in one specification".to_owned()));
        }
        let id = self.next_value;
        let ghost d0 = self.defs@;
        proof {
            assert(!d0.contains_key(id));
        }
        self.next_value = id + 1;
        self.defs = Ghost(d0.insert(id, ty@));
        proof {
            let d1 = self.defs@;
            assert(d0.submap_of(d1));
            lemma_ops_ok_grow(self.cur@, d0, d1);
            assert forall|b: int| 0 <= b < self.saved@.len() implies ops_ok(
                #[trigger] self.saved@[b]@,
                d1,
            ) by {
                lemma_ops_ok_grow(self.saved@[b]@, d0, d1);
            }
            assert(self.cur@.subrange(0, self.cur@.len() as int) =~= self.cur@);
        }
        Ok(Value { id, ty })
    }

    /// Appends a well-formed operation to the current block.
    fn append(&mut self, op: Op)
        requires
            old(self).wf(),
            op_ok(op, old(self).defs@),
        ensures
            final(self).wf(),
            SpecCodegen::kept(*old(self), *final(self)),
            final(self).cur@ == old(self).cur@.push(op),
            final(self).defs@ == old(self).defs@,
    {
        self.cur.push(op);
        proof {
            assert(self.cur@.subrange(0, old(self).cur@.len() as int) =~= old(self).cur@);
        }
    }

    /// Appends an operation of kind `kind` on `operands`, defining a new value of type `ty`.
    fn append_with_result(&mut self, kind: OpKind, operands: Vec<u64>, ty: Ty, span: Span) -> (r: Result<
        Value,
        CompileError,
    >)
        requires
            old(self).wf(),
            operands_defined(operands@, old(self).defs@),
            kind_ok(kind, operands@, Some(ty@), Seq::empty(), old(self).defs@),
        ensures
            final(self).wf(),
            SpecCodegen::kept(*old(self), *final(self)),
            match r {
                Ok(v) => final(self).cur@.len() == old(self).cur@.len() + 1 && defines(
                    final(self).cur@.last(),
                    v,
                ) && v.ty@ == ty@ && final(self).cur@.last().kind == kind
                    && final(self).cur@.last().operands@ == operands@ && has_type(
                    final(self).defs@,
                    v.id,
                    v.ty@,
                ) && !old(self).defs@.contains_key(v.id),
                Err(_) => final(self).next_value == u64::MAX,
            },
    {
        let ghost d0 = self.defs@;
        let v = self.fresh(ty)?;
        let op = Op { kind, operands, result: Some(v.copy()), regions: Vec::new(), span };
        proof {
            let d1 = self.defs@;
            assert(op.regions@ =~= Seq::<Region>::empty());
            assert forall|i: int| 0 <= i < op.operands@.len() implies d1.contains_key(
                #[trigger] op.operands@[i],
            ) by {
                assert(d0.contains_key(op.operands@[i]));
            }
            lemma_kind_ok_grow(op.kind, op.operands@, Some(v.ty@), op.regions@, d0, d1);
        }
        let ghost c1 = *self;
        self.append(op);
        proof {
            assert(self.cur@.subrange(0, old(self).cur@.len() as int) =~= old(self).cur@);
        }
        Ok(v)
    }

    /// Opens a new, empty current block; the old one becomes the innermost enclosing block.
    fn open_block(&mut self)
        requires
            old(self).wf(),
        ensures
            final(self).wf(),
            final(self).cur@.len() == 0,
            final(self).saved@ == old(self).saved@.push(old(self).cur),
            final(self).scope == old(self).scope,
            final(self).module == old(self).module,
            final(self).defs == old(self).defs,
            final(self).next_value == old(self).next_value,
            final(self).next_func == old(self).next_func,
            final(self).anon_contracts == old(self).anon_contracts,
            final(self).filename == old(self).filename,
    {
        let mut outer: Vec<Op> = Vec::new();
        std::mem::swap(&mut outer, &mut self.cur);
        self.saved.push(outer);
        proof {
            assert forall|b: int| 0 <= b < self.saved@.len() implies ops_ok(
                #[trigger] self.saved@[b]@,
                self.defs@,
            ) by {
                if b < old(self).saved@.len() {
                    assert(self.saved@[b] == old(self).saved@[b]);
                }
            }
        }
    }

    /// Closes the current block and returns its operations; the innermost enclosing block
    /// becomes the current one.
    fn close_block(&mut self) -> (r: Vec<Op>)
        requires
            old(self).wf(),
            old(self).saved@.len() > 0,
        ensures
            final(self).wf(),
            r == old(self).cur,
            ops_ok(r@, final(self).defs@),
            final(self).cur == old(self).saved@.last(),
            final(self).saved@ == old(self).saved@.drop_last(),
            final(self).scope == old(self).scope,
            final(self).module == old(self).module,
            final(self).defs == old(self).defs,
            final(self).next_value == old(self).next_value,
            final(self).next_func == old(self).next_func,
            final(self).anon_contracts == old(self).anon_contracts,
            final(self).filename == old(self).filename,
    {
        let mut outer = self.saved.pop().unwrap();
        proof {
            assert(ops_ok(old(self).saved@[old(self).saved@.len() - 1]@, self.defs@));
        }
        std::mem::swap(&mut outer, &mut self.cur);
        proof {
            assert forall|b: int| 0 <= b < self.saved@.len() implies ops_ok(
                #[trigger] self.saved@[b]@,
                self.defs@,
            ) by {
                assert(self.saved@[b] == old(self).saved@[b]);
            }
        }
        outer
    }

    /// Pushes a scope with the given tag, or untagged.
    fn push_scope(&mut self, tag: Option<ScopeTag>)
        requires
            old(self).wf(),
        ensures
            final(self).wf(),
            final(self).scope.scopes@.len() == old(self).scope.scopes@.len() + 1,
            final(self).scope.scopes@.drop_last() == old(self).scope.scopes@,
            final(self).scope.scopes@.last().payload == tag,
            !final(self).scope.scopes@.last().local_limit,
            crate::type_analysis::scope::is_empty_scope(final(self).scope.scopes@.last()),
            final(self).cur == old(self).cur,
            final(self).saved == old(self).saved,
            final(self).module == old(self).module,
            final(self).defs == old(self).defs,
            final(self).next_value == old(self).next_value,
            final(self).next_func == old(self).next_func,
            final(self).anon_contracts == old(self).anon_contracts,
            final(self).filename == old(self).filename,
    {
        self.scope.push(tag);
        proof {
            let sc = self.scope.scopes@;
            assert(sc[0] == old(self).scope.scopes@[0]);
            assert forall|i: int, j: int|
                0 <= i < sc.len() && 0 <= j < sc[i].locals@.len() implies has_type(
                self.defs@,
                (#[trigger] sc[i].locals@[j]).1.id,
                sc[i].locals@[j].1.ty@,
            ) by {
                assert(i < sc.len() - 1);
                assert(sc[i] == old(self).scope.scopes@[i]);
            }
        }
    }

    /// Pops the innermost scope; the root scope stays.
    fn pop_scope(&mut self)
        requires
            old(self).wf(),
            old(self).scope.scopes@.len() > 1,
        ensures
            final(self).wf(),
            final(self).scope.scopes@ == old(self).scope.scopes@.drop_last(),
            final(self).cur == old(self).cur,
            final(self).saved == old(self).saved,
            final(self).module == old(self).module,
            final(self).defs == old(self).defs,
            final(self).next_value == old(self).next_value,
            final(self).next_func == old(self).next_func,
            final(self).anon_contracts == old(self).anon_contracts,
            final(self).filename == old(self).filename,
    {
        self.scope.pop();
        proof {
            let sc = self.scope.scopes@;
            assert(sc[0] == old(self).scope.scopes@[0]);
            assert forall|i: int, j: int|
                0 <= i < sc.len() && 0 <= j < sc[i].locals@.len() implies has_type(
                self.defs@,
                (#[trigger] sc[i].locals@[j]).1.id,
                sc[i].locals@[j].1.ty@,
            ) by {
                assert(sc[i] == old(self).scope.scopes@[i]);
            }
        }
    }

    /// `v` as a value of type `requested`: `v` itself when it has that type, otherwise the
    /// result of a `cast.toindex` from a field element, a `cast.tofelt` from an index, or a
    /// `poly.unifiable_cast`.
    fn cast_if_necessary(&mut self, v: Value, requested: &Ty, span: Span) -> (r: Result<Value, CompileError>)
        requires
            old(self).wf(),
            has_type(old(self).defs@, v.id, v.ty@),
        ensures
            final(self).wf(),
            SpecCodegen::kept(*old(self), *final(self)),
            match r {
                Ok(w) => w.ty@ == requested@ && has_type(final(self).defs@, w.id, w.ty@) && if v.ty@
                    == requested@ {
                    w.id == v.id && final(self).cur@ == old(self).cur@
                } else {
                    final(self).cur@.len() == old(self).cur@.len() + 1 && defines(
                        final(self).cur@.last(),
                        w,
                    ) && final(self).cur@.last().operands@ == seq![v.id] && (if v.ty@ == TyV::Felt
                        && requested@ == TyV::Index {
                        final(self).cur@.last().kind is ToIndex
                    } else if v.ty@ == TyV::Index && requested@ == TyV::Felt {
                        final(self).cur@.last().kind is ToFelt
                    } else {
                        final(self).cur@.last().kind is UnifiableCast
                    })
                },
                Err(_) => final(self).next_value == u64::MAX,
            },
    {
        if v.ty.same(requested) {
            proof {
                assert(self.cur@.subrange(0, self.cur@.len() as int) =~= self.cur@);
            }
            return Ok(v);
        }
        let operands = vec![v.id];
        proof {
            assert(operands@ =~= seq![v.id]);
            assert(operands@[0] == v.id);
        }
        let kind = match (&v.ty, requested) {
            (Ty::Felt, Ty::Index) => OpKind::ToIndex,
            (Ty::Index, Ty::Felt) => OpKind::ToFelt,
            _ => OpKind::UnifiableCast,
        };
        self.append_with_result(kind, operands, requested.copy(), span)
    }

    /// Lowers a branch of a conditional in a block and a scope of its own: its value, cast to
    /// `expected` when its type differs, ends the block in a `scf.yield`.
    fn lower_branch(&mut self, e: &Expression<Ty>, expected: &Ty, span: Span) -> (r: Result<Vec<Op>, CompileError>)
        requires
            old(self).wf(),
            lowerable_expr(*e),
        ensures
            final(self).wf(),
            r is Ok ==> SpecCodegen::kept(*old(self), *final(self)) && final(self).cur
                == old(self).cur,
            match r {
                Ok(ops) => yields_ops(ops@, final(self).defs@, expected@)
                    && ops_ok(ops@, final(self).defs@),
                Err(_) => !expr_ok(*e, ascopes(old(self).scope.scopes@)) || final(self).next_value
                    == u64::MAX,
            },
        decreases e, 1nat,
    {
        let ghost c0 = *self;
        self.open_block();
        self.push_scope(None);
        let ghost c1 = *self;
        proof {
            assert(c1.scope.scopes@ =~= c0.scope.scopes@.push(c1.scope.scopes@.last()));
            lemma_ascopes_push(c0.scope.scopes@, c1.scope.scopes@.last());
            lemma_expr_ok_push(*e, ascopes(c0.scope.scopes@));
        }
        let v = self.lower_expression(e)?;
        let ghost c2 = *self;
        let w = if v.ty.same(expected) {
            v
        } else {
            let operands = vec![v.id];
            proof {
                assert(operands@ =~= seq![v.id]);
                assert(operands@[0] == v.id);
            }
            self.append_with_result(OpKind::UnifiableCast, operands, expected.copy(), span)?
        };
        let ghost c3 = *self;
        let operands = vec![w.id];
        proof {
            assert(operands@ =~= seq![w.id]);
            assert(operands@[0] == w.id);
        }
        let y = Op { kind: OpKind::Yield, operands, result: None, regions: Vec::new(), span };
        self.append(y);
        let ghost c4 = *self;
        self.pop_scope();
        let ops = self.close_block();
        proof {
            assert(ops@.last() == y);
            assert(c1.scope.scopes@.drop_last() == c0.scope.scopes@);
            lemma_sub_trans(c1.defs@, c2.defs@, c3.defs@);
            assert(c4.saved@ == c1.saved@);
            assert(c1.saved@.last() == c0.cur);
            assert(self.cur@.subrange(0, c0.cur@.len() as int) =~= c0.cur@);
            assert(c4.scope.scopes@ == c1.scope.scopes@);
            assert(self.scope.scopes@ == c0.scope.scopes@);
            assert(c0.defs@.submap_of(self.defs@));
            assert(c0.next_value <= self.next_value);
            assert(self.module@ == c0.module@);
            assert(self.saved@ == c0.saved@);
        }
        Ok(ops)
    }

    /// Lowers an expression into operations appended to the current block and returns its
    /// value: the result of the operation the construct becomes, or the value bound to a name or
    /// argument. Fails when a name, argument or predicate is unknown, or when an operand is not
    /// of the kind of type the operation reads (an array, a struct-like type).
    pub fn lower_expression(&mut self, e: &Expression<Ty>) -> (r: Result<Value, CompileError>)
        requires
            old(self).wf(),
            lowerable_expr(*e),
        ensures
            final(self).wf(),
            r is Ok ==> SpecCodegen::kept(*old(self), *final(self)),
            match r {
                Ok(v) => has_type(final(self).defs@, v.id, v.ty@) && produces(
                    *e,
                    v,
                    old(self).scope.scopes@,
                    final(self).cur@.last(),
                ) && (!(e is Arg || e is Symbol) ==> final(self).cur@.len() > old(self).cur@.len())
                    && v.ty@ == ety(*e, ascopes(old(self).scope.scopes@)),
                Err(_) => !expr_ok(*e, ascopes(old(self).scope.scopes@)) || final(self).next_value
                    == u64::MAX,
            },
            r matches Ok(v) ==> denotes(*e, final(self).cur@, old(self).scope.scopes@, v.id),
            e matches Expression::Symbol(i) ==> (r is Ok <==> lookup_local(
                old(self).scope.scopes@,
                i.name.name@,
            ) is Some),
            e matches Expression::Arg { index, .. } ==> (r is Ok <==> lookup_param(
                old(self).scope.scopes@,
                *index,
            ) is Some),
        decreases e, 0nat,
    {
        let ghost c0 = *self;
        proof {
            assert(self.cur@.subrange(0, self.cur@.len() as int) =~= self.cur@);
        }
        match e {
            Expression::Conditional { condition, then_branch, else_branch, span, meta } => {
                let c = self.lower_expression(condition)?;
                let ghost c1 = *self;
                let then_ops = self.lower_branch(then_branch, meta, *span)?;
                let ghost c2 = *self;
                let else_ops = self.lower_branch(else_branch, meta, *span)?;
                let ghost c3 = *self;
                let v = self.fresh(meta.copy())?;
                let regions = vec![
                    Region { args: Vec::new(), ops: then_ops },
                    Region { args: Vec::new(), ops: else_ops },
                ];
                let operands = vec![c.id];
                let op = Op {
                    kind: OpKind::If,
                    operands,
                    result: Some(v.copy()),
                    regions,
                    span: *span,
                };
                proof {
                    lemma_sub_trans(c0.defs@, c1.defs@, c2.defs@);
                    lemma_sub_trans(c0.defs@, c2.defs@, c3.defs@);
                    lemma_sub_trans(c0.defs@, c3.defs@, self.defs@);
                    lemma_sub_trans(c1.defs@, c2.defs@, c3.defs@);
                    lemma_sub_trans(c1.defs@, c3.defs@, self.defs@);
                    lemma_sub_trans(c2.defs@, c3.defs@, self.defs@);
                    lemma_sub(c1.defs@, self.defs@, c.id);
                    assert(operands@[0] == c.id);
                    assert(regions@[0].ops == then_ops);
                    assert(regions@[1].ops == else_ops);
                    lemma_yields_grow(then_ops@, c2.defs@, self.defs@, meta@);
                    lemma_yields_grow(else_ops@, c3.defs@, self.defs@, meta@);
                }
                self.append(op);
                proof {
                    assert(self.cur@.subrange(0, c0.cur@.len() as int) =~= c0.cur@) by {
                        assert(c1.cur@.subrange(0, c0.cur@.len() as int) == c0.cur@);
                        assert(c1.cur@ == c3.cur@);
                    }
                    assert(extends(c1.cur@, self.cur@)) by {
                        assert(self.cur@.subrange(0, c1.cur@.len() as int) =~= c1.cur@);
                    }
                    lemma_denotes_grow(**condition, c1.cur@, self.cur@, c0.scope.scopes@, c.id);
                    let k = self.cur@.len() - 1;
                    assert(self.cur@[k] == op);
                    assert(defines_id(self.cur@[k], v.id));
                }
                Ok(v)
            },
            Expression::Binary { op, left, right, span, meta } => {
                let l = self.lower_expression(left)?;
                let ghost c1 = *self;
                let r = self.lower_expression(right)?;
                let ghost c2 = *self;
                proof {
                    lemma_sub(c1.defs@, c2.defs@, l.id);
                }
                let logical = match op {
                    BinaryOp::Or => true,
                    BinaryOp::And => true,
                    _ => false,
                };
                let ghost sc = c0.scope.scopes@;
                proof {
                    lemma_denotes_grow(**left, c1.cur@, c2.cur@, sc, l.id);
                }
                let (a, b) = if logical {
                    proof {
                        assert(operand_denotes(**left, self.cur@, sc, l.id));
                        assert(operand_denotes(**right, self.cur@, sc, r.id));
                    }
                    (l, r)
                } else {
                    let felt = Ty::Felt;
                    let ghost l0 = l.id;
                    let ghost lt = l.ty@;
                    let ghost r0 = r.id;
                    let ghost rt = r.ty@;
                    let a = self.cast_if_necessary(l, &felt, *span)?;
                    let ghost c3 = *self;
                    proof {
                        lemma_sub(c2.defs@, c3.defs@, r.id);
                        lemma_denotes_grow(**left, c2.cur@, c3.cur@, sc, l0);
                        lemma_denotes_grow(**right, c2.cur@, c3.cur@, sc, r0);
                        if lt != TyV::Felt {
                            lemma_cast_last(c3.cur@, a, l0);
                        }
                        assert(operand_denotes(**left, c3.cur@, sc, a.id));
                    }
                    let b = self.cast_if_necessary(r, &felt, *span)?;
                    proof {
                        lemma_sub(c3.defs@, self.defs@, a.id);
                        lemma_sub_trans(c2.defs@, c3.defs@, self.defs@);
                        lemma_operand_grow(**left, c3.cur@, self.cur@, sc, a.id);
                        lemma_denotes_grow(**right, c3.cur@, self.cur@, sc, r0);
                        if rt != TyV::Felt {
                            lemma_cast_last(self.cur@, b, r0);
                        }
                        assert(operand_denotes(**right, self.cur@, sc, b.id));
                    }
                    (a, b)
                };
                let ghost c4 = *self;
                let operands = vec![a.id, b.id];
                proof {
                    assert(operands@[0] == a.id && operands@[1] == b.id);
                    if logical {
                        lemma_sub(c1.defs@, c4.defs@, l.id);
                    }
                }
                let v = self.append_with_result(OpKind::Binary(*op), operands, meta.copy(), *span)?;
                proof {
                    lemma_operand_grow(**left, c4.cur@, self.cur@, sc, a.id);
                    lemma_operand_grow(**right, c4.cur@, self.cur@, sc, b.id);
                    let k = self.cur@.len() - 1;
                    assert(self.cur@[k] == self.cur@.last());
                    assert(operands@ =~= seq![a.id, b.id]);
                    lemma_sub_trans(c0.defs@, c1.defs@, c2.defs@);
                    lemma_sub_trans(c0.defs@, c2.defs@, c4.defs@);
                    lemma_sub_trans(c0.defs@, c4.defs@, self.defs@);
                    assert(self.cur@.subrange(0, c0.cur@.len() as int) =~= c0.cur@) by {
                        assert(c1.cur@.subrange(0, c0.cur@.len() as int) == c0.cur@);
                        assert(c2.cur@.subrange(0, c1.cur@.len() as int) == c1.cur@);
                        assert(c4.cur@.subrange(0, c2.cur@.len() as int) == c2.cur@);
                        assert(self.cur@.subrange(0, c4.cur@.len() as int) == c4.cur@);
                    }
                }
                Ok(v)
            },
            Expression::Unary { op, expr, span, meta } => {
                let x = self.lower_expression(expr)?;
                let ghost c1 = *self;
                let ghost sc = c0.scope.scopes@;
                let ghost x0 = x.id;
                let ghost xt = x.ty@;
                let (kind, a) = match op {
                    UnaryOp::Not => {
                        proof {
                            assert(operand_denotes(**expr, self.cur@, sc, x0));
                        }
                        (OpKind::Not, x)
                    },
                    UnaryOp::Neg => {
                        let felt = Ty::Felt;
                        let a = self.cast_if_necessary(x, &felt, *span)?;
                        proof {
                            lemma_denotes_grow(**expr, c1.cur@, self.cur@, sc, x0);
                            if xt != TyV::Felt {
                                lemma_cast_last(self.cur@, a, x0);
                            }
                            assert(operand_denotes(**expr, self.cur@, sc, a.id));
                        }
                        (OpKind::Neg, a)
                    },
                };
                let ghost c2 = *self;
                let operands = vec![a.id];
                proof {
                    assert(operands@[0] == a.id);
                    if *op == UnaryOp::Not {
                        lemma_sub(c1.defs@, c2.defs@, x.id);
                    }
                }
                let v = self.append_with_result(kind, operands, meta.copy(), *span)?;
                proof {
                    lemma_operand_grow(**expr, c2.cur@, self.cur@, sc, a.id);
                    let k = self.cur@.len() - 1;
                    assert(self.cur@[k] == self.cur@.last());
                    lemma_sub_trans(c0.defs@, c1.defs@, c2.defs@);
                    lemma_sub_trans(c0.defs@, c2.defs@, self.defs@);
                    assert(self.cur@.subrange(0, c0.cur@.len() as int) =~= c0.cur@) by {
                        assert(c1.cur@.subrange(0, c0.cur@.len() as int) == c0.cur@);
                        assert(c2.cur@.subrange(0, c1.cur@.len() as int) == c1.cur@);
                        assert(self.cur@.subrange(0, c2.cur@.len() as int) == c2.cur@);
                    }
                }
                Ok(v)
            },
            Expression::Index { target, index, span, meta } => {
                let t = self.lower_expression(target)?;
                let ghost c1 = *self;
                let i = self.lower_expression(index)?;
                let ghost c2 = *self;
                let idx_ty = Ty::Index;
                let ghost i0 = i.id;
                let ghost it = i.ty@;
                let i2 = self.cast_if_necessary(i, &idx_ty, *span)?;
                let ghost c3 = *self;
                let ghost sc = c0.scope.scopes@;
                proof {
                    lemma_denotes_grow(**index, c2.cur@, c3.cur@, sc, i0);
                    if it != TyV::Index {
                        lemma_cast_last(c3.cur@, i2, i0);
                    }
                    assert(operand_denotes(**index, c3.cur@, sc, i2.id));
                    lemma_denotes_grow(**target, c1.cur@, c2.cur@, sc, t.id);
                    lemma_denotes_grow(**target, c2.cur@, c3.cur@, sc, t.id);
                }
                proof {
                    lemma_sub_trans(c1.defs@, c2.defs@, c3.defs@);
                    lemma_sub(c1.defs@, c3.defs@, t.id);
                }
                let rank = match &t.ty {
                    Ty::Array(a) => a.dims.len(),
                    _ => {
                        return Err(CompileError::Ir(concat2("expected array type but got ", t.ty.text().as_str())));
                    },
                };
                let kind = if rank > 1 {
                    OpKind::ArrayExtract
                } else {
                    OpKind::ArrayRead
                };
                let operands = vec![t.id, i2.id];
                proof {
                    assert(operands@[0] == t.id && operands@[1] == i2.id);
                    assert(dims_view(t.ty->Array_0.dims@).len() == rank);
                }
                let v = self.append_with_result(kind, operands, meta.copy(), *span)?;
                proof {
                    lemma_operand_grow(**index, c3.cur@, self.cur@, sc, i2.id);
                    lemma_denotes_grow(**target, c3.cur@, self.cur@, sc, t.id);
                    let k = self.cur@.len() - 1;
                    assert(self.cur@[k] == self.cur@.last());
                    lemma_sub_trans(c0.defs@, c1.defs@, c3.defs@);
                    lemma_sub_trans(c0.defs@, c3.defs@, self.defs@);
                    assert(self.cur@.subrange(0, c0.cur@.len() as int) =~= c0.cur@) by {
                        assert(c1.cur@.subrange(0, c0.cur@.len() as int) == c0.cur@);
                        assert(c2.cur@.subrange(0, c1.cur@.len() as int) == c1.cur@);
                        assert(c3.cur@.subrange(0, c2.cur@.len() as int) == c2.cur@);
                        assert(self.cur@.subrange(0, c3.cur@.len() as int) == c3.cur@);
                    }
                }
                Ok(v)
            },
            Expression::Member { target, member, span, meta } => {
                let t = self.lower_expression(target)?;
                let ghost c1 = *self;
                let name = member.name.name.clone();
                let kind = match &t.ty {
                    Ty::Record(r) => match r.kind {
                        RecordKind::Struct => OpKind::StructRead(name),
                        RecordKind::Pod => OpKind::PodRead(name),
                    },
                    _ => {
                        return Err(
                            CompileError::Ir(
                                concat2(
                                    "was expecting either a struct or pod type but got ",
                                    t.ty.text().as_str(),
                                ),
                            ),
                        );
                    },
                };
                let operands = vec![t.id];
                proof {
                    assert(operands@[0] == t.id);
                }
                let v = self.append_with_result(kind, operands, meta.copy(), *span)?;
                proof {
                    lemma_denotes_grow(**target, c1.cur@, self.cur@, c0.scope.scopes@, t.id);
                    let k = self.cur@.len() - 1;
                    assert(self.cur@[k] == self.cur@.last());
                    lemma_sub_trans(c0.defs@, c1.defs@, self.defs@);
                    assert(self.cur@.subrange(0, c0.cur@.len() as int) =~= c0.cur@) by {
                        assert(c1.cur@.subrange(0, c0.cur@.len() as int) == c0.cur@);
                        assert(self.cur@.subrange(0, c1.cur@.len() as int) == c1.cur@);
                    }
                }
                Ok(v)
            },
            Expression::Call { callee, args, span, meta } => {
                let mut ids: Vec<u64> = Vec::new();
                let mut i: usize = 0;
                let ghost a0 = ascopes(c0.scope.scopes@);
                proof {
                    lemma_args_ok(args@, a0);
                    lemma_lowerable_args(args@);
                    assert forall|k: int| 0 <= k < args@.len() implies decreases_to!(e => #[trigger] args@[k]) by {
                        assert(decreases_to!(e => args));
                        assert(decreases_to!(args => args@[k]));
                    }
                }
                while i < args.len()
                    invariant
                        e is Call,
                        c0 == *old(self),
                        a0 == ascopes(c0.scope.scopes@),
                        expr_ok(*e, a0) ==> forall|k: int| 0 <= k < args@.len() ==> #[trigger] expr_ok(args@[k], a0),
                        i <= args@.len(),
                        self.wf(),
                        SpecCodegen::kept(c0, *self),
                        ids@.len() == i,
                        operands_defined(ids@, self.defs@),
                        forall|k: int| 0 <= k < i ==> #[trigger] denotes(args@[k], self.cur@, c0.scope.scopes@, ids@[k]),
                        forall|k: int| 0 <= k < args@.len() ==> #[trigger] lowerable_expr(args@[k]),
                        forall|k: int| 0 <= k < args@.len() ==> decreases_to!(e => #[trigger] args@[k]),
                    decreases args@.len() - i,
                {
                    proof {
                        assert(decreases_to!(e => args@[i as int]));
                        assert(lowerable_expr(args@[i as int]));
                    }
                    let ghost ci = *self;
                    proof {
                        assert(expr_ok(*e, a0) ==> expr_ok(args@[i as int], a0));
                        assert(ascopes(self.scope.scopes@) == a0);
                    }
                    let v = match self.lower_expression(&args[i]) {
                        Ok(v) => v,
                        Err(err) => {
                            proof {
                                assert(!expr_ok(args@[i as int], a0) || self.next_value == u64::MAX);
                                assert(!expr_ok(*e, a0) || self.next_value == u64::MAX);
                            }
                            return Err(err);
                        },
                    };
                    proof {
                        assert forall|k: int| 0 <= k < ids@.len() implies self.defs@.contains_key(
                            #[trigger] ids@[k],
                        ) by {
                            assert(ci.defs@.contains_key(ids@[k]));
                            lemma_sub(ci.defs@, self.defs@, ids@[k]);
                        }
                    }
                    let ghost ids0 = ids@;
                    ids.push(v.id);
                    proof {
                        assert forall|k: int| 0 <= k < i + 1 implies #[trigger] denotes(
                            args@[k],
                            self.cur@,
                            c0.scope.scopes@,
                            ids@[k],
                        ) by {
                            if k < i {
                                assert(ids@[k] == ids0[k]);
                                lemma_denotes_grow(args@[k], ci.cur@, self.cur@, c0.scope.scopes@, ids0[k]);
                            } else {
                                assert(ids@[k] == v.id);
                            }
                        }
                        lemma_sub_trans(c0.defs@, ci.defs@, self.defs@);
                        assert(self.cur@.subrange(0, c0.cur@.len() as int) =~= c0.cur@) by {
                            assert(ci.cur@.subrange(0, c0.cur@.len() as int) == c0.cur@);
                            assert(self.cur@.subrange(0, ci.cur@.len() as int) == ci.cur@);
                        }
                        assert forall|k: int| 0 <= k < ids@.len() implies self.defs@.contains_key(
                            #[trigger] ids@[k],
                        ) by {
                            if k == ids@.len() - 1 {
                                assert(ids@[k] == v.id);
                            }
                        }
                    }
                    i = i + 1;
                }
                proof {
                    lemma_pred_shape(self.scope.scopes@, callee.name.name@);
                }
                let f = match self.scope.find_predicate(callee) {
                    Ok(f) => *f,
                    Err(_) => {
                        return Err(CompileError::Ir(concat3("predicate symbol '", callee.value(), "' not found")));
                    },
                };
                let ghost c1 = *self;
                let ghost gids = ids@;
                let v = self.append_with_result(OpKind::Call(f), ids, meta.copy(), *span)?;
                proof {
                    assert forall|k: int| 0 <= k < args@.len() implies #[trigger] denotes(
                        args@[k],
                        self.cur@,
                        c0.scope.scopes@,
                        gids[k],
                    ) by {
                        lemma_denotes_grow(args@[k], c1.cur@, self.cur@, c0.scope.scopes@, gids[k]);
                    }
                    lemma_args_denote(args@, self.cur@, c0.scope.scopes@, gids);
                    let k = self.cur@.len() - 1;
                    assert(self.cur@[k] == self.cur@.last());
                    lemma_sub_trans(c0.defs@, c1.defs@, self.defs@);
                    assert(self.cur@.subrange(0, c0.cur@.len() as int) =~= c0.cur@) by {
                        assert(c1.cur@.subrange(0, c0.cur@.len() as int) == c0.cur@);
                        assert(self.cur@.subrange(0, c1.cur@.len() as int) == c1.cur@);
                    }
                }
                Ok(v)
            },
            Expression::Len { target, span, .. } => {
                let t = self.lower_expression(target)?;
                let ghost c1 = *self;
                match &t.ty {
                    Ty::Array(_) => {},
                    _ => {
                        return Err(CompileError::Ir(concat2("expected array type but got ", t.ty.text().as_str())));
                    },
                }
                let dim = self.append_with_result(OpKind::ConstIndex(0), Vec::new(), Ty::Index, *span)?;
                let ghost c2 = *self;
                proof {
                    lemma_sub(c1.defs@, c2.defs@, t.id);
                }
                let operands = vec![t.id, dim.id];
                proof {
                    assert(operands@[0] == t.id && operands@[1] == dim.id);
                }
                let v = self.append_with_result(OpKind::ArrayLen, operands, Ty::Index, *span)?;
                proof {
                    lemma_denotes_grow(**target, c1.cur@, c2.cur@, c0.scope.scopes@, t.id);
                    lemma_denotes_grow(**target, c2.cur@, self.cur@, c0.scope.scopes@, t.id);
                    let k = self.cur@.len() - 1;
                    assert(self.cur@[k] == self.cur@.last());
                    lemma_sub_trans(c0.defs@, c1.defs@, c2.defs@);
                    lemma_sub_trans(c0.defs@, c2.defs@, self.defs@);
                    assert(self.cur@.subrange(0, c0.cur@.len() as int) =~= c0.cur@) by {
                        assert(c1.cur@.subrange(0, c0.cur@.len() as int) == c0.cur@);
                        assert(c2.cur@.subrange(0, c1.cur@.len() as int) == c1.cur@);
                        assert(self.cur@.subrange(0, c2.cur@.len() as int) == c2.cur@);
                    }
                }
                Ok(v)
            },
            Expression::Nondet { span, meta } => {
                let v = self.append_with_result(OpKind::Nondet, Vec::new(), meta.copy(), *span)?;
                proof {
                    assert(self.cur@[self.cur@.len() - 1] == self.cur@.last());
                }
                Ok(v)
            },
            Expression::Boolean { value, span, meta } => {
                let v = self.append_with_result(OpKind::ConstBool(*value), Vec::new(), meta.copy(), *span)?;
                proof {
                    assert(self.cur@[self.cur@.len() - 1] == self.cur@.last());
                }
                Ok(v)
            },
            Expression::Number { value, span, meta } => {
                let v = self.append_with_result(
                    OpKind::ConstFelt(value.digits.clone()),
                    Vec::new(),
                    meta.copy(),
                    *span,
                )?;
                proof {
                    assert(self.cur@[self.cur@.len() - 1] == self.cur@.last());
                }
                Ok(v)
            },
            Expression::Arg { index, span, .. } => {
                proof {
                    lemma_lookup_shape(self.scope.scopes@, Seq::empty(), *index);
                }
                match self.scope.find_parameter(*index) {
                Ok(v) => {
                    proof {
                        lemma_lookup_param_ok(self.scope.scopes@, self.defs@, *index);
                    }
                    Ok(v.copy())
                },
                Err(err) => {
                    let mut context = "on argument #".to_owned();
                    push_decimal(&mut context, *index as u64);
                    Err(type_error(self.filename.as_str(), *span, context.as_str(), &err))
                },
            }},
            Expression::Symbol(ident) => {
                proof {
                    lemma_lookup_shape(self.scope.scopes@, ident.name.name@, 0);
                }
                match self.scope.find_local(ident) {
                Ok(v) => {
                    proof {
                        lemma_lookup_local_ok(self.scope.scopes@, self.defs@, ident.name.name@);
                    }
                    Ok(v.copy())
                },
                Err(_) => Err(CompileError::Ir(concat3("local symbol '", ident.value(), "' not found"))),
            }},
            Expression::Quantifier { .. } => {
                proof {
                    assert(false);
                }
                Err(CompileError::Ir("quantifier expression is not supported yet".to_owned()))
            },
            Expression::Old { .. } => {
                proof {
                    assert(false);
                }
                Err(CompileError::Ir("old expression is not supported yet".to_owned()))
            },
        }
    }

    /// Binds `v` to `name` in the innermost scope, as a local (`kind` 0), as the `n`-th
    /// parameter (`kind` 1) or as the `n`-th output (`kind` 2); a name or position already
    /// bound there is an error, `context: error`, located at `span`.
    fn bind_top<M>(&mut self, name: &Identifier<M>, v: Value, kind: u8, n: usize, span: Span, context: &str) -> (r:
        Result<(), CompileError>)
        requires
            old(self).wf(),
            has_type(old(self).defs@, v.id, v.ty@),
        ensures
            final(self).wf(),
            SpecCodegen::stmt_kept(*old(self), *final(self)),
            final(self).cur == old(self).cur,
            final(self).module == old(self).module,
            final(self).defs == old(self).defs,
            final(self).scope.scopes@.last().predicates == old(self).scope.scopes@.last().predicates,
            r is Ok ==> (assoc(final(self).scope.scopes@.last().locals@, name.name.name@) matches Some(
                w,
            ) && w.id == v.id && w.ty@ == v.ty@),
            r is Ok ==> ascopes(final(self).scope.scopes@) == bound_a(
                ascopes(old(self).scope.scopes@),
                name.name.name@,
                v.ty@,
                kind,
                n,
            ),
            r is Err <==> bind_fails_a(ascopes(old(self).scope.scopes@), name.name.name@, kind, n),
    {
        let ghost o = self.scope.scopes@;
        let ghost a = ascopes(o);
        proof {
            assert(a.last() == ascope(o.last()));
            lemma_assoc_shape(o.last().locals@, name.name.name@);
            lemma_num_shape(o.last().params@, n);
            lemma_num_shape(o.last().outputs@, n);
        }
        let ghost id = v.id;
        let ghost t = v.ty@;
        let res = if kind == 0 {
            self.scope.top().bind_local(name, v)
        } else if kind == 1 {
            self.scope.top().bind_parameter(name, v, n)
        } else {
            self.scope.top().bind_output(name, v, n)
        };
        proof {
            let nn = self.scope.scopes@;
            assert(nn.drop_last() =~= o.drop_last());
            assert(nn.last().locals@.subrange(0, o.last().locals@.len() as int) =~= o.last().locals@);
            lemma_values_top(o, nn, self.defs@);
            assert forall|i: int| 0 <= i < nn.len() implies #[trigger] nn[i].payload == o[i].payload by {
                if i < nn.len() - 1 {
                    assert(nn[i] == nn.drop_last()[i]);
                }
            }
            assert(self.cur@.subrange(0, self.cur@.len() as int) =~= self.cur@);
            assert(self.module@.subrange(0, self.module@.len() as int) =~= self.module@);
            if res is Ok {
                let b = bound_a(a, name.name.name@, t, kind, n);
                let top = nn.last();
                let ot = o.last();
                assert(top.locals@.map_values(|p: (String, Value)| (p.0@, p.1.ty@)) =~= ot.locals@.map_values(
                    |p: (String, Value)| (p.0@, p.1.ty@),
                ).push((name.name.name@, t)));
                if kind == 1 {
                    assert(top.params@.map_values(|p: (usize, String)| (p.0, p.1@)) =~= ot.params@.map_values(
                        |p: (usize, String)| (p.0, p.1@),
                    ).push((n, name.name.name@)));
                } else if kind != 0 {
                    assert(top.outputs@.map_values(|p: (usize, String)| (p.0, p.1@)) =~= ot.outputs@.map_values(
                        |p: (usize, String)| (p.0, p.1@),
                    ).push((n, name.name.name@)));
                }
                assert(ascope(top) == b.last());
                assert(ascopes(nn) =~= b) by {
                    assert forall|i: int| 0 <= i < nn.len() implies #[trigger] ascopes(nn)[i] == b[i] by {
                        if i < nn.len() - 1 {
                            assert(nn[i] == nn.drop_last()[i]);
                            assert(o[i] == o.drop_last()[i]);
                        }
                    }
                }
            }
        }
        match res {
            Ok(()) => Ok(()),
            Err(err) => Err(type_error(self.filename.as_str(), span, context, &err)),
        }
    }

    /// The tag of the innermost tagged scope.
    pub fn closest_tag(&self) -> (r: ScopeTag)
        requires
            self.wf(),
        ensures
            r == closest_tag(self.scope.scopes@),
    {
        let mut i = self.scope.scopes.len();
        assert(self.scope.scopes@.subrange(0, i as int) =~= self.scope.scopes@);
        while i > 0
            invariant
                i <= self.scope.scopes@.len(),
                closest_tag(self.scope.scopes@) == closest_tag(self.scope.scopes@.subrange(0, i as int)),
            decreases i,
        {
            proof {
                let sub = self.scope.scopes@.subrange(0, i as int);
                assert(sub.drop_last() =~= self.scope.scopes@.subrange(0, i - 1));
                assert(sub.last() == self.scope.scopes@[i - 1]);
            }
            match self.scope.scopes[i - 1].payload {
                Some(t) => {
                    return t;
                },
                None => {},
            }
            i = i - 1;
        }
        ScopeTag::Root
    }

    /// Appends an operation without result on one value.
    fn append_on(&mut self, kind: OpKind, c: u64, span: Span)
        requires
            old(self).wf(),
            old(self).defs@.contains_key(c),
            kind_ok(kind, seq![c], None, Seq::empty(), old(self).defs@),
        ensures
            final(self).wf(),
            SpecCodegen::kept(*old(self), *final(self)),
            final(self).cur@.len() == old(self).cur@.len() + 1,
            final(self).cur@.last().kind == kind,
            final(self).cur@.last().operands@ == seq![c],
            final(self).defs == old(self).defs,
            final(self).cur@.drop_last() == old(self).cur@,
    {
        let operands = vec![c];
        let op = Op { kind, operands, result: None, regions: Vec::new(), span };
        proof {
            assert(operands@ =~= seq![c]);
            assert(op.regions@ =~= Seq::<Region>::empty());
            assert(operands_defined(op.operands@, self.defs@));
        }
        self.append(op);
        proof {
            assert(self.cur@.drop_last() =~= old(self).cur@);
        }
    }

    /// Wraps the operations of a block in a `scf.execute_region`, ending them with a
    /// `scf.yield` unless they end with a terminator, and appends it to the current block.
    fn append_region(&mut self, ops: Vec<Op>, span: Span)
        requires
            old(self).wf(),
        ensures
            final(self).wf(),
            SpecCodegen::kept(*old(self), *final(self)),
            final(self).cur@.len() == old(self).cur@.len() + 1,
            final(self).cur@.last().kind is ExecuteRegion,
            final(self).cur@.last().regions@.len() == 1,
            region_body(final(self).cur@.last().regions@[0].ops@, ops@),
            final(self).defs == old(self).defs,
    {
        let ghost body = ops@;
        let mut ops = ops;
        let n = ops.len();
        let ends = n > 0 && match &ops[n - 1].kind {
            OpKind::Yield => true,
            OpKind::Return => true,
            _ => false,
        };
        if !ends {
            ops.push(Op { kind: OpKind::Yield, operands: Vec::new(), result: None, regions: Vec::new(), span });
            proof {
                assert(ops@.drop_last() =~= body);
            }
        }
        let regions = vec![Region { args: Vec::new(), ops }];
        let op = Op { kind: OpKind::ExecuteRegion, operands: Vec::new(), result: None, regions, span };
        proof {
            assert(regions@[0].ops == ops);
            assert(operands_defined(op.operands@, self.defs@));
        }
        self.append(op);
    }

    /// Lowers a statement at the current point. Conditions become `verif.require` and
    /// `verif.ensure` for the functions the closest scope tag takes them for; `let` binds the
    /// value of its expression in the innermost scope; `return` becomes `function.return`;
    /// blocks and `compute`/`constrain` blocks become `scf.execute_region` with a scope of their
    /// own; predicates become `function.def`.
    pub fn lower_statement(&mut self, st: &Statement<Ty>) -> (r: Result<(), CompileError>)
        requires
            old(self).wf(),
            lowerable_stmt(*st, closest_tag(old(self).scope.scopes@)),
        ensures
            final(self).wf(),
            r is Ok ==> SpecCodegen::stmt_kept(*old(self), *final(self)),
            r is Err ==> !stmt_ok(*st, ascopes(old(self).scope.scopes@)) || SpecCodegen::exhausted(
                *final(self),
            ),
            r is Ok ==> ascopes(final(self).scope.scopes@) == stmt_after(*st, ascopes(old(self).scope.scopes@)),
            r is Ok ==> match *st {
                Statement::Require { .. } => conditions_emitted(
                    final(self).cur@,
                    closest_tag(old(self).scope.scopes@),
                    OpKind::RequireCompute,
                    OpKind::RequireConstrain,
                ),
                Statement::Ensure { .. } => conditions_emitted(
                    final(self).cur@,
                    closest_tag(old(self).scope.scopes@),
                    OpKind::EnsureCompute,
                    OpKind::EnsureConstrain,
                ),
                Statement::Let { name, .. } => assoc(
                    final(self).scope.scopes@.last().locals@,
                    name.name.name@,
                ) is Some,
                Statement::Return { .. } => final(self).cur@.len() > 0 && final(self).cur@.last().kind is Return,
                Statement::Scoped { .. } => final(self).cur@.len() > 0 && final(self).cur@.last().kind is ExecuteRegion,
                Statement::Block(_) => final(self).cur@.len() > 0 && final(self).cur@.last().kind is ExecuteRegion,
                Statement::Predicate(d) => assoc(
                    final(self).scope.scopes@.last().predicates@,
                    d.name.name.name@,
                ) is Some,
                _ => final(self).cur@ == old(self).cur@,
            },
            r is Ok ==> stmt_lowers(
                *st,
                final(self).cur@.subrange(old(self).cur@.len() as int, final(self).cur@.len() as int),
                closest_tag(old(self).scope.scopes@),
            ),
            r is Ok ==> match *st {
                Statement::Require { expression, .. } => exists|v: u64|
                    #![trigger denotes(expression, final(self).cur@, old(self).scope.scopes@, v)]
                    denotes(expression, final(self).cur@, old(self).scope.scopes@, v) && final(self).cur@[final(self).cur@.len()
                        - cond_count(closest_tag(old(self).scope.scopes@))].operands@ == seq![v]
                        && final(self).cur@.last().operands@ == seq![v],
                Statement::Ensure { expression, .. } => exists|v: u64|
                    #![trigger denotes(expression, final(self).cur@, old(self).scope.scopes@, v)]
                    denotes(expression, final(self).cur@, old(self).scope.scopes@, v) && final(self).cur@[final(self).cur@.len()
                        - cond_count(closest_tag(old(self).scope.scopes@))].operands@ == seq![v]
                        && final(self).cur@.last().operands@ == seq![v],
                Statement::Return { expression, .. } => exists|v: u64|
                    #![trigger denotes(expression, final(self).cur@, old(self).scope.scopes@, v)]
                    denotes(expression, final(self).cur@, old(self).scope.scopes@, v) && final(self).cur@.last().operands@
                        == seq![v],
                Statement::Let { name, value, .. } => exists|v: u64|
                    #![trigger denotes(value, final(self).cur@, old(self).scope.scopes@, v)]
                    denotes(value, final(self).cur@, old(self).scope.scopes@, v) && (assoc(
                        final(self).scope.scopes@.last().locals@,
                        name.name.name@,
                    ) matches Some(w) && w.id == v),
                _ => true,
            },
        decreases st, 2nat,
    {
        let ghost c0 = *self;
        proof {
            assert(self.cur@.subrange(0, self.cur@.len() as int) =~= self.cur@);
            assert(self.module@.subrange(0, self.module@.len() as int) =~= self.module@);
            lemma_sub_refl(self.defs@);
        }
        match st {
            Statement::Scoped { scope, statement, span } => {
                let t = match scope {
                    crate::ast::Scope::Compute => ScopeTag::Compute,
                    crate::ast::Scope::Constrain => ScopeTag::Constrain,
                };
                self.open_block();
                self.push_scope(Some(t));
                let ghost c1 = *self;
                proof {
                    assert(c1.scope.scopes@ =~= c0.scope.scopes@.push(c1.scope.scopes@.last()));
                    lemma_ascopes_push(c0.scope.scopes@, c1.scope.scopes@.last());
                }
                proof {
                    assert(closest_tag(self.scope.scopes@) == t);
                }
                self.lower_statement(statement)?;
                let ghost c2 = *self;
                self.pop_scope();
                let ops = self.close_block();
                let ghost c3 = *self;
                self.append_region(ops, *span);
                proof {
                    assert forall|i: int| 0 <= i < c0.scope.scopes@.len() implies #[trigger] self.scope.scopes@[i].payload
                        == c0.scope.scopes@[i].payload by {
                        assert(c2.scope.scopes@[i].payload == c1.scope.scopes@[i].payload);
                        assert(c1.scope.scopes@[i] == c0.scope.scopes@[i]);
                        assert(self.scope.scopes@[i] == c2.scope.scopes@[i]);
                    }
                    assert(c0.saved@.push(c0.cur).drop_last() =~= c0.saved@);
                    assert(c3.saved@ == c0.saved@);
                    assert(c3.cur == c0.cur);
                    lemma_sub_trans(c0.defs@, c2.defs@, self.defs@);
                    assert(self.cur@.subrange(0, c0.cur@.len() as int) =~= c0.cur@);
                    let d = self.cur@.subrange(c0.cur@.len() as int, self.cur@.len() as int);
                    assert(d.len() == 1);
                    assert(d[0] == self.cur@.last());
                    assert(c2.cur@.subrange(0, c2.cur@.len() as int) =~= c2.cur@);
                    assert(t == scope_tag(*scope));
                    assert(region_body(d[0].regions@[0].ops@, ops@));
                    assert(stmt_lowers(**statement, ops@, scope_tag(*scope)));
                }
                Ok(())
            },
            Statement::Block(b) => {
                self.open_block();
                self.push_scope(None);
                let ghost c1 = *self;
                proof {
                    assert(c1.scope.scopes@ =~= c0.scope.scopes@.push(c1.scope.scopes@.last()));
                    lemma_ascopes_push(c0.scope.scopes@, c1.scope.scopes@.last());
                    assert(self.scope.scopes@.drop_last() == c0.scope.scopes@);
                    assert(closest_tag(self.scope.scopes@) == closest_tag(c0.scope.scopes@));
                }
                self.lower_block(b)?;
                let ghost c2 = *self;
                self.pop_scope();
                let ops = self.close_block();
                let ghost c3 = *self;
                self.append_region(ops, b.span);
                proof {
                    assert forall|i: int| 0 <= i < c0.scope.scopes@.len() implies #[trigger] self.scope.scopes@[i].payload
                        == c0.scope.scopes@[i].payload by {
                        assert(c2.scope.scopes@[i].payload == c1.scope.scopes@[i].payload);
                        assert(c1.scope.scopes@[i] == c0.scope.scopes@[i]);
                        assert(self.scope.scopes@[i] == c2.scope.scopes@[i]);
                    }
                    assert(c0.saved@.push(c0.cur).drop_last() =~= c0.saved@);
                    assert(c3.saved@ == c0.saved@);
                    assert(c3.cur == c0.cur);
                    lemma_sub_trans(c0.defs@, c2.defs@, self.defs@);
                    assert(self.cur@.subrange(0, c0.cur@.len() as int) =~= c0.cur@);
                    let d = self.cur@.subrange(c0.cur@.len() as int, self.cur@.len() as int);
                    assert(d.len() == 1);
                    assert(d[0] == self.cur@.last());
                    assert(c2.cur@.subrange(0, c2.cur@.len() as int) =~= c2.cur@);
                    assert(region_body(d[0].regions@[0].ops@, ops@));
                    assert(block_lowers(b.statements@, ops@, closest_tag(c0.scope.scopes@)));
                }
                Ok(())
            },
            Statement::Require { expression, span } => {
                let tag = self.closest_tag();
                let c = self.lower_expression(expression)?;
                let ghost c1 = *self;
                self.conditions(tag, c.id, OpKind::RequireCompute, OpKind::RequireConstrain, *span);
                proof {
                    assert(self.cur@.subrange(0, c0.cur@.len() as int) =~= c0.cur@) by {
                        assert(c1.cur@.subrange(0, c0.cur@.len() as int) == c0.cur@);
                        assert(self.cur@.subrange(0, c1.cur@.len() as int) == c1.cur@);
                    }
                    lemma_sub_trans(c0.defs@, c1.defs@, self.defs@);
                    lemma_condition_delta(c0.cur@, c1.cur@, self.cur@, tag, OpKind::RequireCompute, OpKind::RequireConstrain);
                    lemma_denotes_grow(*expression, c1.cur@, self.cur@, c0.scope.scopes@, c.id);
                    assert(self.cur@[self.cur@.len() - cond_count(tag)] == self.cur@[c1.cur@.len() as int]);
                    assert(self.cur@.last() == self.cur@[self.cur@.len() - 1]);
                    let e1 = c1.cur@.subrange(c0.cur@.len() as int, c1.cur@.len() as int);
                    if !(*expression is Symbol || *expression is Arg) {
                        assert(e1.last() == c1.cur@.last());
                        lemma_produces_shape(*expression, c, c0.scope.scopes@, e1);
                    }
                }
                Ok(())
            },
            Statement::Ensure { expression, span } => {
                let tag = self.closest_tag();
                let c = self.lower_expression(expression)?;
                let ghost c1 = *self;
                self.conditions(tag, c.id, OpKind::EnsureCompute, OpKind::EnsureConstrain, *span);
                proof {
                    assert(self.cur@.subrange(0, c0.cur@.len() as int) =~= c0.cur@) by {
                        assert(c1.cur@.subrange(0, c0.cur@.len() as int) == c0.cur@);
                        assert(self.cur@.subrange(0, c1.cur@.len() as int) == c1.cur@);
                    }
                    lemma_sub_trans(c0.defs@, c1.defs@, self.defs@);
                    lemma_condition_delta(c0.cur@, c1.cur@, self.cur@, tag, OpKind::EnsureCompute, OpKind::EnsureConstrain);
                    lemma_denotes_grow(*expression, c1.cur@, self.cur@, c0.scope.scopes@, c.id);
                    assert(self.cur@[self.cur@.len() - cond_count(tag)] == self.cur@[c1.cur@.len() as int]);
                    assert(self.cur@.last() == self.cur@[self.cur@.len() - 1]);
                    let e1 = c1.cur@.subrange(c0.cur@.len() as int, c1.cur@.len() as int);
                    if !(*expression is Symbol || *expression is Arg) {
                        assert(e1.last() == c1.cur@.last());
                        lemma_produces_shape(*expression, c, c0.scope.scopes@, e1);
                    }
                }
                Ok(())
            },
            Statement::Let { name, value, span } => {
                let v = self.lower_expression(value)?;
                let ghost c1 = *self;
                self.bind_top(name, v, 0, 0, *span, "on let statement")?;
                proof {
                    assert(denotes(*value, self.cur@, c0.scope.scopes@, v.id));
                    let e1 = c1.cur@.subrange(c0.cur@.len() as int, c1.cur@.len() as int);
                    if !(*value is Symbol || *value is Arg) {
                        assert(e1.last() == c1.cur@.last());
                        lemma_produces_shape(*value, v, c0.scope.scopes@, e1);
                    }
                    assert(self.cur@.subrange(0, c0.cur@.len() as int) =~= c0.cur@) by {
                        assert(c1.cur@.subrange(0, c0.cur@.len() as int) == c0.cur@);
                    }
                    assert forall|i: int| 0 <= i < c0.scope.scopes@.len() implies #[trigger] self.scope.scopes@[i].payload
                        == c0.scope.scopes@[i].payload by {
                        assert(c1.scope.scopes@[i] == c0.scope.scopes@[i]);
                    }
                }
                Ok(())
            },
            Statement::Return { expression, span } => {
                let v = self.lower_expression(expression)?;
                let ghost c1 = *self;
                self.append_on(OpKind::Return, v.id, *span);
                proof {
                    assert(extends(c1.cur@, self.cur@)) by {
                        assert(self.cur@.subrange(0, c1.cur@.len() as int) =~= c1.cur@);
                    }
                    lemma_denotes_grow(*expression, c1.cur@, self.cur@, c0.scope.scopes@, v.id);
                    let e1 = c1.cur@.subrange(c0.cur@.len() as int, c1.cur@.len() as int);
                    let d = self.cur@.subrange(c0.cur@.len() as int, self.cur@.len() as int);
                    assert(d.drop_last() =~= e1);
                    assert(d.last() == self.cur@.last());
                    if !(*expression is Symbol || *expression is Arg) {
                        assert(e1.last() == c1.cur@.last());
                        lemma_produces_shape(*expression, v, c0.scope.scopes@, e1);
                    }
                    assert(self.cur@.subrange(0, c0.cur@.len() as int) =~= c0.cur@) by {
                        assert(c1.cur@.subrange(0, c0.cur@.len() as int) == c0.cur@);
                    }
                    assert forall|i: int| 0 <= i < c0.scope.scopes@.len() implies #[trigger] self.scope.scopes@[i].payload
                        == c0.scope.scopes@[i].payload by {
                        assert(c1.scope.scopes@[i] == c0.scope.scopes@[i]);
                    }
                }
                Ok(())
            },
            Statement::Predicate(d) => {
                let r = self.lower_predicate(d);
                proof {
                    if r is Ok {
                        assert(self.cur@.subrange(c0.cur@.len() as int, self.cur@.len() as int) =~= Seq::<Op>::empty());
                    }
                }
                r
            },
            Statement::Empty { .. } => {
                proof {
                    assert(self.cur@.subrange(c0.cur@.len() as int, self.cur@.len() as int) =~= Seq::<Op>::empty());
                }
                Ok(())
            },
            _ => {
                proof {
                    assert(false);
                }
                Err(CompileError::Ir("statement is not supported yet".to_owned()))
            },
        }
    }

    /// Appends the condition forms that `tag` takes, on the value `c`.
    fn conditions(&mut self, tag: ScopeTag, c: u64, compute: OpKind, constrain: OpKind, span: Span)
        requires
            old(self).wf(),
            old(self).defs@.contains_key(c),
            compute is RequireCompute || compute is EnsureCompute,
            constrain is RequireConstrain || constrain is EnsureConstrain,
        ensures
            final(self).wf(),
            SpecCodegen::kept(*old(self), *final(self)),
            final(self).defs == old(self).defs,
            conditions_emitted(final(self).cur@, tag, compute, constrain),
            final(self).cur@.len() == old(self).cur@.len() + cond_count(tag),
            final(self).cur@[old(self).cur@.len() as int].operands@ == seq![c],
    {
        let ghost c0 = *self;
        proof {
            assert(self.cur@.subrange(0, self.cur@.len() as int) =~= self.cur@);
        }
        if tag != ScopeTag::Constrain {
            self.append_on(compute, c, span);
        }
        let ghost c1 = *self;
        if tag != ScopeTag::Compute {
            self.append_on(constrain, c, span);
        }
        proof {
            assert(self.cur@.subrange(0, c0.cur@.len() as int) =~= c0.cur@) by {
                assert(c1.cur@.subrange(0, c0.cur@.len() as int) == c0.cur@);
            }
        }
    }

    /// Lowers the statements of a block, in order, in the current scope.
    pub fn lower_block(&mut self, b: &crate::ast::Block<Ty>) -> (r: Result<(), CompileError>)
        requires
            old(self).wf(),
            lowerable_stmts(b.statements@, closest_tag(old(self).scope.scopes@)),
        ensures
            final(self).wf(),
            r is Ok ==> SpecCodegen::stmt_kept(*old(self), *final(self)),
            r is Err ==> !block_ok(b.statements@, ascopes(old(self).scope.scopes@)) || SpecCodegen::exhausted(
                *final(self),
            ),
            r is Ok ==> ascopes(final(self).scope.scopes@) == block_after(b.statements@, ascopes(old(self).scope.scopes@)),
            r is Ok ==> block_lowers(
                b.statements@,
                final(self).cur@.subrange(old(self).cur@.len() as int, final(self).cur@.len() as int),
                closest_tag(old(self).scope.scopes@),
            ),
        decreases b, 0nat,
    {
        let ghost c0 = *self;
        let ghost tag = closest_tag(c0.scope.scopes@);
        proof {
            lemma_lowerable_stmts(b.statements@, tag);
            assert(self.cur@.subrange(0, self.cur@.len() as int) =~= self.cur@);
            assert(self.module@.subrange(0, self.module@.len() as int) =~= self.module@);
            lemma_sub_trans(c0.defs@, c0.defs@, c0.defs@);
            assert forall|k: int| 0 <= k < b.statements@.len() implies decreases_to!(b => #[trigger] b.statements@[k]) by {
                assert(decreases_to!(b => b.statements));
                assert(decreases_to!(b.statements => b.statements@[k]));
            }
        }
        let ghost a0 = ascopes(c0.scope.scopes@);
        let ghost ss = b.statements@;
        proof {
            assert(ss.subrange(0, ss.len() as int) =~= ss);
            assert(ss.subrange(0, 0) =~= Seq::<Statement<Ty>>::empty());
            assert(self.cur@.subrange(c0.cur@.len() as int, self.cur@.len() as int) =~= Seq::<Op>::empty());
        }
        let mut i: usize = 0;
        while i < b.statements.len()
            invariant
                i <= b.statements@.len(),
                c0 == *old(self),
                ss == b.statements@,
                a0 == ascopes(c0.scope.scopes@),
                block_ok(ss, a0) ==> block_ok(ss.subrange(i as int, ss.len() as int), ascopes(self.scope.scopes@)),
                block_after(ss, a0) == block_after(ss.subrange(i as int, ss.len() as int), ascopes(self.scope.scopes@)),
                self.wf(),
                SpecCodegen::stmt_kept(c0, *self),
                closest_tag(self.scope.scopes@) == tag,
                block_lowers(
                    ss.subrange(0, i as int),
                    self.cur@.subrange(c0.cur@.len() as int, self.cur@.len() as int),
                    tag,
                ),
                forall|k: int| 0 <= k < b.statements@.len() ==> #[trigger] lowerable_stmt(b.statements@[k], tag),
                forall|k: int| 0 <= k < b.statements@.len() ==> decreases_to!(b => #[trigger] b.statements@[k]),
            decreases b.statements@.len() - i,
        {
            proof {
                assert(decreases_to!(b => b.statements@[i as int]));
                assert(lowerable_stmt(b.statements@[i as int], tag));
            }
            let ghost ci = *self;
            let ghost rest = ss.subrange(i as int, ss.len() as int);
            proof {
                assert(rest[0] == ss[i as int]);
                assert(rest.subrange(1, rest.len() as int) =~= ss.subrange(i + 1, ss.len() as int));
            }
            match self.lower_statement(&b.statements[i]) {
                Ok(()) => {},
                Err(err) => {
                    return Err(err);
                },
            }
            proof {
                lemma_closest_tag_same(self.scope.scopes@, ci.scope.scopes@);
                lemma_sub_trans(c0.defs@, ci.defs@, self.defs@);
                assert(self.cur@.subrange(0, c0.cur@.len() as int) =~= c0.cur@) by {
                    assert(ci.cur@.subrange(0, c0.cur@.len() as int) == c0.cur@);
                    assert(self.cur@.subrange(0, ci.cur@.len() as int) == ci.cur@);
                }
                assert(self.module@.subrange(0, c0.module@.len() as int) =~= c0.module@) by {
                    assert(ci.module@.subrange(0, c0.module@.len() as int) == c0.module@);
                    assert(self.module@.subrange(0, ci.module@.len() as int) == ci.module@);
                }
                assert forall|k: int| 0 <= k < c0.scope.scopes@.len() implies #[trigger] self.scope.scopes@[k].payload
                    == c0.scope.scopes@[k].payload by {
                    assert(ci.scope.scopes@[k].payload == c0.scope.scopes@[k].payload);
                }
                let dp = ci.cur@.subrange(c0.cur@.len() as int, ci.cur@.len() as int);
                let e = self.cur@.subrange(ci.cur@.len() as int, self.cur@.len() as int);
                lemma_block_lowers_push(ss.subrange(0, i as int), ss[i as int], dp, e, tag);
                assert(ss.subrange(0, i + 1) =~= ss.subrange(0, i as int).push(ss[i as int]));
                assert(self.cur@.subrange(c0.cur@.len() as int, self.cur@.len() as int) =~= dp + e) by {
                    assert(self.cur@.subrange(0, ci.cur@.len() as int) == ci.cur@);
                }
            }
            i = i + 1;
        }
        proof {
            assert(ss.subrange(i as int, ss.len() as int) =~= Seq::<Statement<Ty>>::empty());
            assert(ss.subrange(0, i as int) =~= ss);
        }
        Ok(())
    }

    /// Lowers a predicate declaration: a `function.def` of the predicate's type, appended to the
    /// module and bound to the predicate's name in the innermost scope, whose body block takes
    /// one argument per parameter, bound to the parameter in a scope tagged
    /// [`ScopeTag::Predicate`].
    pub fn lower_predicate(&mut self, d: &crate::ast::PredicateDecl<Ty>) -> (r: Result<(), CompileError>)
        requires
            old(self).wf(),
            lowerable_stmts(d.body.statements@, ScopeTag::Predicate),
        ensures
            final(self).wf(),
            r is Ok ==> SpecCodegen::stmt_kept(*old(self), *final(self)),
            r is Ok ==> assoc(final(self).scope.scopes@.last().predicates@, d.name.name.name@) is Some,
            r is Err ==> !pred_ok(*d, ascopes(old(self).scope.scopes@)) || SpecCodegen::exhausted(*final(self)),
            r is Ok ==> ascopes(final(self).scope.scopes@) == pred_after(*d, ascopes(old(self).scope.scopes@)),
            r is Ok ==> final(self).module@.len() > old(self).module@.len()
                && final(self).module@[old(self).module@.len() as int].kind is FuncDef,
            r is Ok ==> predicate_lowered(*d, final(self).module@[old(self).module@.len() as int]),
            r is Ok ==> final(self).cur@ == old(self).cur@,
        decreases d, 0nat,
    {
        let ghost c0 = *self;
        let ghost a0 = ascopes(c0.scope.scopes@);
        let ghost fins: Seq<Ty> = if d.name.meta is Func {
            d.name.meta->Func_0.ins@
        } else {
            Seq::empty()
        };
        let ins = match &d.name.meta {
            Ty::Func(f) => crate::types::copy_tys(&f.ins),
            _ => {
                return Err(
                    CompileError::Ir(concat3("expected predicate '", d.name.value(), "' to have a function type")),
                );
            },
        };
        if self.next_func == u64::MAX {
            return Err(CompileError::Ir("too many predicates in one specification".to_owned()));
        }
        let id = self.next_func;
        self.next_func = id + 1;
        let idx = self.module.len();
        let name = d.name.name.name.clone();
        self.module.push(
            Op {
                kind: OpKind::FuncDef { id, name, ty: d.name.meta.copy() },
                operands: Vec::new(),
                result: None,
                regions: Vec::new(),
                span: d.span,
            },
        );
        let ghost o = self.scope.scopes@;
        let res = self.scope.top().bind_predicate(&d.name, id);
        proof {
            let nn = self.scope.scopes@;
            assert(nn.drop_last() =~= o.drop_last());
            assert(nn.last().locals@.subrange(0, o.last().locals@.len() as int) =~= o.last().locals@);
            lemma_values_top(o, nn, self.defs@);
        }
        proof {
            lemma_preds_shape(o.last(), d.name.name.name@);
            assert(a0.last() == ascope(o.last()));
            lemma_tys_view(ins@);
            lemma_tys_view(fins);
            assert forall|j: int| 0 <= j < ins@.len() implies #[trigger] ins@[j]@ == fins[j]@ by {
                assert(tys_view(ins@)[j] == tys_view(fins)[j]);
            }
        }
        match res {
            Ok(()) => {},
            Err(err) => {
                let context = concat3("on declaration of predicate '", d.name.value(), "'");
                return Err(type_error(self.filename.as_str(), d.name.span, context.as_str(), &err));
            },
        }
        let ghost c1 = *self;
        proof {
            let nn = self.scope.scopes@;
            assert(nn.last().predicates@ == o.last().predicates@.push((d.name.name.name, id)));
            assert(ascope(nn.last()).preds =~= ascope(o.last()).preds.push(d.name.name.name@));
            assert(ascope(nn.last()).locals =~= ascope(o.last()).locals);
            assert(ascope(nn.last()).params =~= ascope(o.last()).params);
            assert(ascope(nn.last()).outputs =~= ascope(o.last()).outputs);
            assert(ascopes(nn) =~= pred_after(*d, a0)) by {
                assert forall|i: int| 0 <= i < nn.len() implies #[trigger] ascopes(nn)[i] == pred_after(*d, a0)[i] by {
                    if i < nn.len() - 1 {
                        assert(nn[i] == nn.drop_last()[i]);
                        assert(o[i] == o.drop_last()[i]);
                    }
                }
            }
        }
        let mut args: Vec<Value> = Vec::new();
        let mut k: usize = 0;
        proof {
            lemma_sub_refl(self.defs@);
            assert(self.cur@.subrange(0, self.cur@.len() as int) =~= self.cur@);
        }
        while k < ins.len()
            invariant
                k <= ins@.len(),
                self.wf(),
                SpecCodegen::kept(c1, *self),
                self.cur@ == c1.cur@,
                args@.len() == k,
                forall|j: int| 0 <= j < k ==> has_type(self.defs@, #[trigger] args@[j].id, args@[j].ty@),
                forall|j: int| 0 <= j < k ==> (#[trigger] args@[j]).ty@ == ins@[j]@,
                self.scope.scopes@ == c1.scope.scopes@,
                c0 == *old(self),
            decreases ins@.len() - k,
        {
            let ghost ck = *self;
            let v = self.fresh(ins[k].copy())?;
            proof {
                assert forall|j: int| 0 <= j < k implies has_type(self.defs@, #[trigger] args@[j].id, args@[j].ty@) by {
                    lemma_sub(ck.defs@, self.defs@, args@[j].id);
                }
                lemma_sub_trans(c1.defs@, ck.defs@, self.defs@);
            }
            args.push(v);
            k = k + 1;
        }
        let ghost c2 = *self;
        self.push_scope(Some(ScopeTag::Predicate));
        self.open_block();
        let ghost c3 = *self;
        let mut p: usize = 0;
        let ghost ap = pred_after(*d, a0);
        proof {
            assert(c3.scope.scopes@ =~= c2.scope.scopes@.push(c3.scope.scopes@.last()));
            lemma_ascopes_push(c2.scope.scopes@, c3.scope.scopes@.last());
            assert(param_scope(d.params@, fins, 0) == empty_ascope()) by {
                assert(param_scope(d.params@, fins, 0).locals =~= Seq::<(Seq<char>, TyV)>::empty());
                assert(param_scope(d.params@, fins, 0).params =~= Seq::<(usize, Seq<char>)>::empty());
            }
            lemma_sub_refl(self.defs@);
            assert(self.cur@.subrange(0, self.cur@.len() as int) =~= self.cur@);
            assert(self.module@.subrange(0, self.module@.len() as int) =~= self.module@);
        }
        while p < d.params.len()
            invariant
                self.wf(),
                SpecCodegen::stmt_kept(c3, *self),
                self.defs == c3.defs,
                self.cur@ == c3.cur@,
                c3.cur@.len() == 0,
                p <= d.params@.len(),
                c0 == *old(self),
                ap == pred_after(*d, a0),
                a0 == ascopes(c0.scope.scopes@),
                d.name.meta is Func,
                fins == d.name.meta->Func_0.ins@,
                ins@.len() == fins.len(),
                forall|j: int| 0 <= j < args@.len() ==> (#[trigger] args@[j]).ty@ == fins[j]@,
                ascopes(self.scope.scopes@) == ap.push(param_scope(d.params@, fins, p as int)),
                args@.len() == ins@.len(),
                forall|j: int| 0 <= j < args@.len() ==> has_type(self.defs@, #[trigger] args@[j].id, args@[j].ty@),
            decreases d.params@.len() - p,
        {
            if p >= args.len() {
                return Err(CompileError::Ir(concat3("predicate '", d.name.value(), "' has more parameters than its type")));
            }
            let mut context = concat3("on parameter #", "", "");
            push_decimal(&mut context, p as u64);
            let ghost cp = *self;
            let ghost ps = param_scope(d.params@, fins, p as int);
            let ghost pname = d.params@[p as int].name.name@;
            match self.bind_top(&d.params[p], args[p].copy(), 1, p, d.span, context.as_str()) {
                Ok(()) => {},
                Err(err) => {
                    proof {
                        let aa = ascopes(cp.scope.scopes@);
                        assert(aa.last() == ps);
                        if a_assoc(ps.locals, pname) is Some {
                            lemma_a_assoc_in(ps.locals, pname);
                            let j = choose|j: int| 0 <= j < ps.locals.len() && #[trigger] ps.locals[j].0 == pname;
                            assert(d.params@[j].name.name@ == pname);
                        } else {
                            lemma_a_num_in(ps.params, p);
                            let j = choose|j: int| 0 <= j < ps.params.len() && #[trigger] ps.params[j].0 == p;
                            assert(ps.params[j].0 == j as usize);
                        }
                    }
                    return Err(err);
                },
            }
            proof {
                let nps = param_scope(d.params@, fins, p + 1);
                assert(bind_param_a(ps, pname, args@[p as int].ty@, p) == nps) by {
                    assert(nps.locals =~= ps.locals.push((pname, fins[p as int]@)));
                    assert(nps.params =~= ps.params.push((p, pname)));
                }
                assert(ascopes(self.scope.scopes@) =~= ap.push(nps));
            }
            proof {
                assert(self.cur@.subrange(0, c3.cur@.len() as int) =~= c3.cur@);
                assert(self.module@.subrange(0, c3.module@.len() as int) =~= c3.module@);
                assert forall|i: int| 0 <= i < c3.scope.scopes@.len() implies #[trigger] self.scope.scopes@[i].payload
                    == c3.scope.scopes@[i].payload by {
                    assert(cp.scope.scopes@[i].payload == c3.scope.scopes@[i].payload);
                }
            }
            p = p + 1;
        }
        proof {
            lemma_closest_tag_same(self.scope.scopes@, c3.scope.scopes@);
            assert(closest_tag(c3.scope.scopes@) == ScopeTag::Predicate);
        }
        let ghost c4 = *self;
        proof {
            assert(p == d.params@.len());
        }
        self.lower_block(&d.body)?;
        let ghost c5 = *self;
        self.pop_scope();
        let ops = self.close_block();
        proof {
            assert(c5.cur@.subrange(0, c5.cur@.len() as int) =~= c5.cur@);
            assert(block_lowers(d.body.statements@, ops@, ScopeTag::Predicate));
        }
        let ghost gargs = args@;
        let regions = vec![Region { args, ops }];
        let op = Op {
            kind: OpKind::FuncDef { id, name: d.name.name.name.clone(), ty: d.name.meta.copy() },
            operands: Vec::new(),
            result: None,
            regions,
            span: d.span,
        };
        proof {
            assert(idx < self.module@.len()) by {
                assert(c4.module@.len() >= c3.module@.len());
            }
        }
        self.module.set(idx, op);
        proof {
            assert(c2.saved@.push(c2.cur).drop_last() =~= c2.saved@);
            assert(c5.saved@ == c3.saved@);
            assert(c2.saved@ == c0.saved@);
            assert(self.saved@ == c0.saved@);
            assert(self.scope.scopes@ == c1.scope.scopes@) by {
                assert(c5.scope.scopes@.drop_last() == c4.scope.scopes@.drop_last());
                assert(c4.scope.scopes@.drop_last() == c3.scope.scopes@.drop_last());
                assert(c3.scope.scopes@.drop_last() == c2.scope.scopes@);
            }
            assert(c1.scope.scopes@.drop_last() == c0.scope.scopes@.drop_last());
            assert forall|i: int| 0 <= i < c0.scope.scopes@.len() implies #[trigger] self.scope.scopes@[i].payload
                == c0.scope.scopes@[i].payload by {
                if i < c0.scope.scopes@.len() - 1 {
                    assert(self.scope.scopes@[i] == c1.scope.scopes@.drop_last()[i]);
                    assert(c0.scope.scopes@[i] == c0.scope.scopes@.drop_last()[i]);
                }
            }
            assert forall|j: int| 0 <= j < c0.module@.len() implies self.module@[j] == c0.module@[j] by {
                assert(c4.module@.subrange(0, c3.module@.len() as int)[j] == c3.module@[j]);
                assert(c5.module@.subrange(0, c4.module@.len() as int)[j] == c4.module@[j]);
                assert(c3.module@ == c1.module@);
                assert(c1.module@[j] == c0.module@[j]);
            }
            assert(self.module@.subrange(0, c0.module@.len() as int) =~= c0.module@);
            assert(self.module@[idx as int].kind is FuncDef);
            assert(self.module@[idx as int].regions@[0].args@ == gargs);
            assert(predicate_lowered(*d, self.module@[idx as int]));
            assert(self.cur@ == c0.cur@);
            assert(self.cur@.subrange(0, c0.cur@.len() as int) =~= c0.cur@);
            lemma_sub_trans(c0.defs@, c2.defs@, c5.defs@);
        }
        Ok(())
    }

    /// [`SpecCodegen::stmt_kept`] through two steps.
    pub proof fn lemma_stmt_kept_trans(a: SpecCodegen, b: SpecCodegen, c: SpecCodegen)
        requires
            SpecCodegen::stmt_kept(a, b),
            SpecCodegen::stmt_kept(b, c),
        ensures
            SpecCodegen::stmt_kept(a, c),
    {
        assert forall|i: int| 0 <= i < a.scope.scopes@.len() implies #[trigger] c.scope.scopes@[i].payload
            == a.scope.scopes@[i].payload by {
            assert(b.scope.scopes@[i].payload == a.scope.scopes@[i].payload);
        }
        assert(c.module@.subrange(0, a.module@.len() as int) =~= a.module@) by {
            assert forall|j: int| 0 <= j < a.module@.len() implies c.module@[j] == a.module@[j] by {
                assert(b.module@.subrange(0, a.module@.len() as int)[j] == a.module@[j]);
                assert(c.module@.subrange(0, b.module@.len() as int)[j] == b.module@[j]);
            }
        }
        assert(c.cur@.subrange(0, a.cur@.len() as int) =~= a.cur@) by {
            assert forall|j: int| 0 <= j < a.cur@.len() implies c.cur@[j] == a.cur@[j] by {
                assert(b.cur@.subrange(0, a.cur@.len() as int)[j] == a.cur@[j]);
                assert(c.cur@.subrange(0, b.cur@.len() as int)[j] == b.cur@[j]);
            }
        }
        lemma_sub_trans(a.defs@, b.defs@, c.defs@);
    }

    /// What lowering an expression keeps, a statement keeps too.
    pub proof fn lemma_kept_stmt(a: SpecCodegen, b: SpecCodegen)
        requires
            SpecCodegen::kept(a, b),
        ensures
            SpecCodegen::stmt_kept(a, b),
    {
        assert(b.module@.subrange(0, a.module@.len() as int) =~= a.module@);
    }

    /// Binds `v` to the name `name` in the innermost scope, as [`SpecCodegen::bind_top`] does.
    fn bind_named(&mut self, name: &str, v: Value, kind: u8, n: usize, span: Span, context: &str) -> (r:
        Result<(), CompileError>)
        requires
            old(self).wf(),
            has_type(old(self).defs@, v.id, v.ty@),
        ensures
            final(self).wf(),
            SpecCodegen::stmt_kept(*old(self), *final(self)),
            final(self).defs == old(self).defs,
            final(self).cur == old(self).cur,
            r is Ok ==> ascopes(final(self).scope.scopes@) == bound_a(
                ascopes(old(self).scope.scopes@),
                name@,
                v.ty@,
                kind,
                n,
            ),
            r is Err <==> bind_fails_a(ascopes(old(self).scope.scopes@), name@, kind, n),
    {
        let ident = Identifier::new(crate::ast::Symbol::from_str(name), span);
        self.bind_top(&ident, v, kind, n, span, context)
    }

    /// Lowers a contract: an anonymous `verif.contract` for its target, appended to the module,
    /// whose body block takes the target's own value (for a struct) and inputs, or its inputs
    /// and outputs (for a function). In a scope tagged [`ScopeTag::Contract`] the template
    /// parameters are bound to `poly.read_const` values, the members of a struct to
    /// `struct.readm` values, the inputs to `$arg[N]` and their names, and the outputs to
    /// `$res[N]`. Fails when the circuit has no such target.
    pub fn lower_contract(&mut self, decl: &crate::ast::ContractDecl<Ty>, info: &crate::type_analysis::CircuitInfo) -> (r:
        Result<(), CompileError>)
        requires
            old(self).wf(),
            lowerable_stmts(decl.body.statements@, ScopeTag::Contract),
        ensures
            final(self).wf(),
            crate::type_analysis::target_lookup(info.targets@, decl.target.name.name@) is None ==> r is Err,
            r is Err ==> !contract_ok(*decl, *info, ascopes(old(self).scope.scopes@)) || SpecCodegen::exhausted(
                *final(self),
            ),
            r is Ok ==> final(self).scope.scopes@ == old(self).scope.scopes@ && final(self).saved@
                == old(self).saved@ && final(self).cur@ == old(self).cur@ && final(self).module@.len()
                > old(self).module@.len() && final(self).module@.subrange(
                0,
                old(self).module@.len() as int,
            ) == old(self).module@ && (final(self).module@[old(self).module@.len() as int].kind matches OpKind::Contract {
                name,
                target,
            } && name@ == anon_contract_name(decl.target.name.name@, old(self).anon_contracts) && target@
                == decl.target.name.name@) && final(self).anon_contracts == old(self).anon_contracts + 1
                && old(self).defs@.submap_of(final(self).defs@) && old(self).next_func <= final(self).next_func,
            r is Ok ==> (crate::type_analysis::target_lookup(info.targets@, decl.target.name.name@) matches Some(t)
                && contract_lowered(*decl, t, final(self).module@[old(self).module@.len() as int])),
    {
        let ghost c0 = *self;
        let ghost a0 = ascopes(c0.scope.scopes@);
        if self.anon_contracts == u64::MAX {
            return Err(CompileError::Ir("too many contracts in one specification".to_owned()));
        }
        let name = anon_name(decl.target.value(), self.anon_contracts);
        self.anon_contracts = self.anon_contracts + 1;
        let target = match info.find_contract_target(&decl.target) {
            Ok(t) => t,
            Err(_) => {
                return Err(CompileError::Ir(concat3("symbol '", decl.target.value(), "' not found")));
            },
        };
        let ghost t = *target;
        let ghost ca = *self;
        self.push_scope(None);
        let idx = self.module.len();
        self.module.push(
            Op {
                kind: OpKind::Contract { name: name.clone(), target: decl.target.name.name.clone() },
                operands: Vec::new(),
                result: None,
                regions: Vec::new(),
                span: decl.span,
            },
        );
        let ghost c1 = *self;
        proof {
            assert(c1.scope.scopes@ =~= c0.scope.scopes@.push(c1.scope.scopes@.last()));
            lemma_ascopes_push(c0.scope.scopes@, c1.scope.scopes@.last());
        }
        let ghost abase = a0.push(empty_ascope());
        let mut tys: Vec<Ty> = Vec::new();
        let is_struct = match &target.self_type {
            Some(st) => {
                tys.push(st.copy());
                true
            },
            None => false,
        };
        let base: usize = if is_struct {
            1
        } else {
            0
        };
        let mut k: usize = 0;
        while k < target.inputs.len()
            invariant
                k <= target.inputs@.len(),
                is_struct == (t.self_type is Some),
                *target == t,
                tys@.len() == base + k,
                base == (if is_struct { 1usize } else { 0usize }),
                is_struct ==> tys@[0]@ == t.self_type->0@,
                forall|j: int| 0 <= j < k ==> (#[trigger] tys@[base + j])@ == t.inputs@[j].ty@,
            decreases target.inputs@.len() - k,
        {
            tys.push(target.inputs[k].ty.copy());
            k = k + 1;
        }
        let n_in = target.inputs.len();
        if !is_struct {
            proof {
                assert forall|j: int| 0 <= j < n_in implies (#[trigger] tys@[j])@ == t.inputs@[j].ty@ by {
                    assert(tys@[base + j] == tys@[j]);
                }
            }
            let mut k: usize = 0;
            while k < target.outputs.len()
                invariant
                    k <= target.outputs@.len(),
                    !is_struct,
                    base == 0,
                    *target == t,
                    n_in == t.inputs@.len(),
                    tys@.len() == n_in + k,
                    forall|j: int| 0 <= j < n_in ==> (#[trigger] tys@[j])@ == t.inputs@[j].ty@,
                    forall|j: int| 0 <= j < k ==> (#[trigger] tys@[n_in + j])@ == t.outputs@[j].ty@,
                decreases target.outputs@.len() - k,
            {
                tys.push(target.outputs[k].ty.copy());
                k = k + 1;
            }
        }
        let mut args: Vec<Value> = Vec::new();
        let mut k: usize = 0;
        proof {
            lemma_sub_refl(self.defs@);
            assert(self.cur@.subrange(0, self.cur@.len() as int) =~= self.cur@);
        }
        while k < tys.len()
            invariant
                k <= tys@.len(),
                self.wf(),
                SpecCodegen::kept(c1, *self),
                self.cur@ == c1.cur@,
                args@.len() == k,
                forall|j: int| 0 <= j < k ==> has_type(self.defs@, #[trigger] args@[j].id, args@[j].ty@),
                forall|j: int| 0 <= j < k ==> (#[trigger] args@[j]).ty@ == tys@[j]@,
                c0 == *old(self),
                self.anon_contracts == c1.anon_contracts,
                self.next_func == c1.next_func,
            decreases tys@.len() - k,
        {
            let ghost ck = *self;
            let v = self.fresh(tys[k].copy())?;
            proof {
                assert forall|j: int| 0 <= j < k implies has_type(self.defs@, #[trigger] args@[j].id, args@[j].ty@) by {
                    lemma_sub(ck.defs@, self.defs@, args@[j].id);
                }
                lemma_sub_trans(c1.defs@, ck.defs@, self.defs@);
            }
            args.push(v);
            k = k + 1;
        }
        proof {
            let at = contract_arg_tys(t);
            assert(args@.len() == at.len());
            assert forall|j: int| 0 <= j < args@.len() implies (#[trigger] args@[j]).ty@ == at[j] by {
                assert(args@[j].ty@ == tys@[j]@);
                if is_struct {
                    if j > 0 {
                        assert(tys@[base + (j - 1)] == tys@[j]);
                    }
                } else if j >= n_in {
                    assert(tys@[n_in + (j - n_in)] == tys@[j]);
                }
            }
        }
        let ghost gargs = args@;
        let ghost c2 = *self;
        self.push_scope(Some(ScopeTag::Contract));
        self.open_block();
        let ghost c3 = *self;
        proof {
            lemma_sub_refl(self.defs@);
            assert(self.cur@.subrange(0, self.cur@.len() as int) =~= self.cur@);
            assert(self.module@.subrange(0, self.module@.len() as int) =~= self.module@);
            assert(c3.scope.scopes@ =~= c2.scope.scopes@.push(c3.scope.scopes@.last()));
            lemma_ascopes_push(c2.scope.scopes@, c3.scope.scopes@.last());
            assert(ascopes(c2.scope.scopes@) == ascopes(c1.scope.scopes@));
        }
        let ghost abase2 = abase;
        let mut k: usize = 0;
        while k < target.template_params.len()
            invariant
                k <= target.template_params@.len(),
                *target == t,
                crate::type_analysis::target_lookup(info.targets@, decl.target.name.name@) == Some(t),
                c0 == *old(self),
                a0 == ascopes(c0.scope.scopes@),
                abase == a0.push(empty_ascope()),
                self.wf(),
                SpecCodegen::stmt_kept(c3, *self),
                forall|j: int| 0 <= j < args@.len() ==> has_type(self.defs@, #[trigger] args@[j].id, args@[j].ty@),
                ascopes(self.scope.scopes@) == abase.push(ascopes(self.scope.scopes@).last()),
                contract_scope(t) == after_tmpl(t, tmpl_from(t, ascopes(self.scope.scopes@).last(), k as int)),
                self.anon_contracts == c1.anon_contracts,
                c3.cur@.len() == 0,
                self.cur@.len() == k,
                forall|j: int| 0 <= j < k ==> reads_template(#[trigger] self.cur@[j], t.template_params@[j]),
            decreases target.template_params@.len() - k,
        {
            let p = &target.template_params[k];
            let ty = match &p.ty {
                Some(pt) => pt.copy(),
                None => Ty::Felt,
            };
            let ghost ck = *self;
            let ghost sk = ascopes(ck.scope.scopes@).last();
            proof {
                assert(*p == t.template_params@[k as int]);
                assert(ty@ == tmpl_ty(*p));
            }
            let v = self.append_with_result(OpKind::ReadConst(p.name.clone()), Vec::new(), ty, decl.span)?;
            let ghost cv = *self;
            let context = concat3("while binding template parameter '", p.name.as_str(), "'");
            match self.bind_named(p.name.as_str(), v, 0, 0, decl.span, context.as_str()) {
                Ok(()) => {},
                Err(err) => {
                    proof {
                        assert(ascopes(cv.scope.scopes@) == ascopes(ck.scope.scopes@));
                        assert(tmpl_from(t, sk, k as int) is None);
                    }
                    return Err(err);
                },
            }
            proof {
                SpecCodegen::lemma_kept_stmt(ck, cv);
                SpecCodegen::lemma_stmt_kept_trans(ck, cv, *self);
                SpecCodegen::lemma_stmt_kept_trans(c3, ck, *self);
                assert forall|j: int| 0 <= j < args@.len() implies has_type(self.defs@, #[trigger] args@[j].id, args@[j].ty@) by {
                    lemma_sub(ck.defs@, self.defs@, args@[j].id);
                }
                assert(ascopes(cv.scope.scopes@) == ascopes(ck.scope.scopes@));
                let ns = bind_local_a(sk, p.name@, tmpl_ty(*p));
                assert(ascopes(self.scope.scopes@) =~= abase.push(ns));
                assert forall|j: int| 0 <= j < k + 1 implies reads_template(
                    #[trigger] self.cur@[j],
                    t.template_params@[j],
                ) by {
                    if j < k {
                        assert(cv.cur@.subrange(0, ck.cur@.len() as int)[j] == ck.cur@[j]);
                    } else {
                        assert(self.cur@[j] == cv.cur@.last());
                    }
                }
            }
            k = k + 1;
        }
        proof {
            assert(args@.len() == tys@.len());
            if is_struct {
                assert(tys@.len() == 1 + n_in);
            }
        }
        if args.len() < base || args.len() - base < n_in {
            return Err(CompileError::Ir("the contract has fewer arguments than its target".to_owned()));
        }
        if is_struct {
            let self_value = args[0].copy();
            let struct_ok = match &self_value.ty {
                Ty::Record(r) => match r.kind {
                    RecordKind::Struct => true,
                    RecordKind::Pod => false,
                },
                _ => false,
            };
            if !struct_ok {
                proof {
                    assert(self_value.ty@ == t.self_type->0@);
                }
                return Err(CompileError::Ir("expected the target to be a struct".to_owned()));
            }
            let mut k: usize = 0;
            while k < target.members.len()
                invariant
                    k <= target.members@.len(),
                    *target == t,
                    t.self_type is Some,
                    crate::type_analysis::target_lookup(info.targets@, decl.target.name.name@) == Some(t),
                    c0 == *old(self),
                    a0 == ascopes(c0.scope.scopes@),
                    abase == a0.push(empty_ascope()),
                    self.wf(),
                    SpecCodegen::stmt_kept(c3, *self),
                    has_type(self.defs@, self_value.id, self_value.ty@),
                    rec_kind(self_value.ty@) == Some(RecordKind::Struct),
                    forall|j: int| 0 <= j < args@.len() ==> has_type(self.defs@, #[trigger] args@[j].id, args@[j].ty@),
                    ascopes(self.scope.scopes@) == abase.push(ascopes(self.scope.scopes@).last()),
                    contract_scope(t) == after_members(t, members_from(t, ascopes(self.scope.scopes@).last(), k as int)),
                    self.anon_contracts == c1.anon_contracts,
                    args@.len() > 0,
                    self_value.id == args@[0].id,
                    self.cur@.len() == t.template_params@.len() + k,
                    forall|j: int| 0 <= j < t.template_params@.len() ==> reads_template(
                        #[trigger] self.cur@[j],
                        t.template_params@[j],
                    ),
                    forall|j: int|
                        t.template_params@.len() <= j < t.template_params@.len() + k ==> reads_member(
                            #[trigger] self.cur@[j],
                            t.members@[j - t.template_params@.len()],
                            args@[0].id,
                        ),
                decreases target.members@.len() - k,
            {
                let m = &target.members[k];
                let ghost ck = *self;
                let ghost sk = ascopes(ck.scope.scopes@).last();
                let operands = vec![self_value.id];
                proof {
                    assert(*m == t.members@[k as int]);
                    assert(operands@[0] == self_value.id);
                    assert(self.defs@[self_value.id] == self_value.ty@);
                }
                let v = self.append_with_result(OpKind::StructRead(m.name.clone()), operands, m.ty.copy(), decl.span)?;
                let ghost cv = *self;
                let context = concat3("while binding struct member '", m.name.as_str(), "'");
                match self.bind_named(m.name.as_str(), v, 0, 0, decl.span, context.as_str()) {
                    Ok(()) => {},
                    Err(err) => {
                        proof {
                            assert(ascopes(cv.scope.scopes@) == ascopes(ck.scope.scopes@));
                            assert(members_from(t, sk, k as int) is None);
                        }
                        return Err(err);
                    },
                }
                proof {
                    SpecCodegen::lemma_kept_stmt(ck, cv);
                    SpecCodegen::lemma_stmt_kept_trans(ck, cv, *self);
                    SpecCodegen::lemma_stmt_kept_trans(c3, ck, *self);
                    lemma_sub(ck.defs@, self.defs@, self_value.id);
                    assert forall|j: int| 0 <= j < args@.len() implies has_type(self.defs@, #[trigger] args@[j].id, args@[j].ty@) by {
                        lemma_sub(ck.defs@, self.defs@, args@[j].id);
                    }
                    assert(ascopes(cv.scope.scopes@) == ascopes(ck.scope.scopes@));
                    let ns = bind_local_a(sk, m.name@, m.ty@);
                    assert(ascopes(self.scope.scopes@) =~= abase.push(ns));
                    let np = t.template_params@.len() as int;
                    assert forall|j: int| 0 <= j < np implies reads_template(
                        #[trigger] self.cur@[j],
                        t.template_params@[j],
                    ) by {
                        assert(cv.cur@.subrange(0, ck.cur@.len() as int)[j] == ck.cur@[j]);
                    }
                    assert forall|j: int| np <= j < np + k + 1 implies reads_member(
                        #[trigger] self.cur@[j],
                        t.members@[j - np],
                        args@[0].id,
                    ) by {
                        if j < np + k {
                            assert(cv.cur@.subrange(0, ck.cur@.len() as int)[j] == ck.cur@[j]);
                        } else {
                            assert(self.cur@[j] == cv.cur@.last());
                            assert(cv.cur@.last().operands@ == operands@);
                            assert(operands@ =~= seq![self_value.id]);
                            assert(j - np == k);
                            assert(*m == t.members@[k as int]);
                        }
                    }
                }
                k = k + 1;
            }
        }
        let ghost pre = self.cur@;
        proof {
            assert(contract_scope(t) == after_inputs(t, inputs_from(t, ascopes(self.scope.scopes@).last(), 0)));
            assert(contract_prologue(
                t,
                pre,
                if gargs.len() > 0 {
                    gargs[0].id
                } else {
                    0
                },
            ));
        }
        let mut k: usize = 0;
        while k < n_in
            invariant
                k <= n_in,
                n_in == t.inputs@.len(),
                *target == t,
                crate::type_analysis::target_lookup(info.targets@, decl.target.name.name@) == Some(t),
                c0 == *old(self),
                a0 == ascopes(c0.scope.scopes@),
                abase == a0.push(empty_ascope()),
                self.wf(),
                SpecCodegen::stmt_kept(c3, *self),
                base + n_in <= args.len(),
                forall|j: int| 0 <= j < n_in ==> (#[trigger] args@[base + j]).ty@ == t.inputs@[j].ty@,
                forall|j: int| 0 <= j < args@.len() ==> has_type(self.defs@, #[trigger] args@[j].id, args@[j].ty@),
                ascopes(self.scope.scopes@) == abase.push(ascopes(self.scope.scopes@).last()),
                contract_scope(t) == after_inputs(t, inputs_from(t, ascopes(self.scope.scopes@).last(), k as int)),
                self.anon_contracts == c1.anon_contracts,
                self.cur@ == pre,
            decreases n_in - k,
        {
            let a = args[base + k].copy();
            let ghost ck = *self;
            let ghost sk = ascopes(ck.scope.scopes@).last();
            let mut pname = "$arg[".to_owned();
            push_decimal(&mut pname, k as u64);
            pname.append("]");
            proof {
                reveal_strlit("$arg[");
                reveal_strlit("]");
                assert(pname@ =~= arg_name(k));
            }
            let mut context = "while binding argument #".to_owned();
            push_decimal(&mut context, k as u64);
            context.append(" of target");
            match self.bind_named(pname.as_str(), a, 1, k, decl.span, context.as_str()) {
                Ok(()) => {},
                Err(err) => {
                    proof {
                        assert(inputs_from(t, sk, k as int) is None);
                    }
                    return Err(err);
                },
            }
            let ghost s1 = bind_param_a(sk, arg_name(k), t.inputs@[k as int].ty@, k);
            proof {
                SpecCodegen::lemma_stmt_kept_trans(c3, ck, *self);
                assert(ascopes(self.scope.scopes@) =~= abase.push(s1));
            }
            match &target.inputs[k].name {
                Some(n) => {
                    let a = args[base + k].copy();
                    let ghost cn = *self;
                    let context = concat3("while binding named argument '", n.as_str(), "' of target");
                    match self.bind_named(n.as_str(), a, 0, 0, decl.span, context.as_str()) {
                        Ok(()) => {},
                        Err(err) => {
                            proof {
                                assert(inputs_from(t, sk, k as int) is None);
                            }
                            return Err(err);
                        },
                    }
                    proof {
                        SpecCodegen::lemma_stmt_kept_trans(c3, cn, *self);
                        assert(ascopes(self.scope.scopes@) =~= abase.push(bind_local_a(s1, n@, t.inputs@[k as int].ty@)));
                    }
                },
                None => {},
            }
            k = k + 1;
        }
        if !is_struct {
            let n_out = target.outputs.len();
            if args.len() < n_in || args.len() - n_in < n_out {
                return Err(CompileError::Ir("the contract has fewer arguments than its target".to_owned()));
            }
            proof {
                assert(contract_scope(t) == outputs_from(t, ascopes(self.scope.scopes@).last(), 0));
            }
            let mut k: usize = 0;
            while k < n_out
                invariant
                    k <= n_out,
                    n_out == t.outputs@.len(),
                    *target == t,
                    crate::type_analysis::target_lookup(info.targets@, decl.target.name.name@) == Some(t),
                    c0 == *old(self),
                    a0 == ascopes(c0.scope.scopes@),
                    abase == a0.push(empty_ascope()),
                    self.wf(),
                    SpecCodegen::stmt_kept(c3, *self),
                    n_in + n_out <= args.len(),
                    forall|j: int| 0 <= j < n_out ==> (#[trigger] args@[n_in + j]).ty@ == t.outputs@[j].ty@,
                    forall|j: int| 0 <= j < args@.len() ==> has_type(self.defs@, #[trigger] args@[j].id, args@[j].ty@),
                    ascopes(self.scope.scopes@) == abase.push(ascopes(self.scope.scopes@).last()),
                    contract_scope(t) == outputs_from(t, ascopes(self.scope.scopes@).last(), k as int),
                    self.anon_contracts == c1.anon_contracts,
                    self.cur@ == pre,
                decreases n_out - k,
            {
                let a = args[n_in + k].copy();
                let ghost ck = *self;
                let ghost sk = ascopes(ck.scope.scopes@).last();
                let mut oname = "$res[".to_owned();
                push_decimal(&mut oname, k as u64);
                oname.append("]");
                proof {
                    reveal_strlit("$res[");
                    reveal_strlit("]");
                    assert(oname@ =~= res_name(k));
                }
                let mut context = "while binding output #".to_owned();
                push_decimal(&mut context, k as u64);
                context.append(" of target");
                match self.bind_named(oname.as_str(), a, 2, k, decl.span, context.as_str()) {
                    Ok(()) => {},
                    Err(err) => {
                        proof {
                            assert(outputs_from(t, sk, k as int) is None);
                        }
                        return Err(err);
                    },
                }
                proof {
                    SpecCodegen::lemma_stmt_kept_trans(c3, ck, *self);
                    assert(ascopes(self.scope.scopes@) =~= abase.push(
                        bind_output_a(sk, res_name(k), t.outputs@[k as int].ty@, k),
                    ));
                }
                k = k + 1;
            }
        }
        let ghost sfin = ascopes(self.scope.scopes@).last();
        proof {
            assert(contract_scope(t) == Some(sfin));
            assert(ascopes(self.scope.scopes@) =~= a0.push(empty_ascope()).push(sfin));
        }
        let ghost c4 = *self;
        proof {
            lemma_closest_tag_same(self.scope.scopes@, c3.scope.scopes@);
            assert(closest_tag(c3.scope.scopes@) == ScopeTag::Contract);
        }
        match self.lower_block(&decl.body) {
            Ok(()) => {},
            Err(err) => {
                return Err(err);
            },
        }
        let ghost c5 = *self;
        proof {
            SpecCodegen::lemma_stmt_kept_trans(c3, c4, c5);
        }
        self.pop_scope();
        let ops = self.close_block();
        proof {
            assert(ops@.subrange(0, prologue_len(t)) =~= pre);
            assert(ops@.subrange(prologue_len(t), ops@.len() as int) =~= c5.cur@.subrange(
                c4.cur@.len() as int,
                c5.cur@.len() as int,
            ));
        }
        self.pop_scope();
        let regions = vec![Region { args, ops }];
        let op = Op {
            kind: OpKind::Contract { name, target: decl.target.name.name.clone() },
            operands: Vec::new(),
            result: None,
            regions,
            span: decl.span,
        };
        proof {
            assert(idx < self.module@.len()) by {
                assert(c5.module@.len() >= c3.module@.len());
            }
        }
        self.module.set(idx, op);
        proof {
            assert(c2.saved@.push(c2.cur).drop_last() =~= c2.saved@);
            assert(self.scope.scopes@ == c0.scope.scopes@) by {
                assert(c5.scope.scopes@.drop_last() == c3.scope.scopes@.drop_last());
                assert(c3.scope.scopes@.drop_last() == c2.scope.scopes@);
                assert(c2.scope.scopes@ == c1.scope.scopes@);
                assert(c1.scope.scopes@.drop_last() == ca.scope.scopes@);
            }
            assert forall|j: int| 0 <= j < c0.module@.len() implies self.module@[j] == c0.module@[j] by {
                assert(c5.module@.subrange(0, c3.module@.len() as int)[j] == c3.module@[j]);
                assert(c3.module@ == c1.module@);
                assert(c1.module@[j] == c0.module@[j]);
            }
            assert(self.module@.subrange(0, c0.module@.len() as int) =~= c0.module@);
            lemma_sub_trans(c0.defs@, c2.defs@, c5.defs@);
            assert(self.module@[idx as int].regions@[0].args@ == gargs);
            assert(contract_lowered(*decl, t, self.module@[idx as int]));
        }
        Ok(())
    }

    /// Lowers a type-checked document: each contract and predicate, in order, into the module.
    /// Fails on the first item that fails, in particular on a contract whose target the circuit
    /// does not define.
    pub fn emit_ir(&mut self, document: &crate::ast::Document<Ty>, info: &crate::type_analysis::CircuitInfo) -> (r:
        Result<(), CompileError>)
        requires
            old(self).wf(),
            lowerable_doc(*document),
        ensures
            final(self).wf(),
            r is Err ==> !items_ok(document.items@, *info, ascopes(old(self).scope.scopes@))
                || SpecCodegen::exhausted(*final(self)),
            r is Ok ==> final(self).module@.len() >= old(self).module@.len() + document.items@.len(),
            r is Ok ==> forall|i: int|
                0 <= i < document.items@.len() ==> (#[trigger] document.items@[i] matches crate::ast::Item::Contract(
                    c,
                ) ==> crate::type_analysis::target_lookup(info.targets@, c.target.name.name@) is Some),
            r is Ok ==> final(self).module@.subrange(0, old(self).module@.len() as int) == old(self).module@,
            r is Ok ==> exists|pos: Seq<int>|
                #![trigger items_lowered(document.items@, *info, final(self).module@, old(self).module@.len() as int, pos)]
                items_lowered(document.items@, *info, final(self).module@, old(self).module@.len() as int, pos)
                    && contracts_named(document.items@, final(self).module@, pos, old(self).anon_contracts as int),
            r is Ok ==> final(self).anon_contracts == old(self).anon_contracts + contracts_before(
                document.items@,
                document.items@.len() as int,
            ),
    {
        let ghost m0 = self.module@.len();
        let ghost mod0 = self.module@;
        let ghost mut pos: Seq<int> = Seq::empty();
        let ghost a0 = ascopes(self.scope.scopes@);
        let ghost its = document.items@;
        proof {
            assert(its.subrange(0, its.len() as int) =~= its);
        }
        let mut i: usize = 0;
        while i < document.items.len()
            invariant
                i <= document.items@.len(),
                self.wf(),
                lowerable_doc(*document),
                its == document.items@,
                a0 == ascopes(old(self).scope.scopes@),
                items_ok(its, *info, a0) ==> items_ok(its.subrange(i as int, its.len() as int), *info, ascopes(self.scope.scopes@)),
                self.module@.len() >= m0 + i,
                forall|j: int|
                    0 <= j < i ==> (#[trigger] document.items@[j] matches crate::ast::Item::Contract(c)
                        ==> crate::type_analysis::target_lookup(info.targets@, c.target.name.name@) is Some),
                mod0 == old(self).module@,
                m0 == mod0.len(),
                self.module@.len() >= m0,
                self.module@.subrange(0, m0 as int) == mod0,
                i == 0 ==> self.module@.len() == m0,
                items_lowered(its.subrange(0, i as int), *info, self.module@, m0 as int, pos),
                self.anon_contracts == old(self).anon_contracts + contracts_before(its, i as int),
                contracts_named(its.subrange(0, i as int), self.module@, pos, old(self).anon_contracts as int),
            decreases document.items@.len() - i,
        {
            let ghost mb = self.module@;
            proof {
                assert(match document.items@[i as int] {
                    crate::ast::Item::Contract(c) => lowerable_stmts(c.body.statements@, ScopeTag::Contract),
                    crate::ast::Item::Predicate(p) => lowerable_stmts(p.body.statements@, ScopeTag::Predicate),
                });
            }
            let ghost rest = its.subrange(i as int, its.len() as int);
            proof {
                assert(rest[0] == its[i as int]);
                assert(rest.subrange(1, rest.len() as int) =~= its.subrange(i + 1, its.len() as int));
            }
            match &document.items[i] {
                crate::ast::Item::Contract(c) => {
                    match self.lower_contract(c, info) {
                        Ok(()) => {},
                        Err(err) => {
                            return Err(err);
                        },
                    }
                },
                crate::ast::Item::Predicate(p) => {
                    match self.lower_predicate(p) {
                        Ok(()) => {},
                        Err(err) => {
                            return Err(err);
                        },
                    }
                },
            }
            proof {
                let mi = mb.len() as int;
                let np = pos.push(mi);
                let sub = its.subrange(0, i + 1);
                let prev = its.subrange(0, i as int);
                assert(self.module@.subrange(0, mi) == mb);
                assert(sub =~= prev.push(its[i as int]));
                assert(item_lowered(its[i as int], *info, self.module@[mi]));
                assert forall|j: int| 0 <= j < sub.len() implies item_lowered(
                    #[trigger] sub[j],
                    *info,
                    self.module@[np[j]],
                ) by {
                    if j < i {
                        assert(sub[j] == prev[j]);
                        assert(np[j] == pos[j]);
                        assert(item_lowered(prev[j], *info, mb[pos[j]]));
                        assert(self.module@.subrange(0, mi)[pos[j]] == self.module@[pos[j]]);
                    }
                }
                assert forall|j: int| 0 <= j < np.len() implies m0 <= #[trigger] np[j] < self.module@.len() by {
                    if j < i {
                        assert(np[j] == pos[j]);
                    }
                }
                assert forall|a: int, b: int| 0 <= a < b < np.len() implies #[trigger] np[a] < #[trigger] np[b] by {
                    assert(np[a] == pos[a]);
                    if b < i {
                        assert(np[b] == pos[b]);
                    }
                }
                assert(contracts_before(its, i + 1) == contracts_before(its, i as int) + if its[i as int] is Contract {
                    1nat
                } else {
                    0nat
                });
                assert forall|j: int| 0 <= j < sub.len() implies (#[trigger] sub[j] matches crate::ast::Item::Contract(
                    c,
                ) ==> (self.module@[np[j]].kind matches OpKind::Contract { name, .. } && name@ == anon_contract_name(
                    c.target.name.name@,
                    (old(self).anon_contracts + contracts_before(sub, j)) as u64,
                ))) by {
                    lemma_contracts_before_prefix(its, i + 1, j);
                    lemma_contracts_before_prefix(its, i as int, j);
                    if j < i {
                        assert(sub[j] == prev[j]);
                        assert(np[j] == pos[j]);
                        assert(self.module@.subrange(0, mi)[pos[j]] == self.module@[pos[j]]);
                        assert(mb[pos[j]] == self.module@[pos[j]]);
                    }
                }
                assert(self.module@.subrange(0, m0 as int) =~= mod0) by {
                    assert forall|q: int| 0 <= q < m0 implies self.module@[q] == mod0[q] by {
                        assert(self.module@.subrange(0, mi)[q] == mb[q]);
                        assert(mb.subrange(0, m0 as int)[q] == mod0[q]);
                    }
                }
                pos = np;
            }
            i = i + 1;
        }
        proof {
            assert(its.subrange(0, i as int) =~= its);
        }
        Ok(())
    }
}

} // verus!
