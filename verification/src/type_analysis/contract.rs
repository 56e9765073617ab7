//! Type checking of contract declarations.
//!
//! A contract's body sees, in a scope that hides everything local around it, the template
//! parameters, inputs, outputs, members and loops of its target.
use vstd::prelude::*;
use crate::ast::{ContractDecl, Identifier, Symbol};
use crate::text::{concat3, decimal, push_decimal};
use crate::type_analysis::block::{
    BlockTypeCheckerCfg, block_shape, block_typed, check_block, known_stmt_in, literal_stmt, stmt_ctx,
};
use crate::type_analysis::ctx::{TypeInferenceCtx, smap};
use crate::type_analysis::expression::{ident_shape, lemma_step_refl};
use crate::type_analysis::helpers::{Diagnostics, TypingResult, is_diag};
use crate::type_analysis::loops::{LoopBinding, LoopInfo};
use crate::type_analysis::{CircuitInfo, ContractTargetInfo, target_lookup};
use crate::types::{FnTy, Ty, TyV, lemma_tys_view, ty_view, tys_view};

verus! {

/// What may stand in the body of a contract: invariants, scoped blocks, `ensure` and `require`,
/// and `$arg[N]` in expressions.
pub open spec fn contract_block_cfg() -> BlockTypeCheckerCfg {
    BlockTypeCheckerCfg {
        allows_invariants: true,
        allows_scoped: true,
        allows_ensure_and_require: true,
        allows_return: false,
        allows_invariant_stmts: false,
        allows_arg: true,
    }
}

/// What may stand in the body of a contract.
pub fn contract_cfg() -> (r: BlockTypeCheckerCfg)
    ensures
        r == contract_block_cfg(),
{
    BlockTypeCheckerCfg {
        allows_invariants: true,
        allows_scoped: true,
        allows_ensure_and_require: true,
        allows_return: false,
        allows_invariant_stmts: false,
        allows_arg: true,
    }
}

/// The inputs of a contract's function type: the target's own type when it has one, then the
/// types of its inputs, then those of its outputs.
pub open spec fn contract_inputs(info: ContractTargetInfo) -> Seq<TyV> {
    (match info.self_type {
        Some(t) => seq![t@],
        None => Seq::empty(),
    }) + info.inputs@.map_values(|i: crate::type_analysis::InputInfo| i.ty@)
        + info.outputs@.map_values(|o: crate::type_analysis::OutputInfo| o.ty@)
}

/// `t` is `d` with metadata attached.
pub open spec fn contract_shape(t: ContractDecl<Ty>, d: ContractDecl<()>) -> bool {
    t.span == d.span && ident_shape(t.target, d.target) && block_shape(t.body, d.body)
}

/// `prefix`, the decimal representation of `n`, then `]`.
fn positional(prefix: &str, n: usize) -> (r: String)
    ensures
        r@ == prefix@ + decimal(n as nat) + "]"@,
{
    let mut s = prefix.to_owned();
    push_decimal(&mut s, n as u64);
    s.append("]");
    s
}

/// An identifier for an implicit binding, located at the contract.
fn ident(name: &str, decl: &ContractDecl<()>) -> (r: Identifier<()>)
    ensures
        r.name.name@ == name@,
        r.span == decl.span,
{
    Identifier::new(Symbol::from_str(name), decl.span)
}

/// The type of the first entry of `s` named `k`.
pub open spec fn first_binding(s: Seq<(Seq<char>, TyV)>, k: Seq<char>) -> Option<TyV>
    decreases s.len(),
{
    if s.len() == 0 {
        None
    } else {
        match first_binding(s.drop_last(), k) {
            Some(t) => Some(t),
            None => if s.last().0 == k {
                Some(s.last().1)
            } else {
                None
            },
        }
    }
}

/// The name under which the `n`-th input is known positionally.
pub open spec fn arg_name(n: nat) -> Seq<char> {
    "$arg["@ + decimal(n) + "]"@
}

/// The name under which the `n`-th output is known positionally.
pub open spec fn res_name(n: nat) -> Seq<char> {
    "$res["@ + decimal(n) + "]"@
}

/// The bindings of the template parameters, in order: a parameter without a type is a field
/// element.
pub open spec fn param_bindings(ps: Seq<crate::type_analysis::ParamInfo>) -> Seq<(Seq<char>, TyV)>
    decreases ps.len(),
{
    if ps.len() == 0 {
        Seq::empty()
    } else {
        param_bindings(ps.drop_last()).push(
            (
                ps.last().name@,
                match ps.last().ty {
                    Some(t) => t@,
                    None => TyV::Felt,
                },
            ),
        )
    }
}

/// The bindings of the inputs, in order: each input as `$arg[N]`, then by its name if it has one.
pub open spec fn input_bindings(ins: Seq<crate::type_analysis::InputInfo>) -> Seq<(Seq<char>, TyV)>
    decreases ins.len(),
{
    if ins.len() == 0 {
        Seq::empty()
    } else {
        let b = input_bindings(ins.drop_last()).push((arg_name((ins.len() - 1) as nat), ins.last().ty@));
        match ins.last().name {
            Some(n) => b.push((n@, ins.last().ty@)),
            None => b,
        }
    }
}

/// The bindings of the outputs, in order: each output as `$res[N]`, then by its name if it has
/// one.
pub open spec fn output_bindings(outs: Seq<crate::type_analysis::OutputInfo>) -> Seq<(Seq<char>, TyV)>
    decreases outs.len(),
{
    if outs.len() == 0 {
        Seq::empty()
    } else {
        let b = output_bindings(outs.drop_last()).push((res_name((outs.len() - 1) as nat), outs.last().ty@));
        match outs.last().name {
            Some(n) => b.push((n@, outs.last().ty@)),
            None => b,
        }
    }
}

/// Distinct numbers give distinct texts between the same prefix and a closing bracket.
pub proof fn lemma_numbered_names_distinct(prefix: Seq<char>, a: nat, b: nat)
    requires
        prefix + decimal(a) + "]"@ == prefix + decimal(b) + "]"@,
    ensures
        a == b,
{
    reveal_strlit("]");
    let x = prefix + decimal(a) + "]"@;
    let y = prefix + decimal(b) + "]"@;
    assert(x.subrange(prefix.len() as int, x.len() - 1) =~= decimal(a));
    assert(y.subrange(prefix.len() as int, y.len() - 1) =~= decimal(b));
    crate::text::lemma_decimal_injective(a, b);
}

/// No output of `outs` carries, as its own name, a name of the form `$res[N]`.
pub open spec fn outputs_not_named_positionally(outs: Seq<crate::type_analysis::OutputInfo>) -> bool {
    forall|m: int, n: nat|
        #![trigger outs[m], decimal(n)]
        0 <= m < outs.len() ==> (outs[m].name matches Some(x) ==> x@ != "$res["@ + decimal(n) + "]"@)
}

/// A positional output name beyond the outputs is not bound by them.
proof fn lemma_output_bindings_beyond(outs: Seq<crate::type_analysis::OutputInfo>, n: nat)
    requires
        n >= outs.len(),
        outputs_not_named_positionally(outs),
    ensures
        first_binding(output_bindings(outs), "$res["@ + decimal(n) + "]"@) is None,
    decreases outs.len(),
{
    if outs.len() > 0 {
        let k = "$res["@ + decimal(n) + "]"@;
        let pre = outs.drop_last();
        lemma_outputs_not_named_prefix(outs);
        lemma_output_bindings_beyond(pre, n);
        let li = outs.len() - 1;
        let last = li as nat;
        let o = outs[li];
        assert(o == outs.last());
        if res_name(last) == k {
            lemma_numbered_names_distinct("$res["@, last, n);
        }
        let b = output_bindings(pre).push((res_name(last), o.ty@));
        assert(b.drop_last() == output_bindings(pre));
        assert(b.last() == (res_name(last), o.ty@));
        assert(first_binding(b, k) is None);
        match o.name {
            Some(x) => {
                assert(x@ != "$res["@ + decimal(n) + "]"@);
                let bb = b.push((x@, o.ty@));
                assert(bb.drop_last() == b);
                assert(output_bindings(outs) == bb);
            },
            None => {
                assert(output_bindings(outs) == b);
            },
        }
    }
}

/// The outputs before the last are not named positionally either.
proof fn lemma_outputs_not_named_prefix(outs: Seq<crate::type_analysis::OutputInfo>)
    requires
        outs.len() > 0,
        outputs_not_named_positionally(outs),
    ensures
        outputs_not_named_positionally(outs.drop_last()),
{
    let pre = outs.drop_last();
    assert forall|m: int, q: nat|
        #![trigger pre[m], decimal(q)]
        0 <= m < pre.len() implies (pre[m].name matches Some(x) ==> x@ != "$res["@ + decimal(q) + "]"@) by {
        assert(pre[m] == outs[m]);
    }
}

/// `$res[N]` names the `N`-th output (counted from zero) with that output's type, for every
/// output: positional output names are never shifted.
pub proof fn res_n_names_the_nth_output(outs: Seq<crate::type_analysis::OutputInfo>, n: int)
    requires
        0 <= n < outs.len(),
        outputs_not_named_positionally(outs),
    ensures
        first_binding(output_bindings(outs), "$res["@ + decimal(n as nat) + "]"@) == Some(outs[n].ty@),
    decreases outs.len(),
{
    let pre = outs.drop_last();
    let k = "$res["@ + decimal(n as nat) + "]"@;
    lemma_outputs_not_named_prefix(outs);
    let li = outs.len() - 1;
    let last = li as nat;
    let o = outs[li];
    assert(o == outs.last());
    let b = output_bindings(pre).push((res_name(last), o.ty@));
    assert(b.drop_last() == output_bindings(pre));
    assert(b.last() == (res_name(last), o.ty@));
    if n < li {
        res_n_names_the_nth_output(pre, n);
        assert(pre[n] == outs[n]);
        assert(first_binding(b, k) == Some(outs[n].ty@));
    } else {
        lemma_output_bindings_beyond(pre, n as nat);
        assert(res_name(last) == k);
        assert(first_binding(b, k) == Some(outs[n].ty@));
    }
    match o.name {
        Some(x) => {
            let bb = b.push((x@, o.ty@));
            assert(bb.drop_last() == b);
            assert(output_bindings(outs) == bb);
        },
        None => {
            assert(output_bindings(outs) == b);
        },
    }
}

/// No input of `ins` carries, as its own name, a name of the form `$arg[N]`.
pub open spec fn inputs_not_named_positionally(ins: Seq<crate::type_analysis::InputInfo>) -> bool {
    forall|m: int, n: nat|
        #![trigger ins[m], decimal(n)]
        0 <= m < ins.len() ==> (ins[m].name matches Some(x) ==> x@ != "$arg["@ + decimal(n) + "]"@)
}

/// A positional input name beyond the inputs is not bound by them.
proof fn lemma_input_bindings_beyond(ins: Seq<crate::type_analysis::InputInfo>, n: nat)
    requires
        n >= ins.len(),
        inputs_not_named_positionally(ins),
    ensures
        first_binding(input_bindings(ins), "$arg["@ + decimal(n) + "]"@) is None,
    decreases ins.len(),
{
    if ins.len() > 0 {
        let k = "$arg["@ + decimal(n) + "]"@;
        let pre = ins.drop_last();
        lemma_inputs_not_named_prefix(ins);
        lemma_input_bindings_beyond(pre, n);
        let li = ins.len() - 1;
        let last = li as nat;
        let o = ins[li];
        assert(o == ins.last());
        if arg_name(last) == k {
            lemma_numbered_names_distinct("$arg["@, last, n);
        }
        let b = input_bindings(pre).push((arg_name(last), o.ty@));
        assert(b.drop_last() == input_bindings(pre));
        assert(b.last() == (arg_name(last), o.ty@));
        assert(first_binding(b, k) is None);
        match o.name {
            Some(x) => {
                assert(x@ != "$arg["@ + decimal(n) + "]"@);
                let bb = b.push((x@, o.ty@));
                assert(bb.drop_last() == b);
                assert(input_bindings(ins) == bb);
            },
            None => {
                assert(input_bindings(ins) == b);
            },
        }
    }
}

/// The inputs before the last are not named positionally either.
proof fn lemma_inputs_not_named_prefix(ins: Seq<crate::type_analysis::InputInfo>)
    requires
        ins.len() > 0,
        inputs_not_named_positionally(ins),
    ensures
        inputs_not_named_positionally(ins.drop_last()),
{
    let pre = ins.drop_last();
    assert forall|m: int, q: nat|
        #![trigger pre[m], decimal(q)]
        0 <= m < pre.len() implies (pre[m].name matches Some(x) ==> x@ != "$arg["@ + decimal(q) + "]"@) by {
        assert(pre[m] == ins[m]);
    }
}

/// `$arg[N]` names the `N`-th input (counted from zero) with that input's type, for every
/// input: positional input names are never shifted.
pub proof fn arg_n_names_the_nth_input(ins: Seq<crate::type_analysis::InputInfo>, n: int)
    requires
        0 <= n < ins.len(),
        inputs_not_named_positionally(ins),
    ensures
        first_binding(input_bindings(ins), "$arg["@ + decimal(n as nat) + "]"@) == Some(ins[n].ty@),
    decreases ins.len(),
{
    let pre = ins.drop_last();
    let k = "$arg["@ + decimal(n as nat) + "]"@;
    lemma_inputs_not_named_prefix(ins);
    let li = ins.len() - 1;
    let last = li as nat;
    let o = ins[li];
    assert(o == ins.last());
    let b = input_bindings(pre).push((arg_name(last), o.ty@));
    assert(b.drop_last() == input_bindings(pre));
    assert(b.last() == (arg_name(last), o.ty@));
    if n < li {
        arg_n_names_the_nth_input(pre, n);
        assert(pre[n] == ins[n]);
        assert(first_binding(b, k) == Some(ins[n].ty@));
    } else {
        lemma_input_bindings_beyond(pre, n as nat);
        assert(arg_name(last) == k);
        assert(first_binding(b, k) == Some(ins[n].ty@));
    }
    match o.name {
        Some(x) => {
            let bb = b.push((x@, o.ty@));
            assert(bb.drop_last() == b);
            assert(input_bindings(ins) == bb);
        },
        None => {
            assert(input_bindings(ins) == b);
        },
    }
}

/// The bindings of the members, in order.
pub open spec fn member_bindings(ms: Seq<crate::type_analysis::MemberInfo>) -> Seq<(Seq<char>, TyV)>
    decreases ms.len(),
{
    if ms.len() == 0 {
        Seq::empty()
    } else {
        member_bindings(ms.drop_last()).push((ms.last().name@, ms.last().ty@))
    }
}

/// Every name that a contract's body sees locally, with its type, in the order the target makes
/// them visible: template parameters, inputs, outputs, members. Where a name comes twice, the
/// first binding holds and the later one is reported.
pub open spec fn target_bindings(info: ContractTargetInfo) -> Seq<(Seq<char>, TyV)> {
    param_bindings(info.template_params@) + input_bindings(info.inputs@) + output_bindings(
        info.outputs@,
    ) + member_bindings(info.members@)
}

/// No two entries of `s` have the same name.
pub open spec fn names_distinct(s: Seq<(Seq<char>, TyV)>) -> bool {
    forall|i: int, j: int| 0 <= i < j < s.len() ==> #[trigger] s[i].0 != #[trigger] s[j].0
}

/// No two loops have the same label.
pub open spec fn labels_distinct(ls: Seq<LoopInfo<Ty>>) -> bool {
    forall|i: int, j: int|
        0 <= i < j < ls.len() ==> crate::type_analysis::loops::label_text(#[trigger] ls[i].label)
            != crate::type_analysis::loops::label_text(#[trigger] ls[j].label)
}

/// `a` is a prefix of `b`.
pub open spec fn is_prefix(a: Seq<(Seq<char>, TyV)>, b: Seq<(Seq<char>, TyV)>) -> bool {
    a.len() <= b.len() && a == b.subrange(0, a.len() as int)
}

/// A name bound in `s` is the name of one of its entries.
proof fn lemma_first_binding_entry(s: Seq<(Seq<char>, TyV)>, k: Seq<char>) -> (i: int)
    requires
        first_binding(s, k) is Some,
    ensures
        0 <= i < s.len(),
        s[i].0 == k,
    decreases s.len(),
{
    if first_binding(s.drop_last(), k) is Some {
        lemma_first_binding_entry(s.drop_last(), k)
    } else {
        s.len() - 1
    }
}

/// In a list of distinct names, an entry's name is not bound by the entries before it.
proof fn lemma_fresh_name(w: Seq<(Seq<char>, TyV)>, x: (Seq<char>, TyV), full: Seq<(Seq<char>, TyV)>)
    requires
        names_distinct(full),
        is_prefix(w.push(x), full),
    ensures
        first_binding(w, x.0) is None,
{
    if first_binding(w, x.0) is Some {
        let i = lemma_first_binding_entry(w, x.0);
        assert(w.push(x)[i] == full[i]);
        assert(w.push(x)[w.len() as int] == full[w.len() as int]);
        assert(full[i].0 == full[w.len() as int].0);
    }
}

/// Prefixes compose.
proof fn lemma_prefix_trans(a: Seq<(Seq<char>, TyV)>, b: Seq<(Seq<char>, TyV)>, c: Seq<(Seq<char>, TyV)>)
    requires
        is_prefix(a, b),
        is_prefix(b, c),
    ensures
        is_prefix(a, c),
{
    assert(a =~= c.subrange(0, a.len() as int));
}

/// A prefix stays one when both sides are extended: at the end of the longer one, or at the
/// front of both.
proof fn lemma_prefix_extend(a: Seq<(Seq<char>, TyV)>, b: Seq<(Seq<char>, TyV)>, c: Seq<(Seq<char>, TyV)>)
    requires
        is_prefix(a, b),
    ensures
        is_prefix(a, b + c),
        is_prefix(c + a, c + b),
{
    assert(a =~= (b + c).subrange(0, a.len() as int));
    assert(c + a =~= (c + b).subrange(0, (c + a).len() as int));
}

/// The bindings of the first `k` template parameters begin those of all of them.
proof fn lemma_param_prefix(ps: Seq<crate::type_analysis::ParamInfo>, k: int)
    requires
        0 <= k <= ps.len(),
    ensures
        is_prefix(param_bindings(ps.subrange(0, k)), param_bindings(ps)),
    decreases ps.len(),
{
    if k == ps.len() {
        assert(ps.subrange(0, k) =~= ps);
        assert(param_bindings(ps).subrange(0, param_bindings(ps).len() as int) =~= param_bindings(ps));
    } else {
        assert(ps.subrange(0, k) =~= ps.drop_last().subrange(0, k));
        lemma_param_prefix(ps.drop_last(), k);
        let b = param_bindings(ps.drop_last());
        assert(is_prefix(b, b.push((ps.last().name@, match ps.last().ty {
            Some(t) => t@,
            None => TyV::Felt,
        })))) by {
            assert(b =~= b.push((ps.last().name@, match ps.last().ty {
                Some(t) => t@,
                None => TyV::Felt,
            })).subrange(0, b.len() as int));
        }
        lemma_prefix_trans(param_bindings(ps.subrange(0, k)), b, param_bindings(ps));
    }
}

/// The bindings of the first `k` inputs begin those of all of them.
proof fn lemma_input_prefix(ins: Seq<crate::type_analysis::InputInfo>, k: int)
    requires
        0 <= k <= ins.len(),
    ensures
        is_prefix(input_bindings(ins.subrange(0, k)), input_bindings(ins)),
    decreases ins.len(),
{
    if k == ins.len() {
        assert(ins.subrange(0, k) =~= ins);
        assert(input_bindings(ins).subrange(0, input_bindings(ins).len() as int) =~= input_bindings(ins));
    } else {
        assert(ins.subrange(0, k) =~= ins.drop_last().subrange(0, k));
        lemma_input_prefix(ins.drop_last(), k);
        let b = input_bindings(ins.drop_last());
        assert(is_prefix(b, input_bindings(ins))) by {
            assert(b =~= input_bindings(ins).subrange(0, b.len() as int));
        }
        lemma_prefix_trans(input_bindings(ins.subrange(0, k)), b, input_bindings(ins));
    }
}

/// The bindings of the first `k` outputs begin those of all of them.
proof fn lemma_output_prefix(outs: Seq<crate::type_analysis::OutputInfo>, k: int)
    requires
        0 <= k <= outs.len(),
    ensures
        is_prefix(output_bindings(outs.subrange(0, k)), output_bindings(outs)),
    decreases outs.len(),
{
    if k == outs.len() {
        assert(outs.subrange(0, k) =~= outs);
        assert(output_bindings(outs).subrange(0, output_bindings(outs).len() as int) =~= output_bindings(outs));
    } else {
        assert(outs.subrange(0, k) =~= outs.drop_last().subrange(0, k));
        lemma_output_prefix(outs.drop_last(), k);
        let b = output_bindings(outs.drop_last());
        assert(is_prefix(b, output_bindings(outs))) by {
            assert(b =~= output_bindings(outs).subrange(0, b.len() as int));
        }
        lemma_prefix_trans(output_bindings(outs.subrange(0, k)), b, output_bindings(outs));
    }
}

/// The bindings of the first `k` members begin those of all of them.
proof fn lemma_member_prefix(ms: Seq<crate::type_analysis::MemberInfo>, k: int)
    requires
        0 <= k <= ms.len(),
    ensures
        is_prefix(member_bindings(ms.subrange(0, k)), member_bindings(ms)),
    decreases ms.len(),
{
    if k == ms.len() {
        assert(ms.subrange(0, k) =~= ms);
        assert(member_bindings(ms).subrange(0, member_bindings(ms).len() as int) =~= member_bindings(ms));
    } else {
        assert(ms.subrange(0, k) =~= ms.drop_last().subrange(0, k));
        lemma_member_prefix(ms.drop_last(), k);
        let b = member_bindings(ms.drop_last());
        assert(is_prefix(b, member_bindings(ms))) by {
            assert(b =~= member_bindings(ms).subrange(0, b.len() as int));
        }
        lemma_prefix_trans(member_bindings(ms.subrange(0, k)), b, member_bindings(ms));
    }
}

/// The locals of a scope bind each name as the first entry of `want` with that name does.
pub open spec fn locals_match(locals: Seq<(String, Ty)>, want: Seq<(Seq<char>, TyV)>) -> bool {
    forall|k: Seq<char>|
        #[trigger] first_binding(want, k) == match crate::type_analysis::scope::assoc(locals, k) {
            Some(t) => Some(t@),
            None => None::<TyV>,
        }
}

/// The stages of the bindings of a target each begin them all.
proof fn lemma_target_prefixes(info: ContractTargetInfo)
    ensures
        is_prefix(param_bindings(info.template_params@), target_bindings(info)),
        is_prefix(
            param_bindings(info.template_params@) + input_bindings(info.inputs@),
            target_bindings(info),
        ),
        is_prefix(
            param_bindings(info.template_params@) + input_bindings(info.inputs@) + output_bindings(
                info.outputs@,
            ),
            target_bindings(info),
        ),
        is_prefix(target_bindings(info), target_bindings(info)),
{
    let p = param_bindings(info.template_params@);
    let i = input_bindings(info.inputs@);
    let o = output_bindings(info.outputs@);
    let m = member_bindings(info.members@);
    assert(target_bindings(info) =~= p + i + o + m);
    assert((p + i + o + m).subrange(0, p.len() as int) =~= p);
    assert((p + i + o + m).subrange(0, (p + i).len() as int) =~= p + i);
    assert((p + i + o + m).subrange(0, (p + i + o).len() as int) =~= p + i + o);
    assert((p + i + o + m).subrange(0, (p + i + o + m).len() as int) =~= p + i + o + m);
}

/// In a scope whose locals follow `w`, the name of `x` is not bound when `w` followed by `x`
/// begins a list of distinct names.
proof fn lemma_unbound(
    locals: Seq<(String, Ty)>,
    w: Seq<(Seq<char>, TyV)>,
    x: (Seq<char>, TyV),
    stage: Seq<(Seq<char>, TyV)>,
    full: Seq<(Seq<char>, TyV)>,
)
    requires
        locals_match(locals, w),
        names_distinct(full),
        is_prefix(w.push(x), stage),
        is_prefix(stage, full),
    ensures
        crate::type_analysis::scope::assoc(locals, x.0) is None,
{
    lemma_prefix_trans(w.push(x), stage, full);
    lemma_fresh_name(w, x, full);
    assert(first_binding(w, x.0) == match crate::type_analysis::scope::assoc(locals, x.0) {
        Some(t) => Some(t@),
        None => None::<TyV>,
    });
}

/// Binding a name that is not yet bound adds it; binding one that is changes nothing: either
/// way the locals follow the list of wanted bindings with the new one at its end.
proof fn lemma_locals_step(
    locals: Seq<(String, Ty)>,
    next: Seq<(String, Ty)>,
    want: Seq<(Seq<char>, TyV)>,
    entry: (String, Ty),
)
    requires
        locals_match(locals, want),
        next == if crate::type_analysis::scope::assoc(locals, entry.0@) is Some {
            locals
        } else {
            locals.push(entry)
        },
    ensures
        locals_match(next, want.push((entry.0@, entry.1@))),
{
    let w = want.push((entry.0@, entry.1@));
    assert(w.drop_last() =~= want);
    assert forall|k: Seq<char>| #[trigger] first_binding(w, k) == match crate::type_analysis::scope::assoc(next, k) {
        Some(t) => Some(t@),
        None => None::<TyV>,
    } by {
        assert(first_binding(want, k) == match crate::type_analysis::scope::assoc(locals, k) {
            Some(t) => Some(t@),
            None => None::<TyV>,
        });
        if crate::type_analysis::scope::assoc(locals, entry.0@) is None {
            assert(next.drop_last() =~= locals);
        }
    }
}

/// Copies the information of a loop.
fn copy_loop_info(l: &LoopInfo<Ty>) -> (r: LoopInfo<Ty>)
    ensures
        crate::type_analysis::loops::label_text(r.label) == crate::type_analysis::loops::label_text(l.label),
        r.bindings@.len() == l.bindings@.len(),
        forall|i: int|
            0 <= i < l.bindings@.len() ==> #[trigger] r.bindings@[i].0 == l.bindings@[i].0
                && r.bindings@[i].1@ == l.bindings@[i].1@,
{
    let mut bindings: Vec<(LoopBinding, Ty)> = Vec::new();
    let mut i: usize = 0;
    while i < l.bindings.len()
        invariant
            i <= l.bindings@.len(),
            bindings@.len() == i,
            forall|j: int|
                0 <= j < i ==> #[trigger] bindings@[j].0 == l.bindings@[j].0 && bindings@[j].1@
                    == l.bindings@[j].1@,
        decreases l.bindings@.len() - i,
    {
        bindings.push((l.bindings[i].0, l.bindings[i].1.copy()));
        i = i + 1;
    }
    LoopInfo { label: l.label.copy(), bindings }
}

/// Pushes a scope that hides the enclosing locals and binds in it what the target makes
/// visible: template parameters (field elements when untyped), inputs as `$arg[N]` and by name,
/// outputs as `$res[N]` and by name, members, and loops by label. Each name that cannot be bound
/// adds a diagnostic. Returns the inputs of the contract's function type.
pub fn push_and_bind(
    ctx: &mut TypeInferenceCtx,
    decl: &ContractDecl<()>,
    info: &ContractTargetInfo,
    diags: &mut Diagnostics,
) -> (r: Vec<Ty>)
    requires
        old(ctx).wf(),
    ensures
        final(ctx).wf(),
        final(ctx).subst == old(ctx).subst,
        final(ctx).constraints == old(ctx).constraints,
        final(ctx).ts.prime == old(ctx).ts.prime,
        final(ctx).scope.scopes@.len() == old(ctx).scope.scopes@.len() + 1,
        final(ctx).scope.scopes@.drop_last() == old(ctx).scope.scopes@,
        final(ctx).scope.scopes@.last().local_limit,
        locals_match(final(ctx).scope.scopes@.last().locals@, target_bindings(*info)),
        forall|j: int|
            0 <= j < info.loops@.len() ==> crate::type_analysis::scope::assoc(
                final(ctx).scope.scopes@.last().loops@,
                crate::type_analysis::loops::label_text(#[trigger] info.loops@[j].label),
            ) is Some,
        tys_view(r@) == contract_inputs(*info),
        final(diags).diags@.len() >= old(diags).diags@.len(),
        final(diags).source_name == old(diags).source_name,
        final(diags).span == old(diags).span,
        names_distinct(target_bindings(*info)) && labels_distinct(info.loops@) ==> final(diags).diags@
            == old(diags).diags@,
{
    let ghost c0 = *ctx;
    let mut inputs: Vec<Ty> = Vec::new();
    match &info.self_type {
        Some(t) => inputs.push(t.copy()),
        None => {},
    }
    let ghost head = inputs@;
    proof {
        lemma_tys_view(head);
    }
    ctx.scope.push_local_limit(());
    let mut k: usize = 0;
    while k < info.template_params.len()
        invariant
            k <= info.template_params@.len(),
            ctx.wf(),
            ctx.subst == c0.subst,
            ctx.constraints == c0.constraints,
            ctx.ts.prime == c0.ts.prime,
            ctx.scope.scopes@.len() == c0.scope.scopes@.len() + 1,
            ctx.scope.scopes@.drop_last() == c0.scope.scopes@,
            ctx.scope.scopes@.last().local_limit,
            diags.diags@.len() >= old(diags).diags@.len(),
            diags.source_name == old(diags).source_name,
            diags.span == old(diags).span,
            names_distinct(target_bindings(*info)) ==> diags.diags@ == old(diags).diags@,
            ctx.scope.scopes@.last().params@.len() == 0,
            ctx.scope.scopes@.last().outputs@.len() == 0,
            ctx.scope.scopes@.last().loops@.len() == 0,
            locals_match(
                ctx.scope.scopes@.last().locals@,
                param_bindings(info.template_params@.subrange(0, k as int)),
            ),
        decreases info.template_params@.len() - k,
    {
        let p = &info.template_params[k];
        let name = ident(p.name.as_str(), decl);
        let ty = match &p.ty {
            Some(t) => t.copy(),
            None => ctx.ts.felt_type(),
        };
        let ghost before = ctx.scope.scopes@;
        let ghost entry = (name.name.name, ty);
        proof {
            if names_distinct(target_bindings(*info)) {
                let ps = info.template_params@;
                lemma_target_prefixes(*info);
                lemma_param_prefix(ps, k + 1);
                assert(ps.subrange(0, k + 1).drop_last() =~= ps.subrange(0, k as int));
                assert(param_bindings(ps.subrange(0, k + 1)) == param_bindings(ps.subrange(0, k as int)).push(
                    (entry.0@, entry.1@),
                ));
                lemma_unbound(
                    before.last().locals@,
                    param_bindings(ps.subrange(0, k as int)),
                    (entry.0@, entry.1@),
                    param_bindings(ps),
                    target_bindings(*info),
                );
            }
        }
        let bound = ctx.scope.top().bind_local(&name, ty);
        proof {
            assert(ctx.scope.scopes@.drop_last() =~= before.drop_last());
            let ps = info.template_params@;
            assert(ps.subrange(0, k + 1).drop_last() =~= ps.subrange(0, k as int));
            lemma_locals_step(
                before.last().locals@,
                ctx.scope.scopes@.last().locals@,
                param_bindings(ps.subrange(0, k as int)),
                entry,
            );
        }
        let context = concat3("while binding template parameter '", p.name.as_str(), "'");
        diags.extract_type_result(bound, context.as_str());
        k = k + 1;
    }
    proof {
        let tp = info.template_params@;
        assert(tp.subrange(0, tp.len() as int) =~= tp);
        assert(info.inputs@.subrange(0, 0) =~= Seq::<crate::type_analysis::InputInfo>::empty());
        assert(param_bindings(tp) + input_bindings(info.inputs@.subrange(0, 0)) =~= param_bindings(tp));
    }
    let mut n: usize = 0;
    while n < info.inputs.len()
        invariant
            n <= info.inputs@.len(),
            ctx.wf(),
            ctx.subst == c0.subst,
            ctx.constraints == c0.constraints,
            ctx.ts.prime == c0.ts.prime,
            ctx.scope.scopes@.len() == c0.scope.scopes@.len() + 1,
            ctx.scope.scopes@.drop_last() == c0.scope.scopes@,
            ctx.scope.scopes@.last().local_limit,
            diags.diags@.len() >= old(diags).diags@.len(),
            diags.source_name == old(diags).source_name,
            diags.span == old(diags).span,
            names_distinct(target_bindings(*info)) ==> diags.diags@ == old(diags).diags@,
            inputs@.len() == head.len() + n,
            forall|j: int| 0 <= j < head.len() ==> #[trigger] inputs@[j] == head[j],
            forall|j: int| 0 <= j < n ==> inputs@[head.len() + j]@ == #[trigger] info.inputs@[j].ty@,
            forall|j: usize| j >= n ==> crate::type_analysis::scope::assoc_num(#[trigger] ctx.scope.scopes@.last().params@, j) is None,
            ctx.scope.scopes@.last().outputs@.len() == 0,
            ctx.scope.scopes@.last().loops@.len() == 0,
            locals_match(
                ctx.scope.scopes@.last().locals@,
                param_bindings(info.template_params@) + input_bindings(info.inputs@.subrange(0, n as int)),
            ),
        decreases info.inputs@.len() - n,
    {
        let t = &info.inputs[n];
        inputs.push(t.ty.copy());
        let pname = positional("$arg[", n);
        let pident = ident(pname.as_str(), decl);
        let ghost before = ctx.scope.scopes@;
        let pty = t.ty.copy();
        let ghost entry = (pident.name.name, pty);
        let ghost pw = param_bindings(info.template_params@) + input_bindings(info.inputs@.subrange(0, n as int));
        let ghost pall = param_bindings(info.template_params@);
        let ghost jn = input_bindings(info.inputs@.subrange(0, n + 1));
        proof {
            let ins = info.inputs@;
            assert(ins.subrange(0, n + 1).drop_last() =~= ins.subrange(0, n as int));
            assert(ins.subrange(0, n + 1).last() == ins[n as int]);
            lemma_input_prefix(ins, n + 1);
            lemma_prefix_extend(jn, input_bindings(ins), pall);
            let xa = (entry.0@, entry.1@);
            let ib = input_bindings(ins.subrange(0, n as int)).push(xa);
            assert(is_prefix(ib, jn)) by {
                assert(ib =~= jn.subrange(0, ib.len() as int));
            }
            lemma_prefix_extend(ib, jn, pall);
            assert(pall + ib =~= pw.push(xa));
            lemma_prefix_trans(pw.push(xa), pall + jn, pall + input_bindings(ins));
            if names_distinct(target_bindings(*info)) {
                lemma_target_prefixes(*info);
                lemma_unbound(
                    before.last().locals@,
                    pw,
                    xa,
                    pall + input_bindings(ins),
                    target_bindings(*info),
                );
            }
        }
        let bound = ctx.scope.top().bind_parameter(&pident, pty, n);
        proof {
            assert(ctx.scope.scopes@.drop_last() =~= before.drop_last());
            lemma_locals_step(before.last().locals@, ctx.scope.scopes@.last().locals@, pw, entry);
            assert forall|j: usize| j >= n + 1 implies crate::type_analysis::scope::assoc_num(
                #[trigger] ctx.scope.scopes@.last().params@,
                j,
            ) is None by {
                let ps = ctx.scope.scopes@.last().params@;
                assert(crate::type_analysis::scope::assoc_num(before.last().params@, j) is None);
                if ps != before.last().params@ {
                    assert(ps.drop_last() =~= before.last().params@);
                }
            }
        }
        let ghost w1 = pw.push((entry.0@, entry.1@));
        let mut context = "while binding input #".to_owned();
        push_decimal(&mut context, n as u64);
        diags.extract_type_result(bound, context.as_str());
        match &t.name {
            Some(name) => {
                let nident = ident(name.as_str(), decl);
                let ghost before = ctx.scope.scopes@;
                let nty = t.ty.copy();
                let ghost entry2 = (nident.name.name, nty);
                proof {
                    let ins = info.inputs@;
                    assert(ins.subrange(0, n + 1).drop_last() =~= ins.subrange(0, n as int));
                    assert(pall + jn =~= w1.push((entry2.0@, entry2.1@)));
                    if names_distinct(target_bindings(*info)) {
                        lemma_target_prefixes(*info);
                        lemma_unbound(
                            before.last().locals@,
                            w1,
                            (entry2.0@, entry2.1@),
                            pall + input_bindings(ins),
                            target_bindings(*info),
                        );
                    }
                }
                let bound = ctx.scope.top().bind_local(&nident, nty);
                proof {
                    assert(ctx.scope.scopes@.drop_last() =~= before.drop_last());
                    lemma_locals_step(before.last().locals@, ctx.scope.scopes@.last().locals@, w1, entry2);
                    let ins = info.inputs@;
                    assert(ins.subrange(0, n + 1).drop_last() =~= ins.subrange(0, n as int));
                    assert(param_bindings(info.template_params@) + input_bindings(ins.subrange(0, n + 1))
                        =~= w1.push((entry2.0@, entry2.1@)));
                }
                let context = concat3("while binding named input '", name.as_str(), "'");
                diags.extract_type_result(bound, context.as_str());
            },
            None => {
                proof {
                    let ins = info.inputs@;
                    assert(ins.subrange(0, n + 1).drop_last() =~= ins.subrange(0, n as int));
                    assert(param_bindings(info.template_params@) + input_bindings(ins.subrange(0, n + 1))
                        =~= w1);
                }
            },
        }
        n = n + 1;
    }
    let ghost mid = inputs@;
    proof {
        let ins = info.inputs@;
        assert(ins.subrange(0, ins.len() as int) =~= ins);
        assert(info.outputs@.subrange(0, 0) =~= Seq::<crate::type_analysis::OutputInfo>::empty());
        assert(param_bindings(info.template_params@) + input_bindings(ins) + output_bindings(
            info.outputs@.subrange(0, 0),
        ) =~= param_bindings(info.template_params@) + input_bindings(ins));
        assert(ctx.scope.scopes@.last().outputs@.len() == 0);
    }
    let mut m: usize = 0;
    while m < info.outputs.len()
        invariant
            m <= info.outputs@.len(),
            ctx.wf(),
            ctx.subst == c0.subst,
            ctx.constraints == c0.constraints,
            ctx.ts.prime == c0.ts.prime,
            ctx.scope.scopes@.len() == c0.scope.scopes@.len() + 1,
            ctx.scope.scopes@.drop_last() == c0.scope.scopes@,
            ctx.scope.scopes@.last().local_limit,
            diags.diags@.len() >= old(diags).diags@.len(),
            diags.source_name == old(diags).source_name,
            diags.span == old(diags).span,
            names_distinct(target_bindings(*info)) ==> diags.diags@ == old(diags).diags@,
            inputs@.len() == mid.len() + m,
            forall|j: int| 0 <= j < mid.len() ==> #[trigger] inputs@[j] == mid[j],
            forall|j: int| 0 <= j < m ==> inputs@[mid.len() + j]@ == #[trigger] info.outputs@[j].ty@,
            mid.len() == head.len() + info.inputs@.len(),
            forall|j: int| 0 <= j < head.len() ==> #[trigger] mid[j] == head[j],
            forall|j: int|
                0 <= j < info.inputs@.len() ==> mid[head.len() + j]@ == #[trigger] info.inputs@[j].ty@,
            forall|j: usize| j >= m ==> crate::type_analysis::scope::assoc_num(#[trigger] ctx.scope.scopes@.last().outputs@, j) is None,
            ctx.scope.scopes@.last().loops@.len() == 0,
            locals_match(
                ctx.scope.scopes@.last().locals@,
                param_bindings(info.template_params@) + input_bindings(info.inputs@) + output_bindings(
                    info.outputs@.subrange(0, m as int),
                ),
            ),
        decreases info.outputs@.len() - m,
    {
        let t = &info.outputs[m];
        inputs.push(t.ty.copy());
        let pname = positional("$res[", m);
        let pident = ident(pname.as_str(), decl);
        let ghost before = ctx.scope.scopes@;
        let pty = t.ty.copy();
        let ghost entry = (pident.name.name, pty);
        let ghost pw = param_bindings(info.template_params@) + input_bindings(info.inputs@) + output_bindings(
            info.outputs@.subrange(0, m as int),
        );
        let ghost pall = param_bindings(info.template_params@) + input_bindings(info.inputs@);
        let ghost jn = output_bindings(info.outputs@.subrange(0, m + 1));
        proof {
            let outs = info.outputs@;
            assert(outs.subrange(0, m + 1).drop_last() =~= outs.subrange(0, m as int));
            assert(outs.subrange(0, m + 1).last() == outs[m as int]);
            lemma_output_prefix(outs, m + 1);
            lemma_prefix_extend(jn, output_bindings(outs), pall);
            let xa = (entry.0@, entry.1@);
            let ib = output_bindings(outs.subrange(0, m as int)).push(xa);
            assert(is_prefix(ib, jn)) by {
                assert(ib =~= jn.subrange(0, ib.len() as int));
            }
            lemma_prefix_extend(ib, jn, pall);
            assert(pall + ib =~= pw.push(xa));
            lemma_prefix_trans(pw.push(xa), pall + jn, pall + output_bindings(outs));
            if names_distinct(target_bindings(*info)) {
                lemma_target_prefixes(*info);
                lemma_unbound(
                    before.last().locals@,
                    pw,
                    xa,
                    pall + output_bindings(outs),
                    target_bindings(*info),
                );
            }
        }
        let bound = ctx.scope.top().bind_output(&pident, pty, m);
        proof {
            assert(ctx.scope.scopes@.drop_last() =~= before.drop_last());
            lemma_locals_step(before.last().locals@, ctx.scope.scopes@.last().locals@, pw, entry);
            assert forall|j: usize| j >= m + 1 implies crate::type_analysis::scope::assoc_num(
                #[trigger] ctx.scope.scopes@.last().outputs@,
                j,
            ) is None by {
                let ps = ctx.scope.scopes@.last().outputs@;
                assert(crate::type_analysis::scope::assoc_num(before.last().outputs@, j) is None);
                if ps != before.last().outputs@ {
                    assert(ps.drop_last() =~= before.last().outputs@);
                }
            }
        }
        let ghost w1 = pw.push((entry.0@, entry.1@));
        let mut context = "while binding output #".to_owned();
        push_decimal(&mut context, m as u64);
        diags.extract_type_result(bound, context.as_str());
        match &t.name {
            Some(name) => {
                let nident = ident(name.as_str(), decl);
                let ghost before = ctx.scope.scopes@;
                let nty = t.ty.copy();
                let ghost entry2 = (nident.name.name, nty);
                proof {
                    let outs = info.outputs@;
                    assert(outs.subrange(0, m + 1).drop_last() =~= outs.subrange(0, m as int));
                    assert(pall + jn =~= w1.push((entry2.0@, entry2.1@)));
                    if names_distinct(target_bindings(*info)) {
                        lemma_target_prefixes(*info);
                        lemma_unbound(
                            before.last().locals@,
                            w1,
                            (entry2.0@, entry2.1@),
                            pall + output_bindings(outs),
                            target_bindings(*info),
                        );
                    }
                }
                let bound = ctx.scope.top().bind_local(&nident, nty);
                proof {
                    assert(ctx.scope.scopes@.drop_last() =~= before.drop_last());
                    lemma_locals_step(before.last().locals@, ctx.scope.scopes@.last().locals@, w1, entry2);
                    let outs = info.outputs@;
                    assert(outs.subrange(0, m + 1).drop_last() =~= outs.subrange(0, m as int));
                    assert(param_bindings(info.template_params@) + input_bindings(info.inputs@)
                        + output_bindings(outs.subrange(0, m + 1)) =~= w1.push((entry2.0@, entry2.1@)));
                }
                let context = concat3("while binding named output '", name.as_str(), "'");
                diags.extract_type_result(bound, context.as_str());
            },
            None => {
                proof {
                    let outs = info.outputs@;
                    assert(outs.subrange(0, m + 1).drop_last() =~= outs.subrange(0, m as int));
                    assert(param_bindings(info.template_params@) + input_bindings(info.inputs@)
                        + output_bindings(outs.subrange(0, m + 1)) =~= w1);
                }
            },
        }
        m = m + 1;
    }
    proof {
        lemma_tys_view(inputs@);
        let ins = info.inputs@.map_values(|i: crate::type_analysis::InputInfo| i.ty@);
        let outs = info.outputs@.map_values(|o: crate::type_analysis::OutputInfo| o.ty@);
        let hv = contract_inputs(*info).subrange(0, head.len() as int);
        assert(hv =~= match info.self_type {
            Some(t) => seq![t@],
            None => Seq::<TyV>::empty(),
        });
        assert(hv.len() == head.len());
        assert forall|j: int| 0 <= j < inputs@.len() implies #[trigger] tys_view(inputs@)[j] == (
        hv + ins + outs)[j] by {
            if j < head.len() {
                assert(inputs@[j] == mid[j]);
                assert(mid[j] == head[j]);
            } else if j < mid.len() {
                assert(inputs@[j] == mid[j]);
                assert(mid[head.len() + (j - head.len())]@ == info.inputs@[j - head.len()].ty@);
            } else {
                assert(inputs@[mid.len() + (j - mid.len())]@ == info.outputs@[j - mid.len()].ty@);
            }
        }
        assert(tys_view(inputs@) =~= hv + ins + outs);
    }
    proof {
        let outs = info.outputs@;
        assert(outs.subrange(0, outs.len() as int) =~= outs);
        assert(info.members@.subrange(0, 0) =~= Seq::<crate::type_analysis::MemberInfo>::empty());
        assert(param_bindings(info.template_params@) + input_bindings(info.inputs@) + output_bindings(outs)
            + member_bindings(info.members@.subrange(0, 0)) =~= param_bindings(info.template_params@)
            + input_bindings(info.inputs@) + output_bindings(outs));
    }
    let mut q: usize = 0;
    while q < info.members.len()
        invariant
            q <= info.members@.len(),
            tys_view(inputs@) == contract_inputs(*info),
            ctx.wf(),
            ctx.subst == c0.subst,
            ctx.constraints == c0.constraints,
            ctx.ts.prime == c0.ts.prime,
            ctx.scope.scopes@.len() == c0.scope.scopes@.len() + 1,
            ctx.scope.scopes@.drop_last() == c0.scope.scopes@,
            ctx.scope.scopes@.last().local_limit,
            diags.diags@.len() >= old(diags).diags@.len(),
            diags.source_name == old(diags).source_name,
            diags.span == old(diags).span,
            names_distinct(target_bindings(*info)) ==> diags.diags@ == old(diags).diags@,
            locals_match(
                ctx.scope.scopes@.last().locals@,
                param_bindings(info.template_params@) + input_bindings(info.inputs@) + output_bindings(
                    info.outputs@,
                ) + member_bindings(info.members@.subrange(0, q as int)),
            ),
            ctx.scope.scopes@.last().loops@.len() == 0,
        decreases info.members@.len() - q,
    {
        let mem = &info.members[q];
        let name = ident(mem.name.as_str(), decl);
        let ghost before = ctx.scope.scopes@;
        let mty = mem.ty.copy();
        let ghost entry = (name.name.name, mty);
        proof {
            if names_distinct(target_bindings(*info)) {
                let ms = info.members@;
                let pall = param_bindings(info.template_params@) + input_bindings(info.inputs@)
                    + output_bindings(info.outputs@);
                let jn = member_bindings(ms.subrange(0, q + 1));
                assert(ms.subrange(0, q + 1).drop_last() =~= ms.subrange(0, q as int));
                lemma_member_prefix(ms, q + 1);
                lemma_prefix_extend(jn, member_bindings(ms), pall);
                assert(pall + jn =~= (pall + member_bindings(ms.subrange(0, q as int))).push(
                    (entry.0@, entry.1@),
                ));
                lemma_target_prefixes(*info);
                assert(pall + member_bindings(ms) =~= target_bindings(*info));
                assert((pall + jn).subrange(0, (pall + jn).len() as int) =~= pall + jn);
                lemma_unbound(
                    before.last().locals@,
                    pall + member_bindings(ms.subrange(0, q as int)),
                    (entry.0@, entry.1@),
                    pall + jn,
                    target_bindings(*info),
                );
            }
        }
        let bound = ctx.scope.top().bind_local(&name, mty);
        proof {
            assert(ctx.scope.scopes@.drop_last() =~= before.drop_last());
            let ms = info.members@;
            let pw = param_bindings(info.template_params@) + input_bindings(info.inputs@) + output_bindings(
                info.outputs@,
            ) + member_bindings(ms.subrange(0, q as int));
            lemma_locals_step(before.last().locals@, ctx.scope.scopes@.last().locals@, pw, entry);
            assert(ms.subrange(0, q + 1).drop_last() =~= ms.subrange(0, q as int));
            assert(param_bindings(info.template_params@) + input_bindings(info.inputs@) + output_bindings(
                info.outputs@,
            ) + member_bindings(ms.subrange(0, q + 1)) =~= pw.push((entry.0@, entry.1@)));
        }
        let context = concat3("while binding struct member '", mem.name.as_str(), "'");
        diags.extract_type_result(bound, context.as_str());
        q = q + 1;
    }
    proof {
        let ms = info.members@;
        assert(ms.subrange(0, ms.len() as int) =~= ms);
    }
    let mut l: usize = 0;
    while l < info.loops.len()
        invariant
            l <= info.loops@.len(),
            tys_view(inputs@) == contract_inputs(*info),
            ctx.wf(),
            ctx.subst == c0.subst,
            ctx.constraints == c0.constraints,
            ctx.ts.prime == c0.ts.prime,
            ctx.scope.scopes@.len() == c0.scope.scopes@.len() + 1,
            ctx.scope.scopes@.drop_last() == c0.scope.scopes@,
            ctx.scope.scopes@.last().local_limit,
            diags.diags@.len() >= old(diags).diags@.len(),
            diags.source_name == old(diags).source_name,
            diags.span == old(diags).span,
            names_distinct(target_bindings(*info)) && labels_distinct(info.loops@) ==> diags.diags@
                == old(diags).diags@,
            locals_match(ctx.scope.scopes@.last().locals@, target_bindings(*info)),
            forall|k: Seq<char>|
                crate::type_analysis::scope::assoc(ctx.scope.scopes@.last().loops@, k) is Some ==> exists|j: int|
                    0 <= j < l && #[trigger] crate::type_analysis::loops::label_text(info.loops@[j].label)
                        == k,
            forall|j: int|
                0 <= j < l ==> crate::type_analysis::scope::assoc(
                    ctx.scope.scopes@.last().loops@,
                    crate::type_analysis::loops::label_text(#[trigger] info.loops@[j].label),
                ) is Some,
        decreases info.loops@.len() - l,
    {
        let li = &info.loops[l];
        let label = li.label.text();
        let name = Identifier::new(Symbol::from_str(label.as_str()), crate::ast::Span::zero());
        let ghost before = ctx.scope.scopes@;
        proof {
            if labels_distinct(info.loops@) {
                let k = crate::type_analysis::loops::label_text(info.loops@[l as int].label);
                if crate::type_analysis::scope::assoc(before.last().loops@, k) is Some {
                    let j = choose|j: int|
                        0 <= j < l && #[trigger] crate::type_analysis::loops::label_text(info.loops@[j].label)
                            == k;
                    assert(crate::type_analysis::loops::label_text(info.loops@[j].label)
                        != crate::type_analysis::loops::label_text(info.loops@[l as int].label));
                }
            }
        }
        let bound = ctx.scope.top().bind_loop(&name, copy_loop_info(li));
        proof {
            assert(ctx.scope.scopes@.drop_last() =~= before.drop_last());
            let lo = before.last().loops@;
            let ln = ctx.scope.scopes@.last().loops@;
            if ln != lo {
                assert(ln.drop_last() =~= lo);
            }
            assert forall|k: Seq<char>| crate::type_analysis::scope::assoc(ln, k) is Some implies exists|j: int|
                0 <= j < l + 1 && #[trigger] crate::type_analysis::loops::label_text(info.loops@[j].label)
                    == k by {
                if crate::type_analysis::scope::assoc(lo, k) is Some {
                    let j = choose|j: int|
                        0 <= j < l && #[trigger] crate::type_analysis::loops::label_text(info.loops@[j].label)
                            == k;
                    assert(0 <= j < l + 1);
                } else {
                    assert(crate::type_analysis::loops::label_text(info.loops@[l as int].label) == k);
                }
            }
            assert forall|j: int| 0 <= j < l + 1 implies crate::type_analysis::scope::assoc(
                ln,
                crate::type_analysis::loops::label_text(#[trigger] info.loops@[j].label),
            ) is Some by {
                if j < l {
                    let k = crate::type_analysis::loops::label_text(info.loops@[j].label);
                    assert(crate::type_analysis::scope::assoc(lo, k) is Some);
                }
            }
        }
        let context = concat3("while binding loop '", label.as_str(), "'");
        diags.extract_type_result(bound, context.as_str());
        l = l + 1;
    }
    inputs
}

/// A contract that needs no name and no inference: its target binds no name twice and no loop
/// label twice, and each statement of its body is a [`literal_stmt`] of a contract's body.
pub open spec fn literal_contract(decl: ContractDecl<()>, t: ContractTargetInfo) -> bool {
    &&& names_distinct(target_bindings(t))
    &&& labels_distinct(t.loops@)
    &&& forall|i: int|
        0 <= i < decl.body.statements@.len() ==> literal_stmt(
            #[trigger] decl.body.statements@[i],
            contract_block_cfg(),
        )
}

/// The names a contract's body sees as booleans or field elements: the first binding of each
/// name of the target, when its type is one of these.
pub open spec fn target_names(t: ContractTargetInfo) -> spec_fn(Seq<char>) -> Option<TyV> {
    |k: Seq<char>|
        match first_binding(target_bindings(t), k) {
            Some(v) => if v == TyV::Bool || v == TyV::Felt {
                Some(v)
            } else {
                None
            },
            None => None,
        }
}

/// A contract that needs no inference: its target binds no name twice and no loop label twice,
/// and each statement of its body is known (see [`known_stmt_in`]) over the names of the target
/// that are booleans or field elements.
pub open spec fn known_contract(decl: ContractDecl<()>, t: ContractTargetInfo) -> bool {
    &&& names_distinct(target_bindings(t))
    &&& labels_distinct(t.loops@)
    &&& forall|i: int|
        0 <= i < decl.body.statements@.len() ==> known_stmt_in(
            #[trigger] decl.body.statements@[i],
            contract_block_cfg(),
            target_names(t),
        )
}

/// Checks a contract declaration: its target must be one of the circuit's; the body is
/// checked in the scope [`push_and_bind`] opens. The contract's type is a function from
/// [`contract_inputs`] to nothing. A contract that needs no inference ([`literal_contract`],
/// [`known_contract`]) is accepted; an unknown target is the one diagnostic.
pub fn check_contract(
    ctx: &mut TypeInferenceCtx,
    info: &CircuitInfo,
    source_name: &str,
    decl: &ContractDecl<()>,
) -> (r: TypingResult<ContractDecl<Ty>>)
    requires
        old(ctx).wf(),
        old(ctx).constraints@.len() == 0,
    ensures
        stmt_ctx(*old(ctx), *final(ctx)),
        match r {
            Ok(d) => contract_shape(d, *decl) && block_typed(d.body, smap(final(ctx).subst@)) && (target_lookup(
                info.targets@,
                decl.target.name.name@,
            ) matches Some(t) && d.target.meta@ == TyV::Func(contract_inputs(t), Seq::empty())),
            Err(ds) => ds@.len() > 0,
        },
        match target_lookup(info.targets@, decl.target.name.name@) {
            Some(t) => literal_contract(*decl, t) || known_contract(*decl, t) ==> r is Ok,
            None => r matches Err(ds) && ds@.len() == 1 && is_diag(
                ds@[0],
                source_name@,
                "in contract declaration: "@ + crate::ir::llzk::error::error_message(
                    crate::ir::llzk::error::Error::ContractTargetNotFound(decl.target.name.name),
                ),
                Some(decl.span),
            ),
        },
{
    let ghost c0 = *ctx;
    proof {
        lemma_step_refl(c0);
    }
    let mut diags = Diagnostics::new(source_name, decl.span);
    let target = match info.find_contract_target(&decl.target) {
        Ok(t) => t,
        Err(e) => {
            let m = e.message();
            let msg = crate::text::concat2("in contract declaration: ", m.as_str());
            let mut d = diags;
            d.add(msg);
            proof {
                assert(d.diags@[0] == d.diags@.last());
            }
            return Err(d.diags);
        },
    };
    let inputs = push_and_bind(ctx, decl, target, &mut diags);
    proof {
        if known_contract(*decl, *target) {
            let cb = *ctx;
            let n1 = target_names(*target);
            let n2 = |k: Seq<char>| crate::type_analysis::expression::local_ty(cb, k);
            assert forall|k: Seq<char>| (#[trigger] n1(k) == Some(TyV::Bool) || n1(k) == Some(TyV::Felt))
                implies n2(k) == n1(k) by {
                let top = cb.scope.scopes@.last();
                assert(first_binding(target_bindings(*target), k) == match crate::type_analysis::scope::assoc(
                    top.locals@,
                    k,
                ) {
                    Some(t) => Some(t@),
                    None => None::<TyV>,
                });
                assert(cb.scope.scopes@.len() > 0);
            }
            assert forall|i: int| 0 <= i < decl.body.statements@.len() implies crate::type_analysis::block::known_stmt(
                #[trigger] decl.body.statements@[i],
                contract_block_cfg(),
                cb,
            ) by {
                crate::type_analysis::block::lemma_known_stmt_mono(
                    decl.body.statements@[i],
                    contract_block_cfg(),
                    n1,
                    n2,
                );
            }
        }
    }
    let body = diags.extract_result(check_block(ctx, source_name, contract_cfg(), &decl.body));
    ctx.scope.pop();
    if diags.is_empty() {
        match body {
            Some(body) => {
                let empty: Vec<Ty> = Vec::new();
                let t = ctx.ts.func_type(&inputs, &empty);
                proof {
                    lemma_tys_view(empty@);
                    assert(tys_view(empty@) =~= Seq::<TyV>::empty());
                }
                Ok(ContractDecl::new(decl.target.with_meta(Ty::Func(t)), body, decl.span))
            },
            None => Err(diags.diags),
        }
    } else {
        Err(diags.diags)
    }
}

} // verus!
