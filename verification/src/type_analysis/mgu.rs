//! What makes the unifier complete: where some substitution equates both sides of each
//! constraint, the one that unification builds is at least as general.
//!
//! The unifier binds variables, looks through function types, and asks any other types to match
//! as they stand. It is complete for types whose variables stand outside arrays and records
//! ([`shallow`] types): an array type holding a variable is compared as it stands, so
//! `[v] ~ [!felt.type]` fails although binding `v` would solve it.
use vstd::prelude::*;
use crate::type_analysis::subst::{
    compose, lemma_compose, lemma_subst_resolved, lemma_subst_resolved_members, lemma_tys, occurs,
    occurs_members, occurs_tys, refines, single, subst_members, subst_ty, subst_tys, ty_size,
    tys_size,
};
use crate::types::{MemberV, TyV};

verus! {

/// `t` holds type variables only at its top or among the inputs and outputs of function types,
/// never inside an array or a record.
pub open spec fn shallow(t: TyV) -> bool
    decreases t,
{
    match t {
        TyV::Func(ins, outs) => shallow_tys(ins) && shallow_tys(outs),
        TyV::Array(e, _) => forall|x: u64| !#[trigger] occurs(x, *e),
        TyV::Record(_, _, ms) => forall|x: u64| !#[trigger] occurs_members(x, ms),
        _ => true,
    }
}

/// [`shallow`] for each type of a sequence.
pub open spec fn shallow_tys(ts: Seq<TyV>) -> bool
    decreases ts,
{
    if ts.len() == 0 {
        true
    } else {
        shallow(ts[0]) && shallow_tys(ts.subrange(1, ts.len() as int))
    }
}

/// Every type that `s` binds is [`shallow`].
pub open spec fn values_shallow(s: Map<u64, TyV>) -> bool {
    forall|k: u64| s.contains_key(k) ==> shallow(#[trigger] s[k])
}

/// [`shallow_tys`] entry by entry.
pub proof fn lemma_shallow_tys(ts: Seq<TyV>)
    ensures
        shallow_tys(ts) <==> forall|i: int| 0 <= i < ts.len() ==> #[trigger] shallow(ts[i]),
    decreases ts.len(),
{
    if ts.len() > 0 {
        let rest = ts.subrange(1, ts.len() as int);
        lemma_shallow_tys(rest);
        if forall|i: int| 0 <= i < ts.len() ==> #[trigger] shallow(ts[i]) {
            assert forall|i: int| 0 <= i < rest.len() implies #[trigger] shallow(rest[i]) by {
                assert(rest[i] == ts[i + 1]);
            }
            assert(shallow(ts[0]));
            assert(shallow_tys(ts));
        }
        if shallow_tys(ts) {
            assert forall|i: int| 0 <= i < ts.len() implies #[trigger] shallow(ts[i]) by {
                if i > 0 {
                    assert(rest[i - 1] == ts[i]);
                }
            }
        }
    }
}

/// Substituting shallow types into a shallow type leaves it shallow.
pub proof fn lemma_subst_shallow(t: TyV, s: Map<u64, TyV>)
    requires
        shallow(t),
        values_shallow(s),
    ensures
        shallow(subst_ty(t, s)),
    decreases t,
{
    match t {
        TyV::Var(id) => {
            if s.contains_key(id) {
                assert(shallow(s[id]));
            }
        },
        TyV::Func(ins, outs) => {
            lemma_subst_shallow_tys(ins, s);
            lemma_subst_shallow_tys(outs, s);
        },
        TyV::Array(e, _) => {
            lemma_subst_resolved(*e, s);
        },
        TyV::Record(_, _, ms) => {
            lemma_subst_resolved_members(ms, s);
        },
        _ => {},
    }
}

/// [`lemma_subst_shallow`] on sequences of types.
pub proof fn lemma_subst_shallow_tys(ts: Seq<TyV>, s: Map<u64, TyV>)
    requires
        shallow_tys(ts),
        values_shallow(s),
    ensures
        shallow_tys(subst_tys(ts, s)),
    decreases ts,
{
    if ts.len() > 0 {
        let rest = ts.subrange(1, ts.len() as int);
        lemma_subst_shallow(ts[0], s);
        lemma_subst_shallow_tys(rest, s);
        let r = subst_tys(ts, s);
        assert(r.subrange(1, r.len() as int) =~= subst_tys(rest, s));
    }
}

/// A shallow type that strictly contains a variable is larger, under any substitution, than
/// the variable.
pub proof fn lemma_occurs_grows(id: u64, t: TyV, s: Map<u64, TyV>)
    requires
        shallow(t),
        occurs(id, t),
        t != TyV::Var(id),
    ensures
        ty_size(subst_ty(t, s)) > ty_size(subst_ty(TyV::Var(id), s)),
    decreases t,
{
    match t {
        TyV::Func(ins, outs) => {
            if occurs_tys(id, ins) {
                lemma_occurs_grows_tys(id, ins, s);
            } else {
                lemma_occurs_grows_tys(id, outs, s);
            }
        },
        TyV::Array(e, _) => {
            assert(!occurs(id, *e));
        },
        TyV::Record(_, _, ms) => {
            assert(!occurs_members(id, ms));
        },
        _ => {},
    }
}

/// [`lemma_occurs_grows`] on sequences of types: the sequence is at least as large as the
/// variable.
pub proof fn lemma_occurs_grows_tys(id: u64, ts: Seq<TyV>, s: Map<u64, TyV>)
    requires
        shallow_tys(ts),
        occurs_tys(id, ts),
    ensures
        tys_size(subst_tys(ts, s)) >= ty_size(subst_ty(TyV::Var(id), s)),
    decreases ts,
{
    let rest = ts.subrange(1, ts.len() as int);
    let r = subst_tys(ts, s);
    assert(r.subrange(1, r.len() as int) =~= subst_tys(rest, s));
    assert(r[0] == subst_ty(ts[0], s));
    if occurs(id, ts[0]) {
        if ts[0] != TyV::Var(id) {
            lemma_occurs_grows(id, ts[0], s);
        }
    } else {
        lemma_occurs_grows_tys(id, rest, s);
    }
}

/// Where `s2` gives `id` and `v` the same value, binding `id` to `v` first changes nothing.
pub proof fn lemma_single_agree(u: TyV, id: u64, v: TyV, s2: Map<u64, TyV>)
    requires
        subst_ty(TyV::Var(id), s2) == subst_ty(v, s2),
    ensures
        subst_ty(subst_ty(u, single(id, v)), s2) == subst_ty(u, s2),
    decreases u,
{
    match u {
        TyV::Var(x) => {
            if x == id {
                assert(subst_ty(u, single(id, v)) == v);
            } else {
                assert(subst_ty(u, single(id, v)) == u);
            }
        },
        TyV::Func(ins, outs) => {
            lemma_single_agree_tys(ins, id, v, s2);
            lemma_single_agree_tys(outs, id, v, s2);
        },
        TyV::Array(e, _) => {
            lemma_single_agree(*e, id, v, s2);
        },
        TyV::Record(_, _, ms) => {
            lemma_single_agree_members(ms, id, v, s2);
        },
        _ => {},
    }
}

/// [`lemma_single_agree`] on sequences of types.
pub proof fn lemma_single_agree_tys(ts: Seq<TyV>, id: u64, v: TyV, s2: Map<u64, TyV>)
    requires
        subst_ty(TyV::Var(id), s2) == subst_ty(v, s2),
    ensures
        subst_tys(subst_tys(ts, single(id, v)), s2) == subst_tys(ts, s2),
    decreases ts,
{
    if ts.len() > 0 {
        let rest = ts.subrange(1, ts.len() as int);
        lemma_single_agree(ts[0], id, v, s2);
        lemma_single_agree_tys(rest, id, v, s2);
        let r = subst_tys(ts, single(id, v));
        assert(r.subrange(1, r.len() as int) =~= subst_tys(rest, single(id, v)));
        assert(subst_tys(r, s2) =~= subst_tys(ts, s2));
    }
}

/// [`lemma_single_agree`] on sequences of members.
pub proof fn lemma_single_agree_members(ms: Seq<MemberV>, id: u64, v: TyV, s2: Map<u64, TyV>)
    requires
        subst_ty(TyV::Var(id), s2) == subst_ty(v, s2),
    ensures
        subst_members(subst_members(ms, single(id, v)), s2) == subst_members(ms, s2),
    decreases ms,
{
    if ms.len() > 0 {
        let rest = ms.subrange(1, ms.len() as int);
        lemma_single_agree(ms[0].ty, id, v, s2);
        lemma_single_agree_members(rest, id, v, s2);
        let r = subst_members(ms, single(id, v));
        assert(r.subrange(1, r.len() as int) =~= subst_members(rest, single(id, v)));
        assert(subst_members(r, s2) =~= subst_members(ms, s2));
    }
}

/// A substitution that refines `s` and gives `id` and `v` the same value refines `s` followed by
/// the binding of `id` to `v`.
pub proof fn lemma_refines_compose(s2: Map<u64, TyV>, s: Map<u64, TyV>, id: u64, v: TyV)
    requires
        refines(s2, s),
        !s.contains_key(id),
        subst_ty(TyV::Var(id), s2) == subst_ty(v, s2),
    ensures
        refines(s2, compose(s, id, v)),
{
    assert forall|t: TyV| subst_ty(t, s2) == #[trigger] subst_ty(subst_ty(t, compose(s, id, v)), s2) by {
        lemma_compose(t, s, id, v);
        lemma_single_agree(subst_ty(t, s), id, v, s2);
    }
}

/// Binding `id` to a shallow type keeps the bound types shallow.
pub proof fn lemma_compose_shallow(s: Map<u64, TyV>, id: u64, v: TyV)
    requires
        values_shallow(s),
        shallow(v),
    ensures
        values_shallow(compose(s, id, v)),
{
    let c = compose(s, id, v);
    assert forall|k: u64| c.contains_key(k) implies shallow(#[trigger] c[k]) by {
        if k != id {
            assert(shallow(s[k]));
            assert(values_shallow(single(id, v)));
            lemma_subst_shallow(s[k], single(id, v));
        }
    }
}

/// A shallow type that is neither a variable nor a function type has no variable to replace.
pub proof fn lemma_shallow_fixed(t: TyV, s: Map<u64, TyV>)
    requires
        shallow(t),
        !(t is Var),
        !(t is Func),
    ensures
        subst_ty(t, s) == t,
{
    match t {
        TyV::Array(e, _) => {
            lemma_subst_resolved(*e, s);
        },
        TyV::Record(_, _, ms) => {
            lemma_subst_resolved_members(ms, s);
        },
        _ => {},
    }
}

/// A type without variables is shallow.
pub proof fn lemma_ground_shallow(t: TyV)
    requires
        forall|x: u64| !#[trigger] occurs(x, t),
    ensures
        shallow(t),
    decreases t,
{
    match t {
        TyV::Func(ins, outs) => {
            assert forall|x: u64| !#[trigger] occurs_tys(x, ins) by {
                assert(!occurs(x, t));
            }
            assert forall|x: u64| !#[trigger] occurs_tys(x, outs) by {
                assert(!occurs(x, t));
            }
            lemma_ground_shallow_tys(ins);
            lemma_ground_shallow_tys(outs);
        },
        TyV::Array(e, _) => {
            assert forall|x: u64| !#[trigger] occurs(x, *e) by {
                assert(!occurs(x, t));
            }
        },
        TyV::Record(_, _, ms) => {
            assert forall|x: u64| !#[trigger] occurs_members(x, ms) by {
                assert(!occurs(x, t));
            }
        },
        _ => {},
    }
}

/// [`lemma_ground_shallow`] on sequences of types.
pub proof fn lemma_ground_shallow_tys(ts: Seq<TyV>)
    requires
        forall|x: u64| !#[trigger] occurs_tys(x, ts),
    ensures
        shallow_tys(ts),
    decreases ts,
{
    if ts.len() > 0 {
        let rest = ts.subrange(1, ts.len() as int);
        assert forall|x: u64| !#[trigger] occurs(x, ts[0]) by {
            assert(!occurs_tys(x, ts));
        }
        assert forall|x: u64| !#[trigger] occurs_tys(x, rest) by {
            assert(!occurs_tys(x, ts));
        }
        lemma_ground_shallow(ts[0]);
        lemma_ground_shallow_tys(rest);
    }
}

/// The `j`-th constraint of `q` is one that unification solves whenever it can, under `s`: an
/// equality between shallow types, or a shallow array constraint whose first side every
/// solution of the constraints before it makes an array type.
pub open spec fn admissible(q: Seq<crate::type_analysis::ctx::Constraint>, j: int, s: Map<u64, TyV>) -> bool {
    match q[j] {
        crate::type_analysis::ctx::Constraint::Eq { lhs, rhs } => shallow(subst_ty(lhs@, s)) && shallow(
            subst_ty(rhs@, s),
        ),
        crate::type_analysis::ctx::Constraint::Array { arr, elt } => shallow(subst_ty(arr@, s)) && shallow(
            subst_ty(elt@, s),
        ) && forall|s3: Map<u64, TyV>|
            #[trigger] refines(s3, s) && crate::type_analysis::ctx::queue_ok(q.subrange(0, j), s3)
                ==> subst_ty(arr@, s3) is Array,
        crate::type_analysis::ctx::Constraint::Member { .. } => false,
    }
}

/// `s` solves the array constraint `arr ~array of~ elt` exactly: `arr` becomes an array type
/// whose element type is `elt`.
pub open spec fn array_equated(arr: TyV, elt: TyV, s: Map<u64, TyV>) -> bool {
    match subst_ty(arr, s) {
        TyV::Array(e, d) => crate::type_analysis::ctx::inner_ty(*e, d) == subst_ty(elt, s),
        _ => false,
    }
}

/// `s` solves the constraint `c` exactly: the two sides of an equality become the same type,
/// and an array constraint is [`array_equated`].
pub open spec fn equated(c: crate::type_analysis::ctx::Constraint, s: Map<u64, TyV>) -> bool {
    match c {
        crate::type_analysis::ctx::Constraint::Eq { lhs, rhs } => subst_ty(lhs@, s) == subst_ty(rhs@, s),
        crate::type_analysis::ctx::Constraint::Array { arr, elt } => array_equated(arr@, elt@, s),
        _ => false,
    }
}

} // verus!
