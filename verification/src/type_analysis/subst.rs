//! Substitutions of type variables and the facts unification relies on.
//!
//! A substitution maps type variable ids to types. The inference context keeps its substitution
//! idempotent: no type in its range mentions a variable of its domain, so applying it once gives
//! the most concrete type available.
use vstd::prelude::*;
use crate::types::{DimV, MemberV, RecordKind, TyV};

verus! {

/// Replaces every variable of `t` bound by `s` with its binding.
pub open spec fn subst_ty(t: TyV, s: Map<u64, TyV>) -> TyV
    decreases t,
{
    match t {
        TyV::Var(id) => if s.contains_key(id) {
            s[id]
        } else {
            TyV::Var(id)
        },
        TyV::Func(ins, outs) => TyV::Func(subst_tys(ins, s), subst_tys(outs, s)),
        TyV::Array(e, d) => TyV::Array(Box::new(subst_ty(*e, s)), d),
        TyV::Record(k, n, ms) => TyV::Record(k, n, subst_members(ms, s)),
        _ => t,
    }
}

/// [`subst_ty`] on each type of a sequence.
pub open spec fn subst_tys(ts: Seq<TyV>, s: Map<u64, TyV>) -> Seq<TyV>
    decreases ts,
{
    if ts.len() == 0 {
        Seq::empty()
    } else {
        seq![subst_ty(ts[0], s)] + subst_tys(ts.subrange(1, ts.len() as int), s)
    }
}

/// [`subst_ty`] on the type of each member of a sequence.
pub open spec fn subst_members(ms: Seq<MemberV>, s: Map<u64, TyV>) -> Seq<MemberV>
    decreases ms,
{
    if ms.len() == 0 {
        Seq::empty()
    } else {
        seq![MemberV { name: ms[0].name, ty: subst_ty(ms[0].ty, s) }] + subst_members(
            ms.subrange(1, ms.len() as int),
            s,
        )
    }
}

/// Whether the variable `x` occurs in `t`.
pub open spec fn occurs(x: u64, t: TyV) -> bool
    decreases t,
{
    match t {
        TyV::Var(id) => id == x,
        TyV::Func(ins, outs) => occurs_tys(x, ins) || occurs_tys(x, outs),
        TyV::Array(e, _) => occurs(x, *e),
        TyV::Record(_, _, ms) => occurs_members(x, ms),
        _ => false,
    }
}

/// Whether the variable `x` occurs in some type of the sequence.
pub open spec fn occurs_tys(x: u64, ts: Seq<TyV>) -> bool
    decreases ts,
{
    if ts.len() == 0 {
        false
    } else {
        occurs(x, ts[0]) || occurs_tys(x, ts.subrange(1, ts.len() as int))
    }
}

/// Whether the variable `x` occurs in the type of some member of the sequence.
pub open spec fn occurs_members(x: u64, ms: Seq<MemberV>) -> bool
    decreases ms,
{
    if ms.len() == 0 {
        false
    } else {
        occurs(x, ms[0].ty) || occurs_members(x, ms.subrange(1, ms.len() as int))
    }
}

/// Number of nodes of a type.
pub open spec fn ty_size(t: TyV) -> nat
    decreases t,
{
    match t {
        TyV::Func(ins, outs) => 1 + tys_size(ins) + tys_size(outs),
        TyV::Array(e, _) => 1 + ty_size(*e),
        TyV::Record(_, _, ms) => 1 + members_size(ms),
        _ => 1,
    }
}

/// Total number of nodes of a sequence of types.
pub open spec fn tys_size(ts: Seq<TyV>) -> nat
    decreases ts,
{
    if ts.len() == 0 {
        0
    } else {
        ty_size(ts[0]) + tys_size(ts.subrange(1, ts.len() as int))
    }
}

/// Total number of nodes of the types of a sequence of members.
pub open spec fn members_size(ms: Seq<MemberV>) -> nat
    decreases ms,
{
    if ms.len() == 0 {
        0
    } else {
        ty_size(ms[0].ty) + members_size(ms.subrange(1, ms.len() as int))
    }
}

/// No type in the range of `s` mentions a variable of its domain.
pub open spec fn idempotent(s: Map<u64, TyV>) -> bool {
    forall|k: u64, x: u64| s.contains_key(k) && s.contains_key(x) ==> !#[trigger] occurs(x, s[k])
}

/// `t` mentions no variable of the domain of `s`.
pub open spec fn resolved(t: TyV, s: Map<u64, TyV>) -> bool {
    forall|x: u64| #[trigger] occurs(x, t) ==> !s.contains_key(x)
}

/// The substitution that binds `id` alone.
pub open spec fn single(id: u64, u: TyV) -> Map<u64, TyV> {
    Map::empty().insert(id, u)
}

/// `s` followed by the binding of `id` to `u`: the previous bindings see `id` replaced by `u`.
pub open spec fn compose(s: Map<u64, TyV>, id: u64, u: TyV) -> Map<u64, TyV> {
    s.map_values(|v: TyV| subst_ty(v, single(id, u))).insert(id, u)
}

/// Applying `s2` gives what applying `s1` and then `s2` gives: `s2` keeps every decision of
/// `s1`.
pub open spec fn refines(s2: Map<u64, TyV>, s1: Map<u64, TyV>) -> bool {
    forall|t: TyV| subst_ty(t, s2) == #[trigger] subst_ty(subst_ty(t, s1), s2)
}

/// Whether two types unify with nothing left to bind: they are equal, one is `index` and the
/// other a field element (these coerce into each other), or both are function types of the same
/// arity whose inputs and outputs unify pairwise.
pub open spec fn unifies(a: TyV, b: TyV) -> bool
    decreases a,
{
    a == b || (a is Index && b is Felt) || (a is Felt && b is Index) || match (a, b) {
        (TyV::Func(ai, ao), TyV::Func(bi, bo)) => unifies_tys(ai, bi) && unifies_tys(ao, bo),
        _ => false,
    }
}

/// Pairwise [`unifies`] over two sequences of the same length.
pub open spec fn unifies_tys(a: Seq<TyV>, b: Seq<TyV>) -> bool
    decreases a,
{
    if a.len() != b.len() {
        false
    } else if a.len() == 0 {
        true
    } else {
        unifies(a[0], b[0]) && unifies_tys(
            a.subrange(1, a.len() as int),
            b.subrange(1, b.len() as int),
        )
    }
}

/// The sequence forms of [`subst_tys`] and [`tys_size`], one entry at a time.
pub proof fn lemma_tys(ts: Seq<TyV>, s: Map<u64, TyV>)
    ensures
        subst_tys(ts, s).len() == ts.len(),
        forall|i: int| 0 <= i < ts.len() ==> #[trigger] subst_tys(ts, s)[i] == subst_ty(ts[i], s),
        forall|i: int| 0 <= i < ts.len() ==> #[trigger] ty_size(ts[i]) <= tys_size(ts),
    decreases ts.len(),
{
    if ts.len() > 0 {
        let rest = ts.subrange(1, ts.len() as int);
        lemma_tys(rest, s);
        assert forall|i: int| 0 <= i < ts.len() implies #[trigger] subst_tys(ts, s)[i] == subst_ty(ts[i], s) by {
            if i > 0 {
                assert(rest[i - 1] == ts[i]);
            }
        }
        assert forall|i: int| 0 <= i < ts.len() implies #[trigger] ty_size(ts[i]) <= tys_size(ts) by {
            if i > 0 {
                assert(rest[i - 1] == ts[i]);
            }
        }
    }
}

/// The sequence form of [`subst_members`], one entry at a time.
pub proof fn lemma_members(ms: Seq<MemberV>, s: Map<u64, TyV>)
    ensures
        subst_members(ms, s).len() == ms.len(),
        forall|i: int|
            0 <= i < ms.len() ==> #[trigger] subst_members(ms, s)[i] == (MemberV {
                name: ms[i].name,
                ty: subst_ty(ms[i].ty, s),
            }),
    decreases ms.len(),
{
    if ms.len() > 0 {
        let rest = ms.subrange(1, ms.len() as int);
        lemma_members(rest, s);
        assert forall|i: int| 0 <= i < ms.len() implies #[trigger] subst_members(ms, s)[i] == (MemberV {
            name: ms[i].name,
            ty: subst_ty(ms[i].ty, s),
        }) by {
            if i > 0 {
                assert(rest[i - 1] == ms[i]);
            }
        }
    }
}

/// Applying a substitution to a type that mentions none of its variables changes nothing.
pub proof fn lemma_subst_resolved(t: TyV, s: Map<u64, TyV>)
    requires
        resolved(t, s),
    ensures
        subst_ty(t, s) == t,
    decreases t,
{
    match t {
        TyV::Var(id) => {
            assert(occurs(id, t));
        },
        TyV::Func(ins, outs) => {
            assert forall|x: u64| occurs_tys(x, ins) implies !s.contains_key(x) by {
                assert(occurs(x, t));
            }
            assert forall|x: u64| occurs_tys(x, outs) implies !s.contains_key(x) by {
                assert(occurs(x, t));
            }
            lemma_subst_resolved_tys(ins, s);
            lemma_subst_resolved_tys(outs, s);
        },
        TyV::Array(e, d) => {
            assert forall|x: u64| #[trigger] occurs(x, *e) implies !s.contains_key(x) by {
                assert(occurs(x, t));
            }
            lemma_subst_resolved(*e, s);
        },
        TyV::Record(k, n, ms) => {
            assert forall|x: u64| occurs_members(x, ms) implies !s.contains_key(x) by {
                assert(occurs(x, t));
            }
            lemma_subst_resolved_members(ms, s);
        },
        _ => {},
    }
}

/// [`lemma_subst_resolved`] on sequences of types.
pub proof fn lemma_subst_resolved_tys(ts: Seq<TyV>, s: Map<u64, TyV>)
    requires
        forall|x: u64| occurs_tys(x, ts) ==> !s.contains_key(x),
    ensures
        subst_tys(ts, s) == ts,
    decreases ts,
{
    if ts.len() > 0 {
        let rest = ts.subrange(1, ts.len() as int);
        assert forall|x: u64| #[trigger] occurs(x, ts[0]) implies !s.contains_key(x) by {
            assert(occurs_tys(x, ts));
        }
        assert forall|x: u64| occurs_tys(x, rest) implies !s.contains_key(x) by {
            assert(occurs_tys(x, ts));
        }
        lemma_subst_resolved(ts[0], s);
        lemma_subst_resolved_tys(rest, s);
        assert(subst_tys(ts, s) =~= ts);
    }
}

/// [`lemma_subst_resolved`] on sequences of members.
pub proof fn lemma_subst_resolved_members(ms: Seq<MemberV>, s: Map<u64, TyV>)
    requires
        forall|x: u64| occurs_members(x, ms) ==> !s.contains_key(x),
    ensures
        subst_members(ms, s) == ms,
    decreases ms,
{
    if ms.len() > 0 {
        let rest = ms.subrange(1, ms.len() as int);
        assert forall|x: u64| #[trigger] occurs(x, ms[0].ty) implies !s.contains_key(x) by {
            assert(occurs_members(x, ms));
        }
        assert forall|x: u64| occurs_members(x, rest) implies !s.contains_key(x) by {
            assert(occurs_members(x, ms));
        }
        lemma_subst_resolved(ms[0].ty, s);
        lemma_subst_resolved_members(rest, s);
        assert(subst_members(ms, s) =~= ms);
    }
}

/// After an idempotent substitution, no variable of its domain is left.
pub proof fn lemma_subst_removes(t: TyV, s: Map<u64, TyV>)
    requires
        idempotent(s),
    ensures
        resolved(subst_ty(t, s), s),
    decreases t,
{
    match t {
        TyV::Var(id) => {
            if s.contains_key(id) {
                assert(subst_ty(t, s) == s[id]);
                assert forall|x: u64| #[trigger] occurs(x, subst_ty(t, s)) implies !s.contains_key(x) by {
                    assert(occurs(x, s[id]));
                }
            } else {
                assert(subst_ty(t, s) == t);
                assert forall|x: u64| #[trigger] occurs(x, subst_ty(t, s)) implies !s.contains_key(x) by {
                    assert(x == id);
                }
            }
            assert(resolved(subst_ty(t, s), s));
        },
        TyV::Func(ins, outs) => {
            lemma_subst_removes_tys(ins, s);
            lemma_subst_removes_tys(outs, s);
            assert(subst_ty(t, s) == TyV::Func(subst_tys(ins, s), subst_tys(outs, s)));
            assert(resolved(subst_ty(t, s), s));
        },
        TyV::Array(e, d) => {
            lemma_subst_removes(*e, s);
            assert(subst_ty(t, s) == TyV::Array(Box::new(subst_ty(*e, s)), d));
            assert forall|x: u64| #[trigger] occurs(x, subst_ty(t, s)) implies !s.contains_key(x) by {
                assert(occurs(x, subst_ty(*e, s)));
            }
        },
        TyV::Record(k, n, ms) => {
            lemma_subst_removes_members(ms, s);
            assert(subst_ty(t, s) == TyV::Record(k, n, subst_members(ms, s)));
            assert(resolved(subst_ty(t, s), s));
        },
        _ => {
            assert(subst_ty(t, s) == t);
            assert(resolved(subst_ty(t, s), s));
        },
    }
}

/// [`lemma_subst_removes`] on sequences of types.
pub proof fn lemma_subst_removes_tys(ts: Seq<TyV>, s: Map<u64, TyV>)
    requires
        idempotent(s),
    ensures
        forall|x: u64| occurs_tys(x, subst_tys(ts, s)) ==> !s.contains_key(x),
    decreases ts,
{
    if ts.len() > 0 {
        let rest = ts.subrange(1, ts.len() as int);
        lemma_subst_removes(ts[0], s);
        lemma_subst_removes_tys(rest, s);
        let r = subst_tys(ts, s);
        assert(r[0] == subst_ty(ts[0], s));
        assert(r.subrange(1, r.len() as int) =~= subst_tys(rest, s));
        assert forall|x: u64| occurs_tys(x, r) implies !s.contains_key(x) by {
            if occurs(x, r[0]) {
                assert(occurs(x, subst_ty(ts[0], s)));
            } else {
                assert(occurs_tys(x, subst_tys(rest, s)));
            }
        }
    }
}

/// [`lemma_subst_removes`] on sequences of members.
pub proof fn lemma_subst_removes_members(ms: Seq<MemberV>, s: Map<u64, TyV>)
    requires
        idempotent(s),
    ensures
        forall|x: u64| occurs_members(x, subst_members(ms, s)) ==> !s.contains_key(x),
    decreases ms,
{
    if ms.len() > 0 {
        let rest = ms.subrange(1, ms.len() as int);
        lemma_subst_removes(ms[0].ty, s);
        lemma_subst_removes_members(rest, s);
        let r = subst_members(ms, s);
        assert(r[0].ty == subst_ty(ms[0].ty, s));
        assert(r.subrange(1, r.len() as int) =~= subst_members(rest, s));
        assert forall|x: u64| occurs_members(x, r) implies !s.contains_key(x) by {
            if occurs(x, r[0].ty) {
                assert(occurs(x, subst_ty(ms[0].ty, s)));
            } else {
                assert(occurs_members(x, subst_members(rest, s)));
            }
        }
    }
}

/// Applying an idempotent substitution twice is applying it once.
pub proof fn lemma_subst_twice(t: TyV, s: Map<u64, TyV>)
    requires
        idempotent(s),
    ensures
        subst_ty(subst_ty(t, s), s) == subst_ty(t, s),
{
    lemma_subst_removes(t, s);
    lemma_subst_resolved(subst_ty(t, s), s);
}

/// Applying `compose(s, id, u)` is applying `s` and then binding `id` to `u`.
pub proof fn lemma_compose(t: TyV, s: Map<u64, TyV>, id: u64, u: TyV)
    requires
        !s.contains_key(id),
    ensures
        subst_ty(t, compose(s, id, u)) == subst_ty(subst_ty(t, s), single(id, u)),
    decreases t,
{
    let c = compose(s, id, u);
    match t {
        TyV::Var(x) => {
            if x == id {
                assert(subst_ty(t, s) == t);
            } else if s.contains_key(x) {
                assert(c[x] == subst_ty(s[x], single(id, u)));
            } else {
                assert(!c.contains_key(x));
            }
        },
        TyV::Func(ins, outs) => {
            lemma_compose_tys(ins, s, id, u);
            lemma_compose_tys(outs, s, id, u);
        },
        TyV::Array(e, d) => {
            lemma_compose(*e, s, id, u);
        },
        TyV::Record(k, n, ms) => {
            lemma_compose_members(ms, s, id, u);
        },
        _ => {},
    }
}

/// [`lemma_compose`] on sequences of types.
pub proof fn lemma_compose_tys(ts: Seq<TyV>, s: Map<u64, TyV>, id: u64, u: TyV)
    requires
        !s.contains_key(id),
    ensures
        subst_tys(ts, compose(s, id, u)) == subst_tys(subst_tys(ts, s), single(id, u)),
    decreases ts,
{
    if ts.len() > 0 {
        let rest = ts.subrange(1, ts.len() as int);
        lemma_compose(ts[0], s, id, u);
        lemma_compose_tys(rest, s, id, u);
        let r = subst_tys(ts, s);
        assert(r.subrange(1, r.len() as int) =~= subst_tys(rest, s));
        assert(subst_tys(ts, compose(s, id, u)) =~= subst_tys(r, single(id, u)));
    }
}

/// [`lemma_compose`] on sequences of members.
pub proof fn lemma_compose_members(ms: Seq<MemberV>, s: Map<u64, TyV>, id: u64, u: TyV)
    requires
        !s.contains_key(id),
    ensures
        subst_members(ms, compose(s, id, u)) == subst_members(subst_members(ms, s), single(id, u)),
    decreases ms,
{
    if ms.len() > 0 {
        let rest = ms.subrange(1, ms.len() as int);
        lemma_compose(ms[0].ty, s, id, u);
        lemma_compose_members(rest, s, id, u);
        let r = subst_members(ms, s);
        assert(r.subrange(1, r.len() as int) =~= subst_members(rest, s));
        assert(subst_members(ms, compose(s, id, u)) =~= subst_members(r, single(id, u)));
    }
}

/// The variables left after binding `id` to `u` come from `t` (other than `id`) or from `u`.
pub proof fn lemma_single_occurs(t: TyV, id: u64, u: TyV, x: u64)
    requires
        occurs(x, subst_ty(t, single(id, u))),
    ensures
        (occurs(x, t) && x != id) || occurs(x, u),
    decreases t,
{
    match t {
        TyV::Var(y) => {
            if y == id {
                assert(subst_ty(t, single(id, u)) == u);
            } else {
                assert(subst_ty(t, single(id, u)) == t);
            }
        },
        TyV::Func(ins, outs) => {
            assert(subst_ty(t, single(id, u)) == TyV::Func(
                subst_tys(ins, single(id, u)),
                subst_tys(outs, single(id, u)),
            ));
            if occurs_tys(x, subst_tys(ins, single(id, u))) {
                lemma_single_occurs_tys(ins, id, u, x);
            } else {
                lemma_single_occurs_tys(outs, id, u, x);
            }
        },
        TyV::Array(e, d) => {
            assert(occurs(x, subst_ty(*e, single(id, u))));
            lemma_single_occurs(*e, id, u, x);
        },
        TyV::Record(k, n, ms) => {
            assert(occurs_members(x, subst_members(ms, single(id, u))));
            lemma_single_occurs_members(ms, id, u, x);
        },
        _ => {},
    }
}

/// [`lemma_single_occurs`] on sequences of types.
pub proof fn lemma_single_occurs_tys(ts: Seq<TyV>, id: u64, u: TyV, x: u64)
    requires
        occurs_tys(x, subst_tys(ts, single(id, u))),
    ensures
        (occurs_tys(x, ts) && x != id) || occurs(x, u),
    decreases ts,
{
    if ts.len() > 0 {
        let rest = ts.subrange(1, ts.len() as int);
        let r = subst_tys(ts, single(id, u));
        assert(r.subrange(1, r.len() as int) =~= subst_tys(rest, single(id, u)));
        if occurs(x, r[0]) {
            lemma_single_occurs(ts[0], id, u, x);
        } else {
            lemma_single_occurs_tys(rest, id, u, x);
        }
    }
}

/// [`lemma_single_occurs`] on sequences of members.
pub proof fn lemma_single_occurs_members(ms: Seq<MemberV>, id: u64, u: TyV, x: u64)
    requires
        occurs_members(x, subst_members(ms, single(id, u))),
    ensures
        (occurs_members(x, ms) && x != id) || occurs(x, u),
    decreases ms,
{
    if ms.len() > 0 {
        let rest = ms.subrange(1, ms.len() as int);
        let r = subst_members(ms, single(id, u));
        assert(r.subrange(1, r.len() as int) =~= subst_members(rest, single(id, u)));
        if occurs(x, r[0].ty) {
            lemma_single_occurs(ms[0].ty, id, u, x);
        } else {
            lemma_single_occurs_members(rest, id, u, x);
        }
    }
}

/// Binding a fresh variable to a resolved type that does not mention it keeps a substitution
/// idempotent.
pub proof fn lemma_compose_idempotent(s: Map<u64, TyV>, id: u64, u: TyV)
    requires
        idempotent(s),
        !s.contains_key(id),
        resolved(u, s),
        !occurs(id, u),
    ensures
        idempotent(compose(s, id, u)),
{
    let c = compose(s, id, u);
    assert forall|k: u64, x: u64| c.contains_key(k) && c.contains_key(x) implies !#[trigger] occurs(x, c[k]) by {
        if k != id {
            if occurs(x, c[k]) {
                lemma_single_occurs(s[k], id, u, x);
                if x != id {
                    assert(s.contains_key(x));
                }
            }
        }
    }
}

/// Binding a fresh variable keeps every decision of an idempotent substitution.
pub proof fn lemma_compose_refines(s: Map<u64, TyV>, id: u64, u: TyV)
    requires
        idempotent(s),
        !s.contains_key(id),
    ensures
        refines(compose(s, id, u), s),
{
    let c = compose(s, id, u);
    assert forall|t: TyV| subst_ty(t, c) == #[trigger] subst_ty(subst_ty(t, s), c) by {
        lemma_compose(t, s, id, u);
        lemma_compose(subst_ty(t, s), s, id, u);
        lemma_subst_twice(t, s);
    }
}

/// An idempotent substitution refines itself.
pub proof fn lemma_refines_refl(s: Map<u64, TyV>)
    requires
        idempotent(s),
    ensures
        refines(s, s),
{
    assert forall|t: TyV| subst_ty(t, s) == #[trigger] subst_ty(subst_ty(t, s), s) by {
        lemma_subst_twice(t, s);
    }
}

/// Refinement is transitive.
pub proof fn lemma_refines_trans(s3: Map<u64, TyV>, s2: Map<u64, TyV>, s1: Map<u64, TyV>)
    requires
        refines(s3, s2),
        refines(s2, s1),
    ensures
        refines(s3, s1),
{
    assert forall|t: TyV| subst_ty(t, s3) == #[trigger] subst_ty(subst_ty(t, s1), s3) by {
        assert(subst_ty(t, s3) == subst_ty(subst_ty(t, s2), s3));
        assert(subst_ty(t, s2) == subst_ty(subst_ty(t, s1), s2));
        assert(subst_ty(subst_ty(t, s1), s3) == subst_ty(subst_ty(subst_ty(t, s1), s2), s3));
    }
}

/// Types that unify still unify after any substitution.
pub proof fn lemma_unifies_subst(a: TyV, b: TyV, s: Map<u64, TyV>)
    requires
        unifies(a, b),
    ensures
        unifies(subst_ty(a, s), subst_ty(b, s)),
    decreases a,
{
    if a == b {
    } else if (a is Index && b is Felt) || (a is Felt && b is Index) {
    } else {
        match (a, b) {
            (TyV::Func(ai, ao), TyV::Func(bi, bo)) => {
                lemma_unifies_subst_tys(ai, bi, s);
                lemma_unifies_subst_tys(ao, bo, s);
            },
            _ => {},
        }
    }
}

/// [`lemma_unifies_subst`] on sequences of types.
pub proof fn lemma_unifies_subst_tys(a: Seq<TyV>, b: Seq<TyV>, s: Map<u64, TyV>)
    requires
        unifies_tys(a, b),
    ensures
        unifies_tys(subst_tys(a, s), subst_tys(b, s)),
    decreases a,
{
    lemma_tys(a, s);
    lemma_tys(b, s);
    if a.len() > 0 {
        let ra = a.subrange(1, a.len() as int);
        let rb = b.subrange(1, b.len() as int);
        lemma_unifies_subst(a[0], b[0], s);
        lemma_unifies_subst_tys(ra, rb, s);
        let sa = subst_tys(a, s);
        let sb = subst_tys(b, s);
        assert(sa.subrange(1, sa.len() as int) =~= subst_tys(ra, s));
        assert(sb.subrange(1, sb.len() as int) =~= subst_tys(rb, s));
    }
}

/// Unification is preserved when the substitution is refined.
pub proof fn lemma_unifies_refined(a: TyV, b: TyV, s1: Map<u64, TyV>, s2: Map<u64, TyV>)
    requires
        unifies(subst_ty(a, s1), subst_ty(b, s1)),
        refines(s2, s1),
    ensures
        unifies(subst_ty(a, s2), subst_ty(b, s2)),
{
    lemma_unifies_subst(subst_ty(a, s1), subst_ty(b, s1), s2);
    assert(subst_ty(a, s2) == subst_ty(subst_ty(a, s1), s2));
    assert(subst_ty(b, s2) == subst_ty(subst_ty(b, s1), s2));
}

/// A variable of an entry of a sequence occurs in the sequence.
pub proof fn lemma_occurs_elem(x: u64, ts: Seq<TyV>, i: int)
    requires
        0 <= i < ts.len(),
        occurs(x, ts[i]),
    ensures
        occurs_tys(x, ts),
    decreases i,
{
    if i > 0 {
        let rest = ts.subrange(1, ts.len() as int);
        assert(rest[i - 1] == ts[i]);
        lemma_occurs_elem(x, rest, i - 1);
    }
}

/// The entries of a resolved function type are resolved.
pub proof fn lemma_resolved_elem(ts: Seq<TyV>, i: int, s: Map<u64, TyV>)
    requires
        0 <= i < ts.len(),
        forall|x: u64| occurs_tys(x, ts) ==> !s.contains_key(x),
    ensures
        resolved(ts[i], s),
        subst_ty(ts[i], s) == ts[i],
{
    assert forall|x: u64| #[trigger] occurs(x, ts[i]) implies !s.contains_key(x) by {
        lemma_occurs_elem(x, ts, i);
    }
    lemma_subst_resolved(ts[i], s);
}

/// Sequences of the same length whose entries unify pairwise unify.
pub proof fn lemma_unifies_tys_pointwise(a: Seq<TyV>, b: Seq<TyV>)
    requires
        a.len() == b.len(),
        forall|i: int| 0 <= i < a.len() ==> #[trigger] unifies(a[i], b[i]),
    ensures
        unifies_tys(a, b),
    decreases a.len(),
{
    if a.len() > 0 {
        let ra = a.subrange(1, a.len() as int);
        let rb = b.subrange(1, b.len() as int);
        assert forall|i: int| 0 <= i < ra.len() implies #[trigger] unifies(ra[i], rb[i]) by {
            assert(ra[i] == a[i + 1]);
            assert(rb[i] == b[i + 1]);
        }
        assert(unifies(a[0], b[0]));
        lemma_unifies_tys_pointwise(ra, rb);
    }
}

/// Sequences that unify have the same length and unify entry by entry.
pub proof fn lemma_unifies_tys_elems(a: Seq<TyV>, b: Seq<TyV>)
    requires
        unifies_tys(a, b),
    ensures
        a.len() == b.len(),
        forall|i: int| 0 <= i < a.len() ==> #[trigger] unifies(a[i], b[i]),
    decreases a.len(),
{
    if a.len() > 0 {
        let ra = a.subrange(1, a.len() as int);
        let rb = b.subrange(1, b.len() as int);
        lemma_unifies_tys_elems(ra, rb);
        assert forall|i: int| 0 <= i < a.len() implies #[trigger] unifies(a[i], b[i]) by {
            if i > 0 {
                assert(ra[i - 1] == a[i]);
                assert(rb[i - 1] == b[i]);
            }
        }
    }
}

} // verus!
