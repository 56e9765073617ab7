//! The type inference context: the scopes, the pending type constraints and the substitution
//! that unification builds.
use vstd::prelude::*;
use crate::types::{
    ArrayTy, Dim, DimV, FnTy, Member, MemberV, RecordTy, Ty, TyV, copy_dims, dims_view, lemma_members_view,
    lemma_tys_view, members_view, ty_text, ty_view, tys_view,
};
use crate::ir::Context;
use crate::type_analysis::error::{TypeAnalysisError, error_text};
use crate::type_analysis::mgu::{admissible, array_equated, equated, shallow, values_shallow};
use crate::type_analysis::scope::{Scope, ScopeStack};
use crate::type_analysis::subst::{
    compose, idempotent, lemma_members, lemma_tys, occurs, occurs_members, occurs_tys, refines,
    lemma_compose, lemma_compose_idempotent, lemma_compose_refines, lemma_refines_refl,
    lemma_refines_trans, lemma_resolved_elem, lemma_subst_removes, lemma_subst_resolved, lemma_subst_twice,
    lemma_unifies_tys_elems, lemma_unifies_tys_pointwise, lemma_unifies_refined, lemma_unifies_subst, resolved,
    single, subst_members, subst_ty,
    subst_tys, ty_size, unifies, unifies_tys,
};

verus! {

/// The substitution an association list stands for; a later entry overrides an earlier one.
pub open spec fn smap(s: Seq<(u64, Ty)>) -> Map<u64, TyV>
    decreases s.len(),
{
    if s.len() == 0 {
        Map::empty()
    } else {
        smap(s.drop_last()).insert(s.last().0, s.last().1@)
    }
}

/// Looks up the binding of `id`.
pub fn lookup_binding(s: &Vec<(u64, Ty)>, id: u64) -> (r: Option<&Ty>)
    ensures
        match r {
            Some(t) => smap(s@).contains_key(id) && smap(s@)[id] == t@,
            None => !smap(s@).contains_key(id),
        },
{
    let mut i = s.len();
    assert(s@.subrange(0, i as int) =~= s@);
    while i > 0
        invariant
            i <= s@.len(),
            smap(s@).contains_key(id) == smap(s@.subrange(0, i as int)).contains_key(id),
            smap(s@).contains_key(id) ==> smap(s@)[id] == smap(s@.subrange(0, i as int))[id],
        decreases i,
    {
        proof {
            let sub = s@.subrange(0, i as int);
            assert(sub.drop_last() =~= s@.subrange(0, i - 1));
            assert(sub.last() == s@[i - 1]);
        }
        if s[i - 1].0 == id {
            return Some(&s[i - 1].1);
        }
        i = i - 1;
    }
    None
}

/// Whether two types resolve their unification as they stand: they are equal, or one is `index`
/// and the other a field element.
pub open spec fn compatible(a: TyV, b: TyV) -> bool {
    a == b || (a is Index && b is Felt) || (a is Felt && b is Index)
}

/// Decides [`compatible`].
pub fn can_resolve_unification(a: &Ty, b: &Ty) -> (r: bool)
    ensures
        r == compatible(a@, b@),
{
    match (a, b) {
        (Ty::Index, Ty::Felt) => true,
        (Ty::Felt, Ty::Index) => true,
        _ => a.same(b),
    }
}

/// Applies the substitution `s` to `t`.
pub fn apply_with(s: &Vec<(u64, Ty)>, t: &Ty) -> (r: Ty)
    ensures
        r@ == subst_ty(t@, smap(s@)),
    decreases t,
{
    match t {
        Ty::Var(id) => match lookup_binding(s, *id) {
            Some(v) => v.copy(),
            None => Ty::Var(*id),
        },
        Ty::Func(f) => {
            let ins = apply_many(s, &f.ins);
            let outs = apply_many(s, &f.outs);
            Ty::Func(FnTy { ins, outs })
        },
        Ty::Array(a) => {
            let elem = apply_with(s, &a.elem);
            Ty::Array(ArrayTy { elem: Box::new(elem), dims: copy_dims(&a.dims) })
        },
        Ty::Record(rec) => Ty::Record(apply_record(s, rec)),
        Ty::Bool => Ty::Bool,
        Ty::Felt => Ty::Felt,
        Ty::Index => Ty::Index,
    }
}

/// Applies the substitution `s` to the types of the members of a record.
pub fn apply_record(s: &Vec<(u64, Ty)>, rec: &RecordTy) -> (r: RecordTy)
    ensures
        r.view_ty() == subst_ty(rec.view_ty(), smap(s@)),
    decreases rec,
{
    let mut ms: Vec<Member> = Vec::new();
    let mut i: usize = 0;
    while i < rec.members.len()
        invariant
            i <= rec.members.len(),
            ms@.len() == i,
            forall|j: int|
                0 <= j < i ==> #[trigger] ms@[j].name@ == rec.members@[j].name@ && ty_view(ms@[j].ty)
                    == subst_ty(ty_view(rec.members@[j].ty), smap(s@)),
        decreases rec.members.len() - i,
    {
        proof {
            assert(decreases_to!(rec.members => rec.members@[i as int]));
        }
        let mt = apply_with(s, &rec.members[i].ty);
        let nm = rec.members[i].name.clone();
        let ghost prev = ms@;
        ms.push(Member { name: nm, ty: mt });
        proof {
            assert forall|j: int|
                0 <= j < i + 1 implies #[trigger] ms@[j].name@ == rec.members@[j].name@ && ty_view(ms@[j].ty)
                    == subst_ty(ty_view(rec.members@[j].ty), smap(s@)) by {
                if j < i {
                    assert(ms@[j] == prev[j]);
                }
            }
        }
        i = i + 1;
    }
    proof {
        lemma_members_view(ms@);
        lemma_members_view(rec.members@);
        lemma_members(members_view(rec.members@), smap(s@));
        assert(members_view(ms@) =~= subst_members(members_view(rec.members@), smap(s@)));
    }
    RecordTy { kind: rec.kind, name: rec.name.clone(), members: ms }
}

/// Applies the substitution `s` to each type of `ts`.
pub fn apply_many(s: &Vec<(u64, Ty)>, ts: &Vec<Ty>) -> (r: Vec<Ty>)
    ensures
        tys_view(r@) == subst_tys(tys_view(ts@), smap(s@)),
    decreases ts,
{
    let mut r: Vec<Ty> = Vec::new();
    let mut i: usize = 0;
    while i < ts.len()
        invariant
            i <= ts.len(),
            r@.len() == i,
            forall|j: int| 0 <= j < i ==> #[trigger] ty_view(r@[j]) == subst_ty(ty_view(ts@[j]), smap(s@)),
        decreases ts.len() - i,
    {
        proof {
            assert(decreases_to!(ts => ts@[i as int]));
        }
        r.push(apply_with(s, &ts[i]));
        i = i + 1;
    }
    proof {
        lemma_tys_view(r@);
        lemma_tys_view(ts@);
        lemma_tys(tys_view(ts@), smap(s@));
        assert(tys_view(r@) =~= subst_tys(tys_view(ts@), smap(s@)));
    }
    r
}

/// Whether the variable `id` occurs in `t`.
pub fn occurs_in(id: u64, t: &Ty) -> (r: bool)
    ensures
        r == occurs(id, t@),
    decreases t,
{
    match t {
        Ty::Var(x) => *x == id,
        Ty::Func(f) => {
            let a = occurs_in_many(id, &f.ins);
            let b = occurs_in_many(id, &f.outs);
            a || b
        },
        Ty::Array(a) => occurs_in(id, &a.elem),
        Ty::Record(rec) => occurs_in_record(id, rec),
        _ => false,
    }
}

/// Whether the variable `id` occurs in the type of some member of a record.
pub fn occurs_in_record(id: u64, rec: &RecordTy) -> (r: bool)
    ensures
        r == occurs(id, rec.view_ty()),
    decreases rec,
{
    let ghost mv = members_view(rec.members@);
    proof {
        lemma_members_view(rec.members@);
        assert(mv.subrange(0, mv.len() as int) =~= mv);
    }
    let mut i: usize = 0;
    while i < rec.members.len()
        invariant
            i <= rec.members.len(),
            mv == members_view(rec.members@),
            mv.len() == rec.members@.len(),
            forall|j: int|
                0 <= j < mv.len() ==> #[trigger] mv[j] == (MemberV {
                    name: rec.members@[j].name@,
                    ty: ty_view(rec.members@[j].ty),
                }),
            occurs_members(id, mv) == occurs_members(id, mv.subrange(i as int, mv.len() as int)),
        decreases rec.members.len() - i,
    {
        proof {
            assert(decreases_to!(rec.members => rec.members@[i as int]));
            let sub = mv.subrange(i as int, mv.len() as int);
            assert(sub.subrange(1, sub.len() as int) =~= mv.subrange(i + 1, mv.len() as int));
            assert(sub[0] == mv[i as int]);
            assert(sub[0].ty == ty_view(rec.members@[i as int].ty));
        }
        if occurs_in(id, &rec.members[i].ty) {
            return true;
        }
        i = i + 1;
    }
    false
}

/// Whether the variable `id` occurs in some type of `ts`.
pub fn occurs_in_many(id: u64, ts: &Vec<Ty>) -> (r: bool)
    ensures
        r == occurs_tys(id, tys_view(ts@)),
    decreases ts,
{
    let ghost tv = tys_view(ts@);
    proof {
        lemma_tys_view(ts@);
        assert(tv.subrange(0, tv.len() as int) =~= tv);
    }
    let mut i: usize = 0;
    while i < ts.len()
        invariant
            i <= ts.len(),
            tv == tys_view(ts@),
            tv.len() == ts@.len(),
            forall|j: int| 0 <= j < tv.len() ==> #[trigger] tv[j] == ty_view(ts@[j]),
            occurs_tys(id, tv) == occurs_tys(id, tv.subrange(i as int, tv.len() as int)),
        decreases ts.len() - i,
    {
        proof {
            assert(decreases_to!(ts => ts@[i as int]));
            let sub = tv.subrange(i as int, tv.len() as int);
            assert(sub.subrange(1, sub.len() as int) =~= tv.subrange(i + 1, tv.len() as int));
            assert(sub[0] == tv[i as int]);
        }
        if occurs_in(id, &ts[i]) {
            return true;
        }
        i = i + 1;
    }
    false
}

/// The element type of an array type whose element type is `e` and whose dimensions are `d`:
/// `e` for a one-dimensional array, an array of the remaining dimensions otherwise.
pub open spec fn inner_ty(e: TyV, d: Seq<DimV>) -> TyV {
    if d.len() <= 1 {
        e
    } else {
        TyV::Array(Box::new(e), d.subrange(1, d.len() as int))
    }
}

/// The type of the first member called `name`.
pub open spec fn member_lookup(ms: Seq<MemberV>, name: Seq<char>) -> Option<TyV>
    decreases ms.len(),
{
    if ms.len() == 0 {
        None
    } else if ms[0].name == name {
        Some(ms[0].ty)
    } else {
        member_lookup(ms.subrange(1, ms.len() as int), name)
    }
}

/// A type constraint that unification solves.
#[derive(Debug, PartialEq)]
pub enum Constraint {
    /// The two types must be equal.
    Eq { lhs: Ty, rhs: Ty },
    /// `arr` must be an array type whose element type is `elt`.
    Array { arr: Ty, elt: Ty },
    /// `str` must be a struct-like type with a member `name` of type `mem`.
    Member { str: Ty, name: String, mem: Ty },
}

impl Constraint {
    /// Creates an equality constraint.
    pub fn new(lhs: Ty, rhs: Ty) -> (r: Constraint)
        ensures
            r == (Constraint::Eq { lhs, rhs }),
    {
        Constraint::Eq { lhs, rhs }
    }

    /// Creates an array constraint.
    pub fn new_array(arr: Ty, elt: Ty) -> (r: Constraint)
        ensures
            r == (Constraint::Array { arr, elt }),
    {
        Constraint::Array { arr, elt }
    }

    /// Creates a member constraint.
    pub fn new_member(str: Ty, name: String, mem: Ty) -> (r: Constraint)
        ensures
            r == (Constraint::Member { str, name, mem }),
    {
        Constraint::Member { str, name, mem }
    }
}

/// Whether the substitution `s` solves the constraint `c`.
pub open spec fn satisfied(c: Constraint, s: Map<u64, TyV>) -> bool {
    match c {
        Constraint::Eq { lhs, rhs } => unifies(subst_ty(lhs@, s), subst_ty(rhs@, s)),
        Constraint::Array { arr, elt } => match subst_ty(arr@, s) {
            TyV::Array(e, d) => unifies(inner_ty(*e, d), subst_ty(elt@, s)),
            _ => false,
        },
        Constraint::Member { str, name, mem } => match subst_ty(str@, s) {
            TyV::Record(_, _, ms) => match member_lookup(ms, name@) {
                Some(t) => unifies(t, subst_ty(mem@, s)),
                None => false,
            },
            _ => false,
        },
    }
}

/// Looking a member up commutes with substitution.
pub proof fn lemma_member_lookup_subst(ms: Seq<MemberV>, name: Seq<char>, s: Map<u64, TyV>)
    ensures
        member_lookup(subst_members(ms, s), name) == match member_lookup(ms, name) {
            Some(t) => Some(subst_ty(t, s)),
            None => None,
        },
    decreases ms.len(),
{
    if ms.len() > 0 {
        let rest = ms.subrange(1, ms.len() as int);
        lemma_member_lookup_subst(rest, name, s);
        let r = subst_members(ms, s);
        assert(r.subrange(1, r.len() as int) =~= subst_members(rest, s));
    }
}

/// A solved constraint stays solved when the substitution is refined.
pub proof fn lemma_satisfied_refined(c: Constraint, s1: Map<u64, TyV>, s2: Map<u64, TyV>)
    requires
        satisfied(c, s1),
        refines(s2, s1),
    ensures
        satisfied(c, s2),
{
    match c {
        Constraint::Eq { lhs, rhs } => {
            lemma_unifies_refined(lhs@, rhs@, s1, s2);
        },
        Constraint::Array { arr, elt } => {
            let a1 = subst_ty(arr@, s1);
            assert(subst_ty(arr@, s2) == subst_ty(a1, s2));
            assert(subst_ty(elt@, s2) == subst_ty(subst_ty(elt@, s1), s2));
            match a1 {
                TyV::Array(e, d) => {
                    lemma_unifies_subst(inner_ty(*e, d), subst_ty(elt@, s1), s2);
                },
                _ => {},
            }
        },
        Constraint::Member { str, name, mem } => {
            let a1 = subst_ty(str@, s1);
            assert(subst_ty(str@, s2) == subst_ty(a1, s2));
            assert(subst_ty(mem@, s2) == subst_ty(subst_ty(mem@, s1), s2));
            match a1 {
                TyV::Record(k, n, ms) => {
                    lemma_member_lookup_subst(ms, name@, s2);
                    match member_lookup(ms, name@) {
                        Some(t) => {
                            lemma_unifies_subst(t, subst_ty(mem@, s1), s2);
                        },
                        None => {},
                    }
                },
                _ => {},
            }
        },
    }
}

/// Entries with the same keys whose values are `f` of the old values stand for the old
/// substitution with `f` applied to its range.
pub proof fn lemma_smap_map(old: Seq<(u64, Ty)>, new: Seq<(u64, Ty)>, id: u64, u: TyV)
    requires
        new.len() == old.len(),
        forall|j: int|
            0 <= j < old.len() ==> #[trigger] new[j].0 == old[j].0 && new[j].1@ == subst_ty(
                old[j].1@,
                single(id, u),
            ),
    ensures
        smap(new) == smap(old).map_values(|v: TyV| subst_ty(v, single(id, u))),
    decreases old.len(),
{
    if old.len() > 0 {
        lemma_smap_map(old.drop_last(), new.drop_last(), id, u);
        assert(new[new.len() - 1].0 == old[old.len() - 1].0);
        assert(smap(new) =~= smap(old).map_values(|v: TyV| subst_ty(v, single(id, u))));
    } else {
        assert(smap(new) =~= smap(old).map_values(|v: TyV| subst_ty(v, single(id, u))));
    }
}

/// Binds the variable `id`, unbound in `s`, to `u`, and replaces `id` by `u` in the earlier
/// bindings.
pub fn bind(s: &mut Vec<(u64, Ty)>, id: u64, u: Ty)
    requires
        !smap(old(s)@).contains_key(id),
    ensures
        smap(final(s)@) == compose(smap(old(s)@), id, u@),
        final(s)@.len() == old(s)@.len() + 1,
{
    let mut one: Vec<(u64, Ty)> = Vec::new();
    let uc = u.copy();
    one.push((id, uc));
    proof {
        assert(one@.drop_last() =~= Seq::<(u64, Ty)>::empty());
        assert(smap(one@.drop_last()) == Map::<u64, TyV>::empty());
        assert(one@.last() == (id, uc));
        assert(smap(one@) == Map::<u64, TyV>::empty().insert(id, uc@));
        assert(smap(one@) =~= single(id, u@));
    }
    let ghost old_s = s@;
    let mut next: Vec<(u64, Ty)> = Vec::new();
    let mut i: usize = 0;
    while i < s.len()
        invariant
            i <= s@.len(),
            s@ == old_s,
            smap(one@) == single(id, u@),
            next@.len() == i,
            forall|j: int|
                0 <= j < i ==> #[trigger] next@[j].0 == old_s[j].0 && next@[j].1@ == subst_ty(
                    old_s[j].1@,
                    single(id, u@),
                ),
        decreases s@.len() - i,
    {
        let v = apply_with(&one, &s[i].1);
        next.push((s[i].0, v));
        i = i + 1;
    }
    proof {
        lemma_smap_map(old_s, next@, id, u@);
    }
    next.push((id, u));
    proof {
        assert(next@.drop_last() =~= next@.subrange(0, old_s.len() as int));
        assert(next@.subrange(0, old_s.len() as int).len() == old_s.len());
        lemma_smap_map(old_s, next@.drop_last(), id, u@);
    }
    *s = next;
}

/// The message of the error that solving `l ~ r`, both resolved, meets before it binds
/// anything: a variable that would have to contain itself, or two types that are neither
/// variables nor both function types and do not match. `None` where there is no such error.
pub open spec fn clash_text(l: TyV, r: TyV) -> Option<Seq<char>> {
    if compatible(l, r) {
        None
    } else {
        match (l, r) {
            (TyV::Var(id), _) => if occurs(id, r) {
                Some("type '"@ + ty_text(r) + "' is infinite"@)
            } else {
                None
            },
            (_, TyV::Var(id)) => if occurs(id, l) {
                Some("type '"@ + ty_text(l) + "' is infinite"@)
            } else {
                None
            },
            (TyV::Func(_, _), TyV::Func(_, _)) => None,
            _ => Some("expected type '"@ + ty_text(l) + "' but got '"@ + ty_text(r) + "'"@),
        }
    }
}

/// Binds `id` to `t` unless `t` mentions `id`, which would make the type infinite.
fn unify_type_var(s: &mut Vec<(u64, Ty)>, id: u64, t: Ty, errs: &mut Vec<TypeAnalysisError>)
    requires
        idempotent(smap(old(s)@)),
        !smap(old(s)@).contains_key(id),
        resolved(t@, smap(old(s)@)),
    ensures
        idempotent(smap(final(s)@)),
        refines(smap(final(s)@), smap(old(s)@)),
        final(s)@.len() > old(s)@.len() || final(s)@ == old(s)@,
        final(errs)@.len() >= old(errs)@.len(),
        final(errs)@.subrange(0, old(errs)@.len() as int) == old(errs)@,
        final(errs)@.len() == old(errs)@.len() ==> subst_ty(TyV::Var(id), smap(final(s)@))
            == subst_ty(t@, smap(final(s)@)),
        occurs(id, t@) ==> final(s)@ == old(s)@ && final(errs)@.len() == old(errs)@.len() + 1
            && error_text(final(errs)@.last()) == "type '"@ + ty_text(t@) + "' is infinite"@,
        !occurs(id, t@) ==> final(errs)@ == old(errs)@,
        forall|s2: Map<u64, TyV>|
            #[trigger] refines(s2, smap(old(s)@)) && subst_ty(TyV::Var(id), s2) == subst_ty(t@, s2)
                && t@ != TyV::Var(id) && shallow(t@) && values_shallow(smap(old(s)@))
                ==> final(errs)@ == old(errs)@ && refines(s2, smap(final(s)@)) && values_shallow(
                smap(final(s)@),
            ),
{
    let ghost s0 = smap(s@);
    if occurs_in(id, &t) {
        proof {
            lemma_refines_refl(s0);
            assert forall|s2: Map<u64, TyV>|
                #[trigger] refines(s2, s0) && subst_ty(TyV::Var(id), s2) == subst_ty(t@, s2) && t@
                    != TyV::Var(id) && shallow(t@) && values_shallow(s0) implies false by {
                crate::type_analysis::mgu::lemma_occurs_grows(id, t@, s2);
            }
        }
        let text = t.text();
        errs.push(TypeAnalysisError::InfiniteType(text));
        proof {
            assert(errs@.subrange(0, old(errs)@.len() as int) =~= old(errs)@);
        }
    } else {
        let ghost u = t@;
        proof {
            lemma_compose_idempotent(s0, id, u);
            lemma_compose_refines(s0, id, u);
            lemma_compose(TyV::Var(id), s0, id, u);
            lemma_compose(u, s0, id, u);
            lemma_subst_resolved(u, s0);
            assert forall|x: u64| #[trigger] occurs(x, u) implies !single(id, u).contains_key(x) by {}
            lemma_subst_resolved(u, single(id, u));
            assert(subst_ty(TyV::Var(id), s0) == TyV::Var(id));
            assert forall|s2: Map<u64, TyV>|
                #[trigger] refines(s2, s0) && subst_ty(TyV::Var(id), s2) == subst_ty(u, s2) && shallow(u)
                    && values_shallow(s0) implies refines(s2, compose(s0, id, u)) && values_shallow(
                compose(s0, id, u),
            ) by {
                crate::type_analysis::mgu::lemma_refines_compose(s2, s0, id, u);
                crate::type_analysis::mgu::lemma_compose_shallow(s0, id, u);
            }
        }
        bind(s, id, t);
    }
}

/// Solves `ls[j] ~ rs[j]` for each `j < n`, in order.
///
/// The types of both sequences are resolved and each pair is smaller than `bound`, the size of
/// the function types they come from.
fn unify_seq(
    s: &mut Vec<(u64, Ty)>,
    ls: &Vec<Ty>,
    rs: &Vec<Ty>,
    n: usize,
    Ghost(base): Ghost<Seq<(u64, Ty)>>,
    Ghost(bound): Ghost<nat>,
    errs: &mut Vec<TypeAnalysisError>,
)
    requires
        idempotent(smap(old(s)@)),
        old(s)@.len() > base.len() || old(s)@ == base,
        n <= ls@.len(),
        n <= rs@.len(),
        forall|j: int| 0 <= j < n ==> subst_ty(#[trigger] ls@[j]@, smap(base)) == ls@[j]@,
        forall|j: int| 0 <= j < n ==> subst_ty(#[trigger] rs@[j]@, smap(base)) == rs@[j]@,
        forall|j: int| 0 <= j < n ==> ty_size(#[trigger] ls@[j]@) + ty_size(rs@[j]@) < bound,
    ensures
        idempotent(smap(final(s)@)),
        refines(smap(final(s)@), smap(old(s)@)),
        final(s)@.len() > old(s)@.len() || final(s)@ == old(s)@,
        final(errs)@.len() >= old(errs)@.len(),
        final(errs)@.subrange(0, old(errs)@.len() as int) == old(errs)@,
        final(errs)@.len() == old(errs)@.len() ==> forall|j: int|
            0 <= j < n ==> #[trigger] unifies(
                subst_ty(ls@[j]@, smap(final(s)@)),
                subst_ty(rs@[j]@, smap(final(s)@)),
            ),
        (forall|j: int|
            0 <= j < n ==> #[trigger] unifies(
                subst_ty(ls@[j]@, smap(old(s)@)),
                subst_ty(rs@[j]@, smap(old(s)@)),
            )) ==> final(s)@ == old(s)@ && final(errs)@ == old(errs)@,
        forall|s2: Map<u64, TyV>|
            #[trigger] refines(s2, smap(old(s)@)) && values_shallow(smap(old(s)@)) && (forall|j: int|
                0 <= j < n ==> #[trigger] subst_ty(ls@[j]@, s2) == subst_ty(rs@[j]@, s2) && shallow(
                    ls@[j]@,
                ) && shallow(rs@[j]@)) ==> final(errs)@ == old(errs)@ && refines(s2, smap(final(s)@))
                && values_shallow(smap(final(s)@)),
    decreases usize::MAX - base.len(), bound, 1nat,
{
    let ghost s0 = smap(s@);
    let ghost seq0 = s@;
    let ghost e0 = errs@;
    proof {
        lemma_refines_refl(s0);
        assert(errs@.subrange(0, e0.len() as int) =~= e0);
    }
    let mut i: usize = 0;
    while i < n
        invariant
            i <= n,
            n <= ls@.len(),
            n <= rs@.len(),
            forall|j: int| 0 <= j < n ==> subst_ty(#[trigger] ls@[j]@, smap(base)) == ls@[j]@,
            forall|j: int| 0 <= j < n ==> subst_ty(#[trigger] rs@[j]@, smap(base)) == rs@[j]@,
            forall|j: int| 0 <= j < n ==> ty_size(#[trigger] ls@[j]@) + ty_size(rs@[j]@) < bound,
            idempotent(s0),
            s0 == smap(seq0),
            seq0.len() > base.len() || seq0 == base,
            idempotent(smap(s@)),
            refines(smap(s@), s0),
            s@.len() > seq0.len() || s@ == seq0,
            errs@.len() >= e0.len(),
            errs@.subrange(0, e0.len() as int) == e0,
            errs@.len() == e0.len() ==> forall|j: int|
                0 <= j < i ==> #[trigger] unifies(
                    subst_ty(ls@[j]@, smap(s@)),
                    subst_ty(rs@[j]@, smap(s@)),
                ),
            (forall|j: int|
                0 <= j < n ==> #[trigger] unifies(subst_ty(ls@[j]@, s0), subst_ty(rs@[j]@, s0)))
                ==> s@ == seq0 && errs@ == e0,
            forall|s2: Map<u64, TyV>|
                #[trigger] refines(s2, s0) && values_shallow(s0) && (forall|j: int|
                    0 <= j < n ==> #[trigger] subst_ty(ls@[j]@, s2) == subst_ty(rs@[j]@, s2) && shallow(
                        ls@[j]@,
                    ) && shallow(rs@[j]@)) ==> errs@ == e0 && refines(s2, smap(s@)) && values_shallow(
                    smap(s@),
                ),
        decreases n - i,
    {
        let ghost sc = smap(s@);
        let ghost ec = errs@;
        proof {
            assert(subst_ty(ls@[i as int]@, smap(base)) == ls@[i as int]@);
            assert(subst_ty(rs@[i as int]@, smap(base)) == rs@[i as int]@);
            assert(ty_size(ls@[i as int]@) + ty_size(rs@[i as int]@) < bound);
            assert(s@.len() == s.len());
            assert(s@.len() <= usize::MAX);
            if s@.len() <= base.len() {
                assert(s@ == base);
                assert(ty_size(subst_ty(ls@[i as int]@, smap(s@))) + ty_size(
                    subst_ty(rs@[i as int]@, smap(s@)),
                ) < bound);
            }
        }
        unify_pair(s, &ls[i], &rs[i], errs);
        proof {
            assert forall|s2: Map<u64, TyV>|
                #[trigger] refines(s2, s0) && values_shallow(s0) && (forall|j: int|
                    0 <= j < n ==> #[trigger] subst_ty(ls@[j]@, s2) == subst_ty(rs@[j]@, s2) && shallow(
                        ls@[j]@,
                    ) && shallow(rs@[j]@)) implies errs@ == e0 && refines(s2, smap(s@)) && values_shallow(
                smap(s@),
            ) by {
                assert(subst_ty(ls@[i as int]@, s2) == subst_ty(rs@[i as int]@, s2));
                assert(refines(s2, sc));
                crate::type_analysis::mgu::lemma_subst_shallow(ls@[i as int]@, sc);
                crate::type_analysis::mgu::lemma_subst_shallow(rs@[i as int]@, sc);
                assert(subst_ty(ls@[i as int]@, s2) == subst_ty(subst_ty(ls@[i as int]@, sc), s2));
                assert(subst_ty(rs@[i as int]@, s2) == subst_ty(subst_ty(rs@[i as int]@, sc), s2));
            }
            lemma_refines_trans(smap(s@), sc, s0);
            assert(errs@.subrange(0, e0.len() as int) =~= ec.subrange(0, e0.len() as int));
            if errs@.len() == e0.len() {
                assert forall|j: int| 0 <= j < i + 1 implies #[trigger] unifies(
                    subst_ty(ls@[j]@, smap(s@)),
                    subst_ty(rs@[j]@, smap(s@)),
                ) by {
                    if j < i {
                        lemma_unifies_refined(ls@[j]@, rs@[j]@, sc, smap(s@));
                    }
                }
            }
        }
        i = i + 1;
    }
}

/// Facts about a resolved function type that unifying it input by input and output by output
/// needs.
proof fn lemma_fn_pair(ts: Seq<Ty>, s: Map<u64, TyV>, other: nat, total: nat)
    requires
        forall|x: u64| occurs_tys(x, tys_view(ts)) ==> !s.contains_key(x),
        tys_view(ts).len() == ts.len(),
        1 + crate::type_analysis::subst::tys_size(tys_view(ts)) + other <= total,
    ensures
        forall|j: int| 0 <= j < ts.len() ==> subst_ty(#[trigger] ts[j]@, s) == ts[j]@,
        forall|j: int| 0 <= j < ts.len() ==> ty_size(#[trigger] ts[j]@) + other < total,
{
    lemma_tys_view(ts);
    lemma_tys(tys_view(ts), s);
    assert forall|j: int| 0 <= j < ts.len() implies subst_ty(#[trigger] ts[j]@, s) == ts[j]@ by {
        lemma_resolved_elem(tys_view(ts), j, s);
    }
    assert forall|j: int| 0 <= j < ts.len() implies ty_size(#[trigger] ts[j]@) + other < total by {
        assert(ty_size(tys_view(ts)[j]) <= crate::type_analysis::subst::tys_size(tys_view(ts)));
    }
}

/// Solves the constraint `l ~ r`, extending the substitution; each failure is added to `errs`.
///
/// Variables are bound to the other side unless that would make a type infinite; function types
/// unify input by input and output by output; other types must be compatible as they stand.
pub fn unify_pair(s: &mut Vec<(u64, Ty)>, l: &Ty, r: &Ty, errs: &mut Vec<TypeAnalysisError>)
    requires
        idempotent(smap(old(s)@)),
    ensures
        idempotent(smap(final(s)@)),
        refines(smap(final(s)@), smap(old(s)@)),
        final(s)@.len() > old(s)@.len() || final(s)@ == old(s)@,
        final(errs)@.len() >= old(errs)@.len(),
        final(errs)@.subrange(0, old(errs)@.len() as int) == old(errs)@,
        final(errs)@.len() == old(errs)@.len() ==> unifies(
            subst_ty(l@, smap(final(s)@)),
            subst_ty(r@, smap(final(s)@)),
        ),
        unifies(subst_ty(l@, smap(old(s)@)), subst_ty(r@, smap(old(s)@))) ==> final(s)@ == old(s)@
            && final(errs)@ == old(errs)@,
        clash_text(subst_ty(l@, smap(old(s)@)), subst_ty(r@, smap(old(s)@))) matches Some(m)
            ==> final(s)@ == old(s)@ && final(errs)@.len() == old(errs)@.len() + 1 && error_text(
            final(errs)@.last(),
        ) == m,
        (subst_ty(l@, smap(old(s)@)) is Var || subst_ty(r@, smap(old(s)@)) is Var) && clash_text(
            subst_ty(l@, smap(old(s)@)),
            subst_ty(r@, smap(old(s)@)),
        ) is None ==> final(errs)@ == old(errs)@,
        forall|s2: Map<u64, TyV>|
            #[trigger] refines(s2, smap(old(s)@)) && subst_ty(l@, s2) == subst_ty(r@, s2) && shallow(
                subst_ty(l@, smap(old(s)@)),
            ) && shallow(subst_ty(r@, smap(old(s)@))) && values_shallow(smap(old(s)@))
                ==> final(errs)@ == old(errs)@ && refines(s2, smap(final(s)@)) && values_shallow(
                smap(final(s)@),
            ),
    decreases usize::MAX - old(s)@.len(), ty_size(subst_ty(l@, smap(old(s)@))) + ty_size(
        subst_ty(r@, smap(old(s)@)),
    ), 2nat,
{
    let ghost s0 = smap(s@);
    let ghost seq0 = s@;
    let ghost e0 = errs@;
    proof {
        lemma_refines_refl(s0);
        assert(errs@.subrange(0, e0.len() as int) =~= e0);
    }
    if can_resolve_unification(l, r) {
        proof {
            lemma_unifies_subst(l@, r@, s0);
        }
        return;
    }
    let lt = apply_with(s, l);
    let rt = apply_with(s, r);
    proof {
        lemma_subst_removes(l@, s0);
        lemma_subst_removes(r@, s0);
    }
    if can_resolve_unification(&lt, &rt) {
        return;
    }
    if let Ty::Var(id) = lt {
        proof {
            assert(occurs(id, lt@));
        }
        unify_type_var(s, id, rt, errs);
        proof {
            let s1 = smap(s@);
            assert(subst_ty(l@, s1) == subst_ty(lt@, s1));
            assert(subst_ty(r@, s1) == subst_ty(rt@, s1));
        }
        return;
    }
    if let Ty::Var(id) = rt {
        proof {
            assert(occurs(id, rt@));
        }
        unify_type_var(s, id, lt, errs);
        proof {
            let s1 = smap(s@);
            assert(subst_ty(l@, s1) == subst_ty(lt@, s1));
            assert(subst_ty(r@, s1) == subst_ty(rt@, s1));
        }
        return;
    }
    match (&lt, &rt) {
        (Ty::Func(lf), Ty::Func(rf)) => {
            let ghost li = tys_view(lf.ins@);
            let ghost lo = tys_view(lf.outs@);
            let ghost ri = tys_view(rf.ins@);
            let ghost ro = tys_view(rf.outs@);
            let ghost total = ty_size(lt@) + ty_size(rt@);
            proof {
                lemma_tys_view(lf.ins@);
                lemma_tys_view(lf.outs@);
                lemma_tys_view(rf.ins@);
                lemma_tys_view(rf.outs@);
                assert forall|x: u64| occurs_tys(x, li) implies !s0.contains_key(x) by {
                    assert(occurs(x, lt@));
                }
                assert forall|x: u64| occurs_tys(x, lo) implies !s0.contains_key(x) by {
                    assert(occurs(x, lt@));
                }
                assert forall|x: u64| occurs_tys(x, ri) implies !s0.contains_key(x) by {
                    assert(occurs(x, rt@));
                }
                assert forall|x: u64| occurs_tys(x, ro) implies !s0.contains_key(x) by {
                    assert(occurs(x, rt@));
                }
                lemma_fn_pair(lf.ins@, s0, ty_size(rt@), total);
                lemma_fn_pair(rf.ins@, s0, 0, ty_size(rt@));
                lemma_fn_pair(lf.outs@, s0, ty_size(rt@), total);
                lemma_fn_pair(rf.outs@, s0, 0, ty_size(rt@));
                assert forall|s2: Map<u64, TyV>|
                    #[trigger] refines(s2, s0) && subst_ty(l@, s2) == subst_ty(r@, s2) && shallow(lt@)
                        && shallow(rt@) && values_shallow(s0) implies li.len() == ri.len() && lo.len()
                    == ro.len() && (forall|j: int|
                    0 <= j < li.len() ==> #[trigger] subst_ty(lf.ins@[j]@, s2) == subst_ty(
                        rf.ins@[j]@,
                        s2,
                    ) && shallow(lf.ins@[j]@) && shallow(rf.ins@[j]@)) && (forall|j: int|
                    0 <= j < lo.len() ==> #[trigger] subst_ty(lf.outs@[j]@, s2) == subst_ty(
                        rf.outs@[j]@,
                        s2,
                    ) && shallow(lf.outs@[j]@) && shallow(rf.outs@[j]@)) by {
                    assert(subst_ty(l@, s2) == subst_ty(lt@, s2));
                    assert(subst_ty(r@, s2) == subst_ty(rt@, s2));
                    lemma_tys(li, s2);
                    lemma_tys(ri, s2);
                    lemma_tys(lo, s2);
                    lemma_tys(ro, s2);
                    crate::type_analysis::mgu::lemma_shallow_tys(li);
                    crate::type_analysis::mgu::lemma_shallow_tys(ri);
                    crate::type_analysis::mgu::lemma_shallow_tys(lo);
                    crate::type_analysis::mgu::lemma_shallow_tys(ro);
                    assert forall|j: int| 0 <= j < li.len() implies #[trigger] subst_ty(lf.ins@[j]@, s2)
                        == subst_ty(rf.ins@[j]@, s2) && shallow(lf.ins@[j]@) && shallow(rf.ins@[j]@) by {
                        assert(li[j] == lf.ins@[j]@);
                        assert(ri[j] == rf.ins@[j]@);
                        assert(subst_tys(li, s2)[j] == subst_tys(ri, s2)[j]);
                    }
                    assert forall|j: int| 0 <= j < lo.len() implies #[trigger] subst_ty(lf.outs@[j]@, s2)
                        == subst_ty(rf.outs@[j]@, s2) && shallow(lf.outs@[j]@) && shallow(rf.outs@[j]@) by {
                        assert(lo[j] == lf.outs@[j]@);
                        assert(ro[j] == rf.outs@[j]@);
                        assert(subst_tys(lo, s2)[j] == subst_tys(ro, s2)[j]);
                    }
                }
                if unifies(subst_ty(l@, s0), subst_ty(r@, s0)) {
                    assert(unifies(lt@, rt@));
                    lemma_unifies_tys_elems(li, ri);
                    lemma_unifies_tys_elems(lo, ro);
                    assert forall|j: int| 0 <= j < li.len() implies #[trigger] unifies(
                        subst_ty(lf.ins@[j]@, s0),
                        subst_ty(rf.ins@[j]@, s0),
                    ) by {
                        assert(li[j] == lf.ins@[j]@);
                        assert(ri[j] == rf.ins@[j]@);
                    }
                    assert forall|j: int| 0 <= j < lo.len() implies #[trigger] unifies(
                        subst_ty(lf.outs@[j]@, s0),
                        subst_ty(rf.outs@[j]@, s0),
                    ) by {
                        assert(lo[j] == lf.outs@[j]@);
                        assert(ro[j] == rf.outs@[j]@);
                    }
                }
            }
            if lf.ins.len() != rf.ins.len() || lf.outs.len() != rf.outs.len() {
                let a = lt.text();
                let b = rt.text();
                errs.push(TypeAnalysisError::UnexpectedTypes(a, b));
            }
            let ghost e1 = errs@;
            let n_in = if lf.ins.len() < rf.ins.len() {
                lf.ins.len()
            } else {
                rf.ins.len()
            };
            let n_out = if lf.outs.len() < rf.outs.len() {
                lf.outs.len()
            } else {
                rf.outs.len()
            };
            unify_seq(s, &lf.ins, &rf.ins, n_in, Ghost(seq0), Ghost(total), errs);
            let ghost sm = smap(s@);
            let ghost e2 = errs@;
            proof {
                if s@ != seq0 {
                } else {
                    assert(sm == s0);
                }
            }
            unify_seq(s, &lf.outs, &rf.outs, n_out, Ghost(seq0), Ghost(total), errs);
            proof {
                let sf = smap(s@);
                assert forall|s2: Map<u64, TyV>|
                    #[trigger] refines(s2, s0) && subst_ty(l@, s2) == subst_ty(r@, s2) && shallow(lt@)
                        && shallow(rt@) && values_shallow(s0) implies errs@ == e0 && refines(s2, sf)
                    && values_shallow(sf) by {
                    assert(lf.ins@.len() == rf.ins@.len());
                    assert(lf.outs@.len() == rf.outs@.len());
                    assert(e1 == e0);
                    assert(refines(s2, sm));
                }
                lemma_refines_trans(sf, sm, s0);
                assert(errs@.subrange(0, e0.len() as int) =~= e0) by {
                    assert(errs@.subrange(0, e2.len() as int) == e2);
                    assert(e2.subrange(0, e1.len() as int) == e1);
                    assert(errs@.subrange(0, e0.len() as int) =~= e2.subrange(0, e1.len() as int).subrange(0, e0.len() as int));
                }
                if errs@.len() == e0.len() {
                    assert(e1.len() == e0.len());
                    assert(e2.len() == e0.len());
                    lemma_tys(li, sf);
                    lemma_tys(ri, sf);
                    lemma_tys(lo, sf);
                    lemma_tys(ro, sf);
                    assert forall|j: int| 0 <= j < li.len() implies #[trigger] unifies(
                        subst_tys(li, sf)[j],
                        subst_tys(ri, sf)[j],
                    ) by {
                        lemma_unifies_refined(lf.ins@[j]@, rf.ins@[j]@, sm, sf);
                    }
                    assert forall|j: int| 0 <= j < lo.len() implies #[trigger] unifies(
                        subst_tys(lo, sf)[j],
                        subst_tys(ro, sf)[j],
                    ) by {
                        assert(unifies(subst_ty(lf.outs@[j]@, sf), subst_ty(rf.outs@[j]@, sf)));
                    }
                    lemma_unifies_tys_pointwise(subst_tys(li, sf), subst_tys(ri, sf));
                    lemma_unifies_tys_pointwise(subst_tys(lo, sf), subst_tys(ro, sf));
                    assert(subst_ty(l@, sf) == subst_ty(lt@, sf));
                    assert(subst_ty(r@, sf) == subst_ty(rt@, sf));
                }
            }
        },
        _ => {
            proof {
                assert forall|s2: Map<u64, TyV>|
                    #[trigger] refines(s2, s0) && subst_ty(l@, s2) == subst_ty(r@, s2) && shallow(lt@)
                        && shallow(rt@) && values_shallow(s0) implies false by {
                    assert(subst_ty(l@, s2) == subst_ty(lt@, s2));
                    assert(subst_ty(r@, s2) == subst_ty(rt@, s2));
                    if !(lt@ is Func) {
                        crate::type_analysis::mgu::lemma_shallow_fixed(lt@, s2);
                    }
                    if !(rt@ is Func) {
                        crate::type_analysis::mgu::lemma_shallow_fixed(rt@, s2);
                    }
                }
            }
            let a = lt.text();
            let b = rt.text();
            errs.push(TypeAnalysisError::UnexpectedTypes(a, b));
            proof {
                assert(errs@.subrange(0, e0.len() as int) =~= e0);
            }
        },
    }
}

/// The element type of an array type.
pub fn inner_type(a: &ArrayTy) -> (r: Ty)
    ensures
        r@ == inner_ty(a.elem@, dims_view(a.dims@)),
{
    let elem = a.elem.copy();
    if a.dims.len() <= 1 {
        elem
    } else {
        let mut dims: Vec<Dim> = Vec::new();
        let mut i: usize = 1;
        while i < a.dims.len()
            invariant
                1 <= i <= a.dims@.len(),
                dims@.len() == i - 1,
                forall|j: int| 0 <= j < i - 1 ==> #[trigger] dims@[j]@ == a.dims@[j + 1]@,
            decreases a.dims@.len() - i,
        {
            dims.push(a.dims[i].copy());
            i = i + 1;
        }
        proof {
            let dv = dims_view(a.dims@);
            assert(dims_view(dims@) =~= dv.subrange(1, dv.len() as int));
        }
        Ty::Array(ArrayTy { elem: Box::new(elem), dims })
    }
}

/// The type of the first member of `r` called `name`.
pub fn find_member<'a>(r: &'a RecordTy, name: &String) -> (m: Option<&'a Ty>)
    ensures
        match m {
            Some(t) => member_lookup(members_view(r.members@), name@) == Some(t@),
            None => member_lookup(members_view(r.members@), name@) is None,
        },
{
    let ghost mv = members_view(r.members@);
    proof {
        lemma_members_view(r.members@);
        assert(mv.subrange(0, mv.len() as int) =~= mv);
    }
    let mut i: usize = 0;
    while i < r.members.len()
        invariant
            i <= r.members.len(),
            mv == members_view(r.members@),
            mv.len() == r.members@.len(),
            forall|j: int|
                0 <= j < mv.len() ==> #[trigger] mv[j] == (MemberV {
                    name: r.members@[j].name@,
                    ty: ty_view(r.members@[j].ty),
                }),
            member_lookup(mv, name@) == member_lookup(mv.subrange(i as int, mv.len() as int), name@),
        decreases r.members.len() - i,
    {
        proof {
            let sub = mv.subrange(i as int, mv.len() as int);
            assert(sub.subrange(1, sub.len() as int) =~= mv.subrange(i + 1, mv.len() as int));
            assert(sub[0] == mv[i as int]);
        }
        if r.members[i].name == *name {
            return Some(&r.members[i].ty);
        }
        i = i + 1;
    }
    None
}

/// Solves the constraint that `arr` is an array type whose element type is `elt`.
pub fn unify_array_pair(s: &mut Vec<(u64, Ty)>, arr: &Ty, elt: &Ty, errs: &mut Vec<TypeAnalysisError>)
    requires
        idempotent(smap(old(s)@)),
    ensures
        idempotent(smap(final(s)@)),
        refines(smap(final(s)@), smap(old(s)@)),
        final(errs)@.len() >= old(errs)@.len(),
        final(errs)@.subrange(0, old(errs)@.len() as int) == old(errs)@,
        final(errs)@.len() == old(errs)@.len() ==> satisfied(
            Constraint::Array { arr: *arr, elt: *elt },
            smap(final(s)@),
        ),
        satisfied(Constraint::Array { arr: *arr, elt: *elt }, smap(old(s)@)) ==> final(s)@ == old(s)@
            && final(errs)@ == old(errs)@,
        forall|s2: Map<u64, TyV>|
            #[trigger] refines(s2, smap(old(s)@)) && subst_ty(arr@, smap(old(s)@)) is Array && shallow(
                subst_ty(arr@, smap(old(s)@)),
            ) && shallow(subst_ty(elt@, smap(old(s)@))) && values_shallow(smap(old(s)@))
                && array_equated(arr@, elt@, s2) ==> final(errs)@ == old(errs)@ && refines(
                s2,
                smap(final(s)@),
            ) && values_shallow(smap(final(s)@)),
{
    let ghost s0 = smap(s@);
    let at = apply_with(s, arr);
    match &at {
        Ty::Array(a) => {
            let inner = inner_type(a);
            proof {
                let e = a.elem@;
                let d = dims_view(a.dims@);
                if shallow(at@) {
                    assert forall|x: u64| !#[trigger] occurs(x, inner@) by {
                        assert(!occurs(x, e));
                        if d.len() > 1 {
                            assert(inner@ == TyV::Array(Box::new(e), d.subrange(1, d.len() as int)));
                        }
                    }
                    crate::type_analysis::mgu::lemma_ground_shallow(inner@);
                    lemma_subst_resolved(inner@, s0);
                    assert forall|s2: Map<u64, TyV>|
                        #[trigger] refines(s2, s0) && array_equated(arr@, elt@, s2) implies subst_ty(
                        inner@,
                        s2,
                    ) == subst_ty(elt@, s2) by {
                        crate::type_analysis::mgu::lemma_shallow_fixed(at@, s2);
                        lemma_subst_resolved(inner@, s2);
                        assert(subst_ty(arr@, s2) == subst_ty(at@, s2));
                    }
                }
            }
            proof {
                lemma_subst_twice(arr@, s0);
                let d = dims_view(a.dims@);
                if d.len() > 1 {
                    assert(subst_ty(inner@, s0) == TyV::Array(
                        Box::new(subst_ty(a.elem@, s0)),
                        d.subrange(1, d.len() as int),
                    ));
                }
            }
            unify_pair(s, &inner, elt, errs);
            proof {
                let sf = smap(s@);
                assert(subst_ty(arr@, sf) == subst_ty(at@, sf));
                let d = dims_view(a.dims@);
                if d.len() > 1 {
                    assert(subst_ty(inner@, sf) == TyV::Array(
                        Box::new(subst_ty(a.elem@, sf)),
                        d.subrange(1, d.len() as int),
                    ));
                }
            }
        },
        _ => {
            proof {
                lemma_refines_refl(s0);
            }
            let t = at.text();
            errs.push(TypeAnalysisError::ExpectedArray(t));
            proof {
                assert(errs@.subrange(0, old(errs)@.len() as int) =~= old(errs)@);
            }
        },
    }
}

/// Solves the constraint that `st` is a struct-like type with a member `name` of type `mem`.
pub fn unify_member_pair(
    s: &mut Vec<(u64, Ty)>,
    st: &Ty,
    name: &String,
    mem: &Ty,
    errs: &mut Vec<TypeAnalysisError>,
)
    requires
        idempotent(smap(old(s)@)),
    ensures
        idempotent(smap(final(s)@)),
        refines(smap(final(s)@), smap(old(s)@)),
        final(errs)@.len() >= old(errs)@.len(),
        final(errs)@.subrange(0, old(errs)@.len() as int) == old(errs)@,
        final(errs)@.len() == old(errs)@.len() ==> satisfied(
            Constraint::Member { str: *st, name: *name, mem: *mem },
            smap(final(s)@),
        ),
        satisfied(Constraint::Member { str: *st, name: *name, mem: *mem }, smap(old(s)@))
            ==> final(s)@ == old(s)@ && final(errs)@ == old(errs)@,
{
    let ghost s0 = smap(s@);
    proof {
        lemma_refines_refl(s0);
    }
    let t = apply_with(s, st);
    match &t {
        Ty::Record(r) => match find_member(r, name) {
            Some(mt) => {
                proof {
                    lemma_subst_twice(st@, s0);
                    lemma_member_lookup_subst(members_view(r.members@), name@, s0);
                }
                unify_pair(s, mt, mem, errs);
                proof {
                    let sf = smap(s@);
                    assert(subst_ty(st@, sf) == subst_ty(t@, sf));
                    lemma_member_lookup_subst(members_view(r.members@), name@, sf);
                }
            },
            None => {
                let a = t.text();
                errs.push(TypeAnalysisError::ExpectedMember(a, name.clone()));
                proof {
                    assert(errs@.subrange(0, old(errs)@.len() as int) =~= old(errs)@);
                }
            },
        },
        _ => {
            let a = t.text();
            errs.push(TypeAnalysisError::ExpectedStruct(a));
            proof {
                assert(errs@.subrange(0, old(errs)@.len() as int) =~= old(errs)@);
            }
        },
    }
}

/// The binding of a variable local, when it has one; any other type stays as it is.
pub open spec fn prop_ty(t: TyV, s: Map<u64, TyV>) -> TyV {
    match t {
        TyV::Var(id) => if s.contains_key(id) {
            s[id]
        } else {
            t
        },
        _ => t,
    }
}

/// [`prop_ty`] on each input and output of a function type.
pub open spec fn prop_fn(f: TyV, s: Map<u64, TyV>) -> TyV {
    match f {
        TyV::Func(ins, outs) => TyV::Func(
            ins.map_values(|t: TyV| prop_ty(t, s)),
            outs.map_values(|t: TyV| prop_ty(t, s)),
        ),
        _ => f,
    }
}

/// `n` is `o` with [`prop_ty`] applied to its locals and [`prop_fn`] to its predicates.
pub open spec fn scope_propagated(
    o: Scope<Ty, FnTy, ()>,
    n: Scope<Ty, FnTy, ()>,
    s: Map<u64, TyV>,
) -> bool {
    &&& n.locals@.len() == o.locals@.len()
    &&& forall|j: int|
        0 <= j < o.locals@.len() ==> #[trigger] n.locals@[j].0@ == o.locals@[j].0@
            && n.locals@[j].1@ == prop_ty(o.locals@[j].1@, s)
    &&& n.predicates@.len() == o.predicates@.len()
    &&& forall|j: int|
        0 <= j < o.predicates@.len() ==> #[trigger] n.predicates@[j].0@ == o.predicates@[j].0@
            && n.predicates@[j].1@ == prop_fn(o.predicates@[j].1@, s)
    &&& n.params == o.params
    &&& n.outputs == o.outputs
    &&& n.loops == o.loops
    &&& n.local_limit == o.local_limit
}

/// Looking a name up in the locals of a propagated scope finds the propagated binding.
pub proof fn lemma_assoc_propagated(o: Seq<(String, Ty)>, n: Seq<(String, Ty)>, k: Seq<char>, s: Map<u64, TyV>)
    requires
        n.len() == o.len(),
        forall|j: int| 0 <= j < o.len() ==> #[trigger] n[j].0@ == o[j].0@ && n[j].1@ == prop_ty(o[j].1@, s),
    ensures
        match crate::type_analysis::scope::assoc(o, k) {
            Some(t) => crate::type_analysis::scope::assoc(n, k) matches Some(u) && u@ == prop_ty(t@, s),
            None => crate::type_analysis::scope::assoc(n, k) is None,
        },
    decreases o.len(),
{
    if o.len() > 0 {
        assert(n.last().0@ == o.last().0@);
        assert forall|j: int| 0 <= j < o.drop_last().len() implies #[trigger] n.drop_last()[j].0@ == o.drop_last()[j].0@
            && n.drop_last()[j].1@ == prop_ty(o.drop_last()[j].1@, s) by {
            assert(n.drop_last()[j] == n[j]);
            assert(o.drop_last()[j] == o[j]);
        }
        lemma_assoc_propagated(o.drop_last(), n.drop_last(), k, s);
    }
}

/// A name bound in the predicates of a scope stays bound in the propagated scope.
pub proof fn lemma_assoc_names<V, W>(o: Seq<(String, V)>, n: Seq<(String, W)>, k: Seq<char>)
    requires
        n.len() == o.len(),
        forall|j: int| 0 <= j < o.len() ==> #[trigger] n[j].0@ == o[j].0@,
    ensures
        crate::type_analysis::scope::assoc(o, k) is Some ==> crate::type_analysis::scope::assoc(n, k) is Some,
    decreases o.len(),
{
    if o.len() > 0 {
        assert(n.last().0@ == o.last().0@);
        assert forall|j: int| 0 <= j < o.drop_last().len() implies #[trigger] n.drop_last()[j].0@
            == o.drop_last()[j].0@ by {
            assert(n.drop_last()[j] == n[j]);
            assert(o.drop_last()[j] == o[j]);
        }
        lemma_assoc_names(o.drop_last(), n.drop_last(), k);
    }
}

/// Looking a local up in propagated scopes finds the propagated binding.
pub proof fn lemma_lookup_propagated(
    o: Seq<Scope<Ty, FnTy, ()>>,
    n: Seq<Scope<Ty, FnTy, ()>>,
    k: Seq<char>,
    s: Map<u64, TyV>,
)
    requires
        n.len() == o.len(),
        forall|i: int| 0 <= i < o.len() ==> scope_propagated(#[trigger] o[i], n[i], s),
    ensures
        match crate::type_analysis::scope::lookup_local(o, k) {
            Some(t) => crate::type_analysis::scope::lookup_local(n, k) matches Some(u) && u@ == prop_ty(t@, s),
            None => crate::type_analysis::scope::lookup_local(n, k) is None,
        },
    decreases o.len(),
{
    if o.len() > 0 {
        assert(scope_propagated(o.last(), n.last(), s));
        lemma_assoc_propagated(o.last().locals@, n.last().locals@, k, s);
        assert forall|i: int| 0 <= i < o.drop_last().len() implies scope_propagated(
            #[trigger] o.drop_last()[i],
            n.drop_last()[i],
            s,
        ) by {
            assert(o.drop_last()[i] == o[i]);
            assert(n.drop_last()[i] == n[i]);
            assert(scope_propagated(o[i], n[i], s));
        }
        lemma_lookup_propagated(o.drop_last(), n.drop_last(), k, s);
    }
}

/// Propagating a binding does not change what the substitution resolves it to.
pub proof fn lemma_prop_resolves(t: TyV, s: Map<u64, TyV>)
    requires
        idempotent(s),
    ensures
        subst_ty(prop_ty(t, s), s) == subst_ty(t, s),
{
    match t {
        TyV::Var(id) => {
            if s.contains_key(id) {
                lemma_subst_twice(t, s);
            }
        },
        _ => {},
    }
}

/// [`prop_ty`] on an executable type.
fn prop_one(subst: &Vec<(u64, Ty)>, t: &Ty) -> (r: Ty)
    ensures
        r@ == prop_ty(t@, smap(subst@)),
{
    match t {
        Ty::Var(id) => match lookup_binding(subst, *id) {
            Some(v) => v.copy(),
            None => Ty::Var(*id),
        },
        _ => t.copy(),
    }
}

/// [`prop_ty`] on each type of a sequence.
fn prop_many(subst: &Vec<(u64, Ty)>, ts: &Vec<Ty>) -> (r: Vec<Ty>)
    ensures
        tys_view(r@) == tys_view(ts@).map_values(|t: TyV| prop_ty(t, smap(subst@))),
{
    let mut r: Vec<Ty> = Vec::new();
    let mut i: usize = 0;
    while i < ts.len()
        invariant
            i <= ts.len(),
            r@.len() == i,
            forall|j: int| 0 <= j < i ==> #[trigger] ty_view(r@[j]) == prop_ty(ty_view(ts@[j]), smap(subst@)),
        decreases ts.len() - i,
    {
        r.push(prop_one(subst, &ts[i]));
        i = i + 1;
    }
    proof {
        lemma_tys_view(r@);
        lemma_tys_view(ts@);
        assert(tys_view(r@) =~= tys_view(ts@).map_values(|t: TyV| prop_ty(t, smap(subst@))));
    }
    r
}

/// Propagates the substitution into the locals and predicates of one scope.
fn propagate_scope(scope: &mut Scope<Ty, FnTy, ()>, subst: &Vec<(u64, Ty)>)
    ensures
        scope_propagated(*old(scope), *final(scope), smap(subst@)),
{
    let mut locals: Vec<(String, Ty)> = Vec::new();
    let mut j: usize = 0;
    while j < scope.locals.len()
        invariant
            j <= scope.locals@.len(),
            scope == old(scope),
            locals@.len() == j,
            forall|k: int|
                0 <= k < j ==> #[trigger] locals@[k].0@ == scope.locals@[k].0@ && locals@[k].1@
                    == prop_ty(scope.locals@[k].1@, smap(subst@)),
        decreases scope.locals@.len() - j,
    {
        let t = prop_one(subst, &scope.locals[j].1);
        locals.push((scope.locals[j].0.clone(), t));
        j = j + 1;
    }
    let mut preds: Vec<(String, FnTy)> = Vec::new();
    let mut k: usize = 0;
    while k < scope.predicates.len()
        invariant
            k <= scope.predicates@.len(),
            scope == old(scope),
            preds@.len() == k,
            forall|q: int|
                0 <= q < k ==> #[trigger] preds@[q].0@ == scope.predicates@[q].0@ && preds@[q].1@
                    == prop_fn(scope.predicates@[q].1@, smap(subst@)),
        decreases scope.predicates@.len() - k,
    {
        let f = &scope.predicates[k].1;
        let ins = prop_many(subst, &f.ins);
        let outs = prop_many(subst, &f.outs);
        preds.push((scope.predicates[k].0.clone(), FnTy { ins, outs }));
        k = k + 1;
    }
    scope.locals = locals;
    scope.predicates = preds;
}

impl ScopeStack<Ty, FnTy, ()> {
    /// Propagates resolved types into the locals and predicates bound in the scopes: a local
    /// whose type is a bound variable takes the variable's binding, and so does each input and
    /// output of a predicate's type that is a bound variable.
    pub fn propagate(&mut self, subst: &Vec<(u64, Ty)>)
        ensures
            final(self).scopes@.len() == old(self).scopes@.len(),
            forall|i: int|
                0 <= i < old(self).scopes@.len() ==> scope_propagated(
                    #[trigger] old(self).scopes@[i],
                    final(self).scopes@[i],
                    smap(subst@),
                ),
    {
        let ghost o = self.scopes@;
        let mut i: usize = 0;
        while i < self.scopes.len()
            invariant
                i <= self.scopes@.len(),
                self.scopes@.len() == o.len(),
                forall|k: int|
                    0 <= k < i ==> scope_propagated(#[trigger] o[k], self.scopes@[k], smap(subst@)),
                forall|k: int| i <= k < o.len() ==> #[trigger] self.scopes@[k] == o[k],
            decreases o.len() - i,
        {
            propagate_scope(&mut self.scopes[i], subst);
            i = i + 1;
        }
    }
}

/// The message of the error that the constraint `c` meets at once under `s`: only an equality
/// constraint can meet one (see [`clash_text`]).
pub open spec fn eq_clash(c: Constraint, s: Map<u64, TyV>) -> Option<Seq<char>> {
    match c {
        Constraint::Eq { lhs, rhs } => clash_text(subst_ty(lhs@, s), subst_ty(rhs@, s)),
        _ => None,
    }
}

/// The `j`-th constraint of `q` is the first that `s` does not solve, and it meets an error at
/// once.
pub open spec fn first_clash(q: Seq<Constraint>, s: Map<u64, TyV>, j: int) -> bool {
    &&& 0 <= j < q.len()
    &&& forall|k: int| 0 <= k < j ==> satisfied(#[trigger] q[k], s)
    &&& eq_clash(q[j], s) is Some
}

/// `c` equates a type that `s` leaves a variable with a type that does not contain it: solving
/// it binds the variable.
pub open spec fn binds_freely(c: Constraint, s: Map<u64, TyV>) -> bool {
    match c {
        Constraint::Eq { lhs, rhs } => (subst_ty(lhs@, s) is Var || subst_ty(rhs@, s) is Var)
            && clash_text(subst_ty(lhs@, s), subst_ty(rhs@, s)) is None,
        _ => false,
    }
}

/// Whether `s` solves every constraint of the queue `q`.
pub open spec fn queue_ok(q: Seq<Constraint>, s: Map<u64, TyV>) -> bool {
    forall|j: int| 0 <= j < q.len() ==> satisfied(#[trigger] q[j], s)
}

/// A solved queue stays solved when the substitution is refined.
pub proof fn lemma_queue_refined(q: Seq<Constraint>, s1: Map<u64, TyV>, s2: Map<u64, TyV>)
    requires
        queue_ok(q, s1),
        refines(s2, s1),
    ensures
        queue_ok(q, s2),
{
    assert forall|j: int| 0 <= j < q.len() implies satisfied(#[trigger] q[j], s2) by {
        lemma_satisfied_refined(q[j], s1, s2);
    }
}

/// Shared type inference context used during type checking.
pub struct TypeInferenceCtx {
    /// The names visible at the current point.
    pub scope: ScopeStack<Ty, FnTy, ()>,
    /// Constraints waiting for the next call to [`TypeInferenceCtx::unify`].
    pub constraints: Vec<Constraint>,
    /// The factory of types.
    pub ts: Context,
    /// The substitution that unification has built so far.
    pub subst: Vec<(u64, Ty)>,
}

impl TypeInferenceCtx {
    /// The context is ready for use: the scope stack holds its root and the substitution is
    /// idempotent.
    pub open spec fn wf(&self) -> bool {
        self.scope.wf() && idempotent(smap(self.subst@))
    }

    /// The substitution the context stands for.
    pub open spec fn substitution(&self) -> Map<u64, TyV> {
        smap(self.subst@)
    }

    /// Creates a context with an empty root scope, no constraints and no bindings.
    pub fn new(ts: Context) -> (r: TypeInferenceCtx)
        ensures
            r.wf(),
            r.scope.scopes@.len() == 1,
            r.scope.scopes@[0].local_limit,
            crate::type_analysis::scope::is_empty_scope(r.scope.scopes@[0]),
            r.constraints@.len() == 0,
            r.subst@.len() == 0,
            r.ts == ts,
    {
        let r = TypeInferenceCtx {
            scope: ScopeStack::new(()),
            constraints: Vec::new(),
            ts,
            subst: Vec::new(),
        };
        proof {
            assert(smap(r.subst@) == Map::<u64, TyV>::empty());
            assert(idempotent(smap(r.subst@)));
        }
        r
    }

    /// The type factory.
    pub fn ts(&mut self) -> (r: &mut Context)
        ensures
            *r == old(self).ts,
            final(self).ts == *final(r),
            final(self).scope == old(self).scope,
            final(self).constraints == old(self).constraints,
            final(self).subst == old(self).subst,
    {
        &mut self.ts
    }

    /// The scope stack.
    pub fn scope(&mut self) -> (r: &mut ScopeStack<Ty, FnTy, ()>)
        ensures
            *r == old(self).scope,
            final(self).scope == *final(r),
            final(self).ts == old(self).ts,
            final(self).constraints == old(self).constraints,
            final(self).subst == old(self).subst,
    {
        &mut self.scope
    }

    /// Enqueues the constraint `lhs ~ rhs`, unless the two types are equal.
    pub fn add_constraint(&mut self, lhs: Ty, rhs: Ty)
        ensures
            final(self).constraints@ == if lhs@ == rhs@ {
                old(self).constraints@
            } else {
                old(self).constraints@.push(Constraint::Eq { lhs, rhs })
            },
            forall|s: Map<u64, TyV>|
                #[trigger] queue_ok(final(self).constraints@, s) ==> queue_ok(
                    old(self).constraints@,
                    s,
                ) && unifies(subst_ty(lhs@, s), subst_ty(rhs@, s)),
            final(self).scope == old(self).scope,
            final(self).ts == old(self).ts,
            final(self).subst == old(self).subst,
    {
        if lhs.same(&rhs) {
            return;
        }
        let ghost l = lhs@;
        let ghost r = rhs@;
        self.constraints.push(Constraint::new(lhs, rhs));
        proof {
            assert forall|s: Map<u64, TyV>| #[trigger] queue_ok(self.constraints@, s) implies queue_ok(
                old(self).constraints@,
                s,
            ) && unifies(subst_ty(l, s), subst_ty(r, s)) by {
                assert(satisfied(self.constraints@[old(self).constraints@.len() as int], s));
                assert forall|j: int| 0 <= j < old(self).constraints@.len() implies satisfied(
                    #[trigger] old(self).constraints@[j],
                    s,
                ) by {
                    assert(self.constraints@[j] == old(self).constraints@[j]);
                }
            }
        }
    }

    /// Enqueues the constraint that `arr` is an array of `elt`, unless `arr` already is an array
    /// type whose element type is `elt`.
    pub fn add_array_constraint(&mut self, arr: Ty, elt: Ty)
        ensures
            final(self).constraints@ == if (arr@ matches TyV::Array(e, d) && inner_ty(*e, d)
                == elt@) {
                old(self).constraints@
            } else {
                old(self).constraints@.push(Constraint::Array { arr, elt })
            },
            forall|s: Map<u64, TyV>|
                #[trigger] queue_ok(final(self).constraints@, s) ==> queue_ok(
                    old(self).constraints@,
                    s,
                ) && satisfied(Constraint::Array { arr, elt }, s),
            final(self).scope == old(self).scope,
            final(self).ts == old(self).ts,
            final(self).subst == old(self).subst,
    {
        let ghost c = Constraint::Array { arr, elt };
        if let Ty::Array(a) = &arr {
            let inner = inner_type(a);
            if inner.same(&elt) {
                proof {
                    assert forall|s: Map<u64, TyV>| #[trigger] queue_ok(self.constraints@, s) implies queue_ok(
                        old(self).constraints@,
                        s,
                    ) && satisfied(c, s) by {
                        let d = dims_view(a.dims@);
                        if d.len() > 1 {
                            assert(subst_ty(inner@, s) == TyV::Array(
                                Box::new(subst_ty(a.elem@, s)),
                                d.subrange(1, d.len() as int),
                            ));
                        }
                    }
                }
                return;
            }
        }
        self.constraints.push(Constraint::new_array(arr, elt));
        proof {
            assert forall|s: Map<u64, TyV>| #[trigger] queue_ok(self.constraints@, s) implies queue_ok(
                old(self).constraints@,
                s,
            ) && satisfied(c, s) by {
                assert(satisfied(self.constraints@[old(self).constraints@.len() as int], s));
                assert forall|j: int| 0 <= j < old(self).constraints@.len() implies satisfied(
                    #[trigger] old(self).constraints@[j],
                    s,
                ) by {
                    assert(self.constraints@[j] == old(self).constraints@[j]);
                }
            }
        }
    }

    /// Enqueues the constraint that `str` has a member `name` of type `mem`.
    pub fn add_member_constraint(&mut self, str: Ty, name: String, mem: Ty)
        ensures
            final(self).constraints@ == old(self).constraints@.push(
                Constraint::Member { str, name, mem },
            ),
            forall|s: Map<u64, TyV>|
                #[trigger] queue_ok(final(self).constraints@, s) ==> queue_ok(
                    old(self).constraints@,
                    s,
                ) && satisfied(Constraint::Member { str, name, mem }, s),
            final(self).scope == old(self).scope,
            final(self).ts == old(self).ts,
            final(self).subst == old(self).subst,
    {
        let ghost c = Constraint::Member { str, name, mem };
        self.constraints.push(Constraint::new_member(str, name, mem));
        proof {
            assert forall|s: Map<u64, TyV>| #[trigger] queue_ok(self.constraints@, s) implies queue_ok(
                old(self).constraints@,
                s,
            ) && satisfied(c, s) by {
                assert(satisfied(self.constraints@[old(self).constraints@.len() as int], s));
                assert forall|j: int| 0 <= j < old(self).constraints@.len() implies satisfied(
                    #[trigger] old(self).constraints@[j],
                    s,
                ) by {
                    assert(self.constraints@[j] == old(self).constraints@[j]);
                }
            }
        }
    }

    /// The most concrete form of `t` known so far.
    pub fn resolve(&self, t: &Ty) -> (r: Ty)
        ensures
            r@ == subst_ty(t@, smap(self.subst@)),
    {
        apply_with(&self.subst, t)
    }

    /// Solves the enqueued constraints, in order, and propagates the result into the scopes.
    ///
    /// On success every enqueued constraint holds under the new substitution; on failure the
    /// errors met are returned, at least one. Either way the queue is emptied, and the new
    /// substitution keeps every decision of the old one.
    ///
    /// A queue of [`admissible`] constraints (equalities between [`shallow`] types, and array
    /// constraints whose array side is forced) that some refinement of the substitution solves
    /// exactly ([`equated`]) is solved, by the most general such substitution: every such
    /// solution refines the new one. A queue the substitution already solves changes nothing. The first constraint that
    /// meets an error at once (see [`clash_text`]) reports it first.
    pub fn unify(&mut self) -> (r: Result<(), Vec<TypeAnalysisError>>)
        requires
            old(self).wf(),
        ensures
            final(self).wf(),
            final(self).constraints@.len() == 0,
            refines(smap(final(self).subst@), smap(old(self).subst@)),
            r is Ok ==> queue_ok(old(self).constraints@, smap(final(self).subst@)),
            r matches Err(es) ==> es@.len() > 0,
            queue_ok(old(self).constraints@, smap(old(self).subst@)) ==> r is Ok && final(self).subst@
                == old(self).subst@,
            old(self).constraints@.len() > 0 && queue_ok(
                old(self).constraints@.drop_last(),
                smap(old(self).subst@),
            ) && binds_freely(old(self).constraints@.last(), smap(old(self).subst@)) ==> r is Ok,
            forall|s2: Map<u64, TyV>|
                #[trigger] refines(s2, smap(old(self).subst@)) && (forall|j: int|
                    0 <= j < old(self).constraints@.len() ==> #[trigger] equated(
                        old(self).constraints@[j],
                        s2,
                    )) && (forall|j: int|
                    0 <= j < old(self).constraints@.len() ==> #[trigger] admissible(
                        old(self).constraints@,
                        j,
                        smap(old(self).subst@),
                    )) && values_shallow(smap(old(self).subst@)) ==> r is Ok && refines(
                    s2,
                    smap(final(self).subst@),
                ),
            forall|j: int|
                #[trigger] first_clash(old(self).constraints@, smap(old(self).subst@), j) ==> (
                r matches Err(es) && es@.len() > 0 && Some(error_text(es@[0])) == eq_clash(
                    old(self).constraints@[j],
                    smap(old(self).subst@),
                )),
            forall|j: int|
                #[trigger] first_clash(old(self).constraints@, smap(old(self).subst@), j) && (forall|k: int|
                    j < k < old(self).constraints@.len() ==> #[trigger] satisfied(
                        old(self).constraints@[k],
                        smap(old(self).subst@),
                    )) ==> (r matches Err(es) && es@.len() == 1),
            final(self).scope.scopes@.len() == old(self).scope.scopes@.len(),
            forall|i: int|
                0 <= i < old(self).scope.scopes@.len() ==> scope_propagated(
                    #[trigger] old(self).scope.scopes@[i],
                    final(self).scope.scopes@[i],
                    smap(final(self).subst@),
                ),
            final(self).ts == old(self).ts,
    {
        let mut cs: Vec<Constraint> = Vec::new();
        std::mem::swap(&mut cs, &mut self.constraints);
        let ghost s0 = smap(self.subst@);
        proof {
            lemma_refines_refl(s0);
        }
        let mut errs: Vec<TypeAnalysisError> = Vec::new();
        let ghost c0 = cs@;
        let ghost scope0 = self.scope;
        let ghost ts0 = self.ts;
        assert(c0 == old(self).constraints@);
        let mut i: usize = 0;
        while i < cs.len()
            invariant
                i <= cs@.len(),
                cs@ == c0,
                self.constraints@.len() == 0,
                self.scope == scope0,
                self.ts == ts0,
                idempotent(smap(self.subst@)),
                refines(smap(self.subst@), s0),
                errs@.len() == 0 ==> forall|j: int|
                    0 <= j < i ==> satisfied(#[trigger] cs@[j], smap(self.subst@)),
                (forall|k: int| 0 <= k < i ==> satisfied(#[trigger] c0[k], s0)) ==> errs@.len() == 0
                    && self.subst@ == old(self).subst@,
                s0 == smap(old(self).subst@),
                forall|j: int|
                    0 <= j < i && #[trigger] first_clash(c0, s0, j) ==> errs@.len() > 0 && Some(
                        error_text(errs@[0]),
                    ) == eq_clash(c0[j], s0),
                forall|j: int|
                    0 <= j < i && #[trigger] first_clash(c0, s0, j) && (forall|k: int|
                        j < k < c0.len() ==> #[trigger] satisfied(c0[k], s0)) ==> errs@.len() == 1
                        && smap(self.subst@) == s0,
                c0.len() > 0 && queue_ok(c0.drop_last(), s0) && binds_freely(c0.last(), s0) && i
                    == c0.len() ==> errs@.len() == 0,
                forall|s2: Map<u64, TyV>|
                    #[trigger] refines(s2, s0) && (forall|j: int|
                        0 <= j < c0.len() ==> #[trigger] equated(c0[j], s2)) && (forall|j: int|
                        0 <= j < c0.len() ==> #[trigger] admissible(c0, j, s0)) && values_shallow(s0)
                        ==> errs@.len() == 0 && refines(s2, smap(self.subst@)) && values_shallow(
                        smap(self.subst@),
                    ),
            decreases cs@.len() - i,
        {
            let ghost sc = smap(self.subst@);
            let ghost ec = errs@;
            let ghost all_before = forall|k: int| 0 <= k < i ==> satisfied(#[trigger] c0[k], s0);
            proof {
                if queue_ok(c0, s0) {
                    assert(satisfied(cs@[i as int], sc));
                }
                if c0.len() > 0 && queue_ok(c0.drop_last(), s0) && i < c0.len() - 1 {
                    assert(satisfied(c0.drop_last()[i as int], s0));
                }
                if c0.len() > 0 && queue_ok(c0.drop_last(), s0) {
                    assert forall|k: int| 0 <= k < i && k < c0.len() - 1 implies satisfied(#[trigger] c0[k], s0) by {
                        assert(c0.drop_last()[k] == c0[k]);
                    }
                }
            }
            match &cs[i] {
                Constraint::Eq { lhs, rhs } => unify_pair(&mut self.subst, lhs, rhs, &mut errs),
                Constraint::Array { arr, elt } => unify_array_pair(&mut self.subst, arr, elt, &mut errs),
                Constraint::Member { str, name, mem } => unify_member_pair(
                    &mut self.subst,
                    str,
                    name,
                    mem,
                    &mut errs,
                ),
            }
            proof {
                assert forall|s2: Map<u64, TyV>|
                    #[trigger] refines(s2, s0) && (forall|j: int|
                        0 <= j < c0.len() ==> #[trigger] equated(c0[j], s2)) && (forall|j: int|
                        0 <= j < c0.len() ==> #[trigger] admissible(c0, j, s0)) && values_shallow(s0)
                        implies errs@.len() == 0 && refines(s2, smap(self.subst@)) && values_shallow(
                    smap(self.subst@),
                ) by {
                    assert(equated(c0[i as int], s2));
                    assert(admissible(c0, i as int, s0));
                    assert(refines(s2, sc));
                    match c0[i as int] {
                        Constraint::Eq { lhs, rhs } => {
                            crate::type_analysis::mgu::lemma_subst_shallow(subst_ty(lhs@, s0), sc);
                            crate::type_analysis::mgu::lemma_subst_shallow(subst_ty(rhs@, s0), sc);
                            assert(subst_ty(lhs@, sc) == subst_ty(subst_ty(lhs@, s0), sc));
                            assert(subst_ty(rhs@, sc) == subst_ty(subst_ty(rhs@, s0), sc));
                        },
                        Constraint::Array { arr, elt } => {
                            crate::type_analysis::mgu::lemma_subst_shallow(subst_ty(arr@, s0), sc);
                            crate::type_analysis::mgu::lemma_subst_shallow(subst_ty(elt@, s0), sc);
                            assert(subst_ty(arr@, sc) == subst_ty(subst_ty(arr@, s0), sc));
                            assert(subst_ty(elt@, sc) == subst_ty(subst_ty(elt@, s0), sc));
                            assert(queue_ok(c0.subrange(0, i as int), sc)) by {
                                assert forall|j: int| 0 <= j < c0.subrange(0, i as int).len() implies satisfied(
                                    #[trigger] c0.subrange(0, i as int)[j],
                                    sc,
                                ) by {
                                    assert(c0.subrange(0, i as int)[j] == c0[j]);
                                    assert(satisfied(cs@[j], sc));
                                }
                            }
                            assert(refines(sc, s0));
                            assert(subst_ty(arr@, sc) is Array);
                        },
                        _ => {},
                    }
                }
                lemma_refines_trans(smap(self.subst@), sc, s0);
                if ec.len() > 0 {
                    assert(errs@[0] == errs@.subrange(0, ec.len() as int)[0]);
                }
                if first_clash(c0, s0, i as int) {
                    assert(all_before);
                }
                if all_before && satisfied(c0[i as int], s0) {
                    assert forall|k: int| 0 <= k < i + 1 implies satisfied(#[trigger] c0[k], s0) by {}
                }
                assert forall|j: int|
                    0 <= j < i + 1 && #[trigger] first_clash(c0, s0, j) && (forall|k: int|
                        j < k < c0.len() ==> #[trigger] satisfied(c0[k], s0)) implies errs@.len() == 1
                    && smap(self.subst@) == s0 by {
                    if j < i {
                        assert(satisfied(c0[i as int], s0));
                        assert(ec.len() == 1 && sc == s0);
                    } else {
                        assert(all_before);
                        assert(ec.len() == 0 && sc == s0);
                    }
                }
                if errs@.len() == 0 {
                    assert(ec.len() == 0);
                    assert forall|j: int| 0 <= j < i + 1 implies satisfied(
                        #[trigger] cs@[j],
                        smap(self.subst@),
                    ) by {
                        if j < i {
                            lemma_satisfied_refined(cs@[j], sc, smap(self.subst@));
                        }
                    }
                }
            }
            i = i + 1;
        }
        self.scope.propagate(&self.subst);
        if errs.len() > 0 {
            Err(errs)
        } else {
            Ok(())
        }
    }
}

} // verus!
