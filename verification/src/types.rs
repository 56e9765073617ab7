//! Types of the specification language and the operations the type checker needs on them.
//!
//! [`Ty`] is the executable representation; [`TyV`] is its mathematical view, built from
//! sequences so that equality of types is equality of their structure.
use vstd::prelude::*;
use crate::text::{decimal, push_decimal};

verus! {

/// Extent of one array dimension: a constant or a symbolic template parameter.
#[derive(Debug, Clone, PartialEq, Eq)]
pub enum Dim {
    Const(u64),
    Param(String),
}

/// View of a [`Dim`].
pub enum DimV {
    Const(u64),
    Param(Seq<char>),
}

impl View for Dim {
    type V = DimV;

    open spec fn view(&self) -> DimV {
        match self {
            Dim::Const(n) => DimV::Const(*n),
            Dim::Param(s) => DimV::Param(s@),
        }
    }
}

/// Whether a struct-like type is an LLZK component (`struct.type`) or plain data (`pod.type`).
#[derive(Debug, Clone, Copy, PartialEq, Eq, Structural)]
pub enum RecordKind {
    Struct,
    Pod,
}

/// Function type: inputs and outputs.
#[derive(Debug, PartialEq)]
pub struct FnTy {
    pub ins: Vec<Ty>,
    pub outs: Vec<Ty>,
}

/// Array type: element type and the extents of its dimensions, outermost first.
#[derive(Debug, PartialEq)]
pub struct ArrayTy {
    pub elem: Box<Ty>,
    pub dims: Vec<Dim>,
}

/// Named member of a struct-like type.
#[derive(Debug, PartialEq)]
pub struct Member {
    pub name: String,
    pub ty: Ty,
}

/// Struct-like type: its kind, its name, and the members visible to specifications.
#[derive(Debug, PartialEq)]
pub struct RecordTy {
    pub kind: RecordKind,
    pub name: String,
    pub members: Vec<Member>,
}

/// A type of the specification language.
#[derive(Debug, PartialEq)]
pub enum Ty {
    /// Booleans (`i1`).
    Bool,
    /// Finite field elements.
    Felt,
    /// Machine words; coercible to and from field elements.
    Index,
    /// Type variable introduced during inference.
    Var(u64),
    Func(FnTy),
    Array(ArrayTy),
    Record(RecordTy),
}

/// View of a [`Member`].
pub struct MemberV {
    pub name: Seq<char>,
    pub ty: TyV,
}

/// View of a [`Ty`].
pub enum TyV {
    Bool,
    Felt,
    Index,
    Var(u64),
    Func(Seq<TyV>, Seq<TyV>),
    Array(Box<TyV>, Seq<DimV>),
    Record(RecordKind, Seq<char>, Seq<MemberV>),
}

pub open spec fn dims_view(ds: Seq<Dim>) -> Seq<DimV> {
    ds.map_values(|d: Dim| d@)
}

pub open spec fn ty_view(t: Ty) -> TyV
    decreases t,
{
    match t {
        Ty::Bool => TyV::Bool,
        Ty::Felt => TyV::Felt,
        Ty::Index => TyV::Index,
        Ty::Var(id) => TyV::Var(id),
        Ty::Func(f) => TyV::Func(tys_view(f.ins@), tys_view(f.outs@)),
        Ty::Array(a) => TyV::Array(Box::new(ty_view(*a.elem)), dims_view(a.dims@)),
        Ty::Record(r) => TyV::Record(r.kind, r.name@, members_view(r.members@)),
    }
}

pub open spec fn tys_view(ts: Seq<Ty>) -> Seq<TyV>
    decreases ts,
{
    if ts.len() == 0 {
        Seq::empty()
    } else {
        seq![ty_view(ts[0])] + tys_view(ts.subrange(1, ts.len() as int))
    }
}

pub open spec fn members_view(ms: Seq<Member>) -> Seq<MemberV>
    decreases ms,
{
    if ms.len() == 0 {
        Seq::empty()
    } else {
        seq![MemberV { name: ms[0].name@, ty: ty_view(ms[0].ty) }] + members_view(
            ms.subrange(1, ms.len() as int),
        )
    }
}

impl View for Ty {
    type V = TyV;

    open spec fn view(&self) -> TyV {
        ty_view(*self)
    }
}

impl View for FnTy {
    type V = TyV;

    open spec fn view(&self) -> TyV {
        TyV::Func(tys_view(self.ins@), tys_view(self.outs@))
    }
}


/// The view of a sequence of types has one entry per type, in order.
pub proof fn lemma_tys_view(ts: Seq<Ty>)
    ensures
        tys_view(ts).len() == ts.len(),
        forall|i: int| 0 <= i < ts.len() ==> #[trigger] tys_view(ts)[i] == ty_view(ts[i]),
    decreases ts.len(),
{
    if ts.len() > 0 {
        let rest = ts.subrange(1, ts.len() as int);
        lemma_tys_view(rest);
        assert forall|i: int| 0 <= i < ts.len() implies #[trigger] tys_view(ts)[i] == ty_view(
            ts[i],
        ) by {
            if i > 0 {
                assert(rest[i - 1] == ts[i]);
            }
        }
    }
}

/// The view of a sequence of members has one entry per member, in order.
pub proof fn lemma_members_view(ms: Seq<Member>)
    ensures
        members_view(ms).len() == ms.len(),
        forall|i: int|
            0 <= i < ms.len() ==> #[trigger] members_view(ms)[i] == (MemberV {
                name: ms[i].name@,
                ty: ty_view(ms[i].ty),
            }),
    decreases ms.len(),
{
    if ms.len() > 0 {
        let rest = ms.subrange(1, ms.len() as int);
        lemma_members_view(rest);
        assert forall|i: int| 0 <= i < ms.len() implies #[trigger] members_view(ms)[i] == (MemberV {
            name: ms[i].name@,
            ty: ty_view(ms[i].ty),
        }) by {
            if i > 0 {
                assert(rest[i - 1] == ms[i]);
            }
        }
    }
}

impl Dim {
    /// Returns a copy of the dimension.
    pub fn copy(&self) -> (r: Dim)
        ensures
            r@ == self@,
    {
        match self {
            Dim::Const(n) => Dim::Const(*n),
            Dim::Param(s) => Dim::Param(s.clone()),
        }
    }

    /// Whether two dimensions are equal.
    pub fn same(&self, other: &Dim) -> (r: bool)
        ensures
            r == (self@ == other@),
    {
        match (self, other) {
            (Dim::Const(a), Dim::Const(b)) => *a == *b,
            (Dim::Param(a), Dim::Param(b)) => *a == *b,
            _ => false,
        }
    }
}

/// Copies a sequence of dimensions.
pub fn copy_dims(ds: &Vec<Dim>) -> (r: Vec<Dim>)
    ensures
        dims_view(r@) == dims_view(ds@),
{
    let mut r: Vec<Dim> = Vec::new();
    let mut i: usize = 0;
    while i < ds.len()
        invariant
            i <= ds.len(),
            r@.len() == i,
            forall|j: int| 0 <= j < i ==> #[trigger] r@[j]@ == ds@[j]@,
        decreases ds.len() - i,
    {
        r.push(ds[i].copy());
        i = i + 1;
    }
    assert(dims_view(r@) =~= dims_view(ds@));
    r
}

/// Whether two sequences of dimensions are equal.
pub fn same_dims(a: &Vec<Dim>, b: &Vec<Dim>) -> (r: bool)
    ensures
        r == (dims_view(a@) == dims_view(b@)),
{
    if a.len() != b.len() {
        assert(dims_view(a@).len() != dims_view(b@).len());
        return false;
    }
    let mut i: usize = 0;
    while i < a.len()
        invariant
            i <= a.len(),
            a.len() == b.len(),
            forall|j: int| 0 <= j < i ==> #[trigger] a@[j]@ == b@[j]@,
        decreases a.len() - i,
    {
        if !a[i].same(&b[i]) {
            assert(dims_view(a@)[i as int] != dims_view(b@)[i as int]);
            return false;
        }
        i = i + 1;
    }
    assert(dims_view(a@) =~= dims_view(b@));
    true
}

impl Ty {
    /// Returns a copy of the type.
    pub fn copy(&self) -> (r: Ty)
        ensures
            r@ == self@,
        decreases self,
    {
        match self {
            Ty::Bool => Ty::Bool,
            Ty::Felt => Ty::Felt,
            Ty::Index => Ty::Index,
            Ty::Var(id) => Ty::Var(*id),
            Ty::Func(f) => Ty::Func(f.copy()),
            Ty::Array(a) => {
                let elem = a.elem.copy();
                Ty::Array(ArrayTy { elem: Box::new(elem), dims: copy_dims(&a.dims) })
            },
            Ty::Record(r) => Ty::Record(r.copy()),
        }
    }

    /// Whether two types are equal.
    pub fn same(&self, other: &Ty) -> (r: bool)
        ensures
            r == (self@ == other@),
        decreases self,
    {
        match (self, other) {
            (Ty::Bool, Ty::Bool) => true,
            (Ty::Felt, Ty::Felt) => true,
            (Ty::Index, Ty::Index) => true,
            (Ty::Var(a), Ty::Var(b)) => *a == *b,
            (Ty::Func(f), Ty::Func(g)) => f.same(g),
            (Ty::Array(a), Ty::Array(b)) => {
                let e = a.elem.same(&b.elem);
                let d = same_dims(&a.dims, &b.dims);
                e && d
            },
            (Ty::Record(a), Ty::Record(b)) => a.same(b),
            _ => false,
        }
    }
}

/// Copies a sequence of types.
pub fn copy_tys(ts: &Vec<Ty>) -> (r: Vec<Ty>)
    ensures
        tys_view(r@) == tys_view(ts@),
    decreases ts,
{
    let mut r: Vec<Ty> = Vec::new();
    let mut i: usize = 0;
    while i < ts.len()
        invariant
            i <= ts.len(),
            r@.len() == i,
            forall|j: int| 0 <= j < i ==> #[trigger] ty_view(r@[j]) == ty_view(ts@[j]),
        decreases ts.len() - i,
    {
        proof {
            assert(decreases_to!(ts => ts@[i as int]));
        }
        r.push(ts[i].copy());
        i = i + 1;
    }
    proof {
        lemma_tys_view(r@);
        lemma_tys_view(ts@);
    }
    assert(tys_view(r@) =~= tys_view(ts@));
    r
}

/// Whether two sequences of types are equal.
pub fn same_tys(a: &Vec<Ty>, b: &Vec<Ty>) -> (r: bool)
    ensures
        r == (tys_view(a@) == tys_view(b@)),
    decreases a,
{
    proof {
        lemma_tys_view(a@);
        lemma_tys_view(b@);
    }
    if a.len() != b.len() {
        return false;
    }
    let mut i: usize = 0;
    while i < a.len()
        invariant
            i <= a.len(),
            a.len() == b.len(),
            tys_view(a@).len() == a.len(),
            tys_view(b@).len() == b.len(),
            forall|j: int| 0 <= j < a.len() ==> #[trigger] tys_view(a@)[j] == ty_view(a@[j]),
            forall|j: int| 0 <= j < b.len() ==> #[trigger] tys_view(b@)[j] == ty_view(b@[j]),
            forall|j: int| 0 <= j < i ==> #[trigger] ty_view(a@[j]) == ty_view(b@[j]),
        decreases a.len() - i,
    {
        proof {
            assert(decreases_to!(a => a@[i as int]));
        }
        if !a[i].same(&b[i]) {
            assert(tys_view(a@)[i as int] != tys_view(b@)[i as int]);
            return false;
        }
        i = i + 1;
    }
    assert(tys_view(a@) =~= tys_view(b@));
    true
}

impl FnTy {
    /// Returns a copy of the function type.
    pub fn copy(&self) -> (r: FnTy)
        ensures
            r@ == self@,
        decreases self,
    {
        FnTy { ins: copy_tys(&self.ins), outs: copy_tys(&self.outs) }
    }

    /// Whether two function types are equal.
    pub fn same(&self, other: &FnTy) -> (r: bool)
        ensures
            r == (self@ == other@),
        decreases self,
    {
        let a = same_tys(&self.ins, &other.ins);
        let b = same_tys(&self.outs, &other.outs);
        a && b
    }
}

impl RecordTy {
    /// The view of the record as a type.
    pub open spec fn view_ty(&self) -> TyV {
        TyV::Record(self.kind, self.name@, members_view(self.members@))
    }

    /// Returns a copy of the record type.
    pub fn copy(&self) -> (r: RecordTy)
        ensures
            r.view_ty() == self.view_ty(),
        decreases self,
    {
        let mut ms: Vec<Member> = Vec::new();
        let mut i: usize = 0;
        while i < self.members.len()
            invariant
                i <= self.members.len(),
                ms@.len() == i,
                forall|j: int|
                    0 <= j < i ==> #[trigger] ms@[j].name@ == self.members@[j].name@ && ms@[j].ty@
                        == self.members@[j].ty@,
            decreases self.members.len() - i,
        {
            proof {
                assert(decreases_to!(self.members => self.members@[i as int]));
            }
            let t = self.members[i].ty.copy();
            ms.push(Member { name: self.members[i].name.clone(), ty: t });
            i = i + 1;
        }
        proof {
            lemma_members_view(ms@);
            lemma_members_view(self.members@);
        }
        assert(members_view(ms@) =~= members_view(self.members@));
        RecordTy { kind: self.kind, name: self.name.clone(), members: ms }
    }

    /// Whether two record types are equal.
    pub fn same(&self, other: &RecordTy) -> (r: bool)
        ensures
            r == (self.view_ty() == other.view_ty()),
        decreases self,
    {
        proof {
            lemma_members_view(self.members@);
            lemma_members_view(other.members@);
        }
        if self.kind != other.kind || self.name != other.name || self.members.len()
            != other.members.len() {
            return false;
        }
        let mut i: usize = 0;
        while i < self.members.len()
            invariant
                i <= self.members.len(),
                self.members.len() == other.members.len(),
                members_view(self.members@).len() == self.members.len(),
                members_view(other.members@).len() == other.members.len(),
                forall|j: int|
                    0 <= j < self.members.len() ==> #[trigger] members_view(self.members@)[j] == (
                    MemberV { name: self.members@[j].name@, ty: ty_view(self.members@[j].ty) }),
                forall|j: int|
                    0 <= j < other.members.len() ==> #[trigger] members_view(other.members@)[j]
                        == (MemberV {
                        name: other.members@[j].name@,
                        ty: ty_view(other.members@[j].ty),
                    }),
                forall|j: int|
                    0 <= j < i ==> #[trigger] members_view(self.members@)[j] == members_view(
                        other.members@,
                    )[j],
            decreases self.members.len() - i,
        {
            proof {
                assert(decreases_to!(self.members => self.members@[i as int]));
            }
            let n = self.members[i].name == other.members[i].name;
            let t = self.members[i].ty.same(&other.members[i].ty);
            if !(n && t) {
                assert(members_view(self.members@)[i as int] != members_view(other.members@)[i as int]);
                return false;
            }
            i = i + 1;
        }
        assert(members_view(self.members@) =~= members_view(other.members@));
        true
    }
}

/// The text of a dimension: its extent, or `@` and the name of the parameter it stands for.
pub open spec fn dim_text(d: DimV) -> Seq<char> {
    match d {
        DimV::Const(n) => decimal(n as nat),
        DimV::Param(p) => "@"@ + p,
    }
}

/// The dimensions of an array type, separated by commas.
pub open spec fn dims_text(ds: Seq<DimV>) -> Seq<char>
    decreases ds.len(),
{
    if ds.len() == 0 {
        Seq::empty()
    } else if ds.len() == 1 {
        dim_text(ds[0])
    } else {
        dims_text(ds.drop_last()) + ","@ + dim_text(ds.last())
    }
}

/// The text of a type, as LLZK IR writes it.
pub open spec fn ty_text(t: TyV) -> Seq<char>
    decreases t,
{
    match t {
        TyV::Bool => "i1"@,
        TyV::Felt => "!felt.type"@,
        TyV::Index => "index"@,
        TyV::Var(n) => "!poly.tvar<@T"@ + decimal(n as nat) + ">"@,
        TyV::Func(ins, outs) => "("@ + tys_text(ins) + ") -> "@ + if outs.len() == 1 {
            ty_text(outs[0])
        } else {
            "("@ + tys_text(outs) + ")"@
        },
        TyV::Array(e, d) => "!array.type<"@ + dims_text(d) + " x "@ + ty_text(*e) + ">"@,
        TyV::Record(RecordKind::Struct, n, _) => "!struct.type<@"@ + n + ">"@,
        TyV::Record(RecordKind::Pod, _, ms) => "!pod.type<["@ + members_text(ms) + "]>"@,
    }
}

/// The texts of a sequence of types, separated by `, `.
pub open spec fn tys_text(ts: Seq<TyV>) -> Seq<char>
    decreases ts,
{
    if ts.len() == 0 {
        Seq::empty()
    } else if ts.len() == 1 {
        ty_text(ts[0])
    } else {
        tys_text(ts.drop_last()) + ", "@ + ty_text(ts.last())
    }
}

/// The records of a plain-data type, `@name: type`, separated by `, `.
pub open spec fn members_text(ms: Seq<MemberV>) -> Seq<char>
    decreases ms,
{
    if ms.len() == 0 {
        Seq::empty()
    } else if ms.len() == 1 {
        "@"@ + ms[0].name + ": "@ + ty_text(ms[0].ty)
    } else {
        members_text(ms.drop_last()) + ", @"@ + ms.last().name + ": "@ + ty_text(ms.last().ty)
    }
}

/// Appends `t` to `s`.
fn append_str(s: &mut String, t: &str)
    ensures
        final(s)@ == old(s)@ + t@,
{
    s.append(t);
}

impl Ty {
    /// Appends the text of the type to `out`.
    pub fn write_text(&self, out: &mut String)
        ensures
            final(out)@ == old(out)@ + ty_text(self@),
        decreases self,
    {
        match self {
            Ty::Bool => {
                append_str(out, "i1");
                proof { reveal_strlit("i1"); }
            },
            Ty::Felt => {
                append_str(out, "!felt.type");
                proof { reveal_strlit("!felt.type"); }
            },
            Ty::Index => {
                append_str(out, "index");
                proof { reveal_strlit("index"); }
            },
            Ty::Var(n) => {
                append_str(out, "!poly.tvar<@T");
                push_decimal(out, *n);
                append_str(out, ">");
                proof {
                    reveal_strlit("!poly.tvar<@T");
                    reveal_strlit(">");
                }
            },
            Ty::Func(f) => {
                let ghost start = out@;
                append_str(out, "(");
                write_tys_text(&f.ins, out);
                append_str(out, ") -> ");
                if f.outs.len() == 1 {
                    proof {
                        lemma_tys_view(f.outs@);
                        assert(decreases_to!(f.outs => f.outs@[0]));
                    }
                    f.outs[0].write_text(out);
                } else {
                    append_str(out, "(");
                    write_tys_text(&f.outs, out);
                    append_str(out, ")");
                }
                proof {
                    reveal_strlit("(");
                    reveal_strlit(") -> ");
                    reveal_strlit(")");
                    lemma_tys_view(f.outs@);
                    assert(out@ =~= start + ty_text(self@));
                }
            },
            Ty::Array(a) => {
                let ghost start = out@;
                append_str(out, "!array.type<");
                write_dims_text(&a.dims, out);
                append_str(out, " x ");
                a.elem.write_text(out);
                append_str(out, ">");
                proof {
                    reveal_strlit("!array.type<");
                    reveal_strlit(" x ");
                    reveal_strlit(">");
                    assert(out@ =~= start + ty_text(self@));
                }
            },
            Ty::Record(r) => {
                let ghost start = out@;
                match r.kind {
                    RecordKind::Struct => {
                        append_str(out, "!struct.type<@");
                        append_str(out, r.name.as_str());
                        append_str(out, ">");
                        proof {
                            reveal_strlit("!struct.type<@");
                            reveal_strlit(">");
                        }
                    },
                    RecordKind::Pod => {
                        append_str(out, "!pod.type<[");
                        write_members_text(r, out);
                        append_str(out, "]>");
                        proof {
                            reveal_strlit("!pod.type<[");
                            reveal_strlit("]>");
                        }
                    },
                }
                proof {
                    assert(out@ =~= start + ty_text(self@));
                }
            },
        }
    }

    /// The text of the type, as LLZK IR writes it.
    pub fn text(&self) -> (r: String)
        ensures
            r@ == ty_text(self@),
    {
        let mut s = String::new();
        self.write_text(&mut s);
        assert(s@ =~= ty_text(self@));
        s
    }
}

/// Appends the texts of `ts`, separated by `, `, to `out`.
pub fn write_tys_text(ts: &Vec<Ty>, out: &mut String)
    ensures
        final(out)@ == old(out)@ + tys_text(tys_view(ts@)),
    decreases ts,
{
    let ghost tv = tys_view(ts@);
    let ghost start = out@;
    proof {
        lemma_tys_view(ts@);
        assert(tv.subrange(0, 0) =~= Seq::<TyV>::empty());
    }
    let mut i: usize = 0;
    while i < ts.len()
        invariant
            i <= ts.len(),
            tv == tys_view(ts@),
            tv.len() == ts@.len(),
            forall|j: int| 0 <= j < tv.len() ==> #[trigger] tv[j] == ty_view(ts@[j]),
            out@ == start + tys_text(tv.subrange(0, i as int)),
        decreases ts.len() - i,
    {
        proof {
            assert(decreases_to!(ts => ts@[i as int]));
            let next = tv.subrange(0, i + 1);
            assert(next.drop_last() =~= tv.subrange(0, i as int));
            assert(next.last() == tv[i as int]);
        }
        if i > 0 {
            append_str(out, ", ");
            proof { reveal_strlit(", "); }
        }
        ts[i].write_text(out);
        proof {
            assert(out@ =~= start + tys_text(tv.subrange(0, i + 1)));
        }
        i = i + 1;
    }
    assert(tv.subrange(0, tv.len() as int) =~= tv);
}

/// Appends the dimensions of an array type, separated by commas, to `out`.
pub fn write_dims_text(ds: &Vec<Dim>, out: &mut String)
    ensures
        final(out)@ == old(out)@ + dims_text(dims_view(ds@)),
{
    let ghost dv = dims_view(ds@);
    let ghost start = out@;
    assert(dv.subrange(0, 0) =~= Seq::<DimV>::empty());
    let mut i: usize = 0;
    while i < ds.len()
        invariant
            i <= ds.len(),
            dv == dims_view(ds@),
            dv.len() == ds@.len(),
            out@ == start + dims_text(dv.subrange(0, i as int)),
        decreases ds.len() - i,
    {
        proof {
            let next = dv.subrange(0, i + 1);
            assert(next.drop_last() =~= dv.subrange(0, i as int));
            assert(next.last() == dv[i as int]);
        }
        if i > 0 {
            append_str(out, ",");
            proof { reveal_strlit(","); }
        }
        match &ds[i] {
            Dim::Const(n) => push_decimal(out, *n),
            Dim::Param(p) => {
                append_str(out, "@");
                append_str(out, p.as_str());
                proof { reveal_strlit("@"); }
            },
        }
        proof {
            assert(out@ =~= start + dims_text(dv.subrange(0, i + 1)));
        }
        i = i + 1;
    }
    assert(dv.subrange(0, dv.len() as int) =~= dv);
}

/// Appends the records of a plain-data type to `out`.
pub fn write_members_text(r: &RecordTy, out: &mut String)
    ensures
        final(out)@ == old(out)@ + members_text(members_view(r.members@)),
    decreases r,
{
    let ghost mv = members_view(r.members@);
    let ghost start = out@;
    proof {
        lemma_members_view(r.members@);
        assert(mv.subrange(0, 0) =~= Seq::<MemberV>::empty());
    }
    let mut i: usize = 0;
    while i < r.members.len()
        invariant
            i <= r.members.len(),
            mv == members_view(r.members@),
            mv.len() == r.members@.len(),
            forall|j: int|
                0 <= j < mv.len() ==> #[trigger] mv[j] == (MemberV {
                    name: r.members@[j].name@,
                    ty: ty_view(r.members@[j].ty),
                }),
            out@ == start + members_text(mv.subrange(0, i as int)),
        decreases r.members.len() - i,
    {
        proof {
            assert(decreases_to!(r.members => r.members@[i as int]));
            let next = mv.subrange(0, i + 1);
            assert(next.drop_last() =~= mv.subrange(0, i as int));
            assert(next.last() == mv[i as int]);
        }
        if i > 0 {
            append_str(out, ", @");
            proof { reveal_strlit(", @"); }
        } else {
            append_str(out, "@");
            proof { reveal_strlit("@"); }
        }
        append_str(out, r.members[i].name.as_str());
        append_str(out, ": ");
        r.members[i].ty.write_text(out);
        proof {
            reveal_strlit(": ");
            assert(out@ =~= start + members_text(mv.subrange(0, i + 1)));
        }
        i = i + 1;
    }
    assert(mv.subrange(0, mv.len() as int) =~= mv);
}

} // verus!
