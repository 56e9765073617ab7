//! The metadata the verifier needs from an LLZK IR module.
//!
//! The module itself is walked elsewhere; the walk hands over, in pre-order, the operations that
//! matter here as [`IrOp`] values. [`extract_metadata`] derives from them the contract targets,
//! the names visible from each target, the member paths reachable from each target, and the
//! loops with their spec-visible names.
use vstd::prelude::*;
use crate::diagnostic::CompileError;
use crate::text::{decimal, push_decimal};
use crate::type_analysis::scope::{assoc, find_in};

pub mod error;

verus! {

/// Kind of loop operation.
#[derive(Debug, Clone, Copy, PartialEq, Eq, Structural)]
pub enum LoopKind {
    For,
    While,
}

/// The struct or free function a loop belongs to. Loop names are unique within one.
#[derive(Debug, Clone, PartialEq, Eq)]
pub enum LoopScope {
    Struct(String),
    Function(String),
}

/// View of a [`LoopScope`].
pub enum LoopScopeV {
    Struct(Seq<char>),
    Function(Seq<char>),
}

impl View for LoopScope {
    type V = LoopScopeV;

    open spec fn view(&self) -> LoopScopeV {
        match self {
            LoopScope::Struct(s) => LoopScopeV::Struct(s@),
            LoopScope::Function(s) => LoopScopeV::Function(s@),
        }
    }
}

impl LoopScope {
    /// Returns a copy of the scope.
    pub fn copy(&self) -> (r: LoopScope)
        ensures
            r@ == self@,
    {
        match self {
            LoopScope::Struct(s) => LoopScope::Struct(s.clone()),
            LoopScope::Function(s) => LoopScope::Function(s.clone()),
        }
    }

    /// Whether two scopes are equal.
    pub fn same(&self, other: &LoopScope) -> (r: bool)
        ensures
            r == (self@ == other@),
    {
        match (self, other) {
            (LoopScope::Struct(a), LoopScope::Struct(b)) => *a == *b,
            (LoopScope::Function(a), LoopScope::Function(b)) => *a == *b,
            _ => false,
        }
    }
}

/// What the verifier needs to know of a loop.
#[derive(Debug, Clone, PartialEq, Eq)]
pub struct LoopMetadata {
    pub kind: LoopKind,
    /// Number of values an invariant of the loop binds.
    pub binding_count: usize,
    pub scope: LoopScope,
    /// Whether the IR labels the loop, or its name was generated.
    pub explicit_label: bool,
}

/// Symbol metadata collected from an LLZK IR module.
pub struct IrMetadata {
    /// Contract targets (structs and functions) the IR defines.
    pub global_symbols: Vec<String>,
    /// Names visible inside a contract, by contract target.
    pub visible_symbols: Vec<(String, Vec<String>)>,
    /// Member paths reachable from a contract target, each with whether it is accessible, by
    /// contract target.
    pub member_paths: Vec<(String, Vec<(String, bool)>)>,
    /// Loops by scope and name: the `loop_label` of a labeled loop, `loopN` for the N-th
    /// unlabeled loop of its scope.
    pub labeled_loops: Vec<(LoopScope, String, LoopMetadata)>,
}

/// Whether some string of the sequence has the text `name`.
pub open spec fn has_text(s: Seq<String>, name: Seq<char>) -> bool {
    exists|i: int| 0 <= i < s.len() && #[trigger] s[i]@ == name
}

/// The metadata of the loop called `name` in `scope`.
pub open spec fn loop_lookup(
    loops: Seq<(LoopScope, String, LoopMetadata)>,
    scope: LoopScopeV,
    name: Seq<char>,
) -> Option<LoopMetadata>
    decreases loops.len(),
{
    if loops.len() == 0 {
        None
    } else if loops.last().0@ == scope && loops.last().1@ == name {
        Some(loops.last().2)
    } else {
        loop_lookup(loops.drop_last(), scope, name)
    }
}

/// Whether the string `name` is one of `s`.
pub fn contains_text(s: &Vec<String>, name: &String) -> (r: bool)
    ensures
        r == has_text(s@, name@),
{
    let mut i: usize = 0;
    while i < s.len()
        invariant
            i <= s@.len(),
            forall|j: int| 0 <= j < i ==> s@[j]@ != name@,
        decreases s@.len() - i,
    {
        if s[i] == *name {
            return true;
        }
        i = i + 1;
    }
    false
}

impl IrMetadata {
    /// Whether the IR defines the contract target `name`: a struct or a function.
    pub fn has_global_symbol(&self, name: &str) -> (r: bool)
        ensures
            r == has_text(self.global_symbols@, name@),
            r == self.model().globals.contains(name@),
    {
        contains_text(&self.global_symbols, &name.to_owned())
    }

    /// Whether `name` is visible inside a contract written for `target`.
    pub fn symbol_visible_in_contract(&self, target: &str, name: &str) -> (r: bool)
        ensures
            r == (assoc(self.visible_symbols@, target@) matches Some(names) && has_text(
                names@,
                name@,
            )),
            r == (self.model().visible.contains_key(target@) && self.model().visible[target@].contains(
                name@,
            )),
    {
        match find_in(&self.visible_symbols, &target.to_owned()) {
            Some(names) => contains_text(names, &name.to_owned()),
            None => false,
        }
    }

    /// Whether the member path `path` exists from `target` (`Some`), and if so whether it is
    /// accessible.
    pub fn member_visibility(&self, target: &str, path: &str) -> (r: Option<bool>)
        ensures
            r == match assoc(self.member_paths@, target@) {
                Some(paths) => assoc(paths@, path@),
                None => None,
            },
            r == if self.model().paths.contains_key(target@) && self.model().paths[target@].contains_key(
                path@,
            ) {
                Some(self.model().paths[target@][path@])
            } else {
                None
            },
    {
        match find_in(&self.member_paths, &target.to_owned()) {
            Some(paths) => {
                proof {
                    lemma_assoc_pairs(paths@, path@);
                }
                match find_in(paths, &path.to_owned()) {
                    Some(b) => Some(*b),
                    None => None,
                }
            },
            None => None,
        }
    }

    /// Looks a loop up by scope and name.
    pub fn lookup_loop(&self, scope: &LoopScope, name: &String) -> (r: Option<&LoopMetadata>)
        ensures
            match r {
                Some(m) => loop_lookup(self.labeled_loops@, scope@, name@) == Some(*m),
                None => loop_lookup(self.labeled_loops@, scope@, name@) is None,
            },
            match r {
                Some(m) => self.model().loops.contains_key((scope@, name@)) && self.model().loops[(
                    scope@,
                    name@,
                )] == loop_entry(*m),
                None => !self.model().loops.contains_key((scope@, name@)),
            },
    {
        let ghost s = self.labeled_loops@;
        let mut i = self.labeled_loops.len();
        assert(s.subrange(0, i as int) =~= s);
        while i > 0
            invariant
                i <= s.len(),
                s == self.labeled_loops@,
                loop_lookup(s, scope@, name@) == loop_lookup(s.subrange(0, i as int), scope@, name@),
            decreases i,
        {
            proof {
                let sub = s.subrange(0, i as int);
                assert(sub.drop_last() =~= s.subrange(0, i - 1));
                assert(sub.last() == s[i - 1]);
            }
            let e = &self.labeled_loops[i - 1];
            if e.0.same(scope) && e.1 == *name {
                return Some(&e.2);
            }
            i = i - 1;
        }
        None
    }

    /// Whether some loop belongs to `scope`.
    pub fn has_loop_scope(&self, scope: &LoopScope) -> (r: bool)
        ensures
            r == exists|i: int|
                0 <= i < self.labeled_loops@.len() && #[trigger] self.labeled_loops@[i].0@ == scope@,
    {
        let mut i: usize = 0;
        while i < self.labeled_loops.len()
            invariant
                i <= self.labeled_loops@.len(),
                forall|j: int| 0 <= j < i ==> #[trigger] self.labeled_loops@[j].0@ != scope@,
            decreases self.labeled_loops@.len() - i,
        {
            if self.labeled_loops[i].0.same(scope) {
                return true;
            }
            i = i + 1;
        }
        false
    }
}

/// A member of a struct definition.
pub struct MemberDef {
    pub name: String,
    /// Whether the member is public.
    pub public: bool,
    pub ty: MemberType,
}

/// The type of a member, as far as member paths go.
pub enum MemberType {
    /// A component type, with the members of its definition when the definition was found.
    Struct(Option<Vec<MemberDef>>),
    /// A plain-data type and its records, by name.
    Pod(Vec<(String, MemberType)>),
    /// An array type: its number of dimensions and its element type.
    Array(usize, Box<MemberType>),
    /// Any other type.
    Other,
}

/// An operation that encloses another, as far as naming loops goes.
pub enum ParentOp {
    /// A `poly.expr`.
    Expr,
    /// A `struct.def`, with the names of its named enclosing modules and templates.
    StructDef { path: Vec<String>, name: String },
    /// A `function.def`, with its fully qualified name.
    FuncDef { fqn: String },
    /// Any other operation.
    Other,
}

/// An operation of the module, as the pre-order walk meets it.
pub enum IrOp {
    /// A `struct.def`: the names of its named enclosing modules and templates, outermost
    /// first, its name, its members, and the names of its template parameters and expressions.
    StructDef { path: Vec<String>, name: String, members: Vec<MemberDef>, template_names: Vec<String> },
    /// A `function.def`: its fully qualified name, the struct that contains it (path and name),
    /// if any, and the parameter and expression names of the template that contains it.
    FuncDef {
        fqn: String,
        containing_struct: Option<(Vec<String>, String)>,
        template_names: Vec<String>,
    },
    /// Any other operation: its name, its number of operands, its `loop_label`, and the
    /// operations that enclose it, innermost first.
    Op { name: String, operand_count: usize, loop_label: Option<String>, parents: Vec<ParentOp> },
}

/// `name` qualified by the names in `path`, joined with `::`.
pub open spec fn join_path(path: Seq<String>, name: Seq<char>) -> Seq<char>
    decreases path.len(),
{
    if path.len() == 0 {
        name
    } else {
        path[0]@ + "::"@ + join_path(path.subrange(1, path.len() as int), name)
    }
}

/// The contract target name of a struct: its name qualified by its enclosing named modules
/// and templates.
pub fn struct_contract_target_name(path: &Vec<String>, name: &String) -> (r: String)
    ensures
        r@ == join_path(path@, name@),
{
    let mut s = String::new();
    let mut i: usize = 0;
    let ghost p = path@;
    proof {
        assert(p.subrange(0, p.len() as int) =~= p);
    }
    while i < path.len()
        invariant
            i <= p.len(),
            p == path@,
            s@ + join_path(p.subrange(i as int, p.len() as int), name@) == join_path(p, name@),
        decreases p.len() - i,
    {
        proof {
            let sub = p.subrange(i as int, p.len() as int);
            assert(sub.subrange(1, sub.len() as int) =~= p.subrange(i + 1, p.len() as int));
            assert(sub[0] == p[i as int]);
            reveal_strlit("::");
        }
        s.append(path[i].as_str());
        s.append("::");
        proof {
            assert(s@ + join_path(p.subrange(i + 1, p.len() as int), name@) =~= join_path(p, name@));
        }
        i = i + 1;
    }
    s.append(name.as_str());
    proof {
        assert(p.subrange(p.len() as int, p.len() as int) =~= Seq::<String>::empty());
    }
    s
}

/// The scope of a loop from the operations enclosing it, innermost first: none inside a
/// `poly.expr`; the nearest struct if there is one; otherwise the outermost function, `acc`
/// standing for the functions seen so far.
pub open spec fn loop_scope_of(parents: Seq<ParentOp>, acc: Option<LoopScopeV>) -> Option<LoopScopeV>
    decreases parents.len(),
{
    if parents.len() == 0 {
        acc
    } else {
        match parents[0] {
            ParentOp::Expr => None,
            ParentOp::StructDef { path, name } => Some(
                LoopScopeV::Struct(join_path(path@, name@)),
            ),
            ParentOp::FuncDef { fqn } => loop_scope_of(
                parents.subrange(1, parents.len() as int),
                Some(LoopScopeV::Function(fqn@)),
            ),
            ParentOp::Other => loop_scope_of(parents.subrange(1, parents.len() as int), acc),
        }
    }
}

/// Finds the scope of a loop: see [`loop_scope_of`].
pub fn containing_loop_scope(parents: &Vec<ParentOp>) -> (r: Option<LoopScope>)
    ensures
        match r {
            Some(sc) => loop_scope_of(parents@, None) == Some(sc@),
            None => loop_scope_of(parents@, None) is None,
        },
{
    let ghost p = parents@;
    let mut acc: Option<LoopScope> = None;
    let mut i: usize = 0;
    proof {
        assert(p.subrange(0, p.len() as int) =~= p);
    }
    while i < parents.len()
        invariant
            i <= p.len(),
            p == parents@,
            loop_scope_of(p, None) == loop_scope_of(
                p.subrange(i as int, p.len() as int),
                match acc {
                    Some(sc) => Some(sc@),
                    None => None,
                },
            ),
        decreases p.len() - i,
    {
        proof {
            let sub = p.subrange(i as int, p.len() as int);
            assert(sub.subrange(1, sub.len() as int) =~= p.subrange(i + 1, p.len() as int));
            assert(sub[0] == p[i as int]);
        }
        match &parents[i] {
            ParentOp::Expr => {
                return None;
            },
            ParentOp::StructDef { path, name } => {
                return Some(LoopScope::Struct(struct_contract_target_name(path, name)));
            },
            ParentOp::FuncDef { fqn } => {
                acc = Some(LoopScope::Function(fqn.clone()));
            },
            ParentOp::Other => {},
        }
        i = i + 1;
    }
    proof {
        assert(p.subrange(p.len() as int, p.len() as int).len() == 0);
    }
    acc
}

/// The scope, kind and number of bindings of a loop operation: `scf.for` binds its operands
/// (lower bound, upper bound, step, iteration arguments) and its induction variable;
/// `scf.while` binds its operands. Loops inside `poly.expr`, or outside any struct or function,
/// have none.
pub open spec fn loop_info(op: IrOp) -> Option<(LoopScopeV, LoopKind, nat)> {
    match op {
        IrOp::Op { name, operand_count, parents, .. } => match loop_scope_of(parents@, None) {
            Some(sc) => if name@ == "scf.for"@ {
                Some((sc, LoopKind::For, (operand_count + 1) as nat))
            } else if name@ == "scf.while"@ {
                Some((sc, LoopKind::While, operand_count as nat))
            } else {
                None
            },
            None => None,
        },
        _ => None,
    }
}

/// The label of an operation.
pub open spec fn op_label(op: IrOp) -> Option<String> {
    match op {
        IrOp::Op { loop_label, .. } => loop_label,
        _ => None,
    }
}

/// The number of unlabeled loops of `sc` among the first `i` operations.
pub open spec fn unlabeled_before(ops: Seq<IrOp>, i: int, sc: LoopScopeV) -> nat
    decreases i,
{
    if i <= 0 {
        0
    } else {
        unlabeled_before(ops, i - 1, sc) + if (loop_info(ops[i - 1]) matches Some(info) && info.0
            == sc && op_label(ops[i - 1]) is None) {
            1nat
        } else {
            0nat
        }
    }
}

/// The spec-visible name of the loop at position `i`: its label, or `loopN` when it is the
/// N-th unlabeled loop of its scope, counting from zero in walk order.
pub open spec fn loop_name(ops: Seq<IrOp>, i: int) -> Seq<char> {
    match op_label(ops[i]) {
        Some(l) => l@,
        None => "loop"@ + decimal(unlabeled_before(ops, i, (loop_info(ops[i])->0).0)),
    }
}

/// The operations at positions `i` and `j` are loops with the same scope and name.
pub open spec fn same_loop_key(ops: Seq<IrOp>, i: int, j: int) -> bool {
    &&& loop_info(ops[i]) is Some
    &&& loop_info(ops[j]) is Some
    &&& (loop_info(ops[i])->0).0 == (loop_info(ops[j])->0).0
    &&& loop_name(ops, i) == loop_name(ops, j)
}

/// Two loops of the first `n` operations share a scope and a name.
pub open spec fn has_duplicate_loop(ops: Seq<IrOp>, n: int) -> bool {
    exists|i: int, j: int| 0 <= i < j < n && #[trigger] same_loop_key(ops, i, j)
}

/// The pairs of a list of member paths, by their views.
pub open spec fn pairs_view(s: Seq<(String, bool)>) -> Seq<(Seq<char>, bool)> {
    s.map_values(|p: (String, bool)| (p.0@, p.1))
}

/// `[]` repeated `n` times.
pub open spec fn brackets(n: nat) -> Seq<char>
    decreases n,
{
    if n == 0 {
        Seq::empty()
    } else {
        brackets((n - 1) as nat) + "[]"@
    }
}

/// The member paths reachable through a value of type `t` reached by `prefix`, in the order
/// the definitions list them, each with whether it is accessible: a path is accessible when
/// `acc` holds and every struct member on it is public; plain-data records add no
/// restriction; an array's elements are reached through `[]` for each dimension.
pub open spec fn type_paths(prefix: Seq<char>, t: MemberType, acc: bool) -> Seq<(Seq<char>, bool)>
    decreases t,
{
    match t {
        MemberType::Struct(Some(ms)) => members_paths(prefix, ms@, acc),
        MemberType::Struct(None) => Seq::empty(),
        MemberType::Pod(rs) => records_paths(prefix, rs@, acc),
        MemberType::Array(n, e) => type_paths(prefix + brackets(n as nat), *e, acc),
        MemberType::Other => Seq::empty(),
    }
}

/// [`type_paths`] through the members of a struct.
pub open spec fn members_paths(prefix: Seq<char>, ms: Seq<MemberDef>, acc: bool) -> Seq<
    (Seq<char>, bool),
>
    decreases ms,
{
    if ms.len() == 0 {
        Seq::empty()
    } else {
        let m = ms.last();
        let p = prefix + "."@ + m.name@;
        let a = acc && m.public;
        members_paths(prefix, ms.drop_last(), acc) + seq![(p, a)] + type_paths(p, m.ty, a)
    }
}

/// [`type_paths`] through the records of a plain-data type.
pub open spec fn records_paths(prefix: Seq<char>, rs: Seq<(String, MemberType)>, acc: bool) -> Seq<
    (Seq<char>, bool),
>
    decreases rs,
{
    if rs.len() == 0 {
        Seq::empty()
    } else {
        let r = rs.last();
        let p = prefix + "."@ + r.0@;
        records_paths(prefix, rs.drop_last(), acc) + seq![(p, acc)] + type_paths(p, r.1, acc)
    }
}

/// Every path listed below a value reached with accessibility `acc` is accessible only if `acc`
/// is: what is not accessible makes everything below it inaccessible.
pub proof fn type_path_flags_follow_the_parent(prefix: Seq<char>, t: MemberType, acc: bool)
    ensures
        forall|i: int|
            0 <= i < type_paths(prefix, t, acc).len() ==> (#[trigger] type_paths(prefix, t, acc)[i]).1 ==> acc,
    decreases t,
{
    match t {
        MemberType::Struct(Some(ms)) => {
            member_path_flags_follow_the_parent(prefix, ms@, acc);
            assert(type_paths(prefix, t, acc) == members_paths(prefix, ms@, acc));
        },
        MemberType::Pod(rs) => {
            record_path_flags_follow_the_parent(prefix, rs@, acc);
            assert(type_paths(prefix, t, acc) == records_paths(prefix, rs@, acc));
        },
        MemberType::Array(n, e) => {
            type_path_flags_follow_the_parent(prefix + brackets(n as nat), *e, acc);
            assert(type_paths(prefix, t, acc) == type_paths(prefix + brackets(n as nat), *e, acc));
        },
        _ => {},
    }
}

/// [`type_path_flags_follow_the_parent`] through the members of a struct.
pub proof fn member_path_flags_follow_the_parent(prefix: Seq<char>, ms: Seq<MemberDef>, acc: bool)
    ensures
        forall|i: int|
            0 <= i < members_paths(prefix, ms, acc).len() ==> (#[trigger] members_paths(prefix, ms, acc)[i]).1 ==> acc,
    decreases ms,
{
    if ms.len() > 0 {
        let m = ms.last();
        let p = prefix + "."@ + m.name@;
        let a = acc && m.public;
        let front = members_paths(prefix, ms.drop_last(), acc);
        let below = type_paths(p, m.ty, a);
        member_path_flags_follow_the_parent(prefix, ms.drop_last(), acc);
        type_path_flags_follow_the_parent(p, m.ty, a);
        let all = members_paths(prefix, ms, acc);
        assert(all == front + seq![(p, a)] + below);
        assert forall|i: int| 0 <= i < all.len() implies (#[trigger] all[i]).1 ==> acc by {
            if i < front.len() {
                assert(all[i] == front[i]);
            } else if i > front.len() {
                assert(all[i] == below[i - front.len() - 1]);
            }
        }
    }
}

/// [`type_path_flags_follow_the_parent`] through the records of a plain-data type.
pub proof fn record_path_flags_follow_the_parent(prefix: Seq<char>, rs: Seq<(String, MemberType)>, acc: bool)
    ensures
        forall|i: int|
            0 <= i < records_paths(prefix, rs, acc).len() ==> (#[trigger] records_paths(prefix, rs, acc)[i]).1 ==> acc,
    decreases rs,
{
    if rs.len() > 0 {
        let r = rs.last();
        let p = prefix + "."@ + r.0@;
        let front = records_paths(prefix, rs.drop_last(), acc);
        let below = type_paths(p, r.1, acc);
        record_path_flags_follow_the_parent(prefix, rs.drop_last(), acc);
        type_path_flags_follow_the_parent(p, r.1, acc);
        let all = records_paths(prefix, rs, acc);
        assert(all == front + seq![(p, acc)] + below);
        assert forall|i: int| 0 <= i < all.len() implies (#[trigger] all[i]).1 ==> acc by {
            if i < front.len() {
                assert(all[i] == front[i]);
            } else if i > front.len() {
                assert(all[i] == below[i - front.len() - 1]);
            }
        }
    }
}

/// Each member `ms[j]` of a struct reached by `prefix` with accessibility `acc` has its path
/// `prefix.name` listed, accessible exactly when `acc` holds and the member is public; every
/// path below a private member is inaccessible.
pub proof fn struct_member_paths_are_listed(prefix: Seq<char>, ms: Seq<MemberDef>, acc: bool, j: int)
    requires
        0 <= j < ms.len(),
    ensures
        members_paths(prefix, ms, acc).contains((prefix + "."@ + ms[j].name@, acc && ms[j].public)),
        !ms[j].public ==> forall|i: int|
            0 <= i < type_paths(prefix + "."@ + ms[j].name@, ms[j].ty, false).len() ==> !(#[trigger] type_paths(
                prefix + "."@ + ms[j].name@,
                ms[j].ty,
                false,
            )[i]).1,
    decreases ms,
{
    type_path_flags_follow_the_parent(prefix + "."@ + ms[j].name@, ms[j].ty, false);
    let m = ms.last();
    let p = prefix + "."@ + m.name@;
    let a = acc && m.public;
    let front = members_paths(prefix, ms.drop_last(), acc);
    let all = members_paths(prefix, ms, acc);
    assert(all == front + seq![(p, a)] + type_paths(p, m.ty, a));
    if j == ms.len() - 1 {
        assert(all[front.len() as int] == (p, a));
    } else {
        struct_member_paths_are_listed(prefix, ms.drop_last(), acc, j);
        assert(ms.drop_last()[j] == ms[j]);
        let k = choose|k: int| 0 <= k < front.len() && front[k] == (prefix + "."@ + ms[j].name@, acc && ms[j].public);
        assert(all[k] == front[k]);
    }
}

/// Each record `rs[j]` of a plain-data value reached by `prefix` with accessibility `acc` has
/// its path `prefix.name` listed with accessibility `acc`: records need no `llzk.pub`, they
/// inherit it from their parent.
pub proof fn pod_record_paths_inherit_accessibility(prefix: Seq<char>, rs: Seq<(String, MemberType)>, acc: bool, j: int)
    requires
        0 <= j < rs.len(),
    ensures
        records_paths(prefix, rs, acc).contains((prefix + "."@ + rs[j].0@, acc)),
    decreases rs,
{
    let r = rs.last();
    let p = prefix + "."@ + r.0@;
    let front = records_paths(prefix, rs.drop_last(), acc);
    let all = records_paths(prefix, rs, acc);
    assert(all == front + seq![(p, acc)] + type_paths(p, r.1, acc));
    if j == rs.len() - 1 {
        assert(all[front.len() as int] == (p, acc));
    } else {
        pod_record_paths_inherit_accessibility(prefix, rs.drop_last(), acc, j);
        assert(rs.drop_last()[j] == rs[j]);
        let k = choose|k: int| 0 <= k < front.len() && front[k] == (prefix + "."@ + rs[j].0@, acc);
        assert(all[k] == front[k]);
    }
}

/// Appends to `out` the member paths reachable through a value of type `t` reached by
/// `prefix`: see [`type_paths`].
pub fn collect_member_paths(prefix: &String, t: &MemberType, acc: bool, out: &mut Vec<(String, bool)>)
    ensures
        pairs_view(final(out)@) == pairs_view(old(out)@) + type_paths(prefix@, *t, acc),
    decreases t,
{
    match t {
        MemberType::Struct(Some(ms)) => collect_struct_member_paths(prefix, ms, acc, out),
        MemberType::Struct(None) => {
            assert(pairs_view(out@) =~= pairs_view(out@) + Seq::<(Seq<char>, bool)>::empty());
        },
        MemberType::Pod(rs) => collect_pod_member_paths(prefix, rs, acc, out),
        MemberType::Array(n, e) => {
            let mut p = prefix.clone();
            let mut k: usize = 0;
            while k < *n
                invariant
                    k <= *n,
                    p@ == prefix@ + brackets(k as nat),
                decreases *n - k,
            {
                p.append("[]");
                proof {
                    reveal_strlit("[]");
                    assert(p@ =~= prefix@ + brackets((k + 1) as nat));
                }
                k = k + 1;
            }
            collect_member_paths(&p, e, acc, out);
        },
        MemberType::Other => {
            assert(pairs_view(out@) =~= pairs_view(out@) + Seq::<(Seq<char>, bool)>::empty());
        },
    }
}

/// `prefix`, a dot and `name`.
fn dotted(prefix: &String, name: &String) -> (r: String)
    ensures
        r@ == prefix@ + "."@ + name@,
{
    let mut p = prefix.clone();
    p.append(".");
    p.append(name.as_str());
    p
}

/// [`collect_member_paths`] through the members of a struct.
fn collect_struct_member_paths(prefix: &String, ms: &Vec<MemberDef>, acc: bool, out: &mut Vec<(String, bool)>)
    ensures
        pairs_view(final(out)@) == pairs_view(old(out)@) + members_paths(prefix@, ms@, acc),
    decreases ms,
{
    let ghost o = pairs_view(out@);
    assert(ms@.subrange(0, 0) =~= Seq::<MemberDef>::empty());
    assert(pairs_view(out@) =~= o + members_paths(prefix@, ms@.subrange(0, 0), acc));
    let mut i: usize = 0;
    while i < ms.len()
        invariant
            i <= ms@.len(),
            pairs_view(out@) == o + members_paths(prefix@, ms@.subrange(0, i as int), acc),
        decreases ms@.len() - i,
    {
        proof {
            assert(decreases_to!(ms => ms@[i as int]));
            let next = ms@.subrange(0, i + 1);
            assert(next.drop_last() =~= ms@.subrange(0, i as int));
            assert(next.last() == ms@[i as int]);
        }
        let m = &ms[i];
        let p = dotted(prefix, &m.name);
        let a = acc && m.public;
        let ghost before = pairs_view(out@);
        out.push((p.clone(), a));
        proof {
            assert(pairs_view(out@) =~= before + seq![(p@, a)]);
        }
        collect_member_paths(&p, &m.ty, a, out);
        proof {
            assert(pairs_view(out@) =~= o + members_paths(prefix@, ms@.subrange(0, i + 1), acc));
        }
        i = i + 1;
    }
    assert(ms@.subrange(0, ms@.len() as int) =~= ms@);
}

/// [`collect_member_paths`] through the records of a plain-data type.
fn collect_pod_member_paths(
    prefix: &String,
    rs: &Vec<(String, MemberType)>,
    acc: bool,
    out: &mut Vec<(String, bool)>,
)
    ensures
        pairs_view(final(out)@) == pairs_view(old(out)@) + records_paths(prefix@, rs@, acc),
    decreases rs,
{
    let ghost o = pairs_view(out@);
    assert(rs@.subrange(0, 0) =~= Seq::<(String, MemberType)>::empty());
    assert(pairs_view(out@) =~= o + records_paths(prefix@, rs@.subrange(0, 0), acc));
    let mut i: usize = 0;
    while i < rs.len()
        invariant
            i <= rs@.len(),
            pairs_view(out@) == o + records_paths(prefix@, rs@.subrange(0, i as int), acc),
        decreases rs@.len() - i,
    {
        proof {
            assert(decreases_to!(rs => rs@[i as int]));
            let next = rs@.subrange(0, i + 1);
            assert(next.drop_last() =~= rs@.subrange(0, i as int));
            assert(next.last() == rs@[i as int]);
        }
        let r = &rs[i];
        let p = dotted(prefix, &r.0);
        let ghost before = pairs_view(out@);
        out.push((p.clone(), acc));
        proof {
            assert(pairs_view(out@) =~= before + seq![(p@, acc)]);
        }
        collect_member_paths(&p, &r.1, acc, out);
        proof {
            assert(pairs_view(out@) =~= o + records_paths(prefix@, rs@.subrange(0, i + 1), acc));
        }
        i = i + 1;
    }
    assert(rs@.subrange(0, rs@.len() as int) =~= rs@);
}

/// The member paths of a struct: those reachable through each of its members, in order.
pub open spec fn struct_paths(ms: Seq<MemberDef>) -> Seq<(Seq<char>, bool)>
    decreases ms.len(),
{
    if ms.len() == 0 {
        Seq::empty()
    } else {
        struct_paths(ms.drop_last()) + type_paths(ms.last().name@, ms.last().ty, true)
    }
}

/// The names visible from a struct: its members', then its template parameters' and
/// expressions'.
pub open spec fn struct_visible(ms: Seq<MemberDef>, template_names: Seq<String>) -> Seq<Seq<char>> {
    ms.map_values(|m: MemberDef| m.name@) + template_names.map_values(|t: String| t@)
}

/// Copies a list of strings.
fn copy_strings(s: &Vec<String>) -> (r: Vec<String>)
    ensures
        r@.len() == s@.len(),
        forall|i: int| 0 <= i < s@.len() ==> #[trigger] r@[i]@ == s@[i]@,
{
    let mut r: Vec<String> = Vec::new();
    let mut i: usize = 0;
    while i < s.len()
        invariant
            i <= s@.len(),
            r@.len() == i,
            forall|j: int| 0 <= j < i ==> #[trigger] r@[j]@ == s@[j]@,
        decreases s@.len() - i,
    {
        r.push(s[i].clone());
        i = i + 1;
    }
    r
}

/// Copies a list of member paths.
fn copy_paths(s: &Vec<(String, bool)>) -> (r: Vec<(String, bool)>)
    ensures
        pairs_view(r@) == pairs_view(s@),
{
    let mut r: Vec<(String, bool)> = Vec::new();
    let mut i: usize = 0;
    while i < s.len()
        invariant
            i <= s@.len(),
            r@.len() == i,
            forall|j: int| 0 <= j < i ==> #[trigger] r@[j].0@ == s@[j].0@ && r@[j].1 == s@[j].1,
        decreases s@.len() - i,
    {
        let name = s[i].0.clone();
        let ghost r0 = r@;
        r.push((name, s[i].1));
        proof {
            assert forall|j: int| 0 <= j < i + 1 implies #[trigger] r@[j].0@ == s@[j].0@ && r@[j].1 == s@[j].1 by {
                if j < i {
                    assert(r@[j] == r0[j]);
                }
            }
        }
        i = i + 1;
    }
    assert(pairs_view(r@) =~= pairs_view(s@));
    r
}

/// The names visible from a struct and its member paths.
pub fn collect_struct_contract_metadata(members: &Vec<MemberDef>, template_names: &Vec<String>) -> (r: (
    Vec<String>,
    Vec<(String, bool)>,
))
    ensures
        r.0@.map_values(|t: String| t@) == struct_visible(members@, template_names@),
        pairs_view(r.1@) == struct_paths(members@),
{
    let mut visible: Vec<String> = Vec::new();
    let mut paths: Vec<(String, bool)> = Vec::new();
    let mut i: usize = 0;
    assert(members@.subrange(0, 0) =~= Seq::<MemberDef>::empty());
    while i < members.len()
        invariant
            i <= members@.len(),
            visible@.len() == i,
            forall|j: int| 0 <= j < i ==> #[trigger] visible@[j]@ == members@[j].name@,
            pairs_view(paths@) == struct_paths(members@.subrange(0, i as int)),
        decreases members@.len() - i,
    {
        proof {
            let next = members@.subrange(0, i + 1);
            assert(next.drop_last() =~= members@.subrange(0, i as int));
            assert(next.last() == members@[i as int]);
        }
        let m = &members[i];
        visible.push(m.name.clone());
        collect_member_paths(&m.name, &m.ty, true, &mut paths);
        i = i + 1;
    }
    assert(members@.subrange(0, members@.len() as int) =~= members@);
    let mut k: usize = 0;
    while k < template_names.len()
        invariant
            k <= template_names@.len(),
            visible@.len() == members@.len() + k,
            forall|j: int| 0 <= j < members@.len() ==> #[trigger] visible@[j]@ == members@[j].name@,
            forall|j: int|
                0 <= j < k ==> #[trigger] visible@[members@.len() + j]@ == template_names@[j]@,
        decreases template_names@.len() - k,
    {
        visible.push(template_names[k].clone());
        k = k + 1;
    }
    proof {
        let sv = struct_visible(members@, template_names@);
        let vv = visible@.map_values(|t: String| t@);
        assert forall|j: int| 0 <= j < visible@.len() implies #[trigger] vv[j] == sv[j] by {
            if j >= members@.len() {
                assert(visible@[members@.len() + (j - members@.len())]@ == template_names@[j
                    - members@.len()]@);
            }
        }
        assert(visible@.map_values(|t: String| t@) =~= sv);
    }
    (visible, paths)
}

/// The count recorded for `sc`: the latest entry of the scope, or zero.
pub open spec fn counter(ix: Seq<(LoopScope, usize)>, sc: LoopScopeV) -> nat
    decreases ix.len(),
{
    if ix.len() == 0 {
        0
    } else if ix.last().0@ == sc {
        ix.last().1 as nat
    } else {
        counter(ix.drop_last(), sc)
    }
}

/// Reads [`counter`].
fn get_counter(ix: &Vec<(LoopScope, usize)>, sc: &LoopScope) -> (r: usize)
    ensures
        r == counter(ix@, sc@),
{
    let ghost s = ix@;
    let mut i = ix.len();
    assert(s.subrange(0, i as int) =~= s);
    while i > 0
        invariant
            i <= s.len(),
            s == ix@,
            counter(s, sc@) == counter(s.subrange(0, i as int), sc@),
        decreases i,
    {
        proof {
            let sub = s.subrange(0, i as int);
            assert(sub.drop_last() =~= s.subrange(0, i - 1));
            assert(sub.last() == s[i - 1]);
        }
        if ix[i - 1].0.same(sc) {
            return ix[i - 1].1;
        }
        i = i - 1;
    }
    0
}

/// Looking an entry up after pushing one with another key.
proof fn lemma_loop_lookup_push(
    s: Seq<(LoopScope, String, LoopMetadata)>,
    e: (LoopScope, String, LoopMetadata),
    sc: LoopScopeV,
    nm: Seq<char>,
)
    ensures
        loop_lookup(s.push(e), sc, nm) == if e.0@ == sc && e.1@ == nm {
            Some(e.2)
        } else {
            loop_lookup(s, sc, nm)
        },
{
    assert(s.push(e).drop_last() =~= s);
}

/// An entry found by [`loop_lookup`] is in the list.
proof fn lemma_loop_lookup_some(s: Seq<(LoopScope, String, LoopMetadata)>, sc: LoopScopeV, nm: Seq<char>)
    requires
        loop_lookup(s, sc, nm) is Some,
    ensures
        exists|k: int| 0 <= k < s.len() && #[trigger] s[k].0@ == sc && s[k].1@ == nm,
    decreases s.len(),
{
    if s.last().0@ == sc && s.last().1@ == nm {
        assert(s[s.len() - 1].0@ == sc);
    } else {
        lemma_loop_lookup_some(s.drop_last(), sc, nm);
        let k = choose|k: int| 0 <= k < s.drop_last().len() && #[trigger] s.drop_last()[k].0@ == sc
            && s.drop_last()[k].1@ == nm;
        assert(s[k] == s.drop_last()[k]);
    }
}

/// At most one loop of each of the first `i` operations is counted.
proof fn lemma_unlabeled_bound(ops: Seq<IrOp>, i: int, sc: LoopScopeV)
    requires
        0 <= i,
    ensures
        unlabeled_before(ops, i, sc) <= i,
    decreases i,
{
    if i > 0 {
        lemma_unlabeled_bound(ops, i - 1, sc);
    }
}

/// Counting unlabeled loops over more operations counts no fewer.
proof fn lemma_unlabeled_mono(ops: Seq<IrOp>, i: int, j: int, sc: LoopScopeV)
    requires
        0 <= i <= j,
    ensures
        unlabeled_before(ops, i, sc) <= unlabeled_before(ops, j, sc),
    decreases j - i,
{
    if i < j {
        lemma_unlabeled_mono(ops, i, j - 1, sc);
    }
}

/// Two unlabeled loops of one scope get different generated names, so loop names can only
/// clash through labels.
pub proof fn generated_loop_names_are_distinct(ops: Seq<IrOp>, i: int, j: int)
    requires
        0 <= i < j < ops.len(),
        loop_info(ops[i]) is Some,
        loop_info(ops[j]) is Some,
        (loop_info(ops[i])->0).0 == (loop_info(ops[j])->0).0,
        op_label(ops[i]) is None,
        op_label(ops[j]) is None,
    ensures
        loop_name(ops, i) != loop_name(ops, j),
{
    let sc = (loop_info(ops[i])->0).0;
    let a = unlabeled_before(ops, i, sc);
    let b = unlabeled_before(ops, j, sc);
    assert(unlabeled_before(ops, i + 1, sc) == a + 1);
    lemma_unlabeled_mono(ops, i + 1, j, sc);
    if loop_name(ops, i) == loop_name(ops, j) {
        let p = "loop"@;
        assert((p + decimal(a)).subrange(p.len() as int, (p + decimal(a)).len() as int) =~= decimal(a));
        assert((p + decimal(b)).subrange(p.len() as int, (p + decimal(b)).len() as int) =~= decimal(b));
        crate::text::lemma_decimal_injective(a, b);
    }
}

/// Looking a target up after pushing an entry.
proof fn lemma_assoc_push<V>(s: Seq<(String, V)>, e: (String, V), k: Seq<char>)
    ensures
        assoc(s.push(e), k) == if e.0@ == k {
            Some(e.1)
        } else {
            assoc(s, k)
        },
{
    assert(s.push(e).drop_last() =~= s);
}

/// The texts of a list of strings, as a set.
pub open spec fn texts(s: Seq<String>) -> Set<Seq<char>> {
    Set::new(|x: Seq<char>| has_text(s, x))
}

/// The entry found under `k` in a list of pairs of texts, the latest one winning.
pub open spec fn assoc_text<V>(s: Seq<(Seq<char>, V)>, k: Seq<char>) -> Option<V>
    decreases s.len(),
{
    if s.len() == 0 {
        None
    } else if s.last().0 == k {
        Some(s.last().1)
    } else {
        assoc_text(s.drop_last(), k)
    }
}

/// A list of member paths as a map from path to accessibility, the latest entry winning.
pub open spec fn path_map(p: Seq<(Seq<char>, bool)>) -> Map<Seq<char>, bool> {
    Map::new(|k: Seq<char>| assoc_text(p, k) is Some, |k: Seq<char>| assoc_text(p, k)->0)
}

/// What is known of a loop, by value.
pub struct LoopEntry {
    pub scope: LoopScopeV,
    pub kind: LoopKind,
    pub binding_count: nat,
    pub explicit_label: bool,
}

/// The value of a [`LoopMetadata`].
pub open spec fn loop_entry(lm: LoopMetadata) -> LoopEntry {
    LoopEntry {
        scope: lm.scope@,
        kind: lm.kind,
        binding_count: lm.binding_count as nat,
        explicit_label: lm.explicit_label,
    }
}

/// The metadata as sets and maps: the contract targets; the names visible from each target;
/// the member paths of each target with their accessibility; the loops by scope and name.
pub struct MetadataModel {
    pub globals: Set<Seq<char>>,
    pub visible: Map<Seq<char>, Set<Seq<char>>>,
    pub paths: Map<Seq<char>, Map<Seq<char>, bool>>,
    pub loops: Map<(LoopScopeV, Seq<char>), LoopEntry>,
}

/// The visible names by target of an association list.
pub open spec fn visible_model(s: Seq<(String, Vec<String>)>) -> Map<Seq<char>, Set<Seq<char>>> {
    Map::new(|t: Seq<char>| assoc(s, t) is Some, |t: Seq<char>| texts((assoc(s, t)->0)@))
}

/// The member paths by target of an association list.
pub open spec fn paths_model(s: Seq<(String, Vec<(String, bool)>)>) -> Map<Seq<char>, Map<Seq<char>, bool>> {
    Map::new(
        |t: Seq<char>| assoc(s, t) is Some,
        |t: Seq<char>| path_map(pairs_view((assoc(s, t)->0)@)),
    )
}

/// The loops by scope and name of a list of loops.
pub open spec fn loops_model(s: Seq<(LoopScope, String, LoopMetadata)>) -> Map<(LoopScopeV, Seq<char>), LoopEntry> {
    Map::new(
        |k: (LoopScopeV, Seq<char>)| loop_lookup(s, k.0, k.1) is Some,
        |k: (LoopScopeV, Seq<char>)| loop_entry(loop_lookup(s, k.0, k.1)->0),
    )
}

impl IrMetadata {
    /// The metadata as sets and maps.
    pub open spec fn model(&self) -> MetadataModel {
        MetadataModel {
            globals: texts(self.global_symbols@),
            visible: visible_model(self.visible_symbols@),
            paths: paths_model(self.member_paths@),
            loops: loops_model(self.labeled_loops@),
        }
    }
}

/// The metadata of no operations.
pub open spec fn empty_model() -> MetadataModel {
    MetadataModel { globals: Set::empty(), visible: Map::empty(), paths: Map::empty(), loops: Map::empty() }
}

/// The visible names and member paths of the contracts of a function that is not yet a
/// target: those of the struct that contains it, if any (none if that struct is not a target),
/// or else the parameter and expression names of its template.
pub open spec fn function_entries(
    md: MetadataModel,
    containing_struct: Option<(Vec<String>, String)>,
    template_names: Seq<String>,
) -> (Set<Seq<char>>, Map<Seq<char>, bool>) {
    match containing_struct {
        Some((p, n)) => {
            let st = join_path(p@, n@);
            (
                if md.visible.contains_key(st) { md.visible[st] } else { Set::empty() },
                if md.paths.contains_key(st) { md.paths[st] } else { Map::empty() },
            )
        },
        None => (template_names.map_values(|t: String| t@).to_set(), Map::empty()),
    }
}

/// What the operation at position `i` adds to the metadata `md` of the operations before it.
/// A struct is recorded as a target with its members and template names visible and its
/// member paths; a function is recorded as a target, and unless it already is one, with the
/// entries of [`function_entries`]; a loop is recorded under its scope and [`loop_name`].
pub open spec fn walk_step(md: MetadataModel, ops: Seq<IrOp>, i: int) -> MetadataModel {
    match ops[i] {
        IrOp::StructDef { path, name, members, template_names } => {
            let t = join_path(path@, name@);
            MetadataModel {
                globals: md.globals.insert(t),
                visible: md.visible.insert(t, struct_visible(members@, template_names@).to_set()),
                paths: md.paths.insert(t, path_map(struct_paths(members@))),
                loops: md.loops,
            }
        },
        IrOp::FuncDef { fqn, containing_struct, template_names } => {
            if md.visible.contains_key(fqn@) {
                MetadataModel {
                    globals: md.globals.insert(fqn@),
                    visible: md.visible,
                    paths: md.paths,
                    loops: md.loops,
                }
            } else {
                let e = function_entries(md, containing_struct, template_names@);
                MetadataModel {
                    globals: md.globals.insert(fqn@),
                    visible: md.visible.insert(fqn@, e.0),
                    paths: md.paths.insert(fqn@, e.1),
                    loops: md.loops,
                }
            }
        },
        IrOp::Op { loop_label, .. } => match loop_info(ops[i]) {
            Some(info) => MetadataModel {
                globals: md.globals,
                visible: md.visible,
                paths: md.paths,
                loops: md.loops.insert(
                    (info.0, loop_name(ops, i)),
                    LoopEntry {
                        scope: info.0,
                        kind: info.1,
                        binding_count: info.2,
                        explicit_label: loop_label is Some,
                    },
                ),
            },
            None => md,
        },
    }
}

/// The metadata of the first `n` operations.
pub open spec fn model_upto(ops: Seq<IrOp>, n: int) -> MetadataModel
    decreases n,
{
    if n <= 0 {
        empty_model()
    } else {
        walk_step(model_upto(ops, n - 1), ops, n - 1)
    }
}

/// A function defined inside a struct, met while it is not yet a contract target, is recorded
/// with the member paths and the visible names that its struct has as a target at that point:
/// the contracts of a struct's function see the struct's members, with their accessibility.
pub proof fn struct_functions_see_their_struct_members(ops: Seq<IrOp>, i: int)
    requires
        0 <= i < ops.len(),
        ops[i] matches IrOp::FuncDef { fqn, containing_struct: Some((p, n)), .. } && !model_upto(
            ops,
            i,
        ).visible.contains_key(fqn@) && model_upto(ops, i).paths.contains_key(join_path(p@, n@))
            && model_upto(ops, i).visible.contains_key(join_path(p@, n@)),
    ensures
        ops[i] matches IrOp::FuncDef { fqn, containing_struct: Some((p, n)), .. } && model_upto(
            ops,
            i + 1,
        ).paths.contains_key(fqn@) && model_upto(ops, i + 1).paths[fqn@] == model_upto(ops, i).paths[join_path(
            p@,
            n@,
        )] && model_upto(ops, i + 1).visible[fqn@] == model_upto(ops, i).visible[join_path(p@, n@)],
{
    assert(model_upto(ops, i + 1) == walk_step(model_upto(ops, i), ops, i));
}

/// The operation at position `j` is a loop of scope `sc` named `nm`.
pub open spec fn loop_key_at(ops: Seq<IrOp>, j: int, sc: LoopScopeV, nm: Seq<char>) -> bool {
    loop_info(ops[j]) matches Some(info) && info.0 == sc && loop_name(ops, j) == nm
}

/// A loop is recorded in the metadata of the first `n` operations exactly when one of them
/// is a loop with that scope and name.
proof fn lemma_loop_keys(ops: Seq<IrOp>, n: int, sc: LoopScopeV, nm: Seq<char>)
    requires
        0 <= n <= ops.len(),
    ensures
        model_upto(ops, n).loops.contains_key((sc, nm)) <==> exists|j: int|
            0 <= j < n && #[trigger] loop_key_at(ops, j, sc, nm),
    decreases n,
{
    if n > 0 {
        lemma_loop_keys(ops, n - 1, sc, nm);
        if loop_key_at(ops, n - 1, sc, nm) {
            assert(model_upto(ops, n).loops.contains_key((sc, nm)));
        }
        if exists|j: int| 0 <= j < n && #[trigger] loop_key_at(ops, j, sc, nm) {
            let j = choose|j: int| 0 <= j < n && #[trigger] loop_key_at(ops, j, sc, nm);
            if j < n - 1 {
                assert(model_upto(ops, n - 1).loops.contains_key((sc, nm)));
            }
        }
    }
}

/// The contract target an operation defines, if any: a struct under its qualified name, a
/// function under its fully qualified name.
pub open spec fn target_of(op: IrOp) -> Option<Seq<char>> {
    match op {
        IrOp::StructDef { path, name, .. } => Some(join_path(path@, name@)),
        IrOp::FuncDef { fqn, .. } => Some(fqn@),
        _ => None,
    }
}

/// Walking more operations keeps the targets already recorded.
proof fn lemma_globals_grow(ops: Seq<IrOp>, i: int, j: int)
    requires
        0 <= i <= j <= ops.len(),
    ensures
        model_upto(ops, i).globals.subset_of(model_upto(ops, j).globals),
    decreases j - i,
{
    if i < j {
        lemma_globals_grow(ops, i, j - 1);
    }
}

/// Every struct and function of the module is a contract target of its metadata.
pub proof fn targets_are_recorded(ops: Seq<IrOp>, i: int)
    requires
        0 <= i < ops.len(),
        target_of(ops[i]) is Some,
    ensures
        model_upto(ops, ops.len() as int).globals.contains(target_of(ops[i])->0),
{
    assert(model_upto(ops, i + 1).globals.contains(target_of(ops[i])->0));
    lemma_globals_grow(ops, i + 1, ops.len() as int);
}

/// When no two loops share a scope and a name, each loop is recorded under its scope and
/// [`loop_name`] with its own kind, binding count and label flag: an `scf.for` binds one more
/// value than it has operands, an `scf.while` as many as it has.
pub proof fn loop_entries_are_exact(ops: Seq<IrOp>, i: int)
    requires
        0 <= i < ops.len(),
        loop_info(ops[i]) is Some,
        !has_duplicate_loop(ops, ops.len() as int),
    ensures
        ({
            let info = loop_info(ops[i])->0;
            let m = model_upto(ops, ops.len() as int);
            &&& m.loops.contains_key((info.0, loop_name(ops, i)))
            &&& m.loops[(info.0, loop_name(ops, i))] == LoopEntry {
                scope: info.0,
                kind: info.1,
                binding_count: info.2,
                explicit_label: op_label(ops[i]) is Some,
            }
        }),
{
    lemma_loop_entry_kept(ops, i, ops.len() as int);
}

/// The entry a loop records stays while no later loop has its scope and name.
proof fn lemma_loop_entry_kept(ops: Seq<IrOp>, i: int, n: int)
    requires
        0 <= i < n <= ops.len(),
        loop_info(ops[i]) is Some,
        !has_duplicate_loop(ops, ops.len() as int),
    ensures
        ({
            let info = loop_info(ops[i])->0;
            let m = model_upto(ops, n);
            &&& m.loops.contains_key((info.0, loop_name(ops, i)))
            &&& m.loops[(info.0, loop_name(ops, i))] == LoopEntry {
                scope: info.0,
                kind: info.1,
                binding_count: info.2,
                explicit_label: op_label(ops[i]) is Some,
            }
        }),
    decreases n - i,
{
    if n > i + 1 {
        lemma_loop_entry_kept(ops, i, n - 1);
        let info = loop_info(ops[i])->0;
        if loop_info(ops[n - 1]) is Some {
            let other = loop_info(ops[n - 1])->0;
            if other.0 == info.0 && loop_name(ops, n - 1) == loop_name(ops, i) {
                assert(same_loop_key(ops, i, n - 1));
                assert(has_duplicate_loop(ops, ops.len() as int));
            }
        }
    }
}

/// A list of strings and its copy have the same texts.
proof fn lemma_texts_copy(a: Seq<String>, b: Seq<String>)
    requires
        a.len() == b.len(),
        forall|i: int| 0 <= i < a.len() ==> #[trigger] a[i]@ == b[i]@,
    ensures
        texts(a) == texts(b),
{
    assert forall|x: Seq<char>| has_text(a, x) <==> has_text(b, x) by {
        if has_text(a, x) {
            let i = choose|i: int| 0 <= i < a.len() && #[trigger] a[i]@ == x;
            assert(b[i]@ == x);
        }
        if has_text(b, x) {
            let i = choose|i: int| 0 <= i < b.len() && #[trigger] b[i]@ == x;
            assert(a[i]@ == x);
        }
    }
    assert(texts(a) =~= texts(b));
}

/// The texts of a list of strings are the set of their views.
pub proof fn lemma_texts_views(s: Seq<String>)
    ensures
        texts(s) == s.map_values(|t: String| t@).to_set(),
{
    let v = s.map_values(|t: String| t@);
    assert forall|x: Seq<char>| has_text(s, x) <==> v.contains(x) by {
        if has_text(s, x) {
            let i = choose|i: int| 0 <= i < s.len() && #[trigger] s[i]@ == x;
            assert(v[i] == x);
        }
        if v.contains(x) {
            let i = choose|i: int| 0 <= i < v.len() && v[i] == x;
            assert(s[i]@ == x);
        }
    }
    assert(texts(s) =~= v.to_set());
}

/// Pushing a string adds its text.
pub proof fn lemma_texts_push(s: Seq<String>, x: String)
    ensures
        texts(s.push(x)) == texts(s).insert(x@),
{
    assert forall|y: Seq<char>| #[trigger] texts(s.push(x)).contains(y) <==> texts(s).insert(x@).contains(y) by {
        if has_text(s, y) {
            let i = choose|i: int| 0 <= i < s.len() && #[trigger] s[i]@ == y;
            assert(s.push(x)[i]@ == y);
        }
        if y == x@ {
            assert(s.push(x)[s.len() as int]@ == y);
        }
        if has_text(s.push(x), y) {
            let i = choose|i: int| 0 <= i < s.len() + 1 && #[trigger] s.push(x)[i]@ == y;
            if i < s.len() {
                assert(s[i]@ == y);
            }
        }
    }
    assert(texts(s.push(x)) =~= texts(s).insert(x@));
}

/// Pushing an entry to the visible names sets its target.
proof fn lemma_visible_push(s: Seq<(String, Vec<String>)>, e: (String, Vec<String>))
    ensures
        visible_model(s.push(e)) == visible_model(s).insert(e.0@, texts(e.1@)),
{
    assert forall|t: Seq<char>| #[trigger] assoc(s.push(e), t) == if e.0@ == t {
        Some(e.1)
    } else {
        assoc(s, t)
    } by {
        lemma_assoc_push(s, e, t);
    }
    assert(visible_model(s.push(e)) =~= visible_model(s).insert(e.0@, texts(e.1@)));
}

/// Pushing an entry to the member paths sets its target.
proof fn lemma_paths_push(s: Seq<(String, Vec<(String, bool)>)>, e: (String, Vec<(String, bool)>))
    ensures
        paths_model(s.push(e)) == paths_model(s).insert(e.0@, path_map(pairs_view(e.1@))),
{
    assert forall|t: Seq<char>| #[trigger] assoc(s.push(e), t) == if e.0@ == t {
        Some(e.1)
    } else {
        assoc(s, t)
    } by {
        lemma_assoc_push(s, e, t);
    }
    assert(paths_model(s.push(e)) =~= paths_model(s).insert(e.0@, path_map(pairs_view(e.1@))));
}

/// Pushing a loop sets its scope and name.
proof fn lemma_loops_push(s: Seq<(LoopScope, String, LoopMetadata)>, e: (LoopScope, String, LoopMetadata))
    ensures
        loops_model(s.push(e)) == loops_model(s).insert((e.0@, e.1@), loop_entry(e.2)),
{
    assert forall|k: (LoopScopeV, Seq<char>)| #[trigger] loop_lookup(s.push(e), k.0, k.1) == if e.0@
        == k.0 && e.1@ == k.1 {
        Some(e.2)
    } else {
        loop_lookup(s, k.0, k.1)
    } by {
        lemma_loop_lookup_push(s, e, k.0, k.1);
    }
    assert(loops_model(s.push(e)) =~= loops_model(s).insert((e.0@, e.1@), loop_entry(e.2)));
}

/// Looking a path up in a list of member paths, or in its view, gives the same result.
pub proof fn lemma_assoc_pairs(ps: Seq<(String, bool)>, k: Seq<char>)
    ensures
        assoc(ps, k) == assoc_text(pairs_view(ps), k),
    decreases ps.len(),
{
    if ps.len() > 0 {
        assert(pairs_view(ps).drop_last() =~= pairs_view(ps.drop_last()));
        lemma_assoc_pairs(ps.drop_last(), k);
    }
}

/// Some loop of the metadata belongs to the scope `sc`.
pub open spec fn scope_used(md: MetadataModel, sc: LoopScopeV) -> bool {
    exists|nm: Seq<char>| #[trigger] md.loops.contains_key((sc, nm))
}

/// The entry at position `k` of a list of loops is found under its scope and name.
proof fn lemma_loop_lookup_at(s: Seq<(LoopScope, String, LoopMetadata)>, k: int)
    requires
        0 <= k < s.len(),
    ensures
        loop_lookup(s, s[k].0@, s[k].1@) is Some,
    decreases s.len(),
{
    if k < s.len() - 1 && !(s.last().0@ == s[k].0@ && s.last().1@ == s[k].1@) {
        assert(s.drop_last()[k] == s[k]);
        lemma_loop_lookup_at(s.drop_last(), k);
    }
}

/// The metadata has a loop of scope `sc` exactly when its model does.
pub proof fn lemma_scope_used(ir: IrMetadata, sc: LoopScopeV)
    ensures
        (exists|i: int| 0 <= i < ir.labeled_loops@.len() && #[trigger] ir.labeled_loops@[i].0@ == sc)
            <==> scope_used(ir.model(), sc),
{
    let s = ir.labeled_loops@;
    if exists|i: int| 0 <= i < s.len() && #[trigger] s[i].0@ == sc {
        let i = choose|i: int| 0 <= i < s.len() && #[trigger] s[i].0@ == sc;
        lemma_loop_lookup_at(s, i);
        assert(ir.model().loops.contains_key((sc, s[i].1@)));
    }
    if scope_used(ir.model(), sc) {
        let nm = choose|nm: Seq<char>| #[trigger] ir.model().loops.contains_key((sc, nm));
        assert(loop_lookup(s, sc, nm) is Some);
        lemma_loop_lookup_some(s, sc, nm);
        let k = choose|k: int| 0 <= k < s.len() && #[trigger] s[k].0@ == sc && s[k].1@ == nm;
        assert(ir.labeled_loops@[k].0@ == sc);
    }
}

/// Copies a list of strings: the texts stay.
pub fn copy_texts(s: &Vec<String>) -> (r: Vec<String>)
    ensures
        texts(r@) == texts(s@),
{
    let r = copy_strings(s);
    proof {
        lemma_texts_copy(r@, s@);
    }
    r
}

/// The visible names and member paths of the contracts of a function: see
/// [`function_entries`].
fn function_contract_metadata(
    containing_struct: &Option<(Vec<String>, String)>,
    template_names: &Vec<String>,
    visible: &Vec<(String, Vec<String>)>,
    paths: &Vec<(String, Vec<(String, bool)>)>,
) -> (r: (Vec<String>, Vec<(String, bool)>))
    ensures
        ({
            let md = MetadataModel {
                globals: Set::empty(),
                visible: visible_model(visible@),
                paths: paths_model(paths@),
                loops: Map::empty(),
            };
            let e = function_entries(md, *containing_struct, template_names@);
            texts(r.0@) == e.0 && path_map(pairs_view(r.1@)) == e.1
        }),
{
    match containing_struct {
        Some((p, n)) => {
            let st = struct_contract_target_name(p, n);
            let v = match find_in(visible, &st) {
                Some(names) => copy_texts(names),
                None => Vec::new(),
            };
            let q = match find_in(paths, &st) {
                Some(ps) => copy_paths(ps),
                None => Vec::new(),
            };
            proof {
                assert(texts(Seq::<String>::empty()) =~= Set::<Seq<char>>::empty());
                assert(path_map(pairs_view(Seq::<(String, bool)>::empty())) =~= Map::<Seq<char>, bool>::empty());
            }
            (v, q)
        },
        None => {
            let v = copy_texts(template_names);
            proof {
                lemma_texts_views(template_names@);
                assert(path_map(pairs_view(Seq::<(String, bool)>::empty())) =~= Map::<Seq<char>, bool>::empty());
            }
            (v, Vec::new())
        },
    }
}

/// Records a struct as a contract target.
fn record_struct(
    m: &mut IrMetadata,
    path: &Vec<String>,
    name: &String,
    members: &Vec<MemberDef>,
    template_names: &Vec<String>,
)
    ensures
        ({
            let t = join_path(path@, name@);
            let md = old(m).model();
            final(m).model() == MetadataModel {
                globals: md.globals.insert(t),
                visible: md.visible.insert(t, struct_visible(members@, template_names@).to_set()),
                paths: md.paths.insert(t, path_map(struct_paths(members@))),
                loops: md.loops,
            }
        }),
{
    let target = struct_contract_target_name(path, name);
    let (visible, paths) = collect_struct_contract_metadata(members, template_names);
    let ghost g0 = m.global_symbols@;
    let ghost v0 = m.visible_symbols@;
    let ghost p0 = m.member_paths@;
    m.global_symbols.push(target.clone());
    m.visible_symbols.push((target.clone(), visible));
    m.member_paths.push((target, paths));
    proof {
        let ve = m.visible_symbols@.last();
        let pe = m.member_paths@.last();
        assert(m.visible_symbols@ == v0.push(ve));
        assert(m.member_paths@ == p0.push(pe));
        lemma_texts_push(g0, m.global_symbols@.last());
        assert(m.global_symbols@ == g0.push(m.global_symbols@.last()));
        lemma_visible_push(v0, ve);
        lemma_paths_push(p0, pe);
        lemma_texts_views(ve.1@);
    }
}

/// Records a function as a contract target.
fn record_function(
    m: &mut IrMetadata,
    fqn: &String,
    containing_struct: &Option<(Vec<String>, String)>,
    template_names: &Vec<String>,
)
    ensures
        ({
            let md = old(m).model();
            if md.visible.contains_key(fqn@) {
                final(m).model() == MetadataModel {
                    globals: md.globals.insert(fqn@),
                    visible: md.visible,
                    paths: md.paths,
                    loops: md.loops,
                }
            } else {
                let e = function_entries(md, *containing_struct, template_names@);
                final(m).model() == MetadataModel {
                    globals: md.globals.insert(fqn@),
                    visible: md.visible.insert(fqn@, e.0),
                    paths: md.paths.insert(fqn@, e.1),
                    loops: md.loops,
                }
            }
        }),
{
    let ghost md = m.model();
    let ghost g0 = m.global_symbols@;
    let ghost v0 = m.visible_symbols@;
    let ghost p0 = m.member_paths@;
    m.global_symbols.push(fqn.clone());
    proof {
        lemma_texts_push(g0, m.global_symbols@.last());
        assert(m.global_symbols@ == g0.push(m.global_symbols@.last()));
    }
    if find_in(&m.visible_symbols, fqn).is_none() {
        let (visible, paths) = function_contract_metadata(
            containing_struct,
            template_names,
            &m.visible_symbols,
            &m.member_paths,
        );
        m.visible_symbols.push((fqn.clone(), visible));
        m.member_paths.push((fqn.clone(), paths));
        proof {
            let ve = m.visible_symbols@.last();
            let pe = m.member_paths@.last();
            assert(m.visible_symbols@ == v0.push(ve));
            assert(m.member_paths@ == p0.push(pe));
            lemma_visible_push(v0, ve);
            lemma_paths_push(p0, pe);
        }
    }
}

/// The error of a module with two loops of one scope named `name`.
pub open spec fn duplicate_loop_message(source: Seq<char>, name: Seq<char>) -> Seq<char> {
    source + ": duplicate loop name `"@ + name + "`"@
}

/// Derives the metadata of a module from its operations in walk order: see [`walk_step`].
/// Two loops of one scope with the same name are an error, reported with the name.
pub fn extract_metadata(source_name: &str, ops: &Vec<IrOp>) -> (r: Result<IrMetadata, CompileError>)
    requires
        forall|i: int|
            0 <= i < ops@.len() ==> (#[trigger] ops@[i] matches IrOp::Op { operand_count, .. }
                && operand_count < usize::MAX) || !(ops@[i] is Op),
    ensures
        r is Err <==> has_duplicate_loop(ops@, ops@.len() as int),
        r matches Err(e) ==> e is Ir,
        r matches Ok(m) ==> m.model() == model_upto(ops@, ops@.len() as int),
        match r {
            Err(CompileError::Ir(msg)) => exists|j: int, k: int|
                #![trigger same_loop_key(ops@, j, k)]
                0 <= j < k < ops@.len() && same_loop_key(ops@, j, k) && !has_duplicate_loop(ops@, k)
                    && msg@ == duplicate_loop_message(source_name@, loop_name(ops@, k)),
            _ => true,
        },
{
    let mut m = IrMetadata {
        global_symbols: Vec::new(),
        visible_symbols: Vec::new(),
        member_paths: Vec::new(),
        labeled_loops: Vec::new(),
    };
    proof {
        assert(m.model().globals =~= Set::<Seq<char>>::empty());
        assert(m.model().visible =~= Map::<Seq<char>, Set<Seq<char>>>::empty());
        assert(m.model().paths =~= Map::<Seq<char>, Map<Seq<char>, bool>>::empty());
        assert(m.model().loops =~= Map::<(LoopScopeV, Seq<char>), LoopEntry>::empty());
    }
    let mut ix: Vec<(LoopScope, usize)> = Vec::new();
    let mut i: usize = 0;
    while i < ops.len()
        invariant
            i <= ops@.len(),
            forall|q: int|
                0 <= q < ops@.len() ==> (#[trigger] ops@[q] matches IrOp::Op { operand_count, .. }
                    && operand_count < usize::MAX) || !(ops@[q] is Op),
            forall|sc: LoopScopeV| #[trigger] counter(ix@, sc) == unlabeled_before(ops@, i as int, sc),
            !has_duplicate_loop(ops@, i as int),
            m.model() == model_upto(ops@, i as int),
        decreases ops@.len() - i,
    {
        let ghost md = m.model();
        match &ops[i] {
            IrOp::StructDef { path, name, members, template_names } => {
                record_struct(&mut m, path, name, members, template_names);
            },
            IrOp::FuncDef { fqn, containing_struct, template_names } => {
                record_function(&mut m, fqn, containing_struct, template_names);
            },
            IrOp::Op { name, operand_count, loop_label, parents } => {
                let scope = containing_loop_scope(parents);
                let is_for = *name == "scf.for".to_owned();
                let is_while = *name == "scf.while".to_owned();
                proof {
                    reveal_strlit("scf.for");
                    reveal_strlit("scf.while");
                }
                if let Some(sc) = scope {
                    if is_for || is_while {
                        let (kind, count) = if is_for {
                            (LoopKind::For, *operand_count + 1)
                        } else {
                            (LoopKind::While, *operand_count)
                        };
                        let c = get_counter(&ix, &sc);
                        proof {
                            lemma_unlabeled_bound(ops@, i as int, sc@);
                        }
                        let lname = match loop_label {
                            Some(l) => l.clone(),
                            None => {
                                let mut s = "loop".to_owned();
                                push_decimal(&mut s, c as u64);
                                proof {
                                    reveal_strlit("loop");
                                }
                                s
                            },
                        };
                        proof {
                            assert(loop_info(ops@[i as int]) == Some((sc@, kind, count as nat)));
                            assert(loop_name(ops@, i as int) == lname@);
                            lemma_loop_keys(ops@, i as int, sc@, lname@);
                        }
                        if m.lookup_loop(&sc, &lname).is_some() {
                            proof {
                                assert(md.loops.contains_key((sc@, lname@)));
                                let j = choose|j: int| 0 <= j < i && #[trigger] loop_key_at(ops@, j, sc@, lname@);
                                assert(same_loop_key(ops@, j, i as int));
                                assert(has_duplicate_loop(ops@, ops@.len() as int));
                            }
                            let mut msg = source_name.to_owned();
                            msg.append(": duplicate loop name `");
                            msg.append(lname.as_str());
                            msg.append("`");
                            proof {
                                let j = choose|j: int| 0 <= j < i && #[trigger] loop_key_at(ops@, j, sc@, lname@);
                                assert(same_loop_key(ops@, j, i as int));
                                assert(msg@ =~= duplicate_loop_message(source_name@, loop_name(ops@, i as int)));
                            }
                            return Err(CompileError::Ir(msg));
                        }
                        let meta = LoopMetadata {
                            kind,
                            binding_count: count,
                            scope: sc.copy(),
                            explicit_label: loop_label.is_some(),
                        };
                        let ghost l0 = m.labeled_loops@;
                        let ghost ix0 = ix@;
                        let ghost scv = sc@;
                        m.labeled_loops.push((sc.copy(), lname, meta));
                        if loop_label.is_none() {
                            ix.push((sc, c + 1));
                        }
                        proof {
                            let e = m.labeled_loops@.last();
                            assert(m.labeled_loops@ == l0.push(e));
                            lemma_loops_push(l0, e);
                            assert(m.model().loops == md.loops.insert((scv, loop_name(ops@, i as int)), loop_entry(e.2)));
                            assert(m.model() == walk_step(md, ops@, i as int));
                            assert forall|x: LoopScopeV| #[trigger] counter(ix@, x) == unlabeled_before(
                                ops@,
                                i + 1,
                                x,
                            ) by {
                                if loop_label.is_none() {
                                    assert(ix@.drop_last() =~= ix0);
                                    assert(counter(ix0, x) == unlabeled_before(ops@, i as int, x));
                                } else {
                                    assert(counter(ix0, x) == unlabeled_before(ops@, i as int, x));
                                }
                            }
                            assert forall|a: int, b: int| 0 <= a < b < i + 1 implies !#[trigger] same_loop_key(ops@, a, b) by {
                                if b < i {
                                    assert(!same_loop_key(ops@, a, b));
                                } else if same_loop_key(ops@, a, b) {
                                    assert(loop_key_at(ops@, a, scv, lname@));
                                }
                            }
                        }
                    }
                }
            },
        }
        proof {
            if loop_info(ops@[i as int]) is None {
                assert(m.model() == walk_step(md, ops@, i as int));
                assert forall|x: LoopScopeV| #[trigger] counter(ix@, x) == unlabeled_before(ops@, i + 1, x) by {}
                assert forall|a: int, b: int| 0 <= a < b < i + 1 implies !#[trigger] same_loop_key(ops@, a, b) by {
                    if b < i {
                        assert(!same_loop_key(ops@, a, b));
                    }
                }
            }
            assert(model_upto(ops@, i + 1) == walk_step(model_upto(ops@, i as int), ops@, i as int));
        }
        i = i + 1;
    }
    Ok(m)
}

} // verus!
