//! Type analysis of the AST.
//!
//! The type checker walks a parsed document, binds the names each declaration makes visible,
//! generates type constraints for every expression and solves them by unification. What it
//! knows of the circuit a contract is written for comes from a [`CircuitInfo`].
use vstd::prelude::*;
use crate::ast::Identifier;
use crate::ir::llzk::error::Error;
use crate::type_analysis::loops::LoopInfo;
use crate::types::Ty;

pub mod block;
pub mod check;
pub mod contract;
pub mod ctx;
pub mod error;
pub mod expression;
pub mod helpers;
pub mod loops;
pub mod mgu;
pub mod scope;
pub mod subst;
pub mod typed;

verus! {

/// Information about an input argument of a contract target.
pub struct InputInfo {
    /// The argument's name, when the IR gives one.
    pub name: Option<String>,
    pub ty: Ty,
}

impl InputInfo {
    /// An input known by name.
    pub fn named(name: &str, ty: Ty) -> (r: InputInfo)
        ensures
            r.name matches Some(n) && n@ == name@,
            r.ty == ty,
    {
        InputInfo { name: Some(name.to_owned()), ty }
    }

    /// An input known only by position.
    pub fn unnamed(ty: Ty) -> (r: InputInfo)
        ensures
            r.name is None,
            r.ty == ty,
    {
        InputInfo { name: None, ty }
    }
}

/// Information about an output of a contract target.
pub struct OutputInfo {
    /// The output's name, when the IR gives one.
    pub name: Option<String>,
    pub ty: Ty,
}

impl OutputInfo {
    /// An output known by name.
    pub fn named(name: &str, ty: Ty) -> (r: OutputInfo)
        ensures
            r.name matches Some(n) && n@ == name@,
            r.ty == ty,
    {
        OutputInfo { name: Some(name.to_owned()), ty }
    }

    /// An output known only by position.
    pub fn unnamed(ty: Ty) -> (r: OutputInfo)
        ensures
            r.name is None,
            r.ty == ty,
    {
        OutputInfo { name: None, ty }
    }
}

/// Information about a member of a contract target.
pub struct MemberInfo {
    pub name: String,
    pub ty: Ty,
    /// Whether the member is public.
    pub public: bool,
}

impl MemberInfo {
    /// Creates the information of a member.
    pub fn new(name: &str, ty: Ty, public: bool) -> (r: MemberInfo)
        ensures
            r.name@ == name@,
            r.ty == ty,
            r.public == public,
    {
        MemberInfo { name: name.to_owned(), ty, public }
    }
}

/// Information about a template parameter.
pub struct ParamInfo {
    pub name: String,
    /// The parameter's type, when the IR gives one; a field element otherwise.
    pub ty: Option<Ty>,
}

impl ParamInfo {
    /// Creates the information of a template parameter.
    pub fn new(name: &str, ty: Option<Ty>) -> (r: ParamInfo)
        ensures
            r.name@ == name@,
            r.ty == ty,
    {
        ParamInfo { name: name.to_owned(), ty }
    }
}

/// What a contract's body can see of its target: inputs and outputs in declaration order,
/// members, template parameters, loops, and the target's own type when it has one.
pub struct ContractTargetInfo {
    pub inputs: Vec<InputInfo>,
    pub outputs: Vec<OutputInfo>,
    pub members: Vec<MemberInfo>,
    pub template_params: Vec<ParamInfo>,
    pub loops: Vec<LoopInfo<Ty>>,
    pub self_type: Option<Ty>,
}

/// What the type checker knows of the circuit: its contract targets, by fully qualified name.
pub struct CircuitInfo {
    pub targets: Vec<(String, ContractTargetInfo)>,
}

/// The first target called `name`.
pub open spec fn target_lookup(targets: Seq<(String, ContractTargetInfo)>, name: Seq<char>) -> Option<
    ContractTargetInfo,
>
    decreases targets.len(),
{
    if targets.len() == 0 {
        None
    } else if targets[0].0@ == name {
        Some(targets[0].1)
    } else {
        target_lookup(targets.subrange(1, targets.len() as int), name)
    }
}

impl CircuitInfo {
    /// Looks up a contract target definition by name; fails when no target has the name.
    pub fn find_contract_target<M>(&self, name: &Identifier<M>) -> (r: Result<
        &ContractTargetInfo,
        Error,
    >)
        ensures
            match r {
                Ok(t) => target_lookup(self.targets@, name.name.name@) == Some(*t),
                Err(e) => target_lookup(self.targets@, name.name.name@) is None && (e
                    matches Error::ContractTargetNotFound(n) && n@ == name.name.name@),
            },
    {
        let ghost ts = self.targets@;
        assert(ts.subrange(0, ts.len() as int) =~= ts);
        let mut i: usize = 0;
        while i < self.targets.len()
            invariant
                i <= ts.len(),
                ts == self.targets@,
                target_lookup(ts, name.name.name@) == target_lookup(
                    ts.subrange(i as int, ts.len() as int),
                    name.name.name@,
                ),
            decreases ts.len() - i,
        {
            proof {
                let sub = ts.subrange(i as int, ts.len() as int);
                assert(sub.subrange(1, sub.len() as int) =~= ts.subrange(i + 1, ts.len() as int));
                assert(sub[0] == ts[i as int]);
            }
            if self.targets[i].0 == name.name.name {
                return Ok(&self.targets[i].1);
            }
            i = i + 1;
        }
        Err(Error::ContractTargetNotFound(name.name.name.clone()))
    }
}

} // verus!
