//! Lexical scopes.
//!
//! A [`ScopeStack`] keeps the names visible at a point of a specification. Lookups go from the
//! innermost scope outwards; the innermost binding of a name wins. Scopes tagged as local limits
//! stop the search for locals, parameters, outputs and loops (but not for predicates), so that a
//! predicate body or a contract body cannot see the locals of the scopes that enclose it.
use vstd::prelude::*;
use crate::ast::Identifier;
use crate::text::{decimal, push_decimal};
use crate::type_analysis::error::TypeAnalysisError;
use crate::type_analysis::loops::LoopInfo;

verus! {

/// The value bound to `k` in an association list, searching from the most recent entry.
pub open spec fn assoc<V>(s: Seq<(String, V)>, k: Seq<char>) -> Option<V>
    decreases s.len(),
{
    if s.len() == 0 {
        None
    } else if s.last().0@ == k {
        Some(s.last().1)
    } else {
        assoc(s.drop_last(), k)
    }
}

/// The name recorded for position `n` in a numbered association list.
pub open spec fn assoc_num(s: Seq<(usize, String)>, n: usize) -> Option<Seq<char>>
    decreases s.len(),
{
    if s.len() == 0 {
        None
    } else if s.last().0 == n {
        Some(s.last().1@)
    } else {
        assoc_num(s.drop_last(), n)
    }
}

/// Dereferences an optional reference.
pub open spec fn opt_deref<V>(r: Option<&V>) -> Option<V> {
    match r {
        Some(v) => Some(*v),
        None => None,
    }
}

/// Looks up `k` in an association list.
pub fn find_in<'a, V>(s: &'a Vec<(String, V)>, k: &String) -> (r: Option<&'a V>)
    ensures
        opt_deref(r) == assoc(s@, k@),
{
    let mut i = s.len();
    assert(s@.subrange(0, i as int) =~= s@);
    while i > 0
        invariant
            i <= s@.len(),
            assoc(s@, k@) == assoc(s@.subrange(0, i as int), k@),
        decreases i,
    {
        proof {
            assert(s@.subrange(0, i as int).drop_last() =~= s@.subrange(0, i - 1));
        }
        if s[i - 1].0 == *k {
            return Some(&s[i - 1].1);
        }
        i = i - 1;
    }
    None
}

/// Looks up position `n` in a numbered association list.
pub fn find_num<'a>(s: &'a Vec<(usize, String)>, n: usize) -> (r: Option<&'a String>)
    ensures
        match r {
            Some(v) => assoc_num(s@, n) == Some(v@),
            None => assoc_num(s@, n) is None,
        },
{
    let mut i = s.len();
    assert(s@.subrange(0, i as int) =~= s@);
    while i > 0
        invariant
            i <= s@.len(),
            assoc_num(s@, n) == assoc_num(s@.subrange(0, i as int), n),
        decreases i,
    {
        proof {
            assert(s@.subrange(0, i as int).drop_last() =~= s@.subrange(0, i - 1));
        }
        if s[i - 1].0 == n {
            return Some(&s[i - 1].1);
        }
        i = i - 1;
    }
    None
}

/// `prefix` followed by the decimal representation of `n`.
fn numbered(prefix: &str, n: usize) -> (r: String)
    ensures
        r@ == prefix@ + decimal(n as nat),
{
    let mut msg = prefix.to_owned();
    push_decimal(&mut msg, n as u64);
    msg
}

/// Entry in the scope stack.
pub struct Scope<L, F, P> {
    /// Binds names to predicates.
    pub predicates: Vec<(String, F)>,
    /// Binds local names to values.
    pub locals: Vec<(String, L)>,
    /// Maps argument numbers to local names at this scope level.
    pub params: Vec<(usize, String)>,
    /// Maps output numbers to local names at this scope level.
    pub outputs: Vec<(usize, String)>,
    /// Maps names to loops defined on the circuit.
    pub loops: Vec<(String, LoopInfo<L>)>,
    /// Whether this scope hides the locals defined in the scopes that enclose it.
    pub local_limit: bool,
    /// Additional payload used by the scope.
    pub payload: P,
}

/// Whether a scope is empty apart from its flag and payload.
pub open spec fn is_empty_scope<L, F, P>(s: Scope<L, F, P>) -> bool {
    &&& s.predicates@.len() == 0
    &&& s.locals@.len() == 0
    &&& s.params@.len() == 0
    &&& s.outputs@.len() == 0
    &&& s.loops@.len() == 0
}

impl<L, F, P> Scope<L, F, P> {
    /// Creates a new empty scope.
    pub fn new(local_limit: bool, payload: P) -> (r: Scope<L, F, P>)
        ensures
            is_empty_scope(r),
            r.local_limit == local_limit,
            r.payload == payload,
    {
        Scope {
            predicates: Vec::new(),
            locals: Vec::new(),
            params: Vec::new(),
            outputs: Vec::new(),
            loops: Vec::new(),
            local_limit,
            payload,
        }
    }

    /// Binds a value to a name in the predicates namespace; fails if this scope already binds
    /// a predicate of that name.
    pub fn bind_predicate<M>(&mut self, name: &Identifier<M>, f: F) -> (r: Result<
        (),
        TypeAnalysisError,
    >)
        ensures
            final(self).locals == old(self).locals,
            final(self).params == old(self).params,
            final(self).outputs == old(self).outputs,
            final(self).loops == old(self).loops,
            final(self).local_limit == old(self).local_limit,
            final(self).payload == old(self).payload,
            match assoc(old(self).predicates@, name.name.name@) {
                Some(_) => final(self).predicates == old(self).predicates && (r matches Err(
                    TypeAnalysisError::DuplicatePredicate(n),
                ) && n@ == name.name.name@),
                None => r is Ok && final(self).predicates@ == old(self).predicates@.push(
                    (name.name.name, f),
                ),
            },
    {
        if find_in(&self.predicates, &name.name.name).is_some() {
            return Err(TypeAnalysisError::DuplicatePredicate(name.value().to_owned()));
        }
        self.predicates.push((name.name.name.clone(), f));
        Ok(())
    }

    /// Binds a value to a name in the locals namespace; fails if this scope already binds a
    /// local of that name.
    pub fn bind_local<M>(&mut self, name: &Identifier<M>, l: L) -> (r: Result<
        (),
        TypeAnalysisError,
    >)
        ensures
            final(self).predicates == old(self).predicates,
            final(self).params == old(self).params,
            final(self).outputs == old(self).outputs,
            final(self).loops == old(self).loops,
            final(self).local_limit == old(self).local_limit,
            final(self).payload == old(self).payload,
            match assoc(old(self).locals@, name.name.name@) {
                Some(_) => final(self).locals == old(self).locals && (r matches Err(
                    TypeAnalysisError::DuplicateLocal(n),
                ) && n@ == name.name.name@),
                None => r is Ok && final(self).locals@ == old(self).locals@.push(
                    (name.name.name, l),
                ),
            },
    {
        if find_in(&self.locals, &name.name.name).is_some() {
            return Err(TypeAnalysisError::DuplicateLocal(name.value().to_owned()));
        }
        self.locals.push((name.name.name.clone(), l));
        Ok(())
    }

    /// Binds a value to a local name and records it as the `param_no`-th parameter; fails if the
    /// name or the position is already bound in this scope.
    pub fn bind_parameter<M>(&mut self, name: &Identifier<M>, l: L, param_no: usize) -> (r:
        Result<(), TypeAnalysisError>)
        ensures
            final(self).predicates == old(self).predicates,
            final(self).outputs == old(self).outputs,
            final(self).loops == old(self).loops,
            final(self).local_limit == old(self).local_limit,
            final(self).payload == old(self).payload,
            if assoc(old(self).locals@, name.name.name@) is Some || assoc_num(
                old(self).params@,
                param_no,
            ) is Some {
                final(self).locals == old(self).locals && final(self).params == old(self).params
                    && (r matches Err(TypeAnalysisError::DuplicateLocal(n)) && n@
                    == name.name.name@)
            } else {
                r is Ok && final(self).locals@ == old(self).locals@.push((name.name.name, l))
                    && final(self).params@ == old(self).params@.push((param_no, name.name.name))
            },
    {
        if find_in(&self.locals, &name.name.name).is_some() || find_num(&self.params, param_no).is_some() {
            return Err(TypeAnalysisError::DuplicateLocal(name.value().to_owned()));
        }
        self.locals.push((name.name.name.clone(), l));
        self.params.push((param_no, name.name.name.clone()));
        Ok(())
    }

    /// Binds a value to a local name and records it as the `output_no`-th output; fails if the
    /// name or the position is already bound in this scope.
    pub fn bind_output<M>(&mut self, name: &Identifier<M>, l: L, output_no: usize) -> (r: Result<
        (),
        TypeAnalysisError,
    >)
        ensures
            final(self).predicates == old(self).predicates,
            final(self).params == old(self).params,
            final(self).loops == old(self).loops,
            final(self).local_limit == old(self).local_limit,
            final(self).payload == old(self).payload,
            if assoc(old(self).locals@, name.name.name@) is Some || assoc_num(
                old(self).outputs@,
                output_no,
            ) is Some {
                final(self).locals == old(self).locals && final(self).outputs == old(self).outputs
                    && (r matches Err(TypeAnalysisError::DuplicateLocal(n)) && n@
                    == name.name.name@)
            } else {
                r is Ok && final(self).locals@ == old(self).locals@.push((name.name.name, l))
                    && final(self).outputs@ == old(self).outputs@.push(
                    (output_no, name.name.name),
                )
            },
    {
        if find_in(&self.locals, &name.name.name).is_some() || find_num(&self.outputs, output_no).is_some() {
            return Err(TypeAnalysisError::DuplicateLocal(name.value().to_owned()));
        }
        self.locals.push((name.name.name.clone(), l));
        self.outputs.push((output_no, name.name.name.clone()));
        Ok(())
    }

    /// Binds loop information to a loop name; fails if this scope already binds that name.
    pub fn bind_loop<M>(&mut self, name: &Identifier<M>, info: LoopInfo<L>) -> (r: Result<
        (),
        TypeAnalysisError,
    >)
        ensures
            final(self).predicates == old(self).predicates,
            final(self).locals == old(self).locals,
            final(self).params == old(self).params,
            final(self).outputs == old(self).outputs,
            final(self).local_limit == old(self).local_limit,
            final(self).payload == old(self).payload,
            match assoc(old(self).loops@, name.name.name@) {
                Some(_) => final(self).loops == old(self).loops && (r matches Err(
                    TypeAnalysisError::DuplicateLoop(n),
                ) && n@ == name.name.name@),
                None => r is Ok && final(self).loops@ == old(self).loops@.push(
                    (name.name.name, info),
                ),
            },
    {
        if find_in(&self.loops, &name.name.name).is_some() {
            return Err(TypeAnalysisError::DuplicateLoop(name.value().to_owned()));
        }
        self.loops.push((name.name.name.clone(), info));
        Ok(())
    }

    /// The payload of the scope.
    pub fn payload(&self) -> (r: &P)
        ensures
            *r == self.payload,
    {
        &self.payload
    }

    /// The predicates bound in this scope, in binding order.
    pub fn predicates(&self) -> (r: &[(String, F)])
        ensures
            r@ == self.predicates@,
    {
        self.predicates.as_slice()
    }

    /// The locals bound in this scope, in binding order.
    pub fn locals(&self) -> (r: &[(String, L)])
        ensures
            r@ == self.locals@,
    {
        self.locals.as_slice()
    }
}

/// The local bound to `k` as seen from the top of the stack: the innermost binding, searching
/// outwards up to and including the first local-limit scope.
pub open spec fn lookup_local<L, F, P>(scopes: Seq<Scope<L, F, P>>, k: Seq<char>) -> Option<L>
    decreases scopes.len(),
{
    if scopes.len() == 0 {
        None
    } else {
        match assoc(scopes.last().locals@, k) {
            Some(v) => Some(v),
            None => if scopes.last().local_limit {
                None
            } else {
                lookup_local(scopes.drop_last(), k)
            },
        }
    }
}

/// The value of the `n`-th parameter as seen from the top of the stack.
pub open spec fn lookup_param<L, F, P>(scopes: Seq<Scope<L, F, P>>, n: usize) -> Option<L>
    decreases scopes.len(),
{
    if scopes.len() == 0 {
        None
    } else {
        let top = scopes.last();
        let here = match assoc_num(top.params@, n) {
            Some(sym) => assoc(top.locals@, sym),
            None => None,
        };
        match here {
            Some(v) => Some(v),
            None => if top.local_limit {
                None
            } else {
                lookup_param(scopes.drop_last(), n)
            },
        }
    }
}

/// The value of the `n`-th output as seen from the top of the stack.
pub open spec fn lookup_output<L, F, P>(scopes: Seq<Scope<L, F, P>>, n: usize) -> Option<L>
    decreases scopes.len(),
{
    if scopes.len() == 0 {
        None
    } else {
        let top = scopes.last();
        let here = match assoc_num(top.outputs@, n) {
            Some(sym) => assoc(top.locals@, sym),
            None => None,
        };
        match here {
            Some(v) => Some(v),
            None => if top.local_limit {
                None
            } else {
                lookup_output(scopes.drop_last(), n)
            },
        }
    }
}

/// The predicate bound to `k`: the innermost binding in the whole stack.
pub open spec fn lookup_predicate<L, F, P>(scopes: Seq<Scope<L, F, P>>, k: Seq<char>) -> Option<F>
    decreases scopes.len(),
{
    if scopes.len() == 0 {
        None
    } else {
        match assoc(scopes.last().predicates@, k) {
            Some(v) => Some(v),
            None => lookup_predicate(scopes.drop_last(), k),
        }
    }
}

/// The loop bound to `k` as seen from the top of the stack.
pub open spec fn lookup_loop<L, F, P>(scopes: Seq<Scope<L, F, P>>, k: Seq<char>) -> Option<
    LoopInfo<L>,
>
    decreases scopes.len(),
{
    if scopes.len() == 0 {
        None
    } else {
        match assoc(scopes.last().loops@, k) {
            Some(v) => Some(v),
            None => if scopes.last().local_limit {
                None
            } else {
                lookup_loop(scopes.drop_last(), k)
            },
        }
    }
}

/// Stack of lexical scopes. The bottom scope is the root; it is never popped.
pub struct ScopeStack<L, F, P> {
    pub scopes: Vec<Scope<L, F, P>>,
}

impl<L, F, P> ScopeStack<L, F, P> {
    /// The stack holds at least its root scope.
    pub open spec fn wf(&self) -> bool {
        self.scopes@.len() >= 1
    }

    /// Creates a stack holding an empty root scope, which is a local limit.
    pub fn new(root_payload: P) -> (r: ScopeStack<L, F, P>)
        ensures
            r.wf(),
            r.scopes@.len() == 1,
            is_empty_scope(r.scopes@[0]),
            r.scopes@[0].local_limit,
            r.scopes@[0].payload == root_payload,
    {
        let mut scopes = Vec::new();
        scopes.push(Scope::new(true, root_payload));
        ScopeStack { scopes }
    }

    /// Returns the top (innermost) scope for modification.
    pub fn top(&mut self) -> (r: &mut Scope<L, F, P>)
        requires
            old(self).wf(),
        ensures
            *r == old(self).scopes@.last(),
            final(self).scopes@ == old(self).scopes@.update(
                old(self).scopes@.len() - 1,
                *final(r),
            ),
    {
        let n = self.scopes.len();
        &mut self.scopes[n - 1]
    }

    /// Pushes a new empty scope.
    pub fn push(&mut self, payload: P)
        ensures
            final(self).scopes@.len() == old(self).scopes@.len() + 1,
            final(self).scopes@.drop_last() == old(self).scopes@,
            is_empty_scope(final(self).scopes@.last()),
            !final(self).scopes@.last().local_limit,
            final(self).scopes@.last().payload == payload,
    {
        self.scopes.push(Scope::new(false, payload));
        proof {
            assert(self.scopes@.drop_last() =~= old(self).scopes@);
        }
    }

    /// Pushes a new empty scope that hides the locals of the scopes below it.
    pub fn push_local_limit(&mut self, payload: P)
        ensures
            final(self).scopes@.len() == old(self).scopes@.len() + 1,
            final(self).scopes@.drop_last() == old(self).scopes@,
            is_empty_scope(final(self).scopes@.last()),
            final(self).scopes@.last().local_limit,
            final(self).scopes@.last().payload == payload,
    {
        self.scopes.push(Scope::new(true, payload));
        proof {
            assert(self.scopes@.drop_last() =~= old(self).scopes@);
        }
    }

    /// Pops the top scope. The root scope cannot be popped.
    pub fn pop(&mut self)
        requires
            old(self).scopes@.len() > 1,
        ensures
            final(self).scopes@ == old(self).scopes@.drop_last(),
    {
        self.scopes.pop();
    }

    /// Looks for the local bound to `name`.
    pub fn find_local<M>(&self, name: &Identifier<M>) -> (r: Result<&L, TypeAnalysisError>)
        ensures
            match r {
                Ok(v) => lookup_local(self.scopes@, name.name.name@) == Some(*v),
                Err(e) => lookup_local(self.scopes@, name.name.name@) is None && (e matches TypeAnalysisError::UnknownLocal(n) && n@
                    == name.name.name@),
            },
    {
        let k = &name.name.name;
        let mut i = self.scopes.len();
        assert(self.scopes@.subrange(0, i as int) =~= self.scopes@);
        while i > 0
            invariant
                i <= self.scopes@.len(),
                k@ == name.name.name@,
                lookup_local(self.scopes@, k@) == lookup_local(self.scopes@.subrange(0, i as int), k@),
            decreases i,
        {
            proof {
                let sub = self.scopes@.subrange(0, i as int);
                assert(sub.drop_last() =~= self.scopes@.subrange(0, i - 1));
                assert(sub.last() == self.scopes@[i - 1]);
            }
            let scope = &self.scopes[i - 1];
            match find_in(&scope.locals, k) {
                Some(v) => return Ok(v),
                None => {
                    if scope.local_limit {
                        return Err(TypeAnalysisError::UnknownLocal(k.clone()));
                    }
                },
            }
            i = i - 1;
        }
        Err(TypeAnalysisError::UnknownLocal(k.clone()))
    }

    /// Looks for the value of the `param_no`-th parameter.
    pub fn find_parameter(&self, param_no: usize) -> (r: Result<&L, TypeAnalysisError>)
        ensures
            match r {
                Ok(v) => lookup_param(self.scopes@, param_no) == Some(*v),
                Err(e) => lookup_param(self.scopes@, param_no) is None && (e matches TypeAnalysisError::UnknownLocal(n) && n@
                    == "argument #"@ + decimal(param_no as nat)),
            },
    {
        let mut i = self.scopes.len();
        assert(self.scopes@.subrange(0, i as int) =~= self.scopes@);
        while i > 0
            invariant
                i <= self.scopes@.len(),
                lookup_param(self.scopes@, param_no) == lookup_param(self.scopes@.subrange(0, i as int), param_no),
            decreases i,
        {
            proof {
                let sub = self.scopes@.subrange(0, i as int);
                assert(sub.drop_last() =~= self.scopes@.subrange(0, i - 1));
                assert(sub.last() == self.scopes@[i - 1]);
            }
            let scope = &self.scopes[i - 1];
            match find_num(&scope.params, param_no) {
                Some(sym) => {
                    match find_in(&scope.locals, sym) {
                        Some(v) => return Ok(v),
                        None => {},
                    }
                },
                None => {},
            }
            if scope.local_limit {
                return Err(TypeAnalysisError::UnknownLocal(numbered("argument #", param_no)));
            }
            i = i - 1;
        }
        Err(TypeAnalysisError::UnknownLocal(numbered("argument #", param_no)))
    }

    /// Looks for the value of the `output_no`-th output.
    pub fn find_output(&self, output_no: usize) -> (r: Result<&L, TypeAnalysisError>)
        ensures
            match r {
                Ok(v) => lookup_output(self.scopes@, output_no) == Some(*v),
                Err(e) => lookup_output(self.scopes@, output_no) is None && (e matches TypeAnalysisError::UnknownLocal(n) && n@
                    == "output #"@ + decimal(output_no as nat)),
            },
    {
        let mut i = self.scopes.len();
        assert(self.scopes@.subrange(0, i as int) =~= self.scopes@);
        while i > 0
            invariant
                i <= self.scopes@.len(),
                lookup_output(self.scopes@, output_no) == lookup_output(self.scopes@.subrange(0, i as int), output_no),
            decreases i,
        {
            proof {
                let sub = self.scopes@.subrange(0, i as int);
                assert(sub.drop_last() =~= self.scopes@.subrange(0, i - 1));
                assert(sub.last() == self.scopes@[i - 1]);
            }
            let scope = &self.scopes[i - 1];
            match find_num(&scope.outputs, output_no) {
                Some(sym) => {
                    match find_in(&scope.locals, sym) {
                        Some(v) => return Ok(v),
                        None => {},
                    }
                },
                None => {},
            }
            if scope.local_limit {
                return Err(TypeAnalysisError::UnknownLocal(numbered("output #", output_no)));
            }
            i = i - 1;
        }
        Err(TypeAnalysisError::UnknownLocal(numbered("output #", output_no)))
    }

    /// Looks for the predicate bound to `name`; local limits do not hide predicates.
    pub fn find_predicate<M>(&self, name: &Identifier<M>) -> (r: Result<&F, TypeAnalysisError>)
        ensures
            match r {
                Ok(v) => lookup_predicate(self.scopes@, name.name.name@) == Some(*v),
                Err(e) => lookup_predicate(self.scopes@, name.name.name@) is None && (e matches TypeAnalysisError::UnknownPredicate(n) && n@
                    == name.name.name@),
            },
    {
        let k = &name.name.name;
        let mut i = self.scopes.len();
        assert(self.scopes@.subrange(0, i as int) =~= self.scopes@);
        while i > 0
            invariant
                i <= self.scopes@.len(),
                k@ == name.name.name@,
                lookup_predicate(self.scopes@, k@) == lookup_predicate(self.scopes@.subrange(0, i as int), k@),
            decreases i,
        {
            proof {
                let sub = self.scopes@.subrange(0, i as int);
                assert(sub.drop_last() =~= self.scopes@.subrange(0, i - 1));
                assert(sub.last() == self.scopes@[i - 1]);
            }
            let scope = &self.scopes[i - 1];
            match find_in(&scope.predicates, k) {
                Some(v) => return Ok(v),
                None => {},
            }
            i = i - 1;
        }
        Err(TypeAnalysisError::UnknownPredicate(k.clone()))
    }

    /// Looks for the loop bound to `name`.
    pub fn find_loop<M>(&self, name: &Identifier<M>) -> (r: Result<&LoopInfo<L>, TypeAnalysisError>)
        ensures
            match r {
                Ok(v) => lookup_loop(self.scopes@, name.name.name@) == Some(*v),
                Err(e) => lookup_loop(self.scopes@, name.name.name@) is None && (e matches TypeAnalysisError::UnknownLoop(n) && n@
                    == name.name.name@),
            },
    {
        let k = &name.name.name;
        let mut i = self.scopes.len();
        assert(self.scopes@.subrange(0, i as int) =~= self.scopes@);
        while i > 0
            invariant
                i <= self.scopes@.len(),
                k@ == name.name.name@,
                lookup_loop(self.scopes@, k@) == lookup_loop(self.scopes@.subrange(0, i as int), k@),
            decreases i,
        {
            proof {
                let sub = self.scopes@.subrange(0, i as int);
                assert(sub.drop_last() =~= self.scopes@.subrange(0, i - 1));
                assert(sub.last() == self.scopes@[i - 1]);
            }
            let scope = &self.scopes[i - 1];
            match find_in(&scope.loops, k) {
                Some(v) => return Ok(v),
                None => {
                    if scope.local_limit {
                        return Err(TypeAnalysisError::UnknownLoop(k.clone()));
                    }
                },
            }
            i = i - 1;
        }
        Err(TypeAnalysisError::UnknownLoop(k.clone()))
    }
}

} // verus!
