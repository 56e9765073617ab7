//! Information about the loops defined inside circuits.
use vstd::prelude::*;
use crate::ast::{AstContext, Symbol};
use crate::text::{decimal, push_decimal};

verus! {

/// Names for the different values a loop binds.
///
/// For `scf.for` loops the binding order is lower bound, induction variable, upper bound, step,
/// then the iteration arguments. For `scf.while` loops only the loop-carried arguments are bound.
#[derive(Debug, Clone, Copy, PartialEq, Eq, Structural)]
pub enum LoopBinding {
    /// Lower bound. Only present in for loops.
    Lb,
    /// Induction variable.
    Iv,
    /// Upper bound. Only present in for loops.
    Ub,
    /// Step. Only present in for loops.
    Step,
    /// Additional arguments, numbered from zero.
    Arg(usize),
}

/// Representation of a loop label.
#[derive(Debug, Clone, PartialEq, Eq)]
pub enum LoopLabelImpl {
    Named(String),
    Indexed(usize),
}

/// Label given to a loop: an explicit name or one derived from the loop's position.
#[derive(Debug, Clone, PartialEq, Eq)]
pub struct LoopLabel {
    pub inner: LoopLabelImpl,
}

/// The spec-visible name of a loop label: the explicit name, or `loopN` for the N-th
/// unlabeled loop.
pub open spec fn label_text(l: LoopLabel) -> Seq<char> {
    match l.inner {
        LoopLabelImpl::Named(n) => n@,
        LoopLabelImpl::Indexed(i) => "loop"@ + decimal(i as nat),
    }
}

impl LoopLabel {
    /// Creates a named label.
    pub fn named(name: &str) -> (r: LoopLabel)
        ensures
            r.inner matches LoopLabelImpl::Named(n) && n@ == name@,
    {
        LoopLabel { inner: LoopLabelImpl::Named(name.to_owned()) }
    }

    /// Creates an implicit label from the loop's index.
    pub fn implicit(index: usize) -> (r: LoopLabel)
        ensures
            r.inner == LoopLabelImpl::Indexed(index),
    {
        LoopLabel { inner: LoopLabelImpl::Indexed(index) }
    }

    /// The spec-visible name of the loop.
    pub fn text(&self) -> (r: String)
        ensures
            r@ == label_text(*self),
    {
        match &self.inner {
            LoopLabelImpl::Named(n) => n.clone(),
            LoopLabelImpl::Indexed(i) => {
                let mut s = "loop".to_owned();
                push_decimal(&mut s, *i as u64);
                s
            },
        }
    }

    /// Returns a copy of the label.
    pub fn copy(&self) -> (r: LoopLabel)
        ensures
            label_text(r) == label_text(*self),
            r.inner == self.inner || (r.inner matches LoopLabelImpl::Named(a) && self.inner matches LoopLabelImpl::Named(b) && a@ == b@),
    {
        match &self.inner {
            LoopLabelImpl::Named(n) => LoopLabel { inner: LoopLabelImpl::Named(n.clone()) },
            LoopLabelImpl::Indexed(i) => LoopLabel { inner: LoopLabelImpl::Indexed(*i) },
        }
    }
}

/// Information about a loop: its label and the values it binds, in binding order.
#[derive(Debug)]
pub struct LoopInfo<T> {
    pub label: LoopLabel,
    pub bindings: Vec<(LoopBinding, T)>,
}

/// The argument bindings `Arg(0), Arg(1), ...` for the given values.
pub open spec fn arg_bindings<T>(args: Seq<T>) -> Seq<(LoopBinding, T)> {
    Seq::new(args.len(), |n: int| (LoopBinding::Arg(n as usize), args[n]))
}

impl<T> LoopInfo<T> {
    /// Creates information about a for loop: the four intrinsic bindings, in the order lower
    /// bound, induction variable, upper bound, step, each with what the factory `f` gives for
    /// it (called once for each, in that order), then the iteration arguments.
    pub fn new_for_loop<F: Fn(LoopBinding) -> T>(label: LoopLabel, f: F, args: Vec<T>) -> (r: LoopInfo<T>)
        requires
            args@.len() < usize::MAX,
            forall|b: LoopBinding| #[trigger] call_requires(f, (b,)),
        ensures
            r.label == label,
            r.bindings@.len() == 4 + args@.len(),
            r.bindings@[0].0 == LoopBinding::Lb && call_ensures(f, (LoopBinding::Lb,), r.bindings@[0].1),
            r.bindings@[1].0 == LoopBinding::Iv && call_ensures(f, (LoopBinding::Iv,), r.bindings@[1].1),
            r.bindings@[2].0 == LoopBinding::Ub && call_ensures(f, (LoopBinding::Ub,), r.bindings@[2].1),
            r.bindings@[3].0 == LoopBinding::Step && call_ensures(f, (LoopBinding::Step,), r.bindings@[3].1),
            r.bindings@.subrange(4, r.bindings@.len() as int) == arg_bindings(args@),
    {
        let lb = f(LoopBinding::Lb);
        let iv = f(LoopBinding::Iv);
        let ub = f(LoopBinding::Ub);
        let step = f(LoopBinding::Step);
        let mut bindings: Vec<(LoopBinding, T)> = Vec::new();
        bindings.push((LoopBinding::Lb, lb));
        bindings.push((LoopBinding::Iv, iv));
        bindings.push((LoopBinding::Ub, ub));
        bindings.push((LoopBinding::Step, step));
        let ghost head = bindings@;
        let ghost all_args = args@;
        let mut args = args;
        let mut n: usize = 0;
        while args.len() > 0
            invariant
                n + args@.len() == all_args.len(),
                args@ == all_args.subrange(n as int, all_args.len() as int),
                bindings@ == head + arg_bindings(all_args.subrange(0, n as int)),
                all_args.len() < usize::MAX,
            decreases args@.len(),
        {
            let a = args.remove(0);
            proof {
                assert(a == all_args[n as int]);
                assert(args@ =~= all_args.subrange(n + 1, all_args.len() as int));
                assert(arg_bindings(all_args.subrange(0, n + 1)) =~= arg_bindings(
                    all_args.subrange(0, n as int),
                ).push((LoopBinding::Arg(n), a)));
            }
            bindings.push((LoopBinding::Arg(n), a));
            n = n + 1;
        }
        assert(all_args.subrange(0, n as int) =~= all_args);
        proof {
            assert(bindings@.subrange(4, bindings@.len() as int) =~= arg_bindings(all_args));
        }
        LoopInfo { label, bindings }
    }

    /// Creates information about a while loop: the loop-carried arguments, in order.
    pub fn new_while_loop(label: LoopLabel, args: Vec<T>) -> (r: LoopInfo<T>)
        requires
            args@.len() < usize::MAX,
        ensures
            r.label == label,
            r.bindings@ == arg_bindings(args@),
    {
        let mut bindings: Vec<(LoopBinding, T)> = Vec::new();
        let ghost all_args = args@;
        let mut args = args;
        let mut n: usize = 0;
        while args.len() > 0
            invariant
                n + args@.len() == all_args.len(),
                args@ == all_args.subrange(n as int, all_args.len() as int),
                bindings@ == arg_bindings(all_args.subrange(0, n as int)),
                all_args.len() < usize::MAX,
            decreases args@.len(),
        {
            let a = args.remove(0);
            proof {
                assert(a == all_args[n as int]);
                assert(args@ =~= all_args.subrange(n + 1, all_args.len() as int));
                assert(arg_bindings(all_args.subrange(0, n + 1)) =~= arg_bindings(
                    all_args.subrange(0, n as int),
                ).push((LoopBinding::Arg(n), a)));
            }
            bindings.push((LoopBinding::Arg(n), a));
            n = n + 1;
        }
        assert(all_args.subrange(0, n as int) =~= all_args);
        LoopInfo { label, bindings }
    }

    /// Returns the bindings defined by the loop, in binding order.
    pub fn bindings(&self) -> (r: &[(LoopBinding, T)])
        ensures
            r@ == self.bindings@,
    {
        self.bindings.as_slice()
    }

    /// The symbol naming the loop in specifications.
    pub fn symbolize_label(&self, ast: &AstContext) -> (r: Symbol)
        ensures
            r.name@ == label_text(self.label),
    {
        ast.new_symbol(self.label.text())
    }
}

} // verus!
