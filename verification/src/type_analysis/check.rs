//! The top-level type checker.
use vstd::prelude::*;
use crate::ast::{AstContext, Document, Item};
use crate::diagnostic::{CompileError, Diagnostic, Diagnostics as DiagnosticList};
use crate::ir::Context;
use crate::type_analysis::block::{
    block_typed, check_predicate_decl, lemma_block_typed_refined, predicate_shape,
};
use crate::type_analysis::contract::{check_contract, contract_shape, known_contract, literal_contract};
use crate::type_analysis::helpers::is_diag;
use crate::type_analysis::ctx::{TypeInferenceCtx, smap};
use crate::type_analysis::subst::{lemma_unifies_refined, subst_ty, unifies};
use crate::type_analysis::{CircuitInfo, target_lookup};
use crate::types::{Ty, TyV};

verus! {

/// `t` is `i` with metadata attached.
pub open spec fn item_shape(t: Item<Ty>, i: Item<()>) -> bool {
    match (t, i) {
        (Item::Contract(a), Item::Contract(b)) => contract_shape(a, b),
        (Item::Predicate(a), Item::Predicate(b)) => predicate_shape(a, b),
        _ => false,
    }
}

/// Every statement and expression of a checked item follows its typing rule under `s`, and a
/// predicate returns a boolean.
pub open spec fn item_typed(t: Item<Ty>, s: Map<u64, TyV>) -> bool {
    match t {
        Item::Contract(c) => block_typed(c.body, s),
        Item::Predicate(p) => block_typed(p.body, s) && unifies(
            TyV::Bool,
            subst_ty(p.body.statements@.last()->Return_expression.spec_meta()@, s),
        ),
    }
}

/// [`item_typed`] for each item of a sequence.
pub open spec fn items_typed(ts: Seq<Item<Ty>>, s: Map<u64, TyV>) -> bool {
    forall|i: int| 0 <= i < ts.len() ==> #[trigger] item_typed(ts[i], s)
}

/// A well-typed item stays well typed when the substitution is refined.
proof fn lemma_item_typed_refined(t: Item<Ty>, s1: Map<u64, TyV>, s2: Map<u64, TyV>)
    requires
        item_typed(t, s1),
        crate::type_analysis::subst::refines(s2, s1),
    ensures
        item_typed(t, s2),
{
    match t {
        Item::Contract(c) => lemma_block_typed_refined(c.body, s1, s2),
        Item::Predicate(p) => {
            lemma_block_typed_refined(p.body, s1, s2);
            lemma_unifies_refined(
                TyV::Bool,
                p.body.statements@.last()->Return_expression.spec_meta()@,
                s1,
                s2,
            );
        },
    }
}

/// Whether the item is a contract whose target the circuit does not define.
pub open spec fn unknown_target(i: Item<()>, info: CircuitInfo) -> bool {
    i matches Item::Contract(c) && target_lookup(info.targets@, c.target.name.name@) is None
}

/// An item that checks with no inference: a contract for a target of the circuit that is a
/// [`literal_contract`] or a [`known_contract`].
pub open spec fn literal_item(i: Item<()>, info: CircuitInfo) -> bool {
    match i {
        Item::Contract(c) => match target_lookup(info.targets@, c.target.name.name@) {
            Some(t) => literal_contract(c, t) || known_contract(c, t),
            None => false,
        },
        Item::Predicate(_) => false,
    }
}

/// The diagnostic of a contract whose target the circuit does not define.
pub open spec fn unknown_target_message(name: String) -> Seq<char> {
    "in contract declaration: "@ + crate::ir::llzk::error::error_message(
        crate::ir::llzk::error::Error::ContractTargetNotFound(name),
    )
}

/// Top-level type checker.
pub struct TypeChecker {
    pub ctx: TypeInferenceCtx,
}

impl TypeChecker {
    /// Type checks a document against the circuit described by `info`.
    ///
    /// Every item is checked, in order, so that the diagnostics of all of them are reported.
    /// On success the result is the document with the type of each entity attached. A document
    /// whose items all check without inference ([`literal_item`]) is accepted.
    pub fn check(
        ts: Context,
        info: &CircuitInfo,
        ast: &AstContext,
        source_name: &str,
        document: &Document<()>,
    ) -> (r: Result<Document<Ty>, CompileError>)
        ensures
            match r {
                Ok(d) => d.span == document.span && d.items@.len() == document.items@.len()
                    && (forall|i: int|
                    0 <= i < document.items@.len() ==> #[trigger] item_shape(
                        d.items@[i],
                        document.items@[i],
                    )) && exists|s: Map<u64, TyV>| #[trigger] items_typed(d.items@, s),
                Err(e) => e matches CompileError::Diagnostics(ds) && ds.0@.len() > 0,
            },
            (exists|i: int|
                0 <= i < document.items@.len() && #[trigger] unknown_target(
                    document.items@[i],
                    *info,
                )) ==> r is Err,
            (forall|i: int|
                0 <= i < document.items@.len() ==> #[trigger] literal_item(document.items@[i], *info))
                ==> r is Ok,
            match document.items@.first() {
                Item::Contract(c) => document.items@.len() > 0 && target_lookup(
                    info.targets@,
                    c.target.name.name@,
                ) is None ==> (r matches Err(CompileError::Diagnostics(ds)) && ds.0@.len() > 0
                    && is_diag(
                    ds.0@[0],
                    source_name@,
                    unknown_target_message(c.target.name.name),
                    Some(c.span),
                )),
                Item::Predicate(_) => true,
            },
    {
        let mut checker = TypeChecker { ctx: TypeInferenceCtx::new(ts) };
        let mut errs: Vec<Diagnostic> = Vec::new();
        let mut items: Vec<Item<Ty>> = Vec::new();
        let mut i: usize = 0;
        while i < document.items.len()
            invariant
                i <= document.items@.len(),
                checker.ctx.wf(),
                checker.ctx.constraints@.len() == 0,
                errs@.len() == 0 ==> items@.len() == i,
                errs@.len() == 0 ==> forall|j: int|
                    0 <= j < i ==> #[trigger] item_shape(items@[j], document.items@[j]),
                errs@.len() == 0 ==> forall|j: int|
                    0 <= j < i ==> !#[trigger] unknown_target(document.items@[j], *info),
                errs@.len() == 0 ==> items_typed(items@, smap(checker.ctx.subst@)),
                (forall|j: int| 0 <= j < i ==> #[trigger] literal_item(document.items@[j], *info))
                    ==> errs@.len() == 0,
                match document.items@.first() {
                    Item::Contract(c) => i > 0 && target_lookup(info.targets@, c.target.name.name@) is None
                        ==> errs@.len() > 0 && is_diag(
                        errs@[0],
                        source_name@,
                        unknown_target_message(c.target.name.name),
                        Some(c.span),
                    ),
                    Item::Predicate(_) => true,
                },
            decreases document.items@.len() - i,
        {
            let ghost e_before = errs@;
            let ghost ci = checker.ctx;
            let r = match &document.items[i] {
                Item::Contract(decl) => {
                    let rc = check_contract(&mut checker.ctx, info, source_name, decl);
                    proof {
                        if literal_item(document.items@[i as int], *info) {
                            assert(document.items@[i as int] == Item::Contract(*decl));
                            assert(rc is Ok);
                        }
                    }
                    match rc {
                        Ok(d) => Ok(Item::Contract(d)),
                        Err(ds) => Err(ds),
                    }
                },
                Item::Predicate(decl) => match check_predicate_decl(&mut checker.ctx, source_name, decl) {
                    Ok(d) => Ok(Item::Predicate(d)),
                    Err(ds) => Err(ds),
                },
            };
            proof {
                if errs@.len() == 0 {
                    assert forall|j: int| 0 <= j < items@.len() implies #[trigger] item_typed(
                        items@[j],
                        smap(checker.ctx.subst@),
                    ) by {
                        lemma_item_typed_refined(
                            items@[j],
                            smap(ci.subst@),
                            smap(checker.ctx.subst@),
                        );
                    }
                }
            }
            match r {
                Ok(t) => {
                    if errs.len() == 0 {
                        items.push(t);
                    }
                },
                Err(ds) => {
                    let mut ds = ds;
                    errs.append(&mut ds);
                },
            }
            proof {
                if e_before.len() > 0 {
                    assert(errs@[0] == e_before[0]);
                }
                if forall|j: int| 0 <= j < i + 1 ==> #[trigger] literal_item(document.items@[j], *info) {
                    assert(literal_item(document.items@[i as int], *info));
                    assert(forall|j: int| 0 <= j < i ==> #[trigger] literal_item(document.items@[j], *info));
                }
            }
            i = i + 1;
        }
        if errs.len() == 0 {
            let d = Document::new(items, document.span);
            proof {
                assert(items_typed(d.items@, smap(checker.ctx.subst@)));
                assert(exists|s: Map<u64, TyV>| #[trigger] items_typed(d.items@, s));
            }
            Ok(d)
        } else {
            Err(CompileError::Diagnostics(DiagnosticList::from_vec(errs)))
        }
    }
}

} // verus!
