//! Derivations read from left to right, as the parser meets them: the operators of a level and
//! their operands, the suffixes of an expression, the expressions of a list, the statements of a
//! block and the items of a document. Each relation below is proved to hold of the tokens of
//! every derivation of [`grammar`](crate::parser::grammar).
use vstd::prelude::*;
use crate::ast::{BinaryOp, Expression, Identifier, Item, Statement, UnaryOp};
use crate::parser::grammar::{
    args_at, callee_at, continues, continues_level, expr_at, expr_form, is_boundary,
    is_level_op, is_punct, item_at, items_at, list_at, name_at, stmt_at, stmts_at,
};
use crate::parser::lexer::{Punct, TokenKind, TokenView};

verus! {

/// Token `p` can start an expression of level `lvl`: an opening parenthesis, a word, a name
/// between backquotes, a number, `$arg[N]`, `$res[N]`, or, below level 9, `!` or `-`.
pub open spec fn starts_expr(ts: Seq<TokenView>, p: int, lvl: int) -> bool {
    0 <= p < ts.len() && match ts[p].kind {
        TokenKind::Punct(Punct::LParen) => true,
        TokenKind::Punct(Punct::Bang) => lvl <= 8,
        TokenKind::Punct(Punct::Minus) => lvl <= 8,
        TokenKind::Punct(_) => false,
        _ => true,
    }
}

/// An expression starts with a token that can start it.
pub proof fn lemma_expr_start(ts: Seq<TokenView>, p: int, q: int, e: Expression<()>, lvl: int)
    requires
        expr_at(ts, p, q, e, lvl),
    ensures
        starts_expr(ts, p, lvl),
    decreases q - p, 10 - lvl,
{
    if lvl < 10 && expr_at(ts, p, q, e, lvl + 1) {
        lemma_expr_start(ts, p, q, e, lvl + 1);
    } else {
        assert(expr_form(ts, p, q, e, lvl));
        if !(lvl == 10 && is_punct(ts, p, Punct::LParen)) {
            match e {
                Expression::Conditional { condition, .. } => {
                    let (m, k) = choose|m: int, k: int|
                        #![trigger is_punct(ts, m, Punct::Question), is_punct(ts, k, Punct::Colon)]
                        p < m && m + 1 < k && k + 1 < q && expr_at(ts, p, m, *condition, 1)
                            && is_punct(ts, m, Punct::Question) && is_punct(ts, k, Punct::Colon);
                    lemma_expr_start(ts, p, m, *condition, 1);
                },
                Expression::Binary { op, left, .. } => {
                    if op == BinaryOp::Pow {
                        let m = choose|m: int|
                            p < m && m + 1 < q && expr_at(ts, p, m, *left, 8) && #[trigger] is_punct(
                                ts,
                                m,
                                Punct::StarStar,
                            );
                        lemma_expr_start(ts, p, m, *left, 8);
                    } else {
                        let m = choose|m: int|
                            p < m && m + 1 < q && expr_at(ts, p, m, *left, lvl) && #[trigger] is_punct(
                                ts,
                                m,
                                crate::parser::grammar::binary_punct(op),
                            );
                        lemma_expr_start(ts, p, m, *left, lvl);
                    }
                },
                Expression::Index { target, .. } => {
                    let m = choose|m: int|
                        p < m && m + 1 < q - 1 && expr_at(ts, p, m, *target, 9) && #[trigger] is_punct(
                            ts,
                            m,
                            Punct::LBracket,
                        );
                    lemma_expr_start(ts, p, m, *target, 9);
                },
                Expression::Call { callee, .. } => {
                    let m = choose|m: int|
                        p < m && m + 1 < q && expr_at(ts, p, m, Expression::Symbol(callee), 9)
                            && #[trigger] is_punct(ts, m, Punct::LParen);
                    lemma_expr_start(ts, p, m, Expression::Symbol(callee), 9);
                },
                Expression::Member { target, .. } => {
                    lemma_expr_start(ts, p, q - 2, *target, 9);
                },
                _ => {},
            }
        }
    }
}

/// The tokens of a name read as an expression are a callee.
pub proof fn lemma_symbol_callee(ts: Seq<TokenView>, p: int, q: int, id: Identifier<()>, lvl: int)
    requires
        expr_at(ts, p, q, Expression::Symbol(id), lvl),
    ensures
        callee_at(ts, p, q),
    decreases q - p, 10 - lvl,
{
    if lvl < 10 && expr_at(ts, p, q, Expression::Symbol(id), lvl + 1) {
        lemma_symbol_callee(ts, p, q, id, lvl + 1);
    } else {
        assert(expr_form(ts, p, q, Expression::Symbol(id), lvl));
        if lvl == 10 && is_punct(ts, p, Punct::LParen) && is_punct(ts, q - 1, Punct::RParen)
            && expr_at(ts, p + 1, q - 1, Expression::Symbol(id), 0) {
            lemma_symbol_callee(ts, p + 1, q - 1, id, 0);
        }
    }
}

/// `e` is a conditional read from tokens `p..q`, with its `?` at `m` and its `:` at `k`.
pub open spec fn cond_parts(ts: Seq<TokenView>, p: int, q: int, e: Expression<()>, m: int, k: int) -> bool {
    match e {
        Expression::Conditional { condition, then_branch, else_branch, .. } => {
            &&& p < m && m + 1 < k && k + 1 < q
            &&& expr_at(ts, p, m, *condition, 1)
            &&& is_punct(ts, m, Punct::Question)
            &&& expr_at(ts, m + 1, k, *then_branch, 0)
            &&& is_punct(ts, k, Punct::Colon)
            &&& expr_at(ts, k + 1, q, *else_branch, 0)
        },
        _ => false,
    }
}

/// An expression of level 0 reads at level 1, or is a conditional; returns where the `?` and
/// the `:` of the conditional stand.
pub proof fn lemma_read_cond(ts: Seq<TokenView>, p: int, q: int, e: Expression<()>) -> (mk: (int, int))
    requires
        expr_at(ts, p, q, e, 0),
    ensures
        expr_at(ts, p, q, e, 1) || cond_parts(ts, p, q, e, mk.0, mk.1),
{
    if expr_at(ts, p, q, e, 1) {
        (0, 0)
    } else {
        assert(expr_form(ts, p, q, e, 0));
        match e {
            Expression::Conditional { condition, then_branch, else_branch, .. } => {
                choose|m: int, k: int|
                    #![trigger is_punct(ts, m, Punct::Question), is_punct(ts, k, Punct::Colon)]
                    p < m && m + 1 < k && k + 1 < q && expr_at(ts, p, m, *condition, 1) && is_punct(
                        ts,
                        m,
                        Punct::Question,
                    ) && expr_at(ts, m + 1, k, *then_branch, 0) && is_punct(ts, k, Punct::Colon)
                        && expr_at(ts, k + 1, q, *else_branch, 0)
            },
            _ => (0, 0),
        }
    }
}

/// `e` is `a ** b` read from tokens `p..q`, with its `**` at `m`.
pub open spec fn pow_parts(ts: Seq<TokenView>, p: int, q: int, e: Expression<()>, m: int) -> bool {
    match e {
        Expression::Binary { op, left, right, .. } => {
            &&& op == BinaryOp::Pow
            &&& p < m && m + 1 < q
            &&& expr_at(ts, p, m, *left, 8)
            &&& is_punct(ts, m, Punct::StarStar)
            &&& expr_at(ts, m + 1, q, *right, 8)
        },
        _ => false,
    }
}

/// An expression of level 7 reads at level 8, or is `a ** b`; returns where its `**` stands.
pub proof fn lemma_read_pow(ts: Seq<TokenView>, p: int, q: int, e: Expression<()>) -> (m: int)
    requires
        expr_at(ts, p, q, e, 7),
    ensures
        expr_at(ts, p, q, e, 8) || pow_parts(ts, p, q, e, m),
{
    if expr_at(ts, p, q, e, 8) {
        0
    } else {
        assert(expr_form(ts, p, q, e, 7));
        match e {
            Expression::Binary { op, left, right, .. } => {
                choose|m: int|
                    p < m && m + 1 < q && expr_at(ts, p, m, *left, 8) && #[trigger] is_punct(
                        ts,
                        m,
                        Punct::StarStar,
                    ) && expr_at(ts, m + 1, q, *right, 8)
            },
            _ => 0,
        }
    }
}

/// `e` is a prefix operator applied to an operand read from tokens `p + 1..q`.
pub open spec fn unary_parts(ts: Seq<TokenView>, p: int, q: int, e: Expression<()>) -> bool {
    match e {
        Expression::Unary { op, expr, .. } => {
            &&& is_punct(ts, p, if op == UnaryOp::Not { Punct::Bang } else { Punct::Minus })
            &&& expr_at(ts, p + 1, q, *expr, 8)
        },
        _ => false,
    }
}

/// An expression of level 8 reads at level 9, or is a prefix operator and its operand.
pub proof fn lemma_read_unary(ts: Seq<TokenView>, p: int, q: int, e: Expression<()>)
    requires
        expr_at(ts, p, q, e, 8),
    ensures
        expr_at(ts, p, q, e, 9) || unary_parts(ts, p, q, e),
{
    if !expr_at(ts, p, q, e, 9) {
        assert(expr_form(ts, p, q, e, 8));
    }
}

/// `e` is a quantifier read from tokens `p..q`, with the comma after its domain at `k`.
pub open spec fn quant_parts(ts: Seq<TokenView>, p: int, q: int, e: Expression<()>, k: int) -> bool {
    match e {
        Expression::Quantifier { binding, domain, body, .. } => {
            &&& name_at(ts, p + 1, binding)
            &&& crate::parser::grammar::is_word(ts, p + 2, "in"@)
            &&& p + 3 < k && k + 1 < q
            &&& crate::parser::grammar::domain_at(ts, p + 3, k, domain)
            &&& is_punct(ts, k, Punct::Comma)
            &&& expr_at(ts, k + 1, q, *body, 0)
            &&& !continues(ts, q, 0)
        },
        _ => false,
    }
}

/// A primary expression that starts with `forall` or `exists` is a quantifier; returns where
/// the comma after its domain stands.
pub proof fn lemma_read_quant(ts: Seq<TokenView>, p: int, q: int, e: Expression<()>) -> (k: int)
    requires
        expr_at(ts, p, q, e, 10),
        crate::parser::grammar::is_word(ts, p, "forall"@) || crate::parser::grammar::is_word(
            ts,
            p,
            "exists"@,
        ),
    ensures
        quant_parts(ts, p, q, e, k),
{
    reveal_strlit("forall");
    reveal_strlit("exists");
    reveal_strlit("len");
    reveal_strlit("old");
    reveal_strlit("nondet");
    reveal_strlit("true");
    reveal_strlit("false");
    assert("forall"@ =~= seq!['f', 'o', 'r', 'a', 'l', 'l']);
    assert("exists"@ =~= seq!['e', 'x', 'i', 's', 't', 's']);
    assert("len"@ =~= seq!['l', 'e', 'n']);
    assert("old"@ =~= seq!['o', 'l', 'd']);
    assert("nondet"@ =~= seq!['n', 'o', 'n', 'd', 'e', 't']);
    assert("true"@ =~= seq!['t', 'r', 'u', 'e']);
    assert("false"@ =~= seq!['f', 'a', 'l', 's', 'e']);
    assert(expr_form(ts, p, q, e, 10));
    match e {
        Expression::Quantifier { binding, domain, body, .. } => {
            let k = choose|k: int|
                p + 3 < k && k + 1 < q && crate::parser::grammar::domain_at(ts, p + 3, k, domain)
                    && #[trigger] is_punct(ts, k, Punct::Comma) && expr_at(ts, k + 1, q, *body, 0)
                    && !continues(ts, q, 0);
            k
        },
        _ => 0,
    }
}

/// Token `p` is an operator of level `lvl` and an operand of the next level, which the token
/// after it does not continue, stands from `p + 1` to `m`.
pub open spec fn bin_step(ts: Seq<TokenView>, p: int, m: int, lvl: int) -> bool {
    &&& is_level_op(ts, p, lvl)
    &&& p + 1 < m
    &&& exists|e: Expression<()>| #[trigger] expr_at(ts, p + 1, m, e, lvl + 1)
    &&& !continues(ts, m, lvl + 1)
}

/// Tokens `p..q` are steps of [`bin_step`].
pub open spec fn bin_tail(ts: Seq<TokenView>, p: int, q: int, lvl: int) -> bool
    decreases q - p,
{
    if p == q {
        true
    } else if p < q {
        exists|m: int|
            p < m <= q && #[trigger] is_boundary(ts, m) && bin_step(ts, p, m, lvl) && bin_tail(
                ts,
                m,
                q,
                lvl,
            )
    } else {
        false
    }
}

/// One more step at the end of a [`bin_tail`].
pub proof fn lemma_bin_append(ts: Seq<TokenView>, a: int, m: int, q: int, lvl: int)
    requires
        a <= m,
        bin_tail(ts, a, m, lvl),
        bin_step(ts, m, q, lvl),
    ensures
        bin_tail(ts, a, q, lvl),
    decreases m - a,
{
    if a == m {
        assert(is_boundary(ts, q));
        assert(bin_tail(ts, q, q, lvl));
    } else {
        let m1 = choose|m1: int|
            a < m1 <= m && #[trigger] is_boundary(ts, m1) && bin_step(ts, a, m1, lvl) && bin_tail(
                ts,
                m1,
                m,
                lvl,
            );
        lemma_bin_append(ts, m1, m, q, lvl);
        assert(is_boundary(ts, m1));
    }
}

/// An expression of a binary level (1 to 6) is an operand of the next level, which the token
/// after it does not continue, followed by a [`bin_tail`]; returns where the operand ends.
pub proof fn lemma_bin_split(ts: Seq<TokenView>, p: int, q: int, e: Expression<()>, lvl: int) -> (m0: int)
    requires
        1 <= lvl <= 6,
        expr_at(ts, p, q, e, lvl),
        !continues(ts, q, lvl + 1),
    ensures
        p < m0 <= q,
        exists|b: Expression<()>| #[trigger] expr_at(ts, p, m0, b, lvl + 1),
        !continues(ts, m0, lvl + 1),
        bin_tail(ts, m0, q, lvl),
    decreases q - p,
{
    if expr_at(ts, p, q, e, lvl + 1) {
        q
    } else {
        assert(expr_form(ts, p, q, e, lvl));
        match e {
            Expression::Binary { op, left, right, .. } => {
                assert(op != BinaryOp::Pow);
                let m = choose|m: int|
                    p < m && m + 1 < q && expr_at(ts, p, m, *left, lvl) && #[trigger] is_punct(
                        ts,
                        m,
                        crate::parser::grammar::binary_punct(op),
                    ) && expr_at(ts, m + 1, q, *right, lvl + 1);
                assert(continues_level(crate::parser::grammar::binary_punct(op))
                    == crate::parser::grammar::binary_level(op));
                let m0 = lemma_bin_split(ts, p, m, *left, lvl);
                assert(bin_step(ts, m, q, lvl));
                lemma_bin_append(ts, m0, m, q, lvl);
                m0
            },
            _ => {
                assert(false);
                q
            },
        }
    }
}

/// Token `p` starts a suffix that ends at `m`, after an expression that starts at `p0`:
/// `[ index ]`, `. name`, or the arguments of a call right after a callee.
pub open spec fn post_step(ts: Seq<TokenView>, p0: int, p: int, m: int) -> bool {
    ||| (is_punct(ts, p, Punct::LBracket) && p + 1 < m - 1 && is_punct(ts, m - 1, Punct::RBracket)
        && exists|e: Expression<()>| #[trigger] expr_at(ts, p + 1, m - 1, e, 0))
    ||| (is_punct(ts, p, Punct::Dot) && m == p + 2 && exists|id: Identifier<()>|
        #[trigger] name_at(ts, p + 1, id))
    ||| (is_punct(ts, p, Punct::LParen) && callee_at(ts, p0, p) && p + 1 < m && exists|
        es: Seq<Expression<()>>,
    | #[trigger] args_at(ts, p + 1, m, es))
}

/// Tokens `p..q` are suffixes ([`post_step`]) of an expression that starts at `p0`.
pub open spec fn post_tail(ts: Seq<TokenView>, p0: int, p: int, q: int) -> bool
    decreases q - p,
{
    if p == q {
        true
    } else if p < q {
        exists|m: int|
            p < m <= q && #[trigger] is_boundary(ts, m) && post_step(ts, p0, p, m) && post_tail(
                ts,
                p0,
                m,
                q,
            )
    } else {
        false
    }
}

/// One more suffix at the end of a [`post_tail`].
pub proof fn lemma_post_append(ts: Seq<TokenView>, p0: int, a: int, m: int, q: int)
    requires
        a <= m,
        post_tail(ts, p0, a, m),
        post_step(ts, p0, m, q),
        m < q,
    ensures
        post_tail(ts, p0, a, q),
    decreases m - a,
{
    if a == m {
        assert(is_boundary(ts, q));
        assert(post_tail(ts, p0, q, q));
    } else {
        let m1 = choose|m1: int|
            a < m1 <= m && #[trigger] is_boundary(ts, m1) && post_step(ts, p0, a, m1) && post_tail(
                ts,
                p0,
                m1,
                m,
            );
        lemma_post_append(ts, p0, m1, m, q);
        assert(is_boundary(ts, m1));
    }
}

/// An expression of level 9 is a primary expression followed by a [`post_tail`]; returns where
/// the primary expression ends.
pub proof fn lemma_post_split(ts: Seq<TokenView>, p: int, q: int, e: Expression<()>) -> (m0: int)
    requires
        expr_at(ts, p, q, e, 9),
    ensures
        p < m0 <= q,
        exists|b: Expression<()>| #[trigger] expr_at(ts, p, m0, b, 10),
        post_tail(ts, p, m0, q),
    decreases q - p,
{
    if expr_at(ts, p, q, e, 10) {
        q
    } else {
        assert(expr_form(ts, p, q, e, 9));
        match e {
            Expression::Index { target, index, .. } => {
                let m = choose|m: int|
                    p < m && m + 1 < q - 1 && expr_at(ts, p, m, *target, 9) && #[trigger] is_punct(
                        ts,
                        m,
                        Punct::LBracket,
                    ) && expr_at(ts, m + 1, q - 1, *index, 0) && is_punct(ts, q - 1, Punct::RBracket);
                let m0 = lemma_post_split(ts, p, m, *target);
                assert(post_step(ts, p, m, q));
                lemma_post_append(ts, p, m0, m, q);
                m0
            },
            Expression::Call { callee, args, .. } => {
                let m = choose|m: int|
                    p < m && m + 1 < q && expr_at(ts, p, m, Expression::Symbol(callee), 9)
                        && #[trigger] is_punct(ts, m, Punct::LParen) && args_at(ts, m + 1, q, args@);
                let m0 = lemma_post_split(ts, p, m, Expression::Symbol(callee));
                lemma_symbol_callee(ts, p, m, callee, 9);
                assert(post_step(ts, p, m, q));
                lemma_post_append(ts, p, m0, m, q);
                m0
            },
            Expression::Member { target, member, .. } => {
                let m0 = lemma_post_split(ts, p, q - 2, *target);
                assert(is_punct(ts, q - 2, Punct::Dot));
                assert(name_at(ts, q - 1, member));
                assert(name_at(ts, (q - 2) + 1, member));
                assert(post_step(ts, p, q - 2, q));
                lemma_post_append(ts, p, m0, q - 2, q);
                m0
            },
            _ => {
                assert(false);
                q
            },
        }
    }
}

/// Tokens `p..q` are expressions separated by commas.
pub open spec fn seq_tail(ts: Seq<TokenView>, p: int, q: int) -> bool
    decreases q - p,
{
    if 0 <= p < q {
        exists|m: int|
            p < m <= q && #[trigger] is_boundary(ts, m) && (exists|e: Expression<()>|
                #[trigger] expr_at(ts, p, m, e, 0)) && (m == q || (is_punct(ts, m, Punct::Comma)
                && seq_tail(ts, m + 1, q)))
    } else {
        false
    }
}

/// One more expression at the end of a [`seq_tail`].
pub proof fn lemma_seq_append(ts: Seq<TokenView>, p: int, m: int, q: int, e: Expression<()>)
    requires
        seq_tail(ts, p, m),
        is_punct(ts, m, Punct::Comma),
        expr_at(ts, m + 1, q, e, 0),
    ensures
        seq_tail(ts, p, q),
    decreases m - p,
{
    let m1 = choose|m1: int|
        p < m1 <= m && #[trigger] is_boundary(ts, m1) && (exists|e: Expression<()>|
            #[trigger] expr_at(ts, p, m1, e, 0)) && (m1 == m || (is_punct(ts, m1, Punct::Comma)
            && seq_tail(ts, m1 + 1, m)));
    assert(is_boundary(ts, q));
    assert(seq_tail(ts, m + 1, q));
    if m1 < m {
        lemma_seq_append(ts, m1 + 1, m, q, e);
    }
    assert(is_boundary(ts, m1));
}

/// The expressions of a list are a [`seq_tail`].
pub proof fn lemma_list_seq(ts: Seq<TokenView>, p: int, q: int, es: Seq<Expression<()>>)
    requires
        list_at(ts, p, q, es),
    ensures
        seq_tail(ts, p, q),
    decreases q - p,
{
    if es.len() == 1 {
        assert(is_boundary(ts, q));
        assert(expr_at(ts, p, q, es[0], 0));
    } else {
        let m = choose|m: int|
            p < m && m + 1 < q && list_at(ts, p, m, es.drop_last()) && #[trigger] is_punct(
                ts,
                m,
                Punct::Comma,
            ) && expr_at(ts, m + 1, q, es.last(), 0);
        lemma_list_seq(ts, p, m, es.drop_last());
        lemma_seq_append(ts, p, m, q, es.last());
    }
}

/// Tokens `p..q` are statements, one after the other.
pub open spec fn stmt_tail(ts: Seq<TokenView>, p: int, q: int) -> bool
    decreases q - p,
{
    if p == q {
        true
    } else if p < q {
        exists|m: int|
            p < m <= q && #[trigger] is_boundary(ts, m) && (exists|s: Statement<()>|
                #[trigger] stmt_at(ts, p, m, s)) && stmt_tail(ts, m, q)
    } else {
        false
    }
}

/// One more statement at the end of a [`stmt_tail`].
pub proof fn lemma_stmt_append(ts: Seq<TokenView>, a: int, m: int, q: int, s: Statement<()>)
    requires
        a <= m,
        stmt_tail(ts, a, m),
        stmt_at(ts, m, q, s),
    ensures
        stmt_tail(ts, a, q),
    decreases m - a,
{
    assert(is_boundary(ts, q));
    if a == m {
        assert(stmt_tail(ts, q, q));
    } else {
        let m1 = choose|m1: int|
            a < m1 <= m && #[trigger] is_boundary(ts, m1) && (exists|s: Statement<()>|
                #[trigger] stmt_at(ts, a, m1, s)) && stmt_tail(ts, m1, m);
        lemma_stmt_append(ts, m1, m, q, s);
        assert(is_boundary(ts, m1));
    }
}

/// The statements of a block are a [`stmt_tail`].
pub proof fn lemma_stmts_tail(ts: Seq<TokenView>, p: int, q: int, ss: Seq<Statement<()>>)
    requires
        stmts_at(ts, p, q, ss),
    ensures
        stmt_tail(ts, p, q),
    decreases q - p,
{
    if ss.len() > 0 {
        let m = choose|m: int|
            p <= m < q && #[trigger] is_boundary(ts, m) && stmts_at(ts, p, m, ss.drop_last())
                && stmt_at(ts, m, q, ss.last());
        lemma_stmts_tail(ts, p, m, ss.drop_last());
        lemma_stmt_append(ts, p, m, q, ss.last());
    }
}

/// Tokens `p..q` are items, one after the other.
pub open spec fn item_tail(ts: Seq<TokenView>, p: int, q: int) -> bool
    decreases q - p,
{
    if p == q {
        true
    } else if p < q {
        exists|m: int|
            p < m <= q && #[trigger] is_boundary(ts, m) && (exists|it: Item<()>|
                #[trigger] item_at(ts, p, m, it)) && item_tail(ts, m, q)
    } else {
        false
    }
}

/// One more item at the end of an [`item_tail`].
pub proof fn lemma_item_append(ts: Seq<TokenView>, a: int, m: int, q: int, it: Item<()>)
    requires
        a <= m < q,
        item_tail(ts, a, m),
        item_at(ts, m, q, it),
    ensures
        item_tail(ts, a, q),
    decreases m - a,
{
    assert(is_boundary(ts, q));
    if a == m {
        assert(item_tail(ts, q, q));
    } else {
        let m1 = choose|m1: int|
            a < m1 <= m && #[trigger] is_boundary(ts, m1) && (exists|it: Item<()>|
                #[trigger] item_at(ts, a, m1, it)) && item_tail(ts, m1, m);
        lemma_item_append(ts, m1, m, q, it);
        assert(is_boundary(ts, m1));
    }
}

/// The items of a document are an [`item_tail`].
pub proof fn lemma_items_tail(ts: Seq<TokenView>, p: int, q: int, items: Seq<Item<()>>)
    requires
        items_at(ts, p, q, items),
    ensures
        item_tail(ts, p, q),
    decreases q - p,
{
    if items.len() > 0 {
        let m = choose|m: int|
            p <= m < q && #[trigger] is_boundary(ts, m) && items_at(ts, p, m, items.drop_last())
                && item_at(ts, m, q, items.last());
        lemma_items_tail(ts, p, m, items.drop_last());
        lemma_item_append(ts, p, m, q, items.last());
    }
}

} // verus!

verus! {

/// The words that start statements and items, spelled out.
pub proof fn lemma_statement_words()
    ensures
        "require"@ == seq!['r', 'e', 'q', 'u', 'i', 'r', 'e'],
        "ensure"@ == seq!['e', 'n', 's', 'u', 'r', 'e'],
        "return"@ == seq!['r', 'e', 't', 'u', 'r', 'n'],
        "increases"@ == seq!['i', 'n', 'c', 'r', 'e', 'a', 's', 'e', 's'],
        "decreases"@ == seq!['d', 'e', 'c', 'r', 'e', 'a', 's', 'e', 's'],
        "step"@ == seq!['s', 't', 'e', 'p'],
        "let"@ == seq!['l', 'e', 't'],
        "unused"@ == seq!['u', 'n', 'u', 's', 'e', 'd'],
        "invariant"@ == seq!['i', 'n', 'v', 'a', 'r', 'i', 'a', 'n', 't'],
        "predicate"@ == seq!['p', 'r', 'e', 'd', 'i', 'c', 'a', 't', 'e'],
        "compute"@ == seq!['c', 'o', 'm', 'p', 'u', 't', 'e'],
        "witness"@ == seq!['w', 'i', 't', 'n', 'e', 's', 's'],
        "constrain"@ == seq!['c', 'o', 'n', 's', 't', 'r', 'a', 'i', 'n'],
        "contract"@ == seq!['c', 'o', 'n', 't', 'r', 'a', 'c', 't'],
{
    reveal_strlit("require");
    reveal_strlit("ensure");
    reveal_strlit("return");
    reveal_strlit("increases");
    reveal_strlit("decreases");
    reveal_strlit("step");
    reveal_strlit("let");
    reveal_strlit("unused");
    reveal_strlit("invariant");
    reveal_strlit("predicate");
    reveal_strlit("compute");
    reveal_strlit("witness");
    reveal_strlit("constrain");
    reveal_strlit("contract");
    assert("require"@ =~= seq!['r', 'e', 'q', 'u', 'i', 'r', 'e']);
    assert("ensure"@ =~= seq!['e', 'n', 's', 'u', 'r', 'e']);
    assert("return"@ =~= seq!['r', 'e', 't', 'u', 'r', 'n']);
    assert("increases"@ =~= seq!['i', 'n', 'c', 'r', 'e', 'a', 's', 'e', 's']);
    assert("decreases"@ =~= seq!['d', 'e', 'c', 'r', 'e', 'a', 's', 'e', 's']);
    assert("step"@ =~= seq!['s', 't', 'e', 'p']);
    assert("let"@ =~= seq!['l', 'e', 't']);
    assert("unused"@ =~= seq!['u', 'n', 'u', 's', 'e', 'd']);
    assert("invariant"@ =~= seq!['i', 'n', 'v', 'a', 'r', 'i', 'a', 'n', 't']);
    assert("predicate"@ =~= seq!['p', 'r', 'e', 'd', 'i', 'c', 'a', 't', 'e']);
    assert("compute"@ =~= seq!['c', 'o', 'm', 'p', 'u', 't', 'e']);
    assert("witness"@ =~= seq!['w', 'i', 't', 'n', 'e', 's', 's']);
    assert("constrain"@ =~= seq!['c', 'o', 'n', 's', 't', 'r', 'a', 'i', 'n']);
    assert("contract"@ =~= seq!['c', 'o', 'n', 't', 'r', 'a', 'c', 't']);
}

/// A statement starts with `{`, `;` or a word: nothing that closes a block or continues an
/// expression.
pub proof fn lemma_stmt_start(ts: Seq<TokenView>, p: int, q: int, s: Statement<()>)
    requires
        stmt_at(ts, p, q, s),
    ensures
        !is_punct(ts, p, Punct::RBrace),
        !continues(ts, p, 0),
{
    match s {
        Statement::Block(b) => {
            assert(crate::parser::grammar::block_at(ts, p, q, b));
        },
        Statement::Predicate(d) => {
            assert(crate::parser::grammar::predicate_at(ts, p, q, d));
        },
        _ => {},
    }
}

/// An item starts with `contract` or `predicate`, which continues no expression.
pub proof fn lemma_item_start(ts: Seq<TokenView>, p: int, q: int, it: Item<()>)
    requires
        item_at(ts, p, q, it),
    ensures
        crate::parser::grammar::is_word(ts, p, "contract"@) || crate::parser::grammar::is_word(
            ts,
            p,
            "predicate"@,
        ),
        !continues(ts, p, 0),
{
}

/// A path that reaches `q2` and one that reaches `q < q2` from the same start: the second goes
/// on at `q` with `::` and a word, with nothing between them.
pub proof fn lemma_path_prefix(ts: Seq<TokenView>, p: int, q: int, q2: int)
    requires
        crate::parser::grammar::path_at(ts, p, q2),
        crate::parser::grammar::path_at(ts, p, q),
        q < q2,
    ensures
        q + 2 <= q2,
        is_punct(ts, q, Punct::ColonColon),
        crate::parser::grammar::is_plain_word(ts, q + 1),
        ts[q].span.start == ts[q - 1].span.end,
        ts[q + 1].span.start == ts[q].span.end,
        crate::parser::grammar::path_at(ts, p, q + 2),
    decreases q2 - p,
{
    if q2 >= p + 3 && q < q2 - 2 {
        lemma_path_prefix(ts, p, q, q2 - 2);
    }
}

} // verus!
