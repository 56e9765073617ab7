//! The grammar of `llzk-spec` documents, as relations between ranges of tokens and the trees
//! read from them. A range `p..q` of tokens reads as a node when the node's form matches the
//! tokens there and the node spans them.
use vstd::prelude::*;
use crate::ast::{
    BinaryOp, Block, ContractDecl, Document, Expression, Identifier, Item, PredicateDecl,
    QuantifierDomain, QuantifierKind, Scope, Span, Spanned, Statement, UnaryOp, decimal_value,
};
use crate::parser::is_keyword;
use crate::parser::lexer::{Punct, TokenKind, TokenView};

verus! {

/// Token `k` is the punctuation `p`.
pub open spec fn is_punct(ts: Seq<TokenView>, k: int, p: Punct) -> bool {
    0 <= k < ts.len() && ts[k].kind == TokenKind::Punct(p)
}

/// Token `k` is the word `w`.
pub open spec fn is_word(ts: Seq<TokenView>, k: int, w: Seq<char>) -> bool {
    0 <= k < ts.len() && ts[k].kind == TokenKind::Ident && ts[k].text == w
}

/// Token `k` is a word that is not a keyword.
pub open spec fn is_plain_word(ts: Seq<TokenView>, k: int) -> bool {
    0 <= k < ts.len() && ts[k].kind == TokenKind::Ident && !is_keyword(ts[k].text)
}

/// Offset `m` of the token list lies before a token or at its end.
pub open spec fn is_boundary(ts: Seq<TokenView>, m: int) -> bool {
    0 <= m <= ts.len()
}

/// The span from the start of token `p` to the end of token `q - 1`.
pub open spec fn span_of(ts: Seq<TokenView>, p: int, q: int) -> Span {
    Span {
        start: ts[p].span.start,
        end: ts[q - 1].span.end,
        line: ts[p].span.line,
        column: ts[p].span.column,
    }
}

/// Token `k` reads as the name `id`: a word that is not a keyword, or a name between
/// backquotes.
pub open spec fn name_at(ts: Seq<TokenView>, k: int, id: Identifier<()>) -> bool {
    &&& 0 <= k < ts.len()
    &&& (ts[k].kind == TokenKind::Escaped || is_plain_word(ts, k))
    &&& id.name.name@ == ts[k].text
    &&& id.span == ts[k].span
}

/// The token of a binary operator.
pub open spec fn binary_punct(op: BinaryOp) -> Punct {
    match op {
        BinaryOp::Or => Punct::PipePipe,
        BinaryOp::And => Punct::AmpAmp,
        BinaryOp::Eq => Punct::EqEq,
        BinaryOp::Ne => Punct::NotEq,
        BinaryOp::Lt => Punct::Lt,
        BinaryOp::Le => Punct::Le,
        BinaryOp::Gt => Punct::Gt,
        BinaryOp::Ge => Punct::Ge,
        BinaryOp::Add => Punct::Plus,
        BinaryOp::Sub => Punct::Minus,
        BinaryOp::Mul => Punct::Star,
        BinaryOp::Div => Punct::Slash,
        BinaryOp::Mod => Punct::Percent,
        BinaryOp::BitAnd => Punct::Amp,
        BinaryOp::Pow => Punct::StarStar,
    }
}

/// The precedence level of a binary operator: 1 for `||`, the loosest, up to 7 for `**`.
pub open spec fn binary_level(op: BinaryOp) -> int {
    match op {
        BinaryOp::Or => 1,
        BinaryOp::And => 2,
        BinaryOp::Eq | BinaryOp::Ne => 3,
        BinaryOp::Lt | BinaryOp::Le | BinaryOp::Gt | BinaryOp::Ge => 4,
        BinaryOp::Add | BinaryOp::Sub => 5,
        BinaryOp::Mul | BinaryOp::Div | BinaryOp::Mod | BinaryOp::BitAnd => 6,
        BinaryOp::Pow => 7,
    }
}

/// The loosest precedence level (see [`expr_at`]) at which the punctuation `p`, standing right
/// after an expression, continues it: `?` at 0, a binary operator at its own level, `**` at 7,
/// `[`, `(` and `.` at 9; -1 for punctuation that continues no expression.
pub open spec fn continues_level(p: Punct) -> int {
    match p {
        Punct::Question => 0,
        Punct::PipePipe => 1,
        Punct::AmpAmp => 2,
        Punct::EqEq | Punct::NotEq => 3,
        Punct::Lt | Punct::Le | Punct::Gt | Punct::Ge => 4,
        Punct::Plus | Punct::Minus => 5,
        Punct::Star | Punct::Slash | Punct::Percent | Punct::Amp => 6,
        Punct::StarStar => 7,
        Punct::LBracket | Punct::LParen | Punct::Dot => 9,
        _ => -1,
    }
}

/// Token `q` would continue an expression of level `lvl` that ends right before it.
pub open spec fn continues(ts: Seq<TokenView>, q: int, lvl: int) -> bool {
    0 <= q < ts.len() && match ts[q].kind {
        TokenKind::Punct(p) => lvl <= continues_level(p),
        _ => false,
    }
}

/// Token `k` is a binary operator of level `lvl` (1 to 6).
pub open spec fn is_level_op(ts: Seq<TokenView>, k: int, lvl: int) -> bool {
    0 <= k < ts.len() && match ts[k].kind {
        TokenKind::Punct(p) => continues_level(p) == lvl && 1 <= lvl <= 6,
        _ => false,
    }
}

/// Token `k` can stand as a name in an expression: a word that is not a keyword, a name
/// between backquotes, or `$res[N]`.
pub open spec fn is_name_token(ts: Seq<TokenView>, k: int) -> bool {
    0 <= k < ts.len() && (ts[k].kind == TokenKind::Escaped || ts[k].kind == TokenKind::Res
        || is_plain_word(ts, k))
}

/// Tokens `p..q` are one name token between as many opening as closing parentheses: what a
/// callee can be.
pub open spec fn callee_at(ts: Seq<TokenView>, p: int, q: int) -> bool
    decreases q - p,
{
    if 0 <= p && q == p + 1 {
        is_name_token(ts, p)
    } else if 0 <= p && p + 3 <= q {
        is_punct(ts, p, Punct::LParen) && is_punct(ts, q - 1, Punct::RParen) && callee_at(
            ts,
            p + 1,
            q - 1,
        )
    } else {
        false
    }
}

/// Tokens `p..q` read as the expression `e` at precedence level `lvl`: 0 for `? :`, 1 to 6
/// for the binary operators from `||` to `*`, 7 for `**`, 8 for the prefix operators, 9 for
/// indexing, calls and member access, 10 for primary expressions. What reads at a level
/// also reads at every looser one.
pub open spec fn expr_at(ts: Seq<TokenView>, p: int, q: int, e: Expression<()>, lvl: int) -> bool
    decreases q - p, 2 * (12 - lvl) + 1,
{
    if 0 <= p < q <= ts.len() && 0 <= lvl <= 10 {
        ||| expr_form(ts, p, q, e, lvl)
        ||| (lvl < 10 && expr_at(ts, p, q, e, lvl + 1))
    } else {
        false
    }
}

/// Tokens `p..q` read as `e` by a rule of level `lvl` itself (see [`expr_at`]).
pub open spec fn expr_form(ts: Seq<TokenView>, p: int, q: int, e: Expression<()>, lvl: int) -> bool
    decreases q - p, 2 * (12 - lvl),
{
    if 0 <= p < q <= ts.len() && 0 <= lvl <= 10 {
        ||| (lvl == 10 && is_punct(ts, p, Punct::LParen) && is_punct(ts, q - 1, Punct::RParen)
            && expr_at(ts, p + 1, q - 1, e, 0))
        ||| (e.spec_span() == span_of(ts, p, q) && match e {
            Expression::Conditional { condition, then_branch, else_branch, .. } => lvl == 0 && exists|
                m: int,
                k: int,
            |
                #![trigger is_punct(ts, m, Punct::Question), is_punct(ts, k, Punct::Colon)]
                p < m && m + 1 < k && k + 1 < q && expr_at(ts, p, m, *condition, 1) && is_punct(
                    ts,
                    m,
                    Punct::Question,
                ) && expr_at(ts, m + 1, k, *then_branch, 0) && is_punct(ts, k, Punct::Colon)
                    && expr_at(ts, k + 1, q, *else_branch, 0),
            Expression::Binary { op, left, right, .. } => if op == BinaryOp::Pow {
                lvl == 7 && exists|m: int|
                    p < m && m + 1 < q && expr_at(ts, p, m, *left, 8) && #[trigger] is_punct(
                        ts,
                        m,
                        Punct::StarStar,
                    ) && expr_at(ts, m + 1, q, *right, 8)
            } else {
                binary_level(op) == lvl && exists|m: int|
                    p < m && m + 1 < q && expr_at(ts, p, m, *left, lvl) && #[trigger] is_punct(
                        ts,
                        m,
                        binary_punct(op),
                    ) && expr_at(ts, m + 1, q, *right, lvl + 1)
            },
            Expression::Unary { op, expr, .. } => lvl == 8 && is_punct(
                ts,
                p,
                if op == UnaryOp::Not {
                    Punct::Bang
                } else {
                    Punct::Minus
                },
            ) && expr_at(ts, p + 1, q, *expr, 8),
            Expression::Index { target, index, .. } => lvl == 9 && exists|m: int|
                p < m && m + 1 < q - 1 && expr_at(ts, p, m, *target, 9) && #[trigger] is_punct(
                    ts,
                    m,
                    Punct::LBracket,
                ) && expr_at(ts, m + 1, q - 1, *index, 0) && is_punct(ts, q - 1, Punct::RBracket),
            Expression::Call { callee, args, .. } => lvl == 9 && exists|m: int|
                p < m && m + 1 < q && expr_at(ts, p, m, Expression::Symbol(callee), 9)
                    && #[trigger] is_punct(ts, m, Punct::LParen) && args_at(ts, m + 1, q, args@),
            Expression::Member { target, member, .. } => lvl == 9 && p < q - 2 && expr_at(
                ts,
                p,
                q - 2,
                *target,
                9,
            ) && is_punct(ts, q - 2, Punct::Dot) && name_at(ts, q - 1, member),
            Expression::Quantifier { quantifier_kind, binding, domain, body, .. } => lvl == 10
                && is_word(
                ts,
                p,
                if quantifier_kind == QuantifierKind::Forall {
                    "forall"@
                } else {
                    "exists"@
                },
            ) && name_at(ts, p + 1, binding) && is_word(ts, p + 2, "in"@) && exists|k: int|
                p + 3 < k && k + 1 < q && domain_at(ts, p + 3, k, domain) && #[trigger] is_punct(
                    ts,
                    k,
                    Punct::Comma,
                ) && expr_at(ts, k + 1, q, *body, 0) && !continues(ts, q, 0),
            Expression::Len { target, .. } => lvl == 10 && is_word(ts, p, "len"@) && is_punct(
                ts,
                p + 1,
                Punct::LParen,
            ) && p + 2 < q - 1 && expr_at(ts, p + 2, q - 1, *target, 0) && is_punct(
                ts,
                q - 1,
                Punct::RParen,
            ),
            Expression::Old { expression, .. } => lvl == 10 && is_word(ts, p, "old"@) && is_punct(
                ts,
                p + 1,
                Punct::LParen,
            ) && p + 2 < q - 1 && expr_at(ts, p + 2, q - 1, *expression, 0) && is_punct(
                ts,
                q - 1,
                Punct::RParen,
            ),
            Expression::Arg { index, .. } => lvl == 10 && q == p + 1 && ts[p].kind == TokenKind::Arg
                && index == decimal_value(ts[p].text),
            Expression::Nondet { .. } => lvl == 10 && q == p + 1 && is_word(ts, p, "nondet"@),
            Expression::Boolean { value, .. } => lvl == 10 && q == p + 1 && is_word(
                ts,
                p,
                if value {
                    "true"@
                } else {
                    "false"@
                },
            ),
            Expression::Number { value, .. } => lvl == 10 && q == p + 1 && ts[p].kind
                == TokenKind::Number && value.digits@ == ts[p].text,
            Expression::Symbol(id) => lvl == 10 && q == p + 1 && (name_at(ts, p, id) || (ts[p].kind
                == TokenKind::Res && id.name.name@ == ts[p].text && id.span == ts[p].span)),
        })
    } else {
        false
    }
}

/// Tokens `p..q` read as the domain `d` of a quantifier: `a..b`, or an expression.
pub open spec fn domain_at(ts: Seq<TokenView>, p: int, q: int, d: QuantifierDomain<()>) -> bool
    decreases q - p, 26int,
{
    if 0 <= p < q <= ts.len() {
        match d {
            QuantifierDomain::Range { start, end, span } => span == span_of(ts, p, q) && exists|
                m: int,
            |
                p < m && m + 1 < q && expr_at(ts, p, m, *start, 1) && #[trigger] is_punct(
                    ts,
                    m,
                    Punct::DotDot,
                ) && expr_at(ts, m + 1, q, *end, 1),
            QuantifierDomain::Expr(x) => expr_at(ts, p, q, *x, 1),
        }
    } else {
        false
    }
}

/// Tokens `p..q` read as the expressions `es`, separated by commas.
pub open spec fn list_at(ts: Seq<TokenView>, p: int, q: int, es: Seq<Expression<()>>) -> bool
    decreases q - p, 26int,
{
    if 0 <= p < q <= ts.len() {
        if es.len() == 1 {
            expr_at(ts, p, q, es[0], 0)
        } else if es.len() > 1 {
            exists|m: int|
                p < m && m + 1 < q && list_at(ts, p, m, es.drop_last()) && #[trigger] is_punct(
                    ts,
                    m,
                    Punct::Comma,
                ) && expr_at(ts, m + 1, q, es.last(), 0)
        } else {
            false
        }
    } else {
        false
    }
}

/// Tokens `p..q` read as the arguments `es` of a call and its closing parenthesis.
pub open spec fn args_at(ts: Seq<TokenView>, p: int, q: int, es: Seq<Expression<()>>) -> bool
    decreases q - p, 27int,
{
    if 0 <= p < q <= ts.len() {
        if es.len() == 0 {
            q == p + 1 && is_punct(ts, p, Punct::RParen)
        } else {
            p < q - 1 && is_punct(ts, q - 1, Punct::RParen) && list_at(ts, p, q - 1, es)
        }
    } else {
        false
    }
}

/// How many tokens a parenthesized list of names takes after its opening parenthesis.
pub open spec fn names_len(n: int) -> int {
    if n == 0 {
        1
    } else {
        2 * n
    }
}

/// The tokens from `k` on read as the names `ids`, separated by commas, and the closing
/// parenthesis.
pub open spec fn names_at(ts: Seq<TokenView>, k: int, ids: Seq<Identifier<()>>) -> bool {
    if ids.len() == 0 {
        is_punct(ts, k, Punct::RParen)
    } else {
        forall|j: int|
            0 <= j < ids.len() ==> name_at(ts, k + 2 * j, #[trigger] ids[j]) && is_punct(
                ts,
                k + 2 * j + 1,
                if j == ids.len() - 1 {
                    Punct::RParen
                } else {
                    Punct::Comma
                },
            )
    }
}

/// Tokens `p..q` read as `word expression ;`, spanning them.
pub open spec fn simple_at(
    ts: Seq<TokenView>,
    p: int,
    q: int,
    word: Seq<char>,
    e: Expression<()>,
    span: Span,
) -> bool {
    &&& is_word(ts, p, word)
    &&& p + 1 < q - 1
    &&& expr_at(ts, p + 1, q - 1, e, 0)
    &&& is_punct(ts, q - 1, Punct::Semi)
    &&& span == span_of(ts, p, q)
}

/// Tokens `p..q` read as the statement `s`.
pub open spec fn stmt_at(ts: Seq<TokenView>, p: int, q: int, s: Statement<()>) -> bool
    decreases q - p, 1int,
{
    if 0 <= p < q <= ts.len() {
        match s {
            Statement::Block(b) => block_at(ts, p, q, b),
            Statement::Empty { span } => q == p + 1 && is_punct(ts, p, Punct::Semi) && span == ts[p].span,
            Statement::Scoped { scope, statement, span } => (if scope == Scope::Constrain {
                is_word(ts, p, "constrain"@)
            } else {
                is_word(ts, p, "compute"@) || is_word(ts, p, "witness"@)
            }) && stmt_at(ts, p + 1, q, *statement) && span == span_of(ts, p, q),
            Statement::Require { expression, span } => simple_at(
                ts,
                p,
                q,
                "require"@,
                expression,
                span,
            ),
            Statement::Ensure { expression, span } => simple_at(ts, p, q, "ensure"@, expression, span),
            Statement::Return { expression, span } => simple_at(ts, p, q, "return"@, expression, span),
            Statement::Increases { expression, span } => simple_at(
                ts,
                p,
                q,
                "increases"@,
                expression,
                span,
            ),
            Statement::Decreases { expression, span } => simple_at(
                ts,
                p,
                q,
                "decreases"@,
                expression,
                span,
            ),
            Statement::Step { expression, span } => simple_at(ts, p, q, "step"@, expression, span),
            Statement::Let { name, value, span } => is_word(ts, p, "let"@) && name_at(ts, p + 1, name)
                && is_punct(ts, p + 2, Punct::Assign) && p + 3 < q - 1 && expr_at(
                ts,
                p + 3,
                q - 1,
                value,
                0,
            ) && is_punct(ts, q - 1, Punct::Semi) && span == span_of(ts, p, q),
            Statement::Unused { name, span } => q == p + 3 && is_word(ts, p, "unused"@) && name_at(
                ts,
                p + 1,
                name,
            ) && is_punct(ts, p + 2, Punct::Semi) && span == span_of(ts, p, q),
            Statement::Invariant(inv) => {
                let m = p + 4 + names_len(inv.bindings@.len() as int);
                &&& is_word(ts, p, "invariant"@)
                &&& is_word(ts, p + 1, "for"@)
                &&& name_at(ts, p + 2, inv.loop_name)
                &&& is_punct(ts, p + 3, Punct::LParen)
                &&& names_at(ts, p + 4, inv.bindings@)
                &&& m < q
                &&& block_at(ts, m, q, inv.body)
                &&& inv.span == span_of(ts, p, q)
            },
            Statement::Predicate(d) => predicate_at(ts, p, q, d),
        }
    } else {
        false
    }
}

/// Tokens `p..q` read as the statements `ss`, one after the other.
pub open spec fn stmts_at(ts: Seq<TokenView>, p: int, q: int, ss: Seq<Statement<()>>) -> bool
    decreases q - p, 2int,
{
    if 0 <= p <= q <= ts.len() {
        if ss.len() == 0 {
            p == q
        } else {
            exists|m: int|
                p <= m < q && #[trigger] is_boundary(ts, m) && stmts_at(ts, p, m, ss.drop_last())
                    && stmt_at(ts, m, q, ss.last())
        }
    } else {
        false
    }
}

/// Tokens `p..q` read as the block `b`: `{`, statements, `}`.
pub open spec fn block_at(ts: Seq<TokenView>, p: int, q: int, b: Block<()>) -> bool
    decreases q - p, 0int,
{
    if 0 <= p && p + 2 <= q <= ts.len() {
        &&& is_punct(ts, p, Punct::LBrace)
        &&& is_punct(ts, q - 1, Punct::RBrace)
        &&& stmts_at(ts, p + 1, q - 1, b.statements@)
        &&& b.span == span_of(ts, p, q)
    } else {
        false
    }
}

/// Tokens `p..q` read as the predicate declaration `d`: `predicate`, its name, its
/// parameters, then a block or `=` and an expression. An expression body reads as a block
/// that returns it, both spanning the expression.
pub open spec fn predicate_at(ts: Seq<TokenView>, p: int, q: int, d: PredicateDecl<()>) -> bool
    decreases q - p, 0int,
{
    if 0 <= p < q <= ts.len() {
        let m = p + 3 + names_len(d.params@.len() as int);
        &&& is_word(ts, p, "predicate"@)
        &&& name_at(ts, p + 1, d.name)
        &&& is_punct(ts, p + 2, Punct::LParen)
        &&& names_at(ts, p + 3, d.params@)
        &&& m < q
        &&& d.span == span_of(ts, p, q)
        &&& (block_at(ts, m, q, d.body) || (is_punct(ts, m, Punct::Assign) && d.body.statements@.len()
            == 1 && match d.body.statements@[0] {
            Statement::Return { expression, span } => span == expression.spec_span() && d.body.span
                == span && m + 1 < q && expr_at(ts, m + 1, q, expression, 0),
            _ => false,
        }))
    } else {
        false
    }
}

/// Tokens `p..q` are plain words joined by `::`, with nothing between them.
pub open spec fn path_at(ts: Seq<TokenView>, p: int, q: int) -> bool
    decreases q - p,
{
    if 0 <= p && q == p + 1 {
        is_plain_word(ts, p)
    } else if 0 <= p && p + 3 <= q {
        &&& path_at(ts, p, q - 2)
        &&& is_punct(ts, q - 2, Punct::ColonColon)
        &&& is_plain_word(ts, q - 1)
        &&& ts[q - 2].span.start == ts[q - 3].span.end
        &&& ts[q - 1].span.start == ts[q - 2].span.end
    } else {
        false
    }
}

/// The text of the tokens `p..q`, run together.
pub open spec fn path_text(ts: Seq<TokenView>, p: int, q: int) -> Seq<char>
    decreases q - p,
{
    if p + 3 <= q {
        path_text(ts, p, q - 2) + ts[q - 2].text + ts[q - 1].text
    } else {
        ts[p].text
    }
}

/// Tokens `p..q` read as the target of a contract: a path, or a name between backquotes.
pub open spec fn target_at(ts: Seq<TokenView>, p: int, q: int, id: Identifier<()>) -> bool {
    ||| (is_plain_word(ts, p) && path_at(ts, p, q) && id.name.name@ == path_text(ts, p, q)
        && id.span == span_of(ts, p, q))
    ||| (!is_plain_word(ts, p) && q == p + 1 && name_at(ts, p, id))
}

/// Tokens `p..q` read as the contract `c`: `contract for`, its target and its body.
pub open spec fn contract_at(ts: Seq<TokenView>, p: int, q: int, c: ContractDecl<()>) -> bool {
    &&& 0 <= p < q <= ts.len()
    &&& is_word(ts, p, "contract"@)
    &&& is_word(ts, p + 1, "for"@)
    &&& exists|m: int|
        p + 2 < m < q && #[trigger] is_punct(ts, m, Punct::LBrace) && target_at(ts, p + 2, m, c.target)
            && block_at(ts, m, q, c.body)
    &&& c.span == span_of(ts, p, q)
}

/// Tokens `p..q` read as the item `item`.
pub open spec fn item_at(ts: Seq<TokenView>, p: int, q: int, item: Item<()>) -> bool {
    match item {
        Item::Contract(c) => contract_at(ts, p, q, c),
        Item::Predicate(d) => predicate_at(ts, p, q, d),
    }
}

/// Tokens `p..q` read as the items `items`, one after the other.
pub open spec fn items_at(ts: Seq<TokenView>, p: int, q: int, items: Seq<Item<()>>) -> bool
    decreases q - p,
{
    if 0 <= p <= q <= ts.len() {
        if items.len() == 0 {
            p == q
        } else {
            exists|m: int|
                p <= m < q && #[trigger] is_boundary(ts, m) && items_at(ts, p, m, items.drop_last())
                    && item_at(ts, m, q, items.last())
        }
    } else {
        false
    }
}

/// The tokens read as the document `d`: its items, one after the other.
pub open spec fn document_at(ts: Seq<TokenView>, d: Document<()>) -> bool {
    items_at(ts, 0, ts.len() as int, d.items@)
}

} // verus!


verus! {

/// Every token of a callee is a parenthesis or the name token.
pub proof fn lemma_callee_tokens(ts: Seq<TokenView>, p: int, q: int, k: int)
    requires
        callee_at(ts, p, q),
        p <= k < q,
    ensures
        is_punct(ts, k, Punct::LParen) || is_punct(ts, k, Punct::RParen) || is_name_token(ts, k),
    decreases q - p,
{
    if q > p + 1 && p < k < q - 1 {
        lemma_callee_tokens(ts, p + 1, q - 1, k);
    }
}

/// A callee starting at `p` ends at one place only.
pub proof fn lemma_callee_end(ts: Seq<TokenView>, p: int, q1: int, q2: int)
    requires
        callee_at(ts, p, q1),
        callee_at(ts, p, q2),
    ensures
        q1 == q2,
    decreases q1 - p,
{
    if q1 > p + 1 && q2 > p + 1 {
        lemma_callee_end(ts, p + 1, q1 - 1, q2 - 1);
    }
}

} // verus!
