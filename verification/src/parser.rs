//! Parsing of `llzk-spec` documents.
//!
//! The source is split into tokens ([`lexer`]), then read by recursive descent. Operators bind,
//! from loosest to tightest: `? :`; `||`; `&&`; `==` `!=`; `<` `<=` `>` `>=`; `+` `-`;
//! `*` `/` `%` `&`; `**` (not chained); prefix `!` `-`; then indexing, calls and member access.
//! Each node of the tree spans the source text it was read from.
use vstd::prelude::*;
use crate::ast::{
    Block, ContractDecl, Document, Expression, Identifier, InvariantDecl, Item, PredicateDecl, Span,
    Statement, QuantifierDomain, decimal_value, all_digits,
};
use crate::ast::{BinaryOp, Literal, Scope, Spanned, Symbol, UnaryOp, QuantifierKind};
use crate::diagnostic::Diagnostic;
use crate::parser::lexer::{
    Punct, Token, TokenKind, TokenView, column_of, lex, lexes_to, line_of, span_at, token_ok,
    token_views, tokens_ok,
};
use crate::text::chars_of;
use crate::parser::chains::{
    bin_step, bin_tail, cond_parts, lemma_bin_split, lemma_expr_start, lemma_read_cond,
    lemma_list_seq, lemma_post_split, lemma_read_pow, lemma_read_unary, post_step, post_tail,
    pow_parts, quant_parts, lemma_read_quant, seq_tail, unary_parts, stmt_tail, lemma_stmts_tail,
    lemma_stmt_start, lemma_statement_words, item_tail, lemma_items_tail, lemma_item_start,
    lemma_path_prefix,
};
use crate::parser::grammar::{
    args_at, binary_level, binary_punct, block_at, callee_at, continues, contract_at, document_at,
    continues_level, is_level_op, lemma_callee_end, lemma_callee_tokens,
    domain_at, expr_at,
    expr_form, is_boundary, is_plain_word, is_punct, is_word, item_at, items_at, list_at, name_at, names_at, names_len,
    path_at, path_text, predicate_at, span_of, stmt_at, stmts_at, target_at,
};

pub mod chains;
pub mod grammar;
pub mod lexer;
pub mod tokens;

verus! {

/// The identifier is spelled at its span as in the source, or between backquotes there.
pub open spec fn ident_ok(src: Seq<char>, id: Identifier<()>) -> bool {
    let s = id.span.start as int;
    let e = id.span.end as int;
    &&& span_at(src, id.span)
    &&& (src.subrange(s, e) == id.name.name@ || (e - s >= 3 && src[s] == '`' && src[e - 1] == '`'
        && src.subrange(s + 1, e - 1) == id.name.name@))
}

/// [`ident_ok`] for each of a list of identifiers.
pub open spec fn idents_ok(src: Seq<char>, ids: Seq<Identifier<()>>) -> bool {
    forall|k: int| 0 <= k < ids.len() ==> #[trigger] ident_ok(src, ids[k])
}

/// The text of the source at a span.
pub open spec fn text_at(src: Seq<char>, sp: Span) -> Seq<char> {
    src.subrange(sp.start as int, sp.end as int)
}

/// Every node of the expression stands at a span of the source, and every name and literal
/// in it is spelled at its span as the source spells it.
pub open spec fn expr_ok(src: Seq<char>, e: Expression<()>) -> bool
    decreases e,
{
    match e {
        Expression::Conditional { condition, then_branch, else_branch, span, .. } => span_at(
            src,
            span,
        ) && expr_ok(src, *condition) && expr_ok(src, *then_branch) && expr_ok(src, *else_branch),
        Expression::Binary { left, right, span, .. } => span_at(src, span) && expr_ok(src, *left)
            && expr_ok(src, *right),
        Expression::Unary { expr, span, .. } => span_at(src, span) && expr_ok(src, *expr),
        Expression::Index { target, index, span, .. } => span_at(src, span) && expr_ok(src, *target)
            && expr_ok(src, *index),
        Expression::Member { target, member, span, .. } => span_at(src, span) && expr_ok(
            src,
            *target,
        ) && ident_ok(src, member),
        Expression::Call { callee, args, span, .. } => span_at(src, span) && ident_ok(src, callee)
            && exprs_ok(src, args@),
        Expression::Quantifier { binding, domain, body, span, .. } => span_at(src, span) && ident_ok(
            src,
            binding,
        ) && domain_ok(src, domain) && expr_ok(src, *body),
        Expression::Len { target, span, .. } => span_at(src, span) && expr_ok(src, *target),
        Expression::Old { expression, span, .. } => span_at(src, span) && expr_ok(src, *expression),
        Expression::Arg { index, span, .. } => span_at(src, span) && exists|d: Seq<char>|
            #[trigger] all_digits(d) && d.len() > 0 && text_at(src, span) == seq!['$', 'a', 'r', 'g', '[']
                + d + seq![']'] && index == decimal_value(d),
        Expression::Nondet { span, .. } => span_at(src, span) && text_at(src, span) == seq![
            'n',
            'o',
            'n',
            'd',
            'e',
            't',
        ],
        Expression::Boolean { value, span, .. } => span_at(src, span) && text_at(src, span) == if value {
            seq!['t', 'r', 'u', 'e']
        } else {
            seq!['f', 'a', 'l', 's', 'e']
        },
        Expression::Number { value, span, .. } => span_at(src, span) && value.digits@ == text_at(
            src,
            span,
        ) && all_digits(value.digits@) && value.digits@.len() > 0,
        Expression::Symbol(id) => ident_ok(src, id),
    }
}

/// [`expr_ok`] for each of a list of expressions.
pub open spec fn exprs_ok(src: Seq<char>, es: Seq<Expression<()>>) -> bool
    decreases es,
{
    if es.len() == 0 {
        true
    } else {
        exprs_ok(src, es.subrange(0, es.len() - 1)) && expr_ok(src, es[es.len() - 1])
    }
}

/// [`expr_ok`] for the domain of a quantifier.
pub open spec fn domain_ok(src: Seq<char>, d: QuantifierDomain<()>) -> bool
    decreases d,
{
    match d {
        QuantifierDomain::Range { start, end, span } => span_at(src, span) && expr_ok(src, *start)
            && expr_ok(src, *end),
        QuantifierDomain::Expr(x) => expr_ok(src, *x),
    }
}

/// [`expr_ok`] for statements: every node stands at a span of the source and every name and
/// literal is spelled there as the source spells it.
pub open spec fn stmt_ok(src: Seq<char>, s: Statement<()>) -> bool
    decreases s,
{
    match s {
        Statement::Scoped { statement, span, .. } => span_at(src, span) && stmt_ok(src, *statement),
        Statement::Block(b) => block_ok(src, b),
        Statement::Require { expression, span } => span_at(src, span) && expr_ok(src, expression),
        Statement::Ensure { expression, span } => span_at(src, span) && expr_ok(src, expression),
        Statement::Let { name, value, span } => span_at(src, span) && ident_ok(src, name) && expr_ok(
            src,
            value,
        ),
        Statement::Unused { name, span } => span_at(src, span) && ident_ok(src, name),
        Statement::Return { expression, span } => span_at(src, span) && expr_ok(src, expression),
        Statement::Increases { expression, span } => span_at(src, span) && expr_ok(src, expression),
        Statement::Decreases { expression, span } => span_at(src, span) && expr_ok(src, expression),
        Statement::Step { expression, span } => span_at(src, span) && expr_ok(src, expression),
        Statement::Invariant(inv) => span_at(src, inv.span) && ident_ok(src, inv.loop_name)
            && idents_ok(src, inv.bindings@) && block_ok(src, inv.body),
        Statement::Predicate(p) => predicate_ok(src, p),
        Statement::Empty { span } => span_at(src, span),
    }
}

/// [`stmt_ok`] for each of a list of statements.
pub open spec fn stmts_ok(src: Seq<char>, ss: Seq<Statement<()>>) -> bool
    decreases ss,
{
    if ss.len() == 0 {
        true
    } else {
        stmts_ok(src, ss.subrange(0, ss.len() - 1)) && stmt_ok(src, ss[ss.len() - 1])
    }
}

/// [`stmt_ok`] for blocks.
pub open spec fn block_ok(src: Seq<char>, b: Block<()>) -> bool
    decreases b,
{
    span_at(src, b.span) && stmts_ok(src, b.statements@)
}

/// [`stmt_ok`] for predicate declarations.
pub open spec fn predicate_ok(src: Seq<char>, p: PredicateDecl<()>) -> bool
    decreases p,
{
    span_at(src, p.span) && ident_ok(src, p.name) && idents_ok(src, p.params@) && block_ok(src, p.body)
}

/// [`stmt_ok`] for a top-level item.
pub open spec fn item_ok(src: Seq<char>, item: Item<()>) -> bool {
    match item {
        Item::Contract(c) => span_at(src, c.span) && ident_ok(src, c.target) && block_ok(src, c.body),
        Item::Predicate(p) => predicate_ok(src, p),
    }
}

/// [`stmt_ok`] for a document.
pub open spec fn document_ok(src: Seq<char>, d: Document<()>) -> bool {
    span_at(src, d.span) && forall|k: int| 0 <= k < d.items@.len() ==> #[trigger] item_ok(src, d.items@[k])
}

/// The words that cannot name a symbol unless written between backquotes: those that start a
/// declaration, a statement or an expression form. `compute`, `witness`, `constrain`, `for`,
/// `in`, `step`, `increases` and `decreases` stand only where no name can, and stay free as
/// names.
pub open spec fn is_keyword(t: Seq<char>) -> bool {
    ||| t == "contract"@
    ||| t == "predicate"@
    ||| t == "require"@
    ||| t == "ensure"@
    ||| t == "let"@
    ||| t == "unused"@
    ||| t == "return"@
    ||| t == "invariant"@
    ||| t == "forall"@
    ||| t == "exists"@
    ||| t == "len"@
    ||| t == "old"@
    ||| t == "nondet"@
    ||| t == "true"@
    ||| t == "false"@
}

/// Whether `t` is the text `w`.
fn same_text(t: &String, w: &str) -> (r: bool)
    ensures
        r == (t@ == w@),
{
    *t == w.to_owned()
}

/// Whether a name is a keyword.
fn keyword(t: &String) -> (r: bool)
    ensures
        r == is_keyword(t@),
{
    same_text(t, "contract") || same_text(t, "predicate") || same_text(t, "require") || same_text(
        t,
        "ensure",
    ) || same_text(t, "let") || same_text(t, "unused") || same_text(t, "return") || same_text(
        t,
        "invariant",
    ) || same_text(t, "forall") || same_text(t, "exists") || same_text(t, "len") || same_text(
        t,
        "old",
    ) || same_text(t, "nondet") || same_text(t, "true") || same_text(t, "false")
}

/// Why parsing stopped: what was expected, and where. `syntax` tells a syntax error from a
/// construct the language does not support.
struct ParseError {
    message: String,
    span: Span,
    syntax: bool,
}

/// The error stands at a span of the source, and is a syntax error unless a call of something
/// other than a named predicate.
spec fn err_ok(src: Seq<char>, e: ParseError) -> bool {
    span_at(src, e.span) && (e.syntax || e.message@ == "only named predicate calls are supported in phase 1"@)
}

/// Reads a list of tokens.
struct Parser<'a> {
    toks: &'a Vec<Token>,
    /// The empty span at the end of the source.
    eof: Span,
    src: Ghost<Seq<char>>,
}

impl<'a> Parser<'a> {
    /// The tokens are those of the source, and `eof` stands at its end.
    spec fn wf(&self) -> bool {
        &&& tokens_ok(self.src@, self.toks@)
        &&& span_at(self.src@, self.eof)
        &&& self.eof.start == self.src@.len()
        &&& self.n() < usize::MAX
    }

    /// The tokens as plain values.
    spec fn tv(&self) -> Seq<TokenView> {
        token_views(self.toks@)
    }

    /// An expression `e` of level `lvl` can be read from tokens `pos..q`, and the token after
    /// it does not continue it.
    spec fn can_read(&self, pos: int, q: int, e: Expression<()>, lvl: int) -> bool {
        expr_at(self.tv(), pos, q, e, lvl) && !continues(self.tv(), q, lvl)
    }

    /// `e`, read from tokens `pos..q`, is an expression of level `lvl`; the token after it does
    /// not continue it at that level; and it is a plain name exactly when its tokens are a
    /// callee.
    spec fn read_expr(&self, pos: int, q: int, e: Expression<()>, lvl: int) -> bool {
        &&& expr_at(self.tv(), pos, q, e, lvl)
        &&& !continues(self.tv(), q, lvl)
        &&& (e is Symbol <==> callee_at(self.tv(), pos, q))
    }

    /// The number of tokens.
    spec fn n(&self) -> int {
        self.toks@.len() as int
    }

    /// The error `message` at token `pos`, or at the end of the source.
    fn err_at(&self, pos: usize, message: &str) -> (r: ParseError)
        requires
            self.wf(),
        ensures
            span_at(self.src@, r.span),
            r.syntax,
    {
        if pos < self.toks.len() {
            let mut m = message.to_owned();
            m.append(", found `");
            m.append(self.toks[pos].text.as_str());
            m.append("`");
            proof {
                assert(token_ok(self.src@, self.toks@[pos as int]));
            }
            ParseError { message: m, span: self.toks[pos].span, syntax: true }
        } else {
            let mut m = message.to_owned();
            m.append(", found end of input");
            ParseError { message: m, span: self.eof, syntax: true }
        }
    }

    /// Whether token `pos` is the punctuation `p`.
    fn at_punct(&self, pos: usize, p: Punct) -> (r: bool)
        ensures
            r == is_punct(self.tv(), pos as int, p),
    {
        pos < self.toks.len() && self.toks[pos].kind == TokenKind::Punct(p)
    }

    /// Whether token `pos` is the word `w`.
    fn at_word(&self, pos: usize, w: &str) -> (r: bool)
        ensures
            r == is_word(self.tv(), pos as int, w@),
    {
        pos < self.toks.len() && self.toks[pos].kind == TokenKind::Ident && same_text(
            &self.toks[pos].text,
            w,
        )
    }

    /// Reads the punctuation `p` at `pos`.
    fn expect_punct(&self, pos: usize, p: Punct, message: &str) -> (r: Result<usize, ParseError>)
        requires
            self.wf(),
        ensures
            match r {
                Ok(q) => q == pos + 1 && q <= self.n() && is_punct(self.tv(), pos as int, p),
                Err(e) => err_ok(self.src@, e) && !is_punct(self.tv(), pos as int, p),
            },
    {
        if self.at_punct(pos, p) {
            assert(pos < self.toks.len());
            Ok(pos + 1)
        } else {
            Err(self.err_at(pos, message))
        }
    }

    /// Reads the word `w` at `pos`.
    fn expect_word(&self, pos: usize, w: &str, message: &str) -> (r: Result<usize, ParseError>)
        requires
            self.wf(),
        ensures
            match r {
                Ok(q) => q == pos + 1 && q <= self.n() && is_word(self.tv(), pos as int, w@),
                Err(e) => err_ok(self.src@, e) && !is_word(self.tv(), pos as int, w@),
            },
    {
        if self.at_word(pos, w) {
            assert(pos < self.toks.len());
            Ok(pos + 1)
        } else {
            Err(self.err_at(pos, message))
        }
    }

    /// The span from the start of token `a` to the end of token `b - 1`.
    fn span_between(&self, a: usize, b: usize) -> (r: Span)
        requires
            self.wf(),
            a < b <= self.n(),
        ensures
            span_at(self.src@, r),
            r == span_of(self.tv(), a as int, b as int),
    {
        proof {
            assert(token_ok(self.src@, self.toks@[a as int]));
            assert(token_ok(self.src@, self.toks@[b - 1]));
            if a < b - 1 {
                assert(self.toks@[a as int].span.end <= self.toks@[b - 1].span.start);
            }
        }
        Span {
            start: self.toks[a].span.start,
            end: self.toks[b - 1].span.end,
            line: self.toks[a].span.line,
            column: self.toks[a].span.column,
        }
    }

    /// Reads a name at `pos`: a word that is not a keyword, or a name between backquotes.
    fn name(&self, pos: usize) -> (r: Result<Identifier<()>, ParseError>)
        requires
            self.wf(),
        ensures
            match r {
                Ok(id) => pos < self.n() && ident_ok(self.src@, id) && name_at(self.tv(), pos as int, id),
                Err(e) => err_ok(self.src@, e),
            },
            forall|id: Identifier<()>| #[trigger] name_at(self.tv(), pos as int, id) ==> r is Ok,
    {
        if pos < self.toks.len() {
            let t = &self.toks[pos];
            proof {
                assert(token_ok(self.src@, self.toks@[pos as int]));
            }
            if (t.kind == TokenKind::Ident && !keyword(&t.text)) || t.kind == TokenKind::Escaped {
                return Ok(Identifier::new(Symbol { name: t.text.clone() }, t.span));
            }
        }
        Err(self.err_at(pos, "expected a name"))
    }
}

/// A well-formed expression stands at its span.
proof fn lemma_expr_span(src: Seq<char>, e: Expression<()>)
    requires
        expr_ok(src, e),
    ensures
        span_at(src, e.spec_span()),
{
}

/// [`exprs_ok`] of a list with one more expression.
proof fn lemma_exprs_push(src: Seq<char>, es: Seq<Expression<()>>, x: Expression<()>)
    ensures
        exprs_ok(src, es.push(x)) == (exprs_ok(src, es) && expr_ok(src, x)),
{
    assert(es.push(x).subrange(0, es.len() as int) =~= es);
}

/// The number a digit string denotes, if it fits in a `usize`.
fn digits_value(t: &String) -> (r: Option<usize>)
    requires
        all_digits(t@),
    ensures
        match r {
            Some(v) => v as nat == decimal_value(t@),
            None => decimal_value(t@) > usize::MAX,
        },
{
    let cs = crate::text::chars_of(t.as_str());
    let mut v: usize = 0;
    let mut i: usize = 0;
    assert(cs@.subrange(0, 0) =~= Seq::<char>::empty());
    while i < cs.len()
        invariant
            i <= cs@.len(),
            cs@ == t@,
            all_digits(t@),
            v as nat == decimal_value(cs@.subrange(0, i as int)),
        decreases cs@.len() - i,
    {
        let d = cs[i];
        proof {
            let sub = cs@.subrange(0, i + 1);
            assert(sub.drop_last() =~= cs@.subrange(0, i as int));
            assert(sub.last() == d);
            assert('0' <= cs@[i as int] <= '9');
        }
        let dv = (d as u32 - '0' as u32) as usize;
        match v.checked_mul(10) {
            Some(m) => match m.checked_add(dv) {
                Some(w) => {
                    v = w;
                },
                None => {
                    proof {
                        lemma_decimal_prefix(cs@, i + 1);
                    }
                    return None;
                },
            },
            None => {
                proof {
                    lemma_decimal_prefix(cs@, i + 1);
                }
                return None;
            },
        }
        i = i + 1;
    }
    assert(cs@.subrange(0, cs@.len() as int) =~= cs@);
    Some(v)
}

/// A digit string denotes at least what any of its prefixes denotes.
proof fn lemma_decimal_prefix(s: Seq<char>, k: int)
    requires
        0 <= k <= s.len(),
        all_digits(s),
    ensures
        decimal_value(s.subrange(0, k)) <= decimal_value(s),
    decreases s.len() - k,
{
    if k < s.len() {
        lemma_decimal_prefix(s, k + 1);
        let sub = s.subrange(0, k + 1);
        assert(sub.drop_last() =~= s.subrange(0, k));
        assert(sub.last() == s[k]);
        assert('0' <= s[k] <= '9');
    } else {
        assert(s.subrange(0, k) =~= s);
    }
}

impl<'a> Parser<'a> {
    /// The binary operator of precedence level `level` (1: `||`, loosest; 6: `*` `/` `%` `&`)
    /// that token `pos` is, if any.
    fn binary_op(&self, pos: usize, level: u8) -> (r: Option<BinaryOp>)
        requires
            1 <= level <= 6,
        ensures
            match r {
                Some(op) => is_punct(self.tv(), pos as int, binary_punct(op)) && binary_level(op)
                    == level && op != BinaryOp::Pow,
                None => !is_level_op(self.tv(), pos as int, level as int),
            },
    {
        if pos >= self.toks.len() {
            return None;
        }
        match self.toks[pos].kind {
            TokenKind::Punct(p) => {
                if level == 1 {
                    if p == Punct::PipePipe {
                        Some(BinaryOp::Or)
                    } else {
                        None
                    }
                } else if level == 2 {
                    if p == Punct::AmpAmp {
                        Some(BinaryOp::And)
                    } else {
                        None
                    }
                } else if level == 3 {
                    if p == Punct::EqEq {
                        Some(BinaryOp::Eq)
                    } else if p == Punct::NotEq {
                        Some(BinaryOp::Ne)
                    } else {
                        None
                    }
                } else if level == 4 {
                    if p == Punct::Lt {
                        Some(BinaryOp::Lt)
                    } else if p == Punct::Le {
                        Some(BinaryOp::Le)
                    } else if p == Punct::Gt {
                        Some(BinaryOp::Gt)
                    } else if p == Punct::Ge {
                        Some(BinaryOp::Ge)
                    } else {
                        None
                    }
                } else if level == 5 {
                    if p == Punct::Plus {
                        Some(BinaryOp::Add)
                    } else if p == Punct::Minus {
                        Some(BinaryOp::Sub)
                    } else {
                        None
                    }
                } else {
                    if p == Punct::Star {
                        Some(BinaryOp::Mul)
                    } else if p == Punct::Slash {
                        Some(BinaryOp::Div)
                    } else if p == Punct::Percent {
                        Some(BinaryOp::Mod)
                    } else if p == Punct::Amp {
                        Some(BinaryOp::BitAnd)
                    } else {
                        None
                    }
                }
            },
            _ => None,
        }
    }

    /// Reads an expression at `pos`.
    fn expression(&self, pos: usize) -> (r: Result<(Expression<()>, usize), ParseError>)
        requires
            self.wf(),
            pos <= self.n(),
        ensures
            match r {
                Ok((e, q)) => pos < q <= self.n() && expr_ok(self.src@, e) && self.read_expr(
                    pos as int,
                    q as int,
                    e,
                    0,
                ),
                Err(err) => err_ok(self.src@, err),
            },
            forall|e2: Expression<()>, q2: int|
                #[trigger] self.can_read(pos as int, q2, e2, 0) ==> (r matches Ok((_, q3)) && q3 == q2),
        decreases self.n() - pos, 30int,
    {
        let ghost ts = self.tv();
        let (cond, p) = match self.binary(pos, 1) {
            Ok(x) => x,
            Err(err) => {
                proof {
                    assert forall|e2: Expression<()>, q2: int|
                        #[trigger] self.can_read(pos as int, q2, e2, 0) implies false by {
                        let mk = lemma_read_cond(ts, pos as int, q2, e2);
                        if expr_at(ts, pos as int, q2, e2, 1) {
                            assert(self.can_read(pos as int, q2, e2, 1));
                        } else {
                            assert(self.can_read(pos as int, mk.0, *e2->condition, 1));
                        }
                    }
                }
                return Err(err);
            },
        };
        if self.at_punct(p, Punct::Question) {
            proof {
                assert forall|e2: Expression<()>, q2: int| #[trigger]
                    self.can_read(pos as int, q2, e2, 0) implies cond_parts(
                    ts,
                    pos as int,
                    q2,
                    e2,
                    p as int,
                    choose|k: int| cond_parts(ts, pos as int, q2, e2, p as int, k),
                ) by {
                    let mk = lemma_read_cond(ts, pos as int, q2, e2);
                    if expr_at(ts, pos as int, q2, e2, 1) {
                        assert(self.can_read(pos as int, q2, e2, 1));
                    } else {
                        assert(self.can_read(pos as int, mk.0, *e2->condition, 1));
                        assert(cond_parts(ts, pos as int, q2, e2, p as int, mk.1));
                    }
                }
            }
            let (t, p2) = match self.expression(p + 1) {
                Ok(x) => x,
                Err(err) => {
                    proof {
                        assert forall|e2: Expression<()>, q2: int|
                            #[trigger] self.can_read(pos as int, q2, e2, 0) implies false by {
                            let k = choose|k: int| cond_parts(ts, pos as int, q2, e2, p as int, k);
                            assert(self.can_read(p + 1, k, *e2->then_branch, 0));
                        }
                    }
                    return Err(err);
                },
            };
            proof {
                assert forall|e2: Expression<()>, q2: int| #[trigger]
                    self.can_read(pos as int, q2, e2, 0) implies cond_parts(
                    ts,
                    pos as int,
                    q2,
                    e2,
                    p as int,
                    p2 as int,
                ) by {
                    let k = choose|k: int| cond_parts(ts, pos as int, q2, e2, p as int, k);
                    assert(self.can_read(p + 1, k, *e2->then_branch, 0));
                }
            }
            let p3 = match self.expect_punct(p2, Punct::Colon, "expected `:`") {
                Ok(x) => x,
                Err(err) => {
                    proof {
                        assert forall|e2: Expression<()>, q2: int|
                            #[trigger] self.can_read(pos as int, q2, e2, 0) implies false by {
                            assert(cond_parts(ts, pos as int, q2, e2, p as int, p2 as int));
                        }
                    }
                    return Err(err);
                },
            };
            let (f, p4) = match self.expression(p3) {
                Ok(x) => x,
                Err(err) => {
                    proof {
                        assert forall|e2: Expression<()>, q2: int|
                            #[trigger] self.can_read(pos as int, q2, e2, 0) implies false by {
                            assert(cond_parts(ts, pos as int, q2, e2, p as int, p2 as int));
                            assert(self.can_read(p3 as int, q2, *e2->else_branch, 0));
                        }
                    }
                    return Err(err);
                },
            };
            let span = self.span_between(pos, p4);
            let e = Expression::Conditional {
                condition: Box::new(cond),
                then_branch: Box::new(t),
                else_branch: Box::new(f),
                span,
                meta: (),
            };
            proof {
                assert(expr_form(self.tv(), pos as int, p4 as int, e, 0));
                if callee_at(self.tv(), pos as int, p4 as int) {
                    lemma_callee_tokens(self.tv(), pos as int, p4 as int, p as int);
                }
                assert forall|e2: Expression<()>, q2: int|
                    #[trigger] self.can_read(pos as int, q2, e2, 0) implies q2 == p4 by {
                    assert(cond_parts(ts, pos as int, q2, e2, p as int, p2 as int));
                    assert(self.can_read(p3 as int, q2, *e2->else_branch, 0));
                }
            }
            Ok((e, p4))
        } else {
            proof {
                assert forall|e2: Expression<()>, q2: int|
                    #[trigger] self.can_read(pos as int, q2, e2, 0) implies q2 == p by {
                    let mk = lemma_read_cond(ts, pos as int, q2, e2);
                    if expr_at(ts, pos as int, q2, e2, 1) {
                        assert(self.can_read(pos as int, q2, e2, 1));
                    } else {
                        assert(self.can_read(pos as int, mk.0, *e2->condition, 1));
                    }
                }
            }
            Ok((cond, p))
        }
    }

    /// Reads the operand of a binary operator of level `level - 1` at `pos`.
    fn operand(&self, pos: usize, level: u8) -> (r: Result<(Expression<()>, usize), ParseError>)
        requires
            self.wf(),
            pos <= self.n(),
            1 <= level <= 6,
        ensures
            match r {
                Ok((e, q)) => pos < q <= self.n() && expr_ok(self.src@, e) && self.read_expr(
                    pos as int,
                    q as int,
                    e,
                    level + 1,
                ),
                Err(err) => err_ok(self.src@, err),
            },
            forall|e2: Expression<()>, q2: int|
                #[trigger] self.can_read(pos as int, q2, e2, level + 1) ==> (r matches Ok((_, q3)) && q3 == q2),
        decreases self.n() - pos, 29 - 2 * level,
    {
        if level < 6 {
            self.binary(pos, level + 1)
        } else {
            self.power(pos)
        }
    }

    /// Reads a chain of binary operators of level `level` at `pos`, grouping to the left.
    fn binary(&self, pos: usize, level: u8) -> (r: Result<(Expression<()>, usize), ParseError>)
        requires
            self.wf(),
            pos <= self.n(),
            1 <= level <= 6,
        ensures
            match r {
                Ok((e, q)) => pos < q <= self.n() && expr_ok(self.src@, e) && self.read_expr(
                    pos as int,
                    q as int,
                    e,
                    level as int,
                ),
                Err(err) => err_ok(self.src@, err),
            },
            forall|e2: Expression<()>, q2: int|
                #[trigger] self.can_read(pos as int, q2, e2, level as int) ==> (r matches Ok((_, q3)) && q3 == q2),
        decreases self.n() - pos, 30 - 2 * level,
    {
        let ghost ts = self.tv();
        let ghost lvl = level as int;
        let (first, p0) = match self.operand(pos, level) {
            Ok(x) => x,
            Err(err) => {
                proof {
                    assert forall|e2: Expression<()>, q2: int|
                        #[trigger] self.can_read(pos as int, q2, e2, lvl) implies false by {
                        let m0 = lemma_bin_split(ts, pos as int, q2, e2, lvl);
                        let b = choose|b: Expression<()>| #[trigger] expr_at(ts, pos as int, m0, b, lvl + 1);
                        assert(self.can_read(pos as int, m0, b, lvl + 1));
                    }
                }
                return Err(err);
            },
        };
        proof {
            assert forall|e2: Expression<()>, q2: int|
                #[trigger] self.can_read(pos as int, q2, e2, lvl) implies bin_tail(ts, p0 as int, q2, lvl) by {
                let m0 = lemma_bin_split(ts, pos as int, q2, e2, lvl);
                let b = choose|b: Expression<()>| #[trigger] expr_at(ts, pos as int, m0, b, lvl + 1);
                assert(self.can_read(pos as int, m0, b, lvl + 1));
            }
        }
        let mut e = first;
        let mut p = p0;
        loop
            invariant
                self.wf(),
                ts == self.tv(),
                lvl == level,
                pos < p <= self.n(),
                1 <= level <= 6,
                expr_ok(self.src@, e),
                expr_at(self.tv(), pos as int, p as int, e, level as int),
                !continues(self.tv(), p as int, level + 1),
                e is Symbol <==> callee_at(self.tv(), pos as int, p as int),
                forall|e2: Expression<()>, q2: int|
                    #[trigger] self.can_read(pos as int, q2, e2, lvl) ==> bin_tail(ts, p as int, q2, lvl),
            ensures
                pos < p <= self.n(),
                expr_ok(self.src@, e),
                expr_at(self.tv(), pos as int, p as int, e, level as int),
                !continues(self.tv(), p as int, level + 1),
                !is_level_op(self.tv(), p as int, level as int),
                e is Symbol <==> callee_at(self.tv(), pos as int, p as int),
                forall|e2: Expression<()>, q2: int|
                    #[trigger] self.can_read(pos as int, q2, e2, lvl) ==> bin_tail(ts, p as int, q2, lvl),
            decreases self.n() - p,
        {
            match self.binary_op(p, level) {
                Some(op) => {
                    proof {
                        assert(continues_level(binary_punct(op)) == binary_level(op));
                        assert(is_level_op(ts, p as int, lvl));
                    }
                    let (right, q) = match self.operand(p + 1, level) {
                        Ok(x) => x,
                        Err(err) => {
                            proof {
                                assert forall|e2: Expression<()>, q2: int|
                                    #[trigger] self.can_read(pos as int, q2, e2, lvl) implies false by {
                                    assert(bin_tail(ts, p as int, q2, lvl));
                                    let m = choose|m: int|
                                        p < m <= q2 && #[trigger] is_boundary(ts, m) && bin_step(ts, p as int, m, lvl)
                                            && bin_tail(ts, m, q2, lvl);
                                    let b = choose|b: Expression<()>| #[trigger] expr_at(ts, p + 1, m, b, lvl + 1);
                                    assert(self.can_read(p + 1, m, b, lvl + 1));
                                }
                            }
                            return Err(err);
                        },
                    };
                    proof {
                        assert forall|e2: Expression<()>, q2: int|
                            #[trigger] self.can_read(pos as int, q2, e2, lvl) implies bin_tail(ts, q as int, q2, lvl) by {
                            assert(bin_tail(ts, p as int, q2, lvl));
                            let m = choose|m: int|
                                p < m <= q2 && #[trigger] is_boundary(ts, m) && bin_step(ts, p as int, m, lvl)
                                    && bin_tail(ts, m, q2, lvl);
                            let b = choose|b: Expression<()>| #[trigger] expr_at(ts, p + 1, m, b, lvl + 1);
                            assert(self.can_read(p + 1, m, b, lvl + 1));
                        }
                    }
                    let span = self.span_between(pos, q);
                    let ghost left = e;
                    e = Expression::Binary { op, left: Box::new(e), right: Box::new(right), span, meta: () };
                    proof {
                        assert(expr_at(self.tv(), pos as int, p as int, left, level as int));
                        assert(expr_form(self.tv(), pos as int, q as int, e, level as int));
                        if callee_at(self.tv(), pos as int, q as int) {
                            lemma_callee_tokens(self.tv(), pos as int, q as int, p as int);
                        }
                    }
                    p = q;
                },
                None => {
                    break;
                },
            }
        }
        proof {
            assert forall|e2: Expression<()>, q2: int|
                #[trigger] self.can_read(pos as int, q2, e2, lvl) implies q2 == p by {
                assert(bin_tail(ts, p as int, q2, lvl));
            }
        }
        Ok((e, p))
    }

    /// Reads `a ** b`, or `a` alone, at `pos`.
    fn power(&self, pos: usize) -> (r: Result<(Expression<()>, usize), ParseError>)
        requires
            self.wf(),
            pos <= self.n(),
        ensures
            match r {
                Ok((e, q)) => pos < q <= self.n() && expr_ok(self.src@, e) && self.read_expr(
                    pos as int,
                    q as int,
                    e,
                    7,
                ),
                Err(err) => err_ok(self.src@, err),
            },
            forall|e2: Expression<()>, q2: int|
                #[trigger] self.can_read(pos as int, q2, e2, 7) ==> (r matches Ok((_, q3)) && q3 == q2),
        decreases self.n() - pos, 16int,
    {
        let ghost ts = self.tv();
        let (left, p) = match self.unary(pos) {
            Ok(x) => x,
            Err(err) => {
                proof {
                    assert forall|e2: Expression<()>, q2: int|
                        #[trigger] self.can_read(pos as int, q2, e2, 7) implies false by {
                        let m = lemma_read_pow(ts, pos as int, q2, e2);
                        if expr_at(ts, pos as int, q2, e2, 8) {
                            assert(self.can_read(pos as int, q2, e2, 8));
                        } else {
                            assert(self.can_read(pos as int, m, *e2->left, 8));
                        }
                    }
                }
                return Err(err);
            },
        };
        proof {
            assert forall|e2: Expression<()>, q2: int| #[trigger] self.can_read(pos as int, q2, e2, 7) implies (
            q2 == p && expr_at(ts, pos as int, q2, e2, 8)) || pow_parts(ts, pos as int, q2, e2, p as int) by {
                let m = lemma_read_pow(ts, pos as int, q2, e2);
                if expr_at(ts, pos as int, q2, e2, 8) {
                    assert(self.can_read(pos as int, q2, e2, 8));
                } else {
                    assert(self.can_read(pos as int, m, *e2->left, 8));
                }
            }
        }
        if self.at_punct(p, Punct::StarStar) {
            let (right, q) = match self.unary(p + 1) {
                Ok(x) => x,
                Err(err) => {
                    proof {
                        assert forall|e2: Expression<()>, q2: int|
                            #[trigger] self.can_read(pos as int, q2, e2, 7) implies false by {
                            assert(pow_parts(ts, pos as int, q2, e2, p as int));
                            assert(self.can_read(p + 1, q2, *e2->right, 8));
                        }
                    }
                    return Err(err);
                },
            };
            proof {
                assert forall|e2: Expression<()>, q2: int|
                    #[trigger] self.can_read(pos as int, q2, e2, 7) implies q2 == q by {
                    assert(pow_parts(ts, pos as int, q2, e2, p as int));
                    assert(self.can_read(p + 1, q2, *e2->right, 8));
                }
            }
            if self.at_punct(q, Punct::StarStar) {
                return Err(self.err_at(q, "`**` does not chain; use parentheses"));
            }
            let span = self.span_between(pos, q);
            let e = Expression::Binary {
                op: BinaryOp::Pow,
                left: Box::new(left),
                right: Box::new(right),
                span,
                meta: (),
            };
            proof {
                assert(expr_form(self.tv(), pos as int, q as int, e, 7));
                if callee_at(self.tv(), pos as int, q as int) {
                    lemma_callee_tokens(self.tv(), pos as int, q as int, p as int);
                }
            }
            Ok((e, q))
        } else {
            Ok((left, p))
        }
    }

    /// Reads prefix `!` and `-` operators and their operand at `pos`.
    fn unary(&self, pos: usize) -> (r: Result<(Expression<()>, usize), ParseError>)
        requires
            self.wf(),
            pos <= self.n(),
        ensures
            match r {
                Ok((e, q)) => pos < q <= self.n() && expr_ok(self.src@, e) && self.read_expr(
                    pos as int,
                    q as int,
                    e,
                    8,
                ),
                Err(err) => err_ok(self.src@, err),
            },
            forall|e2: Expression<()>, q2: int|
                #[trigger] self.can_read(pos as int, q2, e2, 8) ==> (r matches Ok((_, q3)) && q3 == q2),
        decreases self.n() - pos, 15int,
    {
        let op = if self.at_punct(pos, Punct::Bang) {
            Some(UnaryOp::Not)
        } else if self.at_punct(pos, Punct::Minus) {
            Some(UnaryOp::Neg)
        } else {
            None
        };
        let ghost ts = self.tv();
        match op {
            Some(op) => {
                proof {
                    assert forall|e2: Expression<()>, q2: int| #[trigger]
                        self.can_read(pos as int, q2, e2, 8) implies unary_parts(ts, pos as int, q2, e2) by {
                        lemma_read_unary(ts, pos as int, q2, e2);
                        if expr_at(ts, pos as int, q2, e2, 9) {
                            lemma_expr_start(ts, pos as int, q2, e2, 9);
                        }
                    }
                }
                let (inner, q) = match self.unary(pos + 1) {
                    Ok(x) => x,
                    Err(err) => {
                        proof {
                            assert forall|e2: Expression<()>, q2: int|
                                #[trigger] self.can_read(pos as int, q2, e2, 8) implies false by {
                                assert(unary_parts(ts, pos as int, q2, e2));
                                assert(self.can_read(pos + 1, q2, *e2->expr, 8));
                            }
                        }
                        return Err(err);
                    },
                };
                proof {
                    assert forall|e2: Expression<()>, q2: int|
                        #[trigger] self.can_read(pos as int, q2, e2, 8) implies q2 == q by {
                        assert(unary_parts(ts, pos as int, q2, e2));
                        assert(self.can_read(pos + 1, q2, *e2->expr, 8));
                    }
                }
                let span = self.span_between(pos, q);
                let e = Expression::Unary { op, expr: Box::new(inner), span, meta: () };
                proof {
                    assert(expr_form(self.tv(), pos as int, q as int, e, 8));
                }
                Ok((e, q))
            },
            None => {
                proof {
                    assert forall|e2: Expression<()>, q2: int| #[trigger]
                        self.can_read(pos as int, q2, e2, 8) implies self.can_read(pos as int, q2, e2, 9) by {
                        lemma_read_unary(ts, pos as int, q2, e2);
                    }
                }
                self.postfix(pos)
            },
        }
    }

    /// Reads an operand and its indexing, call and member suffixes at `pos`.
    fn postfix(&self, pos: usize) -> (r: Result<(Expression<()>, usize), ParseError>)
        requires
            self.wf(),
            pos <= self.n(),
        ensures
            match r {
                Ok((e, q)) => pos < q <= self.n() && expr_ok(self.src@, e) && self.read_expr(
                    pos as int,
                    q as int,
                    e,
                    9,
                ),
                Err(err) => err_ok(self.src@, err),
            },
            forall|e2: Expression<()>, q2: int|
                #[trigger] self.can_read(pos as int, q2, e2, 9) ==> (r matches Ok((_, q3)) && q3 == q2),
        decreases self.n() - pos, 14int,
    {
        let ghost ts = self.tv();
        let (base, p0) = match self.primary(pos) {
            Ok(x) => x,
            Err(err) => {
                proof {
                    assert forall|e2: Expression<()>, q2: int|
                        #[trigger] self.can_read(pos as int, q2, e2, 9) implies false by {
                        let m0 = lemma_post_split(ts, pos as int, q2, e2);
                        let b = choose|b: Expression<()>| #[trigger] expr_at(ts, pos as int, m0, b, 10);
                        assert(self.can_read(pos as int, m0, b, 10));
                    }
                }
                return Err(err);
            },
        };
        proof {
            assert forall|e2: Expression<()>, q2: int|
                #[trigger] self.can_read(pos as int, q2, e2, 9) implies post_tail(ts, pos as int, p0 as int, q2) by {
                let m0 = lemma_post_split(ts, pos as int, q2, e2);
                let b = choose|b: Expression<()>| #[trigger] expr_at(ts, pos as int, m0, b, 10);
                assert(self.can_read(pos as int, m0, b, 10));
            }
        }
        let mut e = base;
        let mut p = p0;
        loop
            invariant
                self.wf(),
                ts == self.tv(),
                pos < p <= self.n(),
                expr_ok(self.src@, e),
                expr_at(self.tv(), pos as int, p as int, e, 9),
                e is Symbol <==> callee_at(self.tv(), pos as int, p as int),
                forall|e2: Expression<()>, q2: int|
                    #[trigger] self.can_read(pos as int, q2, e2, 9) ==> post_tail(ts, pos as int, p as int, q2),
            ensures
                pos < p <= self.n(),
                expr_ok(self.src@, e),
                expr_at(self.tv(), pos as int, p as int, e, 9),
                !continues(self.tv(), p as int, 9),
                e is Symbol <==> callee_at(self.tv(), pos as int, p as int),
                forall|e2: Expression<()>, q2: int|
                    #[trigger] self.can_read(pos as int, q2, e2, 9) ==> q2 == p,
            decreases self.n() - p,
        {
            let ghost prev = e;
            let ghost pp = p as int;
            if self.at_punct(p, Punct::LBracket) {
                proof {
                    assert forall|e2: Expression<()>, q2: int| #[trigger]
                        self.can_read(pos as int, q2, e2, 9) implies exists|m: int|
                        pp < m <= q2 && #[trigger] is_boundary(ts, m) && post_step(ts, pos as int, pp, m)
                            && post_tail(ts, pos as int, m, q2) by {
                        assert(post_tail(ts, pos as int, pp, q2));
                    }
                }
                let (index, q) = match self.expression(p + 1) {
                    Ok(x) => x,
                    Err(err) => {
                        proof {
                            assert forall|e2: Expression<()>, q2: int|
                                #[trigger] self.can_read(pos as int, q2, e2, 9) implies false by {
                                let m = choose|m: int|
                                    pp < m <= q2 && #[trigger] is_boundary(ts, m) && post_step(ts, pos as int, pp, m)
                                        && post_tail(ts, pos as int, m, q2);
                                let x = choose|x: Expression<()>| #[trigger] expr_at(ts, pp + 1, m - 1, x, 0);
                                assert(self.can_read(pp + 1, m - 1, x, 0));
                            }
                        }
                        return Err(err);
                    },
                };
                proof {
                    assert forall|e2: Expression<()>, q2: int| #[trigger]
                        self.can_read(pos as int, q2, e2, 9) implies is_punct(ts, q as int, Punct::RBracket)
                        && post_tail(ts, pos as int, q + 1, q2) by {
                        let m = choose|m: int|
                            pp < m <= q2 && #[trigger] is_boundary(ts, m) && post_step(ts, pos as int, pp, m)
                                && post_tail(ts, pos as int, m, q2);
                        let x = choose|x: Expression<()>| #[trigger] expr_at(ts, pp + 1, m - 1, x, 0);
                        assert(self.can_read(pp + 1, m - 1, x, 0));
                    }
                }
                let q2 = match self.expect_punct(q, Punct::RBracket, "expected `]`") {
                    Ok(x) => x,
                    Err(err) => {
                        return Err(err);
                    },
                };
                let span = self.span_between(pos, q2);
                e = Expression::Index { target: Box::new(e), index: Box::new(index), span, meta: () };
                proof {
                    assert(expr_at(self.tv(), pos as int, p as int, prev, 9));
                    assert(expr_form(self.tv(), pos as int, q2 as int, e, 9));
                }
                p = q2;
            } else if self.at_punct(p, Punct::LParen) {
                proof {
                    assert forall|e2: Expression<()>, q2: int| #[trigger]
                        self.can_read(pos as int, q2, e2, 9) implies exists|m: int|
                        pp < m <= q2 && #[trigger] is_boundary(ts, m) && post_step(ts, pos as int, pp, m)
                            && post_tail(ts, pos as int, m, q2) by {
                        assert(post_tail(ts, pos as int, pp, q2));
                    }
                }
                let (args, q) = match self.call_args(p + 1) {
                    Ok(x) => x,
                    Err(err) => {
                        proof {
                            assert forall|e2: Expression<()>, q2: int|
                                #[trigger] self.can_read(pos as int, q2, e2, 9) implies false by {
                                let m = choose|m: int|
                                    pp < m <= q2 && #[trigger] is_boundary(ts, m) && post_step(ts, pos as int, pp, m)
                                        && post_tail(ts, pos as int, m, q2);
                                let es = choose|es: Seq<Expression<()>>| #[trigger] args_at(ts, pp + 1, m, es);
                                assert(args_at(ts, pp + 1, m, es));
                            }
                        }
                        return Err(err);
                    },
                };
                proof {
                    assert forall|e2: Expression<()>, q2: int| #[trigger]
                        self.can_read(pos as int, q2, e2, 9) implies callee_at(ts, pos as int, pp) && post_tail(
                        ts,
                        pos as int,
                        q as int,
                        q2,
                    ) by {
                        let m = choose|m: int|
                            pp < m <= q2 && #[trigger] is_boundary(ts, m) && post_step(ts, pos as int, pp, m)
                                && post_tail(ts, pos as int, m, q2);
                        let es = choose|es: Seq<Expression<()>>| #[trigger] args_at(ts, pp + 1, m, es);
                        assert(args_at(ts, pp + 1, m, es));
                    }
                }
                let span = self.span_between(pos, q);
                e = match e {
                    Expression::Symbol(callee) => {
                        let c = Expression::Call { callee, args, span, meta: () };
                        proof {
                            assert(expr_at(self.tv(), pos as int, p as int, Expression::Symbol(callee), 9));
                            assert(expr_form(self.tv(), pos as int, q as int, c, 9));
                            if callee_at(self.tv(), pos as int, q as int) {
                                lemma_callee_end(self.tv(), pos as int, p as int, q as int);
                            }
                        }
                        c
                    },
                    other => {
                        proof {
                            lemma_expr_span(self.src@, other);
                        }
                        let m = "only named predicate calls are supported in phase 1".to_owned();
                        return Err(ParseError { message: m, span: other.span(), syntax: false });
                    },
                };
                p = q;
            } else if self.at_punct(p, Punct::Dot) {
                proof {
                    assert forall|e2: Expression<()>, q2: int| #[trigger]
                        self.can_read(pos as int, q2, e2, 9) implies post_tail(ts, pos as int, pp + 2, q2)
                        && exists|id: Identifier<()>| #[trigger] name_at(ts, pp + 1, id) by {
                        assert(post_tail(ts, pos as int, pp, q2));
                        let m = choose|m: int|
                            pp < m <= q2 && #[trigger] is_boundary(ts, m) && post_step(ts, pos as int, pp, m)
                                && post_tail(ts, pos as int, m, q2);
                    }
                }
                let member = match self.name(p + 1) {
                    Ok(x) => x,
                    Err(err) => {
                        proof {
                            assert forall|e2: Expression<()>, q2: int|
                                #[trigger] self.can_read(pos as int, q2, e2, 9) implies false by {
                                let id = choose|id: Identifier<()>| #[trigger] name_at(ts, pp + 1, id);
                                assert(name_at(ts, pp + 1, id));
                            }
                        }
                        return Err(err);
                    },
                };
                let span = self.span_between(pos, p + 2);
                e = Expression::Member { target: Box::new(e), member, span, meta: () };
                proof {
                    assert(expr_form(self.tv(), pos as int, p + 2, e, 9));
                }
                p = p + 2;
            } else {
                proof {
                    assert forall|e2: Expression<()>, q2: int|
                        #[trigger] self.can_read(pos as int, q2, e2, 9) implies q2 == pp by {
                        assert(post_tail(ts, pos as int, pp, q2));
                    }
                }
                break;
            }
        }
        Ok((e, p))
    }

    /// Reads the arguments of a call at `pos`, just past the opening parenthesis, and the
    /// closing parenthesis.
    fn call_args(&self, pos: usize) -> (r: Result<(Vec<Expression<()>>, usize), ParseError>)
        requires
            self.wf(),
            pos <= self.n(),
        ensures
            match r {
                Ok((args, q)) => pos < q <= self.n() && exprs_ok(self.src@, args@) && args_at(
                    self.tv(),
                    pos as int,
                    q as int,
                    args@,
                ),
                Err(err) => err_ok(self.src@, err),
            },
            forall|es: Seq<Expression<()>>, q2: int|
                #[trigger] args_at(self.tv(), pos as int, q2, es) ==> (r matches Ok((_, q3)) && q3 == q2),
        decreases self.n() - pos, 40int,
    {
        let ghost ts = self.tv();
        let mut args: Vec<Expression<()>> = Vec::new();
        if self.at_punct(pos, Punct::RParen) {
            proof {
                assert(args_at(self.tv(), pos as int, pos + 1, args@));
                assert forall|es: Seq<Expression<()>>, q2: int|
                    #[trigger] args_at(ts, pos as int, q2, es) implies q2 == pos + 1 by {
                    if es.len() > 0 {
                        lemma_list_seq(ts, pos as int, q2 - 1, es);
                        let m = choose|m: int|
                            pos < m <= q2 - 1 && #[trigger] is_boundary(ts, m) && (exists|x: Expression<()>|
                                #[trigger] expr_at(ts, pos as int, m, x, 0)) && (m == q2 - 1 || (is_punct(
                                ts,
                                m,
                                Punct::Comma,
                            ) && seq_tail(ts, m + 1, q2 - 1)));
                        let x = choose|x: Expression<()>| #[trigger] expr_at(ts, pos as int, m, x, 0);
                        lemma_expr_start(ts, pos as int, m, x, 0);
                    }
                }
            }
            return Ok((args, pos + 1));
        }
        proof {
            assert forall|es: Seq<Expression<()>>, q2: int| #[trigger]
                args_at(ts, pos as int, q2, es) implies seq_tail(ts, pos as int, q2 - 1) && is_punct(
                ts,
                q2 - 1,
                Punct::RParen,
            ) by {
                if es.len() > 0 {
                    lemma_list_seq(ts, pos as int, q2 - 1, es);
                }
            }
        }
        let mut p = pos;
        loop
            invariant
                self.wf(),
                ts == self.tv(),
                pos <= p <= self.n(),
                exprs_ok(self.src@, args@),
                args@.len() == 0 ==> p == pos,
                args@.len() > 0 ==> pos < p && is_punct(self.tv(), p - 1, Punct::Comma) && list_at(
                    self.tv(),
                    pos as int,
                    p - 1,
                    args@,
                ),
                forall|es: Seq<Expression<()>>, q2: int| #[trigger]
                    args_at(ts, pos as int, q2, es) ==> seq_tail(ts, p as int, q2 - 1) && is_punct(
                    ts,
                    q2 - 1,
                    Punct::RParen,
                ),
            decreases self.n() - p,
        {
            let ghost pp = p as int;
            let (a, q) = match self.expression(p) {
                Ok(x) => x,
                Err(err) => {
                    proof {
                        assert forall|es: Seq<Expression<()>>, q2: int|
                            #[trigger] args_at(ts, pos as int, q2, es) implies false by {
                            let m = choose|m: int|
                                pp < m <= q2 - 1 && #[trigger] is_boundary(ts, m) && (exists|x: Expression<()>|
                                    #[trigger] expr_at(ts, pp, m, x, 0)) && (m == q2 - 1 || (is_punct(
                                    ts,
                                    m,
                                    Punct::Comma,
                                ) && seq_tail(ts, m + 1, q2 - 1)));
                            let x = choose|x: Expression<()>| #[trigger] expr_at(ts, pp, m, x, 0);
                            assert(self.can_read(pp, m, x, 0));
                        }
                    }
                    return Err(err);
                },
            };
            proof {
                assert forall|es: Seq<Expression<()>>, q2: int| #[trigger]
                    args_at(ts, pos as int, q2, es) implies (q == q2 - 1 || (is_punct(ts, q as int, Punct::Comma)
                    && seq_tail(ts, q + 1, q2 - 1))) by {
                    let m = choose|m: int|
                        pp < m <= q2 - 1 && #[trigger] is_boundary(ts, m) && (exists|x: Expression<()>|
                            #[trigger] expr_at(ts, pp, m, x, 0)) && (m == q2 - 1 || (is_punct(
                            ts,
                            m,
                            Punct::Comma,
                        ) && seq_tail(ts, m + 1, q2 - 1)));
                    let x = choose|x: Expression<()>| #[trigger] expr_at(ts, pp, m, x, 0);
                    assert(self.can_read(pp, m, x, 0));
                }
            }
            proof {
                lemma_exprs_push(self.src@, args@, a);
                let more = args@.push(a);
                assert(more.drop_last() =~= args@);
                assert(more.last() == a);
                if args@.len() > 0 {
                    assert(list_at(ts, pos as int, q as int, more));
                } else {
                    assert(more[0] == a);
                    assert(list_at(ts, pos as int, q as int, more));
                }
            }
            args.push(a);
            if self.at_punct(q, Punct::Comma) {
                p = q + 1;
            } else if self.at_punct(q, Punct::RParen) {
                proof {
                    assert(args_at(self.tv(), pos as int, q + 1, args@));
                }
                return Ok((args, q + 1));
            } else {
                return Err(self.err_at(q, "expected `,` or `)`"));
            }
        }
    }

    /// Reads a primary expression at `pos`: a parenthesized expression, a quantifier, `len(..)`,
    /// `old(..)`, `nondet`, a boolean, a number, `$arg[N]`, `$res[N]` or a name.
    fn primary(&self, pos: usize) -> (r: Result<(Expression<()>, usize), ParseError>)
        requires
            self.wf(),
            pos <= self.n(),
        ensures
            match r {
                Ok((e, q)) => pos < q <= self.n() && expr_ok(self.src@, e) && self.read_expr(
                    pos as int,
                    q as int,
                    e,
                    10,
                ),
                Err(err) => err_ok(self.src@, err),
            },
            forall|e2: Expression<()>, q2: int|
                #[trigger] self.can_read(pos as int, q2, e2, 10) ==> (r matches Ok((_, q3)) && q3 == q2),
        decreases self.n() - pos, 13int,
    {
        let ghost ts = self.tv();
        proof {
            reveal_strlit("forall");
            reveal_strlit("exists");
            reveal_strlit("len");
            reveal_strlit("old");
            reveal_strlit("nondet");
            reveal_strlit("true");
            reveal_strlit("false");
            assert forall|e2: Expression<()>, q2: int| #[trigger]
                self.can_read(pos as int, q2, e2, 10) implies expr_form(ts, pos as int, q2, e2, 10) by {}
        }
        if pos >= self.toks.len() {
            return Err(self.err_at(pos, "expected an expression"));
        }
        let t = &self.toks[pos];
        proof {
            assert(token_ok(self.src@, self.toks@[pos as int]));
        }
        match t.kind {
            TokenKind::Punct(Punct::LParen) => {
                let (e, q) = match self.expression(pos + 1) {
                    Ok(x) => x,
                    Err(err) => {
                        proof {
                            assert forall|e2: Expression<()>, q2: int|
                                #[trigger] self.can_read(pos as int, q2, e2, 10) implies false by {
                                assert(self.can_read(pos + 1, q2 - 1, e2, 0));
                            }
                        }
                        return Err(err);
                    },
                };
                proof {
                    assert forall|e2: Expression<()>, q2: int|
                        #[trigger] self.can_read(pos as int, q2, e2, 10) implies q2 == q + 1 && is_punct(
                        ts,
                        q as int,
                        Punct::RParen,
                    ) by {
                        assert(self.can_read(pos + 1, q2 - 1, e2, 0));
                    }
                }
                let q2 = match self.expect_punct(q, Punct::RParen, "expected `)`") {
                    Ok(x) => x,
                    Err(err) => {
                        return Err(err);
                    },
                };
                proof {
                    assert(expr_form(self.tv(), pos as int, q2 as int, e, 10));
                }
                Ok((e, q2))
            },
            TokenKind::Ident => {
                if self.at_word(pos, "forall") || self.at_word(pos, "exists") {
                    self.quantifier(pos)
                } else if self.at_word(pos, "len") || self.at_word(pos, "old") {
                    let is_len = self.at_word(pos, "len");
                    proof {
                        assert forall|e2: Expression<()>, q2: int| #[trigger]
                            self.can_read(pos as int, q2, e2, 10) implies is_punct(ts, pos + 1, Punct::LParen)
                            && pos + 2 < q2 - 1 && is_punct(ts, q2 - 1, Punct::RParen) && self.can_read(
                            pos + 2,
                            q2 - 1,
                            if is_len {
                                *e2->Len_target
                            } else {
                                *e2->expression
                            },
                            0,
                        ) by {}
                    }
                    let q = match self.expect_punct(pos + 1, Punct::LParen, "expected `(`") {
                        Ok(x) => x,
                        Err(err) => {
                            return Err(err);
                        },
                    };
                    let (inner, q2) = match self.expression(q) {
                        Ok(x) => x,
                        Err(err) => {
                            return Err(err);
                        },
                    };
                    let q3 = match self.expect_punct(q2, Punct::RParen, "expected `)`") {
                        Ok(x) => x,
                        Err(err) => {
                            return Err(err);
                        },
                    };
                    let span = self.span_between(pos, q3);
                    let e = if is_len {
                        Expression::Len { target: Box::new(inner), span, meta: () }
                    } else {
                        Expression::Old { expression: Box::new(inner), span, meta: () }
                    };
                    proof {
                        assert(expr_form(self.tv(), pos as int, q3 as int, e, 10));
                    }
                    Ok((e, q3))
                } else if self.at_word(pos, "nondet") {
                    proof {
                        assert("nondet"@ =~= seq!['n', 'o', 'n', 'd', 'e', 't']);
                    }
                    let e = Expression::Nondet { span: t.span, meta: () };
                    proof {
                        assert(expr_form(self.tv(), pos as int, pos + 1, e, 10));
                    }
                    Ok((e, pos + 1))
                } else if self.at_word(pos, "true") || self.at_word(pos, "false") {
                    let value = self.at_word(pos, "true");
                    proof {
                        assert("true"@ =~= seq!['t', 'r', 'u', 'e']);
                        assert("false"@ =~= seq!['f', 'a', 'l', 's', 'e']);
                    }
                    let e = Expression::Boolean { value, span: t.span, meta: () };
                    proof {
                        assert(expr_form(self.tv(), pos as int, pos + 1, e, 10));
                    }
                    Ok((e, pos + 1))
                } else if keyword(&t.text) {
                    Err(self.err_at(pos, "expected an expression"))
                } else {
                    let id = Identifier::new(Symbol { name: t.text.clone() }, t.span);
                    proof {
                        assert(name_at(self.tv(), pos as int, id));
                        assert(expr_form(self.tv(), pos as int, pos + 1, Expression::Symbol(id), 10));
                    }
                    Ok((Expression::Symbol(id), pos + 1))
                }
            },
            TokenKind::Escaped | TokenKind::Res => {
                let id = Identifier::new(Symbol { name: t.text.clone() }, t.span);
                proof {
                    assert(expr_form(self.tv(), pos as int, pos + 1, Expression::Symbol(id), 10));
                }
                Ok((Expression::Symbol(id), pos + 1))
            },
            TokenKind::Number => {
                let e = Expression::Number {
                    value: Literal { digits: t.text.clone() },
                    span: t.span,
                    meta: (),
                };
                proof {
                    assert(expr_form(self.tv(), pos as int, pos + 1, e, 10));
                }
                Ok((e, pos + 1))
            },
            TokenKind::Arg => {
                match digits_value(&t.text) {
                    Some(index) => {
                        let e = Expression::Arg { index, span: t.span, meta: () };
                        proof {
                            assert(all_digits(t.text@));
                            assert(expr_form(self.tv(), pos as int, pos + 1, e, 10));
                        }
                        Ok((e, pos + 1))
                    },
                    None => {
                        let mut m = String::new();
                        m.append("argument index is too large");
                        Err(ParseError { message: m, span: t.span, syntax: true })
                    },
                }
            },
            _ => Err(self.err_at(pos, "expected an expression")),
        }
    }

    /// Reads a quantifier at `pos`: `forall` or `exists`, a binding, `in`, a domain, `,` and
    /// a body.
    fn quantifier(&self, pos: usize) -> (r: Result<(Expression<()>, usize), ParseError>)
        requires
            self.wf(),
            pos < self.n(),
            is_word(self.tv(), pos as int, "forall"@) || is_word(self.tv(), pos as int, "exists"@),
        ensures
            match r {
                Ok((e, q)) => pos < q <= self.n() && expr_ok(self.src@, e) && self.read_expr(
                    pos as int,
                    q as int,
                    e,
                    10,
                ),
                Err(err) => err_ok(self.src@, err),
            },
            forall|e2: Expression<()>, q2: int|
                #[trigger] self.can_read(pos as int, q2, e2, 10) ==> (r matches Ok((_, q3)) && q3 == q2),
        decreases self.n() - pos, 12int,
    {
        let kind = if self.at_word(pos, "forall") {
            QuantifierKind::Forall
        } else {
            QuantifierKind::Exists
        };
        let ghost ts = self.tv();
        proof {
            assert forall|e2: Expression<()>, q2: int| #[trigger]
                self.can_read(pos as int, q2, e2, 10) implies exists|k: int| quant_parts(ts, pos as int, q2, e2, k) by {
                let k = lemma_read_quant(ts, pos as int, q2, e2);
            }
        }
        let binding = match self.name(pos + 1) {
            Ok(x) => x,
            Err(err) => {
                proof {
                    assert forall|e2: Expression<()>, q2: int|
                        #[trigger] self.can_read(pos as int, q2, e2, 10) implies false by {
                        let k = choose|k: int| quant_parts(ts, pos as int, q2, e2, k);
                        assert(name_at(ts, pos + 1, e2->binding));
                    }
                }
                return Err(err);
            },
        };
        let q = match self.expect_word(pos + 2, "in", "expected `in`") {
            Ok(x) => x,
            Err(err) => {
                proof {
                    assert forall|e2: Expression<()>, q2: int|
                        #[trigger] self.can_read(pos as int, q2, e2, 10) implies false by {
                        let k = choose|k: int| quant_parts(ts, pos as int, q2, e2, k);
                    }
                }
                return Err(err);
            },
        };
        let (domain, q2) = match self.domain(q) {
            Ok(x) => x,
            Err(err) => {
                proof {
                    assert forall|e2: Expression<()>, qq: int|
                        #[trigger] self.can_read(pos as int, qq, e2, 10) implies false by {
                        let k = choose|k: int| quant_parts(ts, pos as int, qq, e2, k);
                        assert(crate::parser::grammar::domain_at(ts, pos + 3, k, e2->domain));
                    }
                }
                return Err(err);
            },
        };
        proof {
            assert forall|e2: Expression<()>, qq: int|
                #[trigger] self.can_read(pos as int, qq, e2, 10) implies quant_parts(ts, pos as int, qq, e2, q2 as int) by {
                let k = choose|k: int| quant_parts(ts, pos as int, qq, e2, k);
                assert(crate::parser::grammar::domain_at(ts, pos + 3, k, e2->domain));
            }
        }
        let q3 = match self.expect_punct(q2, Punct::Comma, "expected `,`") {
            Ok(x) => x,
            Err(err) => {
                return Err(err);
            },
        };
        let (body, q4) = match self.expression(q3) {
            Ok(x) => x,
            Err(err) => {
                proof {
                    assert forall|e2: Expression<()>, qq: int|
                        #[trigger] self.can_read(pos as int, qq, e2, 10) implies false by {
                        assert(quant_parts(ts, pos as int, qq, e2, q2 as int));
                        assert(self.can_read(q3 as int, qq, *e2->body, 0));
                    }
                }
                return Err(err);
            },
        };
        proof {
            assert forall|e2: Expression<()>, qq: int|
                #[trigger] self.can_read(pos as int, qq, e2, 10) implies qq == q4 by {
                assert(quant_parts(ts, pos as int, qq, e2, q2 as int));
                assert(self.can_read(q3 as int, qq, *e2->body, 0));
            }
        }
        let span = self.span_between(pos, q4);
        let e = Expression::Quantifier {
            quantifier_kind: kind,
            binding,
            domain,
            body: Box::new(body),
            span,
            meta: (),
        };
        proof {
            assert(expr_form(self.tv(), pos as int, q4 as int, e, 10));
        }
        Ok((e, q4))
    }

    /// Reads the domain of a quantifier at `pos`: a range `a..b`, or an expression.
    fn domain(&self, pos: usize) -> (r: Result<(QuantifierDomain<()>, usize), ParseError>)
        requires
            self.wf(),
            pos <= self.n(),
        ensures
            match r {
                Ok((d, q)) => pos < q <= self.n() && domain_ok(self.src@, d) && domain_at(
                    self.tv(),
                    pos as int,
                    q as int,
                    d,
                ),
                Err(err) => err_ok(self.src@, err),
            },
            forall|d: QuantifierDomain<()>, q2: int|
                #[trigger] domain_at(self.tv(), pos as int, q2, d) && !continues(self.tv(), q2, 1)
                    && !is_punct(self.tv(), q2, Punct::DotDot) ==> (r matches Ok((_, q3)) && q3 == q2),
        decreases self.n() - pos, 40int,
    {
        let ghost ts = self.tv();
        let (first, p) = match self.binary(pos, 1) {
            Ok(x) => x,
            Err(err) => {
                proof {
                    assert forall|d: QuantifierDomain<()>, q2: int|
                        #[trigger] domain_at(ts, pos as int, q2, d) && !continues(ts, q2, 1) && !is_punct(
                            ts,
                            q2,
                            Punct::DotDot,
                        ) implies false by {
                        match d {
                            QuantifierDomain::Range { start, end, .. } => {
                                let m = choose|m: int|
                                    pos < m && m + 1 < q2 && expr_at(ts, pos as int, m, *start, 1)
                                        && #[trigger] is_punct(ts, m, Punct::DotDot) && expr_at(ts, m + 1, q2, *end, 1);
                                assert(self.can_read(pos as int, m, *start, 1));
                            },
                            QuantifierDomain::Expr(x) => {
                                assert(self.can_read(pos as int, q2, *x, 1));
                            },
                        }
                    }
                }
                return Err(err);
            },
        };
        proof {
            assert forall|d: QuantifierDomain<()>, q2: int|
                #[trigger] domain_at(ts, pos as int, q2, d) && !continues(ts, q2, 1) && !is_punct(
                    ts,
                    q2,
                    Punct::DotDot,
                ) implies match d {
                QuantifierDomain::Range { end, .. } => is_punct(ts, p as int, Punct::DotDot) && self.can_read(
                    p + 1,
                    q2,
                    *end,
                    1,
                ),
                QuantifierDomain::Expr(_) => q2 == p,
            } by {
                match d {
                    QuantifierDomain::Range { start, end, .. } => {
                        let m = choose|m: int|
                            pos < m && m + 1 < q2 && expr_at(ts, pos as int, m, *start, 1)
                                && #[trigger] is_punct(ts, m, Punct::DotDot) && expr_at(ts, m + 1, q2, *end, 1);
                        assert(self.can_read(pos as int, m, *start, 1));
                    },
                    QuantifierDomain::Expr(x) => {
                        assert(self.can_read(pos as int, q2, *x, 1));
                    },
                }
            }
        }
        if self.at_punct(p, Punct::DotDot) {
            let (end, q) = match self.binary(p + 1, 1) {
                Ok(x) => x,
                Err(err) => {
                    return Err(err);
                },
            };
            let span = self.span_between(pos, q);
            Ok((QuantifierDomain::Range { start: Box::new(first), end: Box::new(end), span }, q))
        } else {
            Ok((QuantifierDomain::Expr(Box::new(first)), p))
        }
    }
}

/// The `i`-th token starts at offset `i` or later.
proof fn lemma_token_start(src: Seq<char>, ts: Seq<Token>, i: int)
    requires
        tokens_ok(src, ts),
        0 <= i < ts.len(),
    ensures
        ts[i].span.start >= i,
    decreases i,
{
    assert(token_ok(src, ts[i]));
    if i > 0 {
        lemma_token_start(src, ts, i - 1);
        assert(token_ok(src, ts[i - 1]));
        assert(ts[i - 1].span.end <= ts[i].span.start);
    }
}

/// A source has no more tokens than characters.
proof fn lemma_token_count(src: Seq<char>, ts: Seq<Token>)
    requires
        tokens_ok(src, ts),
    ensures
        ts.len() <= src.len(),
{
    if ts.len() > 0 {
        lemma_token_start(src, ts, ts.len() - 1);
        assert(token_ok(src, ts[ts.len() - 1]));
    }
}

/// [`stmts_ok`] of a list with one more statement.
proof fn lemma_stmts_push(src: Seq<char>, ss: Seq<Statement<()>>, x: Statement<()>)
    ensures
        stmts_ok(src, ss.push(x)) == (stmts_ok(src, ss) && stmt_ok(src, x)),
{
    assert(ss.push(x).subrange(0, ss.len() as int) =~= ss);
}

impl<'a> Parser<'a> {
    /// Reads a parenthesized list of names at `pos`, just past the opening parenthesis, and the
    /// closing parenthesis.
    fn names(&self, pos: usize) -> (r: Result<(Vec<Identifier<()>>, usize), ParseError>)
        requires
            self.wf(),
            pos <= self.n(),
        ensures
            match r {
                Ok((ids, q)) => pos < q <= self.n() && idents_ok(self.src@, ids@) && names_at(
                    self.tv(),
                    pos as int,
                    ids@,
                ) && q == pos + names_len(ids@.len() as int),
                Err(err) => err_ok(self.src@, err),
            },
            forall|ids2: Seq<Identifier<()>>| #[trigger]
                names_at(self.tv(), pos as int, ids2) ==> (r matches Ok((_, q3)) && q3 == pos + names_len(
                    ids2.len() as int,
                )),
    {
        let ghost ts = self.tv();
        let mut ids: Vec<Identifier<()>> = Vec::new();
        if self.at_punct(pos, Punct::RParen) {
            proof {
                assert forall|ids2: Seq<Identifier<()>>| #[trigger]
                    names_at(ts, pos as int, ids2) implies ids2.len() == 0 by {
                    if ids2.len() > 0 {
                        assert(name_at(ts, pos + 2 * 0, ids2[0]));
                    }
                }
            }
            return Ok((ids, pos + 1));
        }
        let mut p = pos;
        loop
            invariant
                self.wf(),
                ts == self.tv(),
                pos <= p <= self.n(),
                idents_ok(self.src@, ids@),
                p == pos + 2 * ids@.len(),
                forall|j: int|
                    0 <= j < ids@.len() ==> name_at(self.tv(), pos + 2 * j, #[trigger] ids@[j])
                        && is_punct(self.tv(), pos + 2 * j + 1, Punct::Comma),
                forall|ids2: Seq<Identifier<()>>| #[trigger]
                    names_at(ts, pos as int, ids2) ==> ids@.len() < ids2.len(),
            decreases self.n() - p,
        {
            let ghost k = ids@.len() as int;
            let id = match self.name(p) {
                Ok(x) => x,
                Err(err) => {
                    proof {
                        assert forall|ids2: Seq<Identifier<()>>| #[trigger]
                            names_at(ts, pos as int, ids2) implies false by {
                            assert(name_at(ts, pos + 2 * k, ids2[k]));
                        }
                    }
                    return Err(err);
                },
            };
            let ghost before = ids@;
            ids.push(id);
            proof {
                assert forall|k: int| 0 <= k < ids@.len() implies #[trigger] ident_ok(self.src@, ids@[k]) by {
                    if k < before.len() {
                        assert(ids@[k] == before[k]);
                    }
                }
            }
            if self.at_punct(p + 1, Punct::Comma) {
                proof {
                    assert forall|j: int| 0 <= j < ids@.len() implies name_at(
                        self.tv(),
                        pos + 2 * j,
                        #[trigger] ids@[j],
                    ) && is_punct(self.tv(), pos + 2 * j + 1, Punct::Comma) by {
                        if j < before.len() {
                            assert(ids@[j] == before[j]);
                        }
                    }
                    assert forall|ids2: Seq<Identifier<()>>| #[trigger]
                        names_at(ts, pos as int, ids2) implies ids@.len() < ids2.len() by {
                        assert(name_at(ts, pos + 2 * k, ids2[k]));
                    }
                }
                p = p + 2;
            } else if self.at_punct(p + 1, Punct::RParen) {
                proof {
                    assert forall|j: int| 0 <= j < ids@.len() implies name_at(
                        self.tv(),
                        pos + 2 * j,
                        #[trigger] ids@[j],
                    ) && is_punct(
                        self.tv(),
                        pos + 2 * j + 1,
                        if j == ids@.len() - 1 {
                            Punct::RParen
                        } else {
                            Punct::Comma
                        },
                    ) by {
                        if j < before.len() {
                            assert(ids@[j] == before[j]);
                        }
                    }
                    assert forall|ids2: Seq<Identifier<()>>| #[trigger]
                        names_at(ts, pos as int, ids2) implies ids2.len() == ids@.len() by {
                        assert(name_at(ts, pos + 2 * k, ids2[k]));
                    }
                }
                return Ok((ids, p + 2));
            } else {
                proof {
                    assert forall|ids2: Seq<Identifier<()>>| #[trigger]
                        names_at(ts, pos as int, ids2) implies false by {
                        assert(name_at(ts, pos + 2 * k, ids2[k]));
                    }
                }
                return Err(self.err_at(p + 1, "expected `,` or `)`"));
            }
        }
    }

    /// Reads a block at `pos`: `{`, statements, `}`.
    fn block(&self, pos: usize) -> (r: Result<(Block<()>, usize), ParseError>)
        requires
            self.wf(),
            pos <= self.n(),
        ensures
            match r {
                Ok((b, q)) => pos < q <= self.n() && block_ok(self.src@, b) && block_at(
                    self.tv(),
                    pos as int,
                    q as int,
                    b,
                ),
                Err(err) => err_ok(self.src@, err),
            },
            forall|b2: Block<()>, q2: int| #[trigger]
                block_at(self.tv(), pos as int, q2, b2) ==> (r matches Ok((_, q3)) && q3 == q2),
        decreases self.n() - pos, 2int,
    {
        let ghost ts = self.tv();
        proof {
            assert forall|b2: Block<()>, q2: int| #[trigger]
                block_at(ts, pos as int, q2, b2) implies stmt_tail(ts, pos + 1, q2 - 1) && is_punct(
                ts,
                q2 - 1,
                Punct::RBrace,
            ) && is_punct(ts, pos as int, Punct::LBrace) && pos + 1 <= q2 - 1 by {
                lemma_stmts_tail(ts, pos + 1, q2 - 1, b2.statements@);
            }
        }
        let mut p = match self.expect_punct(pos, Punct::LBrace, "expected `{`") {
            Ok(x) => x,
            Err(err) => {
                return Err(err);
            },
        };
        let mut statements: Vec<Statement<()>> = Vec::new();
        proof {
            assert(stmts_at(self.tv(), p as int, p as int, statements@));
        }
        while p < self.toks.len() && !self.at_punct(p, Punct::RBrace)
            invariant
                self.wf(),
                ts == self.tv(),
                pos < p <= self.n(),
                is_punct(self.tv(), pos as int, Punct::LBrace),
                stmts_ok(self.src@, statements@),
                stmts_at(self.tv(), pos + 1, p as int, statements@),
                forall|b2: Block<()>, q2: int| #[trigger]
                    block_at(ts, pos as int, q2, b2) ==> stmt_tail(ts, p as int, q2 - 1) && is_punct(
                        ts,
                        q2 - 1,
                        Punct::RBrace,
                    ) && p <= q2 - 1,
            decreases self.n() - p,
        {
            let ghost pp = p as int;
            proof {
                assert forall|b2: Block<()>, q2: int| #[trigger]
                    block_at(ts, pos as int, q2, b2) implies exists|m: int|
                    pp < m <= q2 - 1 && #[trigger] is_boundary(ts, m) && (exists|s: Statement<()>|
                        #[trigger] stmt_at(ts, pp, m, s)) && stmt_tail(ts, m, q2 - 1) by {
                    assert(stmt_tail(ts, pp, q2 - 1));
                }
            }
            let (st, q) = match self.statement(p) {
                Ok(x) => x,
                Err(err) => {
                    proof {
                        assert forall|b2: Block<()>, q2: int| #[trigger]
                            block_at(ts, pos as int, q2, b2) implies false by {
                            let m = choose|m: int|
                                pp < m <= q2 - 1 && #[trigger] is_boundary(ts, m) && (exists|s: Statement<()>|
                                    #[trigger] stmt_at(ts, pp, m, s)) && stmt_tail(ts, m, q2 - 1);
                            let s = choose|s: Statement<()>| #[trigger] stmt_at(ts, pp, m, s);
                            if m < q2 - 1 {
                                let m2 = choose|m2: int|
                                    m < m2 <= q2 - 1 && #[trigger] is_boundary(ts, m2) && (exists|s: Statement<()>|
                                        #[trigger] stmt_at(ts, m, m2, s)) && stmt_tail(ts, m2, q2 - 1);
                                let s2 = choose|s2: Statement<()>| #[trigger] stmt_at(ts, m, m2, s2);
                                lemma_stmt_start(ts, m, m2, s2);
                            }
                            assert(stmt_at(ts, pp, m, s) && !continues(ts, m, 0));
                        }
                    }
                    return Err(err);
                },
            };
            proof {
                assert forall|b2: Block<()>, q2: int| #[trigger]
                    block_at(ts, pos as int, q2, b2) implies stmt_tail(ts, q as int, q2 - 1) && q <= q2 - 1 by {
                    let m = choose|m: int|
                        pp < m <= q2 - 1 && #[trigger] is_boundary(ts, m) && (exists|s: Statement<()>|
                            #[trigger] stmt_at(ts, pp, m, s)) && stmt_tail(ts, m, q2 - 1);
                    let s = choose|s: Statement<()>| #[trigger] stmt_at(ts, pp, m, s);
                    if m < q2 - 1 {
                        let m2 = choose|m2: int|
                            m < m2 <= q2 - 1 && #[trigger] is_boundary(ts, m2) && (exists|s: Statement<()>|
                                #[trigger] stmt_at(ts, m, m2, s)) && stmt_tail(ts, m2, q2 - 1);
                        let s2 = choose|s2: Statement<()>| #[trigger] stmt_at(ts, m, m2, s2);
                        lemma_stmt_start(ts, m, m2, s2);
                    }
                    assert(stmt_at(ts, pp, m, s) && !continues(ts, m, 0));
                }
            }
            proof {
                lemma_stmts_push(self.src@, statements@, st);
                let more = statements@.push(st);
                assert(more.drop_last() =~= statements@);
                assert(more.last() == st);
                assert(is_boundary(self.tv(), p as int));
                assert(stmts_at(self.tv(), pos + 1, q as int, more));
            }
            statements.push(st);
            p = q;
        }
        proof {
            assert forall|b2: Block<()>, q2: int| #[trigger]
                block_at(ts, pos as int, q2, b2) implies p == q2 - 1 by {
                if p < q2 - 1 {
                    assert(stmt_tail(ts, p as int, q2 - 1));
                    let m = choose|m: int|
                        p < m <= q2 - 1 && #[trigger] is_boundary(ts, m) && (exists|s: Statement<()>|
                            #[trigger] stmt_at(ts, p as int, m, s)) && stmt_tail(ts, m, q2 - 1);
                    let s = choose|s: Statement<()>| #[trigger] stmt_at(ts, p as int, m, s);
                    lemma_stmt_start(ts, p as int, m, s);
                }
            }
        }
        let q = match self.expect_punct(p, Punct::RBrace, "expected `}`") {
            Ok(x) => x,
            Err(err) => {
                return Err(err);
            },
        };
        let span = self.span_between(pos, q);
        let b = Block { statements, span };
        proof {
            assert(block_at(self.tv(), pos as int, q as int, b));
        }
        Ok((b, q))
    }

    /// Reads an expression and the `;` after it at `pos`.
    fn expression_stmt(&self, pos: usize) -> (r: Result<(Expression<()>, usize), ParseError>)
        requires
            self.wf(),
            pos <= self.n(),
        ensures
            match r {
                Ok((e, q)) => pos + 1 < q <= self.n() && expr_ok(self.src@, e) && expr_at(
                    self.tv(),
                    pos as int,
                    q - 1,
                    e,
                    0,
                ) && is_punct(self.tv(), q - 1, Punct::Semi),
                Err(err) => err_ok(self.src@, err),
            },
            forall|e2: Expression<()>, m: int| #[trigger]
                self.can_read(pos as int, m, e2, 0) && is_punct(self.tv(), m, Punct::Semi) ==> (r matches Ok(
                    (_, q3),
                ) && q3 == m + 1),
    {
        let (e, q) = match self.expression(pos) {
            Ok(x) => x,
            Err(err) => {
                return Err(err);
            },
        };
        let q2 = match self.expect_punct(q, Punct::Semi, "expected `;`") {
            Ok(x) => x,
            Err(err) => {
                return Err(err);
            },
        };
        Ok((e, q2))
    }

    /// Reads a statement at `pos`.
    fn statement(&self, pos: usize) -> (r: Result<(Statement<()>, usize), ParseError>)
        requires
            self.wf(),
            pos <= self.n(),
        ensures
            match r {
                Ok((st, q)) => pos < q <= self.n() && stmt_ok(self.src@, st) && stmt_at(
                    self.tv(),
                    pos as int,
                    q as int,
                    st,
                ),
                Err(err) => err_ok(self.src@, err),
            },
            forall|s2: Statement<()>, q2: int| #[trigger]
                stmt_at(self.tv(), pos as int, q2, s2) && !continues(self.tv(), q2, 0) ==> (r matches Ok(
                    (_, q3),
                ) && q3 == q2),
        decreases self.n() - pos, 3int,
    {
        let ghost ts = self.tv();
        proof {
            lemma_statement_words();
        }
        if self.at_punct(pos, Punct::LBrace) {
            proof {
                assert forall|s2: Statement<()>, q2: int| #[trigger]
                    stmt_at(ts, pos as int, q2, s2) && !continues(ts, q2, 0) implies block_at(
                    ts,
                    pos as int,
                    q2,
                    s2->Block_0,
                ) by {
                    if s2 is Predicate {
                        assert(predicate_at(ts, pos as int, q2, s2->Predicate_0));
                    }
                }
            }
            let (b, q) = match self.block(pos) {
                Ok(x) => x,
                Err(err) => {
                    return Err(err);
                },
            };
            return Ok((Statement::Block(b), q));
        }
        if self.at_punct(pos, Punct::Semi) {
            proof {
                assert(token_ok(self.src@, self.toks@[pos as int]));
                assert forall|s2: Statement<()>, q2: int| #[trigger]
                    stmt_at(ts, pos as int, q2, s2) && !continues(ts, q2, 0) implies q2 == pos + 1 by {
                    if s2 is Block {
                        assert(block_at(ts, pos as int, q2, s2->Block_0));
                    }
                    if s2 is Predicate {
                        assert(predicate_at(ts, pos as int, q2, s2->Predicate_0));
                    }
                }
            }
            return Ok((Statement::Empty { span: self.toks[pos].span }, pos + 1));
        }
        proof {
            assert forall|s2: Statement<()>, q2: int| #[trigger]
                stmt_at(ts, pos as int, q2, s2) && !continues(ts, q2, 0) implies !(s2 is Block) by {
                if s2 is Block {
                    assert(block_at(ts, pos as int, q2, s2->Block_0));
                }
            }
        }
        if self.at_word(pos, "compute") || self.at_word(pos, "witness") || self.at_word(pos, "constrain") {
            proof {
                assert forall|s2: Statement<()>, q2: int| #[trigger]
                    stmt_at(ts, pos as int, q2, s2) && !continues(ts, q2, 0) implies s2 is Scoped by {
                    if s2 is Predicate {
                        assert(predicate_at(ts, pos as int, q2, s2->Predicate_0));
                    }
                }
            }
            let scope = if self.at_word(pos, "constrain") {
                Scope::Constrain
            } else {
                Scope::Compute
            };
            let (inner, q) = match self.statement(pos + 1) {
                Ok(x) => x,
                Err(err) => {
                    proof {
                        assert forall|s2: Statement<()>, q2: int| #[trigger]
                            stmt_at(ts, pos as int, q2, s2) && !continues(ts, q2, 0) implies false by {
                            assert(stmt_at(ts, pos + 1, q2, *s2->Scoped_statement));
                        }
                    }
                    return Err(err);
                },
            };
            proof {
                assert forall|s2: Statement<()>, q2: int| #[trigger]
                    stmt_at(ts, pos as int, q2, s2) && !continues(ts, q2, 0) implies q2 == q by {
                    assert(stmt_at(ts, pos + 1, q2, *s2->Scoped_statement));
                }
            }
            let span = self.span_between(pos, q);
            return Ok((Statement::Scoped { scope, statement: Box::new(inner), span }, q));
        }
        if self.at_word(pos, "require") || self.at_word(pos, "ensure") || self.at_word(pos, "return")
            || self.at_word(pos, "increases") || self.at_word(pos, "decreases") || self.at_word(pos, "step") {
            proof {
                assert forall|s2: Statement<()>, q2: int| #[trigger]
                    stmt_at(ts, pos as int, q2, s2) && !continues(ts, q2, 0) implies self.can_read(
                    pos + 1,
                    q2 - 1,
                    match s2 {
                        Statement::Require { expression, .. } => expression,
                        Statement::Ensure { expression, .. } => expression,
                        Statement::Return { expression, .. } => expression,
                        Statement::Increases { expression, .. } => expression,
                        Statement::Decreases { expression, .. } => expression,
                        Statement::Step { expression, .. } => expression,
                        _ => s2->Require_expression,
                    },
                    0,
                ) && is_punct(ts, q2 - 1, Punct::Semi) by {
                    if s2 is Predicate {
                        assert(predicate_at(ts, pos as int, q2, s2->Predicate_0));
                    }
                }
            }
            let (expression, q) = match self.expression_stmt(pos + 1) {
                Ok(x) => x,
                Err(err) => {
                    return Err(err);
                },
            };
            let span = self.span_between(pos, q);
            let st = if self.at_word(pos, "require") {
                Statement::Require { expression, span }
            } else if self.at_word(pos, "ensure") {
                Statement::Ensure { expression, span }
            } else if self.at_word(pos, "return") {
                Statement::Return { expression, span }
            } else if self.at_word(pos, "increases") {
                Statement::Increases { expression, span }
            } else if self.at_word(pos, "decreases") {
                Statement::Decreases { expression, span }
            } else {
                Statement::Step { expression, span }
            };
            return Ok((st, q));
        }
        if self.at_word(pos, "let") {
            proof {
                assert forall|s2: Statement<()>, q2: int| #[trigger]
                    stmt_at(ts, pos as int, q2, s2) && !continues(ts, q2, 0) implies name_at(
                    ts,
                    pos + 1,
                    s2->Let_name,
                ) && is_punct(ts, pos + 2, Punct::Assign) && self.can_read(pos + 3, q2 - 1, s2->value, 0)
                    && is_punct(ts, q2 - 1, Punct::Semi) by {
                    if s2 is Predicate {
                        assert(predicate_at(ts, pos as int, q2, s2->Predicate_0));
                    }
                }
            }
            let name = match self.name(pos + 1) {
                Ok(x) => x,
                Err(err) => {
                    return Err(err);
                },
            };
            let q = match self.expect_punct(pos + 2, Punct::Assign, "expected `=`") {
                Ok(x) => x,
                Err(err) => {
                    return Err(err);
                },
            };
            let (value, q2) = match self.expression_stmt(q) {
                Ok(x) => x,
                Err(err) => {
                    return Err(err);
                },
            };
            return Ok((Statement::Let { name, value, span: self.span_between(pos, q2) }, q2));
        }
        if self.at_word(pos, "unused") {
            proof {
                assert forall|s2: Statement<()>, q2: int| #[trigger]
                    stmt_at(ts, pos as int, q2, s2) && !continues(ts, q2, 0) implies name_at(
                    ts,
                    pos + 1,
                    s2->Unused_name,
                ) && is_punct(ts, pos + 2, Punct::Semi) && q2 == pos + 3 by {
                    if s2 is Predicate {
                        assert(predicate_at(ts, pos as int, q2, s2->Predicate_0));
                    }
                }
            }
            let name = match self.name(pos + 1) {
                Ok(x) => x,
                Err(err) => {
                    return Err(err);
                },
            };
            let q = match self.expect_punct(pos + 2, Punct::Semi, "expected `;`") {
                Ok(x) => x,
                Err(err) => {
                    return Err(err);
                },
            };
            return Ok((Statement::Unused { name, span: self.span_between(pos, q) }, q));
        }
        if self.at_word(pos, "invariant") {
            proof {
                assert forall|s2: Statement<()>, q2: int| #[trigger]
                    stmt_at(ts, pos as int, q2, s2) && !continues(ts, q2, 0) implies s2 is Invariant by {
                    if s2 is Predicate {
                        assert(predicate_at(ts, pos as int, q2, s2->Predicate_0));
                    }
                }
            }
            let q = match self.expect_word(pos + 1, "for", "expected `for`") {
                Ok(x) => x,
                Err(err) => {
                    return Err(err);
                },
            };
            let loop_name = match self.name(q) {
                Ok(x) => x,
                Err(err) => {
                    proof {
                        assert forall|s2: Statement<()>, q2: int| #[trigger]
                            stmt_at(ts, pos as int, q2, s2) && !continues(ts, q2, 0) implies false by {
                            assert(name_at(ts, pos + 2, s2->Invariant_0.loop_name));
                        }
                    }
                    return Err(err);
                },
            };
            let q2 = match self.expect_punct(q + 1, Punct::LParen, "expected `(`") {
                Ok(x) => x,
                Err(err) => {
                    return Err(err);
                },
            };
            let (bindings, q3) = match self.names(q2) {
                Ok(x) => x,
                Err(err) => {
                    proof {
                        assert forall|s2: Statement<()>, qq: int| #[trigger]
                            stmt_at(ts, pos as int, qq, s2) && !continues(ts, qq, 0) implies false by {
                            assert(names_at(ts, pos + 4, s2->Invariant_0.bindings@));
                        }
                    }
                    return Err(err);
                },
            };
            let (body, q4) = match self.block(q3) {
                Ok(x) => x,
                Err(err) => {
                    proof {
                        assert forall|s2: Statement<()>, qq: int| #[trigger]
                            stmt_at(ts, pos as int, qq, s2) && !continues(ts, qq, 0) implies false by {
                            assert(names_at(ts, pos + 4, s2->Invariant_0.bindings@));
                            assert(block_at(ts, q3 as int, qq, s2->Invariant_0.body));
                        }
                    }
                    return Err(err);
                },
            };
            proof {
                assert forall|s2: Statement<()>, qq: int| #[trigger]
                    stmt_at(ts, pos as int, qq, s2) && !continues(ts, qq, 0) implies qq == q4 by {
                    assert(names_at(ts, pos + 4, s2->Invariant_0.bindings@));
                    assert(block_at(ts, q3 as int, qq, s2->Invariant_0.body));
                }
            }
            let span = self.span_between(pos, q4);
            return Ok((Statement::Invariant(InvariantDecl { loop_name, bindings, body, span }), q4));
        }
        if self.at_word(pos, "predicate") {
            proof {
                assert forall|s2: Statement<()>, q2: int| #[trigger]
                    stmt_at(ts, pos as int, q2, s2) && !continues(ts, q2, 0) implies predicate_at(
                    ts,
                    pos as int,
                    q2,
                    s2->Predicate_0,
                ) by {}
            }
            let (p, q) = match self.predicate(pos) {
                Ok(x) => x,
                Err(err) => {
                    return Err(err);
                },
            };
            return Ok((Statement::Predicate(p), q));
        }
        proof {
            assert forall|s2: Statement<()>, q2: int| #[trigger]
                stmt_at(ts, pos as int, q2, s2) && !continues(ts, q2, 0) implies false by {
                if s2 is Predicate {
                    assert(predicate_at(ts, pos as int, q2, s2->Predicate_0));
                }
            }
        }
        Err(self.err_at(pos, "expected a statement"))
    }

    /// Reads a predicate declaration at `pos`. An expression body `= e` becomes a block that
    /// returns `e`, both spanning `e`.
    fn predicate(&self, pos: usize) -> (r: Result<(PredicateDecl<()>, usize), ParseError>)
        requires
            self.wf(),
            pos <= self.n(),
        ensures
            match r {
                Ok((d, q)) => pos < q <= self.n() && predicate_ok(self.src@, d) && predicate_at(
                    self.tv(),
                    pos as int,
                    q as int,
                    d,
                ),
                Err(err) => err_ok(self.src@, err),
            },
            forall|d2: PredicateDecl<()>, q2: int| #[trigger]
                predicate_at(self.tv(), pos as int, q2, d2) && !continues(self.tv(), q2, 0) ==> (r matches Ok(
                    (_, q3),
                ) && q3 == q2),
        decreases self.n() - pos, 2int,
    {
        let ghost ts = self.tv();
        let q = match self.expect_word(pos, "predicate", "expected `predicate`") {
            Ok(x) => x,
            Err(err) => {
                return Err(err);
            },
        };
        let name = match self.name(q) {
            Ok(x) => x,
            Err(err) => {
                proof {
                    assert forall|d2: PredicateDecl<()>, q2: int| #[trigger]
                        predicate_at(ts, pos as int, q2, d2) && !continues(ts, q2, 0) implies false by {
                        assert(name_at(ts, pos + 1, d2.name));
                    }
                }
                return Err(err);
            },
        };
        let q2 = match self.expect_punct(q + 1, Punct::LParen, "expected `(`") {
            Ok(x) => x,
            Err(err) => {
                return Err(err);
            },
        };
        let (params, q3) = match self.names(q2) {
            Ok(x) => x,
            Err(err) => {
                proof {
                    assert forall|d2: PredicateDecl<()>, qq: int| #[trigger]
                        predicate_at(ts, pos as int, qq, d2) && !continues(ts, qq, 0) implies false by {
                        assert(names_at(ts, pos + 3, d2.params@));
                    }
                }
                return Err(err);
            },
        };
        proof {
            assert forall|d2: PredicateDecl<()>, qq: int| #[trigger]
                predicate_at(ts, pos as int, qq, d2) && !continues(ts, qq, 0) implies q3 < qq && (
                block_at(ts, q3 as int, qq, d2.body) || (is_punct(ts, q3 as int, Punct::Assign)
                && self.can_read(q3 + 1, qq, d2.body.statements@[0]->Return_expression, 0))) by {
                assert(names_at(ts, pos + 3, d2.params@));
            }
        }
        if self.at_punct(q3, Punct::Assign) {
            let (e, q4) = match self.expression(q3 + 1) {
                Ok(x) => x,
                Err(err) => {
                    proof {
                        assert forall|d2: PredicateDecl<()>, qq: int| #[trigger]
                            predicate_at(ts, pos as int, qq, d2) && !continues(ts, qq, 0) implies false by {
                            if block_at(ts, q3 as int, qq, d2.body) {
                            }
                        }
                    }
                    return Err(err);
                },
            };
            proof {
                assert forall|d2: PredicateDecl<()>, qq: int| #[trigger]
                    predicate_at(ts, pos as int, qq, d2) && !continues(ts, qq, 0) implies qq == q4 by {
                    if block_at(ts, q3 as int, qq, d2.body) {
                    }
                }
            }
            let es = e.span();
            proof {
                lemma_expr_span(self.src@, e);
            }
            let ret = Statement::Return { expression: e, span: es };
            let statements = vec![ret];
            proof {
                assert(statements@.subrange(0, 0) =~= Seq::<Statement<()>>::empty());
            }
            let body = Block { statements, span: es };
            let span = self.span_between(pos, q4);
            Ok((PredicateDecl { name, params, body, span }, q4))
        } else {
            let (body, q4) = match self.block(q3) {
                Ok(x) => x,
                Err(err) => {
                    proof {
                        assert forall|d2: PredicateDecl<()>, qq: int| #[trigger]
                            predicate_at(ts, pos as int, qq, d2) && !continues(ts, qq, 0) implies false by {
                            assert(block_at(ts, q3 as int, qq, d2.body));
                        }
                    }
                    return Err(err);
                },
            };
            proof {
                assert forall|d2: PredicateDecl<()>, qq: int| #[trigger]
                    predicate_at(ts, pos as int, qq, d2) && !continues(ts, qq, 0) implies qq == q4 by {
                    assert(block_at(ts, q3 as int, qq, d2.body));
                }
            }
            let span = self.span_between(pos, q4);
            Ok((PredicateDecl { name, params, body, span }, q4))
        }
    }
}

/// Items read up to `p`, then one more item from `p` to `q`.
proof fn lemma_items_push(ts: Seq<TokenView>, items: Seq<Item<()>>, p: int, q: int, item: Item<()>)
    requires
        items_at(ts, 0, p, items),
        item_at(ts, p, q, item),
        0 <= p < q <= ts.len(),
    ensures
        items_at(ts, 0, q, items.push(item)),
{
    assert(items.push(item).drop_last() =~= items);
    assert(is_boundary(ts, p));
}

impl<'a> Parser<'a> {
    /// Whether token `k` is a word that is not a keyword.
    fn plain_word(&self, k: usize) -> (r: bool)
        ensures
            r == is_plain_word(self.tv(), k as int),
    {
        k < self.toks.len() && self.toks[k].kind == TokenKind::Ident && !keyword(&self.toks[k].text)
    }

    /// Reads the target of a contract at `pos`: a name between backquotes, or names joined by
    /// `::` with nothing between them.
    fn target(&self, pos: usize) -> (r: Result<(Identifier<()>, usize), ParseError>)
        requires
            self.wf(),
            pos <= self.n(),
        ensures
            match r {
                Ok((id, q)) => pos < q <= self.n() && ident_ok(self.src@, id) && target_at(
                    self.tv(),
                    pos as int,
                    q as int,
                    id,
                ),
                Err(err) => err_ok(self.src@, err),
            },
            forall|id2: Identifier<()>, q2: int| #[trigger]
                target_at(self.tv(), pos as int, q2, id2) && !is_punct(self.tv(), q2, Punct::ColonColon)
                    ==> (r matches Ok((_, q3)) && q3 == q2),
    {
        let ghost ts = self.tv();
        if !self.plain_word(pos) {
            let id = match self.name(pos) {
                Ok(x) => x,
                Err(err) => {
                    proof {
                        assert forall|id2: Identifier<()>, q2: int| #[trigger]
                            target_at(ts, pos as int, q2, id2) && !is_punct(ts, q2, Punct::ColonColon) implies false by {
                            assert(name_at(ts, pos as int, id2));
                        }
                    }
                    return Err(err);
                },
            };
            return Ok((id, pos + 1));
        }
        let ghost src = self.src@;
        proof {
            assert(token_ok(src, self.toks@[pos as int]));
        }
        let start = self.toks[pos].span.start;
        let mut name = self.toks[pos].text.clone();
        let mut q = pos + 1;
        while q + 1 < self.toks.len() && self.at_punct(q, Punct::ColonColon) && self.plain_word(q + 1)
            && self.toks[q].span.start == self.toks[q - 1].span.end && self.toks[q + 1].span.start
            == self.toks[q].span.end
            invariant
                self.wf(),
                src == self.src@,
                pos < q <= self.n(),
                start == self.toks@[pos as int].span.start,
                name@ == src.subrange(start as int, self.toks@[q - 1].span.end as int),
                path_at(self.tv(), pos as int, q as int),
                name@ == path_text(self.tv(), pos as int, q as int),
                ts == self.tv(),
                is_plain_word(ts, pos as int),
                forall|id2: Identifier<()>, q2: int| #[trigger]
                    target_at(ts, pos as int, q2, id2) && !is_punct(ts, q2, Punct::ColonColon) ==> q <= q2
                        && path_at(ts, pos as int, q2),
            decreases self.n() - q,
        {
            proof {
                assert(token_ok(src, self.toks@[q as int]));
                assert(token_ok(src, self.toks@[q + 1]));
                assert(token_ok(src, self.toks@[q - 1]));
                assert(token_ok(src, self.toks@[pos as int]));
                if pos < q - 1 {
                    assert(self.toks@[pos as int].span.end <= self.toks@[q - 1].span.start);
                }
                let a = start as int;
                let b = self.toks@[q - 1].span.end as int;
                let c = self.toks@[q as int].span.end as int;
                let d = self.toks@[q + 1].span.end as int;
                assert(src.subrange(a, d) =~= src.subrange(a, b) + src.subrange(b, c) + src.subrange(c, d));
            }
            name.append(self.toks[q].text.as_str());
            name.append(self.toks[q + 1].text.as_str());
            proof {
                assert(path_at(self.tv(), pos as int, q + 2));
                assert(path_text(self.tv(), pos as int, q + 2) == path_text(self.tv(), pos as int, q as int)
                    + self.toks@[q as int].text@ + self.toks@[q + 1].text@);
            }
            proof {
                assert forall|id2: Identifier<()>, q2: int| #[trigger]
                    target_at(ts, pos as int, q2, id2) && !is_punct(ts, q2, Punct::ColonColon) implies q + 2
                    <= q2 && path_at(ts, pos as int, q2) by {
                    if q == q2 {
                    } else {
                        lemma_path_prefix(ts, pos as int, q as int, q2);
                    }
                }
            }
            q = q + 2;
        }
        proof {
            assert forall|id2: Identifier<()>, q2: int| #[trigger]
                target_at(ts, pos as int, q2, id2) && !is_punct(ts, q2, Punct::ColonColon) implies q2 == q by {
                if q < q2 {
                    lemma_path_prefix(ts, pos as int, q as int, q2);
                }
            }
        }
        let span = self.span_between(pos, q);
        Ok((Identifier::new(Symbol { name }, span), q))
    }

    /// Reads a contract at `pos`: `contract for`, its target and its body.
    fn contract(&self, pos: usize) -> (r: Result<(ContractDecl<()>, usize), ParseError>)
        requires
            self.wf(),
            pos <= self.n(),
        ensures
            match r {
                Ok((c, q)) => pos < q <= self.n() && span_at(self.src@, c.span) && ident_ok(
                    self.src@,
                    c.target,
                ) && block_ok(self.src@, c.body) && contract_at(self.tv(), pos as int, q as int, c),
                Err(err) => err_ok(self.src@, err),
            },
            forall|c2: ContractDecl<()>, q2: int| #[trigger]
                contract_at(self.tv(), pos as int, q2, c2) ==> (r matches Ok((_, q3)) && q3 == q2),
    {
        let ghost ts = self.tv();
        let q = match self.expect_word(pos, "contract", "expected `contract`") {
            Ok(x) => x,
            Err(err) => {
                return Err(err);
            },
        };
        let q2 = match self.expect_word(q, "for", "expected `for`") {
            Ok(x) => x,
            Err(err) => {
                return Err(err);
            },
        };
        let (target, q3) = match self.target(q2) {
            Ok(x) => x,
            Err(err) => {
                proof {
                    assert forall|c2: ContractDecl<()>, qq: int| #[trigger]
                        contract_at(ts, pos as int, qq, c2) implies false by {
                        let m = choose|m: int|
                            pos + 2 < m < qq && #[trigger] is_punct(ts, m, Punct::LBrace) && target_at(
                                ts,
                                pos + 2,
                                m,
                                c2.target,
                            ) && block_at(ts, m, qq, c2.body);
                        assert(target_at(ts, pos + 2, m, c2.target));
                    }
                }
                return Err(err);
            },
        };
        let (body, q4) = match self.block(q3) {
            Ok(x) => x,
            Err(err) => {
                proof {
                    assert forall|c2: ContractDecl<()>, qq: int| #[trigger]
                        contract_at(ts, pos as int, qq, c2) implies false by {
                        let m = choose|m: int|
                            pos + 2 < m < qq && #[trigger] is_punct(ts, m, Punct::LBrace) && target_at(
                                ts,
                                pos + 2,
                                m,
                                c2.target,
                            ) && block_at(ts, m, qq, c2.body);
                        assert(target_at(ts, pos + 2, m, c2.target));
                        assert(block_at(ts, m, qq, c2.body));
                    }
                }
                return Err(err);
            },
        };
        proof {
            assert forall|c2: ContractDecl<()>, qq: int| #[trigger]
                contract_at(ts, pos as int, qq, c2) implies qq == q4 by {
                let m = choose|m: int|
                    pos + 2 < m < qq && #[trigger] is_punct(ts, m, Punct::LBrace) && target_at(
                        ts,
                        pos + 2,
                        m,
                        c2.target,
                    ) && block_at(ts, m, qq, c2.body);
                assert(target_at(ts, pos + 2, m, c2.target));
                assert(block_at(ts, m, qq, c2.body));
            }
        }
        let span = self.span_between(pos, q4);
        let c = ContractDecl { target, body, span };
        proof {
            assert(is_punct(self.tv(), q3 as int, Punct::LBrace));
            assert(contract_at(self.tv(), pos as int, q4 as int, c));
        }
        Ok((c, q4))
    }

    /// Reads the items of a document.
    fn document(&self) -> (r: Result<Document<()>, ParseError>)
        requires
            self.wf(),
        ensures
            match r {
                Ok(d) => document_ok(self.src@, d) && document_at(self.tv(), d) && d.span.start == 0
                    && d.span.end == self.eof.end,
                Err(err) => err_ok(self.src@, err),
            },
            forall|d2: Document<()>| #[trigger] document_at(self.tv(), d2) ==> r is Ok,
    {
        let ghost ts = self.tv();
        let mut items: Vec<Item<()>> = Vec::new();
        let mut p: usize = 0;
        proof {
            lemma_statement_words();
            assert(items_at(self.tv(), 0, 0, items@));
            assert forall|d2: Document<()>| #[trigger] document_at(ts, d2) implies item_tail(ts, 0, ts.len() as int) by {
                lemma_items_tail(ts, 0, ts.len() as int, d2.items@);
            }
        }
        while p < self.toks.len()
            invariant
                self.wf(),
                ts == self.tv(),
                p <= self.n(),
                forall|k: int| 0 <= k < items@.len() ==> #[trigger] item_ok(self.src@, items@[k]),
                items_at(self.tv(), 0, p as int, items@),
                forall|d2: Document<()>| #[trigger] document_at(ts, d2) ==> item_tail(ts, p as int, ts.len() as int),
                "contract"@ == seq!['c', 'o', 'n', 't', 'r', 'a', 'c', 't'],
                "predicate"@ == seq!['p', 'r', 'e', 'd', 'i', 'c', 'a', 't', 'e'],
            decreases self.n() - p,
        {
            let ghost before = items@;
            let ghost pp = p as int;
            proof {
                assert forall|d2: Document<()>| #[trigger] document_at(ts, d2) implies exists|m: int|
                    pp < m <= ts.len() && #[trigger] is_boundary(ts, m) && (exists|it: Item<()>|
                        #[trigger] item_at(ts, pp, m, it)) && item_tail(ts, m, ts.len() as int) && !continues(ts, m, 0) by {
                    assert(item_tail(ts, pp, ts.len() as int));
                    let m = choose|m: int|
                        pp < m <= ts.len() && #[trigger] is_boundary(ts, m) && (exists|it: Item<()>|
                            #[trigger] item_at(ts, pp, m, it)) && item_tail(ts, m, ts.len() as int);
                    if m < ts.len() {
                        let m2 = choose|m2: int|
                            m < m2 <= ts.len() && #[trigger] is_boundary(ts, m2) && (exists|it: Item<()>|
                                #[trigger] item_at(ts, m, m2, it)) && item_tail(ts, m2, ts.len() as int);
                        let it2 = choose|it2: Item<()>| #[trigger] item_at(ts, m, m2, it2);
                        lemma_item_start(ts, m, m2, it2);
                    }
                    assert(is_boundary(ts, m));
                }
            }
            if self.at_word(p, "contract") {
                let (c, q) = match self.contract(p) {
                    Ok(x) => x,
                    Err(err) => {
                        proof {
                            assert forall|d2: Document<()>| #[trigger] document_at(ts, d2) implies false by {
                                let m = choose|m: int|
                                    pp < m <= ts.len() && #[trigger] is_boundary(ts, m) && (exists|it: Item<()>|
                                        #[trigger] item_at(ts, pp, m, it)) && item_tail(ts, m, ts.len() as int)
                                        && !continues(ts, m, 0);
                                let it = choose|it: Item<()>| #[trigger] item_at(ts, pp, m, it);
                                assert(contract_at(ts, pp, m, it->Contract_0));
                            }
                        }
                        return Err(err);
                    },
                };
                proof {
                    assert forall|d2: Document<()>| #[trigger] document_at(ts, d2) implies item_tail(ts, q as int, ts.len() as int) by {
                        let m = choose|m: int|
                            pp < m <= ts.len() && #[trigger] is_boundary(ts, m) && (exists|it: Item<()>|
                                #[trigger] item_at(ts, pp, m, it)) && item_tail(ts, m, ts.len() as int)
                                && !continues(ts, m, 0);
                        let it = choose|it: Item<()>| #[trigger] item_at(ts, pp, m, it);
                        assert(contract_at(ts, pp, m, it->Contract_0));
                    }
                }
                items.push(Item::Contract(c));
                proof {
                    assert(item_at(self.tv(), p as int, q as int, Item::Contract(c)));
                    lemma_items_push(self.tv(), before, p as int, q as int, Item::Contract(c));
                }
                p = q;
            } else if self.at_word(p, "predicate") {
                let (d, q) = match self.predicate(p) {
                    Ok(x) => x,
                    Err(err) => {
                        proof {
                            assert forall|d2: Document<()>| #[trigger] document_at(ts, d2) implies false by {
                                let m = choose|m: int|
                                    pp < m <= ts.len() && #[trigger] is_boundary(ts, m) && (exists|it: Item<()>|
                                        #[trigger] item_at(ts, pp, m, it)) && item_tail(ts, m, ts.len() as int)
                                        && !continues(ts, m, 0);
                                let it = choose|it: Item<()>| #[trigger] item_at(ts, pp, m, it);
                                assert(predicate_at(ts, pp, m, it->Predicate_0));
                            }
                        }
                        return Err(err);
                    },
                };
                proof {
                    assert forall|d2: Document<()>| #[trigger] document_at(ts, d2) implies item_tail(ts, q as int, ts.len() as int) by {
                        let m = choose|m: int|
                            pp < m <= ts.len() && #[trigger] is_boundary(ts, m) && (exists|it: Item<()>|
                                #[trigger] item_at(ts, pp, m, it)) && item_tail(ts, m, ts.len() as int)
                                && !continues(ts, m, 0);
                        let it = choose|it: Item<()>| #[trigger] item_at(ts, pp, m, it);
                        assert(predicate_at(ts, pp, m, it->Predicate_0));
                    }
                }
                items.push(Item::Predicate(d));
                proof {
                    assert(item_at(self.tv(), p as int, q as int, Item::Predicate(d)));
                    lemma_items_push(self.tv(), before, p as int, q as int, Item::Predicate(d));
                }
                p = q;
            } else {
                proof {
                    assert forall|d2: Document<()>| #[trigger] document_at(ts, d2) implies false by {
                        let m = choose|m: int|
                            pp < m <= ts.len() && #[trigger] is_boundary(ts, m) && (exists|it: Item<()>|
                                #[trigger] item_at(ts, pp, m, it)) && item_tail(ts, m, ts.len() as int)
                                && !continues(ts, m, 0);
                        let it = choose|it: Item<()>| #[trigger] item_at(ts, pp, m, it);
                        lemma_item_start(ts, pp, m, it);
                    }
                }
                return Err(self.err_at(p, "expected `contract` or `predicate`"));
            }
            proof {
                assert forall|k: int| 0 <= k < items@.len() implies #[trigger] item_ok(self.src@, items@[k]) by {
                    if k < before.len() {
                        assert(items@[k] == before[k]);
                    }
                }
            }
        }
        let span = Span { start: 0, end: self.eof.end, line: 1, column: 1 };
        Ok(Document { items, span })
    }
}

/// The message of a diagnostic that parsing reports: a syntax error, or a call of something
/// other than a named predicate.
pub open spec fn parse_error_message(m: Seq<char>) -> bool {
    ||| (m.len() >= 14 && m.subrange(0, 14) == "syntax error: "@)
    ||| m == "only named predicate calls are supported in phase 1"@
}

/// The source reads as the document `d`: it splits into tokens ([`lexes_to`]) that read as `d`
/// ([`document_at`]).
pub open spec fn reads_as(src: Seq<char>, d: Document<()>) -> bool {
    exists|ts: Seq<Token>| lexes_to(src, ts) && #[trigger] document_at(token_views(ts), d)
}

/// Parses a document. It succeeds exactly when the source reads as some document
/// ([`reads_as`]); the tree is then one the source reads as, every node of it stands at a span of
/// the source and every name and literal is spelled there as in the source ([`document_ok`]).
/// Otherwise the diagnostic says where reading stopped.
pub fn parse_document(source_name: &str, source: &str) -> (r: Result<Document<()>, Diagnostic>)
    requires
        source@.len() < usize::MAX,
    ensures
        match r {
            Ok(d) => document_ok(source@, d) && d.span.start == 0 && d.span.end == source@.len()
                && reads_as(source@, d),
            Err(d) => d.source@ == source_name@ && parse_error_message(d.message@) && (d.span matches Some(
                sp,
            ) && if d.message@ == "only named predicate calls are supported in phase 1"@ {
                span_at(source@, sp)
            } else {
                sp.start == 0 && sp.end == 0 && exists|p: int|
                    0 <= p <= source@.len() && sp.line == #[trigger] line_of(source@, p) && sp.column
                        == column_of(source@, p)
            }) && forall|d2: Document<()>| !#[trigger] reads_as(source@, d2),
        },
{
    let cs = chars_of(source);
    match lex(&cs) {
        Err(e) => {
            let mut m = "syntax error: ".to_owned();
            m.append(e.message.as_str());
            proof {
                reveal_strlit("syntax error: ");
                assert(m@.subrange(0, 14) =~= "syntax error: "@);
            }
            let span = Span { start: 0, end: 0, line: e.at.line, column: e.at.column };
            proof {
                reveal_strlit("only named predicate calls are supported in phase 1");
                assert(m@.len() >= 14 && m@[0] == 's');
                assert(m@ != "only named predicate calls are supported in phase 1"@);
                assert(line_of(source@, e.at.pos as int) == e.at.line);
            }
            proof {
                assert forall|d2: Document<()>| !#[trigger] reads_as(source@, d2) by {
                    if reads_as(source@, d2) {
                        let ts = choose|ts: Seq<Token>| lexes_to(source@, ts) && #[trigger] document_at(token_views(ts), d2);
                        assert(lexes_to(cs@, ts));
                    }
                }
            }
            Err(Diagnostic::new(source_name, m, Some(span)))
        },
        Ok((toks, end)) => {
            proof {
                lemma_token_count(cs@, toks@);
            }
            let parser = Parser {
                toks: &toks,
                eof: Span { start: end.pos, end: end.pos, line: end.line, column: end.column },
                src: Ghost(cs@),
            };
            match parser.document() {
                Ok(d) => {
                    proof {
                        assert(lexes_to(source@, toks@) && document_at(token_views(toks@), d));
                    }
                    Ok(d)
                },
                Err(pe) => {
                    let m = if pe.syntax {
                        let mut m = "syntax error: ".to_owned();
                        m.append(pe.message.as_str());
                        proof {
                            reveal_strlit("syntax error: ");
                            assert(m@.subrange(0, 14) =~= "syntax error: "@);
                        }
                        m
                    } else {
                        pe.message
                    };
                    proof {
                        assert forall|d2: Document<()>| !#[trigger] reads_as(source@, d2) by {
                            if reads_as(source@, d2) {
                                let ts = choose|ts: Seq<Token>| lexes_to(source@, ts) && #[trigger] document_at(token_views(ts), d2);
                                assert(lexes_to(cs@, ts));
                                assert(token_views(ts) == token_views(toks@));
                                assert(document_at(parser.tv(), d2));
                            }
                        }
                    }
                    let span = if pe.syntax {
                        Span { start: 0, end: 0, line: pe.span.line, column: pe.span.column }
                    } else {
                        pe.span
                    };
                    proof {
                        reveal_strlit("only named predicate calls are supported in phase 1");
                        if pe.syntax {
                            assert(m@[0] == 's');
                            assert(m@ != "only named predicate calls are supported in phase 1"@);
                            assert(line_of(source@, pe.span.start as int) == pe.span.line);
                        }
                    }
                    Err(Diagnostic::new(source_name, m, Some(span)))
                },
            }
        },
    }
}

} // verus!
