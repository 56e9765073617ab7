//! A source splits into tokens in one way only: trivia is read the same way from wherever it
//! starts, and a token is fixed by where it starts.
use vstd::prelude::*;
use crate::parser::lexer::{
    Punct, Token, TokenKind, comment_starts, ident_char, ident_start, is_space, lexes_to,
    punct_maximal, punct_text, token_maximal, token_ok, token_views, trivia, trivia_step,
};

verus! {

/// Trivia read from `a` that reaches `b` and a later `c`: another piece of trivia starts at `b`.
pub proof fn lemma_trivia_det(src: Seq<char>, a: int, b: int, c: int)
    requires
        trivia(src, a, b),
        trivia(src, a, c),
        a <= b < c,
    ensures
        b < trivia_step(src, b) <= c,
        trivia(src, trivia_step(src, b), c),
    decreases b - a,
{
    if a < b {
        lemma_trivia_det(src, trivia_step(src, a), b, c);
    }
}

/// A character that starts punctuation.
pub open spec fn punct_char(c: char) -> bool {
    ||| c == '{' || c == '}' || c == '(' || c == ')' || c == '[' || c == ']'
    ||| c == ',' || c == ';' || c == '?' || c == ':' || c == '.' || c == '='
    ||| c == '!' || c == '<' || c == '>' || c == '+' || c == '-' || c == '*'
    ||| c == '/' || c == '%' || c == '&' || c == '|'
}

/// The punctuation that starts with `c` when `n` follows (none when nothing does): the longest
/// that matches.
pub open spec fn punct_pick(c: char, n: Option<char>) -> Option<Punct> {
    if c == '{' {
        Some(Punct::LBrace)
    } else if c == '}' {
        Some(Punct::RBrace)
    } else if c == '(' {
        Some(Punct::LParen)
    } else if c == ')' {
        Some(Punct::RParen)
    } else if c == '[' {
        Some(Punct::LBracket)
    } else if c == ']' {
        Some(Punct::RBracket)
    } else if c == ',' {
        Some(Punct::Comma)
    } else if c == ';' {
        Some(Punct::Semi)
    } else if c == '?' {
        Some(Punct::Question)
    } else if c == ':' {
        Some(if n == Some(':') { Punct::ColonColon } else { Punct::Colon })
    } else if c == '.' {
        Some(if n == Some('.') { Punct::DotDot } else { Punct::Dot })
    } else if c == '=' {
        Some(if n == Some('=') { Punct::EqEq } else { Punct::Assign })
    } else if c == '!' {
        Some(if n == Some('=') { Punct::NotEq } else { Punct::Bang })
    } else if c == '<' {
        Some(if n == Some('=') { Punct::Le } else { Punct::Lt })
    } else if c == '>' {
        Some(if n == Some('=') { Punct::Ge } else { Punct::Gt })
    } else if c == '+' {
        Some(Punct::Plus)
    } else if c == '-' {
        Some(Punct::Minus)
    } else if c == '*' {
        Some(if n == Some('*') { Punct::StarStar } else { Punct::Star })
    } else if c == '/' {
        Some(Punct::Slash)
    } else if c == '%' {
        Some(Punct::Percent)
    } else if c == '&' {
        Some(if n == Some('&') { Punct::AmpAmp } else { Punct::Amp })
    } else if c == '|' && n == Some('|') {
        Some(Punct::PipePipe)
    } else {
        None
    }
}

/// The character after offset `s`, if there is one.
pub open spec fn next_char(src: Seq<char>, s: int) -> Option<char> {
    if 0 <= s + 1 < src.len() {
        Some(src[s + 1])
    } else {
        None
    }
}

/// A punctuation token that takes two characters where it can is the one [`punct_pick`] gives.
pub proof fn lemma_punct_pick(src: Seq<char>, t: Token)
    requires
        token_ok(src, t),
        token_maximal(src, t),
        t.kind is Punct,
    ensures
        punct_pick(src[t.span.start as int], next_char(src, t.span.start as int)) == Some(
            t.kind->Punct_0,
        ),
{
    let s = t.span.start as int;
    let e = t.span.end as int;
    let p = t.kind->Punct_0;
    assert(t.text@ == src.subrange(s, e));
    assert(t.text@ == punct_text(p));
    assert(src[s] == punct_text(p)[0]);
    if punct_text(p).len() == 2 {
        assert(src[s + 1] == punct_text(p)[1]);
    }
    assert(punct_maximal(src, p, e));
}

/// What the first characters of a token tell of its kind.
pub proof fn lemma_token_first(src: Seq<char>, t: Token)
    requires
        token_ok(src, t),
    ensures
        t.span.start < t.span.end <= src.len(),
        match t.kind {
            TokenKind::Ident => ident_start(src[t.span.start as int]),
            TokenKind::Number => '0' <= src[t.span.start as int] <= '9',
            TokenKind::Escaped => src[t.span.start as int] == '`',
            TokenKind::Arg => src[t.span.start as int] == '$' && t.span.start + 1 < src.len()
                && src[t.span.start + 1] == 'a',
            TokenKind::Res => src[t.span.start as int] == '$' && t.span.start + 1 < src.len()
                && src[t.span.start + 1] == 'r',
            TokenKind::Punct(p) => punct_char(src[t.span.start as int]),
        },
{
    let s = t.span.start as int;
    let e = t.span.end as int;
    match t.kind {
        TokenKind::Ident => {
            assert(crate::parser::lexer::is_name(t.text@));
            assert(ident_start(t.text@[0]));
            assert(t.text@[0] == src.subrange(s, e)[0]);
            assert(src.subrange(s, e)[0] == src[s]);
            assert(ident_start(src[s]));
        },
        TokenKind::Number => {
            assert(t.text@[0] == src[s]);
        },
        TokenKind::Arg => {
            let w = seq!['$', 'a', 'r', 'g', '['] + t.text@ + seq![']'];
            assert(w.len() == 6 + t.text@.len());
            assert(src.subrange(s, e) == w);
            assert(e - s == w.len());
            assert(seq!['$', 'a', 'r', 'g', '['][1] == 'a');
            assert(w[1] == 'a');
            assert(w[0] == '$');
            assert(src.subrange(s, e)[0] == w[0]);
            assert(src.subrange(s, e)[1] == w[1]);
            assert(src[s + 1] == 'a');
        },
        TokenKind::Res => {
            assert(src.subrange(s, s + 5)[0] == '$');
            assert(src.subrange(s, s + 5)[1] == 'r');
        },
        TokenKind::Punct(p) => {
            assert(t.text@[0] == src[s]);
            assert(src[s] == punct_text(p)[0]);
        },
        _ => {},
    }
}

} // verus!

verus! {

/// A token as long as it can be ends no earlier than another of its kind that starts where it
/// does.
proof fn lemma_token_end(src: Seq<char>, t1: Token, t2: Token)
    requires
        token_ok(src, t1),
        token_maximal(src, t1),
        token_ok(src, t2),
        t1.span.start == t2.span.start,
        t1.kind == t2.kind,
    ensures
        t2.span.end <= t1.span.end,
{
    let s = t1.span.start as int;
    let e1 = t1.span.end as int;
    let e2 = t2.span.end as int;
    assert(t2.span.end <= src.len());
    if e1 < e2 {
        match t1.kind {
            TokenKind::Ident => {
                assert(t2.text@[e1 - s] == src.subrange(s, e2)[e1 - s]);
                assert(crate::parser::lexer::is_name(t2.text@));
                assert(ident_char(t2.text@[e1 - s]));
            },
            TokenKind::Number => {
                assert(t2.text@[e1 - s] == src.subrange(s, e2)[e1 - s]);
                assert('0' <= t2.text@[e1 - s] <= '9');
            },
            TokenKind::Escaped => {
                assert(t2.text@[e1 - s - 2] == src.subrange(s + 1, e2 - 1)[e1 - s - 2]);
                assert(t2.text@[e1 - s - 2] != '`');
            },
            TokenKind::Arg => {
                let w1 = seq!['$', 'a', 'r', 'g', '['] + t1.text@ + seq![']'];
                let w2 = seq!['$', 'a', 'r', 'g', '['] + t2.text@ + seq![']'];
                assert(src.subrange(s, e1) == w1);
                assert(src.subrange(s, e2) == w2);
                assert(e1 - s == w1.len());
                assert(e2 - s == w2.len());
                assert(w1[e1 - s - 1] == ']');
                assert(src.subrange(s, e1)[e1 - s - 1] == src[e1 - 1]);
                assert(src.subrange(s, e2)[e1 - s - 1] == src[e1 - 1]);
                assert(w2[e1 - s - 1] == t2.text@[e1 - s - 6]);
                assert('0' <= t2.text@[e1 - s - 6] <= '9');
            },
            TokenKind::Res => {
                assert(src[e1 - 1] == ']');
                let d2 = src.subrange(s + 5, e2 - 1);
                assert(d2[e1 - 1 - s - 5] == src[e1 - 1]);
                assert('0' <= d2[e1 - 1 - s - 5] <= '9');
            },
            TokenKind::Punct(p) => {
                assert(t1.text@ == punct_text(p));
                assert(t2.text@ == punct_text(p));
            },
        }
    }
}

/// Two tokens that start at the same place, each well placed and as long as it can be, are the
/// same token.
pub proof fn lemma_token_unique(src: Seq<char>, t1: Token, t2: Token)
    requires
        token_ok(src, t1),
        token_maximal(src, t1),
        token_ok(src, t2),
        token_maximal(src, t2),
        t1.span.start == t2.span.start,
    ensures
        t1@ == t2@,
{
    lemma_token_first(src, t1);
    lemma_token_first(src, t2);
    let s = t1.span.start as int;
    if t1.kind is Punct && t2.kind is Punct {
        lemma_punct_pick(src, t1);
        lemma_punct_pick(src, t2);
    }
    assert(t1.kind == t2.kind);
    lemma_token_end(src, t1, t2);
    lemma_token_end(src, t2, t1);
    let e = t1.span.end as int;
    if t1.kind == TokenKind::Arg {
        let w1 = seq!['$', 'a', 'r', 'g', '['] + t1.text@ + seq![']'];
        let w2 = seq!['$', 'a', 'r', 'g', '['] + t2.text@ + seq![']'];
        assert(src.subrange(s, e) == w1);
        assert(src.subrange(s, e) == w2);
        assert(t1.text@ =~= w1.subrange(5, w1.len() - 1));
        assert(t2.text@ =~= w2.subrange(5, w2.len() - 1));
    }
    assert(t1.span == t2.span);
}

} // verus!

verus! {

/// The characters of `$arg[N]` and `$res[N]` tokens.
pub proof fn lemma_dollar_parts(src: Seq<char>, t: Token)
    requires
        token_ok(src, t),
        t.kind == TokenKind::Arg || t.kind == TokenKind::Res,
    ensures
        t.span.end - t.span.start >= 7,
        t.span.end <= src.len(),
        src[t.span.start as int] == '$',
        src[t.span.start + 4] == '[',
        t.kind == TokenKind::Arg ==> src[t.span.start + 1] == 'a' && src[t.span.start + 2] == 'r'
            && src[t.span.start + 3] == 'g',
        t.kind == TokenKind::Res ==> src[t.span.start + 1] == 'r' && src[t.span.start + 2] == 'e'
            && src[t.span.start + 3] == 's',
        forall|k: int| t.span.start + 5 <= k < t.span.end - 1 ==> '0' <= #[trigger] src[k] <= '9',
        src[t.span.end - 1] == ']',
{
    let s = t.span.start as int;
    let e = t.span.end as int;
    if t.kind == TokenKind::Arg {
        let h = seq!['$', 'a', 'r', 'g', '['];
        let w = h + t.text@ + seq![']'];
        assert(src.subrange(s, e) == w);
        assert(e - s == w.len());
        assert forall|k: int| 0 <= k < 5 implies src[s + k] == #[trigger] h[k] by {
            assert(src.subrange(s, e)[k] == w[k]);
        }
        assert(src[s + 1] == h[1]);
        assert(src[s + 2] == h[2]);
        assert(src[s + 3] == h[3]);
        assert(src[s + 4] == h[4]);
        assert(src[s + 0] == h[0]);
        assert forall|k: int| s + 5 <= k < e - 1 implies '0' <= #[trigger] src[k] <= '9' by {
            assert(src.subrange(s, e)[k - s] == w[k - s]);
            assert(w[k - s] == t.text@[k - s - 5]);
        }
        assert(src.subrange(s, e)[e - s - 1] == w[e - s - 1]);
    } else {
        let h = seq!['$', 'r', 'e', 's', '['];
        assert(src.subrange(s, s + 5) == h);
        assert forall|k: int| 0 <= k < 5 implies src[s + k] == #[trigger] h[k] by {
            assert(src.subrange(s, s + 5)[k] == h[k]);
        }
        assert(src[s + 1] == h[1]);
        assert(src[s + 2] == h[2]);
        assert(src[s + 3] == h[3]);
        assert(src[s + 4] == h[4]);
        assert(src[s + 0] == h[0]);
        let d = src.subrange(s + 5, e - 1);
        assert forall|k: int| s + 5 <= k < e - 1 implies '0' <= #[trigger] src[k] <= '9' by {
            assert(d[k - s - 5] == src[k]);
        }
    }
}

} // verus!

verus! {

/// Where the token after the first `n` tokens starts, or the end of the source when there is none.
pub open spec fn next_start(src: Seq<char>, ts: Seq<Token>, n: int) -> int {
    if 0 <= n < ts.len() {
        ts[n].span.start as int
    } else {
        src.len() as int
    }
}

/// The tokens `ts` read so far, up to offset `pos`, are the first tokens of `ts2`, and what stands
/// from `pos` to the next token of `ts2` is trivia.
pub open spec fn agrees(src: Seq<char>, ts2: Seq<Token>, ts: Seq<Token>, pos: int) -> bool {
    &&& ts.len() <= ts2.len()
    &&& forall|i: int| 0 <= i < ts.len() ==> #[trigger] ts2[i]@ == ts[i]@
    &&& pos <= next_start(src, ts2, ts.len() as int)
    &&& trivia(src, pos, next_start(src, ts2, ts.len() as int))
}

/// No token starts where trivia does.
proof fn lemma_token_not_trivia(src: Seq<char>, t: Token)
    requires
        token_ok(src, t),
        token_maximal(src, t),
    ensures
        trivia_step(src, t.span.start as int) == -1,
{
    lemma_token_first(src, t);
    let s = t.span.start as int;
    if src[s] == '/' {
        lemma_punct_pick(src, t);
    }
}

/// Every tokenization agrees with the empty one at the start of the source.
pub proof fn lemma_agree_start(src: Seq<char>, ts2: Seq<Token>)
    requires
        lexes_to(src, ts2),
    ensures
        agrees(src, ts2, Seq::empty(), 0),
{
    if ts2.len() > 0 {
        assert(crate::parser::lexer::token_ok(src, ts2[0]));
    }
}

/// Trivia skipped from `pos` stops where the next token of `ts2` starts, or at the end.
pub proof fn lemma_agree_trivia(src: Seq<char>, ts2: Seq<Token>, ts: Seq<Token>, pos: int, pos2: int)
    requires
        lexes_to(src, ts2),
        agrees(src, ts2, ts, pos),
        0 <= pos <= pos2 <= src.len(),
        trivia(src, pos, pos2),
        pos2 < src.len() ==> !is_space(src[pos2]) && !comment_starts(src, pos2),
    ensures
        pos2 == next_start(src, ts2, ts.len() as int),
        agrees(src, ts2, ts, pos2),
{
    let n = ts.len() as int;
    let nx = next_start(src, ts2, n);
    if n < ts2.len() {
        assert(token_ok(src, ts2[n]));
        assert(token_maximal(src, ts2[n]));
        lemma_token_not_trivia(src, ts2[n]);
    }
    assert(nx <= src.len());
    if pos2 < nx {
        lemma_trivia_det(src, pos, pos2, nx);
        assert(trivia_step(src, pos2) == -1);
    } else if nx < pos2 {
        lemma_trivia_det(src, pos, nx, pos2);
        assert(n < ts2.len());
    }
    assert(trivia(src, pos2, pos2));
}

/// A comment that never closes cannot stand where trivia skipped from `pos` stops.
pub proof fn lemma_agree_unclosed(src: Seq<char>, ts2: Seq<Token>, ts: Seq<Token>, pos: int, x: int)
    requires
        agrees(src, ts2, ts, pos),
        0 <= pos <= x,
        trivia(src, pos, x),
        comment_starts(src, x),
        trivia_step(src, x) == -1,
    ensures
        !lexes_to(src, ts2),
{
    if lexes_to(src, ts2) {
        let n = ts.len() as int;
        let nx = next_start(src, ts2, n);
        if n < ts2.len() {
            assert(token_ok(src, ts2[n]));
            assert(token_maximal(src, ts2[n]));
            lemma_token_not_trivia(src, ts2[n]);
            lemma_token_first(src, ts2[n]);
            if src[nx] == '/' {
                lemma_punct_pick(src, ts2[n]);
            }
        }
        if x < nx {
            lemma_trivia_det(src, pos, x, nx);
        } else if nx < x {
            lemma_trivia_det(src, pos, nx, x);
        }
    }
}

/// A token read where the next token of `ts2` starts is that token.
pub proof fn lemma_agree_token(src: Seq<char>, ts2: Seq<Token>, ts: Seq<Token>, pos: int, t: Token)
    requires
        lexes_to(src, ts2),
        agrees(src, ts2, ts, pos),
        pos == next_start(src, ts2, ts.len() as int),
        pos < src.len(),
        token_ok(src, t),
        token_maximal(src, t),
        t.span.start == pos,
    ensures
        agrees(src, ts2, ts.push(t), t.span.end as int),
{
    let n = ts.len() as int;
    assert(token_ok(src, ts2[n]));
    assert(token_maximal(src, ts2[n]));
    lemma_token_unique(src, t, ts2[n]);
    let u = ts.push(t);
    assert forall|i: int| 0 <= i < u.len() implies #[trigger] ts2[i]@ == u[i]@ by {
        if i < n {
            assert(u[i] == ts[i]);
        }
    }
    if n + 1 < ts2.len() {
        assert(crate::parser::lexer::trivia_between(src, ts2, n));
        assert(token_ok(src, ts2[n + 1]));
        assert(token_ok(src, ts2[n]));
    } else {
        assert(ts2.last() == ts2[n]);
        assert(token_ok(src, ts2[n]));
    }
}

/// At the end of the source, the tokens read are all those of `ts2`.
pub proof fn lemma_agree_end(src: Seq<char>, ts2: Seq<Token>, ts: Seq<Token>)
    requires
        lexes_to(src, ts2),
        agrees(src, ts2, ts, src.len() as int),
    ensures
        token_views(ts2) == token_views(ts),
{
    let n = ts.len() as int;
    if n < ts2.len() {
        assert(token_ok(src, ts2[n]));
    }
    assert(ts2.len() == ts.len());
    assert forall|i: int| 0 <= i < ts.len() implies #[trigger] token_views(ts2)[i] == token_views(ts)[i] by {
        assert(ts2[i]@ == ts[i]@);
    }
    assert(token_views(ts2) =~= token_views(ts));
}

} // verus!
