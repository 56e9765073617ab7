//! Splits the source of a document into tokens.
//!
//! Whitespace, `//` line comments and `/* */` block comments separate tokens and are dropped.
//! Offsets and columns count characters; lines and columns start at 1.
use vstd::prelude::*;
use crate::ast::{Span, all_digits};
use crate::text::text_of;
use crate::parser::tokens::{
    agrees, lemma_agree_end, lemma_agree_start, lemma_agree_token, lemma_agree_trivia,
    lemma_agree_unclosed, lemma_dollar_parts, lemma_punct_pick, lemma_token_first, next_char,
    next_start, punct_pick,
};

verus! {

/// The line of the character at offset `i`: one more than the newlines before it.
pub open spec fn line_of(src: Seq<char>, i: int) -> nat
    decreases i,
{
    if i <= 0 {
        1
    } else {
        line_of(src, i - 1) + if src[i - 1] == '\n' {
            1nat
        } else {
            0nat
        }
    }
}

/// The column of the character at offset `i`: one more than the characters since the last
/// newline before it.
pub open spec fn column_of(src: Seq<char>, i: int) -> nat
    decreases i,
{
    if i <= 0 {
        1
    } else if src[i - 1] == '\n' {
        1
    } else {
        column_of(src, i - 1) + 1
    }
}

/// Lines and columns never exceed one more than the offset.
pub proof fn lemma_line_column_bound(src: Seq<char>, i: int)
    requires
        0 <= i,
    ensures
        line_of(src, i) <= i + 1,
        column_of(src, i) <= i + 1,
    decreases i,
{
    if i > 0 {
        lemma_line_column_bound(src, i - 1);
    }
}

/// The span starts and ends within the source, and its line and column are those of its start.
pub open spec fn span_at(src: Seq<char>, sp: Span) -> bool {
    &&& sp.start <= sp.end <= src.len()
    &&& sp.line == line_of(src, sp.start as int)
    &&& sp.column == column_of(src, sp.start as int)
}

/// A punctuation or operator token.
#[derive(Debug, Clone, Copy, PartialEq, Eq, Structural)]
pub enum Punct {
    LBrace,
    RBrace,
    LParen,
    RParen,
    LBracket,
    RBracket,
    Comma,
    Semi,
    Question,
    Colon,
    ColonColon,
    Dot,
    DotDot,
    Assign,
    EqEq,
    NotEq,
    Bang,
    Lt,
    Le,
    Gt,
    Ge,
    Plus,
    Minus,
    Star,
    StarStar,
    Slash,
    Percent,
    Amp,
    AmpAmp,
    PipePipe,
}

/// The text of a punctuation token.
pub open spec fn punct_text(p: Punct) -> Seq<char> {
    match p {
        Punct::LBrace => seq!['{'],
        Punct::RBrace => seq!['}'],
        Punct::LParen => seq!['('],
        Punct::RParen => seq![')'],
        Punct::LBracket => seq!['['],
        Punct::RBracket => seq![']'],
        Punct::Comma => seq![','],
        Punct::Semi => seq![';'],
        Punct::Question => seq!['?'],
        Punct::Colon => seq![':'],
        Punct::ColonColon => seq![':', ':'],
        Punct::Dot => seq!['.'],
        Punct::DotDot => seq!['.', '.'],
        Punct::Assign => seq!['='],
        Punct::EqEq => seq!['=', '='],
        Punct::NotEq => seq!['!', '='],
        Punct::Bang => seq!['!'],
        Punct::Lt => seq!['<'],
        Punct::Le => seq!['<', '='],
        Punct::Gt => seq!['>'],
        Punct::Ge => seq!['>', '='],
        Punct::Plus => seq!['+'],
        Punct::Minus => seq!['-'],
        Punct::Star => seq!['*'],
        Punct::StarStar => seq!['*', '*'],
        Punct::Slash => seq!['/'],
        Punct::Percent => seq!['%'],
        Punct::Amp => seq!['&'],
        Punct::AmpAmp => seq!['&', '&'],
        Punct::PipePipe => seq!['|', '|'],
    }
}

/// What a token is.
#[derive(Debug, Clone, Copy, PartialEq, Eq, Structural)]
pub enum TokenKind {
    /// A name or a keyword.
    Ident,
    /// A name between backquotes; the text is what stands between them.
    Escaped,
    /// A decimal number.
    Number,
    /// `$arg[N]`; the text is the digits of `N`.
    Arg,
    /// `$res[N]`; the text is the whole token.
    Res,
    Punct(Punct),
}

/// A token: its kind, its text and where it stands.
pub struct Token {
    pub kind: TokenKind,
    pub text: String,
    pub span: Span,
}

/// A token as plain values.
pub struct TokenView {
    pub kind: TokenKind,
    pub text: Seq<char>,
    pub span: Span,
}

impl View for Token {
    type V = TokenView;

    open spec fn view(&self) -> TokenView {
        TokenView { kind: self.kind, text: self.text@, span: self.span }
    }
}

/// The tokens as plain values.
pub open spec fn token_views(ts: Seq<Token>) -> Seq<TokenView> {
    ts.map_values(|t: Token| t@)
}

/// A character that may start a name.
pub open spec fn ident_start(c: char) -> bool {
    ('a' <= c <= 'z') || ('A' <= c <= 'Z') || c == '_'
}

/// A character that may continue a name.
pub open spec fn ident_char(c: char) -> bool {
    ident_start(c) || ('0' <= c <= '9')
}

/// A plain name: a letter or underscore, then letters, digits and underscores.
pub open spec fn is_name(t: Seq<char>) -> bool {
    t.len() > 0 && ident_start(t[0]) && forall|k: int| 0 <= k < t.len() ==> ident_char(#[trigger] t[k])
}

/// The token stands at its span and has the text the source has there.
pub open spec fn token_ok(src: Seq<char>, t: Token) -> bool {
    let s = t.span.start as int;
    let e = t.span.end as int;
    &&& span_at(src, t.span)
    &&& s < e
    &&& match t.kind {
        TokenKind::Ident => t.text@ == src.subrange(s, e) && is_name(t.text@),
        TokenKind::Escaped => e - s >= 3 && src[s] == '`' && src[e - 1] == '`' && t.text@
            == src.subrange(s + 1, e - 1) && forall|k: int| 0 <= k < t.text@.len() ==> #[trigger] t.text@[k]
            != '`',
        TokenKind::Number => t.text@ == src.subrange(s, e) && all_digits(t.text@),
        TokenKind::Arg => t.text@.len() > 0 && all_digits(t.text@) && src.subrange(s, e) == seq![
            '$',
            'a',
            'r',
            'g',
            '[',
        ] + t.text@ + seq![']'],
        TokenKind::Res => t.text@ == src.subrange(s, e) && e - s >= 7 && all_digits(
            src.subrange(s + 5, e - 1),
        ) && src.subrange(s, s + 5) == seq!['$', 'r', 'e', 's', '['] && src[e - 1] == ']',
        TokenKind::Punct(p) => t.text@ == src.subrange(s, e) && t.text@ == punct_text(p),
    }
}

/// Every token stands where [`token_ok`] says, and the tokens follow each other in the source
/// without overlapping.
pub open spec fn tokens_ok(src: Seq<char>, ts: Seq<Token>) -> bool {
    &&& forall|i: int| 0 <= i < ts.len() ==> #[trigger] token_ok(src, ts[i])
    &&& forall|i: int, j: int| 0 <= i < j < ts.len() ==> #[trigger] ts[i].span.end <= #[trigger] ts[j].span.start
}

/// A position in the source, with its line and column.
pub struct Cursor {
    pub pos: usize,
    pub line: usize,
    pub column: usize,
}

/// The cursor stands within the source, at the line and column of its position.
pub open spec fn cursor_ok(src: Seq<char>, c: Cursor) -> bool {
    c.pos <= src.len() && c.line == line_of(src, c.pos as int) && c.column == column_of(
        src,
        c.pos as int,
    )
}

/// Why lexing stopped, and where.
pub struct LexError {
    pub message: String,
    pub at: Cursor,
}

/// Moves the cursor past one character.
fn advance(src: &Vec<char>, c: &mut Cursor)
    requires
        src@.len() < usize::MAX,
        cursor_ok(src@, *old(c)),
        old(c).pos < src@.len(),
    ensures
        cursor_ok(src@, *final(c)),
        final(c).pos == old(c).pos + 1,
{
    proof {
        lemma_line_column_bound(src@, c.pos + 1);
    }
    if src[c.pos] == '\n' {
        c.line = c.line + 1;
        c.column = 1;
    } else {
        c.column = c.column + 1;
    }
    c.pos = c.pos + 1;
}

/// The character at `i`, if there is one.
fn peek(src: &Vec<char>, i: usize) -> (r: Option<char>)
    ensures
        match r {
            Some(ch) => i < src@.len() && ch == src@[i as int],
            None => i >= src@.len(),
        },
{
    if i < src.len() {
        Some(src[i])
    } else {
        None
    }
}

/// The punctuation token at the cursor, and its length, if one stands there.
fn punct_at(src: &Vec<char>, i: usize) -> (r: Option<(Punct, usize)>)
    requires
        i < src@.len() < usize::MAX,
        !comment_starts(src@, i as int),
    ensures
        match r {
            Some((p, n)) => (n == 1 || n == 2) && i + n <= src@.len() && src@.subrange(
                i as int,
                i + n,
            ) == punct_text(p) && punct_maximal(src@, p, i + n),
            None => punct_pick(src@[i as int], next_char(src@, i as int)) is None,
        },
{
    let c = src[i];
    let next = peek(src, i + 1);
    let two = |second: char, p2: Punct, p1: Punct| -> (r: (Punct, usize))
        ensures
            (next == Some(second) ==> r == (p2, 2usize)) && (next != Some(second) ==> r == (p1, 1usize)),
        {
            if next == Some(second) {
                (p2, 2)
            } else {
                (p1, 1)
            }
        };
    let r = if c == '{' {
        Some((Punct::LBrace, 1))
    } else if c == '}' {
        Some((Punct::RBrace, 1))
    } else if c == '(' {
        Some((Punct::LParen, 1))
    } else if c == ')' {
        Some((Punct::RParen, 1))
    } else if c == '[' {
        Some((Punct::LBracket, 1))
    } else if c == ']' {
        Some((Punct::RBracket, 1))
    } else if c == ',' {
        Some((Punct::Comma, 1))
    } else if c == ';' {
        Some((Punct::Semi, 1))
    } else if c == '?' {
        Some((Punct::Question, 1))
    } else if c == ':' {
        Some(two(':', Punct::ColonColon, Punct::Colon))
    } else if c == '.' {
        Some(two('.', Punct::DotDot, Punct::Dot))
    } else if c == '=' {
        Some(two('=', Punct::EqEq, Punct::Assign))
    } else if c == '!' {
        Some(two('=', Punct::NotEq, Punct::Bang))
    } else if c == '<' {
        Some(two('=', Punct::Le, Punct::Lt))
    } else if c == '>' {
        Some(two('=', Punct::Ge, Punct::Gt))
    } else if c == '+' {
        Some((Punct::Plus, 1))
    } else if c == '-' {
        Some((Punct::Minus, 1))
    } else if c == '*' {
        Some(two('*', Punct::StarStar, Punct::Star))
    } else if c == '/' {
        Some((Punct::Slash, 1))
    } else if c == '%' {
        Some((Punct::Percent, 1))
    } else if c == '&' {
        Some(two('&', Punct::AmpAmp, Punct::Amp))
    } else if c == '|' && next == Some('|') {
        Some((Punct::PipePipe, 2))
    } else {
        None
    };
    proof {
        match r {
            Some((p, n)) => {
                if n == 2 {
                    assert(src@.subrange(i as int, i + 2) =~= seq![src@[i as int], src@[i + 1]]);
                } else {
                    assert(src@.subrange(i as int, i + 1) =~= seq![src@[i as int]]);
                }
            },
            None => {},
        }
    }
    r
}

/// Moves the cursor past `n` characters.
fn advance_by(src: &Vec<char>, c: &mut Cursor, n: usize)
    requires
        src@.len() < usize::MAX,
        cursor_ok(src@, *old(c)),
        old(c).pos + n <= src@.len(),
    ensures
        cursor_ok(src@, *final(c)),
        final(c).pos == old(c).pos + n,
{
    let mut k: usize = 0;
    let ghost p0 = c.pos;
    while k < n
        invariant
            src@.len() < usize::MAX,
            cursor_ok(src@, *c),
            k <= n,
            c.pos == p0 + k,
            p0 + n <= src@.len(),
        decreases n - k,
    {
        advance(src, c);
        k = k + 1;
    }
}

/// A `//` or `/*` comment starts at offset `i`.
pub open spec fn comment_starts(src: Seq<char>, i: int) -> bool {
    0 <= i && i + 1 < src.len() && src[i] == '/' && (src[i + 1] == '/' || src[i + 1] == '*')
}

/// A character that separates tokens.
pub open spec fn is_space(c: char) -> bool {
    c == ' ' || c == '\t' || c == '\n' || c == '\r'
}

/// Where the line holding offset `k` ends: the offset of its newline, or the end of the source.
pub open spec fn line_end(src: Seq<char>, k: int) -> int
    decreases src.len() - k,
{
    if k >= src.len() {
        src.len() as int
    } else if src[k] == '\n' {
        k
    } else {
        line_end(src, k + 1)
    }
}

/// Where the block comment whose text goes on at offset `k` ends: just past the first `*/` at
/// or after `k`; -1 when none follows.
pub open spec fn comment_end(src: Seq<char>, k: int) -> int
    decreases src.len() - k,
{
    if k + 1 >= src.len() {
        -1
    } else if src[k] == '*' && src[k + 1] == '/' {
        k + 2
    } else {
        comment_end(src, k + 1)
    }
}

/// Where the piece of trivia starting at `a` ends: past a whitespace character, at the end
/// of the line of a `//` comment, past the `*/` of a `/*` comment; -1 when none starts there.
pub open spec fn trivia_step(src: Seq<char>, a: int) -> int {
    if is_space(src[a]) {
        a + 1
    } else if a + 1 < src.len() && src[a] == '/' && src[a + 1] == '/' {
        line_end(src, a + 2)
    } else if a + 1 < src.len() && src[a] == '/' && src[a + 1] == '*' {
        comment_end(src, a + 2)
    } else {
        -1
    }
}

/// `src[a..b]` separates tokens: it is made of whitespace, `//` comments running to the end
/// of their line and `/* */` comments.
pub open spec fn trivia(src: Seq<char>, a: int, b: int) -> bool
    decreases b - a,
{
    if a == b {
        true
    } else if a < b && a < trivia_step(src, a) <= b {
        trivia(src, trivia_step(src, a), b)
    } else {
        false
    }
}

/// Trivia followed by trivia is trivia.
pub proof fn lemma_trivia_concat(src: Seq<char>, a: int, b: int, c: int)
    requires
        a <= b <= c,
        trivia(src, a, b),
        trivia(src, b, c),
    ensures
        trivia(src, a, c),
    decreases b - a,
{
    if a < b {
        lemma_trivia_concat(src, trivia_step(src, a), b, c);
    }
}

/// Skips whitespace and comments; stops at the end of the source or at a character that
/// starts no trivia.
fn skip_trivia(src: &Vec<char>, c: &mut Cursor) -> (r: Result<(), LexError>)
    requires
        src@.len() < usize::MAX,
        cursor_ok(src@, *old(c)),
    ensures
        cursor_ok(src@, *final(c)),
        final(c).pos >= old(c).pos,
        match r {
            Ok(()) => trivia(src@, old(c).pos as int, final(c).pos as int) && (final(c).pos < src@.len()
                ==> !is_space(src@[final(c).pos as int]) && !comment_starts(src@, final(c).pos as int)),
            Err(e) => cursor_ok(src@, e.at) && trivia(src@, old(c).pos as int, e.at.pos as int)
                && comment_starts(src@, e.at.pos as int) && trivia_step(src@, e.at.pos as int) == -1,
        },
{
    let ghost p0 = c.pos as int;
    loop
        invariant
            src@.len() < usize::MAX,
            cursor_ok(src@, *c),
            c.pos >= p0,
            p0 == old(c).pos,
            trivia(src@, p0, c.pos as int),
        ensures
            cursor_ok(src@, *c),
            c.pos >= p0,
            trivia(src@, p0, c.pos as int),
            c.pos < src@.len() ==> !is_space(src@[c.pos as int]) && !comment_starts(src@, c.pos as int),
        decreases src@.len() - c.pos,
    {
        if c.pos >= src.len() {
            break;
        }
        let ch = src[c.pos];
        let next = peek(src, c.pos + 1);
        let ghost p1 = c.pos as int;
        if ch == ' ' || ch == '\t' || ch == '\n' || ch == '\r' {
            advance(src, c);
            proof {
                assert(trivia_step(src@, p1) == p1 + 1);
                assert(trivia(src@, p1 + 1, p1 + 1));
                assert(trivia(src@, p1, p1 + 1));
                lemma_trivia_concat(src@, p0, p1, p1 + 1);
            }
        } else if ch == '/' && next == Some('/') {
            advance_by(src, c, 2);
            while c.pos < src.len() && src[c.pos] != '\n'
                invariant
                    src@.len() < usize::MAX,
                    cursor_ok(src@, *c),
                    c.pos >= p1 + 2,
                    p1 + 1 < src@.len(),
                    src@[p1] == '/',
                    src@[p1 + 1] == '/',
                    line_end(src@, p1 + 2) == line_end(src@, c.pos as int),
                decreases src@.len() - c.pos,
            {
                advance(src, c);
            }
            proof {
                let e = c.pos as int;
                assert(line_end(src@, e) == e);
                assert(trivia_step(src@, p1) == e);
                assert(trivia(src@, e, e));
                assert(trivia(src@, p1, e));
                lemma_trivia_concat(src@, p0, p1, e);
            }
        } else if ch == '/' && next == Some('*') {
            let start = Cursor { pos: c.pos, line: c.line, column: c.column };
            advance_by(src, c, 2);
            loop
                invariant_except_break
                    trivia_step(src@, p1) == comment_end(src@, c.pos as int),
                invariant
                    src@.len() < usize::MAX,
                    cursor_ok(src@, *c),
                    c.pos >= p1 + 2,
                    p1 >= p0,
                    p0 == old(c).pos,
                    cursor_ok(src@, start),
                    start.pos == p1,
                    trivia(src@, p0, p1),
                    p1 + 1 < src@.len(),
                    src@[p1] == '/',
                    src@[p1 + 1] == '*',
                ensures
                    cursor_ok(src@, *c),
                    c.pos > p1 >= p0,
                    trivia(src@, p0, c.pos as int),
                decreases src@.len() - c.pos,
            {
                if c.pos + 1 >= src.len() {
                    proof {
                        assert(comment_end(src@, c.pos as int) == -1);
                    }
                    let mut m = String::new();
                    m.append("unterminated block comment");
                    return Err(LexError { message: m, at: start });
                }
                if src[c.pos] == '*' && src[c.pos + 1] == '/' {
                    let ghost e = c.pos as int;
                    advance_by(src, c, 2);
                    proof {
                        assert(comment_end(src@, e) == e + 2);
                        assert(trivia(src@, e + 2, e + 2));
                        assert(trivia(src@, p1, e + 2));
                        lemma_trivia_concat(src@, p0, p1, e + 2);
                    }
                    break;
                }
                advance(src, c);
            }
        } else {
            break;
        }
    }
    Ok(())
}

/// The character at offset `e` exists and is `ch`.
pub open spec fn next_is(src: Seq<char>, e: int, ch: char) -> bool {
    0 <= e < src.len() && src[e] == ch
}

/// A one-character punctuation token ending at `e` is not the first half of a two-character
/// one, and a `/` does not start a comment.
pub open spec fn punct_maximal(src: Seq<char>, p: Punct, e: int) -> bool {
    match p {
        Punct::Colon => !next_is(src, e, ':'),
        Punct::Dot => !next_is(src, e, '.'),
        Punct::Assign | Punct::Bang | Punct::Lt | Punct::Gt => !next_is(src, e, '='),
        Punct::Star => !next_is(src, e, '*'),
        Punct::Amp => !next_is(src, e, '&'),
        Punct::Slash => !next_is(src, e, '/') && !next_is(src, e, '*'),
        _ => true,
    }
}

/// Nothing that could extend the token follows it: a name or a number stops before a
/// character that would continue it, and punctuation takes two characters where it can.
pub open spec fn token_maximal(src: Seq<char>, t: Token) -> bool {
    let e = t.span.end as int;
    match t.kind {
        TokenKind::Ident => !(e < src.len() && ident_char(src[e])),
        TokenKind::Number => !(e < src.len() && '0' <= src[e] <= '9'),
        TokenKind::Punct(p) => punct_maximal(src, p, e),
        _ => true,
    }
}

/// What stands between token `i` and the next one is trivia.
pub open spec fn trivia_between(src: Seq<char>, ts: Seq<Token>, i: int) -> bool {
    trivia(src, ts[i].span.end as int, ts[i + 1].span.start as int)
}

/// What stands before the first token, between two tokens and after the last one, up to
/// offset `upto`, is trivia.
pub open spec fn gaps_are_trivia(src: Seq<char>, ts: Seq<Token>, upto: int) -> bool {
    if ts.len() == 0 {
        trivia(src, 0, upto)
    } else {
        &&& trivia(src, 0, ts[0].span.start as int)
        &&& forall|i: int| 0 <= i < ts.len() - 1 ==> #[trigger] trivia_between(src, ts, i)
        &&& trivia(src, ts.last().span.end as int, upto)
    }
}

/// Whether `ch` continues a name (`digits_only`: a number).
fn continues(ch: char, digits_only: bool) -> (r: bool)
    ensures
        r == if digits_only {
            '0' <= ch <= '9'
        } else {
            ident_char(ch)
        },
{
    if digits_only {
        '0' <= ch && ch <= '9'
    } else {
        ('a' <= ch && ch <= 'z') || ('A' <= ch && ch <= 'Z') || ch == '_' || ('0' <= ch && ch <= '9')
    }
}

/// Moves the cursor past the characters that may continue a name (`digits_only`: past the
/// digits).
fn skip_while(src: &Vec<char>, c: &mut Cursor, digits_only: bool)
    requires
        src@.len() < usize::MAX,
        cursor_ok(src@, *old(c)),
    ensures
        cursor_ok(src@, *final(c)),
        final(c).pos >= old(c).pos,
        forall|k: int|
            old(c).pos <= k < final(c).pos ==> if digits_only {
                '0' <= #[trigger] src@[k] <= '9'
            } else {
                ident_char(src@[k])
            },
        final(c).pos < src@.len() ==> if digits_only {
            !('0' <= src@[final(c).pos as int] <= '9')
        } else {
            !ident_char(src@[final(c).pos as int])
        },
{
    let ghost p0 = c.pos;
    while c.pos < src.len() && continues(src[c.pos], digits_only)
        invariant
            src@.len() < usize::MAX,
            cursor_ok(src@, *c),
            c.pos >= p0,
            forall|k: int|
                p0 <= k < c.pos ==> if digits_only {
                    '0' <= #[trigger] src@[k] <= '9'
                } else {
                    ident_char(src@[k])
                },
        decreases src@.len() - c.pos,
    {
        advance(src, c);
    }
}

/// Copies a cursor.
fn at(c: &Cursor) -> (r: Cursor)
    ensures
        r == *c,
{
    Cursor { pos: c.pos, line: c.line, column: c.column }
}

/// The span from the cursor `s` to offset `end`.
fn span_from(s: &Cursor, end: usize) -> (r: Span)
    ensures
        r.start == s.pos && r.end == end && r.line == s.line && r.column == s.column,
{
    Span { start: s.pos, end, line: s.line, column: s.column }
}

/// A lexing error at `c`.
fn error_at(message: &str, c: &Cursor) -> (r: LexError)
    ensures
        r.at == *c,
        r.message@ == message@,
{
    LexError { message: message.to_owned(), at: at(c) }
}

/// Reads the token that starts at the cursor.
fn scan_token(src: &Vec<char>, c: &mut Cursor) -> (r: Result<Token, LexError>)
    requires
        src@.len() < usize::MAX,
        cursor_ok(src@, *old(c)),
        old(c).pos < src@.len(),
        !comment_starts(src@, old(c).pos as int),
    ensures
        cursor_ok(src@, *final(c)),
        match r {
            Ok(t) => token_ok(src@, t) && token_maximal(src@, t) && t.span.start == old(c).pos
                && t.span.end == final(c).pos,
            Err(e) => cursor_ok(src@, e.at) && forall|t2: Token|
                #[trigger] token_ok(src@, t2) && t2.span.start == old(c).pos ==> !token_maximal(
                    src@,
                    t2,
                ),
        },
{
    let start = at(c);
    let ch = src[c.pos];
    if ('a' <= ch && ch <= 'z') || ('A' <= ch && ch <= 'Z') || ch == '_' {
        advance(src, c);
        skip_while(src, c, false);
        let text = text_of(src, start.pos, c.pos);
        proof {
            assert forall|k: int| 0 <= k < text@.len() implies ident_char(#[trigger] text@[k]) by {
                assert(text@[k] == src@[start.pos + k]);
            }
        }
        Ok(Token { kind: TokenKind::Ident, text, span: span_from(&start, c.pos) })
    } else if '0' <= ch && ch <= '9' {
        advance(src, c);
        skip_while(src, c, true);
        let text = text_of(src, start.pos, c.pos);
        proof {
            assert forall|k: int| 0 <= k < text@.len() implies '0' <= #[trigger] text@[k] <= '9' by {
                assert(text@[k] == src@[start.pos + k]);
            }
        }
        Ok(Token { kind: TokenKind::Number, text, span: span_from(&start, c.pos) })
    } else if ch == '`' {
        advance(src, c);
        while c.pos < src.len() && src[c.pos] != '`'
            invariant
                src@.len() < usize::MAX,
                cursor_ok(src@, *c),
                c.pos > start.pos,
                forall|k: int| start.pos < k < c.pos ==> #[trigger] src@[k] != '`',
            decreases src@.len() - c.pos,
        {
            advance(src, c);
        }
        if c.pos >= src.len() {
            proof {
                assert forall|t2: Token|
                    #[trigger] token_ok(src@, t2) && t2.span.start == start.pos implies !token_maximal(
                        src@,
                        t2,
                    ) by {
                    lemma_token_first(src@, t2);
                    if t2.kind == TokenKind::Escaped {
                        assert(src@[t2.span.end - 1] == '`');
                    }
                }
            }
            return Err(error_at("unterminated escaped name", &start));
        }
        if c.pos == start.pos + 1 {
            proof {
                assert forall|t2: Token|
                    #[trigger] token_ok(src@, t2) && t2.span.start == start.pos implies !token_maximal(
                        src@,
                        t2,
                    ) by {
                    lemma_token_first(src@, t2);
                    if t2.kind == TokenKind::Escaped {
                        assert(t2.text@[0] == src@.subrange(start.pos + 1, t2.span.end - 1)[0]);
                    }
                }
            }
            return Err(error_at("empty escaped name", &start));
        }
        let text = text_of(src, start.pos + 1, c.pos);
        proof {
            assert forall|k: int| 0 <= k < text@.len() implies #[trigger] text@[k] != '`' by {
                assert(text@[k] == src@[start.pos + 1 + k]);
            }
        }
        advance(src, c);
        Ok(Token { kind: TokenKind::Escaped, text, span: span_from(&start, c.pos) })
    } else if ch == '$' {
        let p = c.pos;
        proof {
            assert forall|t2: Token|
                #[trigger] token_ok(src@, t2) && t2.span.start == start.pos && token_maximal(src@, t2)
                    implies t2.kind == TokenKind::Arg || t2.kind == TokenKind::Res by {
                lemma_token_first(src@, t2);
            }
        }
        if src.len() - p <= 4 {
            proof {
                assert forall|t2: Token|
                    #[trigger] token_ok(src@, t2) && t2.span.start == start.pos implies !token_maximal(
                        src@,
                        t2,
                    ) by {
                    if token_maximal(src@, t2) {
                        lemma_dollar_parts(src@, t2);
                    }
                }
            }
            return Err(error_at("expected `$arg[N]` or `$res[N]`", &start));
        }
        let a = src[p + 1];
        let b = src[p + 2];
        let d = src[p + 3];
        let open = src[p + 4];
        let is_arg = a == 'a' && b == 'r' && d == 'g';
        let is_res = a == 'r' && b == 'e' && d == 's';
        if !(is_arg || is_res) || open != '[' {
            proof {
                assert forall|t2: Token|
                    #[trigger] token_ok(src@, t2) && t2.span.start == start.pos implies !token_maximal(
                        src@,
                        t2,
                    ) by {
                    if token_maximal(src@, t2) {
                        lemma_dollar_parts(src@, t2);
                    }
                }
            }
            return Err(error_at("expected `$arg[N]` or `$res[N]`", &start));
        }
        advance_by(src, c, 5);
        let digits_start = c.pos;
        skip_while(src, c, true);
        if c.pos == digits_start || c.pos >= src.len() || src[c.pos] != ']' {
            proof {
                assert forall|t2: Token|
                    #[trigger] token_ok(src@, t2) && t2.span.start == start.pos implies !token_maximal(
                        src@,
                        t2,
                    ) by {
                    if token_maximal(src@, t2) {
                        lemma_dollar_parts(src@, t2);
                        let e2 = t2.span.end as int;
                        if c.pos < e2 - 1 {
                            assert('0' <= src@[c.pos as int] <= '9');
                        } else if c.pos > e2 - 1 {
                            assert('0' <= src@[e2 - 1] <= '9');
                        }
                    }
                }
            }
            return Err(error_at("expected `$arg[N]` or `$res[N]`", &start));
        }
        let digits_end = c.pos;
        advance(src, c);
        proof {
            assert(src@.subrange(p as int, p + 5) =~= seq![
                src@[p as int],
                src@[p + 1],
                src@[p + 2],
                src@[p + 3],
                src@[p + 4],
            ]);
        }
        if is_arg {
            let text = text_of(src, digits_start, digits_end);
            proof {
                assert forall|k: int| 0 <= k < text@.len() implies '0' <= #[trigger] text@[k] <= '9' by {
                    assert(text@[k] == src@[digits_start + k]);
                }
                assert(src@.subrange(p as int, c.pos as int) =~= seq!['$', 'a', 'r', 'g', '[']
                    + text@ + seq![']']);
            }
            Ok(Token { kind: TokenKind::Arg, text, span: span_from(&start, c.pos) })
        } else {
            let text = text_of(src, p, c.pos);
            proof {
                let d = src@.subrange(p + 5, c.pos - 1);
                assert forall|k: int| 0 <= k < d.len() implies '0' <= #[trigger] d[k] <= '9' by {
                    assert(d[k] == src@[p + 5 + k]);
                }
                assert(src@.subrange(p as int, p + 5) =~= seq!['$', 'r', 'e', 's', '[']);
            }
            Ok(Token { kind: TokenKind::Res, text, span: span_from(&start, c.pos) })
        }
    } else {
        match punct_at(src, c.pos) {
            Some((pk, n)) => {
                advance_by(src, c, n);
                let text = text_of(src, start.pos, c.pos);
                Ok(Token { kind: TokenKind::Punct(pk), text, span: span_from(&start, c.pos) })
            },
            None => {
                proof {
                    assert forall|t2: Token|
                        #[trigger] token_ok(src@, t2) && t2.span.start == start.pos implies !token_maximal(
                            src@,
                            t2,
                        ) by {
                        lemma_token_first(src@, t2);
                        if token_maximal(src@, t2) && t2.kind is Punct {
                            lemma_punct_pick(src@, t2);
                        }
                    }
                }
                let mut m = "unexpected character `".to_owned();
                crate::text::push_char(&mut m, ch);
                m.append("`");
                Err(LexError { message: m, at: start })
            },
        }
    }
}

/// More trivia after the last gap keeps the gaps trivia.
proof fn lemma_gaps_extend(src: Seq<char>, ts: Seq<Token>, a: int, b: int)
    requires
        gaps_are_trivia(src, ts, a),
        trivia(src, a, b),
        a <= b,
        forall|i: int| 0 <= i < ts.len() ==> #[trigger] ts[i].span.end <= a,
        ts.len() == 0 ==> 0 <= a,
    ensures
        gaps_are_trivia(src, ts, b),
{
    if ts.len() == 0 {
        lemma_trivia_concat(src, 0, a, b);
    } else {
        assert(ts.last() == ts[ts.len() - 1]);
        lemma_trivia_concat(src, ts.last().span.end as int, a, b);
    }
}

/// Pushing a token that follows all the others keeps them in order and each well placed.
proof fn lemma_tokens_push(src: Seq<char>, ts: Seq<Token>, t: Token)
    requires
        tokens_ok(src, ts),
        forall|i: int| 0 <= i < ts.len() ==> #[trigger] ts[i].span.end <= t.span.start,
        token_ok(src, t),
    ensures
        tokens_ok(src, ts.push(t)),
{
    let u = ts.push(t);
    let n = ts.len() as int;
    assert forall|i: int| 0 <= i < u.len() implies #[trigger] token_ok(src, u[i]) by {
        if i < n {
            assert(u[i] == ts[i]);
        }
    }
    assert forall|i: int, j: int| 0 <= i < j < u.len() implies #[trigger] u[i].span.end
        <= #[trigger] u[j].span.start by {
        assert(u[i] == ts[i]);
        if j < n {
            assert(u[j] == ts[j]);
        }
    }
}

/// Pushing a maximal token keeps every token maximal, and every token ends by its end.
proof fn lemma_maximal_push(src: Seq<char>, ts: Seq<Token>, t: Token)
    requires
        forall|i: int| 0 <= i < ts.len() ==> #[trigger] ts[i].span.end <= t.span.start,
        forall|i: int| 0 <= i < ts.len() ==> token_maximal(src, #[trigger] ts[i]),
        token_maximal(src, t),
        t.span.start <= t.span.end,
    ensures
        forall|i: int| 0 <= i < ts.len() + 1 ==> #[trigger] ts.push(t)[i].span.end <= t.span.end,
        forall|i: int| 0 <= i < ts.len() + 1 ==> token_maximal(src, #[trigger] ts.push(t)[i]),
{
    let u = ts.push(t);
    let n = ts.len() as int;
    assert forall|i: int| 0 <= i < u.len() implies #[trigger] u[i].span.end <= t.span.end by {
        if i < n {
            assert(u[i] == ts[i]);
        }
    }
    assert forall|i: int| 0 <= i < u.len() implies token_maximal(src, #[trigger] u[i]) by {
        if i < n {
            assert(u[i] == ts[i]);
        }
    }
}

/// Pushing a token that starts where the trivia ends keeps trivia between the tokens.
proof fn lemma_gaps_push(src: Seq<char>, ts: Seq<Token>, t: Token)
    requires
        gaps_are_trivia(src, ts, t.span.start as int),
    ensures
        gaps_are_trivia(src, ts.push(t), t.span.end as int),
{
    let u = ts.push(t);
    let n = ts.len() as int;
    assert(trivia(src, t.span.end as int, t.span.end as int));
    assert(u.last() == t);
    if n > 0 {
        assert(u[0] == ts[0]);
        assert(ts.last() == ts[n - 1]);
        assert forall|i: int| 0 <= i < u.len() - 1 implies #[trigger] trivia_between(src, u, i) by {
            assert(u[i] == ts[i]);
            if i + 1 < n {
                assert(u[i + 1] == ts[i + 1]);
                assert(trivia_between(src, ts, i));
            }
        }
    } else {
        assert(u[0] == t);
    }
}

/// `ts` are the tokens of `src`: each well placed and maximal, in order, with trivia before,
/// between and after them.
pub open spec fn lexes_to(src: Seq<char>, ts: Seq<Token>) -> bool {
    &&& tokens_ok(src, ts)
    &&& forall|i: int| 0 <= i < ts.len() ==> token_maximal(src, #[trigger] ts[i])
    &&& gaps_are_trivia(src, ts, src.len() as int)
}

/// The tokens read so far, up to offset `pos`: each well placed and maximal, in order, with
/// trivia between them and up to `pos`.
#[verifier::opaque]
pub open spec fn lexed(src: Seq<char>, ts: Seq<Token>, pos: int) -> bool {
    &&& tokens_ok(src, ts)
    &&& forall|i: int| 0 <= i < ts.len() ==> #[trigger] ts[i].span.end <= pos
    &&& forall|i: int| 0 <= i < ts.len() ==> token_maximal(src, #[trigger] ts[i])
    &&& gaps_are_trivia(src, ts, pos)
}

/// What [`lexed`] says, taken apart.
proof fn lemma_lexed_parts(src: Seq<char>, ts: Seq<Token>, pos: int)
    requires
        lexed(src, ts, pos),
    ensures
        tokens_ok(src, ts),
        forall|i: int| 0 <= i < ts.len() ==> #[trigger] ts[i].span.end <= pos,
        forall|i: int| 0 <= i < ts.len() ==> token_maximal(src, #[trigger] ts[i]),
        gaps_are_trivia(src, ts, pos),
{
    reveal(lexed);
}

/// [`lexed`], put together.
proof fn lemma_lexed_join(src: Seq<char>, ts: Seq<Token>, pos: int)
    requires
        tokens_ok(src, ts),
        forall|i: int| 0 <= i < ts.len() ==> #[trigger] ts[i].span.end <= pos,
        forall|i: int| 0 <= i < ts.len() ==> token_maximal(src, #[trigger] ts[i]),
        gaps_are_trivia(src, ts, pos),
    ensures
        lexed(src, ts, pos),
{
    reveal(lexed);
}

/// One step of lexing: trivia from `pos` to `q`, then the token `t` starting at `q`.
proof fn lemma_lexed_step(src: Seq<char>, ts: Seq<Token>, pos: int, q: int, t: Token)
    requires
        lexed(src, ts, pos),
        0 <= pos <= q,
        trivia(src, pos, q),
        t.span.start == q,
        token_ok(src, t),
        token_maximal(src, t),
    ensures
        lexed(src, ts.push(t), t.span.end as int),
{
    lemma_lexed_parts(src, ts, pos);
    lemma_gaps_extend(src, ts, pos, q);
    lemma_tokens_push(src, ts, t);
    lemma_maximal_push(src, ts, t);
    lemma_gaps_push(src, ts, t);
    lemma_lexed_join(src, ts.push(t), t.span.end as int);
}

/// Trivia from `pos` to `q` after the tokens read so far.
proof fn lemma_lexed_trivia(src: Seq<char>, ts: Seq<Token>, pos: int, q: int)
    requires
        lexed(src, ts, pos),
        0 <= pos <= q,
        trivia(src, pos, q),
    ensures
        lexed(src, ts, q),
{
    lemma_lexed_parts(src, ts, pos);
    lemma_gaps_extend(src, ts, pos, q);
    lemma_lexed_join(src, ts, q);
}

/// Splits a source into tokens ([`lexes_to`]), the only way there is; also gives the cursor at
/// the end of the source. Fails exactly when the source has no tokens: at a character that
/// starts no token, an unterminated block comment or escaped name, or a malformed `$arg[N]` or
/// `$res[N]`.
pub fn lex(src: &Vec<char>) -> (r: Result<(Vec<Token>, Cursor), LexError>)
    requires
        src@.len() < usize::MAX,
    ensures
        match r {
            Ok((ts, end)) => lexes_to(src@, ts@) && cursor_ok(src@, end) && end.pos == src@.len()
                && forall|ts2: Seq<Token>| #[trigger] lexes_to(src@, ts2) ==> token_views(ts2) == token_views(ts@),
            Err(e) => cursor_ok(src@, e.at) && forall|ts2: Seq<Token>| !#[trigger] lexes_to(src@, ts2),
        },
{
    let mut c = Cursor { pos: 0, line: 1, column: 1 };
    let mut ts: Vec<Token> = Vec::new();
    proof {
        reveal(lexed);
        assert(trivia(src@, 0, 0));
        assert forall|ts2: Seq<Token>| #[trigger] lexes_to(src@, ts2) implies agrees(src@, ts2, ts@, 0) by {
            lemma_agree_start(src@, ts2);
            assert(ts@ =~= Seq::<Token>::empty());
        }
    }
    loop
        invariant
            src@.len() < usize::MAX,
            cursor_ok(src@, c),
            lexed(src@, ts@, c.pos as int),
            forall|ts2: Seq<Token>| #[trigger] lexes_to(src@, ts2) ==> agrees(src@, ts2, ts@, c.pos as int),
        ensures
            cursor_ok(src@, c),
            lexed(src@, ts@, c.pos as int),
            c.pos == src@.len(),
            forall|ts2: Seq<Token>| #[trigger] lexes_to(src@, ts2) ==> agrees(src@, ts2, ts@, c.pos as int),
        decreases src@.len() - c.pos,
    {
        let ghost q0 = c.pos as int;
        match skip_trivia(src, &mut c) {
            Ok(()) => {},
            Err(e) => {
                proof {
                    assert forall|ts2: Seq<Token>| !#[trigger] lexes_to(src@, ts2) by {
                        if lexes_to(src@, ts2) {
                            lemma_agree_unclosed(src@, ts2, ts@, q0, e.at.pos as int);
                        }
                    }
                }
                return Err(e);
            },
        }
        proof {
            assert forall|ts2: Seq<Token>| #[trigger] lexes_to(src@, ts2) implies agrees(
                src@,
                ts2,
                ts@,
                c.pos as int,
            ) && c.pos == next_start(src@, ts2, ts@.len() as int) by {
                lemma_agree_trivia(src@, ts2, ts@, q0, c.pos as int);
            }
        }
        if c.pos >= src.len() {
            proof {
                lemma_lexed_trivia(src@, ts@, q0, c.pos as int);
            }
            break;
        }
        let ghost q1 = c.pos as int;
        match scan_token(src, &mut c) {
            Ok(t) => {
                let ghost before = ts@;
                proof {
                    lemma_lexed_step(src@, before, q0, q1, t);
                    assert forall|ts2: Seq<Token>| #[trigger] lexes_to(src@, ts2) implies agrees(
                        src@,
                        ts2,
                        before.push(t),
                        t.span.end as int,
                    ) by {
                        lemma_agree_token(src@, ts2, before, q1, t);
                    }
                }
                ts.push(t);
                assert(ts@ == before.push(t));
            },
            Err(e) => {
                proof {
                    assert forall|ts2: Seq<Token>| !#[trigger] lexes_to(src@, ts2) by {
                        if lexes_to(src@, ts2) {
                            let n = ts@.len() as int;
                            assert(token_ok(src@, ts2[n]));
                            assert(token_maximal(src@, ts2[n]));
                        }
                    }
                }
                return Err(e);
            },
        }
    }
    proof {
        reveal(lexed);
        assert forall|ts2: Seq<Token>| #[trigger] lexes_to(src@, ts2) implies token_views(ts2) == token_views(
            ts@,
        ) by {
            lemma_agree_end(src@, ts2, ts@);
        }
    }
    Ok((ts, c))
}

} // verus!
