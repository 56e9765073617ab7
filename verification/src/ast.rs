//! Abstract syntax tree for `llzk-spec`.
//!
//! Every node carries a [`Span`] and an optional piece of metadata `M`. The parser produces
//! trees with `M = ()`; the type checker produces trees whose metadata is the deduced type.
use vstd::prelude::*;

verus! {

/// Source location of an AST node.
#[derive(Debug, Clone, Copy, PartialEq, Eq, Default)]
pub struct Span {
    pub start: usize,
    pub end: usize,
    pub line: usize,
    pub column: usize,
}

impl Span {
    /// Creates a span from its four coordinates.
    pub fn new(start: usize, end: usize, line: usize, column: usize) -> (s: Span)
        ensures
            s.start == start,
            s.end == end,
            s.line == line,
            s.column == column,
    {
        Span { start, end, line, column }
    }

    /// The span that sits at the beginning of a file.
    pub fn zero() -> (s: Span)
        ensures
            s.start == 0 && s.end == 0 && s.line == 0 && s.column == 0,
    {
        Span { start: 0, end: 0, line: 0, column: 0 }
    }
}

/// Trait for AST entities that have a [`Span`].
pub trait Spanned {
    spec fn spec_span(&self) -> Span;

    fn span(&self) -> (s: Span)
        ensures
            s == self.spec_span(),
    ;
}

impl Spanned for Span {
    open spec fn spec_span(&self) -> Span {
        *self
    }

    fn span(&self) -> (s: Span) {
        *self
    }
}

/// Trait defining a visitor of AST entities.
pub trait Visitor<E> {
    type Output;

    /// What visiting `entity` does: the visitor `before` becomes `after` and returns `out`.
    spec fn visits(before: &Self, entity: &E, after: &Self, out: &Self::Output) -> bool;

    fn visit(&mut self, entity: &E) -> (out: Self::Output)
        ensures
            Self::visits(old(self), entity, final(self), &out),
    ;
}

/// Trait defining a visitable entity of the AST.
pub trait Visitable: Sized {
    /// Visits the entity with `visitor`.
    fn accept<V: Visitor<Self>>(&self, visitor: &mut V) -> (out: V::Output)
        ensures
            V::visits(old(visitor), self, final(visitor), &out),
    {
        visitor.visit(self)
    }
}

/// A name stored in the AST. Two symbols are equal when their text is equal.
#[derive(Debug, Clone, PartialEq, Eq, Hash)]
pub struct Symbol {
    pub name: String,
}

impl Symbol {
    /// Creates a symbol holding the given text.
    pub fn from_str(s: &str) -> (r: Symbol)
        ensures
            r.name@ == s@,
    {
        Symbol { name: s.to_owned() }
    }

    /// Returns the text of the symbol.
    pub fn value(&self) -> (r: &str)
        ensures
            r@ == self.name@,
    {
        self.name.as_str()
    }

    /// Returns a copy of the symbol.
    pub fn copy(&self) -> (r: Symbol)
        ensures
            r.name@ == self.name@,
    {
        Symbol { name: self.name.clone() }
    }
}

/// The value of a decimal digit string, most significant digit first.
pub open spec fn decimal_value(digits: Seq<char>) -> nat
    decreases digits.len(),
{
    if digits.len() == 0 {
        0
    } else {
        decimal_value(digits.drop_last()) * 10 + ((digits.last() as nat) - ('0' as nat)) as nat
    }
}

/// Whether every character of the sequence is an ASCII decimal digit.
pub open spec fn all_digits(s: Seq<char>) -> bool {
    forall|i: int| 0 <= i < s.len() ==> '0' <= #[trigger] s[i] <= '9'
}

/// A numeric literal, a field element, written in decimal.
#[derive(Debug, Clone, PartialEq, Eq)]
pub struct Literal {
    pub digits: String,
}

impl Literal {
    /// The decimal text of the literal.
    pub fn value(&self) -> (r: &str)
        ensures
            r@ == self.digits@,
    {
        self.digits.as_str()
    }

    /// The number the literal denotes, when its text is a decimal digit string.
    pub open spec fn spec_value(&self) -> nat {
        decimal_value(self.digits@)
    }

    /// Returns a copy of the literal.
    pub fn copy(&self) -> (r: Literal)
        ensures
            r.digits@ == self.digits@,
    {
        Literal { digits: self.digits.clone() }
    }
}

/// Context that creates symbols and literals of the AST.
pub struct AstContext {
    pub symbols_created: usize,
}

impl AstContext {
    /// Creates a new context.
    pub fn new() -> (c: AstContext)
        ensures
            c.symbols_created == 0,
    {
        AstContext { symbols_created: 0 }
    }

    /// Returns a symbol holding the given text.
    pub fn symbol(&self, symbol: &str) -> (r: Symbol)
        ensures
            r.name@ == symbol@,
    {
        Symbol::from_str(symbol)
    }

    /// Creates a symbol of the given string, taking ownership of it.
    pub fn new_symbol(&self, symbol: String) -> (r: Symbol)
        ensures
            r.name@ == symbol@,
    {
        Symbol { name: symbol }
    }

    /// Returns a literal holding the given decimal text.
    pub fn literal(&self, digits: String) -> (r: Literal)
        ensures
            r.digits@ == digits@,
    {
        Literal { digits }
    }
}

/// Identifier with attached source span and metadata.
#[derive(Debug, Clone, PartialEq)]
pub struct Identifier<M> {
    pub name: Symbol,
    pub span: Span,
    pub meta: M,
}

impl<M> Identifier<M> {
    /// The text of the identifier.
    pub fn value(&self) -> (r: &str)
        ensures
            r@ == self.name.name@,
    {
        self.name.value()
    }

    /// The symbol of the identifier.
    pub fn symbol(&self) -> (r: Symbol)
        ensures
            r.name@ == self.name.name@,
    {
        self.name.copy()
    }

    /// The metadata attached to the identifier.
    pub fn meta(&self) -> (r: &M)
        ensures
            *r == self.meta,
    {
        &self.meta
    }

    /// Copies the identifier's name and span, attaching new metadata.
    pub fn with_meta<N>(&self, meta: N) -> (r: Identifier<N>)
        ensures
            r.name.name@ == self.name.name@,
            r.span == self.span,
            r.meta == meta,
    {
        Identifier { name: self.name.copy(), span: self.span, meta }
    }
}

impl Identifier<()> {
    /// Creates an identifier without metadata.
    pub fn new(name: Symbol, span: Span) -> (r: Identifier<()>)
        ensures
            r.name == name,
            r.span == span,
    {
        Identifier { name, span, meta: () }
    }
}

impl<M> Spanned for Identifier<M> {
    open spec fn spec_span(&self) -> Span {
        self.span
    }

    fn span(&self) -> (s: Span) {
        self.span
    }
}

/// Parsed top-level document.
#[derive(Debug, PartialEq)]
pub struct Document<M> {
    pub items: Vec<Item<M>>,
    pub span: Span,
}

impl<M> Document<M> {
    /// Creates a document.
    pub fn new(items: Vec<Item<M>>, span: Span) -> (r: Document<M>)
        ensures
            r.items == items,
            r.span == span,
    {
        Document { items, span }
    }

    /// The items of the document, in source order.
    pub fn items(&self) -> (r: &[Item<M>])
        ensures
            r@ == self.items@,
    {
        self.items.as_slice()
    }
}

impl<M> Spanned for Document<M> {
    open spec fn spec_span(&self) -> Span {
        self.span
    }

    fn span(&self) -> (s: Span) {
        self.span
    }
}

/// Top-level declarations accepted by the language.
#[derive(Debug, PartialEq)]
pub enum Item<M> {
    Contract(ContractDecl<M>),
    Predicate(PredicateDecl<M>),
}

impl<M> Spanned for Item<M> {
    open spec fn spec_span(&self) -> Span {
        match self {
            Item::Contract(decl) => decl.span,
            Item::Predicate(decl) => decl.span,
        }
    }

    fn span(&self) -> (s: Span) {
        match self {
            Item::Contract(decl) => decl.span,
            Item::Predicate(decl) => decl.span,
        }
    }
}

/// Contract declaration attached to an LLZK symbol.
#[derive(Debug, PartialEq)]
pub struct ContractDecl<M> {
    pub target: Identifier<M>,
    pub body: Block<M>,
    pub span: Span,
}

impl<M> ContractDecl<M> {
    /// Creates a contract declaration.
    pub fn new(target: Identifier<M>, body: Block<M>, span: Span) -> (r: ContractDecl<M>)
        ensures
            r.target == target,
            r.body == body,
            r.span == span,
    {
        ContractDecl { target, body, span }
    }

    /// The symbol the contract is written for.
    pub fn target(&self) -> (r: &Identifier<M>)
        ensures
            *r == self.target,
    {
        &self.target
    }

    /// The body of the contract.
    pub fn body(&self) -> (r: &Block<M>)
        ensures
            *r == self.body,
    {
        &self.body
    }
}

impl<M> Spanned for ContractDecl<M> {
    open spec fn spec_span(&self) -> Span {
        self.span
    }

    fn span(&self) -> (s: Span) {
        self.span
    }
}

/// Predicate declaration. Expression-bodied predicates are represented by a block holding a
/// single `return` statement.
#[derive(Debug, PartialEq)]
pub struct PredicateDecl<M> {
    pub name: Identifier<M>,
    pub params: Vec<Identifier<M>>,
    pub body: Block<M>,
    pub span: Span,
}

impl<M> PredicateDecl<M> {
    /// Creates a predicate declaration.
    pub fn new(name: Identifier<M>, params: Vec<Identifier<M>>, body: Block<M>, span: Span) -> (r:
        PredicateDecl<M>)
        ensures
            r.name == name,
            r.params == params,
            r.body == body,
            r.span == span,
    {
        PredicateDecl { name, params, body, span }
    }

    /// The name of the predicate.
    pub fn name(&self) -> (r: &Identifier<M>)
        ensures
            *r == self.name,
    {
        &self.name
    }

    /// The body of the predicate.
    pub fn body(&self) -> (r: &Block<M>)
        ensures
            *r == self.body,
    {
        &self.body
    }

    /// The formal parameters of the predicate, in declaration order.
    pub fn params(&self) -> (r: &[Identifier<M>])
        ensures
            r@ == self.params@,
    {
        self.params.as_slice()
    }
}

impl<M> Spanned for PredicateDecl<M> {
    open spec fn spec_span(&self) -> Span {
        self.span
    }

    fn span(&self) -> (s: Span) {
        self.span
    }
}

/// Sequence of statements with a lexical scope.
#[derive(Debug, PartialEq)]
pub struct Block<M> {
    pub statements: Vec<Statement<M>>,
    pub span: Span,
}

impl<M> Block<M> {
    /// Creates a block.
    pub fn new(statements: Vec<Statement<M>>, span: Span) -> (r: Block<M>)
        ensures
            r.statements == statements,
            r.span == span,
    {
        Block { statements, span }
    }

    /// The statements of the block, in source order.
    pub fn statements(&self) -> (r: &[Statement<M>])
        ensures
            r@ == self.statements@,
    {
        self.statements.as_slice()
    }
}

impl<M> Spanned for Block<M> {
    open spec fn spec_span(&self) -> Span {
        self.span
    }

    fn span(&self) -> (s: Span) {
        self.span
    }
}

/// Execution scope qualifier for a statement or block.
///
/// The source keywords `compute` and `witness` both denote `Compute`.
#[derive(Debug, Clone, Copy, PartialEq, Eq, Structural)]
pub enum Scope {
    Compute,
    Constrain,
}

/// Statements of the language.
#[derive(Debug, PartialEq)]
pub enum Statement<M> {
    Scoped { scope: Scope, statement: Box<Statement<M>>, span: Span },
    Block(Block<M>),
    Require { expression: Expression<M>, span: Span },
    Ensure { expression: Expression<M>, span: Span },
    Let { name: Identifier<M>, value: Expression<M>, span: Span },
    Unused { name: Identifier<M>, span: Span },
    Return { expression: Expression<M>, span: Span },
    Increases { expression: Expression<M>, span: Span },
    Decreases { expression: Expression<M>, span: Span },
    Step { expression: Expression<M>, span: Span },
    Invariant(InvariantDecl<M>),
    Predicate(PredicateDecl<M>),
    Empty { span: Span },
}

impl<M> Spanned for Statement<M> {
    open spec fn spec_span(&self) -> Span {
        match self {
            Statement::Block(block) => block.span,
            Statement::Scoped { span, .. } => *span,
            Statement::Require { span, .. } => *span,
            Statement::Ensure { span, .. } => *span,
            Statement::Let { span, .. } => *span,
            Statement::Unused { span, .. } => *span,
            Statement::Return { span, .. } => *span,
            Statement::Increases { span, .. } => *span,
            Statement::Decreases { span, .. } => *span,
            Statement::Step { span, .. } => *span,
            Statement::Empty { span } => *span,
            Statement::Invariant(decl) => decl.span,
            Statement::Predicate(decl) => decl.span,
        }
    }

    fn span(&self) -> (s: Span) {
        match self {
            Statement::Block(block) => block.span,
            Statement::Scoped { span, .. } => *span,
            Statement::Require { span, .. } => *span,
            Statement::Ensure { span, .. } => *span,
            Statement::Let { span, .. } => *span,
            Statement::Unused { span, .. } => *span,
            Statement::Return { span, .. } => *span,
            Statement::Increases { span, .. } => *span,
            Statement::Decreases { span, .. } => *span,
            Statement::Step { span, .. } => *span,
            Statement::Empty { span } => *span,
            Statement::Invariant(decl) => decl.span,
            Statement::Predicate(decl) => decl.span,
        }
    }
}

/// Loop invariant declaration attached to a loop in LLZK IR.
#[derive(Debug, PartialEq)]
pub struct InvariantDecl<M> {
    pub loop_name: Identifier<M>,
    pub bindings: Vec<Identifier<M>>,
    pub body: Block<M>,
    pub span: Span,
}

impl<M> InvariantDecl<M> {
    /// Creates an invariant declaration.
    pub fn new(loop_name: Identifier<M>, bindings: Vec<Identifier<M>>, body: Block<M>, span: Span) -> (r:
        InvariantDecl<M>)
        ensures
            r.loop_name == loop_name,
            r.bindings == bindings,
            r.body == body,
            r.span == span,
    {
        InvariantDecl { loop_name, bindings, body, span }
    }

    /// The name of the loop the invariant is attached to.
    pub fn loop_name(&self) -> (r: &Identifier<M>)
        ensures
            *r == self.loop_name,
    {
        &self.loop_name
    }

    /// The body of the invariant.
    pub fn body(&self) -> (r: &Block<M>)
        ensures
            *r == self.body,
    {
        &self.body
    }

    /// The names bound to the loop's values, in binding order.
    pub fn bindings(&self) -> (r: &[Identifier<M>])
        ensures
            r@ == self.bindings@,
    {
        self.bindings.as_slice()
    }
}

impl<M> Spanned for InvariantDecl<M> {
    open spec fn spec_span(&self) -> Span {
        self.span
    }

    fn span(&self) -> (s: Span) {
        self.span
    }
}

/// Supported quantifier kinds.
#[derive(Debug, Clone, Copy, PartialEq, Eq, Structural)]
pub enum QuantifierKind {
    Forall,
    Exists,
}

/// Domain over which a quantifier ranges.
#[derive(Debug, PartialEq)]
pub enum QuantifierDomain<M> {
    Range { start: Box<Expression<M>>, end: Box<Expression<M>>, span: Span },
    Expr(Box<Expression<M>>),
}

/// Binary operators of the language.
#[derive(Debug, Clone, Copy, PartialEq, Eq, Structural)]
pub enum BinaryOp {
    Or,
    And,
    Eq,
    Ne,
    Lt,
    Le,
    Gt,
    Ge,
    Add,
    Sub,
    Mul,
    Div,
    Mod,
    BitAnd,
    Pow,
}

/// Unary operators of the language.
#[derive(Debug, Clone, Copy, PartialEq, Eq, Structural)]
pub enum UnaryOp {
    Not,
    Neg,
}

/// Expression language used by contracts and predicates.
#[derive(Debug, PartialEq)]
pub enum Expression<M> {
    Conditional {
        condition: Box<Expression<M>>,
        then_branch: Box<Expression<M>>,
        else_branch: Box<Expression<M>>,
        span: Span,
        meta: M,
    },
    Binary { op: BinaryOp, left: Box<Expression<M>>, right: Box<Expression<M>>, span: Span, meta: M },
    Unary { op: UnaryOp, expr: Box<Expression<M>>, span: Span, meta: M },
    Index { target: Box<Expression<M>>, index: Box<Expression<M>>, span: Span, meta: M },
    Member { target: Box<Expression<M>>, member: Identifier<M>, span: Span, meta: M },
    Call { callee: Identifier<M>, args: Vec<Expression<M>>, span: Span, meta: M },
    Quantifier {
        quantifier_kind: QuantifierKind,
        binding: Identifier<M>,
        domain: QuantifierDomain<M>,
        body: Box<Expression<M>>,
        span: Span,
        meta: M,
    },
    Len { target: Box<Expression<M>>, span: Span, meta: M },
    Old { expression: Box<Expression<M>>, span: Span, meta: M },
    Arg { index: usize, span: Span, meta: M },
    Nondet { span: Span, meta: M },
    Boolean { value: bool, span: Span, meta: M },
    Number { value: Literal, span: Span, meta: M },
    Symbol(Identifier<M>),
}

impl<M> Expression<M> {
    /// The metadata of the expression (its type, after type checking).
    pub open spec fn spec_meta(&self) -> M {
        match self {
            Expression::Conditional { meta, .. } => *meta,
            Expression::Binary { meta, .. } => *meta,
            Expression::Unary { meta, .. } => *meta,
            Expression::Index { meta, .. } => *meta,
            Expression::Member { meta, .. } => *meta,
            Expression::Call { meta, .. } => *meta,
            Expression::Quantifier { meta, .. } => *meta,
            Expression::Len { meta, .. } => *meta,
            Expression::Old { meta, .. } => *meta,
            Expression::Arg { meta, .. } => *meta,
            Expression::Nondet { meta, .. } => *meta,
            Expression::Boolean { meta, .. } => *meta,
            Expression::Number { meta, .. } => *meta,
            Expression::Symbol(ident) => ident.meta,
        }
    }

    /// Returns the metadata of the expression.
    pub fn meta(&self) -> (r: &M)
        ensures
            *r == self.spec_meta(),
    {
        match self {
            Expression::Conditional { meta, .. } => meta,
            Expression::Binary { meta, .. } => meta,
            Expression::Unary { meta, .. } => meta,
            Expression::Index { meta, .. } => meta,
            Expression::Member { meta, .. } => meta,
            Expression::Call { meta, .. } => meta,
            Expression::Quantifier { meta, .. } => meta,
            Expression::Len { meta, .. } => meta,
            Expression::Old { meta, .. } => meta,
            Expression::Arg { meta, .. } => meta,
            Expression::Nondet { meta, .. } => meta,
            Expression::Boolean { meta, .. } => meta,
            Expression::Number { meta, .. } => meta,
            Expression::Symbol(ident) => &ident.meta,
        }
    }
}

impl<M> Spanned for Expression<M> {
    open spec fn spec_span(&self) -> Span {
        match self {
            Expression::Conditional { span, .. } => *span,
            Expression::Binary { span, .. } => *span,
            Expression::Unary { span, .. } => *span,
            Expression::Index { span, .. } => *span,
            Expression::Member { span, .. } => *span,
            Expression::Call { span, .. } => *span,
            Expression::Quantifier { span, .. } => *span,
            Expression::Len { span, .. } => *span,
            Expression::Old { span, .. } => *span,
            Expression::Arg { span, .. } => *span,
            Expression::Nondet { span, .. } => *span,
            Expression::Boolean { span, .. } => *span,
            Expression::Number { span, .. } => *span,
            Expression::Symbol(ident) => ident.span,
        }
    }

    fn span(&self) -> (s: Span) {
        match self {
            Expression::Conditional { span, .. } => *span,
            Expression::Binary { span, .. } => *span,
            Expression::Unary { span, .. } => *span,
            Expression::Index { span, .. } => *span,
            Expression::Member { span, .. } => *span,
            Expression::Call { span, .. } => *span,
            Expression::Quantifier { span, .. } => *span,
            Expression::Len { span, .. } => *span,
            Expression::Old { span, .. } => *span,
            Expression::Arg { span, .. } => *span,
            Expression::Nondet { span, .. } => *span,
            Expression::Boolean { span, .. } => *span,
            Expression::Number { span, .. } => *span,
            Expression::Symbol(ident) => ident.span,
        }
    }
}

impl<M> Spanned for QuantifierDomain<M> {
    open spec fn spec_span(&self) -> Span {
        match self {
            QuantifierDomain::Range { span, .. } => *span,
            QuantifierDomain::Expr(expression) => expression.spec_span(),
        }
    }

    fn span(&self) -> (s: Span) {
        match self {
            QuantifierDomain::Range { span, .. } => *span,
            QuantifierDomain::Expr(expression) => expression.span(),
        }
    }
}

impl<M> Visitable for Document<M> {}

impl<M> Visitable for Item<M> {}

impl<M> Visitable for ContractDecl<M> {}

impl<M> Visitable for PredicateDecl<M> {}

impl<M> Visitable for Block<M> {}

impl<M> Visitable for Statement<M> {}

impl<M> Visitable for InvariantDecl<M> {}

impl<M> Visitable for Expression<M> {}

impl<M> Visitable for QuantifierDomain<M> {}

/// The source keyword of a quantifier.
pub open spec fn quantifier_keyword(k: QuantifierKind) -> Seq<char> {
    match k {
        QuantifierKind::Forall => "forall"@,
        QuantifierKind::Exists => "exists"@,
    }
}

/// The source text of a binary operator.
pub open spec fn binary_op_text(op: BinaryOp) -> Seq<char> {
    match op {
        BinaryOp::Or => "||"@,
        BinaryOp::And => "&&"@,
        BinaryOp::Eq => "=="@,
        BinaryOp::Ne => "!="@,
        BinaryOp::Lt => "<"@,
        BinaryOp::Le => "<="@,
        BinaryOp::Gt => ">"@,
        BinaryOp::Ge => ">="@,
        BinaryOp::Add => "+"@,
        BinaryOp::Sub => "-"@,
        BinaryOp::Mul => "*"@,
        BinaryOp::Div => "/"@,
        BinaryOp::Mod => "%"@,
        BinaryOp::BitAnd => "&"@,
        BinaryOp::Pow => "**"@,
    }
}

/// The source text of a unary operator.
pub open spec fn unary_op_text(op: UnaryOp) -> Seq<char> {
    match op {
        UnaryOp::Not => "!"@,
        UnaryOp::Neg => "-"@,
    }
}

impl QuantifierKind {
    /// The keyword of the quantifier.
    pub fn keyword(&self) -> (r: &'static str)
        ensures
            r@ == quantifier_keyword(*self),
    {
        match self {
            QuantifierKind::Forall => "forall",
            QuantifierKind::Exists => "exists",
        }
    }
}

impl BinaryOp {
    /// The source text of the operator.
    pub fn text(&self) -> (r: &'static str)
        ensures
            r@ == binary_op_text(*self),
    {
        match self {
            BinaryOp::Or => "||",
            BinaryOp::And => "&&",
            BinaryOp::Eq => "==",
            BinaryOp::Ne => "!=",
            BinaryOp::Lt => "<",
            BinaryOp::Le => "<=",
            BinaryOp::Gt => ">",
            BinaryOp::Ge => ">=",
            BinaryOp::Add => "+",
            BinaryOp::Sub => "-",
            BinaryOp::Mul => "*",
            BinaryOp::Div => "/",
            BinaryOp::Mod => "%",
            BinaryOp::BitAnd => "&",
            BinaryOp::Pow => "**",
        }
    }
}

impl UnaryOp {
    /// The source text of the operator.
    pub fn text(&self) -> (r: &'static str)
        ensures
            r@ == unary_op_text(*self),
    {
        match self {
            UnaryOp::Not => "!",
            UnaryOp::Neg => "-",
        }
    }
}

} // verus!
