//! Surface syntax, as far as lowering reads it.

use vstd::prelude::*;

verus! {

/// A stretch of source text.
#[derive(Debug, Clone, Copy, PartialEq, Eq, Structural)]
pub struct Span {
    pub start: usize,
    pub end: usize,
}

#[derive(Debug, Clone, Copy, PartialEq, Eq, Structural)]
pub enum UnaryOp {
    Neg,
    Not,
}

#[derive(Debug, Clone, Copy, PartialEq, Eq, Structural)]
pub enum BinaryOp {
    Add,
    Sub,
    Mul,
    Div,
    Rem,
    Eq,
    Ne,
    Lt,
    Gt,
    Le,
    Ge,
    And,
    Or,
    /// `start..end`.
    Range,
    /// `value |> function`.
    Pipe,
}

/// A name with the qualifiers before it.
#[derive(Debug, PartialEq)]
pub struct Path {
    pub qualifiers: Vec<String>,
    pub name: String,
}

/// A literal that a pattern compares with.
#[derive(Debug, PartialEq)]
pub enum Literal {
    Int(i64),
    /// A floating-point number, held as its IEEE 754 bit pattern.
    Float(u64),
    Str(String),
    Bool(bool),
}

#[derive(Debug, PartialEq)]
pub enum Pattern {
    Ident(String, Span),
    /// `_`.
    Wildcard(Span),
    Variant {
        path: Path,
        args: Vec<Pattern>,
        span: Span,
    },
    Tuple(Vec<Pattern>, Span),
    Struct {
        path: Path,
        fields: Vec<FieldPattern>,
        /// Whether the pattern ends in `..`.
        has_rest: bool,
        span: Span,
    },
    Literal(Literal, Span),
    /// A pattern of another form, such as an alternative.
    Other(Span),
}

#[derive(Debug, PartialEq)]
pub struct FieldPattern {
    pub name: String,
    pub pattern: Pattern,
    pub span: Span,
}

#[allow(inconsistent_fields)]
#[derive(Debug, PartialEq)]
pub enum Expr {
    Int(i64, Span),
    /// A floating-point literal, held as its IEEE 754 bit pattern.
    Float(u64, Span),
    Str(String, Span),
    Bool(bool, Span),
    Ident(String, Span),
    /// A tuple. The empty one is the unit value.
    Tuple(Vec<Expr>, Span),
    ArrayLiteral(Vec<Expr>, Span),
    Index {
        base: Box<Expr>,
        index: Box<Expr>,
        span: Span,
    },
    Unary {
        op: UnaryOp,
        expr: Box<Expr>,
        span: Span,
    },
    Binary {
        op: BinaryOp,
        lhs: Box<Expr>,
        rhs: Box<Expr>,
        span: Span,
    },
    Block(Box<Block>, Span),
    If {
        cond: Box<Expr>,
        then_branch: Box<Block>,
        else_branch: Option<Box<Expr>>,
        span: Span,
    },
    Call {
        callee: Box<Expr>,
        args: Vec<Expr>,
        span: Span,
    },
    /// `callee[T]`, with the number of type arguments.
    GenericInst {
        callee: Box<Expr>,
        args: usize,
        span: Span,
    },
    Field {
        base: Box<Expr>,
        name: String,
        span: Span,
    },
    StructLiteral {
        path: Path,
        fields: Vec<FieldInit>,
        /// The `..value` that gives the fields that are not listed.
        spread: Option<Box<Expr>>,
        span: Span,
    },
    Match {
        scrutinee: Box<Expr>,
        arms: Vec<MatchArm>,
        span: Span,
    },
    Select {
        arms: Vec<SelectArm>,
        span: Span,
    },
    For {
        pattern: Pattern,
        iter: Box<Expr>,
        body: Box<Block>,
        span: Span,
    },
    Unsafe(Box<Block>, Span),
    Spawn(Box<Block>, Span),
    Closure {
        params: Vec<String>,
        body: Box<Expr>,
        span: Span,
    },
    /// An expression of another form.
    Other(Span),
}

#[derive(Debug, PartialEq)]
pub struct FieldInit {
    pub name: String,
    pub value: Expr,
    pub span: Span,
}

#[derive(Debug, PartialEq)]
pub struct MatchArm {
    pub pattern: Pattern,
    pub guard: Option<Expr>,
    pub body: Expr,
    pub span: Span,
}

#[derive(Debug, PartialEq)]
pub struct SelectArm {
    pub pattern: Pattern,
    pub expr: Expr,
    pub body: Expr,
}

#[derive(Debug, PartialEq)]
pub struct Block {
    pub stmts: Vec<Stmt>,
    pub tail: Option<Expr>,
}

#[derive(Debug, PartialEq)]
pub enum Stmt {
    Let {
        pattern: Pattern,
        value: Expr,
    },
    Expr(Expr),
    Assign {
        name: String,
        value: Expr,
    },
}

#[derive(Debug, PartialEq)]
pub enum ParamKind {
    Ident(String),
    Pattern(Pattern),
}

#[derive(Debug, PartialEq)]
pub struct Param {
    pub kind: ParamKind,
    pub span: Span,
}

#[derive(Debug, PartialEq)]
pub struct StructDecl {
    pub name: String,
    /// The field names, in declared order.
    pub fields: Vec<String>,
}

#[derive(Debug, PartialEq)]
pub struct VariantDecl {
    pub name: String,
    /// How many values the variant holds.
    pub arity: usize,
}

#[derive(Debug, PartialEq)]
pub struct EnumDecl {
    pub name: String,
    pub variants: Vec<VariantDecl>,
}

#[derive(Debug, PartialEq)]
pub struct LetDef {
    pub name: String,
    pub params: Vec<Param>,
    pub body: Expr,
}

#[derive(Debug, PartialEq)]
pub enum Item {
    Struct(StructDecl),
    Enum(EnumDecl),
    Let(LetDef),
    /// A declaration of another form.
    Other,
}

#[derive(Debug, PartialEq)]
pub struct Program {
    pub items: Vec<Item>,
}

/// Where a pattern stands.
pub open spec fn pattern_span(p: Pattern) -> Span {
    match p {
        Pattern::Ident(_, span) => span,
        Pattern::Wildcard(span) => span,
        Pattern::Variant { span, .. } => span,
        Pattern::Tuple(_, span) => span,
        Pattern::Struct { span, .. } => span,
        Pattern::Literal(_, span) => span,
        Pattern::Other(span) => span,
    }
}

impl Pattern {
    /// Where the pattern stands.
    pub fn span(&self) -> (r: Span)
        ensures
            r == pattern_span(*self),
    {
        match self {
            Pattern::Ident(_, span) => *span,
            Pattern::Wildcard(span) => *span,
            Pattern::Variant { span, .. } => *span,
            Pattern::Tuple(_, span) => *span,
            Pattern::Struct { span, .. } => *span,
            Pattern::Literal(_, span) => *span,
            Pattern::Other(span) => *span,
        }
    }
}

/// Where an expression stands.
pub open spec fn expr_span(e: Expr) -> Span {
    match e {
        Expr::Int(_, span) => span,
        Expr::Float(_, span) => span,
        Expr::Str(_, span) => span,
        Expr::Bool(_, span) => span,
        Expr::Ident(_, span) => span,
        Expr::Tuple(_, span) => span,
        Expr::ArrayLiteral(_, span) => span,
        Expr::Index { span, .. } => span,
        Expr::Unary { span, .. } => span,
        Expr::Binary { span, .. } => span,
        Expr::Block(_, span) => span,
        Expr::If { span, .. } => span,
        Expr::Call { span, .. } => span,
        Expr::GenericInst { span, .. } => span,
        Expr::Field { span, .. } => span,
        Expr::StructLiteral { span, .. } => span,
        Expr::Match { span, .. } => span,
        Expr::Select { span, .. } => span,
        Expr::For { span, .. } => span,
        Expr::Unsafe(_, span) => span,
        Expr::Spawn(_, span) => span,
        Expr::Closure { span, .. } => span,
        Expr::Other(span) => span,
    }
}

impl Expr {
    /// Where the expression stands.
    pub fn span(&self) -> (r: Span)
        ensures
            r == expr_span(*self),
    {
        match self {
            Expr::Int(_, span) => *span,
            Expr::Float(_, span) => *span,
            Expr::Str(_, span) => *span,
            Expr::Bool(_, span) => *span,
            Expr::Ident(_, span) => *span,
            Expr::Tuple(_, span) => *span,
            Expr::ArrayLiteral(_, span) => *span,
            Expr::Index { span, .. } => *span,
            Expr::Unary { span, .. } => *span,
            Expr::Binary { span, .. } => *span,
            Expr::Block(_, span) => *span,
            Expr::If { span, .. } => *span,
            Expr::Call { span, .. } => *span,
            Expr::GenericInst { span, .. } => *span,
            Expr::Field { span, .. } => *span,
            Expr::StructLiteral { span, .. } => *span,
            Expr::Match { span, .. } => *span,
            Expr::Select { span, .. } => *span,
            Expr::For { span, .. } => *span,
            Expr::Unsafe(_, span) => *span,
            Expr::Spawn(_, span) => *span,
            Expr::Closure { span, .. } => *span,
            Expr::Other(span) => *span,
        }
    }
}

} // verus!
